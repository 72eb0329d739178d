use cachereaper_core::claims::{artifact_candidates, artifact_claims, siblings_of};
use cachereaper_core::entry::Volume;
use cachereaper_core::findings::{
    all_findings, all_findings_excluding, artifact_findings, dedupe_nested, static_findings,
    Evidence, Finding,
};
use cachereaper_core::gitignore::{
    by_repo, check_ignore_args, filter_gitignored, git_path, git_repo_root, ignore_payload,
    ignored_paths, repo_probes, search_start,
};
use cachereaper_core::glob::{rule_targets, without_excluded, Expansion, Inquiry};
use cachereaper_core::path::{FsPath, Part, Platform};
use cachereaper_core::rules::{
    marker_vocabulary, ArtifactMatcher, ArtifactRule, Rules, StaticRule,
};
use cachereaper_core::scan::{Node, NodeState, ScanStats, Tree, NONE};
use cachereaper_core::walk::{Claim, ScanOptions, Walk};
use cachereaper_core::entry::Listing;

fn path(text: &str) -> FsPath {
    let mut parts = Vec::new();
    if text.starts_with('/') {
        parts.push(Part::Root);
    }
    for name in text.split('/').filter(|name| !name.is_empty()) {
        parts.push(Part::Normal(name.to_string()));
    }
    FsPath { parts }
}

fn texts(list: &[&str]) -> Vec<String> {
    list.iter().map(|text| text.to_string()).collect()
}

fn artifact(dir: &str, id: &str, markers: &[&str], contains: &[&str], gated: bool) -> ArtifactRule {
    ArtifactRule {
        dir_name: dir.to_string(),
        id: id.to_string(),
        tier: "medium".to_string(),
        label: format!("{id} output"),
        regen: format!("rebuild {id}"),
        markers: texts(markers),
        contains: texts(contains),
        need_gitignored: gated,
    }
}

fn place(id: &str, glob: &str, children: bool, system: bool, os: &str) -> StaticRule {
    StaticRule {
        id: id.to_string(),
        tier: "low".to_string(),
        glob: glob.to_string(),
        label: format!("{id} cache"),
        regen: "refetched".to_string(),
        children,
        warn: "close the app".to_string(),
        system,
        os: os.to_string(),
    }
}

/// A small table in the shape of the real one.
fn rules() -> Rules {
    Rules {
        schema: 2,
        version: "1".to_string(),
        statics: vec![
            place("npm", ".npm/_cacache", false, false, "any"),
            place("brew", "Library/Caches/Homebrew", false, false, "macos"),
            place("caches", ".cache/*", false, false, "linux"),
            place("tmp", "/var/tmp", true, true, "any"),
        ],
        artifacts: vec![
            artifact("target", "cargo-target", &["Cargo.toml"], &[], false),
            artifact("target", "maven-target", &["pom.xml"], &[], false),
            artifact("node_modules", "node-modules", &[], &[], false),
            artifact(".venv", "venv", &[], &["pyvenv.cfg"], false),
            artifact("build", "build", &[], &[], true),
            artifact("dist", "dist", &[], &[], true),
            artifact("out", "out", &[], &[], true),
            artifact("obj", "obj", &[], &[], true),
        ],
    }
}

fn matcher() -> ArtifactMatcher {
    ArtifactMatcher::new(&rules())
}

#[test]
fn ambiguous_directory_names_stay_gitignore_gated() {
    let table = rules();
    let by_name = table.by_dir_name();
    for name in ["build", "dist", "out", "obj"] {
        let group = by_name.iter().find(|group| group.name == name).expect("missing");
        for &rule in &group.rules {
            assert!(table.artifacts[rule].need_gitignored, "{name} must stay gated");
        }
    }
}

#[test]
fn markers_are_required_where_the_cli_requires_them() {
    let matcher = matcher();
    let siblings = texts(&["Cargo.toml"]);
    let empty: Vec<String> = Vec::new();

    assert!(matcher.match_dir("target", &siblings, &empty).is_some());
    assert!(
        matcher.match_dir("target", &empty, &empty).is_none(),
        "target/ without Cargo.toml or pom.xml must not be claimed"
    );
    assert!(
        matcher.match_dir("node_modules", &empty, &empty).is_some(),
        "node_modules is unambiguous"
    );
}

#[test]
fn the_first_rule_that_fits_claims() {
    let matcher = matcher();
    let both = texts(&["pom.xml", "Cargo.toml"]);
    let empty: Vec<String> = Vec::new();
    assert_eq!(matcher.match_dir("target", &both, &empty).unwrap().id, "cargo-target");
    let maven = texts(&["pom.xml"]);
    assert_eq!(matcher.match_dir("target", &maven, &empty).unwrap().id, "maven-target");
    assert!(matcher.match_dir(".venv", &empty, &empty).is_none());
    assert_eq!(matcher.wanted(".venv"), texts(&["pyvenv.cfg"]));
    assert!(matcher.match_dir(".venv", &empty, &texts(&["pyvenv.cfg"])).is_some());
    assert!(matcher.match_dir("src", &both, &empty).is_none());
    assert!(matcher.has_rule_for("dist"));
    assert!(!matcher.has_rule_for("src"));
}

#[test]
fn the_vocabulary_names_every_marker_once() {
    let mut table = rules();
    table.artifacts.push(artifact("Pods", "pods", &["Podfile", "pom.xml"], &[], false));
    let mut words = marker_vocabulary(&table);
    words.sort();
    assert_eq!(words, texts(&["Cargo.toml", "Podfile", "pom.xml"]));
}

#[test]
fn rules_are_grouped_by_directory_name() {
    let table = rules();
    let groups = table.by_dir_name();
    assert_eq!(groups.len(), 7);
    assert_eq!(groups[0].name, "target");
    assert_eq!(groups[0].rules, vec![0, 1]);
}

#[test]
fn rules_apply_to_their_own_platform() {
    let table = rules();
    assert!(table.statics[0].applies_here(Platform::Windows));
    assert!(table.statics[1].applies_here(Platform::MacOs));
    assert!(!table.statics[1].applies_here(Platform::Linux));
    assert!(table.statics[2].applies_here(Platform::Linux));
}

/// A tree of directories given by their paths below the root, parents first.
fn tree(root: &str, dirs: &[&str], markers: &[(&str, &str)], excluded: &[&str]) -> Tree {
    let mut nodes = vec![Node::new("root".to_string(), NONE, 0)];
    let mut known = vec![String::new()];
    for dir in dirs {
        let (up, name) = match dir.rfind('/') {
            Some(at) => (&dir[..at], &dir[at + 1..]),
            None => ("", *dir),
        };
        let parent = known.iter().position(|one| one == up).expect("parent first");
        let depth = nodes[parent].depth + 1;
        let idx = nodes.len() as u32;
        nodes[parent].children.push(idx);
        let mut node = Node::new(name.to_string(), parent as u32, depth);
        node.total_size = 100 + idx as u64;
        nodes.push(node);
        known.push(dir.to_string());
    }
    for (dir, marker) in markers {
        let at = known.iter().position(|one| one == dir).unwrap();
        nodes[at].markers.push(marker.to_string());
    }
    Tree {
        nodes,
        root_path: path(root),
        stats: ScanStats {
            dirs: 0,
            files: 0,
            bytes: 0,
            unreadable: 0,
            excluded: 0,
            unreadable_paths: vec![],
            excluded_paths: excluded.iter().map(|text| path(text)).collect(),
            elapsed_ms: 0,
        },
    }
}

fn no_evidence() -> Evidence {
    Evidence { inside: vec![], with_git: vec![], ignored: vec![], targets: vec![] }
}

fn shown(findings: &[Finding]) -> Vec<String> {
    findings.iter().map(|one| format!("{} {}", one.rule_id, one.path.spell('/'))).collect()
}

#[test]
fn candidates_stay_out_of_hidden_and_reserved_places() {
    let tree = tree(
        "/h",
        &[
            "Library",
            "Library/node_modules",
            "p",
            "p/Library",
            "p/Library/node_modules",
            "p/.hidden",
            "p/.hidden/node_modules",
            "p/.venv",
            "p/.venv/node_modules",
            "p/skipme",
            "p/skipme/node_modules",
        ],
        &[],
        &["/h/p/skipme"],
    );
    let found: Vec<String> = artifact_candidates(&tree, &matcher())
        .into_iter()
        .map(|node| tree.path_of(node).spell('/'))
        .collect();
    assert_eq!(found, texts(&["/h/p/Library/node_modules", "/h/p/.venv", "/h/p/.venv/node_modules"]));
}

#[test]
fn siblings_are_directories_and_markers_beside() {
    let tree = tree("/h", &["p", "p/a", "p/b"], &[("p", "Cargo.toml")], &[]);
    assert_eq!(siblings_of(&tree.nodes, 2), texts(&["a", "b", "Cargo.toml"]));
}

#[test]
fn claims_wait_for_git_where_a_name_is_ambiguous() {
    let tree = tree("/h", &["p", "p/build", "p/target", "p/.venv"], &[("p", "Cargo.toml")], &[]);
    let matcher = matcher();
    let inside = vec![vec![], vec![], texts(&["pyvenv.cfg"])];
    let claims = artifact_claims(&tree, &matcher, &inside);
    let direct: Vec<&str> = claims.direct.iter().map(|claim| claim.rule.id.as_str()).collect();
    assert_eq!(direct, vec!["cargo-target", "venv"]);
    assert_eq!(claims.deferred.len(), 1);
    assert_eq!(claims.deferred[0].path, path("/h/p/build"));
    let unseen = artifact_claims(&tree, &matcher, &vec![]);
    assert_eq!(unseen.direct.len(), 1, "what was not found inside is not there");
}

#[test]
fn nothing_inside_a_claimed_artifact_is_claimed_again() {
    let tree = tree(
        "/h",
        &[
            "p",
            "p/build",
            "p/build/node_modules",
            "p/node_modules",
            "p/node_modules/x",
            "p/node_modules/x/node_modules",
            "p/node_modules/x/dist",
            "q",
            "q/node_modules",
        ],
        &[],
        &[],
    );
    let claims = artifact_claims(&tree, &matcher(), &vec![]);
    assert_eq!(claims.direct.len(), 4);
    assert_eq!(claims.deferred.len(), 2);

    let found = |ignored: Option<&str>| {
        let evidence = Evidence {
            with_git: vec![path("/h/p")],
            ignored: vec![ignored.map(str::to_string)],
            ..no_evidence()
        };
        shown(&artifact_findings(&tree, Platform::Linux, &rules(), &evidence))
    };
    assert_eq!(
        found(Some("/h/p/build\n/h/p/node_modules/x/dist\n")),
        texts(&[
            "node-modules /h/p/node_modules",
            "node-modules /h/q/node_modules",
            "build /h/p/build",
        ])
    );
    assert_eq!(
        found(Some("")),
        texts(&[
            "node-modules /h/p/build/node_modules",
            "node-modules /h/p/node_modules",
            "node-modules /h/q/node_modules",
        ]),
        "a build that git does not ignore is no artifact, and hides nothing"
    );
    assert_eq!(found(None), found(Some("")));
}

#[test]
fn node_modules_are_always_claimed() {
    let tree = tree("/h", &["p", "p/build", "p/build/node_modules"], &[], &[]);
    let found = artifact_findings(&tree, Platform::Linux, &rules(), &no_evidence());
    assert_eq!(shown(&found), texts(&["node-modules /h/p/build/node_modules"]));
}

#[test]
fn only_what_git_ignores_is_kept() {
    let tree = tree("/h", &["p", "p/build", "p/dist", "q", "q/out", "loose", "loose/obj"], &[], &[]);
    let claims = artifact_claims(&tree, &matcher(), &vec![]);
    assert_eq!(claims.deferred.len(), 4);
    let with_git = vec![path("/h/p"), path("/h/q")];
    let groups = by_repo(&claims.deferred, &with_git);
    assert_eq!(groups.len(), 2);
    assert_eq!(groups[0].repo, path("/h/p"));
    assert_eq!(ignore_payload(&groups[0].items, Platform::Linux), "/h/p/build\n/h/p/dist");
    let kept = filter_gitignored(
        &claims.deferred,
        &with_git,
        &vec![Some("/h/p/dist\n\n".to_string()), None],
        Platform::Linux,
    );
    let paths: Vec<String> = kept.iter().map(|claim| claim.path.spell('/')).collect();
    assert_eq!(paths, texts(&["/h/p/dist"]));

    let all = filter_gitignored(
        &claims.deferred,
        &with_git,
        &vec![Some("/h/p/build\r\n/h/p/dist".to_string()), Some(" /h/q/out ".to_string())],
        Platform::Linux,
    );
    assert_eq!(all.len(), 3, "a path outside any repository is dropped");
}

#[test]
fn the_nearest_repository_counts() {
    let with_git = vec![path("/h"), path("/h/p/sub")];
    assert_eq!(git_repo_root(&path("/h/p/sub/x"), &with_git), Some(path("/h/p/sub")));
    assert_eq!(git_repo_root(&path("/h/p"), &with_git), Some(path("/h")));
    assert_eq!(git_repo_root(&path("/elsewhere"), &with_git), None);
    assert_eq!(
        repo_probes(&path("/a/b")),
        vec![path("/a/b"), path("/a"), path("/")]
    );
    assert_eq!(search_start(&path("/a/b")), path("/a"));
}

#[test]
fn git_is_spoken_to_with_forward_slashes() {
    let windows = FsPath {
        parts: vec![
            Part::Prefix("C:".to_string()),
            Part::Root,
            Part::Normal("p".to_string()),
            Part::Normal("dist".to_string()),
        ],
    };
    assert_eq!(git_path(&windows, Platform::Windows), "C:/p/dist");
    assert_eq!(git_path(&path("/p/dist"), Platform::Linux), "/p/dist");
    assert_eq!(
        check_ignore_args(&path("/p"), Platform::Linux),
        texts(&["-C", "/p", "check-ignore", "--stdin"])
    );
    assert_eq!(ignored_paths(" a \n\n b\r\n"), texts(&["a", "b"]));
}

fn finding(place: &str, id: &str) -> Finding {
    Finding {
        node: 0,
        path: path(place),
        rule_id: id.to_string(),
        tier: String::new(),
        label: String::new(),
        regen: String::new(),
        warn: String::new(),
        size: 1,
        source: "static",
    }
}

#[test]
fn nested_findings_are_dropped_and_the_outermost_kept() {
    let kept = dedupe_nested(vec![
        finding("/a/b-c", "1"),
        finding("/a/b/c", "2"),
        finding("/a/b", "3"),
        finding("/a/b", "4"),
        finding("/z", "5"),
        finding("/a/b/c/d", "6"),
    ]);
    assert_eq!(shown(&kept), texts(&["3 /a/b", "1 /a/b-c", "5 /z"]));
    let again = dedupe_nested(kept);
    assert_eq!(again.len(), 3);
}

#[test]
fn the_first_static_rule_to_claim_a_path_wins() {
    let table = rules();
    let tree = tree(
        "/home/sam",
        &[".npm", ".npm/_cacache", ".cache", ".cache/pip", ".cache/.git"],
        &[],
        &["/home/sam/.cache/left-out"],
    );
    let targets = vec![
        vec![path("/home/sam/.npm/_cacache")],
        vec![path("/home/sam/.cache")],
        vec![
            path("/home/sam/.npm/_cacache"),
            path("/home/sam/.cache/pip"),
            path("/home/sam/.cache/.git"),
            path("/home/sam/.cache/left-out"),
            path("/home/sam/.cache/not-scanned"),
        ],
        vec![path("/home/sam/.cache")],
    ];
    let found = static_findings(&tree, &path("/home/sam"), Platform::Linux, false, &table, &targets);
    assert_eq!(
        shown(&found),
        texts(&["npm /home/sam/.npm/_cacache", "caches /home/sam/.cache/pip"])
    );
    assert_eq!(found[0].size, 102);
    assert_eq!(found[0].source, "static");
    assert_eq!(found[0].warn, "close the app");
    let with_system =
        static_findings(&tree, &path("/home/sam"), Platform::Linux, true, &table, &targets);
    assert_eq!(with_system.len(), 3);
    assert_eq!(with_system[2].rule_id, "tmp");
}

#[test]
fn all_findings_are_artifacts_and_places_without_nesting() {
    let table = rules();
    let tree = tree(
        "/home/sam",
        &[
            ".cache",
            ".cache/pip",
            "p",
            "p/node_modules",
            "p/node_modules/x",
            "p/node_modules/x/node_modules",
            "p/build",
        ],
        &[],
        &[],
    );
    let evidence = Evidence {
        inside: vec![],
        with_git: vec![path("/home/sam/p")],
        ignored: vec![Some("/home/sam/p/build\n".to_string())],
        targets: vec![vec![], vec![], vec![path("/home/sam/.cache/pip")], vec![]],
    };
    assert_eq!(artifact_findings(&tree, Platform::Linux, &table, &evidence).len(), 2);
    let home = path("/home/sam");
    let found = all_findings(&tree, &home, Platform::Linux, false, &table, &evidence);
    assert_eq!(
        shown(&found),
        texts(&[
            "caches /home/sam/.cache/pip",
            "build /home/sam/p/build",
            "node-modules /home/sam/p/node_modules",
        ])
    );
    assert_eq!(found[2].source, "project");
    assert_eq!(found[2].warn, "");
    let fewer = all_findings_excluding(
        &tree,
        &home,
        Platform::Linux,
        false,
        &table,
        &evidence,
        &texts(&["build", "caches"]),
    );
    assert_eq!(shown(&fewer), texts(&["node-modules /home/sam/p/node_modules"]));
}

/// Walk a disk on which everything that is not listed is empty.
fn walk(root: &str, dirs: &[(&str, &[&str])], excluded: &[&str]) -> Tree {
    let options = ScanOptions {
        excluded_paths: excluded.iter().map(|text| path(text)).collect(),
        ..ScanOptions::default()
    };
    let mut walk =
        Walk::start(&path(root), true, Volume::Device(1), &vec![], &options, Platform::Linux).unwrap();
    while let Claim::Work(work) = walk.claim() {
        let listing = match work.shut {
            Some(state) => Listing::sealed(state),
            None => {
                let at = work.path.spell('/');
                let mut listing = Listing::sealed(NodeState::Readable);
                listing.own_size = 8192;
                listing.own_files = 1;
                if let Some((_, subdirs)) = dirs.iter().find(|(dir, _)| *dir == at) {
                    listing.subdirs = texts(subdirs);
                }
                listing
            }
        };
        walk.publish(work.idx, listing);
    }
    walk.finish(0)
}

#[test]
fn excluded_artifact_keeps_tree_boundary_without_becoming_a_finding() {
    let tree = walk(
        "/r",
        &[("/r", &["node_modules"]), ("/r/node_modules", &["package"])],
        &["/r/node_modules"],
    );
    assert_eq!(tree.nodes.len(), 2);
    let found =
        all_findings(&tree, &path("/h"), Platform::Linux, false, &rules(), &no_evidence());
    assert!(found.is_empty());
    assert_eq!(tree.stats.excluded_paths, vec![path("/r/node_modules")]);
}

#[test]
fn rule_exclusion_suppresses_finding_without_removing_tree_bytes() {
    let tree = walk(
        "/r",
        &[("/r", &["node_modules"]), ("/r/node_modules", &["package"])],
        &[],
    );
    assert!(tree.root().total_size > 0);
    let found =
        all_findings(&tree, &path("/h"), Platform::Linux, false, &rules(), &no_evidence());
    assert_eq!(found.len(), 1);
    let excluded = texts(&["node-modules"]);
    let left = all_findings_excluding(
        &tree,
        &path("/h"),
        Platform::Linux,
        false,
        &rules(),
        &no_evidence(),
        &excluded,
    );
    assert!(left.is_empty());
    assert!(tree.root().total_size > 0);
}

#[test]
fn findings_together_fit_in_the_root() {
    let tree = walk(
        "/home/sam",
        &[
            ("/home/sam", &["p", ".cache"]),
            ("/home/sam/p", &["node_modules", "build"]),
            ("/home/sam/p/node_modules", &["a", "b"]),
            ("/home/sam/p/node_modules/a", &["node_modules"]),
            ("/home/sam/.cache", &["pip"]),
        ],
        &[],
    );
    let evidence = Evidence {
        targets: vec![
            vec![],
            vec![],
            vec![path("/home/sam/.cache/pip"), path("/home/sam/p/node_modules/b")],
            vec![],
        ],
        ..no_evidence()
    };
    let found =
        all_findings(&tree, &path("/home/sam"), Platform::Linux, false, &rules(), &evidence);
    assert_eq!(
        shown(&found),
        texts(&["caches /home/sam/.cache/pip", "node-modules /home/sam/p/node_modules"])
    );
    let together: u64 = found.iter().map(|one| one.size).sum();
    assert_eq!(together, 5 * 8192);
    assert_eq!(tree.root().total_size, 9 * 8192);
}

/// Expand a rule on a disk of plain paths.
fn expand(rule: &StaticRule, tree: &Tree, disk: &[&str]) -> Vec<String> {
    let mut expansion = Expansion::start(rule, &path("/home/sam"));
    loop {
        match expansion.inquire(tree) {
            Inquiry::Done(places) => return places.iter().map(|one| one.spell('/')).collect(),
            Inquiry::Entries(dirs) => {
                let lists = dirs
                    .iter()
                    .map(|dir| {
                        disk.iter()
                            .map(|text| path(text))
                            .filter(|one| one.parent().as_ref() == Some(dir))
                            .collect()
                    })
                    .collect();
                expansion.entries(lists);
            }
            Inquiry::Existence(candidates) => {
                let there =
                    candidates.iter().map(|one| disk.contains(&one.spell('/').as_str())).collect();
                expansion.existence(there);
            }
        }
    }
}

#[test]
fn globs_are_expanded_name_by_name() {
    let disk = [
        "/home/sam/.cache",
        "/home/sam/.cache/pip",
        "/home/sam/.cache/npm",
        "/home/sam/.cache/pip/http",
        "/var",
        "/var/tmp",
    ];
    let tree = tree("/home/sam", &[".cache"], &[], &[]);
    let at = |glob: &str| expand(&place("r", glob, false, false, "any"), &tree, &disk);
    assert_eq!(at(".cache/*"), texts(&["/home/sam/.cache/pip", "/home/sam/.cache/npm"]));
    assert_eq!(at(".cache/*/http"), texts(&["/home/sam/.cache/pip/http"]));
    assert_eq!(at("/var//tmp/"), texts(&["/var/tmp"]));
    assert!(at(".cache/none/*").is_empty());
    assert_eq!(at(""), texts(&["/home/sam"]));
}

#[test]
fn globs_do_not_look_into_what_was_left_out() {
    let disk = ["/home/sam/.cache", "/home/sam/.cache/pip"];
    let tree = tree("/home/sam", &[".cache"], &[], &["/home/sam/.cache"]);
    assert!(expand(&place("r", ".cache/*", false, false, "any"), &tree, &disk).is_empty());
    assert_eq!(
        without_excluded(&tree, &vec![path("/home/sam/.cache/x"), path("/home/sam/y")]),
        vec![path("/home/sam/y")]
    );
}

#[test]
fn a_rule_points_at_its_places_or_at_what_is_inside() {
    let places = || vec![path("/a")];
    let lists = || vec![vec![path("/a/x"), path("/a/y")]];
    assert_eq!(
        rule_targets(&place("r", "", false, false, "any"), places(), lists()),
        vec![path("/a")]
    );
    assert_eq!(
        rule_targets(&place("r", "", true, false, "any"), places(), lists()),
        vec![path("/a/x"), path("/a/y")]
    );
}
