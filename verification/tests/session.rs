use cachereaper_core::access::{gates, AccessState, ReadOutcome};
use cachereaper_core::config::Config;
use cachereaper_core::findings::Finding;
use cachereaper_core::history::{read_history, HistoryFile};
use cachereaper_core::path::{FsPath, Part, Platform};
use cachereaper_core::rules::{ArtifactRule, Rules, StaticRule};
use cachereaper_core::scan::{Node, NodeState, ScanStats, Tree, NONE};
use cachereaper_core::session::{
    access_status, answered, delete_targets, finding_payloads, folder, history_detail, may_reprobe,
    may_reveal, node_payloads, note_scanned, privacy_pane, progress_due, rule_ids, scan_outcome,
    scan_request, scan_stats, security_skips, volume_stats, ScanEnd, ScanRequest, ScanSlot,
    TargetInput,
};

fn path(text: &str) -> FsPath {
    let mut parts = Vec::new();
    if text.starts_with('/') {
        parts.push(Part::Root);
    }
    for name in text.split('/').filter(|name| !name.is_empty()) {
        parts.push(match name {
            ".." => Part::Parent,
            _ => Part::Normal(name.to_string()),
        });
    }
    FsPath { parts }
}

fn home() -> FsPath {
    path("/home/sam")
}

fn request(id: &str) -> ScanRequest {
    ScanRequest {
        scan_id: id.to_string(),
        root: None,
        profile_id: None,
        excluded_paths: vec![],
        excluded_rules: vec![],
    }
}

fn configured() -> Config {
    let mut config = Config::default();
    config
        .create_profile("p".to_string(), "P".to_string(), &path("/work"), Platform::Linux)
        .unwrap();
    config.add_profile_path("p", &path("/work/big"), Platform::Linux).unwrap();
    config.profiles[0].excluded_rules.push("npm".to_string());
    config.add_global_path(&path("/never"), Platform::Linux).unwrap();
    config.global_excluded_rules.push("pip".to_string());
    config
}

fn plan(request: &ScanRequest, config: &Config) -> Result<(String, Vec<String>, Vec<String>), String> {
    scan_request(request, config, &home(), Platform::Linux).map(|plan| {
        (
            plan.root.spell('/'),
            plan.excluded_paths.iter().map(|one| one.spell('/')).collect(),
            plan.excluded_rules,
        )
    })
}

#[test]
fn a_request_is_planned_with_every_exclusion() {
    let mut asked = request("1");
    asked.profile_id = Some("p".to_string());
    asked.excluded_paths = vec![path("/a/../b")];
    asked.excluded_rules = vec!["go".to_string()];
    let (root, paths, rules) = plan(&asked, &configured()).unwrap();
    assert_eq!(root, "/work");
    assert_eq!(paths, vec!["/work/big", "/never", "/b"]);
    assert_eq!(rules, vec!["npm", "pip", "go"]);
}

#[test]
fn a_request_without_a_root_is_about_home() {
    let (root, paths, rules) = plan(&request("1"), &Config::default()).unwrap();
    assert_eq!(root, "/home/sam");
    assert!(paths.is_empty());
    assert!(rules.is_empty());
    let mut asked = request("1");
    asked.root = Some(path("/x/../y"));
    assert_eq!(plan(&asked, &Config::default()).unwrap().0, "/y");
}

#[test]
fn bad_requests_are_refused() {
    let config = configured();
    let error = |asked: &ScanRequest| plan(asked, &config).unwrap_err();
    assert_eq!(error(&request(" \t")), "scan_id is required");
    let mut both = request("1");
    both.root = Some(path("/x"));
    both.profile_id = Some("p".to_string());
    assert_eq!(error(&both), "provide either root or profile_id, never both");
    let mut missing = request("1");
    missing.profile_id = Some("q".to_string());
    assert_eq!(error(&missing), "profile not found");
    let mut relative = request("1");
    relative.root = Some(path("x"));
    assert_eq!(error(&relative), "scan root must be absolute");
    let mut exclusion = request("1");
    exclusion.excluded_paths = vec![path("x")];
    assert_eq!(error(&exclusion), "path must be absolute");
}

#[test]
fn one_scan_runs_at_a_time() {
    let mut slot = ScanSlot::new();
    assert_eq!(slot.begin("a"), Ok(()));
    assert_eq!(slot.begin("b"), Err("a scan is already active".to_string()));
    assert!(!slot.cancel_scan("b"));
    assert!(!slot.is_cancelled("a"));
    assert!(!slot.end("b"));
    assert!(slot.cancel_scan("a"));
    assert!(slot.is_cancelled("a"));
    assert!(slot.end("a"), "it was cancelled");
    assert_eq!(slot.begin("b"), Ok(()));
    assert!(!slot.end("b"));
    assert!(!slot.cancel_scan("b"));
}

#[test]
fn a_cancelled_scan_is_never_shown() {
    assert_eq!(scan_outcome(false, &ScanEnd::Finished), Ok(()));
    assert_eq!(scan_outcome(true, &ScanEnd::Finished), Err("cancelled".to_string()));
    assert_eq!(scan_outcome(false, &ScanEnd::Cancelled), Err("cancelled".to_string()));
    assert_eq!(
        scan_outcome(false, &ScanEnd::Failed("gone".to_string())),
        Err("scan failed: gone".to_string())
    );
    assert_eq!(
        scan_outcome(true, &ScanEnd::Failed("gone".to_string())),
        Err("cancelled".to_string())
    );
    assert_eq!(
        scan_outcome(true, &ScanEnd::Broken("overflow".to_string())),
        Err("scan worker failed: overflow".to_string())
    );
}

#[test]
fn progress_is_sent_once_per_bucket() {
    let mut last = 0;
    assert!(!progress_due(&mut last, 19_999));
    assert!(progress_due(&mut last, 20_000));
    assert!(!progress_due(&mut last, 39_999));
    assert!(progress_due(&mut last, 60_001));
    assert_eq!(last, 3);
}

#[test]
fn scanned_roots_are_noted_once() {
    let mut roots = vec![];
    note_scanned(&mut roots, &path("/a"));
    note_scanned(&mut roots, &path("/b"));
    note_scanned(&mut roots, &path("/a"));
    assert_eq!(roots, vec![path("/a"), path("/b")]);
}

#[test]
fn folders_that_were_not_granted_are_skipped() {
    let gates = gates(Platform::MacOs, &home(), &vec![true, true, true]);
    let mut config = Config::default();
    config.record("documents", AccessState::Granted);
    config.record("downloads", AccessState::Denied);
    assert_eq!(
        security_skips(&gates, &config),
        vec![path("/home/sam/Desktop"), path("/home/sam/Downloads")]
    );
}

fn finding(node: u32, id: &str) -> Finding {
    Finding {
        node,
        path: path("/r/x"),
        rule_id: id.to_string(),
        tier: "low".to_string(),
        label: "L".to_string(),
        regen: "R".to_string(),
        warn: "W".to_string(),
        size: 9,
        source: "project",
    }
}

fn tree() -> Tree {
    let mut root = Node::new("r".to_string(), NONE, 0);
    root.children.push(1);
    root.total_size = 10;
    let mut x = Node::new("x".to_string(), 0, 1);
    x.own_size = 10;
    x.unreadable = true;
    x.state = NodeState::Unreadable;
    Tree {
        nodes: vec![root, x],
        root_path: path("/r"),
        stats: ScanStats {
            dirs: 2,
            files: 3,
            bytes: 10,
            unreadable: 1,
            excluded: 0,
            unreadable_paths: vec![path("/r/x")],
            excluded_paths: vec![],
            elapsed_ms: (1u128 << 64) + 7,
        },
    }
}

#[test]
fn nodes_are_drawn_with_their_last_finding() {
    let drawn = node_payloads(&tree(), &vec![finding(1, "a"), finding(1, "b"), finding(9, "c")]);
    assert_eq!(drawn.len(), 2);
    assert_eq!(drawn[0].p, -1);
    assert_eq!(drawn[0].c, vec![1]);
    assert_eq!(drawn[0].s, 10);
    assert_eq!(drawn[0].r, None);
    assert_eq!(drawn[0].x, "readable");
    assert_eq!(drawn[1].p, 0);
    assert_eq!(drawn[1].o, 10);
    assert!(drawn[1].u);
    assert_eq!(drawn[1].r.as_deref(), Some("b"));
    assert_eq!(drawn[1].t.as_deref(), Some("low"));
    assert_eq!(drawn[1].g.as_deref(), Some("R"));
    assert_eq!(drawn[1].x, "unreadable");
}

#[test]
fn findings_are_listed_with_their_path() {
    let listed = finding_payloads(&vec![finding(1, "a")], Platform::Linux);
    assert_eq!(listed[0].node_id, 1);
    assert_eq!(listed[0].path, "/r/x");
    assert_eq!(listed[0].warning, "W");
    assert_eq!(listed[0].source, "project");
    assert_eq!(listed[0].reclaimable_size, 9);
}

#[test]
fn figures_are_passed_on() {
    let stats = scan_stats(&tree(), Some((100, 40)), Platform::Linux);
    assert_eq!(stats.files, 3);
    assert_eq!(stats.elapsed_ms, 7);
    assert_eq!(stats.unreadable_paths, vec!["/r/x"]);
    assert_eq!(stats.volume_capacity, Some(100));
    assert_eq!(stats.volume_free, Some(40));
    assert_eq!(scan_stats(&tree(), None, Platform::Linux).volume_free, None);
    assert_eq!(
        volume_stats("Filesystem 1024-blocks Used Available\n/dev/a 8 4 3 50% /"),
        Some((8192, 3072))
    );
    assert_eq!(volume_stats("x y"), None);
}

#[test]
fn rule_ids_list_places_first() {
    let rules = Rules {
        schema: 2,
        version: String::new(),
        statics: vec![StaticRule {
            id: "s".to_string(),
            tier: String::new(),
            glob: String::new(),
            label: String::new(),
            regen: String::new(),
            children: false,
            warn: String::new(),
            system: false,
            os: "any".to_string(),
        }],
        artifacts: vec![ArtifactRule {
            dir_name: String::new(),
            id: "a".to_string(),
            tier: String::new(),
            label: String::new(),
            regen: String::new(),
            markers: vec![],
            contains: vec![],
            need_gitignored: false,
        }],
    };
    assert_eq!(rule_ids(&rules), vec!["s", "a"]);
}

#[test]
fn selections_become_targets() {
    let targets = delete_targets(&vec![TargetInput {
        path: path("/r/x"),
        shown: "/r//x/".to_string(),
        rule_id: None,
        tier: Some("low".to_string()),
        expect_name: "x".to_string(),
        size: 7,
        label: "L".to_string(),
        regen: "R".to_string(),
    }]);
    assert_eq!(targets[0].rule_id, "");
    assert_eq!(targets[0].tier, "low");
    assert_eq!(targets[0].path, path("/r/x"));
    assert_eq!(targets[0].shown, "/r//x/");
    assert_eq!(targets[0].size, 7);
}

#[test]
fn revealing_is_confined_like_deletion() {
    let scanned = vec![path("/Volumes/ext"), path("/")];
    assert_eq!(may_reveal(&path("/home/sam/x"), &home(), &scanned), Ok(()));
    assert_eq!(may_reveal(&path("/Volumes/ext/y"), &home(), &scanned), Ok(()));
    assert_eq!(
        may_reveal(&path("/etc/passwd"), &home(), &scanned),
        Err("outside allowed roots".to_string())
    );
    assert_eq!(
        may_reveal(&path("/home/sam/../../etc/passwd"), &home(), &scanned),
        Err("outside allowed roots".to_string())
    );
}

#[test]
fn one_receipt_is_found_by_its_id() {
    let history = read_history(&vec![HistoryFile {
        name: "reap-1.jsonl".to_string(),
        text: "{\"path\":\"/x\"}".to_string(),
    }]);
    assert_eq!(history_detail(&history, "reap-1").unwrap().items.len(), 1);
    assert_eq!(history_detail(&history, "other").unwrap_err(), "receipt not found");
}

#[test]
fn unknown_panes_and_folders_are_refused() {
    assert!(privacy_pane("files").is_ok());
    assert_eq!(privacy_pane("x").unwrap_err(), "unknown settings pane: x");
    let gates = gates(Platform::MacOs, &home(), &vec![true]);
    assert_eq!(folder(&gates, "desktop").unwrap().label, "Desktop");
    assert_eq!(folder(&gates, "documents").unwrap_err(), "no such folder: documents");
}

#[test]
fn only_a_denied_folder_is_read_again() {
    let gates = gates(Platform::MacOs, &home(), &vec![true, true, true]);
    let mut config = Config::default();
    config.record("documents", AccessState::Denied);
    config.record("downloads", AccessState::Denied);
    assert!(!may_reprobe(&config, &gates[0]));
    assert!(may_reprobe(&config, &gates[1]));
    let outcomes = vec![ReadOutcome::PermissionDenied, ReadOutcome::Read, ReadOutcome::PermissionDenied];
    let (rows, changed) = access_status(&mut config, &gates, &outcomes, Platform::MacOs);
    assert!(changed);
    assert_eq!(rows[0].state, AccessState::Unknown);
    assert_eq!(rows[1].state, AccessState::Granted);
    assert_eq!(rows[2].state, AccessState::Denied);
    assert_eq!(config.state_of("documents"), AccessState::Granted);
    assert_eq!(config.state_of("desktop"), AccessState::Unknown);
    assert_eq!(config.access.len(), 2, "nothing that did not change is recorded");
    let (_, again) = access_status(&mut config, &gates, &outcomes, Platform::MacOs);
    assert!(!again);
}

#[test]
fn an_answer_is_remembered_and_shown() {
    let gates = gates(Platform::MacOs, &home(), &vec![true]);
    let mut config = Config::default();
    let row = answered(&mut config, &gates[0], AccessState::Granted, Platform::MacOs);
    assert_eq!(row.state, AccessState::Granted);
    assert_eq!(config.state_of("desktop"), AccessState::Granted);
}
