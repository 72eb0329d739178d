use cachereaper_core::guard::{
    components, home, is_within, looks_like_cloud_dir, path_is_protected, validate_for_delete,
    Entry, HomeVars, Target,
};
use cachereaper_core::path::{FsPath, Part, Platform};

fn path(text: &str) -> FsPath {
    let mut parts = Vec::new();
    if text.starts_with('/') {
        parts.push(Part::Root);
    }
    for name in text.split('/').filter(|name| !name.is_empty()) {
        parts.push(match name {
            ".." => Part::Parent,
            _ => Part::Normal(name.to_string()),
        });
    }
    FsPath { parts }
}

fn my_home() -> FsPath {
    path("/home/sam")
}

fn target(place: &str, name: &str) -> Target {
    Target {
        path: path(place),
        shown: place.to_string(),
        rule_id: "node-modules".into(),
        tier: "medium".into(),
        expect_name: name.into(),
        size: 0,
        label: String::new(),
        regen: String::new(),
    }
}

fn judge(target: &Target, roots: Vec<FsPath>, entry: Entry) -> String {
    validate_for_delete(target, &roots, &my_home(), Platform::Linux, entry)
}

#[test]
fn cloud_hint_matches_only_at_a_name_boundary() {
    assert!(looks_like_cloud_dir("OneDrive"));
    assert!(looks_like_cloud_dir("OneDrive - Acme Corp"));
    assert!(looks_like_cloud_dir("Google Drive"));
    assert!(!looks_like_cloud_dir("megaproject"));
    assert!(!looks_like_cloud_dir("boxes"));
    assert!(!looks_like_cloud_dir("dropboxer"));
}

#[test]
fn cloud_names_are_known_in_any_case() {
    assert!(looks_like_cloud_dir("DROPBOX"));
    assert!(looks_like_cloud_dir("oneDRIVE - Ünï"));
    assert!(!looks_like_cloud_dir("DROP BOX"));
}

#[test]
fn rejects_targets_outside_allowed_roots() {
    let target = target("/private/tmp/x/node_modules", "node_modules");
    assert_eq!(judge(&target, vec![my_home()], Entry::Present), "outside allowed roots");
}

#[test]
fn a_target_that_leads_back_up_is_outside_every_root() {
    for place in ["/home/sam/../other/node_modules", "/home/sam/a/../node_modules"] {
        let target = target(place, "node_modules");
        assert_eq!(judge(&target, vec![my_home()], Entry::Present), "outside allowed roots");
    }
    assert!(path("/home/sam/../other").is_climbing());
    assert!(!path("/home/sam/other").is_climbing());
}

#[test]
fn rejects_when_the_name_changed_since_scan() {
    let target = target("/tmp/a/definitely-not-node-modules", "node_modules");
    assert_eq!(judge(&target, vec![path("/tmp")], Entry::Present), "name changed since scan");
}

#[test]
fn an_ordinary_cache_may_be_deleted() {
    let target = target("/home/sam/proj/node_modules", "node_modules");
    assert_eq!(judge(&target, vec![my_home()], Entry::Present), "");
}

#[test]
fn what_is_gone_or_a_symlink_may_not() {
    let target = target("/home/sam/proj/node_modules", "node_modules");
    assert_eq!(judge(&target, vec![my_home()], Entry::Missing), "already gone");
    assert_eq!(judge(&target, vec![my_home()], Entry::Symlink), "symlink");
}

#[test]
fn relative_targets_are_refused() {
    let target = target("proj/node_modules", "node_modules");
    assert_eq!(judge(&target, vec![path("proj")], Entry::Present), "not absolute");
}

#[test]
fn hard_blocked_components_are_refused_anywhere_in_a_path() {
    for name in [".git", ".ssh", ".gnupg", "Keychains", "Mobile Documents", "My.photoslibrary"] {
        let inside = path(&format!("/home/sam/proj/{name}/cache"));
        assert_ne!(path_is_protected(&inside, &my_home()), "", "{name} was let through");
    }
    for name in ["Dropbox", "OneDrive", "Google Drive", "Nextcloud"] {
        let inside = path(&format!("/home/sam/{name}/proj/node_modules"));
        assert_ne!(path_is_protected(&inside, &my_home()), "", "{name} was let through");
    }
    assert_eq!(path_is_protected(&path("/home/sam/proj/node_modules"), &my_home()), "");
}

#[test]
fn shallow_paths_and_home_are_refused() {
    assert_eq!(path_is_protected(&path("/"), &my_home()), "path too shallow");
    assert_eq!(path_is_protected(&path("/usr"), &my_home()), "path too shallow");
    assert_ne!(path_is_protected(&my_home(), &my_home()), "");
}

/// A Windows path, with the drive in front.
fn windows(drive: &str, below: &str) -> FsPath {
    let mut parts = vec![Part::Prefix(drive.to_string()), Part::Root];
    for name in below.split('\\').filter(|name| !name.is_empty()) {
        parts.push(Part::Normal(name.to_string()));
    }
    FsPath { parts }
}

fn judge_windows(drive: &str, below: &str, root: FsPath) -> String {
    let path = windows(drive, below);
    let target = Target {
        expect_name: path.file_name().unwrap_or_default(),
        shown: path.display(Platform::Windows),
        path,
        ..target("", "")
    };
    let home = windows("C:", "Users\\u");
    validate_for_delete(&target, &vec![root], &home, Platform::Windows, Entry::Present)
}

#[test]
fn a_drive_has_no_case() {
    for drive in ["C:", "c:"] {
        let users = windows("c:", "Users");
        assert_eq!(judge_windows(drive, "Users\\u", users), "refusing home/root");
        let home = windows("C:", "Users\\u");
        assert_eq!(judge_windows(drive, "Users\\u", home), "refusing home/root");
        let home = windows("c:", "Users\\u");
        assert_eq!(judge_windows(drive, "Users\\u\\p\\node_modules", home), "");
    }
    let home = windows("C:", "Users\\u");
    assert_eq!(judge_windows("D:", "Users\\u\\p", home), "outside allowed roots");
    assert!(is_within(&windows("c:", "A\\b"), &windows("C:", "A")));
    assert!(!is_within(&windows("c:", "a\\b"), &windows("C:", "A")));
    assert!(windows("\\\\?\\c:", "a").same(&windows("\\\\?\\C:", "a")));
    assert!(!windows("\\\\?\\C:", "a").same(&windows("C:", "a")));
}

#[test]
fn a_share_is_known_by_its_names() {
    assert!(windows("//server/share", "a").same(&windows("\\\\server\\share", "a")));
    assert!(!windows("//server/share", "a").same(&windows("//Server/share", "a")));
    assert_eq!(windows("//server/share", "a").display(Platform::Windows), "\\\\server\\share\\a");
}

#[test]
fn a_drive_does_not_make_a_path_deeper() {
    let users = windows("C:", "Users");
    assert_eq!(judge_windows("C:", "Users", users), "path too shallow");
    let root = windows("C:", "");
    assert_eq!(judge_windows("c:", "a\\b", root), "");
    let no_root = FsPath { parts: vec![Part::Prefix("C:".to_string()), Part::Normal("a".to_string())] };
    let target = Target { path: no_root, ..target("", "a") };
    let answer =
        validate_for_delete(&target, &vec![], &my_home(), Platform::Windows, Entry::Present);
    assert_eq!(answer, "not absolute");
}

#[test]
fn a_text_denotes_a_path_whatever_its_separators() {
    let place = path("/home/sam/x");
    assert!(place.is_denoted_by("/home//sam/./x/", Platform::Linux));
    assert!(!place.is_denoted_by("home/sam/x", Platform::Linux));
    assert!(!place.is_denoted_by("/home/sam/y", Platform::Linux));
    assert!(!place.is_denoted_by("\\home\\sam\\x", Platform::Linux));
    let place = windows("c:", "Users\\u");
    assert!(place.is_denoted_by("C:/Users\\\\u", Platform::Windows));
    assert!(!place.is_denoted_by("C:Users\\u", Platform::Windows));
}

#[test]
fn components_leave_the_current_directory_out() {
    let with_dot = FsPath {
        parts: vec![Part::Root, Part::Normal("a".to_string()), Part::Current],
    };
    assert_eq!(components(&with_dot), vec!["/", "a"]);
}

#[test]
fn containment_goes_by_component() {
    assert!(is_within(&path("/a/b/c"), &path("/a/b")));
    assert!(is_within(&path("/a/b"), &path("/a/b")));
    assert!(!is_within(&path("/a/bc"), &path("/a/b")));
}

fn vars(home: Option<&str>, profile: Option<&str>, drive: Option<&str>, dir: Option<&str>) -> HomeVars {
    HomeVars {
        home: home.map(str::to_string),
        user_profile: profile.map(str::to_string),
        home_drive: drive.map(str::to_string),
        home_path: dir.map(str::to_string),
    }
}

#[test]
fn home_comes_from_the_environment() {
    let unix = vars(Some("/home/sam"), None, None, None);
    assert_eq!(home(Platform::Linux, &unix), vec!["/home/sam"]);
    let windows = vars(None, Some("C:\\Users\\sam"), None, None);
    assert_eq!(home(Platform::Windows, &windows), vec!["C:\\Users\\sam"]);
}
