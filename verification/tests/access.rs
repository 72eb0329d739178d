use cachereaper_core::access::{
    full_disk_access, full_disk_path, gate, gates, gates_under, never_walk, open_pane,
    possible_gates, probe, revoke, revoke_args, AccessState, Gate, GateStatus, ReadOutcome,
    SettingsPane, ToolOutcome,
};
use cachereaper_core::guard::is_within;
use cachereaper_core::path::{FsPath, Part, Platform};

fn path(text: &str) -> FsPath {
    let mut parts = Vec::new();
    if text.starts_with('/') {
        parts.push(Part::Root);
    }
    for name in text.split('/').filter(|name| !name.is_empty()) {
        parts.push(Part::Normal(name.to_string()));
    }
    FsPath { parts }
}

fn home() -> FsPath {
    path("/Users/sam")
}

fn all_gates() -> Vec<Gate> {
    gates(Platform::MacOs, &home(), &vec![true, true, true])
}

#[test]
fn unknown_is_the_default_so_an_absent_record_never_reads_as_denied() {
    assert_eq!(AccessState::default(), AccessState::Unknown);
    assert_ne!(AccessState::Unknown, AccessState::Denied);
}

#[test]
fn probing_a_readable_directory_reports_granted() {
    assert_eq!(probe(ReadOutcome::Read), AccessState::Granted);
}

#[test]
fn probing_an_unreadable_directory_reports_denied() {
    assert_eq!(probe(ReadOutcome::PermissionDenied), AccessState::Denied);
}

#[test]
fn a_missing_directory_is_not_recorded_as_an_answer() {
    assert_eq!(probe(ReadOutcome::Failed), AccessState::Unknown);
}

#[test]
fn every_gate_lives_inside_home_and_resolves_by_id() {
    let home = home();
    let listed = all_gates();
    assert_eq!(listed.len(), 3);
    for one in &listed {
        assert!(is_within(&one.path, &home), "{:?} escaped home", one.path);
        assert!(!one.service.is_empty(), "{} has no service", one.id);
        let found = gate(&listed, &one.id).expect("a listed gate must resolve by id");
        assert_eq!(found.path, one.path);
    }
}

#[test]
fn an_id_we_do_not_know_resolves_to_nothing() {
    let listed = all_gates();
    assert!(gate(&listed, "").is_none());
    assert!(gate(&listed, "../../etc").is_none());
    assert!(gate(&listed, "SystemPolicyAllFiles").is_none());
}

#[test]
fn a_root_outside_the_gated_folders_asks_for_nothing() {
    assert!(gates_under(&all_gates(), &path("/tmp/cachereaper-access")).is_empty());
    assert!(gates_under(&all_gates(), &path("/Users/sam/Programming")).is_empty());
}

#[test]
fn scanning_home_asks_for_every_gate() {
    assert_eq!(gates_under(&all_gates(), &home()).len(), all_gates().len());
}

#[test]
fn only_the_two_known_panes_resolve() {
    assert_eq!(SettingsPane::from_id("files"), Some(SettingsPane::FilesAndFolders));
    assert_eq!(SettingsPane::from_id("full-disk"), Some(SettingsPane::FullDisk));
    assert!(SettingsPane::from_id("anything-else").is_none());
    assert!(SettingsPane::from_id("").is_none());
}

#[test]
fn only_folders_that_exist_are_gated() {
    let some = gates(Platform::MacOs, &home(), &vec![true, false, true]);
    let ids: Vec<&str> = some.iter().map(|one| one.id.as_str()).collect();
    assert_eq!(ids, vec!["desktop", "downloads"]);
    assert!(gates(Platform::MacOs, &home(), &vec![]).is_empty());
    assert_eq!(some[0].path, path("/Users/sam/Desktop"));
    assert_eq!(some[0].label, "Desktop");
    assert_eq!(some[1].service, "SystemPolicyDownloadsFolder");
}

#[test]
fn nothing_is_gated_outside_macos() {
    assert!(possible_gates(Platform::Linux, &home()).is_empty());
    assert!(gates(Platform::Windows, &home(), &vec![true, true, true]).is_empty());
}

#[test]
fn photos_libraries_and_private_stores_are_never_walked() {
    let pictures = vec![
        path("/Users/sam/Pictures/Photos Library.photoslibrary"),
        path("/Users/sam/Pictures/holiday.jpg"),
        path("/Users/sam/Pictures/.photoslibrary"),
        path("/Users/sam/Pictures/Old.photoslibrary"),
        path("/Users/sam/Pictures/photoslibrary"),
    ];
    let refused = never_walk(Platform::MacOs, &home(), &pictures);
    assert_eq!(
        refused,
        vec![
            path("/Users/sam/Library/Application Support/AddressBook"),
            path("/Users/sam/Library/Calendars"),
            path("/Users/sam/Library/Reminders"),
            path("/Users/sam/Pictures/Photos Library.photoslibrary"),
            path("/Users/sam/Pictures/Old.photoslibrary"),
        ]
    );
    assert!(never_walk(Platform::Linux, &home(), &pictures).is_empty());
}

#[test]
fn full_disk_access_is_granted_only_by_a_clean_read() {
    assert_eq!(
        full_disk_path(&home()),
        path("/Users/sam/Library/Application Support/com.apple.TCC")
    );
    assert_eq!(full_disk_access(Platform::MacOs, ReadOutcome::Read), AccessState::Granted);
    assert_eq!(
        full_disk_access(Platform::MacOs, ReadOutcome::PermissionDenied),
        AccessState::Denied
    );
    assert_eq!(full_disk_access(Platform::MacOs, ReadOutcome::Failed), AccessState::Denied);
    assert_eq!(full_disk_access(Platform::Linux, ReadOutcome::Failed), AccessState::Granted);
}

#[test]
fn revoking_reports_what_the_tool_said() {
    let desktop = &all_gates()[0];
    assert_eq!(
        revoke_args(desktop, "dev.sam.cachereaper"),
        vec!["reset", "SystemPolicyDesktopFolder", "dev.sam.cachereaper"]
    );
    assert_eq!(revoke(Platform::MacOs, desktop, &ToolOutcome::Succeeded), Ok(()));
    assert_eq!(
        revoke(Platform::MacOs, desktop, &ToolOutcome::NotRun("gone".to_string())),
        Err("could not run tccutil: gone".to_string())
    );
    assert_eq!(
        revoke(Platform::MacOs, desktop, &ToolOutcome::Failed("  no such service\n".to_string())),
        Err("no such service".to_string())
    );
    assert_eq!(
        revoke(Platform::MacOs, desktop, &ToolOutcome::Failed(" \n".to_string())),
        Err("tccutil could not reset Desktop".to_string())
    );
    assert_eq!(
        revoke(Platform::Linux, desktop, &ToolOutcome::Succeeded),
        Err("nothing to revoke outside macOS".to_string())
    );
}

#[test]
fn panes_have_fixed_addresses() {
    assert!(SettingsPane::FilesAndFolders.url().ends_with("?Privacy_FilesAndFolders"));
    assert!(SettingsPane::FullDisk.url().ends_with("?Privacy_AllFiles"));
    assert_eq!(open_pane(Platform::MacOs, None), Ok(()));
    assert_eq!(
        open_pane(Platform::MacOs, Some("no opener")),
        Err("could not open System Settings: no opener".to_string())
    );
    assert_eq!(
        open_pane(Platform::Windows, None),
        Err("System Settings is macOS only".to_string())
    );
}

#[test]
fn a_row_carries_the_path_as_text() {
    let row = GateStatus::new(&all_gates()[1], AccessState::Denied, Platform::MacOs);
    assert_eq!(row.id, "documents");
    assert_eq!(row.label, "Documents");
    assert_eq!(row.path, "/Users/sam/Documents");
    assert_eq!(row.state, AccessState::Denied);
}
