use cachereaper_core::update::{UpdateInfo, UpdateProgress, UpdateSlot};

fn build(version: &str) -> UpdateInfo {
    UpdateInfo {
        version: version.to_string(),
        current: "1.6.0".to_string(),
        notes: Some("faster".to_string()),
    }
}

#[test]
fn nothing_is_installed_unless_it_was_found() {
    let mut slot = UpdateSlot::new();
    assert_eq!(slot.update_install().unwrap_err(), "no update is waiting — check again");
    assert!(slot.look_for_update(Ok(None)).unwrap().is_none());
    assert!(slot.update_install().is_err());
}

#[test]
fn what_is_installed_is_what_was_shown() {
    let mut slot = UpdateSlot::new();
    let shown = slot.look_for_update(Ok(Some(build("1.7.0")))).unwrap().unwrap();
    assert_eq!(shown.version, "1.7.0");
    assert_eq!(shown.current, "1.6.0");
    assert_eq!(shown.notes.as_deref(), Some("faster"));
    assert_eq!(slot.look_for_update(Err("offline".to_string())).unwrap_err(), "offline");
    assert_eq!(slot.update_install().unwrap().version, "1.7.0");
}

#[test]
fn a_later_check_replaces_what_is_waiting() {
    let mut slot = UpdateSlot::new();
    slot.look_for_update(Ok(Some(build("1.7.0")))).unwrap();
    slot.look_for_update(Ok(Some(build("1.8.0")))).unwrap();
    assert_eq!(slot.update_install().unwrap().version, "1.8.0");
    slot.look_for_update(Ok(None)).unwrap();
    assert!(slot.update_install().is_err());
}

#[test]
fn chunks_add_up() {
    let mut progress = UpdateProgress::new();
    progress.arrived(100, Some(400));
    progress.arrived(250, Some(400));
    assert_eq!(progress, UpdateProgress { downloaded: 350, total: Some(400) });
}
