use cachereaper_core::guard::{Entry, Target};
use cachereaper_core::history::valid_receipt_filename;
use cachereaper_core::path::{FsPath, Part, Platform};
use cachereaper_core::purge::{
    allowed_roots, log_path, purge, receipt_item, root_of_session, Phase, Purge,
};

fn path(text: &str) -> FsPath {
    let mut parts = Vec::new();
    if text.starts_with('/') {
        parts.push(Part::Root);
    }
    for name in text.split('/').filter(|name| !name.is_empty()) {
        parts.push(match name {
            ".." => Part::Parent,
            _ => Part::Normal(name.to_string()),
        });
    }
    FsPath { parts }
}

fn home() -> FsPath {
    path("/home/sam")
}

fn target(place: &str, name: &str) -> Target {
    Target {
        path: path(place),
        shown: place.to_string(),
        rule_id: "node-modules".into(),
        tier: "medium".into(),
        expect_name: name.into(),
        size: 4096,
        label: "Installed packages".into(),
        regen: "npm install".into(),
    }
}

/// A disk on which every directory listed exists.
struct Disk {
    there: Vec<String>,
    log: Vec<String>,
    open_error: Option<String>,
    remove_error: Option<String>,
    append_error: Option<String>,
    finish_error: Option<String>,
}

fn disk(there: &[&str]) -> Disk {
    Disk {
        there: there.iter().map(|text| text.to_string()).collect(),
        log: Vec::new(),
        open_error: None,
        remove_error: None,
        append_error: None,
        finish_error: None,
    }
}

fn run(session: &mut Purge, disk: &mut Disk) {
    loop {
        match session.phase() {
            Phase::Opening => match &disk.open_error {
                Some(error) => session.open_failed(error),
                None => {
                    let header = session.header("id", 1);
                    disk.log.push(format!("header {} {}", header.root, header.estimated_bytes));
                    session.opened("id");
                }
            },
            Phase::Inspecting => {
                let place = session.target().path.spell('/');
                let entry = if disk.there.contains(&place) {
                    Entry::Present
                } else {
                    Entry::Missing
                };
                session.inspected(entry);
            }
            Phase::Removing => match &disk.remove_error {
                Some(error) => session.remove_failed(error),
                None => {
                    let place = session.target().path.spell('/');
                    disk.there.retain(|one| *one != place);
                    session.removed();
                }
            },
            Phase::Appending { .. } => match &disk.append_error {
                Some(error) => session.append_failed(error),
                None => {
                    let item = session.pending_item();
                    disk.log.push(format!("{} {} {}", item.status, item.path, item.reason));
                    session.appended();
                }
            },
            Phase::Summing => match &disk.finish_error {
                Some(error) => session.finish_failed(error),
                None => {
                    let summary = session.summary(2, Some(15));
                    disk.log.push(format!(
                        "summary {} {} {} {}",
                        summary.removed_count,
                        summary.skipped_count,
                        summary.estimated_removed_bytes,
                        summary.complete
                    ));
                    session.finished();
                }
            },
            Phase::Done => return,
        }
    }
}

fn session(targets: Vec<Target>, allowed: Vec<FsPath>, dry_run: bool) -> Purge {
    purge(targets, allowed, home(), Platform::Linux, dry_run, Some(10))
}

#[test]
fn removes_the_target_and_leaves_source_alone() {
    let mut disk = disk(&["/r/proj/node_modules", "/r/proj/src"]);
    let mut session = session(
        vec![target("/r/proj/node_modules", "node_modules")],
        vec![path("/r")],
        false,
    );
    run(&mut session, &mut disk);
    assert_eq!(session.result().removed, 1);
    assert_eq!(session.result().freed, 4096);
    assert!(session.result().skipped.is_empty(), "{:?}", session.result().skipped);
    assert_eq!(session.result().receipt_id.as_deref(), Some("id"));
    assert_eq!(disk.there, vec!["/r/proj/src"], "source must survive");
    assert_eq!(
        disk.log,
        vec!["header /r 4096", "removed /r/proj/node_modules ", "summary 1 0 4096 true"]
    );
}

#[test]
fn dry_run_removes_nothing() {
    let mut disk = disk(&["/r/proj/node_modules"]);
    let mut session = session(
        vec![
            target("/r/proj/node_modules", "node_modules"),
            target("/r/proj/other", "node_modules"),
        ],
        vec![path("/r")],
        true,
    );
    run(&mut session, &mut disk);
    assert_eq!(session.result().removed, 1);
    assert_eq!(session.result().freed, 4096);
    assert_eq!(session.result().skipped, vec!["/r/proj/other: name changed since scan"]);
    assert!(session.result().receipt_id.is_none());
    assert_eq!(disk.there, vec!["/r/proj/node_modules"], "dry run deleted a path");
    assert!(disk.log.is_empty());
}

#[test]
fn receipt_failure_aborts_before_deletion() {
    let mut disk = disk(&["/r/proj/node_modules"]);
    disk.open_error = Some("not a directory".to_string());
    let mut session = session(
        vec![target("/r/proj/node_modules", "node_modules")],
        vec![path("/r")],
        false,
    );
    run(&mut session, &mut disk);
    assert_eq!(session.result().removed, 0);
    assert!(session.result().audit_error.is_some());
    assert_eq!(
        session.result().skipped,
        vec!["deletion aborted: could not open the audit log: not a directory"]
    );
    assert_eq!(disk.there.len(), 1, "deletion began without a durable header");
}

#[test]
fn refuses_a_target_outside_the_allowed_roots() {
    let mut disk = disk(&["/r/proj/node_modules"]);
    let mut session =
        session(vec![target("/r/proj/node_modules", "node_modules")], vec![home()], false);
    run(&mut session, &mut disk);
    assert_eq!(session.result().removed, 0);
    assert_eq!(session.result().skipped.len(), 1);
    assert!(session.result().skipped[0].contains("outside allowed roots"));
    assert_eq!(disk.there.len(), 1);
}

#[test]
fn refuses_when_the_name_changed_since_the_scan() {
    let mut disk = disk(&["/r/proj/src"]);
    let mut session = session(vec![target("/r/proj/src", "node_modules")], vec![path("/r")], false);
    run(&mut session, &mut disk);
    assert_eq!(session.result().removed, 0);
    assert!(session.result().skipped[0].contains("name changed since scan"));
    assert_eq!(disk.there.len(), 1);
}

#[test]
fn refuses_protected_paths_even_when_asked_directly() {
    let mut disk = disk(&["/r/proj/.git"]);
    let mut session = session(vec![target("/r/proj/.git", ".git")], vec![path("/r")], false);
    run(&mut session, &mut disk);
    assert_eq!(session.result().removed, 0);
    assert!(session.result().skipped[0].contains("protected component"));
    assert_eq!(disk.there.len(), 1);
}

fn mixed_bag() -> Vec<Target> {
    let mut targets = vec![
        target("/r/p/node_modules", "node_modules"),
        target("/r/p/gone", "gone"),
        target("/r/p/.git", ".git"),
        target("/r/q/node_modules", "node_modules"),
    ];
    targets[0].size = 100;
    targets[1].size = 20;
    targets[2].size = 3;
    targets[3].size = 4000;
    targets
}

#[test]
fn a_session_reports_the_bytes_of_exactly_what_went() {
    let mut disk = disk(&["/r/p/node_modules", "/r/p/.git", "/r/q/node_modules"]);
    let mut session = session(mixed_bag(), vec![path("/r")], false);
    run(&mut session, &mut disk);
    assert_eq!(session.result().freed, 4100);
    assert_eq!(session.result().removed, 2);
    assert_eq!(session.summary(0, None).skipped_count, 2);
    assert_eq!(session.result().skipped, vec!["/r/p/.git: protected component: .git"]);
    assert_eq!(disk.there, vec!["/r/p/.git"]);
    assert_eq!(disk.log.last().unwrap(), "summary 2 2 4100 true");
}

#[test]
fn a_dry_run_rehearses_the_session() {
    let there = ["/r/p/node_modules", "/r/p/.git", "/r/q/node_modules"];
    let mut rehearsal = session(mixed_bag(), vec![path("/r")], true);
    run(&mut rehearsal, &mut disk(&there));
    let mut done = session(mixed_bag(), vec![path("/r")], false);
    run(&mut done, &mut disk(&there));
    assert_eq!(rehearsal.result().freed, done.result().freed);
    assert_eq!(rehearsal.result().removed, done.result().removed);
    assert_eq!(rehearsal.result().skipped, done.result().skipped);
}

#[test]
fn what_is_already_gone_is_counted_but_not_worth_a_word() {
    let mut disk = disk(&[]);
    let mut session = session(vec![target("/r/p/node_modules", "node_modules")], vec![path("/r")], false);
    run(&mut session, &mut disk);
    assert!(session.result().skipped.is_empty());
    assert_eq!(session.summary(0, None).skipped_count, 1);
    assert_eq!(
        disk.log,
        vec!["header /r 4096", "skipped /r/p/node_modules already gone", "summary 0 1 0 true"]
    );
}

#[test]
fn a_failed_removal_is_reported_and_the_rest_goes_on() {
    let mut disk = disk(&["/r/p/a", "/r/p/b"]);
    disk.remove_error = Some("busy".to_string());
    let mut session =
        session(vec![target("/r/p/a", "a"), target("/r/p/b", "b")], vec![path("/r")], false);
    run(&mut session, &mut disk);
    assert_eq!(session.result().removed, 0);
    assert_eq!(session.result().skipped, vec!["/r/p/a: busy", "/r/p/b: busy"]);
    assert_eq!(disk.log.last().unwrap(), "summary 0 2 0 true");
}

#[test]
fn deletion_stops_when_the_receipt_fails() {
    let mut broken = disk(&["/r/p/a", "/r/p/b"]);
    broken.append_error = Some("disk full".to_string());
    let mut one = session(vec![target("/r/p/a", "a"), target("/r/p/b", "b")], vec![path("/r")], false);
    run(&mut one, &mut broken);
    assert_eq!(one.result().removed, 1);
    assert_eq!(broken.there, vec!["/r/p/b"]);
    assert_eq!(
        one.result().skipped,
        vec!["audit append failed after deletion; stopped: disk full"]
    );
    assert_eq!(one.result().audit_error.as_deref(), Some("disk full"));
    assert_eq!(broken.log.last().unwrap(), "summary 1 0 4096 false");

    let mut refused = disk(&["/r/p/a", "/r/p/b"]);
    refused.append_error = Some("disk full".to_string());
    let mut other = session(vec![target("/r/p/a", "x"), target("/r/p/b", "b")], vec![path("/r")], false);
    run(&mut other, &mut refused);
    assert_eq!(
        other.result().skipped,
        vec!["/r/p/a: name changed since scan", "audit append failed: disk full"]
    );
    assert_eq!(refused.there.len(), 2);
}

#[test]
fn a_summary_that_cannot_be_written_is_reported() {
    let mut disk = disk(&["/r/p/a"]);
    disk.finish_error = Some("unplugged".to_string());
    let mut session = session(vec![target("/r/p/a", "a")], vec![path("/r")], false);
    run(&mut session, &mut disk);
    assert_eq!(session.result().skipped, vec!["could not finish receipt: unplugged"]);
    assert_eq!(session.result().audit_error.as_deref(), Some("unplugged"));
    assert_eq!(session.result().removed, 1);
}

#[test]
fn a_session_without_targets_still_has_a_receipt() {
    let mut disk = disk(&[]);
    let mut session = session(vec![], vec![home()], false);
    run(&mut session, &mut disk);
    assert_eq!(disk.log, vec!["header /home/sam 0", "summary 0 0 0 true"]);
}

#[test]
fn allowed_roots_are_home_and_what_confines() {
    let roots = allowed_roots(
        &home(),
        &vec![path("/"), path("rel"), path("/Volumes/ext"), path("/x")],
    );
    assert_eq!(roots, vec![home(), path("/Volumes/ext"), path("/x")]);
}

#[test]
fn the_longest_root_that_holds_the_first_target_is_recorded() {
    let targets = vec![target("/a/b/c/d", "d")];
    let roots = vec![path("/a"), path("/a/b"), path("/x")];
    assert_eq!(root_of_session(&targets, &roots, &home()), path("/a/b"));
    assert_eq!(root_of_session(&targets, &vec![path("/x")], &home()), home());
    assert_eq!(root_of_session(&vec![], &roots, &home()), home());
}

#[test]
fn a_receipt_is_named_after_time_process_and_counter() {
    let (id, file) = log_path(&path("/h/.cachereaper"), 1_700_000_000_123, 42, 7);
    assert_eq!(id, "1700000000123-42-7");
    assert_eq!(file.spell('/'), "/h/.cachereaper/receipt-1700000000123-42-7.jsonl");
    assert!(valid_receipt_filename(&file.file_name().unwrap()));
}

#[test]
fn a_path_is_shown_as_it_was_given() {
    let mut disk = disk(&["/r/proj/node_modules"]);
    let mut session = session(
        vec![
            target("/r//proj/node_modules/", "node_modules"),
            target("/r/proj//build", "dist"),
        ],
        vec![path("/r")],
        false,
    );
    run(&mut session, &mut disk);
    assert_eq!(session.result().removed, 1);
    assert_eq!(session.result().skipped, vec!["/r/proj//build: name changed since scan"]);
    assert_eq!(disk.log[1], "removed /r//proj/node_modules/ ");
    assert_eq!(disk.log[2], "skipped /r/proj//build name changed since scan");
}

#[test]
fn the_receipt_names_what_was_removed() {
    let mut disk = disk(&["/r/proj/node_modules"]);
    let given = Target {
        shown: "/elsewhere/innocent".to_string(),
        ..target("/r/proj/node_modules", "node_modules")
    };
    let mut session = session(vec![given], vec![path("/r")], false);
    run(&mut session, &mut disk);
    assert_eq!(session.result().removed, 1);
    assert_eq!(disk.log[1], "removed /r/proj/node_modules ");
}

#[test]
fn the_summary_says_how_much_space_was_gained() {
    let session = session(vec![], vec![path("/r")], false);
    assert_eq!(session.header("id", 1).free_before, Some(10));
    assert_eq!(session.summary(2, Some(15)).signed_free_space_change, Some(5));
    assert_eq!(session.summary(2, Some(3)).signed_free_space_change, Some(-7));
    assert_eq!(session.summary(2, None).signed_free_space_change, None);
}

#[test]
fn a_target_that_leads_out_of_its_root_is_not_removed() {
    let mut disk = disk(&["/r/../other/node_modules", "/other/node_modules"]);
    let mut session = session(
        vec![target("/r/../other/node_modules", "node_modules")],
        vec![path("/r")],
        false,
    );
    run(&mut session, &mut disk);
    assert_eq!(session.result().removed, 0);
    assert_eq!(session.result().skipped, vec!["/r/../other/node_modules: outside allowed roots"]);
    assert_eq!(disk.there.len(), 2);
}

#[test]
fn an_item_says_what_happened() {
    let item = receipt_item(&target("/r/a", "a"), "skipped", "symlink");
    assert_eq!(item.schema, 1);
    assert_eq!(item.kind, "item");
    assert_eq!(item.path, "/r/a");
    assert_eq!(item.rule, "node-modules");
    assert_eq!(item.estimated_bytes, 4096);
    assert_eq!(item.status, "skipped");
    assert_eq!(item.reason, "symlink");
}
