use cachereaper_core::access::AccessState;
use cachereaper_core::config::{
    config_path, load, normalize_absolute, paths_equal, save, save_to, Config, SaveStep, Scope,
};
use cachereaper_core::path::{FsPath, Part, Platform};
use cachereaper_core::support::{
    next_support_prompt, support_page, support_prompt_later, support_prompt_never,
    support_prompt_status, DAY_SECONDS,
};

fn path(text: &str) -> FsPath {
    let mut parts = Vec::new();
    if text.starts_with('/') {
        parts.push(Part::Root);
    }
    for name in text.split('/').filter(|name| !name.is_empty()) {
        parts.push(match name {
            "." => Part::Current,
            ".." => Part::Parent,
            _ => Part::Normal(name.to_string()),
        });
    }
    FsPath { parts }
}

fn home() -> FsPath {
    path("/home/sam")
}

#[test]
fn an_absent_record_is_unknown_not_denied() {
    let config = Config::default();
    assert_eq!(config.state_of("desktop"), AccessState::Unknown);
    assert!(!config.seen_onboarding);
}

#[test]
fn update_checking_is_on_until_it_is_turned_off() {
    assert!(Config::default().auto_update);
}

#[test]
fn support_prompt_starts_unscheduled_and_enabled() {
    let config = Config::default();
    assert_eq!(config.support_prompt_at, None);
    assert!(!config.support_prompt_disabled);
}

#[test]
fn a_missing_config_loads_as_defaults() {
    let read = load(None);
    assert!(!read.seen_onboarding);
    assert!(read.access.is_empty());
    assert!(read.auto_update);
}

#[test]
fn what_was_read_is_loaded_as_it_is() {
    let mut written = Config::default();
    written.seen_onboarding = true;
    written.auto_update = false;
    written.record("desktop", AccessState::Granted);
    let read = load(Some(written));
    assert!(read.seen_onboarding);
    assert!(!read.auto_update);
    assert_eq!(read.state_of("desktop"), AccessState::Granted);
}

#[test]
fn the_config_sits_beside_the_reap_logs() {
    assert_eq!(config_path(&home()).parent().unwrap(), home().child(".cachereaper"));
    assert_eq!(config_path(&home()), path("/home/sam/.cachereaper/config.json"));
}

#[test]
fn an_answer_replaces_the_one_before_and_no_other() {
    let mut config = Config::default();
    config.record("desktop", AccessState::Granted);
    config.record("documents", AccessState::Denied);
    config.record("desktop", AccessState::Unknown);
    assert_eq!(config.state_of("desktop"), AccessState::Unknown);
    assert_eq!(config.state_of("documents"), AccessState::Denied);
    assert_eq!(config.state_of("downloads"), AccessState::Unknown);
    assert_eq!(config.access.len(), 2, "a gate handed back still counts as talked about");
}

fn describe(steps: &[SaveStep]) -> Vec<String> {
    steps
        .iter()
        .map(|step| match step {
            SaveStep::CreateDir(dir) => format!("mkdir {}", dir.spell('/')),
            SaveStep::Write(file) => format!("write {}", file.spell('/')),
            SaveStep::RemoveIfThere(file) => format!("remove {}", file.spell('/')),
            SaveStep::Rename(from, to) => format!("rename {} {}", from.spell('/'), to.spell('/')),
        })
        .collect()
}

#[test]
fn saving_writes_beside_the_target_and_then_replaces_it() {
    assert_eq!(
        describe(&save(&home(), Platform::Linux)),
        vec![
            "mkdir /home/sam/.cachereaper",
            "write /home/sam/.cachereaper/config.json.tmp",
            "rename /home/sam/.cachereaper/config.json.tmp /home/sam/.cachereaper/config.json",
        ]
    );
    assert_eq!(
        describe(&save_to(&path("/a/.hidden"), Platform::Windows)),
        vec![
            "mkdir /a",
            "write /a/.hidden.json.tmp",
            "remove /a/.hidden",
            "rename /a/.hidden.json.tmp /a/.hidden",
        ]
    );
}

#[test]
fn absolute_paths_are_normalized_by_their_spelling() {
    assert_eq!(
        normalize_absolute(&path("/a/./b/../c"), Platform::Linux),
        Ok(path("/a/c"))
    );
    assert_eq!(normalize_absolute(&path("/.."), Platform::Linux), Ok(path("/")));
    assert_eq!(
        normalize_absolute(&path("a/b"), Platform::Linux),
        Err("path must be absolute".to_string())
    );
    assert!(paths_equal(&path("/a/b"), &path("/a/b")));
    assert!(!paths_equal(&path("/a/b"), &path("/a/c")));
}

#[test]
fn profiles_are_created_updated_and_deleted() {
    let mut config = Config::default();
    let made = config
        .create_profile("p1".to_string(), "Work".to_string(), &path("/w/./x"), Platform::Linux)
        .unwrap();
    assert_eq!(made.root, path("/w/x"));
    assert_eq!(config.profile("p1").unwrap().name, "Work");
    assert!(config.profile("p2").is_none());
    assert!(config
        .create_profile("p2".to_string(), "Bad".to_string(), &path("rel"), Platform::Linux)
        .is_err());

    let changed = config
        .update_profile("p1", "Play".to_string(), &path("/play"), Platform::Linux)
        .unwrap();
    assert_eq!(changed.id, "p1");
    assert_eq!(config.profile("p1").unwrap().name, "Play");
    assert_eq!(
        config.update_profile("nope", "X".to_string(), &path("/x"), Platform::Linux).unwrap_err(),
        "profile not found"
    );

    assert!(config.delete_profile("p1"));
    assert!(!config.delete_profile("p1"));
    assert!(config.profiles.is_empty());
}

#[test]
fn the_profile_scanned_last_is_remembered() {
    let mut config = Config::default();
    config.record("desktop", AccessState::Granted);
    config.remember_profile("one");
    config.remember_profile("two");
    assert_eq!(config.last_profile_id.as_deref(), Some("two"));
    assert_eq!(config.state_of("desktop"), AccessState::Granted);
    assert!(config.auto_update);
    assert!(config.profiles.is_empty());
}

#[test]
fn exclusions_are_kept_per_scope_and_only_once() {
    let mut config = Config::default();
    config
        .create_profile("p".to_string(), "P".to_string(), &path("/p"), Platform::Linux)
        .unwrap();
    let profile = Scope::Profile("p".to_string());
    let missing = Scope::Profile("q".to_string());

    assert_eq!(config.add_rule("npm", &Scope::Global), Ok(()));
    assert_eq!(config.add_rule("npm", &Scope::Global), Ok(()));
    assert_eq!(config.add_rule("pip", &profile), Ok(()));
    assert_eq!(config.global_excluded_rules, vec!["npm"]);
    assert_eq!(config.profiles[0].excluded_rules, vec!["pip"]);
    assert_eq!(
        config.add_rule("  ", &Scope::Global),
        Err("rule id cannot be empty".to_string())
    );
    assert_eq!(config.add_rule("npm", &missing), Err("profile not found".to_string()));
    assert_eq!(config.remove_rule("npm", &missing), Err("profile not found".to_string()));
    assert_eq!(config.remove_rule("npm", &Scope::Global), Ok(()));
    assert!(config.global_excluded_rules.is_empty());

    assert_eq!(config.add_global_path(&path("/x/../y"), Platform::Linux), Ok(()));
    assert_eq!(config.add_profile_path("p", &path("/z"), Platform::Linux), Ok(()));
    assert_eq!(config.global_excluded_paths, vec![path("/y")]);
    assert_eq!(config.profiles[0].excluded_paths, vec![path("/z")]);
    assert_eq!(
        config.add_global_path(&path("y"), Platform::Linux),
        Err("path must be absolute".to_string())
    );
    assert_eq!(
        config.add_profile_path("q", &path("/z"), Platform::Linux),
        Err("profile not found".to_string())
    );
    assert_eq!(config.remove_path(&path("/z"), &profile, Platform::Linux), Ok(()));
    assert_eq!(config.remove_path(&path("/y"), &Scope::Global, Platform::Linux), Ok(()));
    assert!(config.global_excluded_paths.is_empty());
    assert!(config.profiles[0].excluded_paths.is_empty());
    assert_eq!(
        config.remove_path(&path("/y"), &missing, Platform::Linux),
        Err("profile not found".to_string())
    );
}

#[test]
fn the_card_is_due_a_day_or_two_ahead() {
    assert_eq!(next_support_prompt(1_000, Some(0), 0), 1_000 + DAY_SECONDS);
    assert_eq!(next_support_prompt(0, Some(86_400), 0), 2 * DAY_SECONDS);
    assert_eq!(next_support_prompt(0, Some(86_401), 0), DAY_SECONDS);
    assert_eq!(next_support_prompt(0, Some(6), 3), DAY_SECONDS + 5);
    assert_eq!(next_support_prompt(0, None, 7), DAY_SECONDS + 7);
    assert_eq!(next_support_prompt(u64::MAX - 5, Some(1), 1), u64::MAX);
}

#[test]
fn the_card_is_scheduled_once_put_off_and_switched_off() {
    let mut config = Config::default();
    let (first, save_it) = support_prompt_status(&mut config, 100, Some(0), 0);
    assert!(save_it);
    assert!(!first.show);
    assert_eq!(first.next_at, Some(100 + DAY_SECONDS));

    let (due, again) = support_prompt_status(&mut config, 100 + DAY_SECONDS, Some(9), 9);
    assert!(due.show);
    assert!(!again);

    let later = support_prompt_later(&mut config, 200, Some(0), 1);
    assert!(!later.show);
    assert_eq!(later.next_at, Some(200 + DAY_SECONDS + 1));

    support_prompt_never(&mut config);
    let (never, _) = support_prompt_status(&mut config, u64::MAX, Some(0), 0);
    assert!(!never.show);
    assert_eq!(never.next_at, None);
    assert_eq!(config.support_prompt_at, None);
}

#[test]
fn only_the_two_support_pages_resolve() {
    assert_eq!(support_page("coffee"), Ok("https://buymeacoffee.com/samreshan"));
    assert_eq!(support_page("github"), Ok("https://github.com/samreshan/cachereaper"));
    assert_eq!(
        support_page("https://example.com"),
        Err("unknown support destination: https://example.com".to_string())
    );
}
