use log_rotator::error::ErrorKind;
use log_rotator::gate::{check_big_enough, gate_entry, Gate};
use log_rotator::path::{determine_directory, find_last, make_file_name};
use log_rotator::rotation::has_text;
use log_rotator::rotation::{classify_name, family_pattern, plan_rotation, stem, Step};
use log_rotator::stage::{parse_extension, Stage};

fn names(list: &[&str]) -> Vec<String> {
    list.iter().map(|s| s.to_string()).collect()
}

fn copy_parts(step: &Step) -> (String, String, bool) {
    match step {
        Step::Copy { from, to, reset_source } => (from.clone(), to.clone(), *reset_source),
        Step::Delete { path } => panic!("expected a copy, found deletion of {}", path),
    }
}

#[test]
fn single_log_is_copied_to_first_backup_and_reset() {
    let steps = plan_rotation("/var/log/app/app.log", &names(&["app.log"])).unwrap();
    assert_eq!(steps.len(), 1);
    assert_eq!(
        copy_parts(&steps[0]),
        ("/var/log/app/app.log".to_string(), "/var/log/app/app.0".to_string(), true)
    );
}

#[test]
fn full_chain_shifts_every_stage_oldest_first() {
    let mut listing = vec!["app.log".to_string()];
    for d in 0..10 {
        listing.push(format!("app.{}", d));
    }
    let steps = plan_rotation("/var/log/app/app.log", &listing).unwrap();
    assert_eq!(steps.len(), 11);
    match &steps[0] {
        Step::Delete { path } => assert_eq!(path, "/var/log/app/app.9"),
        other => panic!("expected deletion first, found {:?}", other),
    }
    for d in (0..9).rev() {
        let step = &steps[9 - d];
        assert_eq!(
            copy_parts(step),
            (format!("/var/log/app/app.{}", d), format!("/var/log/app/app.{}", d + 1), false)
        );
    }
    assert_eq!(
        copy_parts(&steps[10]),
        ("/var/log/app/app.log".to_string(), "/var/log/app/app.0".to_string(), true)
    );
}

#[test]
fn listing_order_does_not_change_the_plan() {
    let a = plan_rotation("/l/app.log", &names(&["app.0", "app.log", "app.1"])).unwrap();
    let b = plan_rotation("/l/app.log", &names(&["app.1", "app.0", "app.log"])).unwrap();
    assert_eq!(format!("{:?}", a), format!("{:?}", b));
    assert_eq!(copy_parts(&a[0]).0, "/l/app.1");
    assert_eq!(copy_parts(&a[1]).0, "/l/app.0");
    assert_eq!(copy_parts(&a[2]).0, "/l/app.log");
}

#[test]
fn gap_in_chain_only_advances_present_members() {
    let steps = plan_rotation("/l/app.log", &names(&["app.log", "app.3"])).unwrap();
    assert_eq!(steps.len(), 2);
    assert_eq!(copy_parts(&steps[0]), ("/l/app.3".to_string(), "/l/app.4".to_string(), false));
    assert_eq!(copy_parts(&steps[1]), ("/l/app.log".to_string(), "/l/app.0".to_string(), true));
}

#[test]
fn other_families_in_directory_are_ignored() {
    let steps =
        plan_rotation("/l/app.log", &names(&["app.log", "webapp.log", "app_x.0", "webapp.0"]))
            .unwrap();
    assert_eq!(steps.len(), 1);
    assert_eq!(copy_parts(&steps[0]).0, "/l/app.log");
}

#[test]
fn duplicate_names_give_one_step() {
    let steps = plan_rotation("/l/app.log", &names(&["app.log", "app.log"])).unwrap();
    assert_eq!(steps.len(), 1);
}

#[test]
fn empty_listing_gives_no_steps() {
    let steps = plan_rotation("/l/app.log", &Vec::new()).unwrap();
    assert!(steps.is_empty());
}

#[test]
fn unknown_extension_is_fatal() {
    let e = plan_rotation("/l/app.log", &names(&["app.log", "app.txt"])).unwrap_err();
    assert_eq!(e.kind, ErrorKind::UnknownExtension);
    assert_eq!(e.subject, "app.txt");
    assert_eq!(e.message(), "unexpected extension found: app.txt");
}

#[test]
fn two_digit_extension_is_fatal() {
    let e = plan_rotation("/l/app.log", &names(&["app.10"])).unwrap_err();
    assert_eq!(e.kind, ErrorKind::UnknownExtension);
}

#[test]
fn missing_extension_is_fatal() {
    let e = plan_rotation("/l/app.log", &names(&["app.log", "app"])).unwrap_err();
    assert_eq!(e.kind, ErrorKind::MissingExtension);
    assert_eq!(e.subject, "app");
    assert_eq!(e.message(), "file without extension: app");
}

#[test]
fn first_bad_member_is_reported() {
    let e = plan_rotation("/l/app.log", &names(&["app.log", "app.old", "app"])).unwrap_err();
    assert_eq!(e.kind, ErrorKind::UnknownExtension);
    assert_eq!(e.subject, "app.old");
}

#[test]
fn malformed_entry_path_is_fatal() {
    for p in ["", "/", "/var/log/", "/var/log/..", "/var/.", "..", "."] {
        let e = plan_rotation(p, &names(&["app.log"])).unwrap_err();
        assert_eq!(e.kind, ErrorKind::MalformedPath);
        assert_eq!(e.subject, p);
        assert_eq!(e.message(), format!("malformed path: {}", p));
    }
}

#[test]
fn root_directory_entry() {
    assert_eq!(determine_directory("/app.log").unwrap(), "/");
    let steps = plan_rotation("/app.log", &names(&["app.log"])).unwrap();
    assert_eq!(copy_parts(&steps[0]), ("/app.log".to_string(), "/app.0".to_string(), true));
}

#[test]
fn relative_entry_path() {
    let steps = plan_rotation("logs/app.log", &names(&["app.log", "app.9"])).unwrap();
    match &steps[0] {
        Step::Delete { path } => assert_eq!(path, "logs/app.9"),
        other => panic!("expected deletion, found {:?}", other),
    }
    assert_eq!(copy_parts(&steps[1]).1, "logs/app.0");
}

#[test]
fn path_resolver_splits_directory_and_name() {
    assert_eq!(determine_directory("/var/log/app/app.log").unwrap(), "/var/log/app");
    assert_eq!(make_file_name("/var/log/app/app.log").unwrap(), "app.log");
    assert_eq!(make_file_name("a/b.c.log").unwrap(), "b.c.log");
    assert_eq!(make_file_name("/x").unwrap(), "x");
    assert_eq!(make_file_name("/var/log/").unwrap_err().kind, ErrorKind::MalformedPath);
    assert_eq!(determine_directory("").unwrap_err().kind, ErrorKind::MalformedPath);
}

#[test]
fn stem_strips_the_last_extension_only() {
    assert_eq!(stem("app.log"), "app");
    assert_eq!(stem("my.app.3"), "my.app");
    assert_eq!(stem("app"), "app");
    assert_eq!(find_last("a.b.c", '.'), Some(3));
    assert_eq!(find_last("abc", '.'), None);
}

#[test]
fn extensions_parse_to_stages() {
    assert_eq!(parse_extension("log"), Some(Stage::Head));
    assert_eq!(parse_extension("0"), Some(Stage::Backup(0)));
    assert_eq!(parse_extension("9"), Some(Stage::Backup(9)));
    assert_eq!(parse_extension("LOG"), None);
    assert_eq!(parse_extension(""), None);
    assert_eq!(parse_extension("a"), None);
}

#[test]
fn stage_successors_form_one_chain() {
    let mut s = Stage::Head;
    let mut seen = vec![s.extension()];
    while let Some(t) = s.successor() {
        assert_eq!(t.rank_u8(), s.rank_u8() + 1);
        seen.push(t.extension());
        s = t;
    }
    assert_eq!(seen, vec!["log", "0", "1", "2", "3", "4", "5", "6", "7", "8", "9"]);
    assert_eq!(Stage::from_rank(4), Stage::Backup(3));
}

#[test]
fn classify_name_sorts_entries() {
    assert_eq!(classify_name("app", "app.4"), Some(Ok(Stage::Backup(4))));
    assert_eq!(classify_name("app", "webapp.4"), None);
    assert_eq!(classify_name("app", "app.gz"), Some(Err(ErrorKind::UnknownExtension)));
    assert_eq!(classify_name("app", "app"), Some(Err(ErrorKind::MissingExtension)));
}

#[test]
fn family_pattern_matches_base_name_anywhere() {
    assert_eq!(family_pattern("/var/log/app", "app"), "/var/log/app/*app*");
    assert_eq!(family_pattern("/", "app"), "/*app*");
}

#[test]
fn size_gate_threshold() {
    assert!(!check_big_enough(0));
    assert!(!check_big_enough(250_999));
    assert!(check_big_enough(251_000));
    assert!(check_big_enough(300_000));
    assert!(check_big_enough(u64::MAX));
}

#[test]
fn gate_decides_each_entry() {
    assert_eq!(gate_entry(false, None), Gate::Missing);
    assert_eq!(gate_entry(false, Some(300_000)), Gate::Missing);
    assert_eq!(gate_entry(true, None), Gate::Unreadable);
    assert_eq!(gate_entry(true, Some(1000)), Gate::TooSmall);
    assert_eq!(gate_entry(true, Some(300_000)), Gate::Rotate);
}

#[test]
fn just_rotated_log_is_turned_away() {
    // the fresh log is empty after a rotation
    assert_eq!(gate_entry(true, Some(0)), Gate::TooSmall);
}

#[test]
fn nonexistent_entry_is_skipped() {
    // a missing file is turned away before its directory is read
    assert_eq!(gate_entry(false, None), Gate::Missing);
}

#[test]
fn unrotatable_family_member_is_fatal() {
    let e = plan_rotation("/var/log/app/app.log", &names(&["app.log", "app.log.gz"])).unwrap_err();
    assert_eq!(e.kind, ErrorKind::UnknownExtension);
    assert_eq!(e.subject, "app.log.gz");
    let e = plan_rotation("/l/app.log", &names(&["app.log", "webapp"])).unwrap_err();
    assert_eq!(e.kind, ErrorKind::MissingExtension);
    assert_eq!(e.subject, "webapp");
}

#[test]
fn names_without_the_base_name_are_not_members() {
    let steps = plan_rotation("/l/app.log", &names(&["app.log", "other.txt", "README"])).unwrap();
    assert_eq!(steps.len(), 1);
}

#[test]
fn bare_file_name_rotates_in_current_directory() {
    assert_eq!(make_file_name("app.log").unwrap(), "app.log");
    assert_eq!(determine_directory("app.log").unwrap(), "");
    assert_eq!(family_pattern("", "app"), "*app*");
    let steps = plan_rotation("app.log", &names(&["app.log", "app.0"])).unwrap();
    assert_eq!(copy_parts(&steps[0]), ("app.0".to_string(), "app.1".to_string(), false));
    assert_eq!(copy_parts(&steps[1]), ("app.log".to_string(), "app.0".to_string(), true));
}

#[test]
fn substring_search() {
    assert!(has_text("webapp.log", "app"));
    assert!(has_text("app", "app"));
    assert!(has_text("abc", ""));
    assert!(!has_text("ap", "app"));
    assert!(!has_text("a.p.p", "app"));
}
