use torm::{AppliedMigrations, Migration, MigrationManager, MigrationStatus};

fn manager() -> MigrationManager {
    let mut m = MigrationManager::new();
    m.add_migration("001", "create users").unwrap();
    m.add_migration("002", "add email").unwrap();
    m.add_migration("003", "add index").unwrap();
    m
}

fn record(id: &str, name: &str, at: i64) -> Migration {
    Migration {
        id: id.to_string(),
        name: name.to_string(),
        applied_at: at,
        checksum: String::new(),
    }
}

/// Applies every pending step, as a migration run does, and returns the
/// names of the steps applied.
fn run(m: &MigrationManager, applied: &mut AppliedMigrations, clock: &mut i64) -> Vec<String> {
    let mut names = Vec::new();
    for i in m.pending(applied) {
        *clock += 1;
        let rec = m.migration_record(i, *clock);
        names.push(rec.name.clone());
        applied.record(rec);
    }
    names
}

#[test]
fn first_run_applies_every_step_in_order() {
    let m = manager();
    let mut applied = AppliedMigrations::new();
    let mut clock = 0;
    assert_eq!(m.pending(&applied), vec![0, 1, 2]);
    assert_eq!(run(&m, &mut applied, &mut clock), vec!["create users", "add email", "add index"]);
    assert_eq!(applied.records().len(), 3);
}

#[test]
fn second_run_applies_nothing() {
    let m = manager();
    let mut applied = AppliedMigrations::new();
    let mut clock = 0;
    run(&m, &mut applied, &mut clock);
    assert!(m.pending(&applied).is_empty());
    assert!(run(&m, &mut applied, &mut clock).is_empty());
}

#[test]
fn only_unrecorded_steps_are_pending() {
    let m = manager();
    let applied = AppliedMigrations::from_records(&vec![record("002", "add email", 5)]);
    assert_eq!(m.pending(&applied), vec![0, 2]);
}

#[test]
fn rollback_two_reverts_latest_first() {
    let m = manager();
    let mut applied = AppliedMigrations::from_records(&vec![
        record("001", "create users", 10),
        record("002", "add email", 20),
        record("003", "add index", 30),
    ]);
    let plan = m.rollback_plan(&applied, 2);
    let names: Vec<&str> = plan.iter().map(|s| s.name.as_str()).collect();
    assert_eq!(names, vec!["add index", "add email"]);
    assert_eq!(plan[0].index, 2);
    assert_eq!(plan[1].index, 1);
    for step in &plan {
        applied.remove(&step.id);
    }
    let left: Vec<&str> = applied.records().iter().map(|r| r.id.as_str()).collect();
    assert_eq!(left, vec!["001"]);
}

#[test]
fn rollback_order_follows_time_not_listing() {
    let applied = AppliedMigrations::from_records(&vec![
        record("b", "B", 20),
        record("c", "C", 30),
        record("a", "A", 10),
    ]);
    assert_eq!(applied.most_recent(3), vec![1, 0, 2]);
    assert_eq!(applied.most_recent(10), vec![1, 0, 2]);
    assert!(applied.most_recent(0).is_empty());
}

#[test]
fn rollback_passes_over_unregistered_steps() {
    let m = manager();
    let applied = AppliedMigrations::from_records(&vec![
        record("001", "create users", 10),
        record("999", "gone", 40),
    ]);
    let plan = m.rollback_plan(&applied, 2);
    assert_eq!(plan.len(), 1);
    assert_eq!(plan[0].id, "001");
    let plan = m.rollback_plan(&applied, 1);
    assert!(plan.is_empty());
}

#[test]
fn status_reports_applied_and_pending() {
    let m = manager();
    let applied = AppliedMigrations::from_records(&vec![record("002", "add email", 77)]);
    let st = m.status(&applied);
    assert_eq!(st.len(), 3);
    assert_eq!(st[0].0, "001");
    assert!(matches!(&st[0].1, MigrationStatus::Pending { name } if name == "create users"));
    assert!(matches!(&st[1].1, MigrationStatus::Applied { name, applied_at: 77 } if name == "add email"));
    assert!(matches!(&st[2].1, MigrationStatus::Pending { .. }));
}

#[test]
fn recording_an_id_again_replaces_its_record() {
    let mut applied = AppliedMigrations::new();
    applied.record(record("001", "first", 1));
    applied.record(record("001", "again", 2));
    assert_eq!(applied.records().len(), 1);
    assert_eq!(applied.records()[0].name, "again");
    let from = AppliedMigrations::from_records(&vec![record("x", "one", 1), record("x", "two", 2)]);
    assert_eq!(from.records().len(), 1);
    assert_eq!(from.records()[0].applied_at, 2);
}

#[test]
fn removing_an_unknown_id_changes_nothing() {
    let mut applied = AppliedMigrations::from_records(&vec![record("001", "first", 1)]);
    applied.remove(&"zzz".to_string());
    assert_eq!(applied.records().len(), 1);
    assert_eq!(applied.position(&"001".to_string()), Some(0));
    assert_eq!(applied.position(&"zzz".to_string()), None);
}

#[test]
fn checksum_is_hex_of_the_id_and_stable() {
    let a = torm::calculate_checksum("001");
    let b = torm::calculate_checksum("001");
    assert_eq!(a, b);
    assert!(!a.is_empty() && a.len() <= 16);
    assert!(a.chars().all(|c| c.is_ascii_hexdigit() && !c.is_ascii_uppercase()));
    assert_ne!(a, "001");
    let m = manager();
    let rec = m.migration_record(0, 42);
    assert_eq!(rec.id, "001");
    assert_eq!(rec.name, "create users");
    assert_eq!(rec.applied_at, 42);
    assert_eq!(rec.checksum, a);
}

#[test]
fn duplicate_ids_are_refused() {
    let mut m = manager();
    match m.add_migration("001", "duplicate") {
        Err(torm::Error::Other(msg)) => assert_eq!(msg, "Migration already registered: 001"),
        other => panic!("expected a refusal, got {:?}", other),
    }
    assert_eq!(m.migrations().len(), 3);
    assert_eq!(m.migrations()[0].name, "create users");
    assert_eq!(m.registration_of(&"001".to_string()), Some(0));
    assert_eq!(m.registration_of(&"003".to_string()), Some(2));
    assert_eq!(m.registration_of(&"404".to_string()), None);
}

#[test]
fn checksum_matches_the_default_hasher() {
    let mut hasher = std::collections::hash_map::DefaultHasher::new();
    std::hash::Hash::hash("20240101_create_users", &mut hasher);
    let expected = format!("{:x}", std::hash::Hasher::finish(&hasher));
    assert_eq!(torm::calculate_checksum("20240101_create_users"), expected);
    assert_ne!(torm::calculate_checksum("a"), torm::calculate_checksum("b"));
}
