use breeze_migrations::database::Database;
use breeze_migrations::migration::Migration;
use breeze_migrations::migration::MigrationKind;
use breeze_migrations::migrator::Migrator;
use breeze_migrations::migrator::MigrationError;
use breeze_migrations::migrator::apply_step;

const CREATE_SCRIPT: &str =
    "CREATE TABLE dashboards (id INTEGER PRIMARY KEY, name TEXT NOT NULL); \
     CREATE TABLE widgets (id INTEGER PRIMARY KEY, dashboard_id INTEGER NOT NULL);";
const METADATA_SCRIPT: &str = "ALTER TABLE widgets ADD COLUMN metadata TEXT;";

fn mig(version: u64, description: &str, script: &str) -> Migration {
    Migration {
        version,
        description: String::from(description),
        script: String::from(script),
        kind: MigrationKind::Up,
    }
}

fn the_two_migrations() -> Vec<Migration> {
    vec![
        mig(1, "create_dashboards_and_widgets", CREATE_SCRIPT),
        mig(2, "add_widget_metadata", METADATA_SCRIPT),
    ]
}

#[test]
fn fresh_database_applies_both_in_order() {
    let migrator = Migrator::new(the_two_migrations()).unwrap();
    let mut db = Database::fresh();
    assert!(!db.tracking_exists());
    let applied = migrator.apply(&mut db).unwrap();
    assert_eq!(applied, 2);
    assert!(db.tracking_exists());
    assert_eq!(db.applied_versions(), vec![1, 2]);
    assert!(db.is_applied(1));
    assert!(db.is_applied(2));
    assert_eq!(db.schema_len(), 2);
    assert_eq!(db.schema_script(0).as_str(), CREATE_SCRIPT);
    assert_eq!(db.schema_script(1).as_str(), METADATA_SCRIPT);
}

#[test]
fn second_run_is_a_noop() {
    let migrator = Migrator::new(the_two_migrations()).unwrap();
    let mut db = Database::fresh();
    assert_eq!(migrator.apply(&mut db).unwrap(), 2);
    let versions_after_first = db.applied_versions();
    let schema_after_first = db.schema_len();
    let applied_again = migrator.apply(&mut db).unwrap();
    assert_eq!(applied_again, 0);
    assert_eq!(db.applied_versions(), versions_after_first);
    assert_eq!(db.schema_len(), schema_after_first);
}

#[test]
fn out_of_order_list_is_applied_ascending() {
    let reversed = vec![
        mig(2, "add_widget_metadata", METADATA_SCRIPT),
        mig(1, "create_dashboards_and_widgets", CREATE_SCRIPT),
    ];
    let migrator = Migrator::new(reversed).unwrap();
    assert_eq!(migrator.migration_count(), 2);
    assert_eq!(migrator.migration_at(0).version, 1);
    assert_eq!(migrator.migration_at(1).version, 2);
    let mut db = Database::fresh();
    assert_eq!(migrator.pending_versions(&db), vec![1, 2]);
    migrator.apply(&mut db).unwrap();
    assert_eq!(db.applied_versions(), vec![1, 2]);
    assert_eq!(db.schema_script(0).as_str(), CREATE_SCRIPT);
    assert_eq!(db.schema_script(1).as_str(), METADATA_SCRIPT);
}

#[test]
fn failed_second_script_leaves_it_unrecorded() {
    let migrator = Migrator::new(the_two_migrations()).unwrap();
    let mut db = Database::fresh();
    let outcomes = vec![true, false];
    let r = migrator.apply_with_outcomes(&mut db, &outcomes);
    assert_eq!(r, Err(MigrationError::ScriptFailed { version: 2 }));
    assert_eq!(db.applied_versions(), vec![1]);
    assert!(db.is_applied(1));
    assert!(!db.is_applied(2));
    assert_eq!(db.schema_len(), 1);
    assert_eq!(db.schema_script(0).as_str(), CREATE_SCRIPT);
}

#[test]
fn failed_first_script_stops_the_whole_run() {
    let migrator = Migrator::new(the_two_migrations()).unwrap();
    let mut db = Database::fresh();
    let outcomes = vec![false, true];
    let r = migrator.apply_with_outcomes(&mut db, &outcomes);
    assert_eq!(r, Err(MigrationError::ScriptFailed { version: 1 }));
    assert_eq!(db.applied_versions(), Vec::<u64>::new());
    assert_eq!(db.schema_len(), 0);
}

#[test]
fn all_good_outcomes_match_plain_apply() {
    let migrator = Migrator::new(the_two_migrations()).unwrap();
    let mut db = Database::fresh();
    let outcomes = vec![true, true];
    assert_eq!(migrator.apply_with_outcomes(&mut db, &outcomes), Ok(2));
    assert_eq!(db.applied_versions(), vec![1, 2]);
    assert_eq!(db.schema_len(), 2);
}

#[test]
fn database_at_version_one_gets_only_the_second() {
    let first_only = Migrator::new(vec![mig(1, "create_dashboards_and_widgets", CREATE_SCRIPT)])
        .unwrap();
    let mut db = Database::fresh();
    assert_eq!(first_only.apply(&mut db).unwrap(), 1);
    assert_eq!(db.applied_versions(), vec![1]);

    let both = Migrator::new(the_two_migrations()).unwrap();
    assert_eq!(both.pending_versions(&db), vec![2]);
    assert_eq!(both.apply(&mut db).unwrap(), 1);
    assert_eq!(db.applied_versions(), vec![1, 2]);
    assert_eq!(db.schema_len(), 2);
    assert_eq!(db.schema_script(1).as_str(), METADATA_SCRIPT);
}

#[test]
fn untracked_database_is_treated_as_version_zero() {
    let migrator = Migrator::new(the_two_migrations()).unwrap();
    let mut db = Database::fresh();
    assert!(!db.tracking_exists());
    assert_eq!(db.applied_count(), 0);
    assert_eq!(migrator.pending_versions(&db), vec![1, 2]);
    assert_eq!(migrator.apply(&mut db).unwrap(), 2);
    assert!(db.tracking_exists());
    assert_eq!(db.applied_versions(), vec![1, 2]);
}

#[test]
fn zero_version_is_rejected() {
    let r = Migrator::new(vec![mig(0, "bad", "SELECT 1;")]);
    assert!(matches!(r, Err(MigrationError::ZeroVersion)));
}

#[test]
fn duplicate_version_is_rejected() {
    let r = Migrator::new(vec![
        mig(3, "one of them", "SELECT 1;"),
        mig(3, "the other", "SELECT 2;"),
    ]);
    assert!(matches!(r, Err(MigrationError::DuplicateVersion { version: 3 })));
}

#[test]
fn empty_list_creates_tracking_and_does_nothing() {
    let migrator = Migrator::new(Vec::new()).unwrap();
    let mut db = Database::fresh();
    assert_eq!(migrator.apply(&mut db).unwrap(), 0);
    assert!(db.tracking_exists());
    assert_eq!(db.applied_count(), 0);
    assert_eq!(db.schema_len(), 0);
}

#[test]
fn single_step_records_on_success_only() {
    let mut db = Database::fresh();
    db.ensure_tracking();
    let first = mig(1, "create_dashboards_and_widgets", CREATE_SCRIPT);
    let second = mig(2, "add_widget_metadata", METADATA_SCRIPT);
    assert_eq!(apply_step(&mut db, &first, true), Ok(()));
    assert!(db.is_applied(1));
    assert_eq!(db.schema_len(), 1);
    assert_eq!(
        apply_step(&mut db, &second, false),
        Err(MigrationError::ScriptFailed { version: 2 })
    );
    assert!(!db.is_applied(2));
    assert_eq!(db.schema_len(), 1);
}
