use reth_accel::storage::migration::Migration;
use reth_accel::storage::migration::MigrationEvent;
use reth_accel::storage::migration::MigrationTable;
use reth_accel::storage::migration::Phase;
use reth_accel::storage::open::DatabaseProbe;
use reth_accel::storage::open::DbAction;
use reth_accel::storage::open::OpenError;
use reth_accel::storage::open::VersionProbe;
use reth_accel::storage::open::create_db;
use reth_accel::storage::open::init_db;
use reth_accel::storage::open::init_db_for;
use reth_accel::storage::open::migrate_db;
use reth_accel::storage::open::open_db;
use reth_accel::storage::open::open_db_read_only;

fn version(n: u64) -> VersionProbe<String> {
    VersionProbe::Version(n)
}

fn missing(plain_state_present: bool) -> VersionProbe<String> {
    VersionProbe::MissingFile { plain_state_present }
}

#[test]
fn migration_depends_on_the_version() {
    assert!(migrate_db(3, version(3)).unwrap().is_empty());
    assert_eq!(
        migrate_db(3, version(2)).unwrap(),
        vec![DbAction::MigratePlainState, DbAction::WriteVersion]
    );
    assert!(matches!(migrate_db(3, version(1)), Err(OpenError::VersionMismatch { version: 1 })));
    assert!(matches!(migrate_db(3, version(4)), Err(OpenError::VersionMismatch { version: 4 })));
    assert_eq!(migrate_db(3, missing(true)).unwrap(), vec![DbAction::WriteVersion]);
    assert_eq!(
        migrate_db(3, missing(false)).unwrap(),
        vec![DbAction::MigratePlainState, DbAction::WriteVersion]
    );
    let failed = VersionProbe::Failed("unreadable".to_string());
    assert!(matches!(migrate_db(3, failed), Err(OpenError::Version(err)) if err == "unreadable"));
    assert!(migrate_db(2, version(2)).unwrap().is_empty());
}

#[test]
fn databases_are_created_or_migrated_before_they_are_opened() {
    let empty: DatabaseProbe<String> = DatabaseProbe::Empty;
    assert_eq!(
        create_db(3, empty).unwrap(),
        vec![DbAction::CreateDirectory, DbAction::WriteVersion, DbAction::Open]
    );
    assert_eq!(create_db(3, DatabaseProbe::Present(version(3))).unwrap(), vec![DbAction::Open]);
    assert_eq!(
        create_db(3, DatabaseProbe::Present(version(2))).unwrap(),
        vec![DbAction::MigratePlainState, DbAction::WriteVersion, DbAction::Open]
    );
    assert_eq!(
        create_db(3, DatabaseProbe::Present(missing(true))).unwrap(),
        vec![DbAction::WriteVersion, DbAction::Open]
    );
    assert!(create_db(3, DatabaseProbe::Present(version(9))).is_err());
}

#[test]
fn opening_differs_in_what_follows() {
    assert_eq!(
        init_db(3, DatabaseProbe::Present(version(3))).unwrap(),
        vec![DbAction::Open, DbAction::CreateTables, DbAction::RecordClientVersion]
    );
    assert_eq!(
        init_db_for(3, DatabaseProbe::Present(version(3))).unwrap(),
        vec![DbAction::Open, DbAction::CreateTables, DbAction::RecordClientVersion]
    );
    assert_eq!(
        open_db(3, DatabaseProbe::Present(version(3))).unwrap(),
        vec![DbAction::Open, DbAction::RecordClientVersion]
    );
    assert_eq!(open_db_read_only(), vec![DbAction::CheckVersion, DbAction::OpenReadOnly]);
    assert!(open_db(3, DatabaseProbe::Present(version(0))).is_err());
    assert_eq!(
        open_db(3, DatabaseProbe::Present(version(2))).unwrap(),
        vec![
            DbAction::MigratePlainState,
            DbAction::WriteVersion,
            DbAction::Open,
            DbAction::RecordClientVersion,
        ]
    );
    assert!(init_db(3, DatabaseProbe::Present(version(0))).is_err());
}

#[test]
fn opening_does_not_create_a_missing_database() {
    let empty: DatabaseProbe<String> = DatabaseProbe::Empty;
    assert!(matches!(open_db(3, empty), Err(OpenError::Missing)));
    let empty: DatabaseProbe<String> = DatabaseProbe::Empty;
    assert_eq!(
        init_db(3, empty).unwrap(),
        vec![
            DbAction::CreateDirectory,
            DbAction::WriteVersion,
            DbAction::Open,
            DbAction::CreateTables,
            DbAction::RecordClientVersion,
        ]
    );
}

type Rows = Vec<(u8, u8)>;

/// Two environments in memory. A key of every second table can have several values.
struct Environments {
    source: Vec<Option<Rows>>,
    destination: Vec<Rows>,
    fail_in: Option<Phase>,
}

impl Environments {
    /// Runs a migration, and counts the rows of each table.
    fn migrate(&mut self, lock: bool) -> (Phase, Vec<usize>, bool) {
        let tables = (0..self.source.len())
            .map(|i| MigrationTable { name: format!("Table{i}"), dupsort: i % 2 == 1 })
            .collect();
        let mut migration = Migration::new(tables, lock);
        let mut rows: Rows = Vec::new();
        let mut row = (0, 0);
        let mut written: Rows = Vec::new();
        let mut copied = Vec::new();
        let mut locked = false;
        loop {
            let table = migration.table;
            let event = if self.fail_in == Some(migration.phase) {
                MigrationEvent::Error
            } else {
                match migration.phase {
                    Phase::Finished | Phase::Failed => return (migration.phase, copied, locked),
                    Phase::BeginDestination => {
                        written = self.destination[table].clone();
                        MigrationEvent::Done
                    }
                    Phase::ClearTable => {
                        written.clear();
                        MigrationEvent::Done
                    }
                    Phase::OpenSource => match &self.source[table] {
                        Some(_) => MigrationEvent::Done,
                        None => MigrationEvent::SourceMissing,
                    },
                    Phase::OpenCursor => {
                        rows = self.source[table].clone().unwrap();
                        rows.reverse();
                        MigrationEvent::Done
                    }
                    Phase::ReadRow => match rows.pop() {
                        Some(next) => {
                            row = next;
                            MigrationEvent::Row
                        }
                        None => MigrationEvent::NoMoreRows,
                    },
                    Phase::PutRow => {
                        let dupsort = migration.current_table().unwrap().dupsort;
                        written.retain(|old| old.0 != row.0 || (dupsort && old.1 != row.1));
                        written.push(row);
                        MigrationEvent::Done
                    }
                    Phase::CommitDestination => {
                        self.destination[table] = written.clone();
                        copied.push(migration.copied);
                        MigrationEvent::Done
                    }
                    Phase::LockPages => {
                        locked = true;
                        MigrationEvent::Done
                    }
                    _ => MigrationEvent::Done,
                }
            };
            if migration.current_table().is_some() {
                assert_eq!(migration.current_table().unwrap().name, format!("Table{table}"));
            }
            migration.next(event);
        }
    }
}

#[test]
fn tables_are_copied() {
    let source = vec![
        Some(vec![(1, 1), (2, 1), (3, 1)]),
        None,
        Some(vec![]),
        Some(vec![(5, 1), (5, 2), (6, 1)]),
    ];
    let mut environments = Environments {
        source: source.clone(),
        destination: vec![vec![(7, 7)], vec![(8, 8), (8, 9)], vec![(1, 1)], vec![]],
        fail_in: None,
    };
    for lock in [false, true] {
        let (end, copied, locked) = environments.migrate(lock);
        assert_eq!(end, Phase::Finished);
        assert_eq!(copied, vec![3, 0, 0, 3]);
        assert_eq!(locked, lock);
        assert_eq!(environments.source, source);
        assert_eq!(
            environments.destination,
            vec![
                vec![(1, 1), (2, 1), (3, 1)],
                vec![],
                vec![],
                vec![(5, 1), (5, 2), (6, 1)],
            ]
        );
    }
}

#[test]
fn failures_end_a_migration() {
    let phases = [
        Phase::CreateDirectory,
        Phase::OpenMain,
        Phase::OpenPlain,
        Phase::BeginSource,
        Phase::BeginDestination,
        Phase::CreateTable,
        Phase::ClearTable,
        Phase::OpenSource,
        Phase::OpenCursor,
        Phase::ReadRow,
        Phase::PutRow,
        Phase::CommitSource,
        Phase::CommitDestination,
    ];
    for phase in phases {
        let mut environments = Environments {
            source: vec![Some(vec![(1, 1)])],
            destination: vec![vec![(2, 2)]],
            fail_in: Some(phase),
        };
        assert_eq!(environments.migrate(true).0, Phase::Failed);
        assert_eq!(environments.source, vec![Some(vec![(1, 1)])]);
        assert_eq!(environments.destination, vec![vec![(2, 2)]]);
    }
    let mut environments = Environments {
        source: vec![Some(vec![(1, 1)])],
        destination: vec![vec![]],
        fail_in: Some(Phase::LockPages),
    };
    assert_eq!(environments.migrate(true).0, Phase::Finished);
    assert_eq!(environments.destination, vec![vec![(1, 1)]]);
}

#[test]
fn no_tables_are_no_failure() {
    let mut environments = Environments { source: vec![], destination: vec![], fail_in: None };
    assert_eq!(environments.migrate(false), (Phase::Finished, vec![], false));
}
