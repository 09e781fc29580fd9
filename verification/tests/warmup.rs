use reth_accel::bytes::ByteOrder;
use reth_accel::warmup::key_range::KeyRange;
use reth_accel::warmup::plan::WarmupMode;
use reth_accel::warmup::plan::build_warmup_plan;
use reth_accel::warmup::plan::get_tables_for_mode;
use reth_accel::warmup::run::WarmupStart;
use reth_accel::warmup::run::WarmupStep;
use reth_accel::warmup::run::after_builtin;
use reth_accel::warmup::run::after_metadata;
use reth_accel::warmup::run::after_reading;
use reth_accel::warmup::run::choose_reading;
use reth_accel::warmup::run::exceeds_memory_limit;
use reth_accel::warmup::run::get_table_metadata;
use reth_accel::warmup::run::memory_limit;
use reth_accel::warmup::run::total_known_size;
use reth_accel::warmup::run::warmup_database;
use reth_accel::warmup::run::warmup_threads;
use reth_accel::warmup::scan::ScanStep;
use reth_accel::warmup::scan::TableScan;
use reth_accel::warmup::stats::WarmupStats;
use reth_accel::warmup::tally::WarmupLedger;
use reth_accel::warmup::tally::WorkerTally;
use reth_accel::warmup::tally::merge_tallies;
use reth_accel::warmup::tally::sequential_ranges;
use reth_accel::warmup::tally::warmup_tables_sequential;
use reth_accel::warmup::tally::worker_count;

/// The tables of a database.
fn all_tables() -> Vec<String> {
    [
        "CanonicalHeaders",
        "HeaderTerminalDifficulties",
        "HeaderNumbers",
        "Headers",
        "BlockBodyIndices",
        "Transactions",
        "Receipts",
        "Bytecodes",
        "PlainAccountState",
        "PlainStorageState",
        "AccountsHistory",
    ]
    .iter()
    .map(|name| name.to_string())
    .collect()
}

/// A database in memory: its tables with their keys.
struct Database {
    tables: Vec<(String, Vec<Vec<u8>>)>,
    builtin_warmup: bool,
}

impl Database {
    fn keys(&self, table: &str) -> Option<&Vec<Vec<u8>>> {
        self.tables.iter().find(|(name, _)| name == table).map(|(_, keys)| keys)
    }

    fn scan(&self, table: &str, range: KeyRange) -> Option<usize> {
        let keys = self.keys(table)?;
        let mut scan = TableScan::new(range, ByteOrder::Little);
        let start = range.start_key_bytes(ByteOrder::Little);
        for key in keys {
            if start.as_ref().is_some_and(|start| key < start) {
                continue;
            }
            match scan.visit(key) {
                ScanStep::Stop => break,
                ScanStep::Next | ScanStep::YieldThenNext => (),
            }
        }
        Some(scan.count)
    }

    fn warm(&self, mode: WarmupMode, percent: Option<u8>) -> WarmupStats {
        let catalogue: Vec<String> = all_tables();
        let tables = match warmup_database(mode, &catalogue) {
            WarmupStart::Finished(stats) => return stats,
            WarmupStart::ReadMetadata(tables) => tables,
        };
        let readings: Vec<Option<(usize, bool)>> =
            tables.iter().map(|name| self.keys(name).map(|keys| (keys.len() * 40, false))).collect();
        let metadata = get_table_metadata(&tables, &readings);
        let total = total_known_size(&metadata, &tables);
        let limit = memory_limit(percent).map(|percent| 1_000 * percent as usize / 100);
        exceeds_memory_limit(total, limit);

        let mut step = after_metadata(mode);
        if let WarmupStep::Builtin = step {
            step = after_builtin(self.builtin_warmup, tables.len(), 5);
        }
        let threads = warmup_threads().unwrap();
        if let WarmupStep::Read = step {
            step = choose_reading(tables.len(), threads);
        }
        match step {
            WarmupStep::Finished(stats) => stats,
            WarmupStep::Sequential => {
                let ranges = sequential_ranges(&tables, &metadata);
                let outcomes: Vec<Option<usize>> =
                    tables.iter().zip(ranges).map(|(name, range)| self.scan(name, range)).collect();
                after_reading(warmup_tables_sequential(&tables, &outcomes), 5)
            }
            WarmupStep::Parallel => {
                let estimates = vec![2; tables.len()];
                let plan = build_warmup_plan(&tables, &metadata, threads, &estimates);
                let workers = worker_count(threads, plan.tasks.len());
                let mut tallies: Vec<WorkerTally> = (0..workers).map(|_| WorkerTally::new()).collect();
                let mut ledger = WarmupLedger::new(plan.segments_per_table);
                for (i, task) in plan.tasks.iter().enumerate() {
                    let outcome = self.scan(&task.table_name, task.range);
                    tallies[i % workers].settle_segment(&mut ledger, &task.table_name, outcome);
                }
                after_reading(merge_tallies(&tallies), 5)
            }
            WarmupStep::Builtin | WarmupStep::Read => unreachable!(),
        }
    }
}

fn empty_database() -> Database {
    Database {
        tables: all_tables().into_iter().map(|name| (name, Vec::new())).collect(),
        builtin_warmup: true,
    }
}

fn database_with_keys() -> Database {
    Database {
        tables: all_tables()
            .into_iter()
            .map(|name| (name, (0..=255u8).map(|b| vec![b, 7]).collect()))
            .collect(),
        builtin_warmup: false,
    }
}

#[test]
fn warmup_test_get_tables_for_mode() {
    let catalogue = all_tables();
    assert_eq!(get_tables_for_mode(WarmupMode::Off, &catalogue).len(), 0);
    assert_eq!(get_tables_for_mode(WarmupMode::State, &catalogue).len(), 3);
    assert!(get_tables_for_mode(WarmupMode::Execution, &catalogue).len() > 3);
    assert!(get_tables_for_mode(WarmupMode::All, &catalogue).len() > 0);
}

#[test]
fn warmup_tests_test_get_tables_for_mode() {
    let catalogue = all_tables();
    assert_eq!(get_tables_for_mode(WarmupMode::Off, &catalogue).len(), 0);
    assert_eq!(get_tables_for_mode(WarmupMode::State, &catalogue).len(), 3);
    assert!(get_tables_for_mode(WarmupMode::Execution, &catalogue).len() > 3);
    assert!(get_tables_for_mode(WarmupMode::All, &catalogue).len() > 0);
}

#[test]
fn warmup_test_warmup_none_mode() {
    let db = empty_database();
    let stats = db.warm(WarmupMode::Off, None);
    assert_eq!(stats.tables_warmed, 0);
    assert_eq!(stats.total_entries, 0);
}

#[test]
fn warmup_tests_test_warmup_none_mode() {
    let db = database_with_keys();
    let stats = db.warm(WarmupMode::Off, None);
    assert_eq!(stats.tables_warmed, 0);
    assert_eq!(stats.total_entries, 0);
}

#[test]
fn warmup_test_warmup_state_mode() {
    let db = empty_database();
    let stats = db.warm(WarmupMode::State, None);
    assert!(stats.tables_warmed <= 3);
}

#[test]
fn warmup_tests_test_warmup_state_mode() {
    let db = database_with_keys();
    let stats = db.warm(WarmupMode::State, None);
    assert!(stats.tables_warmed <= 3);
    assert_eq!(stats.tables_warmed, 3);
    assert_eq!(stats.total_entries, 3 * 256);
    assert_eq!(stats.duration, 5);
}

#[test]
fn warmup_test_warmup_execution_mode() {
    let db = empty_database();
    let stats = db.warm(WarmupMode::Execution, None);
    assert!(stats.tables_warmed <= 8);
}

#[test]
fn warmup_tests_test_warmup_execution_mode() {
    let db = database_with_keys();
    let stats = db.warm(WarmupMode::Execution, None);
    assert!(stats.tables_warmed <= 8);
    assert_eq!(stats.tables_warmed, 8);
    assert_eq!(stats.total_entries, 8 * 256);
}

#[test]
fn warmup_test_warmup_all_mode() {
    let db = empty_database();
    let stats = db.warm(WarmupMode::All, None);
    assert!(stats.tables_warmed <= all_tables().len());
    assert_eq!(stats.tables_warmed, all_tables().len());
    assert_eq!(stats.total_entries, 0);
}

#[test]
fn warmup_tests_test_warmup_all_mode() {
    let db = database_with_keys();
    let stats = db.warm(WarmupMode::All, None);
    assert!(stats.tables_warmed <= all_tables().len());
    assert_eq!(stats.total_entries, 256 * all_tables().len());
}

#[test]
fn warmup_test_warmup_with_memory_limit() {
    let db = empty_database();
    let stats = db.warm(WarmupMode::State, Some(10));
    assert!(stats.tables_warmed <= 3);
}

#[test]
fn warmup_tests_test_warmup_with_memory_limit() {
    let db = database_with_keys();
    let stats = db.warm(WarmupMode::State, Some(10));
    assert!(stats.tables_warmed <= 3);
    assert_eq!(stats.tables_warmed, 3);
}

#[test]
fn test_get_table_sizes() {
    let tables = vec!["PlainAccountState".to_string(), "Headers".to_string()];
    let sizes = get_table_metadata(&tables, &vec![Some((4096, false)), None]);
    assert!(sizes.len() <= tables.len());
    assert_eq!(sizes.len(), 1);
    assert_eq!(sizes.get("PlainAccountState").unwrap().size_bytes, 4096);
    assert!(sizes.get("Headers").is_none());
}

#[test]
fn missing_tables_are_failed() {
    let mut db = database_with_keys();
    db.tables.retain(|(name, _)| name != "Bytecodes" && name != "Headers");
    for percent in [None, Some(0), Some(10)] {
        let stats = db.warm(WarmupMode::Execution, percent);
        assert_eq!(stats.failed_tables, vec!["Bytecodes".to_string(), "Headers".to_string()]);
        assert!(stats.skipped_tables.is_empty());
        assert_eq!(stats.tables_warmed + stats.failed_tables.len(), 8);
        assert_eq!(stats.total_entries, 6 * 256);
    }
    db.tables.clear();
    let stats = db.warm(WarmupMode::State, Some(0));
    assert_eq!(stats.failed_tables.len(), 3);
    assert!(stats.skipped_tables.is_empty());
}
