use reth_accel::table_access::TableAccess;
use reth_accel::table_access::TableAccessCounts;
use reth_accel::table_access::TableAccessTracker;
use reth_accel::table_access::disable;
use reth_accel::table_access::enable;
use reth_accel::table_access::record;
use reth_accel::table_access::reset;
use reth_accel::table_access::snapshot;

const ALL: [TableAccess; 7] = [
    TableAccess::PlainStorageState,
    TableAccess::StorageChangeSets,
    TableAccess::StoragesHistory,
    TableAccess::PlainAccountState,
    TableAccess::AccountChangeSets,
    TableAccess::AccountsHistory,
    TableAccess::Bytecodes,
];

#[test]
fn nothing_is_counted_at_first() {
    let mut tracker = TableAccessTracker::default();
    record(&mut tracker, TableAccess::Bytecodes);
    assert!(snapshot(&tracker).is_none());
    enable(&mut tracker);
    assert_eq!(snapshot(&tracker), Some(TableAccessCounts::default()));
}

#[test]
fn each_table_is_counted() {
    let mut tracker = TableAccessTracker::default();
    enable(&mut tracker);
    for (i, table) in ALL.iter().enumerate() {
        for _ in 0..=i {
            record(&mut tracker, *table);
        }
    }
    let counts = snapshot(&tracker).unwrap();
    assert_eq!(counts.plain_storage_state, 1);
    assert_eq!(counts.storage_changesets, 2);
    assert_eq!(counts.storages_history, 3);
    assert_eq!(counts.plain_account_state, 4);
    assert_eq!(counts.account_changesets, 5);
    assert_eq!(counts.accounts_history, 6);
    assert_eq!(counts.bytecodes, 7);
}

#[test]
fn enabling_and_resetting_begin_anew() {
    let mut tracker = TableAccessTracker::default();
    enable(&mut tracker);
    record(&mut tracker, TableAccess::Bytecodes);
    reset(&mut tracker);
    assert_eq!(snapshot(&tracker).unwrap().bytecodes, 0);
    record(&mut tracker, TableAccess::Bytecodes);
    disable(&mut tracker);
    assert!(snapshot(&tracker).is_none());
    record(&mut tracker, TableAccess::Bytecodes);
    reset(&mut tracker);
    assert_eq!(tracker.counts.bytecodes, 1);
    enable(&mut tracker);
    assert_eq!(snapshot(&tracker).unwrap().bytecodes, 0);
}
