//! Counts of database table accesses.

use vstd::prelude::*;

verus! {

/// Database tables accessed by state provider lookups.
#[derive(Debug, Clone, Copy, PartialEq, Eq, Structural)]
pub enum TableAccess {
    /// Present storage.
    PlainStorageState,
    /// Changes of storage by block.
    StorageChangeSets,
    /// Blocks that changed a storage slot.
    StoragesHistory,
    /// Present accounts.
    PlainAccountState,
    /// Changes of accounts by block.
    AccountChangeSets,
    /// Blocks that changed an account.
    AccountsHistory,
    /// Contract code.
    Bytecodes,
}

/// Counts of database table accesses on the current thread.
#[derive(Debug, PartialEq, Eq, Structural)]
pub struct TableAccessCounts {
    /// Accesses to [`TableAccess::PlainStorageState`].
    pub plain_storage_state: u64,
    /// Accesses to [`TableAccess::StorageChangeSets`].
    pub storage_changesets: u64,
    /// Accesses to [`TableAccess::StoragesHistory`].
    pub storages_history: u64,
    /// Accesses to [`TableAccess::PlainAccountState`].
    pub plain_account_state: u64,
    /// Accesses to [`TableAccess::AccountChangeSets`].
    pub account_changesets: u64,
    /// Accesses to [`TableAccess::AccountsHistory`].
    pub accounts_history: u64,
    /// Accesses to [`TableAccess::Bytecodes`].
    pub bytecodes: u64,
}

impl Clone for TableAccessCounts {
    fn clone(&self) -> (copy: Self)
        ensures
            copy == *self,
    {
        TableAccessCounts {
            plain_storage_state: self.plain_storage_state,
            storage_changesets: self.storage_changesets,
            storages_history: self.storages_history,
            plain_account_state: self.plain_account_state,
            account_changesets: self.account_changesets,
            accounts_history: self.accounts_history,
            bytecodes: self.bytecodes,
        }
    }
}

impl Default for TableAccessCounts {
    fn default() -> (counts: Self)
        ensures
            counts == no_accesses(),
    {
        TableAccessCounts {
            plain_storage_state: 0,
            storage_changesets: 0,
            storages_history: 0,
            plain_account_state: 0,
            account_changesets: 0,
            accounts_history: 0,
            bytecodes: 0,
        }
    }
}

/// No accesses.
pub open spec fn no_accesses() -> TableAccessCounts {
    TableAccessCounts {
        plain_storage_state: 0,
        storage_changesets: 0,
        storages_history: 0,
        plain_account_state: 0,
        account_changesets: 0,
        accounts_history: 0,
        bytecodes: 0,
    }
}

impl TableAccessCounts {
    /// The count of a table.
    pub open spec fn of(self, table: TableAccess) -> u64 {
        match table {
            TableAccess::PlainStorageState => self.plain_storage_state,
            TableAccess::StorageChangeSets => self.storage_changesets,
            TableAccess::StoragesHistory => self.storages_history,
            TableAccess::PlainAccountState => self.plain_account_state,
            TableAccess::AccountChangeSets => self.account_changesets,
            TableAccess::AccountsHistory => self.accounts_history,
            TableAccess::Bytecodes => self.bytecodes,
        }
    }

    /// One more access to a table, and no more to the others.
    pub open spec fn is_one_more(self, table: TableAccess, after: TableAccessCounts) -> bool {
        forall|other: TableAccess| #[trigger]
            after.of(other) == self.of(other) + (if other == table {
                1int
            } else {
                0
            })
    }

    /// Counts an access to a table.
    fn increment(&mut self, table: TableAccess)
        requires
            old(self).of(table) < u64::MAX,
        ensures
            old(self).is_one_more(table, *final(self)),
    {
        match table {
            TableAccess::PlainStorageState => {
                self.plain_storage_state += 1;
            },
            TableAccess::StorageChangeSets => {
                self.storage_changesets += 1;
            },
            TableAccess::StoragesHistory => {
                self.storages_history += 1;
            },
            TableAccess::PlainAccountState => {
                self.plain_account_state += 1;
            },
            TableAccess::AccountChangeSets => {
                self.account_changesets += 1;
            },
            TableAccess::AccountsHistory => {
                self.accounts_history += 1;
            },
            TableAccess::Bytecodes => {
                self.bytecodes += 1;
            },
        }
    }
}

/// The counts of a thread, and whether it counts.
#[derive(Debug)]
pub struct TableAccessTracker {
    /// Whether accesses are counted.
    pub enabled: bool,
    /// The counts.
    pub counts: TableAccessCounts,
}

impl Default for TableAccessTracker {
    fn default() -> (tracker: Self)
        ensures
            !tracker.enabled,
            tracker.counts == no_accesses(),
    {
        TableAccessTracker { enabled: false, counts: TableAccessCounts::default() }
    }
}

/// Enables table access counting and resets counts.
pub fn enable(tracker: &mut TableAccessTracker)
    ensures
        final(tracker).enabled,
        final(tracker).counts == no_accesses(),
{
    tracker.enabled = true;
    tracker.counts = TableAccessCounts::default();
}

/// Disables table access counting.
pub fn disable(tracker: &mut TableAccessTracker)
    ensures
        !final(tracker).enabled,
        final(tracker).counts == old(tracker).counts,
{
    tracker.enabled = false;
}

/// Resets the counts if counting is enabled.
pub fn reset(tracker: &mut TableAccessTracker)
    ensures
        final(tracker).enabled == old(tracker).enabled,
        final(tracker).counts == (if old(tracker).enabled {
            no_accesses()
        } else {
            old(tracker).counts
        }),
{
    if tracker.enabled {
        tracker.counts = TableAccessCounts::default();
    }
}

/// Returns a snapshot of the counts if counting is enabled.
pub fn snapshot(tracker: &TableAccessTracker) -> (counts: Option<TableAccessCounts>)
    ensures
        counts == seen(*tracker),
{
    if tracker.enabled {
        Some(tracker.counts.clone())
    } else {
        None
    }
}

/// What a snapshot shows.
pub open spec fn seen(tracker: TableAccessTracker) -> Option<TableAccessCounts> {
    if tracker.enabled {
        Some(tracker.counts)
    } else {
        None
    }
}

/// A recorded access changed the tracker in this way.
pub open spec fn is_recorded(
    before: TableAccessTracker,
    table: TableAccess,
    after: TableAccessTracker,
) -> bool {
    if before.enabled {
        after.enabled && before.counts.is_one_more(table, after.counts)
    } else {
        after == before
    }
}

/// Records a table access if counting is enabled.
pub fn record(tracker: &mut TableAccessTracker, table: TableAccess)
    requires
        old(tracker).enabled ==> old(tracker).counts.of(table) < u64::MAX,
    ensures
        is_recorded(*old(tracker), table, *final(tracker)),
{
    if !tracker.enabled {
        return;
    }
    tracker.counts.increment(table);
}

/// Number of accesses to a table in a list of accesses.
pub open spec fn occurrences(accesses: Seq<TableAccess>, table: TableAccess) -> nat
    decreases accesses.len(),
{
    if accesses.len() == 0 {
        0
    } else {
        occurrences(accesses.drop_last(), table) + (if accesses.last() == table {
            1nat
        } else {
            0
        })
    }
}

/// The tracker goes through these states when accesses are recorded one after the other.
pub open spec fn is_recording(
    states: Seq<TableAccessTracker>,
    accesses: Seq<TableAccess>,
) -> bool {
    &&& states.len() == accesses.len() + 1
    &&& forall|i: int|
        0 <= i < accesses.len() ==> is_recorded(
            states[i],
            #[trigger] accesses[i],
            states[i + 1],
        )
}

/// After counting was enabled, a snapshot shows for each table how often it was accessed since.
pub proof fn snapshot_counts_accesses(
    states: Seq<TableAccessTracker>,
    accesses: Seq<TableAccess>,
    table: TableAccess,
)
    requires
        is_recording(states, accesses),
        seen(states[0]) == Some(no_accesses()),
    ensures
        seen(states.last()) is Some,
        seen(states.last())->0.of(table) == occurrences(accesses, table),
    decreases accesses.len(),
{
    if accesses.len() > 0 {
        let earlier = states.drop_last();
        assert forall|i: int| 0 <= i < accesses.drop_last().len() implies is_recorded(
            earlier[i],
            #[trigger] accesses.drop_last()[i],
            earlier[i + 1],
        ) by {
            assert(is_recorded(states[i], accesses[i], states[i + 1]));
        }
        snapshot_counts_accesses(earlier, accesses.drop_last(), table);
        let n = accesses.len() - 1;
        assert(is_recorded(states[n], accesses[n], states[n + 1]));
        let before = states[n].counts;
        let after = states[n + 1].counts;
        assert(after.of(table) == before.of(table) + (if table == accesses[n] {
            1int
        } else {
            0
        }));
    }
}

/// While counting is disabled, nothing is counted and a snapshot shows nothing.
pub proof fn disabled_tracker_counts_nothing(
    states: Seq<TableAccessTracker>,
    accesses: Seq<TableAccess>,
)
    requires
        is_recording(states, accesses),
        seen(states[0]) is None,
    ensures
        states.last() == states[0],
        seen(states.last()) is None,
    decreases accesses.len(),
{
    if accesses.len() > 0 {
        let earlier = states.drop_last();
        assert forall|i: int| 0 <= i < accesses.drop_last().len() implies is_recorded(
            earlier[i],
            #[trigger] accesses.drop_last()[i],
            earlier[i + 1],
        ) by {
            assert(is_recorded(states[i], accesses[i], states[i + 1]));
        }
        disabled_tracker_counts_nothing(earlier, accesses.drop_last());
        let n = accesses.len() - 1;
        assert(is_recorded(states[n], accesses[n], states[n + 1]));
    }
}

/// A recorded access is counted where accesses to that table are counted, and nowhere else.
pub proof fn accesses_count_for_their_table(tracker: &mut TableAccessTracker, table: TableAccess)
    requires
        call_ensures(record, (tracker, table), ()),
    ensures
        !old(tracker).enabled ==> *final(tracker) == *old(tracker),
        old(tracker).enabled ==> {
            let before = old(tracker).counts;
            let after = final(tracker).counts;
            &&& final(tracker).enabled
            &&& after.plain_storage_state == before.plain_storage_state + (if table
                == TableAccess::PlainStorageState {
                1int
            } else {
                0
            })
            &&& after.storage_changesets == before.storage_changesets + (if table
                == TableAccess::StorageChangeSets {
                1int
            } else {
                0
            })
            &&& after.storages_history == before.storages_history + (if table
                == TableAccess::StoragesHistory {
                1int
            } else {
                0
            })
            &&& after.plain_account_state == before.plain_account_state + (if table
                == TableAccess::PlainAccountState {
                1int
            } else {
                0
            })
            &&& after.account_changesets == before.account_changesets + (if table
                == TableAccess::AccountChangeSets {
                1int
            } else {
                0
            })
            &&& after.accounts_history == before.accounts_history + (if table
                == TableAccess::AccountsHistory {
                1int
            } else {
                0
            })
            &&& after.bytecodes == before.bytecodes + (if table == TableAccess::Bytecodes {
                1int
            } else {
                0
            })
        },
{
    if old(tracker).enabled {
        let before = old(tracker).counts;
        let after = final(tracker).counts;
        assert(after.of(TableAccess::PlainStorageState) == after.plain_storage_state);
        assert(after.of(TableAccess::StorageChangeSets) == after.storage_changesets);
        assert(after.of(TableAccess::StoragesHistory) == after.storages_history);
        assert(after.of(TableAccess::PlainAccountState) == after.plain_account_state);
        assert(after.of(TableAccess::AccountChangeSets) == after.account_changesets);
        assert(after.of(TableAccess::AccountsHistory) == after.accounts_history);
        assert(after.of(TableAccess::Bytecodes) == after.bytecodes);
    }
}

/// The counts are all zero.
pub open spec fn counts_are_zero(counts: TableAccessCounts) -> bool {
    &&& counts.plain_storage_state == 0
    &&& counts.storage_changesets == 0
    &&& counts.storages_history == 0
    &&& counts.plain_account_state == 0
    &&& counts.account_changesets == 0
    &&& counts.accounts_history == 0
    &&& counts.bytecodes == 0
}

/// Counting is off at first. Turning it on begins at zero, and turning it off keeps the counts but
/// shows none.
pub proof fn counting_begins_when_turned_on(
    fresh: TableAccessTracker,
    zero: TableAccessCounts,
    on: &mut TableAccessTracker,
    off: &mut TableAccessTracker,
    shown_on: Option<TableAccessCounts>,
    shown_off: Option<TableAccessCounts>,
)
    requires
        call_ensures(<TableAccessTracker as Default>::default, (), fresh),
        call_ensures(<TableAccessCounts as Default>::default, (), zero),
        call_ensures(enable, (on,), ()),
        call_ensures(snapshot, (&*final(on),), shown_on),
        call_ensures(disable, (off,), ()),
        call_ensures(snapshot, (&*final(off),), shown_off),
    ensures
        !fresh.enabled && counts_are_zero(fresh.counts),
        counts_are_zero(zero),
        final(on).enabled,
        shown_on is Some && counts_are_zero(shown_on->0),
        !final(off).enabled,
        final(off).counts == old(off).counts,
        shown_off is None,
{
}

/// Resetting begins at zero again where accesses are counted, and does nothing where not. What is
/// shown are the counts, as they are, where accesses are counted.
pub proof fn resetting_begins_again(
    tracker: &mut TableAccessTracker,
    shown: Option<TableAccessCounts>,
    counts: &TableAccessCounts,
    copy: TableAccessCounts,
)
    requires
        call_ensures(reset, (tracker,), ()),
        call_ensures(snapshot, (&*old(tracker),), shown),
        call_ensures(<TableAccessCounts as Clone>::clone, (counts,), copy),
    ensures
        final(tracker).enabled == old(tracker).enabled,
        old(tracker).enabled ==> counts_are_zero(final(tracker).counts),
        !old(tracker).enabled ==> final(tracker).counts == old(tracker).counts,
        old(tracker).enabled ==> shown == Some(old(tracker).counts),
        !old(tracker).enabled ==> shown is None,
        copy == *counts,
{
}

} // verus!
