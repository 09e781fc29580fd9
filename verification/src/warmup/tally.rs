//! What the readers count while they work through a plan.
//!
//! The readers share a ledger: how many segments of each table are still open, and which tables
//! have failed. Each reader settles its segments against the ledger, one at a time, and keeps a
//! tally of its own; at the end the tallies are added up.

use crate::warmup::key_range::KeyRange;
use crate::warmup::key_range::KeySpace;
use crate::warmup::plan::TableWarmupMetadata;
use crate::warmup::plan::key_space_of_table;
use crate::warmup::plan::names;
use crate::warmup::plan::plan_has_every_segment;
use crate::warmup::plan::plan_segments;
use crate::warmup::plan::plan_tasks;
use crate::warmup::plan::table_key_space;
use crate::warmup::plan::task_count;
use crate::warmup::stats::WarmupStats;
use crate::warmup::stats::is_named;
use crate::warmup::stats::lemma_is_named;
use crate::warmup::stats::lex_le;
use crate::warmup::stats::lex_sorted;
use crate::warmup::stats::sorted_without_repeats;
use vstd::hash_map::StringHashMap;
use vstd::hash_set::StringHashSet;
use vstd::prelude::*;

verus! {

/// What the readers share.
pub struct WarmupLedger {
    /// Segments of each table that are not settled yet.
    pub remaining: StringHashMap<usize>,
    /// Tables of which a segment failed.
    pub failed: StringHashSet,
}

/// What one reader counts.
#[derive(Debug)]
pub struct WorkerTally {
    /// Tables whose last segment this reader settled, none of them failed.
    pub tables_warmed: usize,
    /// Entries read.
    pub total_entries: usize,
    /// Tables of the segments that failed, in the order they failed.
    pub failed: Vec<String>,
}

/// A [`WorkerTally`] as a value.
pub struct TallyView {
    /// Tables whose last segment this reader settled, none of them failed.
    pub warmed: nat,
    /// Entries read.
    pub entries: nat,
    /// Tables of the segments that failed, in the order they failed.
    pub failed: Seq<Seq<char>>,
}

impl View for WorkerTally {
    type V = TallyView;

    open spec fn view(&self) -> TallyView {
        TallyView {
            warmed: self.tables_warmed as nat,
            entries: self.total_entries as nat,
            failed: names(self.failed@),
        }
    }
}

/// The tallies as values.
pub open spec fn tally_views(tallies: Seq<WorkerTally>) -> Seq<TallyView> {
    tallies.map_values(|t: WorkerTally| t@)
}

/// A tally of nothing.
pub open spec fn empty_tally() -> TallyView {
    TallyView { warmed: 0, entries: 0, failed: Seq::empty() }
}

/// A ledger as a value, with the tables that were counted as warmed so far.
pub struct LedgerView {
    /// Segments of each table that are not settled yet.
    pub remaining: Map<Seq<char>, usize>,
    /// Tables of which a segment failed.
    pub failed: Set<Seq<char>>,
    /// Tables that were counted as warmed, in that order.
    pub warmed: Seq<Seq<char>>,
}

/// A segment was settled.
pub struct SegmentEvent {
    /// The segment's table.
    pub table: Seq<char>,
    /// Whether it was read to its end.
    pub read: bool,
}

/// Open segments after one more segment of `table` was settled.
pub open spec fn remaining_after(
    remaining: Map<Seq<char>, usize>,
    table: Seq<char>,
) -> Map<Seq<char>, usize> {
    if remaining.contains_key(table) && remaining[table] > 0 {
        remaining.insert(table, (remaining[table] - 1) as usize)
    } else {
        remaining
    }
}

/// The segment that was just settled was the table's last.
pub open spec fn is_last_segment(remaining: Map<Seq<char>, usize>, table: Seq<char>) -> bool {
    remaining.contains_key(table) && remaining_after(remaining, table)[table] == 0
}

/// The table is counted as warmed with this segment.
pub open spec fn counts_as_warmed(
    remaining: Map<Seq<char>, usize>,
    failed: Set<Seq<char>>,
    event: SegmentEvent,
) -> bool {
    event.read && is_last_segment(remaining, event.table) && !failed.contains(event.table)
}

/// One more settled segment.
pub open spec fn settle(ledger: LedgerView, event: SegmentEvent) -> LedgerView {
    LedgerView {
        remaining: remaining_after(ledger.remaining, event.table),
        failed: if event.read {
            ledger.failed
        } else {
            ledger.failed.insert(event.table)
        },
        warmed: if counts_as_warmed(ledger.remaining, ledger.failed, event) {
            ledger.warmed.push(event.table)
        } else {
            ledger.warmed
        },
    }
}

/// The ledger after all the events, starting with nothing settled.
pub open spec fn settle_all(
    segments: Map<Seq<char>, usize>,
    events: Seq<SegmentEvent>,
) -> LedgerView
    decreases events.len(),
{
    if events.len() == 0 {
        LedgerView { remaining: segments, failed: Set::empty(), warmed: Seq::empty() }
    } else {
        settle(settle_all(segments, events.drop_last()), events.last())
    }
}

/// The tally of a reader that settled one more segment, with the number of entries that it read
/// or with `None` where the read failed.
pub open spec fn tallied(
    remaining: Map<Seq<char>, usize>,
    failed: Set<Seq<char>>,
    tally: TallyView,
    table: Seq<char>,
    outcome: Option<usize>,
) -> TallyView {
    TallyView {
        warmed: tally.warmed + if counts_as_warmed(
            remaining,
            failed,
            SegmentEvent { table, read: outcome is Some },
        ) {
            1nat
        } else {
            0nat
        },
        entries: tally.entries + match outcome {
            Some(entries) => entries as nat,
            None => 0nat,
        },
        failed: if outcome is Some {
            tally.failed
        } else {
            tally.failed.push(table)
        },
    }
}

/// How many of the events are about `table`.
pub open spec fn event_count(events: Seq<SegmentEvent>, table: Seq<char>) -> nat
    decreases events.len(),
{
    if events.len() == 0 {
        0
    } else {
        event_count(events.drop_last(), table) + if events.last().table == table {
            1nat
        } else {
            0nat
        }
    }
}

/// Some event is a failure of `table`.
pub open spec fn has_failure(events: Seq<SegmentEvent>, table: Seq<char>) -> bool {
    exists|i: int|
        0 <= i < events.len() && (#[trigger] events[i]).table == table && !events[i].read
}

/// Settles one segment of `table`; true when it was the table's last.
pub fn mark_segment_complete(remaining: &mut StringHashMap<usize>, table: &str) -> (is_last: bool)
    ensures
        final(remaining)@ == remaining_after(old(remaining)@, table@),
        is_last == is_last_segment(old(remaining)@, table@),
{
    let entry: Option<usize> = match remaining.get(table) {
        Some(count) => Some(*count),
        None => None,
    };
    match entry {
        Some(count) => {
            if count > 0 {
                remaining.insert(table.to_owned(), count - 1);
                count - 1 == 0
            } else {
                true
            }
        },
        None => false,
    }
}

/// Whether a segment of `table` failed.
pub fn table_has_failed(failed: &StringHashSet, table: &str) -> (has_failed: bool)
    ensures
        has_failed == failed@.contains(table@),
{
    failed.contains(table)
}

impl WarmupLedger {
    /// A ledger with the segments of a plan and no failures.
    pub fn new(segments_per_table: StringHashMap<usize>) -> (ledger: Self)
        ensures
            ledger.remaining@ == segments_per_table@,
            ledger.failed@ == Set::<Seq<char>>::empty(),
    {
        WarmupLedger { remaining: segments_per_table, failed: StringHashSet::new() }
    }
}

impl WorkerTally {
    /// A tally of nothing.
    pub fn new() -> (tally: Self)
        ensures
            tally@ == empty_tally(),
    {
        let tally: Self = WorkerTally { tables_warmed: 0, total_entries: 0, failed: Vec::new() };
        assert(tally@.failed =~= Seq::empty());
        tally
    }

    /// Settles a segment of `table`: with the number of entries that were read, or with `None`
    /// where the read failed.
    pub fn settle_segment(
        &mut self,
        ledger: &mut WarmupLedger,
        table: &String,
        outcome: Option<usize>,
    )
        requires
            old(self).tables_warmed < usize::MAX,
            outcome is Some ==> old(self).total_entries + outcome->0 <= usize::MAX,
        ensures
            final(ledger).remaining@ == remaining_after(old(ledger).remaining@, table@),
            final(ledger).failed@ == (if outcome is Some {
                old(ledger).failed@
            } else {
                old(ledger).failed@.insert(table@)
            }),
            final(self)@ == tallied(
                old(ledger).remaining@,
                old(ledger).failed@,
                old(self)@,
                table@,
                outcome,
            ),
    {
        match outcome {
            Some(entries) => {
                self.total_entries = self.total_entries + entries;
                let is_last: bool = mark_segment_complete(&mut ledger.remaining, table.as_str());
                let has_failed: bool = table_has_failed(&ledger.failed, table.as_str());
                if is_last && !has_failed {
                    self.tables_warmed = self.tables_warmed + 1;
                }
            },
            None => {
                ledger.failed.insert(table.clone());
                self.failed.push(table.clone());
                assert(names(self.failed@) =~= names(old(self).failed@).push(table@));
                mark_segment_complete(&mut ledger.remaining, table.as_str());
            },
        }
    }
}

/// Number of readers: no more than tasks, and at least one.
pub fn worker_count(num_threads: usize, tasks: usize) -> (workers: usize)
    ensures
        workers == (if num_threads == 0 || tasks == 0 {
            1
        } else if num_threads < tasks {
            num_threads
        } else {
            tasks
        }),
{
    let fewer: usize = if num_threads < tasks {
        num_threads
    } else {
        tasks
    };
    if fewer < 1 {
        1
    } else {
        fewer
    }
}

/// Tables warmed by all readers.
pub open spec fn warmed_sum(tallies: Seq<TallyView>) -> nat
    decreases tallies.len(),
{
    if tallies.len() == 0 {
        0
    } else {
        warmed_sum(tallies.drop_last()) + tallies.last().warmed
    }
}

/// Entries read by all readers.
pub open spec fn entries_sum(tallies: Seq<TallyView>) -> nat
    decreases tallies.len(),
{
    if tallies.len() == 0 {
        0
    } else {
        entries_sum(tallies.drop_last()) + tallies.last().entries
    }
}

/// Some reader failed on the table.
pub open spec fn failed_for_some(tallies: Seq<TallyView>, table: Seq<char>) -> bool {
    exists|i: int| 0 <= i < tallies.len() && (#[trigger] tallies[i]).failed.contains(table)
}

/// What all readers together report: the failed tables are in order and named once each, and no
/// table is skipped.
pub open spec fn is_report(tallies: Seq<TallyView>, stats: WarmupStats) -> bool {
    &&& stats.tables_warmed == warmed_sum(tallies)
    &&& stats.total_entries == entries_sum(tallies)
    &&& stats.duration == 0
    &&& stats.skipped_tables@.len() == 0
    &&& lex_sorted(names(stats.failed_tables@))
    &&& names(stats.failed_tables@).no_duplicates()
    &&& forall|table: Seq<char>| #[trigger]
        names(stats.failed_tables@).contains(table) <==> failed_for_some(tallies, table)
}

/// A prefix of the readers counted no more than all of them.
proof fn lemma_sums_prefix(tallies: Seq<TallyView>, k: int)
    requires
        0 <= k <= tallies.len(),
    ensures
        warmed_sum(tallies.take(k)) <= warmed_sum(tallies),
        entries_sum(tallies.take(k)) <= entries_sum(tallies),
    decreases tallies.len(),
{
    if k < tallies.len() {
        lemma_sums_prefix(tallies.drop_last(), k);
        assert(tallies.drop_last().take(k) =~= tallies.take(k));
    } else {
        assert(tallies.take(k) =~= tallies);
    }
}

/// Adds up what the readers counted.
pub fn merge_tallies(tallies: &Vec<WorkerTally>) -> (stats: WarmupStats)
    requires
        warmed_sum(tally_views(tallies@)) <= usize::MAX,
        entries_sum(tally_views(tallies@)) <= usize::MAX,
    ensures
        is_report(tally_views(tallies@), stats),
{
    let mut tables_warmed: usize = 0;
    let mut total_entries: usize = 0;
    let mut all_failed: Vec<String> = Vec::new();
    let ghost views = tally_views(tallies@);
    let mut i: usize = 0;
    assert(names(all_failed@) =~= Seq::empty());
    while i < tallies.len()
        invariant
            i <= tallies.len(),
            views == tally_views(tallies@),
            warmed_sum(views) <= usize::MAX,
            entries_sum(views) <= usize::MAX,
            tables_warmed == warmed_sum(views.take(i as int)),
            total_entries == entries_sum(views.take(i as int)),
            forall|table: Seq<char>|
                #![trigger names(all_failed@).contains(table)]
                names(all_failed@).contains(table) <==> failed_for_some(
                    views.take(i as int),
                    table,
                ),
        decreases tallies.len() - i,
    {
        proof {
            lemma_sums_prefix(views, i + 1);
            assert(views.take(i + 1).drop_last() =~= views.take(i as int));
        }
        let tally: &WorkerTally = &tallies[i];
        assert(views[i as int] == tally@);
        tables_warmed = tables_warmed + tally.tables_warmed;
        total_entries = total_entries + tally.total_entries;
        let ghost before = all_failed@;
        append_strings(&mut all_failed, &tally.failed);
        proof {
            let old_names = names(before);
            let more = names(tally.failed@);
            assert(names(all_failed@) =~= old_names + more);
            assert forall|table: Seq<char>|
                #![trigger names(all_failed@).contains(table)]
                names(all_failed@).contains(table) <==> failed_for_some(
                    views.take(i + 1),
                    table,
                ) by {
                lemma_concat_contains(old_names, more, table);
                lemma_failed_for_one_more(views.take(i + 1), table);
            }
        }
        i += 1;
    }
    assert(views.take(views.len() as int) =~= views);
    let failed_tables: Vec<String> = sorted_without_repeats(all_failed);
    WarmupStats {
        tables_warmed,
        total_entries,
        duration: 0,
        skipped_tables: Vec::new(),
        failed_tables,
    }
}

/// The last reader failed on a table, or one before.
proof fn lemma_failed_for_one_more(tallies: Seq<TallyView>, table: Seq<char>)
    requires
        tallies.len() > 0,
    ensures
        failed_for_some(tallies, table) <==> failed_for_some(tallies.drop_last(), table)
            || tallies.last().failed.contains(table),
{
    let shorter = tallies.drop_last();
    if failed_for_some(tallies, table) {
        let k = choose|k: int|
            0 <= k < tallies.len() && (#[trigger] tallies[k]).failed.contains(table);
        if k < shorter.len() {
            assert(shorter[k].failed.contains(table));
        }
    }
    if failed_for_some(shorter, table) {
        let k = choose|k: int|
            0 <= k < shorter.len() && (#[trigger] shorter[k]).failed.contains(table);
        assert(tallies[k].failed.contains(table));
    }
    if tallies.last().failed.contains(table) {
        assert(tallies[tallies.len() - 1].failed.contains(table));
    }
}

/// A concatenation holds what one of its parts holds.
proof fn lemma_concat_contains(a: Seq<Seq<char>>, b: Seq<Seq<char>>, x: Seq<char>)
    ensures
        (a + b).contains(x) <==> a.contains(x) || b.contains(x),
{
    if a.contains(x) {
        let k = choose|k: int| 0 <= k < a.len() && a[k] == x;
        assert((a + b)[k] == x);
    }
    if b.contains(x) {
        let k = choose|k: int| 0 <= k < b.len() && b[k] == x;
        assert((a + b)[a.len() + k] == x);
    }
}

/// Appends copies of the strings.
fn append_strings(list: &mut Vec<String>, more: &Vec<String>)
    ensures
        final(list)@ == old(list)@ + more@,
{
    let mut i: usize = 0;
    assert(list@ + more@.take(0) =~= list@);
    while i < more.len()
        invariant
            i <= more.len(),
            list@ == old(list)@ + more@.take(i as int),
        decreases more.len() - i,
    {
        list.push(more[i].clone());
        assert(old(list)@ + more@.take(i + 1) =~= (old(list)@ + more@.take(i as int)).push(
            more@[i as int],
        ));
        i += 1;
    }
    assert(more@.take(more@.len() as int) =~= more@);
}

/// The range that each table is read with when a single reader goes through the tables.
pub fn sequential_ranges(
    tables: &Vec<String>,
    metadata: &StringHashMap<TableWarmupMetadata>,
) -> (ranges: Vec<KeyRange>)
    ensures
        ranges@.len() == tables@.len(),
        forall|i: int|
            0 <= i < tables@.len() ==> #[trigger] ranges@[i] == (KeyRange {
                key_space: table_key_space(metadata@, tables@[i]@),
                start: None,
                end: None,
            }),
{
    let mut ranges: Vec<KeyRange> = Vec::new();
    let mut i: usize = 0;
    while i < tables.len()
        invariant
            i <= tables.len(),
            ranges@.len() == i,
            forall|j: int|
                0 <= j < i ==> #[trigger] ranges@[j] == (KeyRange {
                    key_space: table_key_space(metadata@, tables@[j]@),
                    start: None,
                    end: None,
                }),
        decreases tables.len() - i,
    {
        let key_space: KeySpace = key_space_of_table(metadata, tables[i].as_str());
        ranges.push(KeyRange::entire(key_space));
        i += 1;
    }
    ranges
}

/// Number of tables that were read.
pub open spec fn read_count(outcomes: Seq<Option<usize>>) -> nat
    decreases outcomes.len(),
{
    if outcomes.len() == 0 {
        0
    } else {
        read_count(outcomes.drop_last()) + if outcomes.last() is Some {
            1nat
        } else {
            0nat
        }
    }
}

/// Number of entries that were read.
pub open spec fn read_entries(outcomes: Seq<Option<usize>>) -> nat
    decreases outcomes.len(),
{
    if outcomes.len() == 0 {
        0
    } else {
        read_entries(outcomes.drop_last()) + match outcomes.last() {
            Some(entries) => entries as nat,
            None => 0nat,
        }
    }
}

/// The tables that could not be read, in order.
pub open spec fn unread_tables(
    tables: Seq<Seq<char>>,
    outcomes: Seq<Option<usize>>,
) -> Seq<Seq<char>>
    decreases outcomes.len(),
{
    if outcomes.len() == 0 {
        Seq::empty()
    } else {
        let before = unread_tables(tables, outcomes.drop_last());
        if outcomes.last() is Some {
            before
        } else {
            before.push(tables[outcomes.len() - 1])
        }
    }
}

/// A prefix of the outcomes counts no more than all of them.
proof fn lemma_read_prefix(outcomes: Seq<Option<usize>>, k: int)
    requires
        0 <= k <= outcomes.len(),
    ensures
        read_count(outcomes) <= outcomes.len(),
        read_count(outcomes.take(k)) <= k,
        read_entries(outcomes.take(k)) <= read_entries(outcomes),
    decreases outcomes.len(),
{
    if outcomes.len() > 0 {
        lemma_read_prefix(outcomes.drop_last(), if k < outcomes.len() { k } else { k - 1 });
    }
    if k < outcomes.len() {
        assert(outcomes.drop_last().take(k) =~= outcomes.take(k));
    } else {
        assert(outcomes.take(k) =~= outcomes);
    }
}

/// Counts the outcomes of reading the tables one after the other: for each table the number of
/// its entries, or `None` where it could not be read.
pub fn warmup_tables_sequential(
    tables: &Vec<String>,
    outcomes: &Vec<Option<usize>>,
) -> (stats: WarmupStats)
    requires
        outcomes.len() == tables.len(),
        read_entries(outcomes@) <= usize::MAX,
    ensures
        stats.tables_warmed == read_count(outcomes@),
        stats.total_entries == read_entries(outcomes@),
        stats.duration == 0,
        stats.skipped_tables@.len() == 0,
        names(stats.failed_tables@) == unread_tables(names(tables@), outcomes@),
{
    let mut stats: WarmupStats = WarmupStats::default();
    let mut failed: Vec<String> = Vec::new();
    let mut i: usize = 0;
    assert(names(failed@) =~= Seq::empty());
    while i < tables.len()
        invariant
            i <= tables.len(),
            outcomes.len() == tables.len(),
            read_entries(outcomes@) <= usize::MAX,
            stats.tables_warmed == read_count(outcomes@.take(i as int)),
            stats.total_entries == read_entries(outcomes@.take(i as int)),
            stats.duration == 0,
            stats.skipped_tables@.len() == 0,
            names(failed@) == unread_tables(names(tables@), outcomes@.take(i as int)),
        decreases tables.len() - i,
    {
        proof {
            lemma_read_prefix(outcomes@, i + 1);
            assert(outcomes@.take(i + 1).drop_last() =~= outcomes@.take(i as int));
        }
        match outcomes[i] {
            Some(entries) => {
                stats.tables_warmed = stats.tables_warmed + 1;
                stats.total_entries = stats.total_entries + entries;
            },
            None => {
                let ghost before = failed@;
                failed.push(tables[i].clone());
                assert(names(failed@) =~= names(before).push(tables@[i as int]@));
            },
        }
        i += 1;
    }
    assert(outcomes@.take(outcomes@.len() as int) =~= outcomes@);
    stats.failed_tables = failed;
    stats
}

/// A warmup that reads one table after the other reports every table: it counts those that were
/// read, and names the others as failed.
pub proof fn sequential_warmup_reports_every_table(
    tables: Seq<Seq<char>>,
    outcomes: Seq<Option<usize>>,
)
    ensures
        read_count(outcomes) + unread_tables(tables, outcomes).len() == outcomes.len(),
    decreases outcomes.len(),
{
    if outcomes.len() > 0 {
        sequential_warmup_reports_every_table(tables, outcomes.drop_last());
    }
}

/// What the ledger says of a table after some events: how many of its segments are settled,
/// whether it failed, and whether it was counted.
proof fn lemma_ledger_of_table(
    segments: Map<Seq<char>, usize>,
    events: Seq<SegmentEvent>,
    table: Seq<char>,
)
    requires
        forall|t: Seq<char>| segments.contains_key(t) ==> #[trigger] segments[t] > 0,
        forall|t: Seq<char>|
            #[trigger] event_count(events, t) <= (if segments.contains_key(t) {
                segments[t] as nat
            } else {
                0
            }),
    ensures
        ({
            let ledger = settle_all(segments, events);
            &&& ledger.remaining.dom() == segments.dom()
            &&& segments.contains_key(table) ==> ledger.remaining[table] == segments[table]
                - event_count(events, table)
            &&& ledger.failed.contains(table) <==> has_failure(events, table)
            &&& ledger.warmed.no_duplicates()
            &&& ledger.warmed.contains(table) <==> segments.contains_key(table) && event_count(
                events,
                table,
            ) == segments[table] && !has_failure(events, table)
        }),
    decreases events.len(),
{
    if events.len() > 0 {
        let shorter = events.drop_last();
        let event = events.last();
        let before = settle_all(segments, shorter);
        let after = settle_all(segments, events);
        assert forall|t: Seq<char>|
            #[trigger] event_count(shorter, t) <= (if segments.contains_key(t) {
                segments[t] as nat
            } else {
                0
            }) by {
            assert(event_count(events, t) >= event_count(shorter, t));
        }
        lemma_ledger_of_table(segments, shorter, table);
        lemma_ledger_of_table(segments, shorter, event.table);
        assert(event_count(events, event.table) == event_count(shorter, event.table) + 1);
        assert(after.remaining.dom() =~= segments.dom());
        assert(has_failure(events, table) <==> has_failure(shorter, table) || (event.table == table
            && !event.read)) by {
            if has_failure(events, table) {
                let i = choose|i: int|
                    0 <= i < events.len() && (#[trigger] events[i]).table == table
                        && !events[i].read;
                if i < shorter.len() {
                    assert(shorter[i].table == table);
                }
            }
            if has_failure(shorter, table) {
                let i = choose|i: int|
                    0 <= i < shorter.len() && (#[trigger] shorter[i]).table == table
                        && !shorter[i].read;
                assert(events[i].table == table);
            }
            if event.table == table && !event.read {
                assert(events[events.len() - 1].table == table);
            }
        }
        if counts_as_warmed(before.remaining, before.failed, event) {
            assert(after.warmed == before.warmed.push(event.table));
            assert(!before.warmed.contains(event.table));
            assert(after.warmed[before.warmed.len() as int] == event.table);
            assert(after.warmed.contains(table) <==> before.warmed.contains(table) || table
                == event.table) by {
                if before.warmed.contains(table) {
                    let k = choose|k: int|
                        0 <= k < before.warmed.len() && before.warmed[k] == table;
                    assert(after.warmed[k] == table);
                }
            }
        }
    }
}

/// When all segments of all tables are settled, in whatever order and by whichever readers, the
/// tables that were counted as warmed are exactly those of which no segment failed, each counted
/// once.
pub proof fn complete_tables_are_warmed_once(
    segments: Map<Seq<char>, usize>,
    events: Seq<SegmentEvent>,
)
    requires
        forall|t: Seq<char>| segments.contains_key(t) ==> #[trigger] segments[t] > 0,
        forall|t: Seq<char>|
            #[trigger] event_count(events, t) == (if segments.contains_key(t) {
                segments[t] as nat
            } else {
                0
            }),
    ensures
        settle_all(segments, events).warmed.no_duplicates(),
        forall|t: Seq<char>|
            #[trigger] settle_all(segments, events).warmed.contains(t) <==> segments.contains_key(t)
                && !has_failure(events, t),
{
    lemma_ledger_of_table(segments, events, Seq::empty());
    assert forall|t: Seq<char>|
        #[trigger] settle_all(segments, events).warmed.contains(t) <==> segments.contains_key(t)
            && !has_failure(events, t) by {
        lemma_ledger_of_table(segments, events, t);
        assert(event_count(events, t) == (if segments.contains_key(t) {
            segments[t] as nat
        } else {
            0
        }));
    }
}

/// A parallel warmup of distinct tables counts a table as warmed exactly when all of its segments
/// were read, and counts it once, whatever the order in which the plan's tasks were finished.
pub proof fn parallel_warmup_counts_read_tables(
    metadata: Map<Seq<char>, TableWarmupMetadata>,
    num_threads: int,
    tables: Seq<Seq<char>>,
    estimates: Seq<usize>,
    events: Seq<SegmentEvent>,
)
    requires
        tables.no_duplicates(),
        forall|t: Seq<char>|
            #[trigger] event_count(events, t) == task_count(
                plan_tasks(metadata, num_threads, tables, estimates),
                t,
            ),
    ensures
        ({
            let warmed = settle_all(
                plan_segments(num_threads, tables, estimates),
                events,
            ).warmed;
            &&& warmed.no_duplicates()
            &&& forall|t: Seq<char>|
                #[trigger] warmed.contains(t) <==> tables.contains(t) && !has_failure(events, t)
        }),
{
    plan_has_every_segment(metadata, num_threads, tables, estimates);
    let segments = plan_segments(num_threads, tables, estimates);
    assert forall|t: Seq<char>| segments.contains_key(t) implies #[trigger] segments[t] > 0 by {
        assert(tables.contains(t));
    }
    assert forall|t: Seq<char>|
        #[trigger] event_count(events, t) == (if segments.contains_key(t) {
            segments[t] as nat
        } else {
            0
        }) by {
        assert(task_count(plan_tasks(metadata, num_threads, tables, estimates), t) == (
        if tables.contains(t) {
            segments[t] as nat
        } else {
            0
        }));
    }
    complete_tables_are_warmed_once(segments, events);
}

/// A segment that some reader settled.
pub struct Settlement {
    /// The reader.
    pub worker: int,
    /// The segment's table.
    pub table: Seq<char>,
    /// The entries that were read, or `None` where the read failed.
    pub outcome: Option<usize>,
}

/// The settlements without the readers.
pub open spec fn events_of(settlements: Seq<Settlement>) -> Seq<SegmentEvent> {
    settlements.map_values(
        |s: Settlement| SegmentEvent { table: s.table, read: s.outcome is Some },
    )
}

/// The tallies of the readers after some settlements.
pub open spec fn tallies_after(
    segments: Map<Seq<char>, usize>,
    workers: nat,
    settlements: Seq<Settlement>,
) -> Seq<TallyView>
    decreases settlements.len(),
{
    if settlements.len() == 0 {
        Seq::new(workers, |i: int| empty_tally())
    } else {
        let before = tallies_after(segments, workers, settlements.drop_last());
        let ledger = settle_all(segments, events_of(settlements.drop_last()));
        let last = settlements.last();
        before.update(
            last.worker,
            tallied(
                ledger.remaining,
                ledger.failed,
                before[last.worker],
                last.table,
                last.outcome,
            ),
        )
    }
}

/// The entries that were read in all.
pub open spec fn settled_entries(settlements: Seq<Settlement>) -> nat
    decreases settlements.len(),
{
    if settlements.len() == 0 {
        0
    } else {
        settled_entries(settlements.drop_last()) + match settlements.last().outcome {
            Some(entries) => entries as nat,
            None => 0nat,
        }
    }
}

/// The sums with one tally replaced.
proof fn lemma_sums_update(tallies: Seq<TallyView>, i: int, tally: TallyView)
    requires
        0 <= i < tallies.len(),
    ensures
        warmed_sum(tallies.update(i, tally)) + tallies[i].warmed == warmed_sum(tallies)
            + tally.warmed,
        entries_sum(tallies.update(i, tally)) + tallies[i].entries == entries_sum(tallies)
            + tally.entries,
    decreases tallies.len(),
{
    let updated = tallies.update(i, tally);
    if i < tallies.len() - 1 {
        lemma_sums_update(tallies.drop_last(), i, tally);
        assert(updated.drop_last() =~= tallies.drop_last().update(i, tally));
    } else {
        assert(updated.drop_last() =~= tallies.drop_last());
    }
}

/// Nothing was counted by readers that did nothing.
proof fn lemma_sums_empty(workers: nat)
    ensures
        warmed_sum(Seq::new(workers, |i: int| empty_tally())) == 0,
        entries_sum(Seq::new(workers, |i: int| empty_tally())) == 0,
    decreases workers,
{
    if workers > 0 {
        let tallies = Seq::new(workers, |i: int| empty_tally());
        lemma_sums_empty((workers - 1) as nat);
        assert(tallies.drop_last() =~= Seq::new((workers - 1) as nat, |i: int| empty_tally()));
    }
}

/// What the readers counted, whoever settled which segment: together they counted the tables that
/// the ledger counted, the entries that were read, and the tables that failed.
pub proof fn readers_count_together(
    segments: Map<Seq<char>, usize>,
    workers: nat,
    settlements: Seq<Settlement>,
)
    requires
        forall|i: int| 0 <= i < settlements.len() ==> 0 <= (#[trigger] settlements[i]).worker
            < workers,
    ensures
        ({
            let tallies = tallies_after(segments, workers, settlements);
            let events = events_of(settlements);
            &&& tallies.len() == workers
            &&& warmed_sum(tallies) == settle_all(segments, events).warmed.len()
            &&& entries_sum(tallies) == settled_entries(settlements)
            &&& forall|t: Seq<char>| #[trigger]
                failed_for_some(tallies, t) <==> has_failure(events, t)
        }),
    decreases settlements.len(),
{
    let tallies = tallies_after(segments, workers, settlements);
    let events = events_of(settlements);
    if settlements.len() == 0 {
        lemma_sums_empty(workers);
        assert forall|t: Seq<char>| #[trigger]
            failed_for_some(tallies, t) <==> has_failure(events, t) by {
            if failed_for_some(tallies, t) {
                let k = choose|k: int|
                    0 <= k < tallies.len() && (#[trigger] tallies[k]).failed.contains(t);
                assert(tallies[k] == empty_tally());
            }
        }
    } else {
        let shorter = settlements.drop_last();
        let last = settlements.last();
        assert forall|i: int| 0 <= i < shorter.len() implies 0 <= (#[trigger] shorter[i]).worker
            < workers by {
            assert(settlements[i].worker < workers);
        }
        readers_count_together(segments, workers, shorter);
        let before = tallies_after(segments, workers, shorter);
        let ledger = settle_all(segments, events_of(shorter));
        assert(events.drop_last() =~= events_of(shorter));
        assert(settlements[settlements.len() - 1].worker < workers);
        let tally = tallied(
            ledger.remaining,
            ledger.failed,
            before[last.worker],
            last.table,
            last.outcome,
        );
        lemma_sums_update(before, last.worker, tally);
        assert forall|t: Seq<char>| #[trigger]
            failed_for_some(tallies, t) <==> has_failure(events, t) by {
            lemma_failed_is_failure(before, events, last.worker, tally, t, last.outcome is Some);
        }
    }
}

/// One more settlement adds a failed table if and only if it failed.
proof fn lemma_failed_is_failure(
    before: Seq<TallyView>,
    events: Seq<SegmentEvent>,
    worker: int,
    tally: TallyView,
    table: Seq<char>,
    read: bool,
)
    requires
        0 <= worker < before.len(),
        events.len() > 0,
        events.last().read == read,
        tally.failed == (if read {
            before[worker].failed
        } else {
            before[worker].failed.push(events.last().table)
        }),
        failed_for_some(before, table) <==> has_failure(events.drop_last(), table),
    ensures
        failed_for_some(before.update(worker, tally), table) <==> has_failure(events, table),
{
    let after = before.update(worker, tally);
    let shorter = events.drop_last();
    let failing = events.last().table;
    if has_failure(events, table) {
        let i = choose|i: int|
            0 <= i < events.len() && (#[trigger] events[i]).table == table && !events[i].read;
        if i < shorter.len() {
            assert(shorter[i].table == table);
            let k = choose|k: int|
                0 <= k < before.len() && (#[trigger] before[k]).failed.contains(table);
            let m = choose|m: int|
                0 <= m < before[k].failed.len() && before[k].failed[m] == table;
            assert(after[k].failed[m] == table);
        } else {
            assert(after[worker].failed[tally.failed.len() - 1] == table);
        }
        assert(failed_for_some(after, table));
    }
    if failed_for_some(after, table) {
        let k = choose|k: int|
            0 <= k < after.len() && (#[trigger] after[k]).failed.contains(table);
        let m = choose|m: int| 0 <= m < after[k].failed.len() && after[k].failed[m] == table;
        if k == worker && !read && m == before[worker].failed.len() {
            assert(events[events.len() - 1].table == table);
        } else {
            assert(before[k].failed[m] == table);
            assert(before[k].failed.contains(table));
            let i = choose|i: int|
                0 <= i < shorter.len() && (#[trigger] shorter[i]).table == table
                    && !shorter[i].read;
            assert(events[i].table == table);
        }
    }
}

/// A table is settled only if the plan has a task for it.
proof fn lemma_settled_tables_are_counted(events: Seq<SegmentEvent>, table: Seq<char>)
    requires
        has_failure(events, table),
    ensures
        event_count(events, table) > 0,
    decreases events.len(),
{
    let i = choose|i: int|
        0 <= i < events.len() && (#[trigger] events[i]).table == table && !events[i].read;
    if i < events.len() - 1 {
        assert(events.drop_last()[i].table == table);
        lemma_settled_tables_are_counted(events.drop_last(), table);
    }
}

/// Two lists without repetitions that hold the same have the same length.
proof fn lemma_same_len(a: Seq<Seq<char>>, b: Seq<Seq<char>>)
    requires
        a.no_duplicates(),
        b.no_duplicates(),
        forall|t: Seq<char>| a.contains(t) <==> b.contains(t),
    ensures
        a.len() == b.len(),
{
    a.unique_seq_to_set();
    b.unique_seq_to_set();
    assert(a.to_set() =~= b.to_set());
}

/// A parallel warmup of distinct tables reports every table: it counts those of which all
/// segments were read, names the others as failed, and so counts no more tables than there are.
pub proof fn every_table_is_warmed_or_failed(
    metadata: Map<Seq<char>, TableWarmupMetadata>,
    num_threads: int,
    tables: Seq<Seq<char>>,
    estimates: Seq<usize>,
    workers: nat,
    settlements: Seq<Settlement>,
    stats: WarmupStats,
)
    requires
        tables.no_duplicates(),
        forall|i: int| 0 <= i < settlements.len() ==> 0 <= (#[trigger] settlements[i]).worker
            < workers,
        forall|t: Seq<char>|
            #[trigger] event_count(events_of(settlements), t) == task_count(
                plan_tasks(metadata, num_threads, tables, estimates),
                t,
            ),
        is_report(
            tallies_after(plan_segments(num_threads, tables, estimates), workers, settlements),
            stats,
        ),
    ensures
        stats.tables_warmed + stats.failed_tables@.len() == tables.len(),
        stats.skipped_tables@.len() == 0,
        stats.total_entries == settled_entries(settlements),
        forall|t: Seq<char>| #[trigger]
            names(stats.failed_tables@).contains(t) <==> has_failure(events_of(settlements), t),
{
    let segments = plan_segments(num_threads, tables, estimates);
    let events = events_of(settlements);
    let tallies = tallies_after(segments, workers, settlements);
    let failed = names(stats.failed_tables@);
    let warmed = settle_all(segments, events).warmed;
    readers_count_together(segments, workers, settlements);
    parallel_warmup_counts_read_tables(metadata, num_threads, tables, estimates, events);
    plan_has_every_segment(metadata, num_threads, tables, estimates);
    let all = warmed + failed;
    assert forall|t: Seq<char>| #[trigger] all.contains(t) <==> tables.contains(t) by {
        lemma_concat_contains(warmed, failed, t);
        assert(failed.contains(t) <==> failed_for_some(tallies, t));
        if has_failure(events, t) {
            lemma_settled_tables_are_counted(events, t);
            assert(event_count(events, t) == task_count(
                plan_tasks(metadata, num_threads, tables, estimates),
                t,
            ));
        }
    }
    assert(all.no_duplicates()) by {
        assert forall|i: int, j: int| 0 <= i < all.len() && 0 <= j < all.len() && i
            != j implies all[i] != all[j] by {
            if all[i] == all[j] {
                let t = all[i];
                assert(failed.contains(t) <==> failed_for_some(tallies, t));
                if i < warmed.len() && j < warmed.len() {
                    assert(warmed[i] != warmed[j]);
                } else if i >= warmed.len() && j >= warmed.len() {
                    assert(failed[i - warmed.len()] != failed[j - warmed.len()]);
                } else {
                    let (w, k) = if i < warmed.len() {
                        (i, j)
                    } else {
                        (j, i)
                    };
                    assert(warmed[w] == t && warmed.contains(t));
                    assert(failed[k - warmed.len()] == t && failed.contains(t));
                }
            }
        }
    }
    lemma_same_len(all, tables);
}

/// The open segments of the table are one fewer, down to none, and those of the others as many as
/// before.
pub open spec fn one_fewer(
    before: Map<Seq<char>, usize>,
    table: Seq<char>,
    after: Map<Seq<char>, usize>,
) -> bool {
    &&& forall|name: Seq<char>| #[trigger] after.contains_key(name) <==> before.contains_key(name)
    &&& forall|name: Seq<char>|
        before.contains_key(name) && name != table ==> #[trigger] after[name] == before[name]
    &&& before.contains_key(table) && before[table] > 0 ==> after[table] == before[table] - 1
    &&& before.contains_key(table) && before[table] == 0 ==> after[table] == 0
}

/// A settled segment is one fewer that is open, and the last one is the one after which none is.
pub proof fn settling_leaves_one_fewer(
    remaining: &mut StringHashMap<usize>,
    table: &str,
    is_last: bool,
    failed: &StringHashSet,
    has_failed: bool,
)
    requires
        call_ensures(mark_segment_complete, (remaining, table), is_last),
        call_ensures(table_has_failed, (failed, table), has_failed),
    ensures
        one_fewer(old(remaining)@, table@, final(remaining)@),
        is_last <==> old(remaining)@.contains_key(table@) && final(remaining)@[table@] == 0,
        has_failed <==> failed@.contains(table@),
{
}

/// A reader that settles a segment adds the entries that it read, and names the table where it
/// failed. The table is counted as warmed with the segment that leaves none open, where that one
/// was read and none of the table failed.
pub proof fn tables_are_warmed_with_their_last_segment(
    tally: &mut WorkerTally,
    ledger: &mut WarmupLedger,
    table: &String,
    outcome: Option<usize>,
)
    requires
        call_ensures(WorkerTally::settle_segment, (tally, ledger, table, outcome), ()),
    ensures
        one_fewer(old(ledger).remaining@, table@, final(ledger).remaining@),
        forall|name: Seq<char>| #[trigger]
            final(ledger).failed@.contains(name) <==> old(ledger).failed@.contains(name) || (
            outcome is None && name == table@),
        outcome is Some ==> {
            &&& final(tally).total_entries == old(tally).total_entries + outcome->0
            &&& final(tally).failed@.len() == old(tally).failed@.len()
        },
        outcome is None ==> {
            &&& final(tally).total_entries == old(tally).total_entries
            &&& final(tally).failed@.len() == old(tally).failed@.len() + 1
            &&& final(tally).failed@.last()@ == table@
        },
        forall|i: int|
            0 <= i < old(tally).failed@.len() ==> (#[trigger] final(tally).failed@[i])@ == old(
                tally,
            ).failed@[i]@,
        ({
            let warmed = outcome is Some && old(ledger).remaining@.contains_key(table@)
                && final(ledger).remaining@[table@] == 0 && !old(ledger).failed@.contains(table@);
            final(tally).tables_warmed == old(tally).tables_warmed + (if warmed {
                1int
            } else {
                0
            })
        }),
{
    let before = names(old(tally).failed@);
    let after = names(final(tally).failed@);
    assert(before.len() == old(tally).failed@.len());
    assert(after.len() == final(tally).failed@.len());
    assert forall|i: int| 0 <= i < before.len() implies (#[trigger] final(tally).failed@[i])@ == old(
        tally,
    ).failed@[i]@ by {
        assert(after[i] == final(tally).failed@[i]@);
        assert(before[i] == old(tally).failed@[i]@);
    }
    if outcome is None {
        assert(after[after.len() - 1] == final(tally).failed@.last()@);
    }
}

/// At the beginning all segments are open, nothing failed, and nothing was counted.
pub proof fn ledger_begins_with_all_segments(
    segments: StringHashMap<usize>,
    ledger: WarmupLedger,
    tally: WorkerTally,
    name: Seq<char>,
)
    requires
        call_ensures(WarmupLedger::new, (segments,), ledger),
        call_ensures(WorkerTally::new, (), tally),
    ensures
        ledger.remaining@ == segments@,
        !ledger.failed@.contains(name),
        tally.tables_warmed == 0,
        tally.total_entries == 0,
        tally.failed@.len() == 0,
{
    assert(names(tally.failed@).len() == tally.failed@.len());
}

/// There is always a reader, never one without a task where there are tasks, and never more than
/// there are threads; all threads read where there are enough tasks.
pub proof fn readers_have_tasks(num_threads: usize, tasks: usize, workers: usize)
    requires
        call_ensures(worker_count, (num_threads, tasks), workers),
    ensures
        workers >= 1,
        workers <= num_threads || workers == 1,
        workers <= tasks || workers == 1,
        workers >= num_threads || workers >= tasks,
{
}

/// The counts of the readers add up.
proof fn lemma_sums_fold(tallies: Seq<TallyView>, warmed: Seq<int>, entries: Seq<int>)
    requires
        warmed.len() == tallies.len(),
        entries.len() == tallies.len(),
        forall|i: int| 0 <= i < tallies.len() ==> #[trigger] warmed[i] == tallies[i].warmed,
        forall|i: int| 0 <= i < tallies.len() ==> #[trigger] entries[i] == tallies[i].entries,
    ensures
        warmed_sum(tallies) == warmed.fold_left(0, |a: int, b: int| a + b),
        entries_sum(tallies) == entries.fold_left(0, |a: int, b: int| a + b),
    decreases tallies.len(),
{
    if tallies.len() > 0 {
        let shorter = tallies.drop_last();
        let k = tallies.len() - 1;
        assert forall|i: int| 0 <= i < shorter.len() implies #[trigger] warmed.drop_last()[i]
            == shorter[i].warmed by {
            assert(warmed[i] == tallies[i].warmed);
        }
        assert forall|i: int| 0 <= i < shorter.len() implies #[trigger] entries.drop_last()[i]
            == shorter[i].entries by {
            assert(entries[i] == tallies[i].entries);
        }
        lemma_sums_fold(shorter, warmed.drop_last(), entries.drop_last());
        assert(warmed[k as int] == tallies[k as int].warmed);
        assert(entries[k as int] == tallies[k as int].entries);
    }
}

/// What is reported is what all readers counted: the sums of their counts, and each table that one
/// of them failed on, once and in order.
pub proof fn report_is_the_sum_of_the_readers(
    tallies: &Vec<WorkerTally>,
    stats: WarmupStats,
    warmed: Seq<int>,
    entries: Seq<int>,
    name: Seq<char>,
)
    requires
        call_ensures(merge_tallies, (tallies,), stats),
        warmed.len() == tallies@.len(),
        entries.len() == tallies@.len(),
        forall|i: int| 0 <= i < tallies@.len() ==> #[trigger] warmed[i] == tallies@[i].tables_warmed,
        forall|i: int|
            0 <= i < tallies@.len() ==> #[trigger] entries[i] == tallies@[i].total_entries,
    ensures
        stats.tables_warmed == warmed.fold_left(0, |a: int, b: int| a + b),
        stats.total_entries == entries.fold_left(0, |a: int, b: int| a + b),
        stats.duration == 0,
        stats.skipped_tables@.len() == 0,
        is_named(stats.failed_tables@, name) <==> exists|i: int|
            0 <= i < tallies@.len() && is_named((#[trigger] tallies@[i]).failed@, name),
        forall|i: int, j: int|
            0 <= i < j < stats.failed_tables@.len() ==> {
                &&& (#[trigger] stats.failed_tables@[i])@ != (#[trigger] stats.failed_tables@[j])@
                &&& lex_le(stats.failed_tables@[i]@, stats.failed_tables@[j]@)
            },
{
    let views = tally_views(tallies@);
    assert(views.len() == tallies@.len());
    assert forall|i: int| 0 <= i < views.len() implies #[trigger] warmed[i] == views[i].warmed by {
        assert(views[i] == tallies@[i]@);
    }
    assert forall|i: int| 0 <= i < views.len() implies #[trigger] entries[i] == views[i].entries by {
        assert(views[i] == tallies@[i]@);
    }
    lemma_sums_fold(views, warmed, entries);
    let failed = names(stats.failed_tables@);
    lemma_is_named(stats.failed_tables@, name);
    assert(failed.contains(name) <==> failed_for_some(views, name));
    if failed_for_some(views, name) {
        let i = choose|i: int| 0 <= i < views.len() && (#[trigger] views[i]).failed.contains(name);
        assert(views[i] == tallies@[i]@);
        lemma_is_named(tallies@[i].failed@, name);
        assert(is_named(tallies@[i].failed@, name));
    }
    if exists|i: int| 0 <= i < tallies@.len() && is_named((#[trigger] tallies@[i]).failed@, name) {
        let i = choose|i: int|
            0 <= i < tallies@.len() && is_named((#[trigger] tallies@[i]).failed@, name);
        lemma_is_named(tallies@[i].failed@, name);
        assert(views[i] == tallies@[i]@);
        assert(views[i].failed.contains(name));
    }
    assert forall|i: int, j: int| 0 <= i < j < stats.failed_tables@.len() implies {
        &&& (#[trigger] stats.failed_tables@[i])@ != (#[trigger] stats.failed_tables@[j])@
        &&& lex_le(stats.failed_tables@[i]@, stats.failed_tables@[j]@)
    } by {
        assert(failed[i] == stats.failed_tables@[i]@);
        assert(failed[j] == stats.failed_tables@[j]@);
    }
}

/// A single reader reads each table as a whole, by its kind of keys.
pub proof fn single_reader_reads_whole_tables(
    tables: &Vec<String>,
    metadata: &StringHashMap<TableWarmupMetadata>,
    ranges: Vec<KeyRange>,
)
    requires
        call_ensures(sequential_ranges, (tables, metadata), ranges),
    ensures
        ranges@.len() == tables@.len(),
        forall|i: int|
            0 <= i < tables@.len() ==> {
                let range = #[trigger] ranges@[i];
                &&& range.start is None
                &&& range.end is None
                &&& range.key_space == KeySpace::Integer <==> metadata@.contains_key(tables@[i]@)
                    && metadata@[tables@[i]@].integer_key
            },
{
}

/// The places of the tables that could not be read.
proof fn lemma_unread_places(tables: Seq<Seq<char>>, outcomes: Seq<Option<usize>>) -> (places: Seq<
    int,
>)
    ensures
        ({
            let unread = unread_tables(tables, outcomes);
            &&& places.len() == unread.len()
            &&& forall|k: int|
                0 <= k < places.len() ==> {
                    &&& 0 <= #[trigger] places[k] < outcomes.len()
                    &&& outcomes[places[k]] is None
                    &&& unread[k] == tables[places[k]]
                }
            &&& forall|k: int, m: int|
                0 <= k < m < places.len() ==> #[trigger] places[k] < #[trigger] places[m]
            &&& forall|i: int|
                0 <= i < outcomes.len() && #[trigger] outcomes[i] is None ==> places.contains(i)
        }),
    decreases outcomes.len(),
{
    if outcomes.len() == 0 {
        Seq::empty()
    } else {
        let shorter = outcomes.drop_last();
        let before = lemma_unread_places(tables, shorter);
        let n = outcomes.len() - 1;
        let places = if outcomes.last() is Some {
            before
        } else {
            before.push(n as int)
        };
        assert forall|k: int| 0 <= k < places.len() implies {
            &&& 0 <= #[trigger] places[k] < outcomes.len()
            &&& outcomes[places[k]] is None
            &&& unread_tables(tables, outcomes)[k] == tables[places[k]]
        } by {
            if k < before.len() {
                assert(before[k] == places[k]);
                assert(shorter[before[k]] is None);
            }
        }
        assert forall|i: int|
            0 <= i < outcomes.len() && #[trigger] outcomes[i] is None implies places.contains(i) by {
            if i < n {
                assert(shorter[i] is None);
                let k = choose|k: int| 0 <= k < before.len() && before[k] == i;
                assert(places[k] == i);
            } else {
                assert(places[places.len() - 1] == i);
            }
        }
        places
    }
}

/// What was read adds up.
proof fn lemma_read_folds(outcomes: Seq<Option<usize>>, entries: Seq<int>)
    requires
        entries.len() == outcomes.len(),
        forall|i: int|
            0 <= i < outcomes.len() ==> #[trigger] entries[i] == (match outcomes[i] {
                Some(n) => n as int,
                None => 0,
            }),
    ensures
        read_count(outcomes) == outcomes.filter(|o: Option<usize>| o is Some).len(),
        read_entries(outcomes) == entries.fold_left(0, |a: int, b: int| a + b),
    decreases outcomes.len(),
{
    reveal(Seq::filter);
    if outcomes.len() > 0 {
        let shorter = outcomes.drop_last();
        let k = outcomes.len() - 1;
        assert forall|i: int| 0 <= i < shorter.len() implies #[trigger] entries.drop_last()[i] == (
        match shorter[i] {
            Some(n) => n as int,
            None => 0,
        }) by {
            assert(entries[i] == (match outcomes[i] {
                Some(n) => n as int,
                None => 0,
            }));
        }
        lemma_read_folds(shorter, entries.drop_last());
        assert(entries[k as int] == (match outcomes[k as int] {
            Some(n) => n as int,
            None => 0,
        }));
    }
}

/// A warmup that reads one table after the other counts the tables that were read and their
/// entries, and names the others as failed, in their order.
pub proof fn sequential_report_is_what_was_read(
    tables: &Vec<String>,
    outcomes: &Vec<Option<usize>>,
    stats: WarmupStats,
    entries: Seq<int>,
) -> (places: Seq<int>)
    requires
        outcomes@.len() == tables@.len(),
        call_ensures(warmup_tables_sequential, (tables, outcomes), stats),
        entries.len() == outcomes@.len(),
        forall|i: int|
            0 <= i < outcomes@.len() ==> #[trigger] entries[i] == (match outcomes@[i] {
                Some(n) => n as int,
                None => 0,
            }),
    ensures
        stats.tables_warmed == outcomes@.filter(|o: Option<usize>| o is Some).len(),
        stats.total_entries == entries.fold_left(0, |a: int, b: int| a + b),
        stats.duration == 0,
        stats.skipped_tables@.len() == 0,
        places.len() == stats.failed_tables@.len(),
        forall|k: int|
            0 <= k < places.len() ==> {
                &&& 0 <= #[trigger] places[k] < tables@.len()
                &&& outcomes@[places[k]] is None
                &&& stats.failed_tables@[k]@ == tables@[places[k]]@
            },
        forall|k: int, m: int|
            0 <= k < m < places.len() ==> #[trigger] places[k] < #[trigger] places[m],
        forall|i: int|
            0 <= i < outcomes@.len() && #[trigger] outcomes@[i] is None ==> places.contains(i),
{
    lemma_read_folds(outcomes@, entries);
    let places = lemma_unread_places(names(tables@), outcomes@);
    let failed = names(stats.failed_tables@);
    assert(failed.len() == stats.failed_tables@.len());
    assert forall|k: int| 0 <= k < places.len() implies {
        &&& 0 <= #[trigger] places[k] < tables@.len()
        &&& outcomes@[places[k]] is None
        &&& stats.failed_tables@[k]@ == tables@[places[k]]@
    } by {
        assert(failed[k] == stats.failed_tables@[k]@);
        assert(names(tables@)[places[k]] == tables@[places[k]]@);
    }
    places
}

} // verus!
