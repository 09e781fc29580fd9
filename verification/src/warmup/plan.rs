//! Which tables are read, and how each is split among the readers.

use crate::warmup::key_range::KeyRange;
use crate::warmup::key_range::KeySpace;
use crate::warmup::key_range::is_even_share;
use crate::warmup::key_range::lemma_range_is_even_share;
use crate::warmup::key_range::segment_range;
use crate::warmup::stats::is_named;
use vstd::hash_map::StringHashMap;
use vstd::prelude::*;

verus! {

/// Most readers that a single table is split among.
pub const MAX_READERS_PER_TABLE: usize = 64;

/// Size in bytes that a table of unknown size counts with.
pub const DEFAULT_TABLE_SIZE_ESTIMATE: usize = 1;

/// Database table pre-warming mode.
#[derive(Debug, Clone, Copy, PartialEq, Eq, Structural)]
#[non_exhaustive]
pub enum WarmupMode {
    /// No pre-warming (default).
    Off,
    /// Pre-warm only state tables (PlainAccountState, PlainStorageState, Bytecodes).
    State,
    /// Pre-warm tables needed for block execution (state + block data tables).
    Execution,
    /// Pre-warm all tables.
    All,
}

/// What is known of a table before it is read.
#[derive(Debug, Clone, Copy)]
pub struct TableWarmupMetadata {
    /// Size of the table in bytes.
    pub size_bytes: usize,
    /// Whether the table is keyed by integers.
    pub integer_key: bool,
}

impl TableWarmupMetadata {
    /// The key space of the table.
    pub open spec fn spec_key_space(self) -> KeySpace {
        if self.integer_key {
            KeySpace::Integer
        } else {
            KeySpace::Bytes
        }
    }

    /// The key space of the table.
    pub fn key_space(&self) -> (space: KeySpace)
        ensures
            space == self.spec_key_space(),
    {
        if self.integer_key {
            KeySpace::Integer
        } else {
            KeySpace::Bytes
        }
    }
}

/// One segment of one table, to be read by one reader.
#[derive(Debug, Clone)]
pub struct WarmupTask {
    /// Name of the table.
    pub table_name: String,
    /// The keys to read.
    pub range: KeyRange,
    /// Which segment of the table this is.
    pub segment_index: usize,
    /// How many segments the table has.
    pub segment_total: usize,
}

/// A [`WarmupTask`] with the table's name as characters.
pub struct TaskView {
    /// Name of the table.
    pub table: Seq<char>,
    /// The keys to read.
    pub range: KeyRange,
    /// Which segment of the table this is.
    pub index: int,
    /// How many segments the table has.
    pub total: int,
}

impl View for WarmupTask {
    type V = TaskView;

    open spec fn view(&self) -> TaskView {
        TaskView {
            table: self.table_name@,
            range: self.range,
            index: self.segment_index as int,
            total: self.segment_total as int,
        }
    }
}

/// The tasks of a warmup, and how many there are for each table.
pub struct WarmupPlan {
    /// The tasks, table by table.
    pub tasks: Vec<WarmupTask>,
    /// Number of segments of each table.
    pub segments_per_table: StringHashMap<usize>,
}

/// The strings as sequences of characters.
pub open spec fn names(strings: Seq<String>) -> Seq<Seq<char>> {
    strings.map_values(|s: String| s@)
}

/// The tasks as [`TaskView`]s.
pub open spec fn task_views(tasks: Seq<WarmupTask>) -> Seq<TaskView> {
    tasks.map_values(|t: WarmupTask| t@)
}

/// The tables that hold the current state.
pub open spec fn state_tables() -> Seq<Seq<char>> {
    seq!["PlainAccountState"@, "PlainStorageState"@, "Bytecodes"@]
}

/// The tables that hold block data.
pub open spec fn block_tables() -> Seq<Seq<char>> {
    seq!["Headers"@, "CanonicalHeaders"@, "BlockBodyIndices"@, "Transactions"@, "Receipts"@]
}

/// The tables of a mode, in the order they are read, where the database has the tables
/// `catalogue`.
pub open spec fn tables_for_mode(mode: WarmupMode, catalogue: Seq<Seq<char>>) -> Seq<Seq<char>> {
    match mode {
        WarmupMode::Off => Seq::empty(),
        WarmupMode::State => state_tables(),
        WarmupMode::Execution => state_tables() + block_tables(),
        WarmupMode::All => catalogue,
    }
}

/// The size that a table counts with.
pub open spec fn size_estimate(
    metadata: Map<Seq<char>, TableWarmupMetadata>,
    table: Seq<char>,
) -> nat {
    if metadata.contains_key(table) {
        metadata[table].size_bytes as nat
    } else {
        DEFAULT_TABLE_SIZE_ESTIMATE as nat
    }
}

/// The key space that a table is split in; byte strings where nothing is known.
pub open spec fn table_key_space(
    metadata: Map<Seq<char>, TableWarmupMetadata>,
    table: Seq<char>,
) -> KeySpace {
    if metadata.contains_key(table) {
        metadata[table].spec_key_space()
    } else {
        KeySpace::Bytes
    }
}

/// The sizes of the tables taken together.
pub open spec fn size_sum(
    metadata: Map<Seq<char>, TableWarmupMetadata>,
    tables: Seq<Seq<char>>,
) -> nat
    decreases tables.len(),
{
    if tables.len() == 0 {
        0
    } else {
        size_sum(metadata, tables.drop_last()) + size_estimate(metadata, tables.last())
    }
}

/// The larger of two numbers.
pub open spec fn max_of(a: int, b: int) -> int {
    if a < b {
        b
    } else {
        a
    }
}

/// The smaller of two numbers.
pub open spec fn min_of(a: int, b: int) -> int {
    if a < b {
        a
    } else {
        b
    }
}

/// Number of segments for a table whose share of the readers is estimated at `estimate`: at
/// least one, at most [`MAX_READERS_PER_TABLE`], and no more than there are readers.
pub open spec fn segment_count(estimate: int, num_threads: int) -> int {
    min_of(
        min_of(max_of(estimate, 1), MAX_READERS_PER_TABLE as int),
        max_of(num_threads, 1),
    )
}

/// The tasks of one table.
pub open spec fn table_tasks(table: Seq<char>, key_space: KeySpace, segments: int) -> Seq<TaskView> {
    Seq::new(
        segments as nat,
        |i: int|
            TaskView {
                table,
                range: segment_range(key_space, i, segments),
                index: i,
                total: segments,
            },
    )
}

/// The tasks of all tables, table by table.
pub open spec fn plan_tasks(
    metadata: Map<Seq<char>, TableWarmupMetadata>,
    num_threads: int,
    tables: Seq<Seq<char>>,
    estimates: Seq<usize>,
) -> Seq<TaskView>
    decreases tables.len(),
{
    if tables.len() == 0 {
        Seq::empty()
    } else {
        plan_tasks(metadata, num_threads, tables.drop_last(), estimates) + table_tasks(
            tables.last(),
            table_key_space(metadata, tables.last()),
            segment_count(estimates[tables.len() - 1] as int, num_threads),
        )
    }
}

/// The number of segments of each table; the last entry of a repeated table counts.
pub open spec fn plan_segments(
    num_threads: int,
    tables: Seq<Seq<char>>,
    estimates: Seq<usize>,
) -> Map<Seq<char>, usize>
    decreases tables.len(),
{
    if tables.len() == 0 {
        Map::empty()
    } else {
        plan_segments(num_threads, tables.drop_last(), estimates).insert(
            tables.last(),
            segment_count(estimates[tables.len() - 1] as int, num_threads) as usize,
        )
    }
}

/// The strings of a list, as a list of its own.
pub fn clone_strings(strings: &Vec<String>) -> (copy: Vec<String>)
    ensures
        copy@ == strings@,
{
    let mut copy: Vec<String> = Vec::new();
    let mut i: usize = 0;
    while i < strings.len()
        invariant
            i <= strings.len(),
            copy@ == strings@.take(i as int),
        decreases strings.len() - i,
    {
        copy.push(strings[i].clone());
        assert(strings@.take(i + 1) =~= strings@.take(i as int).push(strings@[i as int]));
        i += 1;
    }
    assert(strings@.take(strings@.len() as int) =~= strings@);
    copy
}

/// Returns the list of tables to warm based on the mode, where the database has the tables
/// `catalogue`.
pub fn get_tables_for_mode(mode: WarmupMode, catalogue: &Vec<String>) -> (tables: Vec<String>)
    ensures
        names(tables@) == tables_for_mode(mode, names(catalogue@)),
{
    match mode {
        WarmupMode::Off => {
            let tables: Vec<String> = Vec::new();
            assert(names(tables@) =~= Seq::empty());
            tables
        },
        WarmupMode::State => {
            let mut tables: Vec<String> = Vec::new();
            push_state_tables(&mut tables);
            assert(names(tables@) =~= state_tables());
            tables
        },
        WarmupMode::Execution => {
            let mut tables: Vec<String> = Vec::new();
            push_state_tables(&mut tables);
            tables.push("Headers".to_owned());
            tables.push("CanonicalHeaders".to_owned());
            tables.push("BlockBodyIndices".to_owned());
            tables.push("Transactions".to_owned());
            tables.push("Receipts".to_owned());
            assert(names(tables@) =~= state_tables() + block_tables());
            tables
        },
        WarmupMode::All => clone_strings(catalogue),
    }
}

/// Appends the state tables.
fn push_state_tables(tables: &mut Vec<String>)
    ensures
        names(final(tables)@) == names(old(tables)@) + state_tables(),
{
    tables.push("PlainAccountState".to_owned());
    tables.push("PlainStorageState".to_owned());
    tables.push("Bytecodes".to_owned());
    assert(names(tables@) =~= names(old(tables)@) + state_tables());
}

/// The size that a table counts with.
pub fn table_size_estimate(
    metadata: &StringHashMap<TableWarmupMetadata>,
    table: &str,
) -> (size: usize)
    ensures
        size == size_estimate(metadata@, table@),
{
    match metadata.get(table) {
        Some(meta) => meta.size_bytes,
        None => DEFAULT_TABLE_SIZE_ESTIMATE,
    }
}

/// The key space that a table is split in.
pub fn key_space_of_table(
    metadata: &StringHashMap<TableWarmupMetadata>,
    table: &str,
) -> (space: KeySpace)
    ensures
        space == table_key_space(metadata@, table@),
{
    match metadata.get(table) {
        Some(meta) => meta.key_space(),
        None => KeySpace::Bytes,
    }
}

/// Fewer tables have a smaller size.
proof fn lemma_size_sum_prefix(
    metadata: Map<Seq<char>, TableWarmupMetadata>,
    tables: Seq<Seq<char>>,
    k: int,
)
    requires
        0 <= k <= tables.len(),
    ensures
        size_sum(metadata, tables.take(k)) <= size_sum(metadata, tables),
    decreases tables.len(),
{
    if k < tables.len() {
        lemma_size_sum_prefix(metadata, tables.drop_last(), k);
        assert(tables.drop_last().take(k) =~= tables.take(k));
    } else {
        assert(tables.take(k) =~= tables);
    }
}

/// The size that all tables together count with, at least one: what each table's share is taken
/// of.
pub fn total_size_estimate(
    metadata: &StringHashMap<TableWarmupMetadata>,
    tables: &Vec<String>,
) -> (total: usize)
    requires
        size_sum(metadata@, names(tables@)) <= usize::MAX,
    ensures
        total == max_of(
            size_sum(metadata@, names(tables@)) as int,
            DEFAULT_TABLE_SIZE_ESTIMATE as int,
        ),
{
    let mut total: usize = 0;
    let mut i: usize = 0;
    let ghost all = names(tables@);
    while i < tables.len()
        invariant
            i <= tables.len(),
            all == names(tables@),
            size_sum(metadata@, all) <= usize::MAX,
            total == size_sum(metadata@, all.take(i as int)),
        decreases tables.len() - i,
    {
        proof {
            lemma_size_sum_prefix(metadata@, all, i + 1);
            assert(all.take(i + 1).drop_last() =~= all.take(i as int));
            assert(all.take(i + 1).last() == tables@[i as int]@);
        }
        total = total + table_size_estimate(metadata, tables[i].as_str());
        i += 1;
    }
    assert(all.take(all.len() as int) =~= all);
    if total < DEFAULT_TABLE_SIZE_ESTIMATE {
        DEFAULT_TABLE_SIZE_ESTIMATE
    } else {
        total
    }
}

/// The number of segments for an estimated share of the readers.
pub fn clamp_segments(estimate: usize, num_threads: usize) -> (segments: usize)
    ensures
        segments == segment_count(estimate as int, num_threads as int),
        1 <= segments <= MAX_READERS_PER_TABLE,
{
    let worker_hint: usize = if num_threads < 1 {
        1
    } else {
        num_threads
    };
    let at_least_one: usize = if estimate < 1 {
        1
    } else {
        estimate
    };
    let clamped: usize = if at_least_one < MAX_READERS_PER_TABLE {
        at_least_one
    } else {
        MAX_READERS_PER_TABLE
    };
    if clamped < worker_hint {
        clamped
    } else {
        worker_hint
    }
}

/// Splits each table into segments and lists the segments as tasks. `estimates` holds, for each
/// table, its share of the readers by size, rounded up.
pub fn build_warmup_plan(
    tables: &Vec<String>,
    metadata: &StringHashMap<TableWarmupMetadata>,
    num_threads: usize,
    estimates: &Vec<usize>,
) -> (plan: WarmupPlan)
    requires
        estimates.len() == tables.len(),
    ensures
        task_views(plan.tasks@) == plan_tasks(
            metadata@,
            num_threads as int,
            names(tables@),
            estimates@,
        ),
        plan.segments_per_table@ == plan_segments(num_threads as int, names(tables@), estimates@),
{
    let mut tasks: Vec<WarmupTask> = Vec::new();
    let mut segments_per_table: StringHashMap<usize> = StringHashMap::new();
    let ghost all = names(tables@);
    let mut i: usize = 0;
    assert(task_views(tasks@) =~= Seq::empty());
    while i < tables.len()
        invariant
            i <= tables.len(),
            estimates.len() == tables.len(),
            all == names(tables@),
            task_views(tasks@) == plan_tasks(
                metadata@,
                num_threads as int,
                all.take(i as int),
                estimates@,
            ),
            segments_per_table@ == plan_segments(
                num_threads as int,
                all.take(i as int),
                estimates@,
            ),
        decreases tables.len() - i,
    {
        let key_space: KeySpace = key_space_of_table(metadata, tables[i].as_str());
        let segments: usize = clamp_segments(estimates[i], num_threads);
        segments_per_table.insert(tables[i].clone(), segments);
        push_table_tasks(&mut tasks, &tables[i], key_space, segments);
        proof {
            assert(all.take(i + 1).drop_last() =~= all.take(i as int));
            assert(all.take(i + 1).last() == tables@[i as int]@);
        }
        i += 1;
    }
    assert(all.take(all.len() as int) =~= all);
    WarmupPlan { tasks, segments_per_table }
}

/// Appends the tasks of one table.
fn push_table_tasks(
    tasks: &mut Vec<WarmupTask>,
    table: &String,
    key_space: KeySpace,
    segments: usize,
)
    requires
        1 <= segments <= MAX_READERS_PER_TABLE,
    ensures
        task_views(final(tasks)@) == task_views(old(tasks)@) + table_tasks(
            table@,
            key_space,
            segments as int,
        ),
{
    let mut segment_index: usize = 0;
    let ghost full = table_tasks(table@, key_space, segments as int);
    assert(task_views(tasks@) + full.take(0) =~= task_views(tasks@));
    while segment_index < segments
        invariant
            segment_index <= segments,
            1 <= segments <= MAX_READERS_PER_TABLE,
            full == table_tasks(table@, key_space, segments as int),
            task_views(tasks@) == task_views(old(tasks)@) + full.take(segment_index as int),
        decreases segments - segment_index,
    {
        let range: KeyRange = KeyRange::segmented(key_space, segment_index, segments);
        let ghost before = tasks@;
        tasks.push(
            WarmupTask {
                table_name: table.clone(),
                range,
                segment_index,
                segment_total: segments,
            },
        );
        proof {
            assert(task_views(tasks@) =~= task_views(before).push(full[segment_index as int]));
            assert(full.take(segment_index + 1) =~= full.take(segment_index as int).push(
                full[segment_index as int],
            ));
            assert(task_views(tasks@) =~= task_views(old(tasks)@) + full.take(segment_index + 1));
        }
        segment_index += 1;
    }
    assert(full.take(full.len() as int) =~= full);
}

/// How many of the tasks are about `table`.
pub open spec fn task_count(tasks: Seq<TaskView>, table: Seq<char>) -> nat
    decreases tasks.len(),
{
    if tasks.len() == 0 {
        0
    } else {
        task_count(tasks.drop_last(), table) + if tasks.last().table == table {
            1nat
        } else {
            0nat
        }
    }
}

/// Counts add up over a concatenation.
proof fn lemma_task_count_concat(a: Seq<TaskView>, b: Seq<TaskView>, table: Seq<char>)
    ensures
        task_count(a + b, table) == task_count(a, table) + task_count(b, table),
    decreases b.len(),
{
    if b.len() == 0 {
        assert(a + b =~= a);
    } else {
        assert((a + b).drop_last() =~= a + b.drop_last());
        lemma_task_count_concat(a, b.drop_last(), table);
    }
}

/// The tasks of one table are about that table.
proof fn lemma_table_task_count(tasks: Seq<TaskView>, of: Seq<char>, table: Seq<char>)
    requires
        forall|i: int| 0 <= i < tasks.len() ==> (#[trigger] tasks[i]).table == of,
    ensures
        task_count(tasks, table) == (if of == table {
            tasks.len()
        } else {
            0
        }),
    decreases tasks.len(),
{
    if tasks.len() > 0 {
        assert forall|i: int| 0 <= i < tasks.drop_last().len() implies (
        #[trigger] tasks.drop_last()[i]).table == of by {
            assert(tasks[i].table == of);
        }
        lemma_table_task_count(tasks.drop_last(), of, table);
    }
}

/// Every table has between one and [`MAX_READERS_PER_TABLE`] segments, and no more than there
/// are readers.
pub proof fn segment_count_is_bounded(estimate: int, num_threads: int)
    ensures
        1 <= segment_count(estimate, num_threads) <= MAX_READERS_PER_TABLE,
        segment_count(estimate, num_threads) <= max_of(num_threads, 1),
{
}

/// A plan for distinct tables has a task for every segment: the number of its tasks for a table
/// is the number of the table's segments, and no task is about another table.
pub proof fn plan_has_every_segment(
    metadata: Map<Seq<char>, TableWarmupMetadata>,
    num_threads: int,
    tables: Seq<Seq<char>>,
    estimates: Seq<usize>,
)
    requires
        tables.no_duplicates(),
    ensures
        forall|t: Seq<char>|
            #[trigger] plan_segments(num_threads, tables, estimates).contains_key(t)
                <==> tables.contains(t),
        forall|t: Seq<char>|
            tables.contains(t) ==> #[trigger] plan_segments(num_threads, tables, estimates)[t] > 0,
        forall|t: Seq<char>|
            #[trigger] task_count(plan_tasks(metadata, num_threads, tables, estimates), t) == (
            if tables.contains(t) {
                plan_segments(num_threads, tables, estimates)[t] as nat
            } else {
                0
            }),
    decreases tables.len(),
{
    let segments = plan_segments(num_threads, tables, estimates);
    let tasks = plan_tasks(metadata, num_threads, tables, estimates);
    if tables.len() > 0 {
        let shorter = tables.drop_last();
        let last = tables.last();
        let count = segment_count(estimates[tables.len() - 1] as int, num_threads);
        let own = table_tasks(last, table_key_space(metadata, last), count);
        plan_has_every_segment(metadata, num_threads, shorter, estimates);
        let before = plan_segments(num_threads, shorter, estimates);
        assert(!shorter.contains(last));
        assert forall|t: Seq<char>| tables.contains(t) <==> shorter.contains(t) || t == last by {
            if tables.contains(t) {
                let k = choose|k: int| 0 <= k < tables.len() && tables[k] == t;
                if k < shorter.len() {
                    assert(shorter[k] == t);
                }
            }
            if shorter.contains(t) {
                let k = choose|k: int| 0 <= k < shorter.len() && shorter[k] == t;
                assert(tables[k] == t);
            }
            if t == last {
                assert(tables[tables.len() - 1] == t);
            }
        }
        assert forall|t: Seq<char>|
            #[trigger] segments.contains_key(t) <==> tables.contains(t) by {
            assert(before.contains_key(t) <==> shorter.contains(t));
        }
        assert forall|t: Seq<char>| tables.contains(t) implies #[trigger] segments[t] > 0 by {
            if t != last {
                assert(before[t] > 0);
            }
        }
        assert forall|t: Seq<char>|
            #[trigger] task_count(tasks, t) == (if tables.contains(t) {
                segments[t] as nat
            } else {
                0
            }) by {
            lemma_task_count_concat(
                plan_tasks(metadata, num_threads, shorter, estimates),
                own,
                t,
            );
            lemma_table_task_count(own, last, t);
            assert(task_count(plan_tasks(metadata, num_threads, shorter, estimates), t) == (
            if shorter.contains(t) {
                before[t] as nat
            } else {
                0
            }));
        }
    }
}

/// The tables of the state mode are the first of the execution mode, and turning the warmup off
/// reads none.
pub proof fn modes_are_nested(catalogue: Seq<Seq<char>>)
    ensures
        tables_for_mode(WarmupMode::Off, catalogue).len() == 0,
        tables_for_mode(WarmupMode::State, catalogue).is_prefix_of(
            tables_for_mode(WarmupMode::Execution, catalogue),
        ),
        tables_for_mode(WarmupMode::State, catalogue).len() == 3,
        tables_for_mode(WarmupMode::Execution, catalogue).len() == 8,
        tables_for_mode(WarmupMode::All, catalogue) == catalogue,
{
}

/// The tables of each mode, by name: none; those of the present state; those and the ones of block
/// data; and all that there are.
pub proof fn modes_read_these_tables(
    mode: WarmupMode,
    catalogue: &Vec<String>,
    tables: Vec<String>,
)
    requires
        call_ensures(get_tables_for_mode, (mode, catalogue), tables),
    ensures
        mode == WarmupMode::Off ==> tables@.len() == 0,
        mode == WarmupMode::State || mode == WarmupMode::Execution ==> {
            &&& tables@.len() >= 3
            &&& tables@[0]@ == "PlainAccountState"@
            &&& tables@[1]@ == "PlainStorageState"@
            &&& tables@[2]@ == "Bytecodes"@
        },
        mode == WarmupMode::State ==> tables@.len() == 3,
        mode == WarmupMode::Execution ==> {
            &&& tables@.len() == 8
            &&& tables@[3]@ == "Headers"@
            &&& tables@[4]@ == "CanonicalHeaders"@
            &&& tables@[5]@ == "BlockBodyIndices"@
            &&& tables@[6]@ == "Transactions"@
            &&& tables@[7]@ == "Receipts"@
        },
        mode == WarmupMode::All ==> tables@.len() == catalogue@.len() && forall|i: int|
            0 <= i < catalogue@.len() ==> (#[trigger] tables@[i])@ == catalogue@[i]@,
{
    let listed = names(tables@);
    assert(listed.len() == tables@.len());
    assert forall|i: int| 0 <= i < tables@.len() implies (#[trigger] tables@[i])@ == listed[i] by {}
    if mode == WarmupMode::All {
        assert forall|i: int| 0 <= i < catalogue@.len() implies (#[trigger] tables@[i])@
            == catalogue@[i]@ by {
            assert(names(catalogue@)[i] == catalogue@[i]@);
        }
    }
}

/// A table counts with the size that is known of it, and with one byte where none is known; it is
/// split by numbers where it is known to be keyed by integers, and by first bytes otherwise.
pub proof fn tables_count_with_what_is_known(
    metadata: &StringHashMap<TableWarmupMetadata>,
    table: &str,
    size: usize,
    space: KeySpace,
    known: &TableWarmupMetadata,
    known_space: KeySpace,
)
    requires
        call_ensures(table_size_estimate, (metadata, table), size),
        call_ensures(key_space_of_table, (metadata, table), space),
        call_ensures(TableWarmupMetadata::key_space, (known,), known_space),
    ensures
        metadata@.contains_key(table@) ==> size == metadata@[table@].size_bytes,
        !metadata@.contains_key(table@) ==> size == 1,
        space == KeySpace::Integer <==> metadata@.contains_key(table@)
            && metadata@[table@].integer_key,
        space == KeySpace::Bytes <==> !metadata@.contains_key(table@)
            || !metadata@[table@].integer_key,
        known_space == KeySpace::Integer <==> known.integer_key,
        known_space == KeySpace::Bytes <==> !known.integer_key,
{
}

/// The sizes add up.
proof fn lemma_size_sum_folds(
    metadata: Map<Seq<char>, TableWarmupMetadata>,
    tables: Seq<Seq<char>>,
    sizes: Seq<int>,
)
    requires
        sizes.len() == tables.len(),
        forall|i: int|
            0 <= i < tables.len() ==> #[trigger] sizes[i] == size_estimate(metadata, tables[i]),
    ensures
        size_sum(metadata, tables) == sizes.fold_left(0, |a: int, b: int| a + b),
    decreases tables.len(),
{
    if tables.len() > 0 {
        let fewer = sizes.drop_last();
        assert forall|i: int| 0 <= i < fewer.len() implies #[trigger] fewer[i] == size_estimate(
            metadata,
            tables.drop_last()[i],
        ) by {
            assert(sizes[i] == size_estimate(metadata, tables[i]));
        }
        lemma_size_sum_folds(metadata, tables.drop_last(), fewer);
        assert(sizes[tables.len() - 1] == size_estimate(metadata, tables.last()));
    }
}

/// All tables together count with the sum of what each counts with, and at least with one byte.
pub proof fn total_is_the_sum_of_the_sizes(
    metadata: &StringHashMap<TableWarmupMetadata>,
    tables: &Vec<String>,
    total: usize,
    sizes: Seq<int>,
)
    requires
        call_ensures(total_size_estimate, (metadata, tables), total),
        sizes.len() == tables@.len(),
        forall|i: int|
            0 <= i < tables@.len() ==> #[trigger] sizes[i] == (if metadata@.contains_key(
                tables@[i]@,
            ) {
                metadata@[tables@[i]@].size_bytes as int
            } else {
                1
            }),
    ensures
        ({
            let sum = sizes.fold_left(0, |a: int, b: int| a + b);
            total == (if sum < 1 {
                1
            } else {
                sum
            })
        }),
{
    let all = names(tables@);
    assert forall|i: int| 0 <= i < all.len() implies #[trigger] sizes[i] == size_estimate(
        metadata@,
        all[i],
    ) by {
        assert(all[i] == tables@[i]@);
    }
    lemma_size_sum_folds(metadata@, all, sizes);
}

/// A table has as many segments as its share of the readers, but at least one, at most 64, and no
/// more than there are readers.
pub proof fn segments_follow_the_share(estimate: usize, num_threads: usize, segments: usize)
    requires
        call_ensures(clamp_segments, (estimate, num_threads), segments),
    ensures
        is_segment_count(segments as int, estimate as int, num_threads as int),
{
}

/// The number of segments for a share of the readers.
pub open spec fn is_segment_count(segments: int, estimate: int, num_threads: int) -> bool {
    &&& 1 <= segments <= 64
    &&& segments <= num_threads || segments == 1
    &&& segments <= estimate || segments == 1
    &&& segments < estimate ==> segments == 64 || segments >= num_threads
}

/// The tasks of the tables, one table after the other, and of each table one segment after the
/// other.
pub open spec fn are_tasks_in_order(
    tasks: Seq<WarmupTask>,
    tables: Seq<String>,
    metadata: Map<Seq<char>, TableWarmupMetadata>,
    num_threads: int,
    estimates: Seq<usize>,
    lists: Seq<Seq<WarmupTask>>,
) -> bool {
    &&& tasks == lists.flatten()
    &&& lists.len() == tables.len()
    &&& forall|i: int|
        0 <= i < tables.len() ==> is_segment_count(
            (#[trigger] lists[i]).len() as int,
            estimates[i] as int,
            num_threads,
        )
    &&& forall|i: int, k: int|
        0 <= i < tables.len() && 0 <= k < lists[i].len() ==> {
            let task = #[trigger] lists[i][k];
            let integer_key = metadata.contains_key(tables[i]@)
                && metadata[tables[i]@].integer_key;
            &&& task.table_name@ == tables[i]@
            &&& task.segment_index == k
            &&& task.segment_total == lists[i].len()
            &&& is_even_share(
                task.range,
                if integer_key {
                    KeySpace::Integer
                } else {
                    KeySpace::Bytes
                },
                k,
                lists[i].len() as int,
            )
        }
}

/// The tasks of the first tables are those of the tables before the last, and the last's.
proof fn lemma_plan_in_order(
    tasks: Seq<WarmupTask>,
    tables: Seq<String>,
    metadata: Map<Seq<char>, TableWarmupMetadata>,
    num_threads: int,
    estimates: Seq<usize>,
) -> (lists: Seq<Seq<WarmupTask>>)
    requires
        estimates.len() >= tables.len(),
        task_views(tasks) == plan_tasks(metadata, num_threads, names(tables), estimates),
    ensures
        are_tasks_in_order(tasks, tables, metadata, num_threads, estimates, lists),
    decreases tables.len(),
{
    if tables.len() == 0 {
        let lists: Seq<Seq<WarmupTask>> = Seq::empty();
        assert(task_views(tasks).len() == 0);
        assert(tasks =~= lists.flatten());
        lists
    } else {
        let shorter = tables.drop_last();
        let all = names(tables);
        assert(all.drop_last() =~= names(shorter));
        assert(all.last() == tables.last()@);
        let k = tables.len() - 1;
        let count = segment_count(estimates[k as int] as int, num_threads);
        let space = table_key_space(metadata, all.last());
        let own = table_tasks(all.last(), space, count);
        let before = plan_tasks(metadata, num_threads, all.drop_last(), estimates);
        let views = task_views(tasks);
        assert(views == before + own);
        assert(views.len() == tasks.len());
        let cut = before.len() as int;
        let first = tasks.take(cut);
        let last = tasks.skip(cut);
        assert(task_views(first) =~= before) by {
            assert forall|i: int| 0 <= i < cut implies task_views(first)[i] == before[i] by {
                assert(views[i] == tasks[i]@);
            }
        }
        assert(task_views(last) =~= own) by {
            assert forall|i: int| 0 <= i < own.len() implies task_views(last)[i] == own[i] by {
                assert(views[cut + i] == tasks[cut + i]@);
            }
        }
        let earlier = lemma_plan_in_order(first, shorter, metadata, num_threads, estimates);
        let lists = earlier.push(last);
        assert(lists.drop_last() =~= earlier);
        lists.lemma_flatten_and_flatten_alt_are_equivalent();
        earlier.lemma_flatten_and_flatten_alt_are_equivalent();
        assert(tasks =~= first + last);
        assert(task_views(last).len() == last.len());
        assert forall|i: int| 0 <= i < tables.len() implies is_segment_count(
            (#[trigger] lists[i]).len() as int,
            estimates[i] as int,
            num_threads,
        ) by {
            if i < k {
                assert(lists[i] == earlier[i]);
            }
        }
        assert forall|i: int, j: int| 0 <= i < tables.len() && 0 <= j < lists[i].len() implies {
            let task = #[trigger] lists[i][j];
            let integer_key = metadata.contains_key(tables[i]@)
                && metadata[tables[i]@].integer_key;
            &&& task.table_name@ == tables[i]@
            &&& task.segment_index == j
            &&& task.segment_total == lists[i].len()
            &&& is_even_share(
                task.range,
                if integer_key {
                    KeySpace::Integer
                } else {
                    KeySpace::Bytes
                },
                j,
                lists[i].len() as int,
            )
        } by {
            if i < k {
                assert(lists[i] == earlier[i]);
                let task = earlier[i][j];
                assert(tables[i] == shorter[i]);
                assert(task.table_name@ == shorter[i]@);
            } else {
                let task = last[j];
                assert(task_views(last)[j] == task@);
                assert(own[j] == task@);
                lemma_range_is_even_share(space, j, count);
            }
        }
        lists
    }
}

/// A plan holds, table after table, every segment of the table once and in order: as many as its
/// share of the readers allows, each with its place among them and with its even share of the
/// table's keys.
pub proof fn plan_shares_out_every_table(
    tables: &Vec<String>,
    metadata: &StringHashMap<TableWarmupMetadata>,
    num_threads: usize,
    estimates: &Vec<usize>,
    plan: WarmupPlan,
) -> (lists: Seq<Seq<WarmupTask>>)
    requires
        estimates@.len() == tables@.len(),
        call_ensures(build_warmup_plan, (tables, metadata, num_threads, estimates), plan),
    ensures
        are_tasks_in_order(
            plan.tasks@,
            tables@,
            metadata@,
            num_threads as int,
            estimates@,
            lists,
        ),
        forall|i: int|
            0 <= i < tables@.len() ==> plan.segments_per_table@.contains_key(
                (#[trigger] tables@[i])@,
            ),
        forall|i: int|
            0 <= i < tables@.len() && is_last_of_its_name(tables@, i)
                ==> plan.segments_per_table@[(#[trigger] tables@[i])@] == lists[i].len(),
        forall|name: Seq<char>| #[trigger]
            plan.segments_per_table@.contains_key(name) ==> is_named(tables@, name),
{
    let lists = lemma_plan_in_order(
        plan.tasks@,
        tables@,
        metadata@,
        num_threads as int,
        estimates@,
    );
    let all = names(tables@);
    let segments = plan.segments_per_table@;
    assert forall|i: int| 0 <= i < tables@.len() implies segments.contains_key(
        (#[trigger] tables@[i])@,
    ) by {
        lemma_segments_of_table(num_threads as int, all, estimates@, i);
        assert(all[i] == tables@[i]@);
    }
    assert forall|i: int| 0 <= i < tables@.len() && is_last_of_its_name(tables@, i) implies segments[(
    #[trigger] tables@[i])@] == lists[i].len() by {
        lemma_segments_of_table(num_threads as int, all, estimates@, i);
        assert(all[i] == tables@[i]@);
        assert forall|j: int| i < j < all.len() implies #[trigger] all[j] != all[i] by {
            assert(tables@[j]@ != tables@[i]@);
        }
        assert(is_segment_count(lists[i].len() as int, estimates@[i] as int, num_threads as int));
    }
    assert forall|name: Seq<char>| #[trigger] segments.contains_key(name) implies is_named(
        tables@,
        name,
    ) by {
        lemma_segments_of_no_other(num_threads as int, all, estimates@, name);
        let k = choose|k: int| 0 <= k < all.len() && all[k] == name;
        assert(tables@[k]@ == name);
    }
    lists
}

/// No later table has the same name.
pub open spec fn is_last_of_its_name(tables: Seq<String>, i: int) -> bool {
    forall|j: int| i < j < tables.len() ==> (#[trigger] tables[j])@ != tables[i]@
}

/// What the plan says of the number of segments of a table.
proof fn lemma_segments_of_table(
    num_threads: int,
    tables: Seq<Seq<char>>,
    estimates: Seq<usize>,
    i: int,
)
    requires
        0 <= i < tables.len() <= estimates.len(),
    ensures
        plan_segments(num_threads, tables, estimates).contains_key(tables[i]),
        (forall|j: int| i < j < tables.len() ==> #[trigger] tables[j] != tables[i])
            ==> plan_segments(num_threads, tables, estimates)[tables[i]] == segment_count(
            estimates[i] as int,
            num_threads,
        ) as usize,
    decreases tables.len(),
{
    if i < tables.len() - 1 {
        let shorter = tables.drop_last();
        lemma_segments_of_table(num_threads, shorter, estimates, i);
        if forall|j: int| i < j < tables.len() ==> #[trigger] tables[j] != tables[i] {
            assert(tables[tables.len() - 1] != tables[i]);
            assert forall|j: int| i < j < shorter.len() implies #[trigger] shorter[j]
                != shorter[i] by {
                assert(tables[j] != tables[i]);
            }
        }
    }
}

/// The plan says nothing of other tables.
proof fn lemma_segments_of_no_other(
    num_threads: int,
    tables: Seq<Seq<char>>,
    estimates: Seq<usize>,
    name: Seq<char>,
)
    requires
        plan_segments(num_threads, tables, estimates).contains_key(name),
    ensures
        tables.contains(name),
    decreases tables.len(),
{
    if tables.len() > 0 {
        if tables.last() == name {
            assert(tables[tables.len() - 1] == name);
        } else {
            lemma_segments_of_no_other(num_threads, tables.drop_last(), estimates, name);
            let k = choose|k: int|
                0 <= k < tables.drop_last().len() && tables.drop_last()[k] == name;
            assert(tables[k] == name);
        }
    }
}

/// A copy of a list has the same strings in the same order.
pub proof fn copies_have_the_same_strings(strings: &Vec<String>, copy: Vec<String>)
    requires
        call_ensures(clone_strings, (strings,), copy),
    ensures
        copy@.len() == strings@.len(),
        forall|i: int| 0 <= i < strings@.len() ==> (#[trigger] copy@[i])@ == strings@[i]@,
{
}

} // verus!
