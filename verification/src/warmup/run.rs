//! The course of a warmup: what is done next, given how the last step went.

use crate::warmup::plan::TableWarmupMetadata;
use crate::warmup::plan::WarmupMode;
use crate::warmup::plan::get_tables_for_mode;
use crate::warmup::plan::names;
use crate::warmup::plan::tables_for_mode;
use crate::warmup::stats::WarmupStats;
use crate::warmup::stats::is_named;
use crate::warmup::stats::lemma_is_named;
use vstd::hash_map::StringHashMap;
use vstd::prelude::*;

verus! {

/// Flag of the database's own warmup: load all pages.
pub const BUILTIN_WARMUP_FORCE: u32 = 1;

/// Flag of the database's own warmup: do not run out of memory.
pub const BUILTIN_WARMUP_OOM_SAFE: u32 = 2;

/// Time limit of the database's own warmup: 3600 seconds, in units of 1/65536 second.
pub const BUILTIN_WARMUP_TIMEOUT: u32 = 235_929_600;

/// How a warmup begins.
pub enum WarmupStart {
    /// There is nothing to do.
    Finished(WarmupStats),
    /// Look up what is known of these tables.
    ReadMetadata(Vec<String>),
}

/// What a warmup does once the tables are known.
pub enum WarmupStep {
    /// Ask the database to warm all tables by itself.
    Builtin,
    /// Read the tables; how, the number of threads decides.
    Read,
    /// Read the tables with several readers.
    Parallel,
    /// Read the tables one after the other.
    Sequential,
    /// The warmup is over.
    Finished(WarmupStats),
}

/// How the database's own warmup ended.
#[derive(Debug, Clone, Copy, PartialEq, Eq, Structural)]
pub enum BuiltinWarmup {
    /// All pages were loaded.
    Completed,
    /// The time limit was reached; the pages so far were loaded.
    TimedOut,
}

/// How the tables are read: with several readers where there are several of both.
pub open spec fn reading_step(table_count: int, num_threads: int) -> WarmupStep {
    if num_threads > 1 && table_count > 1 {
        WarmupStep::Parallel
    } else {
        WarmupStep::Sequential
    }
}

/// Starts a warmup of the given mode on a database with the tables `catalogue`.
pub fn warmup_database(mode: WarmupMode, catalogue: &Vec<String>) -> (start: WarmupStart)
    ensures
        match start {
            WarmupStart::Finished(stats) => mode == WarmupMode::Off && stats.is_zero(),
            WarmupStart::ReadMetadata(tables) => mode != WarmupMode::Off && names(tables@)
                == tables_for_mode(mode, names(catalogue@)),
        },
{
    if mode == WarmupMode::Off {
        WarmupStart::Finished(WarmupStats::default())
    } else {
        WarmupStart::ReadMetadata(get_tables_for_mode(mode, catalogue))
    }
}

/// The step after the tables' metadata was read.
pub fn after_metadata(mode: WarmupMode) -> (step: WarmupStep)
    ensures
        step == (if mode == WarmupMode::All {
            WarmupStep::Builtin
        } else {
            WarmupStep::Read
        }),
{
    if mode == WarmupMode::All {
        WarmupStep::Builtin
    } else {
        WarmupStep::Read
    }
}

/// How the tables are read.
pub fn choose_reading(table_count: usize, num_threads: usize) -> (step: WarmupStep)
    ensures
        step == reading_step(table_count as int, num_threads as int),
{
    if num_threads > 1 && table_count > 1 {
        WarmupStep::Parallel
    } else {
        WarmupStep::Sequential
    }
}

/// The step after the database was asked to warm all tables by itself: it is over where that
/// worked, and the tables are read where it did not.
pub fn after_builtin(worked: bool, table_count: usize, elapsed: u128) -> (step: WarmupStep)
    ensures
        if worked {
            &&& step is Finished
            &&& step->Finished_0.tables_warmed == table_count
            &&& step->Finished_0.total_entries == 0
            &&& step->Finished_0.duration == elapsed
            &&& step->Finished_0.skipped_tables@.len() == 0
            &&& step->Finished_0.failed_tables@.len() == 0
        } else {
            step == WarmupStep::Read
        },
{
    if worked {
        WarmupStep::Finished(
            WarmupStats {
                tables_warmed: table_count,
                total_entries: 0,
                duration: elapsed,
                skipped_tables: Vec::new(),
                failed_tables: Vec::new(),
            },
        )
    } else {
        WarmupStep::Read
    }
}

/// The statistics of a warmup that took `elapsed` nanoseconds.
pub fn after_reading(stats: WarmupStats, elapsed: u128) -> (report: WarmupStats)
    ensures
        report == (WarmupStats { duration: elapsed, ..stats }),
{
    WarmupStats {
        tables_warmed: stats.tables_warmed,
        total_entries: stats.total_entries,
        duration: elapsed,
        skipped_tables: stats.skipped_tables,
        failed_tables: stats.failed_tables,
    }
}

/// `num_cpus::get`: the number of CPUs that are available here and now, at least one. Which
/// number depends on the machine.
#[verifier::external_body]
fn available_cpus() -> (cpus: usize)
    ensures
        cpus >= 1,
{
    num_cpus::get()
}

/// Number of threads for a number of CPUs: twice as many, at least one.
pub fn thread_count(cpus: usize) -> (threads: usize)
    requires
        cpus * 2 <= usize::MAX,
    ensures
        threads == (if cpus == 0 {
            1
        } else {
            cpus * 2
        }),
{
    let doubled: usize = cpus * 2;
    if doubled < 1 {
        1
    } else {
        doubled
    }
}

/// Number of threads for the CPUs of this machine; `None` where it does not fit a `usize`.
pub fn warmup_threads() -> (threads: Option<usize>)
    ensures
        threads is Some ==> threads->0 >= 2 && threads->0 % 2 == 0,
{
    threads_for_cpus(available_cpus())
}

/// Number of threads for a number of CPUs; `None` where it does not fit a `usize`, and only there.
pub fn threads_for_cpus(cpus: usize) -> (threads: Option<usize>)
    ensures
        threads is Some <==> cpus * 2 <= usize::MAX,
        threads is Some ==> threads->0 == (if cpus == 0 {
            1
        } else {
            cpus * 2
        }),
{
    if cpus <= usize::MAX / 2 {
        Some(thread_count(cpus))
    } else {
        None
    }
}

/// Flags for the database's own warmup.
pub fn builtin_warmup_flags(unix: bool) -> (flags: u32)
    ensures
        flags == (if unix {
            3u32
        } else {
            1u32
        }),
{
    if unix {
        assert(1u32 | 2u32 == 3u32) by (bit_vector);
        BUILTIN_WARMUP_FORCE | BUILTIN_WARMUP_OOM_SAFE
    } else {
        BUILTIN_WARMUP_FORCE
    }
}

/// What the return code of the database's own warmup means: zero is success, minus one that the
/// time limit was reached, which is acceptable, and anything else is an error.
pub fn builtin_warmup_outcome(code: i32) -> (outcome: Result<BuiltinWarmup, i32>)
    ensures
        outcome == (if code == 0 {
            Ok::<BuiltinWarmup, i32>(BuiltinWarmup::Completed)
        } else if code == -1 {
            Ok(BuiltinWarmup::TimedOut)
        } else {
            Err(code)
        }),
{
    if code == 0 {
        Ok(BuiltinWarmup::Completed)
    } else if code == -1 {
        Ok(BuiltinWarmup::TimedOut)
    } else {
        Err(code)
    }
}

/// Size of a table in bytes from its page counts.
pub fn table_size(
    page_size: u32,
    leaf_pages: usize,
    branch_pages: usize,
    overflow_pages: usize,
) -> (bytes: usize)
    requires
        leaf_pages + branch_pages + overflow_pages <= usize::MAX,
        page_size * (leaf_pages + branch_pages + overflow_pages) <= usize::MAX,
    ensures
        bytes == page_size * (leaf_pages + branch_pages + overflow_pages),
{
    let num_pages: usize = leaf_pages + branch_pages + overflow_pages;
    page_size as usize * num_pages
}

/// What is known of the tables after some of them were looked up: a size and a key kind, or
/// `None` where the lookup failed.
pub open spec fn metadata_map(
    tables: Seq<Seq<char>>,
    readings: Seq<Option<(usize, bool)>>,
) -> Map<Seq<char>, TableWarmupMetadata>
    decreases readings.len(),
{
    if readings.len() == 0 {
        Map::empty()
    } else {
        let before = metadata_map(tables, readings.drop_last());
        match readings.last() {
            Some((size_bytes, integer_key)) => before.insert(
                tables[readings.len() - 1],
                TableWarmupMetadata { size_bytes, integer_key },
            ),
            None => before,
        }
    }
}

/// Gathers what the lookups of the tables gave; a table whose lookup failed is left out.
pub fn get_table_metadata(
    tables: &Vec<String>,
    readings: &Vec<Option<(usize, bool)>>,
) -> (metadata: StringHashMap<TableWarmupMetadata>)
    requires
        readings.len() == tables.len(),
    ensures
        metadata@ == metadata_map(names(tables@), readings@),
{
    let mut metadata: StringHashMap<TableWarmupMetadata> = StringHashMap::new();
    let mut i: usize = 0;
    while i < tables.len()
        invariant
            i <= tables.len(),
            readings.len() == tables.len(),
            metadata@ == metadata_map(names(tables@), readings@.take(i as int)),
        decreases tables.len() - i,
    {
        assert(readings@.take(i + 1).drop_last() =~= readings@.take(i as int));
        match readings[i] {
            Some((size_bytes, integer_key)) => {
                metadata.insert(
                    tables[i].clone(),
                    TableWarmupMetadata { size_bytes, integer_key },
                );
            },
            None => {},
        }
        i += 1;
    }
    assert(readings@.take(readings@.len() as int) =~= readings@);
    metadata
}

/// There is nothing known of a table that was not looked up, so that no more tables are known
/// than were looked up; and of a table that was looked up once, what is known is what that lookup
/// gave.
pub proof fn metadata_holds_the_readings(
    tables: Seq<Seq<char>>,
    readings: Seq<Option<(usize, bool)>>,
)
    requires
        readings.len() <= tables.len(),
    ensures
        metadata_map(tables, readings).dom().finite(),
        metadata_map(tables, readings).len() <= readings.len(),
        forall|i: int|
            0 <= i < readings.len() && tables.no_duplicates() ==> {
                let known = metadata_map(tables, readings);
                match #[trigger] readings[i] {
                    Some((size_bytes, integer_key)) => known.contains_key(tables[i])
                        && known[tables[i]] == (TableWarmupMetadata { size_bytes, integer_key }),
                    None => !known.contains_key(tables[i]),
                }
            },
        forall|t: Seq<char>| #[trigger]
            metadata_map(tables, readings).contains_key(t) ==> tables.take(
                readings.len() as int,
            ).contains(t),
    decreases readings.len(),
{
    let known = metadata_map(tables, readings);
    if readings.len() > 0 {
        let shorter = readings.drop_last();
        let n = readings.len() - 1;
        let before = metadata_map(tables, shorter);
        metadata_holds_the_readings(tables, shorter);
        assert(tables.take(n + 1) =~= tables.take(n as int).push(tables[n as int]));
        assert forall|t: Seq<char>| #[trigger] known.contains_key(t) implies tables.take(
            n + 1,
        ).contains(t) by {
            if before.contains_key(t) {
                let k = choose|k: int|
                    0 <= k < tables.take(n as int).len() && tables.take(n as int)[k] == t;
                assert(tables.take(n + 1)[k] == t);
            } else {
                assert(tables.take(n + 1)[n as int] == t);
            }
        }
        if tables.no_duplicates() {
            assert(!before.contains_key(tables[n as int])) by {
                if before.contains_key(tables[n as int]) {
                    let k = choose|k: int|
                        0 <= k < tables.take(n as int).len() && tables.take(n as int)[k]
                            == tables[n as int];
                    assert(tables[k] == tables[n as int]);
                }
            }
            assert forall|i: int| 0 <= i < readings.len() implies {
                match #[trigger] readings[i] {
                    Some((size_bytes, integer_key)) => known.contains_key(tables[i])
                        && known[tables[i]] == (TableWarmupMetadata { size_bytes, integer_key }),
                    None => !known.contains_key(tables[i]),
                }
            } by {
                if i < n {
                    assert(shorter[i] == readings[i]);
                    assert(tables[i] != tables[n as int]);
                }
            }
        }
    }
}

/// The size of a table where it is known, and zero where it is not.
pub open spec fn known_size(
    metadata: Map<Seq<char>, TableWarmupMetadata>,
    table: Seq<char>,
) -> nat {
    if metadata.contains_key(table) {
        metadata[table].size_bytes as nat
    } else {
        0
    }
}

/// The known sizes of the tables taken together.
pub open spec fn known_size_sum(
    metadata: Map<Seq<char>, TableWarmupMetadata>,
    tables: Seq<Seq<char>>,
) -> nat
    decreases tables.len(),
{
    if tables.len() == 0 {
        0
    } else {
        known_size_sum(metadata, tables.drop_last()) + known_size(metadata, tables.last())
    }
}

/// Fewer tables have a smaller size.
proof fn lemma_known_size_prefix(
    metadata: Map<Seq<char>, TableWarmupMetadata>,
    tables: Seq<Seq<char>>,
    k: int,
)
    requires
        0 <= k <= tables.len(),
    ensures
        known_size_sum(metadata, tables.take(k)) <= known_size_sum(metadata, tables),
    decreases tables.len(),
{
    if k < tables.len() {
        lemma_known_size_prefix(metadata, tables.drop_last(), k);
        assert(tables.drop_last().take(k) =~= tables.take(k));
    } else {
        assert(tables.take(k) =~= tables);
    }
}

/// The known sizes of the tables taken together.
pub fn total_known_size(
    metadata: &StringHashMap<TableWarmupMetadata>,
    tables: &Vec<String>,
) -> (total: usize)
    requires
        known_size_sum(metadata@, names(tables@)) <= usize::MAX,
    ensures
        total == known_size_sum(metadata@, names(tables@)),
{
    let mut total: usize = 0;
    let mut i: usize = 0;
    let ghost all = names(tables@);
    while i < tables.len()
        invariant
            i <= tables.len(),
            all == names(tables@),
            known_size_sum(metadata@, all) <= usize::MAX,
            total == known_size_sum(metadata@, all.take(i as int)),
        decreases tables.len() - i,
    {
        proof {
            lemma_known_size_prefix(metadata@, all, i + 1);
            assert(all.take(i + 1).drop_last() =~= all.take(i as int));
            assert(all.take(i + 1).last() == tables@[i as int]@);
        }
        let size: usize = match metadata.get(tables[i].as_str()) {
            Some(meta) => meta.size_bytes,
            None => 0,
        };
        total = total + size;
        i += 1;
    }
    assert(all.take(all.len() as int) =~= all);
    total
}

/// Percentage of the available memory that the tables should fit in where none is given.
pub const DEFAULT_MEMORY_LIMIT_PERCENT: u8 = 80;

/// The percentage of the available memory that the tables should fit in; `None` where it does
/// not matter.
pub fn memory_limit(percent: Option<u8>) -> (limit: Option<u8>)
    ensures
        limit == (match percent {
            None => Some(DEFAULT_MEMORY_LIMIT_PERCENT),
            Some(0) => None,
            Some(percent) => Some(percent),
        }),
{
    match percent {
        None => Some(DEFAULT_MEMORY_LIMIT_PERCENT),
        Some(percent) => {
            if percent > 0 {
                Some(percent)
            } else {
                None
            }
        },
    }
}

/// Whether to warn that the tables do not fit: the limit in bytes is known, and the tables are
/// larger. The warmup goes on either way.
pub fn exceeds_memory_limit(total_size: usize, limit_bytes: Option<usize>) -> (yes: bool)
    ensures
        yes == (limit_bytes is Some && total_size > limit_bytes->0),
{
    match limit_bytes {
        Some(limit) => total_size > limit,
        None => false,
    }
}

/// A warmup that is off is over at once and did nothing, and any other begins with the tables of
/// its mode.
pub proof fn warmup_begins_with_the_tables_of_its_mode(
    mode: WarmupMode,
    catalogue: &Vec<String>,
    start: WarmupStart,
    tables: Vec<String>,
)
    requires
        call_ensures(warmup_database, (mode, catalogue), start),
        call_ensures(get_tables_for_mode, (mode, catalogue), tables),
    ensures
        mode == WarmupMode::Off <==> start is Finished,
        start is Finished ==> {
            &&& start->Finished_0.tables_warmed == 0
            &&& start->Finished_0.total_entries == 0
            &&& start->Finished_0.duration == 0
            &&& start->Finished_0.skipped_tables@.len() == 0
            &&& start->Finished_0.failed_tables@.len() == 0
        },
        start is ReadMetadata ==> {
            let read = start->ReadMetadata_0@;
            &&& read.len() == tables@.len()
            &&& forall|i: int| 0 <= i < read.len() ==> (#[trigger] read[i])@ == tables@[i]@
        },
{
    if let WarmupStart::ReadMetadata(read) = start {
        let a = names(read@);
        let b = names(tables@);
        assert(a.len() == read@.len() && b.len() == tables@.len());
        assert forall|i: int| 0 <= i < read@.len() implies (#[trigger] read@[i])@ == tables@[i]@ by {
            assert(a[i] == read@[i]@);
            assert(b[i] == tables@[i]@);
        }
    }
}

/// Only a warmup of all tables is left to the database. Where that works, all tables count as
/// warmed, without entries and without failures; where it does not, and in the other modes, the
/// tables are read. Several readers read where there are several threads and several tables.
pub proof fn only_all_tables_are_left_to_the_database(
    mode: WarmupMode,
    worked: bool,
    table_count: usize,
    num_threads: usize,
    elapsed: u128,
    first: WarmupStep,
    second: WarmupStep,
    reading: WarmupStep,
)
    requires
        call_ensures(after_metadata, (mode,), first),
        call_ensures(after_builtin, (worked, table_count, elapsed), second),
        call_ensures(choose_reading, (table_count, num_threads), reading),
    ensures
        first == WarmupStep::Builtin <==> mode == WarmupMode::All,
        first == WarmupStep::Read <==> mode != WarmupMode::All,
        second is Finished <==> worked,
        second == WarmupStep::Read <==> !worked,
        second is Finished ==> {
            &&& second->Finished_0.tables_warmed == table_count
            &&& second->Finished_0.total_entries == 0
            &&& second->Finished_0.duration == elapsed
            &&& second->Finished_0.skipped_tables@.len() == 0
            &&& second->Finished_0.failed_tables@.len() == 0
        },
        reading == WarmupStep::Parallel <==> num_threads >= 2 && table_count >= 2,
        reading == WarmupStep::Sequential <==> num_threads < 2 || table_count < 2,
{
}

/// A report that gets its duration stays the same otherwise.
pub proof fn reports_get_their_duration(stats: WarmupStats, elapsed: u128, report: WarmupStats)
    requires
        call_ensures(after_reading, (stats, elapsed), report),
    ensures
        report.duration == elapsed,
        report.tables_warmed == stats.tables_warmed,
        report.total_entries == stats.total_entries,
        report.skipped_tables == stats.skipped_tables,
        report.failed_tables == stats.failed_tables,
{
}

/// There are two threads for each CPU, and one where there is none.
pub proof fn two_threads_for_each_cpu(
    cpus: usize,
    more: usize,
    threads: usize,
    fitting: Option<usize>,
    fitting_more: Option<usize>,
)
    requires
        call_ensures(thread_count, (cpus,), threads),
        call_ensures(threads_for_cpus, (cpus,), fitting),
        call_ensures(threads_for_cpus, (more,), fitting_more),
        cpus > 0,
        more == cpus + 1,
    ensures
        threads == 2 * cpus,
        fitting is Some ==> fitting->0 == 2 * cpus,
        fitting is None <==> 2 * cpus > usize::MAX,
        fitting is Some && fitting_more is Some ==> fitting_more->0 == fitting->0 + 2,
{
}

/// Where there is no CPU there is one thread.
pub proof fn one_thread_at_least(threads: usize, fitting: Option<usize>)
    requires
        call_ensures(thread_count, (0,), threads),
        call_ensures(threads_for_cpus, (0,), fitting),
    ensures
        threads == 1,
        fitting == Some(1usize),
{
}

/// The database's own warmup loads all pages, safely where the system is a Unix; it may take an
/// hour. Zero means that it was done, minus one that the time was up, which is no failure, and
/// every other code is the failure.
pub proof fn builtin_warmup_is_forced_and_may_time_out(
    unix: u32,
    other: u32,
    code: i32,
    outcome: Result<BuiltinWarmup, i32>,
)
    requires
        call_ensures(builtin_warmup_flags, (true,), unix),
        call_ensures(builtin_warmup_flags, (false,), other),
        call_ensures(builtin_warmup_outcome, (code,), outcome),
    ensures
        unix == 3,
        other == 1,
        BUILTIN_WARMUP_FORCE == 1,
        BUILTIN_WARMUP_OOM_SAFE == 2,
        BUILTIN_WARMUP_TIMEOUT == 3600 * 65536,
        code == 0 <==> outcome == Ok::<BuiltinWarmup, i32>(BuiltinWarmup::Completed),
        code == -1 <==> outcome == Ok::<BuiltinWarmup, i32>(BuiltinWarmup::TimedOut),
        code != 0 && code != -1 <==> outcome == Err::<BuiltinWarmup, i32>(code),
{
}

/// A table is as large as all its pages together.
pub proof fn tables_are_as_large_as_their_pages(
    page_size: u32,
    leaf_pages: usize,
    branch_pages: usize,
    overflow_pages: usize,
    bytes: usize,
)
    requires
        call_ensures(table_size, (page_size, leaf_pages, branch_pages, overflow_pages), bytes),
    ensures
        bytes == page_size * leaf_pages + page_size * branch_pages + page_size * overflow_pages,
{
    assert(page_size * (leaf_pages + branch_pages + overflow_pages) == page_size * leaf_pages
        + page_size * branch_pages + page_size * overflow_pages) by (nonlinear_arith);
}

/// What is known of distinct tables is what looking them up gave: the size and the kind of keys of
/// each table that could be looked up, and nothing of the others.
pub proof fn lookups_are_what_is_known(
    tables: &Vec<String>,
    readings: &Vec<Option<(usize, bool)>>,
    metadata: StringHashMap<TableWarmupMetadata>,
)
    requires
        readings@.len() == tables@.len(),
        forall|i: int, j: int|
            0 <= i < j < tables@.len() ==> (#[trigger] tables@[i])@ != (#[trigger] tables@[j])@,
        call_ensures(get_table_metadata, (tables, readings), metadata),
    ensures
        forall|i: int|
            0 <= i < tables@.len() ==> match #[trigger] readings@[i] {
                Some((size, integer)) => {
                    &&& metadata@.contains_key(tables@[i]@)
                    &&& metadata@[tables@[i]@].size_bytes == size
                    &&& metadata@[tables@[i]@].integer_key == integer
                },
                None => !metadata@.contains_key(tables@[i]@),
            },
        forall|name: Seq<char>| #[trigger]
            metadata@.contains_key(name) ==> is_named(tables@, name),
{
    let all = names(tables@);
    assert(all.len() == tables@.len());
    assert(all.no_duplicates()) by {
        assert forall|i: int, j: int| 0 <= i < all.len() && 0 <= j < all.len() && i != j implies
            all[i] != all[j] by {
            assert(all[i] == tables@[i]@ && all[j] == tables@[j]@);
        }
    }
    metadata_holds_the_readings(all, readings@);
    assert forall|i: int| 0 <= i < tables@.len() implies match #[trigger] readings@[i] {
        Some((size, integer)) => {
            &&& metadata@.contains_key(tables@[i]@)
            &&& metadata@[tables@[i]@].size_bytes == size
            &&& metadata@[tables@[i]@].integer_key == integer
        },
        None => !metadata@.contains_key(tables@[i]@),
    } by {
        assert(all[i] == tables@[i]@);
    }
    assert forall|name: Seq<char>| #[trigger] metadata@.contains_key(name) implies is_named(
        tables@,
        name,
    ) by {
        assert(all.take(readings@.len() as int) =~= all);
        assert(all.contains(name));
        lemma_is_named(tables@, name);
    }
}

/// The known sizes add up.
proof fn lemma_known_sizes_fold(
    metadata: Map<Seq<char>, TableWarmupMetadata>,
    tables: Seq<Seq<char>>,
    sizes: Seq<int>,
)
    requires
        sizes.len() == tables.len(),
        forall|i: int|
            0 <= i < tables.len() ==> #[trigger] sizes[i] == known_size(metadata, tables[i]),
    ensures
        known_size_sum(metadata, tables) == sizes.fold_left(0, |a: int, b: int| a + b),
    decreases tables.len(),
{
    if tables.len() > 0 {
        let fewer = sizes.drop_last();
        assert forall|i: int| 0 <= i < fewer.len() implies #[trigger] fewer[i] == known_size(
            metadata,
            tables.drop_last()[i],
        ) by {
            assert(sizes[i] == known_size(metadata, tables[i]));
        }
        lemma_known_sizes_fold(metadata, tables.drop_last(), fewer);
        assert(sizes[tables.len() - 1] == known_size(metadata, tables.last()));
    }
}

/// The known size of all tables is the sum of the known sizes, where a table of unknown size
/// counts nothing.
pub proof fn known_size_is_the_sum_of_the_known_sizes(
    metadata: &StringHashMap<TableWarmupMetadata>,
    tables: &Vec<String>,
    total: usize,
    sizes: Seq<int>,
)
    requires
        call_ensures(total_known_size, (metadata, tables), total),
        sizes.len() == tables@.len(),
        forall|i: int|
            0 <= i < tables@.len() ==> #[trigger] sizes[i] == (if metadata@.contains_key(
                tables@[i]@,
            ) {
                metadata@[tables@[i]@].size_bytes as int
            } else {
                0
            }),
    ensures
        total == sizes.fold_left(0, |a: int, b: int| a + b),
{
    let all = names(tables@);
    assert forall|i: int| 0 <= i < all.len() implies #[trigger] sizes[i] == known_size(
        metadata@,
        all[i],
    ) by {
        assert(all[i] == tables@[i]@);
    }
    lemma_known_sizes_fold(metadata@, all, sizes);
}

/// The tables should fit in eighty percent of the memory unless another percentage is given, and
/// zero percent is no limit. A warning is due exactly where they are larger than the limit.
pub proof fn memory_limit_is_eighty_percent_unless_given(
    percent: u8,
    usual: Option<u8>,
    given: Option<u8>,
    total_size: usize,
    limit: usize,
    exceeds: bool,
    unlimited: bool,
)
    requires
        call_ensures(memory_limit, (None,), usual),
        call_ensures(memory_limit, (Some(percent),), given),
        call_ensures(exceeds_memory_limit, (total_size, Some(limit)), exceeds),
        call_ensures(exceeds_memory_limit, (total_size, None), unlimited),
    ensures
        usual == Some(80u8),
        percent == 0 ==> given is None,
        percent > 0 ==> given == Some(percent),
        exceeds <==> total_size > limit,
        !unlimited,
{
}

/// The threads of this machine are those of some number of CPUs, at least one.
pub proof fn threads_are_those_of_the_cpus(threads: Option<usize>)
    requires
        call_ensures(warmup_threads, (), threads),
    ensures
        threads is Some ==> exists|cpus: usize| cpus >= 1 && #[trigger] (cpus * 2) == threads->0,
{
    if let Some(count) = threads {
        let cpus = (count / 2) as usize;
        assert(cpus * 2 == count);
    }
}

} // verus!
