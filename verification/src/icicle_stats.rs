//! How often the GPU was used, summed up once a minute.

use vstd::arithmetic::div_mod::lemma_add_mod_noop_right;
use vstd::prelude::*;

verus! {

/// Shortest time between two summaries, in nanoseconds.
pub const ICICLE_STATS_LOG_INTERVAL_NS: u64 = 60_000_000_000;

/// Shortest time between two summaries, in milliseconds.
pub const ICICLE_STATS_LOG_INTERVAL_MS: u64 = 60_000;

/// What the GPU was used for.
#[derive(Debug, Clone, Copy, PartialEq, Eq, Structural)]
pub enum IcicleCallKind {
    /// Hashing.
    Hash,
    /// An operation of the BN254 curve.
    Bn254,
}

/// Numbers of calls and the time that they took, in nanoseconds.
#[derive(Debug, Clone, Copy, PartialEq, Eq, Structural)]
pub struct IcicleSnapshot {
    /// All calls.
    pub total_calls: u64,
    /// Time of all calls.
    pub total_ns: u64,
    /// Calls that hash.
    pub hash_calls: u64,
    /// Time of the calls that hash.
    pub hash_ns: u64,
    /// Calls of curve operations.
    pub bn254_calls: u64,
    /// Time of the calls of curve operations.
    pub bn254_ns: u64,
}

/// The numbers since the start, and those of the last summary.
#[derive(Debug)]
pub struct IcicleStats {
    /// When the last summary was made, in nanoseconds since the start.
    pub last_log_ns: u64,
    /// The numbers since the start. They begin at zero again when they overflow.
    pub totals: IcicleSnapshot,
    /// The numbers when the last summary was made.
    pub snapshot: IcicleSnapshot,
}

/// A summary of the calls since the one before.
#[derive(Debug, Clone, Copy, PartialEq, Eq, Structural)]
pub struct IcicleSummary {
    /// Shortest time between two summaries, in milliseconds.
    pub interval_ms: u64,
    /// All calls.
    pub total_calls: u64,
    /// Time of all calls, in milliseconds.
    pub total_ms: u64,
    /// Calls that hash.
    pub hash_calls: u64,
    /// Time of the calls that hash, in milliseconds.
    pub hash_ms: u64,
    /// Calls of curve operations.
    pub bn254_calls: u64,
    /// Time of the calls of curve operations, in milliseconds.
    pub bn254_ms: u64,
}

/// The sum, beginning at zero again when it overflows.
pub open spec fn wrapped_sum(a: int, b: int) -> int {
    (a + b) % 0x1_0000_0000_0000_0000
}

/// The number, or the largest that fits.
pub open spec fn clamped(ns: u128) -> u64 {
    if ns > u64::MAX {
        u64::MAX
    } else {
        ns as u64
    }
}

/// The difference, or zero.
pub open spec fn difference(a: u64, b: u64) -> int {
    if a >= b {
        a - b
    } else {
        0
    }
}

/// No calls.
pub open spec fn no_calls() -> IcicleSnapshot {
    IcicleSnapshot {
        total_calls: 0,
        total_ns: 0,
        hash_calls: 0,
        hash_ns: 0,
        bn254_calls: 0,
        bn254_ns: 0,
    }
}

/// Every call is either one that hashes or one of a curve operation.
pub open spec fn balanced(numbers: IcicleSnapshot) -> bool {
    &&& numbers.total_calls == wrapped_sum(numbers.hash_calls as int, numbers.bn254_calls as int)
    &&& numbers.total_ns == wrapped_sum(numbers.hash_ns as int, numbers.bn254_ns as int)
}

/// The numbers with one more call.
pub open spec fn is_counted(
    before: IcicleSnapshot,
    kind: IcicleCallKind,
    ns: u64,
    after: IcicleSnapshot,
) -> bool {
    &&& after.total_calls == wrapped_sum(before.total_calls as int, 1)
    &&& after.total_ns == wrapped_sum(before.total_ns as int, ns as int)
    &&& match kind {
        IcicleCallKind::Hash => {
            &&& after.hash_calls == wrapped_sum(before.hash_calls as int, 1)
            &&& after.hash_ns == wrapped_sum(before.hash_ns as int, ns as int)
            &&& after.bn254_calls == before.bn254_calls
            &&& after.bn254_ns == before.bn254_ns
        },
        IcicleCallKind::Bn254 => {
            &&& after.bn254_calls == wrapped_sum(before.bn254_calls as int, 1)
            &&& after.bn254_ns == wrapped_sum(before.bn254_ns as int, ns as int)
            &&& after.hash_calls == before.hash_calls
            &&& after.hash_ns == before.hash_ns
        },
    }
}

/// The summary of what was added between two sets of numbers.
pub open spec fn sums_up(
    summary: IcicleSummary,
    before: IcicleSnapshot,
    after: IcicleSnapshot,
) -> bool {
    &&& summary.interval_ms == ICICLE_STATS_LOG_INTERVAL_MS
    &&& summary.total_calls == difference(after.total_calls, before.total_calls)
    &&& summary.total_ms == difference(after.total_ns, before.total_ns) / 1_000_000
    &&& summary.hash_calls == difference(after.hash_calls, before.hash_calls)
    &&& summary.hash_ms == difference(after.hash_ns, before.hash_ns) / 1_000_000
    &&& summary.bn254_calls == difference(after.bn254_calls, before.bn254_calls)
    &&& summary.bn254_ms == difference(after.bn254_ns, before.bn254_ns) / 1_000_000
}

/// A minute has gone by since the last summary.
pub open spec fn is_due(stats: IcicleStats, now_ns: u128) -> bool {
    difference(clamped(now_ns), stats.last_log_ns) >= ICICLE_STATS_LOG_INTERVAL_NS
}

impl IcicleStats {
    /// Before the first call.
    pub fn new() -> (stats: Self)
        ensures
            stats.last_log_ns == 0,
            stats.totals == no_calls(),
            stats.snapshot == no_calls(),
            balanced(stats.totals),
    {
        let none: IcicleSnapshot = IcicleSnapshot {
            total_calls: 0,
            total_ns: 0,
            hash_calls: 0,
            hash_ns: 0,
            bn254_calls: 0,
            bn254_ns: 0,
        };
        IcicleStats { last_log_ns: 0, totals: none, snapshot: none }
    }
}

/// Nanoseconds that fit into 64 bits.
fn clamp_ns(ns: u128) -> (clamped_ns: u64)
    ensures
        clamped_ns == clamped(ns),
{
    if ns > u64::MAX as u128 {
        u64::MAX
    } else {
        ns as u64
    }
}

/// The sum, beginning at zero again when it overflows.
fn wrapping_sum(a: u64, b: u64) -> (sum: u64)
    ensures
        sum == wrapped_sum(a as int, b as int),
{
    if a <= u64::MAX - b {
        a + b
    } else {
        a - (u64::MAX - b) - 1
    }
}

/// The numbers with one more call.
fn counted(before: &IcicleSnapshot, kind: IcicleCallKind, ns: u64) -> (after: IcicleSnapshot)
    ensures
        is_counted(*before, kind, ns, after),
{
    let mut after: IcicleSnapshot = *before;
    after.total_calls = wrapping_sum(before.total_calls, 1);
    after.total_ns = wrapping_sum(before.total_ns, ns);
    match kind {
        IcicleCallKind::Hash => {
            after.hash_calls = wrapping_sum(before.hash_calls, 1);
            after.hash_ns = wrapping_sum(before.hash_ns, ns);
        },
        IcicleCallKind::Bn254 => {
            after.bn254_calls = wrapping_sum(before.bn254_calls, 1);
            after.bn254_ns = wrapping_sum(before.bn254_ns, ns);
        },
    }
    after
}

/// The difference, or zero.
fn saturating_difference(a: u64, b: u64) -> (rest: u64)
    ensures
        rest == difference(a, b),
{
    if a >= b {
        a - b
    } else {
        0
    }
}

/// Counts a call that took `elapsed_ns` and ended `now_ns` after the start. Gives a summary where
/// one is due and there was a call.
pub fn record_icicle_call(
    stats: &mut IcicleStats,
    kind: IcicleCallKind,
    elapsed_ns: u128,
    now_ns: u128,
) -> (summary: Option<IcicleSummary>)
    ensures
        is_counted(old(stats).totals, kind, clamped(elapsed_ns), final(stats).totals),
        if is_due(*old(stats), now_ns) {
            &&& final(stats).last_log_ns == clamped(now_ns)
            &&& final(stats).snapshot == final(stats).totals
            &&& match summary {
                Some(summary) => summary.total_calls > 0 && sums_up(
                    summary,
                    old(stats).snapshot,
                    final(stats).totals,
                ),
                None => difference(
                    final(stats).totals.total_calls,
                    old(stats).snapshot.total_calls,
                ) == 0,
            }
        } else {
            &&& final(stats).last_log_ns == old(stats).last_log_ns
            &&& final(stats).snapshot == old(stats).snapshot
            &&& summary is None
        },
{
    let totals: IcicleSnapshot = counted(&stats.totals, kind, clamp_ns(elapsed_ns));
    stats.totals = totals;
    let now: u64 = clamp_ns(now_ns);
    if saturating_difference(now, stats.last_log_ns) < ICICLE_STATS_LOG_INTERVAL_NS {
        return None;
    }
    stats.last_log_ns = now;
    let last: IcicleSnapshot = stats.snapshot;
    stats.snapshot = totals;
    let total_calls: u64 = saturating_difference(totals.total_calls, last.total_calls);
    if total_calls == 0 {
        return None;
    }
    Some(
        IcicleSummary {
            interval_ms: ICICLE_STATS_LOG_INTERVAL_MS,
            total_calls,
            total_ms: saturating_difference(totals.total_ns, last.total_ns) / 1_000_000,
            hash_calls: saturating_difference(totals.hash_calls, last.hash_calls),
            hash_ms: saturating_difference(totals.hash_ns, last.hash_ns) / 1_000_000,
            bn254_calls: saturating_difference(totals.bn254_calls, last.bn254_calls),
            bn254_ms: saturating_difference(totals.bn254_ns, last.bn254_ns) / 1_000_000,
        },
    )
}

/// It does not matter in which order numbers are added up.
proof fn lemma_wrapped_sum(a: int, b: int, c: int)
    ensures
        wrapped_sum(wrapped_sum(a, b), c) == wrapped_sum(wrapped_sum(a, c), b),
        wrapped_sum(wrapped_sum(a, b), c) == wrapped_sum(a, wrapped_sum(b, c)),
{
    let m: int = 0x1_0000_0000_0000_0000;
    lemma_add_mod_noop_right(c, a + b, m);
    lemma_add_mod_noop_right(b, a + c, m);
    lemma_add_mod_noop_right(a, b + c, m);
    assert(c + (a + b) == b + (a + c));
    assert(c + (a + b) == a + (b + c));
    assert(c + (a + b) % m == (a + b) % m + c);
    assert(b + (a + c) % m == (a + c) % m + b);
}

/// However many calls are counted, each is either one that hashes or one of a curve operation.
pub proof fn counting_keeps_balance(
    before: IcicleSnapshot,
    kind: IcicleCallKind,
    ns: u64,
    after: IcicleSnapshot,
)
    requires
        balanced(before),
        is_counted(before, kind, ns, after),
    ensures
        balanced(after),
{
    let calls = (before.hash_calls as int, before.bn254_calls as int);
    let times = (before.hash_ns as int, before.bn254_ns as int);
    lemma_wrapped_sum(calls.0, calls.1, 1);
    lemma_wrapped_sum(times.0, times.1, ns as int);
}

/// The calls of a summary are those that hash and those of curve operations, as long as no number
/// overflowed.
pub proof fn summary_adds_up(
    summary: IcicleSummary,
    before: IcicleSnapshot,
    after: IcicleSnapshot,
)
    requires
        sums_up(summary, before, after),
        balanced(before),
        balanced(after),
        before.hash_calls + before.bn254_calls <= u64::MAX,
        after.hash_calls + after.bn254_calls <= u64::MAX,
        before.hash_calls <= after.hash_calls,
        before.bn254_calls <= after.bn254_calls,
    ensures
        summary.total_calls == summary.hash_calls + summary.bn254_calls,
{
}

/// A recorded call is one call more and its time is added, to all calls and to those of its own
/// kind, and the numbers of the other kind stay. A time that does not fit counts as the largest
/// that does, and a number that overflows goes on from zero.
pub proof fn calls_count_for_their_kind(
    stats: &mut IcicleStats,
    kind: IcicleCallKind,
    elapsed_ns: u128,
    now_ns: u128,
    summary: Option<IcicleSummary>,
)
    requires
        call_ensures(record_icicle_call, (stats, kind, elapsed_ns, now_ns), summary),
    ensures
        ({
            let before = old(stats).totals;
            let after = final(stats).totals;
            let limit = 18446744073709551616int;
            let ns = if elapsed_ns < limit {
                elapsed_ns as int
            } else {
                limit - 1
            };
            &&& after.total_calls == (before.total_calls + 1) % limit
            &&& after.total_ns == (before.total_ns + ns) % limit
            &&& kind is Hash ==> {
                &&& after.hash_calls == (before.hash_calls + 1) % limit
                &&& after.hash_ns == (before.hash_ns + ns) % limit
                &&& after.bn254_calls == before.bn254_calls
                &&& after.bn254_ns == before.bn254_ns
            }
            &&& kind is Bn254 ==> {
                &&& after.bn254_calls == (before.bn254_calls + 1) % limit
                &&& after.bn254_ns == (before.bn254_ns + ns) % limit
                &&& after.hash_calls == before.hash_calls
                &&& after.hash_ns == before.hash_ns
            }
        }),
{
}

/// A time, or the largest that fits into 64 bits.
pub open spec fn seen_time(ns: u128) -> int {
    if ns < 18446744073709551616int {
        ns as int
    } else {
        18446744073709551615
    }
}

/// There is at most one summary a minute: less than sixty seconds after the last one there is none
/// and the last one stays the last, and from sixty seconds on there is one, of the calls since,
/// unless there were none. Its times are in whole milliseconds.
pub proof fn summaries_come_once_a_minute(
    stats: &mut IcicleStats,
    kind: IcicleCallKind,
    elapsed_ns: u128,
    now_ns: u128,
    summary: Option<IcicleSummary>,
)
    requires
        call_ensures(record_icicle_call, (stats, kind, elapsed_ns, now_ns), summary),
    ensures
        seen_time(now_ns) < old(stats).last_log_ns + 60 * 1_000_000_000 ==> {
            &&& summary is None
            &&& final(stats).last_log_ns == old(stats).last_log_ns
            &&& final(stats).snapshot == old(stats).snapshot
        },
        seen_time(now_ns) >= old(stats).last_log_ns + 60 * 1_000_000_000 ==> {
            let before = old(stats).snapshot;
            let after = final(stats).totals;
            &&& final(stats).last_log_ns == seen_time(now_ns)
            &&& final(stats).snapshot == after
            &&& summary is Some <==> after.total_calls > before.total_calls
            &&& summary is Some ==> {
                let said = summary->0;
                &&& said.interval_ms == 60 * 1000
                &&& said.total_calls == after.total_calls - before.total_calls
                &&& after.hash_calls >= before.hash_calls ==> said.hash_calls == after.hash_calls
                    - before.hash_calls
                &&& after.bn254_calls >= before.bn254_calls ==> said.bn254_calls
                    == after.bn254_calls - before.bn254_calls
                &&& after.total_ns >= before.total_ns ==> said.total_ms * 1_000_000
                    <= after.total_ns - before.total_ns < (said.total_ms + 1) * 1_000_000
                &&& after.hash_ns >= before.hash_ns ==> said.hash_ms * 1_000_000 <= after.hash_ns
                    - before.hash_ns < (said.hash_ms + 1) * 1_000_000
                &&& after.bn254_ns >= before.bn254_ns ==> said.bn254_ms * 1_000_000
                    <= after.bn254_ns - before.bn254_ns < (said.bn254_ms + 1) * 1_000_000
                &&& after.hash_calls < before.hash_calls ==> said.hash_calls == 0
                &&& after.bn254_calls < before.bn254_calls ==> said.bn254_calls == 0
                &&& after.total_ns < before.total_ns ==> said.total_ms == 0
                &&& after.hash_ns < before.hash_ns ==> said.hash_ms == 0
                &&& after.bn254_ns < before.bn254_ns ==> said.bn254_ms == 0
            }
        },
{
}

/// Counting starts at zero.
pub proof fn counting_starts_at_zero(stats: IcicleStats)
    requires
        call_ensures(IcicleStats::new, (), stats),
    ensures
        stats.last_log_ns == 0,
        stats.totals.total_calls == 0 && stats.totals.total_ns == 0,
        stats.totals.hash_calls == 0 && stats.totals.hash_ns == 0,
        stats.totals.bn254_calls == 0 && stats.totals.bn254_ns == 0,
        stats.snapshot == stats.totals,
{
}

} // verus!
