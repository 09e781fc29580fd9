//! Reading one key range of one table.

use crate::bytes::ByteOrder;
use crate::warmup::key_range::KeyRange;
use crate::warmup::key_range::KeySpace;
use crate::warmup::key_range::key_position;
use crate::warmup::key_range::segments_partition_keys;
use vstd::prelude::*;

verus! {

/// Number of entries after which a reader lets other threads run.
pub const BATCH_SIZE: usize = 200_000;

/// What a reader does after it came to a key.
#[derive(Debug, Clone, Copy, PartialEq, Eq, Structural)]
pub enum ScanStep {
    /// The range is read: do not count the key, and stop.
    Stop,
    /// Go on to the next key.
    Next,
    /// Let other threads run, then go on to the next key.
    YieldThenNext,
}

/// A read of a key range under way.
#[derive(Debug, Clone, Copy)]
pub struct TableScan {
    /// The keys to read.
    pub range: KeyRange,
    /// The order of the bytes in an integer key.
    pub order: ByteOrder,
    /// Entries read so far.
    pub count: usize,
}

/// Number of keys, from the first on, that come before the first key at which the read stops.
pub open spec fn entries_before_stop(range: KeyRange, order: ByteOrder, keys: Seq<Seq<u8>>) -> nat
    decreases keys.len(),
{
    if keys.len() == 0 || range.stops_at(order, keys[0]) {
        0
    } else {
        1 + entries_before_stop(range, order, keys.drop_first())
    }
}

/// Number of keys that the range covers.
pub open spec fn covered_keys(range: KeyRange, order: ByteOrder, keys: Seq<Seq<u8>>) -> nat
    decreases keys.len(),
{
    if keys.len() == 0 {
        0
    } else {
        covered_keys(range, order, keys.drop_first()) + if range.covers(order, keys[0]) {
            1nat
        } else {
            0nat
        }
    }
}

impl TableScan {
    /// A read of `range` that has not begun.
    pub fn new(range: KeyRange, order: ByteOrder) -> (scan: Self)
        ensures
            scan == (TableScan { range, order, count: 0 }),
    {
        TableScan { range, order, count: 0 }
    }

    /// The reader came to `key`.
    pub fn visit(&mut self, key: &[u8]) -> (step: ScanStep)
        requires
            old(self).count < usize::MAX,
        ensures
            final(self).range == old(self).range,
            final(self).order == old(self).order,
            step == ScanStep::Stop <==> old(self).range.stops_at(old(self).order, key@),
            final(self).count == old(self).count + (if step == ScanStep::Stop {
                0int
            } else {
                1int
            }),
            step == ScanStep::YieldThenNext <==> step != ScanStep::Stop && (old(self).count + 1)
                % (BATCH_SIZE as int) == 0,
    {
        if self.range.should_stop(self.order, key) {
            return ScanStep::Stop;
        }
        self.count = self.count + 1;
        if self.count % BATCH_SIZE == 0 {
            ScanStep::YieldThenNext
        } else {
            ScanStep::Next
        }
    }
}

/// Past a key at which the read stops, no key is covered.
proof fn lemma_none_covered(range: KeyRange, order: ByteOrder, keys: Seq<Seq<u8>>)
    requires
        forall|i: int| 0 <= i < keys.len() ==> range.stops_at(order, #[trigger] keys[i]),
    ensures
        covered_keys(range, order, keys) == 0,
    decreases keys.len(),
{
    if keys.len() > 0 {
        assert(range.stops_at(order, keys[0]));
        assert forall|i: int| 0 <= i < keys.drop_first().len() implies range.stops_at(
            order,
            #[trigger] keys.drop_first()[i],
        ) by {
            assert(range.stops_at(order, keys[i + 1]));
        }
        lemma_none_covered(range, order, keys.drop_first());
    }
}

/// A read that goes through the keys in order, from the range's start key on, and stops at the
/// first key that it is told to stop at, has counted exactly the keys that the range covers.
pub proof fn scan_counts_covered_keys(range: KeyRange, order: ByteOrder, keys: Seq<Seq<u8>>)
    requires
        forall|i: int| 0 <= i < keys.len() ==> range.starts_before(order, #[trigger] keys[i]),
        forall|i: int, j: int|
            0 <= i < j < keys.len() ==> key_position(range.key_space, order, #[trigger] keys[i])
                <= key_position(range.key_space, order, #[trigger] keys[j]),
    ensures
        entries_before_stop(range, order, keys) == covered_keys(range, order, keys),
    decreases keys.len(),
{
    if keys.len() > 0 {
        let rest = keys.drop_first();
        assert(range.starts_before(order, keys[0]));
        if range.stops_at(order, keys[0]) {
            assert forall|i: int| 0 <= i < keys.len() implies range.stops_at(
                order,
                #[trigger] keys[i],
            ) by {
                if i > 0 {
                    assert(key_position(range.key_space, order, keys[0]) <= key_position(
                        range.key_space,
                        order,
                        keys[i],
                    ));
                }
            }
            lemma_none_covered(range, order, keys);
        } else {
            assert forall|i: int| 0 <= i < rest.len() implies range.starts_before(
                order,
                #[trigger] rest[i],
            ) by {
                assert(range.starts_before(order, keys[i + 1]));
            }
            assert forall|i: int, j: int| 0 <= i < j < rest.len() implies key_position(
                range.key_space,
                order,
                #[trigger] rest[i],
            ) <= key_position(range.key_space, order, #[trigger] rest[j]) by {
                assert(key_position(range.key_space, order, keys[i + 1]) <= key_position(
                    range.key_space,
                    order,
                    keys[j + 1],
                ));
            }
            scan_counts_covered_keys(range, order, rest);
        }
    }
}

/// The keys that the ranges cover, taken together.
pub open spec fn covered_in_all(ranges: Seq<KeyRange>, order: ByteOrder, keys: Seq<Seq<u8>>) -> nat
    decreases ranges.len(),
{
    if ranges.len() == 0 {
        0
    } else {
        covered_in_all(ranges.drop_last(), order, keys) + covered_keys(
            ranges.last(),
            order,
            keys,
        )
    }
}

/// How many of the ranges cover the key.
pub open spec fn covering_ranges(ranges: Seq<KeyRange>, order: ByteOrder, key: Seq<u8>) -> nat
    decreases ranges.len(),
{
    if ranges.len() == 0 {
        0
    } else {
        covering_ranges(ranges.drop_last(), order, key) + if ranges.last().covers(order, key) {
            1nat
        } else {
            0nat
        }
    }
}

/// The keys that are covered are those of the rest and the first, as often as it is covered.
proof fn lemma_covered_in_all_step(ranges: Seq<KeyRange>, order: ByteOrder, keys: Seq<Seq<u8>>)
    requires
        keys.len() > 0,
    ensures
        covered_in_all(ranges, order, keys) == covered_in_all(ranges, order, keys.drop_first())
            + covering_ranges(ranges, order, keys[0]),
    decreases ranges.len(),
{
    if ranges.len() > 0 {
        lemma_covered_in_all_step(ranges.drop_last(), order, keys);
    }
}

/// No keys are covered by no keys.
proof fn lemma_covered_in_all_empty(ranges: Seq<KeyRange>, order: ByteOrder)
    ensures
        covered_in_all(ranges, order, Seq::empty()) == 0,
    decreases ranges.len(),
{
    if ranges.len() > 0 {
        lemma_covered_in_all_empty(ranges.drop_last(), order);
    }
}

/// A key that range `i` covers and no other is covered once.
proof fn lemma_covered_once(ranges: Seq<KeyRange>, order: ByteOrder, key: Seq<u8>, i: int)
    requires
        0 <= i < ranges.len() ==> ranges[i].covers(order, key),
        forall|j: int| 0 <= j < ranges.len() && j != i ==> !(#[trigger] ranges[j]).covers(order, key),
    ensures
        covering_ranges(ranges, order, key) == (if 0 <= i < ranges.len() {
            1nat
        } else {
            0
        }),
    decreases ranges.len(),
{
    if ranges.len() > 0 {
        let shorter = ranges.drop_last();
        assert forall|j: int| 0 <= j < shorter.len() && j != i implies !(
        #[trigger] shorter[j]).covers(order, key) by {
            assert(!ranges[j].covers(order, key));
        }
        lemma_covered_once(shorter, order, key, i);
        let last = ranges.len() - 1;
        assert(ranges[last].covers(order, key) == (i == last));
    }
}

/// However many segments a table is split into, together they cover each of its keys exactly
/// once: reading the segments counts as many entries as reading the whole table.
pub proof fn segments_read_every_key_once(
    key_space: KeySpace,
    order: ByteOrder,
    ranges: Seq<KeyRange>,
    keys: Seq<Seq<u8>>,
)
    requires
        ranges.len() > 0,
        forall|i: int|
            0 <= i < ranges.len() ==> (#[trigger] ranges[i]).is_segment(
                key_space,
                i,
                ranges.len() as int,
            ),
    ensures
        covered_in_all(ranges, order, keys) == keys.len(),
    decreases keys.len(),
{
    if keys.len() == 0 {
        lemma_covered_in_all_empty(ranges, order);
        assert(keys =~= Seq::empty());
    } else {
        segments_read_every_key_once(key_space, order, ranges, keys.drop_first());
        lemma_covered_in_all_step(ranges, order, keys);
        segments_partition_keys(key_space, order, ranges, keys[0]);
        let i = choose|i: int|
            0 <= i < ranges.len() && (#[trigger] ranges[i]).covers(order, keys[0]) && forall|j: int|
                0 <= j < ranges.len() && j != i ==> !(#[trigger] ranges[j]).covers(order, keys[0]);
        lemma_covered_once(ranges, order, keys[0], i);
    }
}

/// A reader counts every key that it comes to until the one that it stops at, which it does not
/// count, and lets others run after each two hundred thousand keys.
pub proof fn readers_count_until_they_stop(
    range: KeyRange,
    order: ByteOrder,
    fresh: TableScan,
    scan: &mut TableScan,
    key: &[u8],
    step: ScanStep,
    stop: bool,
)
    requires
        call_ensures(TableScan::new, (range, order), fresh),
        call_ensures(TableScan::visit, (scan, key), step),
        call_ensures(KeyRange::should_stop, (&old(scan).range, old(scan).order, key), stop),
    ensures
        fresh.count == 0,
        fresh.range == range,
        fresh.order == order,
        final(scan).range == old(scan).range,
        final(scan).order == old(scan).order,
        stop ==> step == ScanStep::Stop && final(scan).count == old(scan).count,
        !stop ==> final(scan).count == old(scan).count + 1,
        !stop && final(scan).count as int % 200000 == 0 ==> step == ScanStep::YieldThenNext,
        !stop && final(scan).count as int % 200000 != 0 ==> step == ScanStep::Next,
{
}

/// A read that is told to stop at a key counts the keys before it, and all of them where it is
/// never told to stop.
pub proof fn reads_count_the_keys_before_the_stop(
    range: KeyRange,
    order: ByteOrder,
    keys: Seq<Seq<u8>>,
)
    ensures
        entries_before_stop(range, order, keys) <= keys.len(),
        forall|i: int|
            0 <= i < entries_before_stop(range, order, keys) ==> !range.stops_at(
                order,
                #[trigger] keys[i],
            ),
        entries_before_stop(range, order, keys) < keys.len() ==> range.stops_at(
            order,
            keys[entries_before_stop(range, order, keys) as int],
        ),
        covered_keys(range, order, keys) == keys.filter(
            |key: Seq<u8>| range.covers(order, key),
        ).len(),
    decreases keys.len(),
{
    let covered = |key: Seq<u8>| range.covers(order, key);
    reveal(Seq::filter);
    if keys.len() > 0 {
        let rest = keys.drop_first();
        reads_count_the_keys_before_the_stop(range, order, rest);
        assert forall|i: int| 0 <= i < entries_before_stop(range, order, keys) implies
            !range.stops_at(order, #[trigger] keys[i]) by {
            if i > 0 {
                assert(keys[i] == rest[i - 1]);
            }
        }
        assert(keys =~= seq![keys[0]] + rest);
        Seq::filter_distributes_over_add(seq![keys[0]], rest, covered);
        assert(seq![keys[0]].drop_last() =~= Seq::empty());
        assert(seq![keys[0]].filter(covered).len() == (if range.covers(order, keys[0]) {
            1int
        } else {
            0
        })) by {
            assert(seq![keys[0]].last() == keys[0]);
            assert(seq![keys[0]].drop_last().filter(covered).len() == 0);
        }
    }
}

} // verus!
