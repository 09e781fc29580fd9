//! The key ranges that a table is read in.
//!
//! A table is split into segments, each a half-open range of its key space. Keys are either
//! byte strings, split by their first byte, or integers, split by their value.

use crate::bytes::ByteOrder;
use crate::bytes::be_nat;
use crate::bytes::bytes_of_u64;
use crate::bytes::digits_of_nat;
use crate::bytes::le_nat;
use crate::bytes::lemma_digits_round_trip;
use crate::bytes::lemma_le_nat_bound;
use crate::bytes::lemma_pow256_8;
use crate::bytes::nat_of_bytes;
use crate::bytes::right_pad;
use crate::bytes::right_padded;
use crate::bytes::u64_of_bytes;
use vstd::arithmetic::div_mod::lemma_div_is_ordered;
use vstd::arithmetic::div_mod::lemma_div_multiples_vanish;
use vstd::prelude::*;
use vstd::slice::slice_to_vec;

verus! {

/// Number of values of the first byte of a key.
pub const BYTE_SPACE: usize = 256;

/// How the keys of a table are ordered.
#[derive(Debug, Clone, Copy, PartialEq, Eq, Structural)]
pub enum KeySpace {
    /// Byte strings in lexicographic order.
    Bytes,
    /// Integers in numeric order.
    Integer,
}

/// One end of a key range.
#[derive(Debug, Clone, Copy, PartialEq, Eq, Structural)]
pub enum KeyBoundary {
    /// The value of the first byte of a key.
    Byte(u8),
    /// The value of an integer key.
    Integer(u64),
}

/// A half-open range of keys; a missing end is unbounded.
#[derive(Debug, Clone, Copy)]
pub struct KeyRange {
    /// How the keys are ordered.
    pub key_space: KeySpace,
    /// The first key of the range.
    pub start: Option<KeyBoundary>,
    /// The first key after the range.
    pub end: Option<KeyBoundary>,
}

/// Where segment `index` of `segments` begins in a space of `space` values.
pub open spec fn segment_start(index: int, segments: int, space: int) -> int {
    (index * space) / segments
}

/// Number of values of an integer key.
pub open spec fn integer_space() -> int {
    0x1_0000_0000_0000_0000
}

/// The lower end that begins at `at`: unbounded at zero.
pub open spec fn lower_bound(at: int, space: int) -> Option<int> {
    if at == 0 {
        None
    } else {
        Some(at % space)
    }
}

/// The upper end that stops at `at`: unbounded where the space ends.
pub open spec fn upper_bound(at: int, space: int) -> Option<int> {
    if at >= space {
        None
    } else {
        Some(at)
    }
}

/// The number in a boundary, if there is one.
pub open spec fn boundary_value(boundary: Option<KeyBoundary>) -> Option<int> {
    match boundary {
        Some(KeyBoundary::Byte(b)) => Some(b as int),
        Some(KeyBoundary::Integer(i)) => Some(i as int),
        None => None,
    }
}

/// Number of values that a segment boundary can take in a key space.
pub open spec fn space_size(key_space: KeySpace) -> int {
    match key_space {
        KeySpace::Bytes => BYTE_SPACE as int,
        KeySpace::Integer => integer_space(),
    }
}

/// The boundaries of a range belong to its key space.
pub open spec fn boundary_matches(key_space: KeySpace, boundary: Option<KeyBoundary>) -> bool {
    match boundary {
        Some(KeyBoundary::Byte(b)) => key_space == KeySpace::Bytes,
        Some(KeyBoundary::Integer(i)) => key_space == KeySpace::Integer,
        None => true,
    }
}

/// Segment `index` of `segments` of a key space.
pub open spec fn segment_range(key_space: KeySpace, index: int, segments: int) -> KeyRange {
    let space = space_size(key_space);
    let low = lower_bound(segment_start(index, segments, space), space);
    let high = upper_bound(segment_start(index + 1, segments, space), space);
    KeyRange {
        key_space,
        start: boundary_at(key_space, low),
        end: boundary_at(key_space, high),
    }
}

/// A number as a boundary of a key space.
pub open spec fn boundary_at(key_space: KeySpace, value: Option<int>) -> Option<KeyBoundary> {
    match value {
        Some(v) => Some(
            match key_space {
                KeySpace::Bytes => KeyBoundary::Byte(v as u8),
                KeySpace::Integer => KeyBoundary::Integer(v as u64),
            },
        ),
        None => None,
    }
}

/// The place of a key in its key space: the first byte (zero for the empty key) or the integer
/// that its first eight bytes stand for.
pub open spec fn key_position(key_space: KeySpace, order: ByteOrder, key: Seq<u8>) -> int {
    match key_space {
        KeySpace::Bytes => if key.len() == 0 {
            0
        } else {
            key[0] as int
        },
        KeySpace::Integer => nat_of_bytes(order, right_padded(key, 8)) as int,
    }
}

impl KeyRange {
    /// Both boundaries belong to the key space.
    pub open spec fn well_formed(self) -> bool {
        &&& boundary_matches(self.key_space, self.start)
        &&& boundary_matches(self.key_space, self.end)
    }

    /// A read that goes through the range in key order stops before `key`.
    pub open spec fn stops_at(self, order: ByteOrder, key: Seq<u8>) -> bool {
        match (self.key_space, self.end) {
            (KeySpace::Bytes, Some(KeyBoundary::Byte(b))) => key_position(
                KeySpace::Bytes,
                order,
                key,
            ) >= b,
            (KeySpace::Integer, Some(KeyBoundary::Integer(i))) => key_position(
                KeySpace::Integer,
                order,
                key,
            ) >= i,
            _ => false,
        }
    }

    /// A read that starts at the range's first key comes to `key`: the key does not order before
    /// the start key. The empty key orders before every other byte string.
    pub open spec fn starts_before(self, order: ByteOrder, key: Seq<u8>) -> bool {
        match self.start {
            Some(KeyBoundary::Byte(b)) => key.len() > 0 && key[0] >= b,
            Some(KeyBoundary::Integer(i)) => key_position(KeySpace::Integer, order, key) >= i,
            None => true,
        }
    }

    /// The key is read with this range.
    pub open spec fn covers(self, order: ByteOrder, key: Seq<u8>) -> bool {
        self.starts_before(order, key) && !self.stops_at(order, key)
    }

    /// Segment `index` of `segments`, as numbers.
    pub open spec fn is_segment(self, key_space: KeySpace, index: int, segments: int) -> bool {
        let space = space_size(key_space);
        &&& self.key_space == key_space
        &&& self.well_formed()
        &&& boundary_value(self.start) == lower_bound(
            segment_start(index, segments, space),
            space,
        )
        &&& boundary_value(self.end) == upper_bound(
            segment_start(index + 1, segments, space),
            space,
        )
    }

    /// The range of all keys.
    pub fn entire(key_space: KeySpace) -> (range: Self)
        ensures
            range == (KeyRange { key_space, start: None, end: None }),
    {
        KeyRange { key_space, start: None, end: None }
    }

    /// Segment `segment_index` of a key space that is split into `total_segments`.
    pub fn segmented(key_space: KeySpace, segment_index: usize, total_segments: usize) -> (range:
        Self)
        requires
            total_segments > 0,
            segment_index < usize::MAX,
            key_space == KeySpace::Bytes ==> (segment_index + 1) * BYTE_SPACE <= usize::MAX,
        ensures
            range == segment_range(key_space, segment_index as int, total_segments as int),
            range.is_segment(key_space, segment_index as int, total_segments as int),
    {
        match key_space {
            KeySpace::Integer => {
                let (start, end) = integer_segment_bounds(segment_index, total_segments);
                KeyRange {
                    key_space,
                    start: match start {
                        Some(i) => Some(KeyBoundary::Integer(i)),
                        None => None,
                    },
                    end: match end {
                        Some(i) => Some(KeyBoundary::Integer(i)),
                        None => None,
                    },
                }
            },
            KeySpace::Bytes => {
                let (start, end) = byte_segment_bounds(segment_index, total_segments);
                KeyRange {
                    key_space,
                    start: match start {
                        Some(b) => Some(KeyBoundary::Byte(b)),
                        None => None,
                    },
                    end: match end {
                        Some(b) => Some(KeyBoundary::Byte(b)),
                        None => None,
                    },
                }
            },
        }
    }

    /// The key that a read of the range is positioned at, or `None` to start at the first key.
    pub fn start_key_bytes(&self, order: ByteOrder) -> (key: Option<Vec<u8>>)
        ensures
            match self.start {
                Some(KeyBoundary::Byte(b)) => key is Some && key->0@ == seq![b],
                Some(KeyBoundary::Integer(i)) => key is Some && key->0@ == digits_of_nat(
                    order,
                    i as nat,
                    8,
                ),
                None => key is None,
            },
    {
        match self.start {
            Some(KeyBoundary::Byte(b)) => {
                let mut bytes: Vec<u8> = Vec::new();
                bytes.push(b);
                assert(bytes@ =~= seq![b]);
                Some(bytes)
            },
            Some(KeyBoundary::Integer(i)) => {
                let bytes: [u8; 8] = bytes_of_u64(order, i);
                Some(slice_to_vec(bytes.as_slice()))
            },
            None => None,
        }
    }

    /// Whether a read of the range stops before `key`.
    pub fn should_stop(&self, order: ByteOrder, key: &[u8]) -> (stop: bool)
        ensures
            stop == self.stops_at(order, key@),
    {
        match (self.key_space, self.end) {
            (KeySpace::Bytes, Some(KeyBoundary::Byte(end_byte))) => {
                let first: u8 = if key.len() == 0 {
                    0
                } else {
                    key[0]
                };
                first >= end_byte
            },
            (KeySpace::Integer, Some(KeyBoundary::Integer(end_value))) => {
                let current: u64 = decode_integer_key(order, key);
                current >= end_value
            },
            _ => false,
        }
    }
}

/// The bounds of segment `index` of `segments` in the values of a key's first byte.
pub fn byte_segment_bounds(index: usize, segments: usize) -> (bounds: (Option<u8>, Option<u8>))
    requires
        segments > 0,
        (index + 1) * BYTE_SPACE <= usize::MAX,
    ensures
        bounds.0 == (match lower_bound(
            segment_start(index as int, segments as int, BYTE_SPACE as int),
            BYTE_SPACE as int,
        ) {
            Some(b) => Some(b as u8),
            None => None,
        }),
        bounds.1 == (match upper_bound(
            segment_start(index + 1, segments as int, BYTE_SPACE as int),
            BYTE_SPACE as int,
        ) {
            Some(b) => Some(b as u8),
            None => None,
        }),
{
    let start_bucket: usize = (index * BYTE_SPACE) / segments;
    let end_bucket: usize = ((index + 1) * BYTE_SPACE) / segments;
    let start: Option<u8> = if start_bucket == 0 {
        None
    } else {
        Some((start_bucket % BYTE_SPACE) as u8)
    };
    let end: Option<u8> = if end_bucket >= BYTE_SPACE {
        None
    } else {
        Some(end_bucket as u8)
    };
    (start, end)
}

/// The bounds of segment `index` of `segments` in the values of an integer key.
pub fn integer_segment_bounds(index: usize, segments: usize) -> (bounds: (
    Option<u64>,
    Option<u64>,
))
    requires
        segments > 0,
        index < usize::MAX,
    ensures
        bounds.0 == (match lower_bound(
            segment_start(index as int, segments as int, integer_space()),
            integer_space(),
        ) {
            Some(i) => Some(i as u64),
            None => None,
        }),
        bounds.1 == (match upper_bound(
            segment_start(index + 1, segments as int, integer_space()),
            integer_space(),
        ) {
            Some(i) => Some(i as u64),
            None => None,
        }),
{
    let total_range: u128 = 0x1_0000_0000_0000_0000;
    let start: u128 = total_range * (index as u128) / (segments as u128);
    let end: u128 = total_range * ((index + 1) as u128) / (segments as u128);
    let start_bound: Option<u64> = if start == 0 {
        None
    } else {
        Some((start % total_range) as u64)
    };
    let end_bound: Option<u64> = if end >= total_range {
        None
    } else {
        Some(end as u64)
    };
    (start_bound, end_bound)
}

/// The integer that the first eight bytes of a key stand for; missing bytes count as zeros.
pub fn decode_integer_key(order: ByteOrder, bytes: &[u8]) -> (value: u64)
    ensures
        value == nat_of_bytes(order, right_padded(bytes@, 8)),
{
    let buffer: [u8; 8] = right_pad::<8>(bytes);
    u64_of_bytes(order, &buffer)
}

/// The place of a key is within its key space.
proof fn lemma_key_position_bound(key_space: KeySpace, order: ByteOrder, key: Seq<u8>)
    ensures
        0 <= key_position(key_space, order, key) < space_size(key_space),
{
    let padded = right_padded(key, 8);
    lemma_le_nat_bound(padded);
    lemma_le_nat_bound(padded.reverse());
    lemma_pow256_8();
}

/// Segments begin at zero, in order, and end with the space.
proof fn lemma_segment_starts(segments: int, space: int)
    requires
        segments > 0,
        space > 0,
    ensures
        segment_start(0, segments, space) == 0,
        segment_start(segments, segments, space) == space,
        forall|i: int, j: int|
            0 <= i <= j ==> #[trigger] segment_start(i, segments, space) <= #[trigger] segment_start(
                j,
                segments,
                space,
            ),
        forall|i: int|
            0 <= i < segments ==> 0 <= #[trigger] segment_start(i, segments, space) < space,
{
    assert(0 * space == 0) by (nonlinear_arith);
    assert(0int / segments == 0) by (nonlinear_arith)
        requires
            segments > 0,
    ;
    assert(segments * space == space * segments) by (nonlinear_arith);
    lemma_div_multiples_vanish(space, segments);
    assert forall|i: int, j: int| 0 <= i <= j implies #[trigger] segment_start(i, segments, space)
        <= #[trigger] segment_start(j, segments, space) by {
        assert(i * space <= j * space) by (nonlinear_arith)
            requires
                0 <= i <= j,
                space > 0,
        ;
        lemma_div_is_ordered(i * space, j * space, segments);
    }
    assert forall|i: int| 0 <= i < segments implies 0 <= #[trigger] segment_start(
        i,
        segments,
        space,
    ) < space by {
        let n = i * space;
        assert(0 <= n < segments * space) by (nonlinear_arith)
            requires
                0 <= i < segments,
                space > 0,
                n == i * space,
        ;
        assert(0 <= n / segments < space) by (nonlinear_arith)
            requires
                0 <= n < segments * space,
                segments > 0,
                space > 0,
        ;
    }
}

/// A segment covers exactly the keys whose place lies between its start and the next one's.
proof fn lemma_segment_covers(
    range: KeyRange,
    order: ByteOrder,
    key_space: KeySpace,
    index: int,
    segments: int,
    key: Seq<u8>,
)
    requires
        0 <= index < segments,
        range.is_segment(key_space, index, segments),
    ensures
        range.covers(order, key) == (segment_start(index, segments, space_size(key_space))
            <= key_position(key_space, order, key) < segment_start(
            index + 1,
            segments,
            space_size(key_space),
        )),
{
    let space = space_size(key_space);
    lemma_key_position_bound(key_space, order, key);
    lemma_segment_starts(segments, space);
    let at = segment_start(index, segments, space);
    assert(0 <= at < space);
    assert(at % space == at) by (nonlinear_arith)
        requires
            0 <= at < space,
    ;
    assert(segment_start(index, segments, space) <= segment_start(index + 1, segments, space));
}

/// Some segment's range holds the place `p`.
proof fn lemma_segment_of_position(segments: int, space: int, p: int, upto: int) -> (i: int)
    requires
        0 < upto <= segments,
        space > 0,
        0 <= p < segment_start(upto, segments, space),
        segment_start(0, segments, space) == 0,
    ensures
        0 <= i < upto,
        segment_start(i, segments, space) <= p < segment_start(i + 1, segments, space),
    decreases upto,
{
    if segment_start(upto - 1, segments, space) <= p {
        upto - 1
    } else {
        lemma_segment_of_position(segments, space, p, upto - 1)
    }
}

/// The segments of a table share out its keys: whatever the key, exactly one of the segments
/// covers it, so a table that is read segment by segment is read completely and no entry is
/// read twice.
pub proof fn segments_partition_keys(
    key_space: KeySpace,
    order: ByteOrder,
    ranges: Seq<KeyRange>,
    key: Seq<u8>,
)
    requires
        ranges.len() > 0,
        forall|i: int|
            0 <= i < ranges.len() ==> (#[trigger] ranges[i]).is_segment(
                key_space,
                i,
                ranges.len() as int,
            ),
    ensures
        exists|i: int|
            0 <= i < ranges.len() && (#[trigger] ranges[i]).covers(order, key) && forall|j: int|
                0 <= j < ranges.len() && j != i ==> !(#[trigger] ranges[j]).covers(order, key),
{
    let segments = ranges.len() as int;
    let space = space_size(key_space);
    let p = key_position(key_space, order, key);
    lemma_key_position_bound(key_space, order, key);
    lemma_segment_starts(segments, space);
    let i = lemma_segment_of_position(segments, space, p, segments);
    lemma_segment_covers(ranges[i], order, key_space, i, segments, key);
    assert(ranges[i].covers(order, key));
    assert forall|j: int| 0 <= j < segments && j != i implies !(#[trigger] ranges[j]).covers(
        order,
        key,
    ) by {
        lemma_segment_covers(ranges[j], order, key_space, j, segments, key);
        if j < i {
            assert(segment_start(j + 1, segments, space) <= segment_start(i, segments, space));
        } else {
            assert(segment_start(i + 1, segments, space) <= segment_start(j, segments, space));
        }
    }
}

/// A segment ends where the next one starts; the first segment has no lower end and the last
/// one no upper end.
pub proof fn segments_are_adjacent(key_space: KeySpace, ranges: Seq<KeyRange>, i: int)
    requires
        0 <= i < ranges.len(),
        forall|k: int|
            0 <= k < ranges.len() ==> (#[trigger] ranges[k]).is_segment(
                key_space,
                k,
                ranges.len() as int,
            ),
    ensures
        ranges[0].start is None,
        ranges[ranges.len() - 1].end is None,
        i + 1 < ranges.len() ==> (boundary_value(ranges[i].end) == boundary_value(
            ranges[i + 1].start,
        ) || (boundary_value(ranges[i].end) == Some(0int) && ranges[i + 1].start is None)),
{
    let segments = ranges.len() as int;
    let space = space_size(key_space);
    lemma_segment_starts(segments, space);
    assert(ranges[0].is_segment(key_space, 0, segments));
    assert(ranges[segments - 1].is_segment(key_space, segments - 1, segments));
    assert(ranges[i].is_segment(key_space, i, segments));
    if i + 1 < segments {
        assert(ranges[i + 1].is_segment(key_space, i + 1, segments));
        let at = segment_start(i + 1, segments, space);
        assert(0 <= at < space);
        assert(at % space == at) by (nonlinear_arith)
            requires
                0 <= at < space,
        ;
    }
}

/// The start key of an integer range stands for the range's first value.
pub proof fn integer_start_key_round_trip(order: ByteOrder, start: u64)
    ensures
        key_position(KeySpace::Integer, order, digits_of_nat(order, start as nat, 8)) == start,
{
    lemma_pow256_8();
    lemma_digits_round_trip(order, start as nat, 8);
    let digits = digits_of_nat(order, start as nat, 8);
    assert(right_padded(digits, 8) =~= digits);
}

/// The number is the share `index / segments` of the whole, rounded down.
pub open spec fn is_share(value: int, index: int, segments: int, whole: int) -> bool {
    value * segments <= index * whole < (value + 1) * segments
}

/// The range is the share of the keys that lies between `index / segments` and the next such
/// fraction: by the first of 256 byte values, or by the first of all 64-bit numbers. It has no
/// lower end where it begins with the first value, and no upper end where it is the last.
pub open spec fn is_even_share(
    range: KeyRange,
    key_space: KeySpace,
    index: int,
    segments: int,
) -> bool {
    &&& range.key_space == key_space
    &&& key_space == KeySpace::Bytes ==> {
        &&& range.start is None ==> is_share(0, index, segments, 256)
        &&& range.start is Some ==> range.start->0 is Byte && range.start->0->Byte_0 > 0
            && is_share(range.start->0->Byte_0 as int, index, segments, 256)
        &&& range.end is None <==> index + 1 >= segments
        &&& range.end is Some ==> range.end->0 is Byte && is_share(
            range.end->0->Byte_0 as int,
            index + 1,
            segments,
            256,
        )
    }
    &&& key_space == KeySpace::Integer ==> {
        &&& range.start is None ==> is_share(0, index, segments, 18446744073709551616)
        &&& range.start is Some ==> range.start->0 is Integer && range.start->0->Integer_0 > 0
            && is_share(
            range.start->0->Integer_0 as int,
            index,
            segments,
            18446744073709551616,
        )
        &&& range.end is None <==> index + 1 >= segments
        &&& range.end is Some ==> range.end->0 is Integer && is_share(
            range.end->0->Integer_0 as int,
            index + 1,
            segments,
            18446744073709551616,
        )
    }
}

/// A segment begins at its share of the values.
proof fn lemma_start_is_share(index: int, segments: int, whole: int)
    requires
        segments > 0,
        index >= 0,
        whole > 0,
    ensures
        is_share(segment_start(index, segments, whole), index, segments, whole),
        segment_start(index, segments, whole) >= 0,
        segment_start(index, segments, whole) >= whole <==> index >= segments,
{
    let n = index * whole;
    assert(n >= 0) by (nonlinear_arith)
        requires
            index >= 0,
            whole > 0,
            n == index * whole,
    ;
    vstd::arithmetic::div_mod::lemma_fundamental_div_mod(n, segments);
    let q = n / segments;
    let r = n % segments;
    assert(q * segments == segments * q) by (nonlinear_arith);
    assert((q + 1) * segments == q * segments + segments) by (nonlinear_arith);
    assert(q >= 0) by (nonlinear_arith)
        requires
            n == segments * q + r,
            0 <= r < segments,
            n >= 0,
    ;
    assert(q >= whole <==> index >= segments) by (nonlinear_arith)
        requires
            index * whole == segments * q + r,
            0 <= r < segments,
            index >= 0,
            whole > 0,
            q >= 0,
    ;
}

/// A table is shared out evenly: each segment is the share of the keys that its place among the
/// segments makes it.
pub proof fn segments_are_even_shares(
    key_space: KeySpace,
    index: usize,
    segments: usize,
    range: KeyRange,
)
    requires
        index < segments,
        call_ensures(KeyRange::segmented, (key_space, index, segments), range),
    ensures
        is_even_share(range, key_space, index as int, segments as int),
{
    lemma_range_is_even_share(key_space, index as int, segments as int);
}

/// A segment is an even share.
pub proof fn lemma_range_is_even_share(key_space: KeySpace, index: int, segments: int)
    requires
        0 <= index < segments,
    ensures
        is_even_share(segment_range(key_space, index, segments), key_space, index, segments),
{
    let space = space_size(key_space);
    lemma_start_is_share(index, segments, space);
    lemma_start_is_share(index + 1, segments, space);
    let at = segment_start(index, segments, space);
    assert(at % space == at) by (nonlinear_arith)
        requires
            0 <= at < space,
    ;
}

/// The bounds in the values of the first byte, and in those of integer keys, are those shares.
pub proof fn bounds_are_even_shares(
    index: usize,
    segments: usize,
    bytes: (Option<u8>, Option<u8>),
    integers: (Option<u64>, Option<u64>),
)
    requires
        index < segments,
        call_ensures(byte_segment_bounds, (index, segments), bytes),
        call_ensures(integer_segment_bounds, (index, segments), integers),
    ensures
        match bytes.0 {
            Some(b) => b > 0 && is_share(b as int, index as int, segments as int, 256),
            None => is_share(0, index as int, segments as int, 256),
        },
        match bytes.1 {
            Some(b) => index + 1 < segments && is_share(
                b as int,
                index + 1,
                segments as int,
                256,
            ),
            None => index + 1 == segments,
        },
        match integers.0 {
            Some(v) => v > 0 && is_share(
                v as int,
                index as int,
                segments as int,
                18446744073709551616,
            ),
            None => is_share(0, index as int, segments as int, 18446744073709551616),
        },
        match integers.1 {
            Some(v) => index + 1 < segments && is_share(
                v as int,
                index + 1,
                segments as int,
                18446744073709551616,
            ),
            None => index + 1 == segments,
        },
{
    lemma_start_is_share(index as int, segments as int, 256);
    lemma_start_is_share(index + 1, segments as int, 256);
    lemma_start_is_share(index as int, segments as int, 18446744073709551616);
    lemma_start_is_share(index + 1, segments as int, 18446744073709551616);
    let a = segment_start(index as int, segments as int, 256);
    assert(a % 256 == a) by (nonlinear_arith)
        requires
            0 <= a < 256,
    ;
    let b = segment_start(index as int, segments as int, integer_space());
    assert(b % integer_space() == b) by (nonlinear_arith)
        requires
            0 <= b < integer_space(),
    ;
}

/// The number that the first eight bytes of a key stand for, where zeros stand for those that are
/// missing.
pub open spec fn key_number(order: ByteOrder, key: Seq<u8>) -> nat {
    let eight = if key.len() >= 8 {
        key.take(8)
    } else {
        key + Seq::new((8 - key.len()) as nat, |i: int| 0u8)
    };
    match order {
        ByteOrder::Little => le_nat(eight),
        ByteOrder::Big => be_nat(eight),
    }
}

/// Keys are placed by their first byte or by their number.
proof fn lemma_key_number(order: ByteOrder, key: Seq<u8>)
    ensures
        nat_of_bytes(order, right_padded(key, 8)) == key_number(order, key),
{
    if key.len() >= 8 {
        assert(right_padded(key, 8) =~= key.take(8));
    } else {
        assert(right_padded(key, 8) =~= key + Seq::new((8 - key.len()) as nat, |i: int| 0u8));
    }
}

/// A read begins at the range's first key and stops at the first key that is not in the range any
/// more. A range of byte strings is bounded by first bytes, where the empty key counts like a
/// zero byte, and a range of integers by numbers; and a range without an end is read to its end.
pub proof fn reads_begin_and_stop_with_the_range(
    range: &KeyRange,
    order: ByteOrder,
    key: &[u8],
    start: Option<Vec<u8>>,
    stop: bool,
    number: u64,
)
    requires
        range.well_formed(),
        call_ensures(KeyRange::start_key_bytes, (range, order), start),
        call_ensures(KeyRange::should_stop, (range, order, key), stop),
        call_ensures(decode_integer_key, (order, key), number),
    ensures
        number == key_number(order, key@),
        match range.start {
            None => start is None,
            Some(KeyBoundary::Byte(b)) => start is Some && start->0@ == seq![b],
            Some(KeyBoundary::Integer(i)) => {
                &&& start is Some
                &&& start->0@.len() == 8
                &&& key_number(order, start->0@) == i
            },
        },
        match range.end {
            None => !stop,
            Some(KeyBoundary::Byte(b)) => stop <==> if key@.len() == 0 {
                b == 0
            } else {
                key@[0] >= b
            },
            Some(KeyBoundary::Integer(i)) => stop <==> key_number(order, key@) >= i,
        },
        range.covers(order, key@) <==> !stop && match range.start {
            None => true,
            Some(KeyBoundary::Byte(b)) => key@.len() > 0 && key@[0] >= b,
            Some(KeyBoundary::Integer(i)) => key_number(order, key@) >= i,
        },
{
    lemma_key_number(order, key@);
    if let Some(KeyBoundary::Integer(i)) = range.start {
        integer_start_key_round_trip(order, i);
        lemma_key_number(order, start->0@);
        lemma_pow256_8();
        lemma_digits_round_trip(order, i as nat, 8);
    }
}

/// The range of all keys covers every key.
pub proof fn entire_range_covers_every_key(
    key_space: KeySpace,
    range: KeyRange,
    order: ByteOrder,
    key: Seq<u8>,
)
    requires
        call_ensures(KeyRange::entire, (key_space,), range),
    ensures
        range.key_space == key_space,
        range.start is None,
        range.end is None,
        range.covers(order, key),
{
}

} // verus!
