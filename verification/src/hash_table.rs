//! A map from hashes, kept as a list in the order of the hashes.

use crate::keccak::Digest;
use vstd::prelude::*;

verus! {

/// A map from hashes.
pub struct HashTable<V> {
    entries: Vec<(Digest, V)>,
}

/// Lexicographic order of byte strings.
pub open spec fn bytes_lt(a: Seq<u8>, b: Seq<u8>) -> bool {
    exists|i: int| first_difference(a, b, i) && a[i] < b[i]
}

/// The byte strings differ at `i` and not before.
pub open spec fn first_difference(a: Seq<u8>, b: Seq<u8>, i: int) -> bool {
    &&& 0 <= i < a.len()
    &&& i < b.len()
    &&& a[i] != b[i]
    &&& forall|k: int| 0 <= k < i ==> a[k] == b[k]
}

/// One of two byte strings comes first, and not both.
proof fn lemma_bytes_lt_asymmetric(a: Seq<u8>, b: Seq<u8>)
    requires
        bytes_lt(a, b),
    ensures
        !bytes_lt(b, a),
        a != b,
{
    let i = choose|i: int| first_difference(a, b, i) && a[i] < b[i];
    if bytes_lt(b, a) {
        let j = choose|j: int| first_difference(b, a, j) && b[j] < a[j];
        if i < j {
            assert(b[i] == a[i]);
        } else if j < i {
            assert(a[j] == b[j]);
        }
    }
}

/// The order is transitive.
proof fn lemma_bytes_lt_transitive(a: Seq<u8>, b: Seq<u8>, c: Seq<u8>)
    requires
        bytes_lt(a, b),
        bytes_lt(b, c),
    ensures
        bytes_lt(a, c),
{
    let i = choose|i: int| first_difference(a, b, i) && a[i] < b[i];
    let j = choose|j: int| first_difference(b, c, j) && b[j] < c[j];
    let k = if i < j {
        i
    } else {
        j
    };
    assert(first_difference(a, c, k));
}

/// How two hashes are ordered.
enum Place {
    Before,
    Same,
    After,
}

/// Compares two hashes.
fn place_of(a: &Digest, b: &Digest) -> (place: Place)
    ensures
        match place {
            Place::Before => bytes_lt(a@, b@),
            Place::Same => a@ == b@,
            Place::After => bytes_lt(b@, a@),
        },
{
    let mut i: usize = 0;
    while i < 32
        invariant
            i <= 32,
            forall|k: int| 0 <= k < i ==> a@[k] == b@[k],
        decreases 32 - i,
    {
        if a[i] < b[i] {
            assert(first_difference(a@, b@, i as int));
            return Place::Before;
        }
        if b[i] < a[i] {
            assert(first_difference(b@, a@, i as int));
            return Place::After;
        }
        i += 1;
    }
    assert(a@ =~= b@);
    Place::Same
}

/// The keys are in order, so that none occurs twice.
pub open spec fn keys_ordered<V>(entries: Seq<(Digest, V)>) -> bool {
    forall|i: int, j: int|
        0 <= i < j < entries.len() ==> bytes_lt(
            (#[trigger] entries[i]).0@,
            (#[trigger] entries[j]).0@,
        )
}

/// Entry `i` has the key.
pub open spec fn has_key_at<V>(entries: Seq<(Digest, V)>, key: Seq<u8>, i: int) -> bool {
    0 <= i < entries.len() && entries[i].0@ == key
}

/// The map that the entries stand for.
pub open spec fn entry_map<V>(entries: Seq<(Digest, V)>) -> Map<Seq<u8>, V> {
    Map::new(
        |key: Seq<u8>| exists|i: int| has_key_at(entries, key, i),
        |key: Seq<u8>| entries[choose|i: int| has_key_at(entries, key, i)].1,
    )
}

/// Two entries with the same key are the same entry.
proof fn lemma_key_is_unique<V>(entries: Seq<(Digest, V)>, key: Seq<u8>, i: int, j: int)
    requires
        keys_ordered(entries),
        has_key_at(entries, key, i),
        has_key_at(entries, key, j),
    ensures
        i == j,
{
    if i < j {
        lemma_bytes_lt_asymmetric(entries[i].0@, entries[j].0@);
    } else if j < i {
        lemma_bytes_lt_asymmetric(entries[j].0@, entries[i].0@);
    }
}

/// The map holds what an entry says.
proof fn lemma_entry_map_at<V>(entries: Seq<(Digest, V)>, key: Seq<u8>, i: int)
    requires
        keys_ordered(entries),
        has_key_at(entries, key, i),
    ensures
        entry_map(entries).contains_key(key),
        entry_map(entries)[key] == entries[i].1,
{
    let j = choose|j: int| has_key_at(entries, key, j);
    lemma_key_is_unique(entries, key, i, j);
}

/// Where a key stands, or where it would be put.
pub open spec fn is_place_for<V>(entries: Seq<(Digest, V)>, key: Seq<u8>, at: int) -> bool {
    &&& 0 <= at <= entries.len()
    &&& forall|i: int| 0 <= i < at ==> bytes_lt((#[trigger] entries[i]).0@, key)
    &&& forall|i: int| at <= i < entries.len() ==> !bytes_lt((#[trigger] entries[i]).0@, key)
}

impl<V> View for HashTable<V> {
    type V = Map<Seq<u8>, V>;

    closed spec fn view(&self) -> Map<Seq<u8>, V> {
        entry_map(self.entries@)
    }
}

impl<V> HashTable<V> {
    /// No key occurs twice.
    #[verifier::type_invariant]
    spec fn well_formed(self) -> bool {
        keys_ordered(self.entries@)
    }

    /// The empty map.
    pub fn new() -> (table: Self)
        ensures
            table@ == Map::<Seq<u8>, V>::empty(),
    {
        let entries: Vec<(Digest, V)> = Vec::new();
        assert(entry_map(entries@) =~= Map::<Seq<u8>, V>::empty());
        HashTable { entries }
    }

    /// Whether the map is empty.
    pub fn is_empty(&self) -> (empty: bool)
        ensures
            empty == (self@ == Map::<Seq<u8>, V>::empty()),
    {
        proof {
            use_type_invariant(self);
            if self.entries@.len() > 0 {
                lemma_entry_map_at(self.entries@, self.entries@[0].0@, 0);
            } else {
                assert(entry_map(self.entries@) =~= Map::<Seq<u8>, V>::empty());
            }
        }
        self.entries.len() == 0
    }

    /// The entries of the map, each key once.
    pub fn entries(&self) -> (entries: &Vec<(Digest, V)>)
        ensures
            keys_ordered(entries@),
            self@ == entry_map(entries@),
    {
        proof {
            use_type_invariant(self);
        }
        &self.entries
    }

    /// Where the key stands, or where it would be put.
    fn place(&self, key: &Digest) -> (at: usize)
        ensures
            is_place_for(self.entries@, key@, at as int),
    {
        proof {
            use_type_invariant(self);
        }
        let mut low: usize = 0;
        let mut high: usize = self.entries.len();
        while low < high
            invariant
                low <= high <= self.entries@.len(),
                keys_ordered(self.entries@),
                forall|i: int| 0 <= i < low ==> bytes_lt((#[trigger] self.entries@[i]).0@, key@),
                forall|i: int|
                    high <= i < self.entries@.len() ==> !bytes_lt(
                        (#[trigger] self.entries@[i]).0@,
                        key@,
                    ),
            decreases high - low,
        {
            let middle: usize = low + (high - low) / 2;
            let ghost there = self.entries@[middle as int].0@;
            match place_of(&self.entries[middle].0, key) {
                Place::Before => {
                    assert forall|i: int| 0 <= i < middle + 1 implies bytes_lt(
                        (#[trigger] self.entries@[i]).0@,
                        key@,
                    ) by {
                        if i < middle {
                            lemma_bytes_lt_transitive(self.entries@[i].0@, there, key@);
                        }
                    }
                    low = middle + 1;
                },
                _ => {
                    assert forall|i: int| middle <= i < self.entries@.len() implies !bytes_lt(
                        (#[trigger] self.entries@[i]).0@,
                        key@,
                    ) by {
                        let here = self.entries@[i].0@;
                        if bytes_lt(here, key@) {
                            lemma_bytes_lt_asymmetric(here, key@);
                            if i > middle {
                                lemma_bytes_lt_transitive(there, here, key@);
                            }
                            lemma_bytes_lt_asymmetric(there, key@);
                        }
                    }
                    high = middle;
                },
            }
        }
        low
    }

    /// Maps the key to the value, in place of what it was mapped to before.
    pub fn insert(&mut self, key: Digest, value: V)
        ensures
            final(self)@ == old(self)@.insert(key@, value),
    {
        proof {
            use_type_invariant(&*self);
        }
        let at: usize = self.place(&key);
        let ghost before = self.entries@;
        let mut entries: Vec<(Digest, V)> = Vec::new();
        std::mem::swap(&mut entries, &mut self.entries);
        let present: bool = at < entries.len() && match place_of(&entries[at].0, &key) {
            Place::Same => true,
            _ => false,
        };
        if present {
            entries[at] = (key, value);
            proof {
                assert(entries@ == before.update(at as int, (key, value)));
                lemma_update(before, at as int, key, value);
            }
        } else {
            proof {
                if at < before.len() {
                    assert(!bytes_lt(before[at as int].0@, key@));
                }
            }
            entries.insert(at, (key, value));
            proof {
                assert(entries@ == before.insert(at as int, (key, value)));
                lemma_insert(before, at as int, key, value);
            }
        }
        self.entries = entries;
    }
}

/// Replacing the value of a key.
proof fn lemma_update<V>(entries: Seq<(Digest, V)>, at: int, key: Digest, value: V)
    requires
        keys_ordered(entries),
        has_key_at(entries, key@, at),
    ensures
        keys_ordered(entries.update(at, (key, value))),
        entry_map(entries.update(at, (key, value))) == entry_map(entries).insert(key@, value),
{
    let after = entries.update(at, (key, value));
    assert(keys_ordered(after)) by {
        assert forall|i: int, j: int| 0 <= i < j < after.len() implies bytes_lt(
            (#[trigger] after[i]).0@,
            (#[trigger] after[j]).0@,
        ) by {
            assert(bytes_lt(entries[i].0@, entries[j].0@));
        }
    }
    let expected = entry_map(entries).insert(key@, value);
    lemma_entry_map_at(after, key@, at);
    assert forall|k: Seq<u8>| #[trigger] entry_map(after).contains_key(k)
        == expected.contains_key(k) && (expected.contains_key(k) ==> entry_map(after)[k]
        == expected[k]) by {
        if k != key@ {
            if exists|i: int| has_key_at(entries, k, i) {
                let i = choose|i: int| has_key_at(entries, k, i);
                assert(has_key_at(after, k, i));
                lemma_entry_map_at(entries, k, i);
                lemma_entry_map_at(after, k, i);
            }
            if exists|i: int| has_key_at(after, k, i) {
                let i = choose|i: int| has_key_at(after, k, i);
                assert(has_key_at(entries, k, i));
            }
        }
    }
    assert(entry_map(after) =~= expected);
}

/// Putting a new key in its place.
proof fn lemma_insert<V>(entries: Seq<(Digest, V)>, at: int, key: Digest, value: V)
    requires
        keys_ordered(entries),
        is_place_for(entries, key@, at),
        at < entries.len() ==> bytes_lt(key@, entries[at].0@),
    ensures
        keys_ordered(entries.insert(at, (key, value))),
        entry_map(entries.insert(at, (key, value))) == entry_map(entries).insert(key@, value),
{
    let after = entries.insert(at, (key, value));
    assert(keys_ordered(after)) by {
        assert forall|i: int, j: int| 0 <= i < j < after.len() implies bytes_lt(
            (#[trigger] after[i]).0@,
            (#[trigger] after[j]).0@,
        ) by {
            if j < at {
                assert(bytes_lt(entries[i].0@, entries[j].0@));
            } else if i > at {
                assert(bytes_lt(entries[i - 1].0@, entries[j - 1].0@));
            } else if i == at {
                assert(j - 1 >= at);
                if j - 1 > at {
                    assert(bytes_lt(entries[at].0@, entries[j - 1].0@));
                    lemma_bytes_lt_transitive(key@, entries[at].0@, entries[j - 1].0@);
                }
            } else if j == at {
                assert(bytes_lt(entries[i].0@, key@));
            } else {
                assert(bytes_lt(entries[i].0@, entries[j - 1].0@));
            }
        }
    }
    let expected = entry_map(entries).insert(key@, value);
    assert(has_key_at(after, key@, at));
    lemma_entry_map_at(after, key@, at);
    assert forall|k: Seq<u8>| #[trigger] entry_map(after).contains_key(k)
        == expected.contains_key(k) && (expected.contains_key(k) ==> entry_map(after)[k]
        == expected[k]) by {
        if k != key@ {
            if exists|i: int| has_key_at(entries, k, i) {
                let i = choose|i: int| has_key_at(entries, k, i);
                let moved = if i < at {
                    i
                } else {
                    i + 1
                };
                assert(has_key_at(after, k, moved));
                lemma_entry_map_at(entries, k, i);
                lemma_entry_map_at(after, k, moved);
            }
            if exists|i: int| has_key_at(after, k, i) {
                let i = choose|i: int| has_key_at(after, k, i);
                assert(i != at);
                let moved = if i < at {
                    i
                } else {
                    i - 1
                };
                assert(has_key_at(entries, k, moved));
            }
        }
    }
    assert(entry_map(after) =~= expected);
}

/// A table gives back what was put in under a key last, keeps what is under the other keys, and
/// lists each key once with what is under it.
pub proof fn tables_give_back_what_was_put_in<V>(
    fresh: HashTable<V>,
    table: &mut HashTable<V>,
    key: Digest,
    value: V,
    other: Seq<u8>,
    empty: bool,
    entries: &Vec<(Digest, V)>,
)
    requires
        call_ensures(HashTable::<V>::new, (), fresh),
        call_ensures(HashTable::<V>::insert, (table, key, value), ()),
        call_ensures(HashTable::<V>::is_empty, (&*final(table),), empty),
        call_ensures(HashTable::<V>::entries, (&*final(table),), entries),
    ensures
        !fresh@.contains_key(other),
        !empty,
        final(table)@.contains_key(key@),
        final(table)@[key@] == value,
        other != key@ ==> (final(table)@.contains_key(other) <==> old(table)@.contains_key(other)),
        other != key@ && old(table)@.contains_key(other) ==> final(table)@[other] == old(
            table,
        )@[other],
        forall|i: int|
            0 <= i < entries@.len() ==> final(table)@.contains_key((#[trigger] entries@[i]).0@)
                && final(table)@[entries@[i].0@] == entries@[i].1,
        forall|i: int, j: int|
            0 <= i < j < entries@.len() ==> (#[trigger] entries@[i]).0@ != (
            #[trigger] entries@[j]).0@,
        final(table)@.contains_key(other) ==> exists|i: int|
            0 <= i < entries@.len() && (#[trigger] entries@[i]).0@ == other,
{
    assert(final(table)@.contains_key(key@));
    assert forall|i: int| 0 <= i < entries@.len() implies final(table)@.contains_key(
        (#[trigger] entries@[i]).0@,
    ) && final(table)@[entries@[i].0@] == entries@[i].1 by {
        assert(has_key_at(entries@, entries@[i].0@, i));
        lemma_entry_map_at(entries@, entries@[i].0@, i);
    }
    assert forall|i: int, j: int| 0 <= i < j < entries@.len() implies (#[trigger] entries@[i]).0@
        != (#[trigger] entries@[j]).0@ by {
        lemma_bytes_lt_asymmetric(entries@[i].0@, entries@[j].0@);
    }
    if final(table)@.contains_key(other) {
        let i = choose|i: int| has_key_at(entries@, other, i);
        assert(entries@[i].0@ == other);
    }
}

} // verus!
