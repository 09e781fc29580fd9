//! What a warmup reports.

use crate::warmup::plan::names;
use vstd::prelude::*;

verus! {

/// Statistics about the warmup process.
#[derive(Debug, Clone)]
pub struct WarmupStats {
    /// Number of tables warmed.
    pub tables_warmed: usize,
    /// Total entries read across all tables.
    pub total_entries: usize,
    /// Total time taken for warmup, in nanoseconds.
    pub duration: u128,
    /// Tables that were skipped due to memory constraints. A table is read even where the tables
    /// exceed the memory limit, which is only warned of.
    pub skipped_tables: Vec<String>,
    /// Tables that could not be read.
    pub failed_tables: Vec<String>,
}

impl WarmupStats {
    /// Nothing was warmed, nothing skipped, and nothing failed.
    pub open spec fn is_zero(self) -> bool {
        &&& self.tables_warmed == 0
        &&& self.total_entries == 0
        &&& self.duration == 0
        &&& self.skipped_tables@.len() == 0
        &&& self.failed_tables@.len() == 0
    }
}

impl Default for WarmupStats {
    fn default() -> (stats: Self)
        ensures
            stats.is_zero(),
    {
        WarmupStats {
            tables_warmed: 0,
            total_entries: 0,
            duration: 0,
            skipped_tables: Vec::new(),
            failed_tables: Vec::new(),
        }
    }
}

/// Lexicographic order by code point.
pub open spec fn lex_le(a: Seq<char>, b: Seq<char>) -> bool
    decreases a.len(),
{
    if a.len() == 0 {
        true
    } else if b.len() == 0 {
        false
    } else if a[0] != b[0] {
        (a[0] as u32) < (b[0] as u32)
    } else {
        lex_le(a.drop_first(), b.drop_first())
    }
}

/// The list is in lexicographic order.
pub open spec fn lex_sorted(list: Seq<Seq<char>>) -> bool {
    forall|i: int, j: int| 0 <= i < j < list.len() ==> lex_le(#[trigger] list[i], #[trigger] list[j])
}

/// Two strings that order before each other are the same.
proof fn lemma_lex_antisymmetric(a: Seq<char>, b: Seq<char>)
    requires
        lex_le(a, b),
        lex_le(b, a),
    ensures
        a == b,
    decreases a.len(),
{
    if a.len() > 0 && b.len() > 0 {
        lemma_lex_antisymmetric(a.drop_first(), b.drop_first());
        assert(a =~= seq![a[0]] + a.drop_first());
        assert(b =~= seq![b[0]] + b.drop_first());
    } else {
        assert(a =~= b);
    }
}

/// `[String]::sort` of the standard library: the list afterwards holds the same strings and is
/// in the order of `str`, which is lexicographic by code point.
#[verifier::external_body]
fn sort_strings(list: &mut Vec<String>)
    ensures
        lex_sorted(names(final(list)@)),
        final(list)@.to_multiset() == old(list)@.to_multiset(),
{
    list.sort();
}

/// Two lists with the same multiset hold the same elements.
proof fn lemma_same_elements(a: Seq<String>, b: Seq<String>)
    requires
        a.to_multiset() == b.to_multiset(),
    ensures
        forall|x: String| a.contains(x) <==> b.contains(x),
{
    broadcast use vstd::seq_lib::group_to_multiset_ensures;

    assert forall|x: String| a.contains(x) <==> b.contains(x) by {
        assert(a.contains(x) <==> a.to_multiset().count(x) > 0);
        assert(b.contains(x) <==> b.to_multiset().count(x) > 0);
    }
}

/// Sorts the strings and removes repetitions.
pub fn sorted_without_repeats(strings: Vec<String>) -> (list: Vec<String>)
    ensures
        lex_sorted(names(list@)),
        names(list@).no_duplicates(),
        forall|name: Seq<char>|
            names(list@).contains(name) <==> names(strings@).contains(name),
{
    let mut sorted: Vec<String> = strings;
    sort_strings(&mut sorted);
    let ghost order = names(sorted@);
    let mut list: Vec<String> = Vec::new();
    let mut i: usize = 0;
    while i < sorted.len()
        invariant
            i <= sorted.len(),
            order == names(sorted@),
            lex_sorted(order),
            i > 0 <==> list.len() > 0,
            i > 0 ==> names(list@).last() == order[i - 1],
            lex_sorted(names(list@)),
            names(list@).no_duplicates(),
            forall|k: int|
                0 <= k < list.len() ==> exists|m: int|
                    0 <= m < i && #[trigger] names(list@)[k] == #[trigger] order[m],
            forall|m: int| 0 <= m < i ==> names(list@).contains(#[trigger] order[m]),
        decreases sorted.len() - i,
    {
        let ghost before = list@;
        let repeat: bool = list.len() > 0 && list[list.len() - 1] == sorted[i];
        if !repeat {
            list.push(sorted[i].clone());
            proof {
                let name = order[i as int];
                assert(names(list@) =~= names(before).push(name));
                assert forall|k: int| 0 <= k < before.len() implies lex_le(
                    names(before)[k],
                    name,
                ) && names(before)[k] != name by {
                    let m = choose|m: int| 0 <= m < i && names(before)[k] == order[m];
                    assert(lex_le(order[m], order[i as int]));
                    if names(before)[k] == name {
                        let last = names(before).last();
                        assert(lex_le(order[i - 1], order[i as int]));
                        if k < before.len() - 1 {
                            assert(lex_le(names(before)[k], names(before)[before.len() - 1]));
                        }
                        if m < i - 1 {
                            assert(lex_le(order[m], order[i - 1]));
                        }
                        lemma_lex_antisymmetric(last, name);
                    }
                }
                assert forall|k: int| 0 <= k < list.len() implies exists|m: int|
                    0 <= m < i + 1 && #[trigger] names(list@)[k] == #[trigger] order[m] by {
                    if k < before.len() {
                        let m = choose|m: int| 0 <= m < i && names(before)[k] == order[m];
                        assert(names(list@)[k] == order[m]);
                    } else {
                        assert(names(list@)[k] == order[i as int]);
                    }
                }
                assert forall|m: int| 0 <= m < i + 1 implies names(list@).contains(
                    #[trigger] order[m],
                ) by {
                    if m < i {
                        let k = choose|k: int|
                            0 <= k < names(before).len() && names(before)[k] == order[m];
                        assert(names(list@)[k] == order[m]);
                    } else {
                        assert(names(list@)[before.len() as int] == order[m]);
                    }
                }
            }
        } else {
            assert(names(list@)[list.len() - 1] == order[i as int]);
        }
        i += 1;
    }
    proof {
        lemma_same_elements(strings@, sorted@);
        assert forall|name: Seq<char>|
            names(list@).contains(name) <==> names(strings@).contains(name) by {
            if names(list@).contains(name) {
                let k = choose|k: int| 0 <= k < names(list@).len() && names(list@)[k] == name;
                let m = choose|m: int| 0 <= m < i && names(list@)[k] == order[m];
                assert(sorted@.contains(sorted@[m]));
                let n = choose|n: int| 0 <= n < strings@.len() && strings@[n] == sorted@[m];
                assert(names(strings@)[n] == name);
            }
            if names(strings@).contains(name) {
                let n = choose|n: int|
                    0 <= n < names(strings@).len() && names(strings@)[n] == name;
                assert(strings@.contains(strings@[n]));
                let m = choose|m: int| 0 <= m < sorted@.len() && sorted@[m] == strings@[n];
                assert(order[m] == name);
            }
        }
    }
    list
}

/// One string comes before another where it is a beginning of it, or where at the first place at
/// which they differ it has the character with the smaller number.
pub proof fn strings_are_ordered_like_words(a: Seq<char>, b: Seq<char>)
    ensures
        lex_le(a, b) <==> a.is_prefix_of(b) || exists|i: int|
            {
                &&& 0 <= i < a.len()
                &&& i < b.len()
                &&& (#[trigger] a[i] as u32) < (b[i] as u32)
                &&& a.take(i) == b.take(i)
            },
    decreases a.len(),
{
    if a.len() > 0 && b.len() > 0 {
        let x = a.drop_first();
        let y = b.drop_first();
        strings_are_ordered_like_words(x, y);
        if a[0] == b[0] {
            if lex_le(a, b) {
                if x.is_prefix_of(y) {
                    assert(a =~= b.subrange(0, a.len() as int)) by {
                        assert forall|k: int| 0 <= k < a.len() implies a[k] == b[k] by {
                            if k > 0 {
                                assert(x[k - 1] == y.subrange(0, x.len() as int)[k - 1]);
                            }
                        }
                    }
                } else {
                    let i = choose|i: int|
                        {
                            &&& 0 <= i < x.len()
                            &&& i < y.len()
                            &&& (#[trigger] x[i] as u32) < (y[i] as u32)
                            &&& x.take(i) == y.take(i)
                        };
                    assert((a[i + 1] as u32) < (b[i + 1] as u32));
                    assert(a.take(i + 1) =~= b.take(i + 1)) by {
                        assert forall|k: int| 0 <= k < i + 1 implies a[k] == b[k] by {
                            if k > 0 {
                                assert(x.take(i)[k - 1] == y.take(i)[k - 1]);
                            }
                        }
                    }
                }
            } else {
                if a.is_prefix_of(b) {
                    assert(x =~= y.subrange(0, x.len() as int)) by {
                        assert forall|k: int| 0 <= k < x.len() implies x[k] == y[k] by {
                            assert(a[k + 1] == b.subrange(0, a.len() as int)[k + 1]);
                        }
                    }
                }
                if exists|i: int|
                    {
                        &&& 0 <= i < a.len()
                        &&& i < b.len()
                        &&& (#[trigger] a[i] as u32) < (b[i] as u32)
                        &&& a.take(i) == b.take(i)
                    } {
                    let i = choose|i: int|
                        {
                            &&& 0 <= i < a.len()
                            &&& i < b.len()
                            &&& (#[trigger] a[i] as u32) < (b[i] as u32)
                            &&& a.take(i) == b.take(i)
                        };
                    assert((x[i - 1] as u32) < (y[i - 1] as u32));
                    assert(x.take(i - 1) =~= y.take(i - 1)) by {
                        assert forall|k: int| 0 <= k < i - 1 implies x[k] == y[k] by {
                            assert(a.take(i)[k + 1] == b.take(i)[k + 1]);
                        }
                    }
                }
            }
        } else {
            if a.is_prefix_of(b) {
                assert(a[0] == b.subrange(0, a.len() as int)[0]);
            }
            if (a[0] as u32) < (b[0] as u32) {
                assert(a.take(0) =~= b.take(0));
            } else {
                assert forall|i: int|
                    0 <= i < a.len() && i < b.len() && (#[trigger] a[i] as u32) < (b[i] as u32)
                        && a.take(i) == b.take(i) implies false by {
                    if i > 0 {
                        assert(a.take(i)[0] == b.take(i)[0]);
                    }
                }
            }
        }
    } else if a.len() == 0 {
        assert(a =~= b.subrange(0, 0));
    }
}

/// The list names the string.
pub open spec fn is_named(list: Seq<String>, name: Seq<char>) -> bool {
    exists|i: int| 0 <= i < list.len() && (#[trigger] list[i])@ == name
}

/// Being named is being among the names.
pub proof fn lemma_is_named(list: Seq<String>, name: Seq<char>)
    ensures
        is_named(list, name) <==> names(list).contains(name),
{
    let all = names(list);
    if all.contains(name) {
        let k = choose|k: int| 0 <= k < all.len() && all[k] == name;
        assert(list[k]@ == name);
    }
    if is_named(list, name) {
        let k = choose|k: int| 0 <= k < list.len() && (#[trigger] list[k])@ == name;
        assert(all[k] == name);
    }
}

/// The list is sorted, names each string once, and names exactly those that it was made of.
pub proof fn sorted_list_names_each_string_once(
    strings: Vec<String>,
    list: Vec<String>,
    name: Seq<char>,
)
    requires
        call_ensures(sorted_without_repeats, (strings,), list),
    ensures
        forall|i: int, j: int|
            0 <= i < j < list@.len() ==> (#[trigger] list@[i])@ != (#[trigger] list@[j])@ && lex_le(
                list@[i]@,
                list@[j]@,
            ),
        is_named(list@, name) <==> is_named(strings@, name),
{
    let out = names(list@);
    assert forall|i: int, j: int| 0 <= i < j < list@.len() implies (#[trigger] list@[i])@ != (
    #[trigger] list@[j])@ && lex_le(list@[i]@, list@[j]@) by {
        assert(out[i] == list@[i]@ && out[j] == list@[j]@);
        assert(lex_le(out[i], out[j]));
    }
    lemma_is_named(list@, name);
    lemma_is_named(strings@, name);
    assert(out.contains(name) <==> names(strings@).contains(name));
}

/// A report of nothing says that nothing was done.
pub proof fn report_of_nothing(stats: WarmupStats)
    requires
        call_ensures(<WarmupStats as Default>::default, (), stats),
    ensures
        stats.tables_warmed == 0,
        stats.total_entries == 0,
        stats.duration == 0,
        stats.skipped_tables@.len() == 0,
        stats.failed_tables@.len() == 0,
{
}

} // verus!
