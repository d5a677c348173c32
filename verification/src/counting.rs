//! Counting facts about duplicate-free sequences.

use vstd::prelude::*;

verus! {

/// A duplicate-free sequence of values in `0 .. n` has at most `n` elements,
/// and exactly `n` when it holds every value of `0 .. n`.
pub proof fn lemma_distinct_in_range(s: Seq<int>, n: int)
    requires
        0 <= n,
        s.no_duplicates(),
        forall|k: int| 0 <= k < s.len() ==> 0 <= #[trigger] s[k] < n,
    ensures
        s.len() <= n,
        s.len() == n <==> (forall|v: int| 0 <= v < n ==> s.contains(v)),
{
    broadcast use vstd::seq_lib::seq_to_set_is_finite;
    let range = vstd::set_lib::set_int_range(0, n);
    s.unique_seq_to_set();
    vstd::set_lib::lemma_int_range(0, n);
    assert(s.to_set().subset_of(range));
    vstd::set_lib::lemma_len_subset(s.to_set(), range);
    if s.len() == n {
        vstd::set_lib::lemma_subset_equality(s.to_set(), range);
        assert forall|v: int| 0 <= v < n implies s.contains(v) by {
            assert(range.contains(v));
        }
    }
    if forall|v: int| 0 <= v < n ==> s.contains(v) {
        assert(range.subset_of(s.to_set()));
        vstd::set_lib::lemma_len_subset(range, s.to_set());
    }
}

/// Two duplicate-free sequences of the same length, one contained in the
/// other, have the same elements.
pub proof fn lemma_same_elements<A>(a: Seq<A>, b: Seq<A>)
    requires
        a.no_duplicates(),
        b.no_duplicates(),
        a.len() == b.len(),
        forall|k: int| 0 <= k < a.len() ==> b.contains(#[trigger] a[k]),
    ensures
        a.to_set() == b.to_set(),
{
    broadcast use vstd::seq_lib::seq_to_set_is_finite;
    a.unique_seq_to_set();
    b.unique_seq_to_set();
    assert(a.to_set().subset_of(b.to_set()));
    vstd::set_lib::lemma_subset_equality(a.to_set(), b.to_set());
}

} // verus!
