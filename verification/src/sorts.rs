//! Sorting algorithms over vectors of integers, one module per algorithm,
//! all meeting one contract: the result is sorted and holds exactly the
//! elements it was given.

use vstd::prelude::*;

pub mod bubblesort;
pub mod heapsort;
pub mod insertionsort;
pub mod mergesort;
pub mod quicksort;
pub mod selectionsort;

verus! {

/// Nondecreasing order.
pub open spec fn sorted(s: Seq<i64>) -> bool {
    forall|i: int, j: int| 0 <= i <= j < s.len() ==> s[i] <= s[j]
}

/// What every sorter does to the vector it is handed.
pub trait Sorter {
    fn sort(&self, v: &mut Vec<i64>)
        ensures
            sorted(final(v)@),
            final(v)@.to_multiset() == old(v)@.to_multiset(),
    ;
}

/// Exchanging two positions of a sequence keeps its multiset of elements.
pub proof fn lemma_swap_multiset(s: Seq<i64>, i: int, j: int)
    requires
        0 <= i < s.len(),
        0 <= j < s.len(),
    ensures
        s.update(i, s[j]).update(j, s[i]).to_multiset() == s.to_multiset(),
{
    broadcast use vstd::seq_lib::to_multiset_update;
    broadcast use vstd::multiset::group_multiset_axioms;

    s.to_multiset_ensures();
    assert(s.contains(s[i]));
    assert(s.contains(s[j]));
    let u1 = s.update(i, s[j]);
    u1.to_multiset_ensures();
    assert(u1.contains(u1[i]));
    assert(s.update(i, s[j]).update(j, s[i]).to_multiset() =~= s.to_multiset());
}

/// Exchange the elements at `i` and `j`.
pub fn swap_at(v: &mut Vec<i64>, i: usize, j: usize)
    requires
        i < old(v)@.len(),
        j < old(v)@.len(),
    ensures
        final(v)@ == old(v)@.update(i as int, old(v)@[j as int]).update(
            j as int,
            old(v)@[i as int],
        ),
        final(v)@.to_multiset() == old(v)@.to_multiset(),
{
    proof {
        lemma_swap_multiset(v@, i as int, j as int);
    }
    let a = v[i];
    let b = v[j];
    v[i] = b;
    v[j] = a;
}

/// Sequences with equal multisets hold the same values: an upper bound on
/// every element of one bounds every element of the other.
pub proof fn lemma_multiset_le(s1: Seq<i64>, s2: Seq<i64>, x: i64)
    requires
        s1.to_multiset() == s2.to_multiset(),
        forall|i: int| 0 <= i < s1.len() ==> #[trigger] s1[i] <= x,
    ensures
        forall|i: int| 0 <= i < s2.len() ==> #[trigger] s2[i] <= x,
{
    s1.to_multiset_ensures();
    s2.to_multiset_ensures();
    assert forall|i: int| 0 <= i < s2.len() implies #[trigger] s2[i] <= x by {
        assert(s2.contains(s2[i]));
        assert(s2.to_multiset().count(s2[i]) > 0);
        assert(s1.contains(s2[i]));
        let j = choose|j: int| 0 <= j < s1.len() && s1[j] == s2[i];
        assert(s1[j] <= x);
    }
}

/// The same, for a strict lower bound.
pub proof fn lemma_multiset_gt(s1: Seq<i64>, s2: Seq<i64>, x: i64)
    requires
        s1.to_multiset() == s2.to_multiset(),
        forall|i: int| 0 <= i < s1.len() ==> #[trigger] s1[i] > x,
    ensures
        forall|i: int| 0 <= i < s2.len() ==> #[trigger] s2[i] > x,
{
    s1.to_multiset_ensures();
    s2.to_multiset_ensures();
    assert forall|i: int| 0 <= i < s2.len() implies #[trigger] s2[i] > x by {
        assert(s2.contains(s2[i]));
        assert(s2.to_multiset().count(s2[i]) > 0);
        assert(s1.contains(s2[i]));
        let j = choose|j: int| 0 <= j < s1.len() && s1[j] == s2[i];
        assert(s1[j] > x);
    }
}

/// The sorter that hands the work to the standard library's stable sort.
pub struct StdSorter;

/// The sorter that hands the work to the standard library's unstable sort.
pub struct StdUnstableSorter;

/// Relies on `<[i64]>::sort` (the standard library's stable sort): it sorts
/// the slice in place, leaving a permutation of the input.
#[verifier::external_body]
fn std_sort(v: &mut Vec<i64>)
    ensures
        sorted(final(v)@),
        final(v)@.to_multiset() == old(v)@.to_multiset(),
{
    v.sort();
}

/// Relies on `<[i64]>::sort_unstable`: it sorts the slice in place, leaving
/// a permutation of the input.
#[verifier::external_body]
fn std_sort_unstable(v: &mut Vec<i64>)
    ensures
        sorted(final(v)@),
        final(v)@.to_multiset() == old(v)@.to_multiset(),
{
    v.sort_unstable();
}

impl Sorter for StdSorter {
    fn sort(&self, v: &mut Vec<i64>) {
        std_sort(v);
    }
}

impl Sorter for StdUnstableSorter {
    fn sort(&self, v: &mut Vec<i64>) {
        std_sort_unstable(v);
    }
}

} // verus!
