//! Quicksort: partition around the first element with two index scans that
//! avoid needless swaps, place the pivot, recurse on both sides.

use vstd::prelude::*;

verus! {

use crate::sorts::Sorter;
use crate::sorts::sorted;
use crate::sorts::swap_at;
use crate::sorts::lemma_multiset_le;
use crate::sorts::lemma_multiset_gt;
use crate::sorts::lemma_swap_multiset;

pub struct QuickSort;

/// Exchanging two positions inside `lo..hi` keeps the outside untouched and
/// the inside a permutation.
proof fn lemma_swap_inside(s: Seq<i64>, lo: int, hi: int, i: int, j: int)
    requires
        0 <= lo <= i < hi <= s.len(),
        lo <= j < hi,
    ensures
        s.update(i, s[j]).update(j, s[i]).subrange(lo, hi) == s.subrange(lo, hi).update(
            i - lo,
            s[j],
        ).update(j - lo, s[i]),
        s.update(i, s[j]).update(j, s[i]).subrange(lo, hi).to_multiset() == s.subrange(
            lo,
            hi,
        ).to_multiset(),
{
    assert(s.update(i, s[j]).update(j, s[i]).subrange(lo, hi) =~= s.subrange(lo, hi).update(
        i - lo,
        s[j],
    ).update(j - lo, s[i]));
    assert(s.subrange(lo, hi)[i - lo] == s[i]);
    assert(s.subrange(lo, hi)[j - lo] == s[j]);
    lemma_swap_multiset(s.subrange(lo, hi), i - lo, j - lo);
}

/// Sort `v[lo..hi)` in place; everything outside the range stays put.
pub fn quicksort_range(v: &mut Vec<i64>, lo: usize, hi: usize)
    requires
        lo <= hi <= old(v)@.len(),
    ensures
        final(v)@.len() == old(v)@.len(),
        forall|k: int| (0 <= k < lo || hi <= k < old(v)@.len())
            ==> final(v)@[k] == old(v)@[k],
        sorted(final(v)@.subrange(lo as int, hi as int)),
        final(v)@.subrange(lo as int, hi as int).to_multiset() == old(v)@.subrange(
            lo as int,
            hi as int,
        ).to_multiset(),
    decreases hi - lo,
{
    let len = hi - lo;
    if len <= 1 {
        return;
    }
    if len == 2 {
        if v[lo] > v[lo + 1] {
            let ghost pre = v@;
            swap_at(v, lo, lo + 1);
            proof {
                lemma_swap_inside(pre, lo as int, hi as int, lo as int, lo + 1);
            }
        }
        proof {
            assert(sorted(v@.subrange(lo as int, hi as int)));
        }
        return;
    }
    let pivot = v[lo];
    let mut left = lo + 1;
    let mut right = hi - 1;
    while left <= right
        invariant
            lo <= hi <= v@.len(),
            hi - lo >= 3,
            v@.len() == old(v)@.len(),
            lo + 1 <= left <= hi,
            lo + 1 <= right <= hi - 1,
            left <= right + 1,
            v@[lo as int] == pivot,
            forall|k: int| lo + 1 <= k < left ==> #[trigger] v@[k] <= pivot,
            forall|k: int| right < k < hi ==> #[trigger] v@[k] > pivot,
            forall|k: int| (0 <= k < lo || hi <= k < v@.len()) ==> v@[k] == old(v)@[k],
            v@.subrange(lo as int, hi as int).to_multiset() == old(v)@.subrange(
                lo as int,
                hi as int,
            ).to_multiset(),
        ensures
            lo + 1 <= left <= hi,
            v@.len() == old(v)@.len(),
            v@[lo as int] == pivot,
            forall|k: int| lo + 1 <= k < left ==> #[trigger] v@[k] <= pivot,
            forall|k: int| left <= k < hi ==> #[trigger] v@[k] > pivot,
            forall|k: int| (0 <= k < lo || hi <= k < v@.len()) ==> v@[k] == old(v)@[k],
            v@.subrange(lo as int, hi as int).to_multiset() == old(v)@.subrange(
                lo as int,
                hi as int,
            ).to_multiset(),
        decreases right + 1 - left,
    {
        if v[left] <= pivot {
            left += 1;
        } else if v[right] > pivot {
            if right == lo + 1 {
                break;
            }
            right -= 1;
        } else {
            let ghost pre = v@;
            swap_at(v, left, right);
            proof {
                lemma_swap_inside(pre, lo as int, hi as int, left as int, right as int);
            }
            left += 1;
            right -= 1;
        }
    }
    // `left` is now the first index after the `<= pivot` run; every element
    // from `left` to the end of the range is greater than the pivot.
    proof {
        assert(forall|k: int| left <= k < hi ==> #[trigger] v@[k] > pivot);
    }
    let p = left - 1;
    if p != lo {
        let ghost pre = v@;
        swap_at(v, lo, p);
        proof {
            lemma_swap_inside(pre, lo as int, hi as int, lo as int, p as int);
        }
    }
    // Now v[p] == pivot, v[lo..p) <= pivot, v[p+1..hi) > pivot.
    let ghost mid = v@;
    quicksort_range(v, lo, p);
    let ghost after_left = v@;
    proof {
        assert(after_left.subrange(p as int, hi as int) =~= mid.subrange(p as int, hi as int));
        lemma_multiset_le(
            mid.subrange(lo as int, p as int),
            after_left.subrange(lo as int, p as int),
            pivot,
        );
    }
    quicksort_range(v, p + 1, hi);
    proof {
        let fin = v@;
        assert(fin.subrange(lo as int, p as int) =~= after_left.subrange(lo as int, p as int));
        assert(fin[p as int] == after_left[p as int]);
        lemma_multiset_gt(
            after_left.subrange(p + 1, hi as int),
            fin.subrange(p + 1, hi as int),
            pivot,
        );
        // Sorted: the three pieces are sorted and ordered against the pivot.
        assert forall|a: int, b: int| lo <= a <= b < hi implies fin[a] <= fin[b] by {
            let sl = fin.subrange(lo as int, p as int);
            let sr = fin.subrange(p + 1, hi as int);
            if a < p {
                assert(fin[a] == sl[a - lo]);
            }
            if b < p {
                assert(fin[b] == sl[b - lo]);
            }
            if a > p {
                assert(fin[a] == sr[a - (p + 1)]);
            }
            if b > p {
                assert(fin[b] == sr[b - (p + 1)]);
            }
        }
        // Permutation: piece together the three multisets.
        let s0 = mid.subrange(lo as int, hi as int);
        let s1 = fin.subrange(lo as int, hi as int);
        assert(s0 =~= mid.subrange(lo as int, p as int) + seq![mid[p as int]] + mid.subrange(
            p + 1,
            hi as int,
        ));
        assert(s1 =~= fin.subrange(lo as int, p as int) + seq![fin[p as int]] + fin.subrange(
            p + 1,
            hi as int,
        ));
        vstd::seq_lib::lemma_multiset_commutative(
            mid.subrange(lo as int, p as int) + seq![mid[p as int]],
            mid.subrange(p + 1, hi as int),
        );
        vstd::seq_lib::lemma_multiset_commutative(
            mid.subrange(lo as int, p as int),
            seq![mid[p as int]],
        );
        vstd::seq_lib::lemma_multiset_commutative(
            fin.subrange(lo as int, p as int) + seq![fin[p as int]],
            fin.subrange(p + 1, hi as int),
        );
        vstd::seq_lib::lemma_multiset_commutative(
            fin.subrange(lo as int, p as int),
            seq![fin[p as int]],
        );
        assert forall|k: int| (0 <= k < lo || hi <= k < old(v)@.len()) implies fin[k]
            == old(v)@[k] by {
            assert(mid[k] == old(v)@[k]);
            assert(after_left[k] == mid[k]);
            assert(fin[k] == after_left[k]);
        }
        assert(after_left.subrange(p + 1, hi as int) =~= mid.subrange(p + 1, hi as int));
        assert(fin.subrange(lo as int, p as int).to_multiset() == mid.subrange(
            lo as int,
            p as int,
        ).to_multiset());
        assert(fin.subrange(p + 1, hi as int).to_multiset() == mid.subrange(
            p + 1,
            hi as int,
        ).to_multiset());
        assert(seq![fin[p as int]] =~= seq![mid[p as int]]);
        assert(s1.to_multiset() == s0.to_multiset());
        assert(mid.subrange(lo as int, hi as int).to_multiset() == old(v)@.subrange(
            lo as int,
            hi as int,
        ).to_multiset());
    }
}

/// Sort the whole vector with quicksort.
pub fn quicksort(v: &mut Vec<i64>)
    ensures
        sorted(final(v)@),
        final(v)@.to_multiset() == old(v)@.to_multiset(),
{
    let n = v.len();
    quicksort_range(v, 0, n);
    proof {
        assert(v@.subrange(0, n as int) =~= v@);
        assert(old(v)@.subrange(0, n as int) =~= old(v)@);
    }
}

impl Sorter for QuickSort {
    fn sort(&self, v: &mut Vec<i64>) {
        quicksort(v);
    }
}

} // verus!
