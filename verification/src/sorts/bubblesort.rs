//! Bubble sort: sweep the vector, exchanging adjacent elements that are out
//! of order, until a sweep changes nothing.

use vstd::prelude::*;

verus! {

use crate::sorts::Sorter;
use crate::sorts::sorted;
use crate::sorts::swap_at;

pub struct BubbleSort;

/// A sequence whose every adjacent pair is ordered is sorted.
proof fn lemma_adjacent_sorted(s: Seq<i64>, a: int, b: int)
    requires
        forall|k: int| 1 <= k < s.len() ==> s[k - 1] <= #[trigger] s[k],
        0 <= a <= b < s.len(),
    ensures
        s[a] <= s[b],
    decreases b - a,
{
    if a < b {
        lemma_adjacent_sorted(s, a, b - 1);
    }
}

impl Sorter for BubbleSort {
    fn sort(&self, v: &mut Vec<i64>) {
        let n = v.len();
        let mut pass: usize = 0;
        while pass < n
            invariant
                n == v@.len(),
                pass <= n,
                v@.to_multiset() == old(v)@.to_multiset(),
                forall|a: int, b: int| n - pass <= a <= b < n ==> v@[a] <= v@[b],
                forall|a: int, b: int| 0 <= a < n - pass && n - pass <= b < n ==> v@[a] <= v@[b],
            decreases n - pass,
        {
            let mut swapped = false;
            let mut i: usize = 1;
            while i < n
                invariant
                    n == v@.len(),
                    pass < n,
                    1 <= i <= n,
                    v@.to_multiset() == old(v)@.to_multiset(),
                    forall|a: int, b: int| n - pass <= a <= b < n ==> v@[a] <= v@[b],
                    forall|a: int, b: int| 0 <= a < n - pass && n - pass <= b < n
                        ==> v@[a] <= v@[b],
                    forall|k: int| 0 <= k < i ==> #[trigger] v@[k] <= v@[i - 1],
                    i > n - pass ==> forall|k: int| 0 <= k < n - pass
                        ==> #[trigger] v@[k] <= v@[n - pass - 1],
                    !swapped ==> forall|k: int| 1 <= k < i ==> v@[k - 1] <= #[trigger] v@[k],
                decreases n - i,
            {
                if v[i - 1] > v[i] {
                    swap_at(v, i - 1, i);
                    swapped = true;
                }
                i += 1;
            }
            if !swapped {
                proof {
                    assert forall|a: int, b: int| 0 <= a <= b < v@.len() implies v@[a] <= v@[b] by {
                        lemma_adjacent_sorted(v@, a, b);
                    }
                }
                return;
            }
            pass += 1;
        }
    }
}

} // verus!
