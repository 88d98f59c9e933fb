//! Insertion sort: grow a sorted prefix one element at a time, placing each
//! new element either by swapping it leftwards or, in the smart variant, by
//! binary search and one splice.

use vstd::prelude::*;

verus! {

use crate::sorts::Sorter;
use crate::sorts::swap_at;

pub struct InsertionSort {
    smart: bool,
}

impl InsertionSort {
    /// Choose the dumb (swap-by-swap) or smart (binary search) placement.
    pub fn new(smart: bool) -> Self {
        Self { smart }
    }
}

impl Sorter for InsertionSort {
    fn sort(&self, v: &mut Vec<i64>) {
        let n = v.len();
        let mut unsorted: usize = 1;
        while unsorted < n
            invariant
                n == v@.len(),
                1 <= unsorted || n == 0,
                unsorted <= n || (n == 0 && unsorted == 1),
                v@.to_multiset() == old(v)@.to_multiset(),
                forall|a: int, b: int| 0 <= a <= b < unsorted && b < n ==> v@[a] <= v@[b],
            decreases n - unsorted,
        {
            if !self.smart {
                let mut i = unsorted;
                while i > 0 && v[i - 1] > v[i]
                    invariant
                        n == v@.len(),
                        unsorted < n,
                        i <= unsorted,
                        v@.to_multiset() == old(v)@.to_multiset(),
                        forall|a: int, b: int| 0 <= a <= b < i ==> v@[a] <= v@[b],
                        forall|a: int, b: int| i < a <= b <= unsorted ==> v@[a] <= v@[b],
                        forall|a: int, b: int| 0 <= a < i && i < b <= unsorted
                            ==> v@[a] <= v@[b],
                        forall|b: int| i < b <= unsorted ==> v@[i as int] < v@[b],
                    decreases i,
                {
                    swap_at(v, i - 1, i);
                    i -= 1;
                }
            } else {
                // Find, by binary search over the sorted prefix, the place
                // where the new element belongs: everything before it is no
                // greater, everything after it is greater.
                let x = v[unsorted];
                let mut lo: usize = 0;
                let mut hi: usize = unsorted;
                while lo < hi
                    invariant
                        n == v@.len(),
                        unsorted < n,
                        lo <= hi <= unsorted,
                        x == v@[unsorted as int],
                        forall|a: int, b: int| 0 <= a <= b < unsorted ==> v@[a] <= v@[b],
                        forall|k: int| 0 <= k < lo ==> v@[k] <= x,
                        forall|k: int| hi <= k < unsorted ==> v@[k] > x,
                    decreases hi - lo,
                {
                    let mid = lo + (hi - lo) / 2;
                    if v[mid] <= x {
                        lo = mid + 1;
                    } else {
                        hi = mid;
                    }
                }
                let ghost pre = v@;
                let y = v.remove(unsorted);
                v.insert(lo, y);
                proof {
                    broadcast use vstd::seq_lib::to_multiset_insert;
                    broadcast use vstd::multiset::group_multiset_axioms;

                    assert(y == x);
                    assert(pre.remove(unsorted as int).to_multiset()
                        =~= pre.to_multiset().remove(x)) by {
                        pre.to_multiset_ensures();
                    }
                    assert(pre.to_multiset().count(x) > 0) by {
                        pre.to_multiset_ensures();
                        assert(pre.contains(x));
                    }
                    assert(v@.to_multiset() =~= pre.to_multiset());
                    assert forall|a: int, b: int| 0 <= a <= b <= unsorted && b < n implies
                        v@[a] <= v@[b] by {
                        assert(forall|k: int| 0 <= k < lo ==> v@[k] == pre[k]);
                        assert(v@[lo as int] == x);
                        assert(forall|k: int| lo < k <= unsorted ==> v@[k] == pre[k - 1]);
                    }
                }
            }
            unsorted += 1;
        }
    }
}

} // verus!
