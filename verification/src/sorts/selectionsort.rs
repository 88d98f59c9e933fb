//! Selection sort: repeatedly move the smallest remaining element to the
//! front of the unsorted region.

use vstd::prelude::*;

verus! {

use crate::sorts::Sorter;
use crate::sorts::swap_at;

pub struct SelectionSort;

impl Sorter for SelectionSort {
    fn sort(&self, v: &mut Vec<i64>) {
        let n = v.len();
        let mut u: usize = 0;
        while u < n
            invariant
                n == v@.len(),
                u <= n,
                v@.to_multiset() == old(v)@.to_multiset(),
                forall|a: int, b: int| 0 <= a <= b < u ==> v@[a] <= v@[b],
                forall|a: int, b: int| 0 <= a < u && u <= b < n ==> v@[a] <= v@[b],
            decreases n - u,
        {
            // The index of the first smallest element of the unsorted tail.
            let mut m: usize = u;
            let mut i: usize = u + 1;
            while i < n
                invariant
                    n == v@.len(),
                    u <= m < i <= n,
                    forall|k: int| u <= k < i ==> v@[m as int] <= v@[k],
                decreases n - i,
            {
                if v[i] < v[m] {
                    m = i;
                }
                i += 1;
            }
            if u != m {
                swap_at(v, u, m);
            }
            u += 1;
        }
    }
}

} // verus!
