//! Heap sort: build a binary max-heap over the vector, then repeatedly swap
//! the root behind the shrinking heap and sift the new root down.

use vstd::prelude::*;

verus! {

use crate::sorts::Sorter;
use crate::sorts::sorted;
use crate::sorts::swap_at;
use crate::sorts::lemma_multiset_le;

/// The max-heap links of the array `d`, restricted to the first `n` slots,
/// that hang from a parent at index `lo` or later: every such child is no
/// greater than its parent.
#[verifier::opaque]
pub open spec fn heap_from(d: Seq<i64>, lo: int, n: int) -> bool {
    forall|j: int| 1 <= j < n && (j - 1) / 2 >= lo ==> #[trigger] d[j] <= d[(j - 1) / 2]
}

/// Whether `j` lies in the subtree rooted at `root` of the implicit binary
/// tree over array indices.
#[verifier::opaque]
pub open spec fn in_subtree(root: int, j: int) -> bool
    decreases j,
        when j >= 0
{
    if j == root {
        true
    } else if j <= root || j < 1 {
        false
    } else {
        in_subtree(root, (j - 1) / 2)
    }
}

/// Subtree members never precede their root.
pub proof fn lemma_subtree_ge(root: int, j: int)
    requires
        0 <= j,
        in_subtree(root, j),
    ensures
        j >= root,
    decreases j,
{
    reveal_with_fuel(in_subtree, 2);
    if j != root && j >= 1 {
        lemma_subtree_ge(root, (j - 1) / 2);
    }
}

/// Subtree membership is transitive down the tree.
pub proof fn lemma_subtree_trans(a: int, b: int, j: int)
    requires
        0 <= a <= b,
        in_subtree(a, b),
        0 <= j,
        in_subtree(b, j),
    ensures
        in_subtree(a, j),
    decreases j,
{
    reveal_with_fuel(in_subtree, 2);
    if j != b {
        lemma_subtree_ge(b, j);
        lemma_subtree_trans(a, b, (j - 1) / 2);
    }
}

/// Under the heap links from `lo` on, every subtree member is bounded by its
/// subtree's root.
pub proof fn lemma_subtree_bound(d: Seq<i64>, lo: int, n: int, root: int, j: int)
    requires
        heap_from(d, lo, n),
        lo <= root,
        0 <= j < n,
        in_subtree(root, j),
    ensures
        d[j] <= d[root],
    decreases j,
{
    reveal_with_fuel(in_subtree, 2);
    if j != root {
    reveal(heap_from);
        lemma_subtree_ge(root, j);
        lemma_subtree_ge(root, (j - 1) / 2);
        lemma_subtree_bound(d, lo, n, root, (j - 1) / 2);
    }
}

/// Every index lies in the subtree of the root.
pub proof fn lemma_root_subtree(j: int)
    requires
        0 <= j,
    ensures
        in_subtree(0, j),
    decreases j,
{
    reveal_with_fuel(in_subtree, 2);
    if j >= 1 {
        lemma_root_subtree((j - 1) / 2);
    }
}

/// Stitching lemma for one sift-down step: after the root `i` is swapped
/// with its largest child `m` and the subtree under `m` is re-heapified, the
/// whole subtree under `i` is a heap again.
proof fn lemma_heapify_stitch(
    d0: Seq<i64>,
    d1: Seq<i64>,
    d2: Seq<i64>,
    i: int,
    m: int,
    n: int,
)
    requires
        0 <= i < m < n <= d0.len(),
        m == 2 * i + 1 || m == 2 * i + 2,
        d1.len() == d0.len(),
        d2.len() == d0.len(),
        heap_from(d0, i + 1, n),
        d1 == d0.update(i, d0[m]).update(m, d0[i]),
        d0[m] >= d0[i],
        2 * i + 1 < n ==> d0[m] >= d0[2 * i + 1],
        2 * i + 2 < n ==> d0[m] >= d0[2 * i + 2],
        heap_from(d2, m, n),
        forall|j: int| 0 <= j < d1.len() && !in_subtree(m, j) ==> d2[j] == d1[j],
        exists|j: int| m <= j < n && #[trigger] in_subtree(m, j) && d2[m] == d1[j],
    ensures
        heap_from(d2, i, n),
{
    reveal(heap_from);
    reveal_with_fuel(in_subtree, 3);
    assert(!in_subtree(m, i));
    assert(d2[i] == d1[i]);
    assert forall|j: int| 1 <= j < n && (j - 1) / 2 >= i implies #[trigger] d2[j]
        <= d2[(j - 1) / 2] by {
        reveal_with_fuel(in_subtree, 3);
        let p = (j - 1) / 2;
        if in_subtree(m, j) && j != m {
            assert(in_subtree(m, p));
            lemma_subtree_ge(m, p);
        } else if j == m {
            assert(p == i);
            assert forall|t: int| m <= t < n && #[trigger] in_subtree(m, t) implies d1[t]
                <= d1[i] by {
                if t == m {
                    assert(d1[m] == d0[i]);
                } else {
                    lemma_subtree_bound(d0, i + 1, n, m, t);
                    assert(d1[t] == d0[t]);
                    assert(d1[i] == d0[m]);
                }
            }
            let jw = choose|t: int| m <= t < n && #[trigger] in_subtree(m, t) && d2[m] == d1[t];
            assert(d1[jw] <= d1[i]);
            assert(d2[m] <= d1[i]);
        } else {
            assert(d2[j] == d1[j]);
            if p == i {
                assert(j == 2 * i + 1 || j == 2 * i + 2);
                assert(d1[j] == d0[j]);
                assert(d1[i] == d0[m]);
            } else {
                assert(!in_subtree(m, p)) by {
                    if in_subtree(m, p) {
                        assert(in_subtree(m, j));
                    }
                }
                assert(d2[p] == d1[p]);
                if j != m && p != m {
                    assert(d1[j] == d0[j] && d1[p] == d0[p]);
                } else if p == m {
                    lemma_subtree_ge(m, m);
                }
            }
        }
    }
}

/// The remaining obligations of one sift-down step, packaged: the subtree
/// of `i` is untouched from outside, its slots are a permutation, and its
/// root carries an old subtree value.
proof fn lemma_heapify_wrapup(
    d0: Seq<i64>,
    d1: Seq<i64>,
    d2: Seq<i64>,
    i: int,
    m: int,
    n: int,
)
    requires
        0 <= i < m < n <= d0.len(),
        m == 2 * i + 1 || m == 2 * i + 2,
        d1.len() == d0.len(),
        d2.len() == d0.len(),
        in_subtree(i, m),
        d1 == d0.update(i, d0[m]).update(m, d0[i]),
        d1.subrange(i, n).to_multiset() == d0.subrange(i, n).to_multiset(),
        forall|j: int| 0 <= j < d1.len() && !in_subtree(m, j) ==> d2[j] == d1[j],
        d2.subrange(m, n).to_multiset() == d1.subrange(m, n).to_multiset(),
    ensures
        forall|j: int| 0 <= j < d0.len() && !in_subtree(i, j) ==> d2[j] == d0[j],
        d2.subrange(i, n).to_multiset() == d0.subrange(i, n).to_multiset(),
        d2[i] == d0[m],
    decreases 0int,
{
    reveal_with_fuel(in_subtree, 3);
    assert(!in_subtree(m, i));
    assert(d2[i] == d1[i]);
    assert forall|j: int| i <= j < m implies d2[j] == d1[j] by {
        reveal_with_fuel(in_subtree, 3);
        assert(!in_subtree(m, j));
    }
    assert(d2.subrange(i, m) =~= d1.subrange(i, m));
    assert(d1.subrange(i, n) =~= d1.subrange(i, m) + d1.subrange(m, n));
    assert(d2.subrange(i, n) =~= d2.subrange(i, m) + d2.subrange(m, n));
    vstd::seq_lib::lemma_multiset_commutative(d1.subrange(i, m), d1.subrange(m, n));
    vstd::seq_lib::lemma_multiset_commutative(d2.subrange(i, m), d2.subrange(m, n));
    assert forall|j: int| 0 <= j < d0.len() && !in_subtree(i, j) implies d2[j] == d0[j] by {
        reveal_with_fuel(in_subtree, 3);
        assert(j != i && j != m);
        assert(!in_subtree(m, j)) by {
            if in_subtree(m, j) {
                lemma_subtree_trans(i, m, j);
            }
        }
        assert(d2[j] == d1[j]);
        assert(d1[j] == d0[j]);
    }
}

/// A node at least as large as its children closes the heap property one
/// level down.
proof fn lemma_no_swap(d: Seq<i64>, i: int, n: int)
    requires
        0 <= i < n <= d.len(),
        heap_from(d, i + 1, n),
        2 * i + 1 < n ==> d[2 * i + 1] <= d[i],
        2 * i + 2 < n ==> d[2 * i + 2] <= d[i],
    ensures
        heap_from(d, i, n),
{
    reveal(heap_from);
    assert forall|j: int| 1 <= j < n && (j - 1) / 2 >= i implies #[trigger] d[j]
        <= d[(j - 1) / 2] by {
        if (j - 1) / 2 == i {
            assert(j == 2 * i + 1 || j == 2 * i + 2);
        }
    }
}

/// The swap of the root with its largest child keeps the heap links below
/// the child and permutes the range.
proof fn lemma_swap_stage(d0: Seq<i64>, d1: Seq<i64>, i: int, m: int, n: int)
    requires
        0 <= i < m < n <= d0.len(),
        m == 2 * i + 1 || m == 2 * i + 2,
        d1 == d0.update(i, d0[m]).update(m, d0[i]),
        heap_from(d0, i + 1, n),
    ensures
        d1.len() == d0.len(),
        heap_from(d1, m + 1, n),
        d1.subrange(i, n).to_multiset() == d0.subrange(i, n).to_multiset(),
        in_subtree(i, m),
{
    reveal(heap_from);
    assert forall|j: int| 1 <= j < n && (j - 1) / 2 >= m + 1 implies #[trigger] d1[j]
        <= d1[(j - 1) / 2] by {
        assert(d1[j] == d0[j]);
        assert(d1[(j - 1) / 2] == d0[(j - 1) / 2]);
    }
    crate::sorts::lemma_swap_multiset(d0.subrange(i, n), 0, m - i);
    assert(d1.subrange(i, n) =~= d0.subrange(i, n).update(0, d0[m]).update(m - i, d0[i]));
    reveal_with_fuel(in_subtree, 3);
    assert(in_subtree(i, i));
    assert((m - 1) / 2 == i);
}

/// No index below the root of a subtree belongs to it.
pub proof fn lemma_subtree_below(root: int, j: int)
    requires
        0 <= j < root,
    ensures
        !in_subtree(root, j),
{
    reveal_with_fuel(in_subtree, 2);
}

/// Two same-length sequences that agree outside `lo..hi` and permute each
/// other inside it permute each other as wholes.
proof fn lemma_patch_multiset(a: Seq<i64>, b: Seq<i64>, lo: int, hi: int)
    requires
        a.len() == b.len(),
        0 <= lo <= hi <= a.len(),
        forall|j: int| 0 <= j < a.len() && !(lo <= j < hi) ==> a[j] == b[j],
        a.subrange(lo, hi).to_multiset() == b.subrange(lo, hi).to_multiset(),
    ensures
        a.to_multiset() == b.to_multiset(),
{
    let n = a.len() as int;
    assert(a.subrange(0, lo) =~= b.subrange(0, lo));
    assert(a.subrange(hi, n) =~= b.subrange(hi, n));
    assert(a =~= (a.subrange(0, lo) + a.subrange(lo, hi)) + a.subrange(hi, n));
    assert(b =~= (b.subrange(0, lo) + b.subrange(lo, hi)) + b.subrange(hi, n));
    vstd::seq_lib::lemma_multiset_commutative(
        a.subrange(0, lo) + a.subrange(lo, hi),
        a.subrange(hi, n),
    );
    vstd::seq_lib::lemma_multiset_commutative(a.subrange(0, lo), a.subrange(lo, hi));
    vstd::seq_lib::lemma_multiset_commutative(
        b.subrange(0, lo) + b.subrange(lo, hi),
        b.subrange(hi, n),
    );
    vstd::seq_lib::lemma_multiset_commutative(b.subrange(0, lo), b.subrange(lo, hi));
}

/// Swapping the root behind the shrunk heap keeps the links that hang from
/// parents other than the root.
proof fn lemma_shrink(d0: Seq<i64>, d1: Seq<i64>, c: int)
    requires
        0 < c + 1 <= d0.len(),
        heap_from(d0, 0, c + 1),
        d1 == d0.update(0, d0[c]).update(c, d0[0]),
    ensures
        heap_from(d1, 1, c),
{
    reveal(heap_from);
    assert forall|j: int| 1 <= j < c && (j - 1) / 2 >= 1 implies #[trigger] d1[j]
        <= d1[(j - 1) / 2] by {
        assert(d1[j] == d0[j]);
        assert(d1[(j - 1) / 2] == d0[(j - 1) / 2]);
    }
}

/// A binary max-heap laid out over a vector: the first `count` slots form
/// the heap.
pub struct MaxHeap {
    pub data: Vec<i64>,
    pub count: usize,
}

impl MaxHeap {
    /// Take the whole vector as the (not yet ordered) heap area.
    pub fn new(data: Vec<i64>) -> (r: Self)
        ensures
            r.data == data,
            r.count == data@.len(),
    {
        let count = data.len();
        Self { data, count }
    }

    /// The parent of a non-root slot.
    pub fn parent(i: usize) -> (r: usize)
        requires
            i >= 1,
        ensures
            r == (i - 1) as int / 2,
    {
        (i - 1) / 2
    }

    /// The left child of `i`, when it lies inside the heap area.
    pub fn left(&self, i: usize) -> (r: Option<usize>)
        ensures
            r == if 2 * i + 1 < self.count {
                Some((2 * i + 1) as usize)
            } else {
                None::<usize>
            },
    {
        if i < self.count / 2 {
            Some(2 * i + 1)
        } else {
            None
        }
    }

    /// The right child of `i`, when it lies inside the heap area.
    pub fn right(&self, i: usize) -> (r: Option<usize>)
        ensures
            r == if 2 * i + 2 < self.count {
                Some((2 * i + 2) as usize)
            } else {
                None::<usize>
            },
    {
        if self.count >= 1 && i < (self.count - 1) / 2 {
            Some(2 * i + 2)
        } else {
            None
        }
    }

    /// Sift the element at `i` down until the subtree rooted at `i` is a
    /// max-heap again.  Everything outside that subtree, and everything at or
    /// past `count`, stays put; within `i..count` the elements are merely
    /// rearranged, and the new root is bounded by any bound on the old
    /// subtree.
    #[verifier::rlimit(100)]
    pub fn max_heapify(&mut self, i: usize)
        requires
            i < old(self).count,
            old(self).count <= old(self).data@.len(),
            heap_from(old(self).data@, i + 1, old(self).count as int),
        ensures
            final(self).count == old(self).count,
            final(self).data@.len() == old(self).data@.len(),
            heap_from(final(self).data@, i as int, final(self).count as int),
            forall|j: int| 0 <= j < old(self).data@.len() && !in_subtree(i as int, j)
                ==> final(self).data@[j] == old(self).data@[j],
            forall|j: int| old(self).count <= j < old(self).data@.len()
                ==> final(self).data@[j] == old(self).data@[j],
            final(self).data@.subrange(i as int, old(self).count as int).to_multiset()
                == old(self).data@.subrange(i as int, old(self).count as int).to_multiset(),
            exists|j: int| i <= j < old(self).count && #[trigger] in_subtree(i as int, j)
                && final(self).data@[i as int] == old(self).data@[j],
        decreases old(self).count - i,
    {
        let n = self.count;
        let l = match self.left(i) {
            Some(j) => j,
            None => i,
        };
        let r = match self.right(i) {
            Some(j) => j,
            None => i,
        };
        let largest = if self.data[l] > self.data[i] {
            l
        } else {
            i
        };
        let largest = if self.data[r] > self.data[largest] {
            r
        } else {
            largest
        };
        if largest == i {
            proof {
                lemma_no_swap(self.data@, i as int, n as int);
                reveal_with_fuel(in_subtree, 2);
                assert(in_subtree(i as int, i as int));
            }
            return;
        }
        let ghost d0 = self.data@;
        let m = largest;
        proof {
            assert(m == 2 * i + 1 || m == 2 * i + 2);
            assert(d0[m as int] >= d0[i as int]);
        }
        swap_at(&mut self.data, i, m);
        let ghost d1 = self.data@;
        proof {
            lemma_swap_stage(d0, d1, i as int, m as int, n as int);
        }
        self.max_heapify(m);
        proof {
            let d2 = self.data@;
            lemma_heapify_stitch(d0, d1, d2, i as int, m as int, n as int);
            lemma_heapify_wrapup(d0, d1, d2, i as int, m as int, n as int);
            assert(i <= m < n && in_subtree(i as int, m as int) && d2[i as int] == d0[m as int]);
        }
    }

    /// Order the whole heap area, sifting down from the last parent to the
    /// root.
    pub fn build(&mut self)
        requires
            old(self).count >= 2,
            old(self).count <= old(self).data@.len(),
        ensures
            final(self).count == old(self).count,
            final(self).data@.len() == old(self).data@.len(),
            heap_from(final(self).data@, 0, final(self).count as int),
            final(self).data@.to_multiset() == old(self).data@.to_multiset(),
            forall|j: int| old(self).count <= j < old(self).data@.len()
                ==> final(self).data@[j] == old(self).data@[j],
    {
        let mut i = Self::parent(self.count - 1) + 1;
        proof {
            reveal(heap_from);
            assert(heap_from(self.data@, i as int, self.count as int)) by {
                assert forall|j: int| 1 <= j < self.count && (j - 1) / 2 >= i implies
                    #[trigger] self.data@[j] <= self.data@[(j - 1) / 2] by {
                    assert((j - 1) / 2 <= ((self.count - 1) - 1) / 2 < i);
                }
            }
        }
        while i > 0
            invariant
                self.count == old(self).count,
                2 <= self.count <= self.data@.len(),
                self.data@.len() == old(self).data@.len(),
                i <= (self.count - 2) / 2 + 1,
                heap_from(self.data@, i as int, self.count as int),
                self.data@.to_multiset() == old(self).data@.to_multiset(),
                forall|j: int| self.count <= j < self.data@.len()
                    ==> self.data@[j] == old(self).data@[j],
            decreases i,
        {
            i -= 1;
            let ghost before = self.data@;
            self.max_heapify(i);
            proof {
                assert forall|j: int| 0 <= j < self.data@.len() && !(i <= j < self.count)
                    implies self.data@[j] == before[j] by {
                    if j < i {
                        lemma_subtree_below(i as int, j);
                    }
                }
                lemma_patch_multiset(self.data@, before, i as int, self.count as int);
            }
        }
    }
}

/// The sorter that builds a max-heap and then extracts its root until the
/// heap is empty.
pub struct HeapSort;

impl Sorter for HeapSort {
    #[verifier::rlimit(100)]
    fn sort(&self, v: &mut Vec<i64>) {
        if v.len() < 2 {
            return;
        }
        let n = v.len();
        let mut taken: Vec<i64> = Vec::new();
        std::mem::swap(v, &mut taken);
        let mut heap = MaxHeap::new(taken);
        heap.build();
        while heap.count > 0
            invariant
                heap.data@.len() == n,
                n == old(v)@.len(),
                heap.count <= n,
                heap_from(heap.data@, 0, heap.count as int),
                sorted(heap.data@.subrange(heap.count as int, n as int)),
                forall|a: int, b: int| 0 <= a < heap.count && heap.count <= b < n
                    ==> heap.data@[a] <= heap.data@[b],
                heap.data@.to_multiset() == old(v)@.to_multiset(),
                v@.len() == 0,
            decreases heap.count,
        {
            let c = heap.count - 1;
            let ghost before = heap.data@;
            proof {
                assert forall|j: int| 0 <= j <= c implies #[trigger] before[j] <= before[0] by {
                    lemma_root_subtree(j);
                    lemma_subtree_bound(before, 0, c + 1, 0, j);
                }
            }
            heap.count = c;
            swap_at(&mut heap.data, 0, c);
            if c > 0 {
                proof {
                    lemma_shrink(before, heap.data@, c as int);
                }
                let ghost mid = heap.data@;
                heap.max_heapify(0);
                proof {
                    assert forall|j: int| 0 <= j < heap.data@.len() && !(0 <= j < c) implies
                        heap.data@[j] == mid[j] by {}
                    lemma_patch_multiset(heap.data@, mid, 0, c as int);
                    assert(mid.subrange(0, c + 1) =~= before.subrange(0, c + 1).update(
                        0,
                        before[c as int],
                    ).update(c as int, before[0]));
                    crate::sorts::lemma_swap_multiset(before.subrange(0, c + 1), 0, c as int);
                    lemma_patch_multiset(mid, before, 0, c + 1);
                    assert forall|a: int, b: int| 0 <= a < c && c <= b < n implies heap
                        .data@[a] <= heap.data@[b] by {
                        if b > c {
                            assert(heap.data@[b] == before[b]);
                        } else {
                            assert(heap.data@[b] == mid[c as int]);
                            assert(mid[c as int] == before[0]);
                        }
                        lemma_multiset_le(
                            mid.subrange(0, c as int),
                            heap.data@.subrange(0, c as int),
                            heap.data@[b],
                        );
                        assert(heap.data@[a] == heap.data@.subrange(0, c as int)[a]);
                    }
                    assert(sorted(heap.data@.subrange(c as int, n as int))) by {
                        let s = heap.data@.subrange(c as int, n as int);
                        assert forall|x: int, y: int| 0 <= x <= y < s.len() implies s[x]
                            <= s[y] by {
                            assert(s[x] == heap.data@[c + x]);
                            assert(s[y] == heap.data@[c + y]);
                            if x == 0 {
                                assert(heap.data@[c as int] == mid[c as int]);
                                assert(mid[c as int] == before[0]);
                                if y > 0 {
                                    assert(heap.data@[c + y] == before[c + y]);
                                }
                            } else {
                                assert(heap.data@[c + x] == before[c + x]);
                                assert(heap.data@[c + y] == before[c + y]);
                                assert(before.subrange(c + 1, n as int)[x - 1]
                                    == before[c + x]);
                                assert(before.subrange(c + 1, n as int)[y - 1]
                                    == before[c + y]);
                            }
                        }
                    }
                }
            } else {
                proof {
                    reveal(heap_from);
                    assert(heap.data@ =~= before);
                    assert(sorted(heap.data@.subrange(0, n as int))) by {
                        let s = heap.data@.subrange(0, n as int);
                        assert forall|x: int, y: int| 0 <= x <= y < s.len() implies s[x]
                            <= s[y] by {
                            assert(s[x] == before[x]);
                            assert(s[y] == before[y]);
                            if x >= 1 {
                                assert(before.subrange(1, n as int)[x - 1] == before[x]);
                                assert(before.subrange(1, n as int)[y - 1] == before[y]);
                            }
                        }
                    }
                }
            }
        }
        std::mem::swap(v, &mut heap.data);
        proof {
            assert(v@.subrange(0, n as int) =~= v@);
        }
    }
}

} // verus!
