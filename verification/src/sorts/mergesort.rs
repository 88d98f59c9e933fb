//! Merge sort: recursively sort two adjacent runs, then merge them through a
//! scratch buffer of the same length as the vector.

use vstd::prelude::*;

verus! {

use vstd::multiset::Multiset;
use crate::sorts::Sorter;
use crate::sorts::sorted;

pub struct Mergesort;

/// Merge the sorted runs `v[l1..=r1]` and `v[l2..=r2]` (with `l2 == r1 + 1`)
/// into one sorted run, using `buf` as scratch space.
pub fn merge(v: &mut Vec<i64>, l1: usize, r1: usize, l2: usize, r2: usize, buf: &mut Vec<i64>)
    requires
        l1 <= r1,
        l2 == r1 + 1,
        l2 <= r2,
        r2 < old(v)@.len(),
        old(buf)@.len() == old(v)@.len(),
        sorted(old(v)@.subrange(l1 as int, r1 + 1)),
        sorted(old(v)@.subrange(l2 as int, r2 + 1)),
    ensures
        final(v)@.len() == old(v)@.len(),
        final(buf)@.len() == old(buf)@.len(),
        forall|t: int| (0 <= t < l1 || r2 < t < old(v)@.len()) ==> final(v)@[t] == old(v)@[t],
        sorted(final(v)@.subrange(l1 as int, r2 + 1)),
        final(v)@.subrange(l1 as int, r2 + 1).to_multiset() == old(v)@.subrange(
            l1 as int,
            r2 + 1,
        ).to_multiset(),
{
    let vlen = v.len();
    let mut i = l1;
    let mut j = l1;
    let mut k = l2;
    proof {
        broadcast use vstd::multiset::group_multiset_axioms;
        broadcast use vstd::multiset::lemma_multiset_empty_len;

        assert(buf@.subrange(l1 as int, l1 as int) =~= Seq::<i64>::empty());
        assert(v@.subrange(l1 as int, l1 as int) =~= Seq::<i64>::empty());
        assert(v@.subrange(l2 as int, l2 as int) =~= Seq::<i64>::empty());
        Seq::<i64>::empty().to_multiset_ensures();
        assert(Seq::<i64>::empty().to_multiset() =~= Multiset::<i64>::empty());
        assert(Multiset::<i64>::empty().add(Multiset::<i64>::empty())
            =~= Multiset::<i64>::empty());
    }
    while j <= r1 && k <= r2
        invariant
            l1 <= r1 && l2 == r1 + 1 && l2 <= r2 && r2 < v@.len(),
            v@.len() == vlen,
            buf@.len() == v@.len(),
            v@ == old(v)@,
            l1 <= j <= r1 + 1,
            l2 <= k <= r2 + 1,
            i + l2 == j + k,
            sorted(v@.subrange(l1 as int, r1 + 1)),
            sorted(v@.subrange(l2 as int, r2 + 1)),
            forall|a: int, b: int| l1 <= a <= b < i ==> buf@[a] <= buf@[b],
            forall|t: int| i > l1 && j <= t <= r1 ==> buf@[i - 1] <= #[trigger] v@[t],
            forall|t: int| i > l1 && k <= t <= r2 ==> buf@[i - 1] <= #[trigger] v@[t],
            buf@.subrange(l1 as int, i as int).to_multiset() == v@.subrange(
                l1 as int,
                j as int,
            ).to_multiset().add(v@.subrange(l2 as int, k as int).to_multiset()),
        decreases (r1 + r2 + 2 - j - k),
    {
        let ghost pre = buf@;
        if v[j] < v[k] {
            let x = v[j];
            buf[i] = x;
            proof {
                assert(v@.subrange(l1 as int, j + 1) =~= v@.subrange(l1 as int, j as int).push(
                    v@[j as int],
                ));
                v@.subrange(l1 as int, j as int).to_multiset_ensures();
                assert(buf@.subrange(l1 as int, i + 1) =~= pre.subrange(
                    l1 as int,
                    i as int,
                ).push(x));
                pre.subrange(l1 as int, i as int).to_multiset_ensures();
                assert(buf@.subrange(l1 as int, i + 1).to_multiset() =~= v@.subrange(
                    l1 as int,
                    j + 1,
                ).to_multiset().add(v@.subrange(l2 as int, k as int).to_multiset()));
                assert(v@[j as int] == v@.subrange(l1 as int, r1 + 1)[j - l1]);
                assert forall|t: int| j + 1 <= t <= r1 implies x <= v@[t] by {
                    assert(v@[t] == v@.subrange(l1 as int, r1 + 1)[t - l1]);
                }
                assert forall|t: int| k <= t <= r2 implies x <= v@[t] by {
                    assert(v@[k as int] == v@.subrange(l2 as int, r2 + 1)[k - l2]);
                    assert(v@[t] == v@.subrange(l2 as int, r2 + 1)[t - l2]);
                }
            }
            j += 1;
        } else {
            let x = v[k];
            buf[i] = x;
            proof {
                assert(v@.subrange(l2 as int, k + 1) =~= v@.subrange(l2 as int, k as int).push(
                    v@[k as int],
                ));
                v@.subrange(l2 as int, k as int).to_multiset_ensures();
                assert(buf@.subrange(l1 as int, i + 1) =~= pre.subrange(
                    l1 as int,
                    i as int,
                ).push(x));
                pre.subrange(l1 as int, i as int).to_multiset_ensures();
                assert(buf@.subrange(l1 as int, i + 1).to_multiset() =~= v@.subrange(
                    l1 as int,
                    j as int,
                ).to_multiset().add(v@.subrange(l2 as int, k + 1).to_multiset()));
                assert(v@[k as int] == v@.subrange(l2 as int, r2 + 1)[k - l2]);
                assert forall|t: int| k + 1 <= t <= r2 implies x <= v@[t] by {
                    assert(v@[t] == v@.subrange(l2 as int, r2 + 1)[t - l2]);
                }
                assert forall|t: int| j <= t <= r1 implies x <= v@[t] by {
                    assert(v@[j as int] == v@.subrange(l1 as int, r1 + 1)[j - l1]);
                    assert(v@[t] == v@.subrange(l1 as int, r1 + 1)[t - l1]);
                }
            }
            k += 1;
        }
        i += 1;
    }
    while j <= r1
        invariant
            l1 <= r1 && l2 == r1 + 1 && l2 <= r2 && r2 < v@.len(),
            v@.len() == vlen,
            buf@.len() == v@.len(),
            v@ == old(v)@,
            l1 <= j <= r1 + 1,
            l2 <= k <= r2 + 1,
            j <= r1 ==> k == r2 + 1,
            i + l2 == j + k,
            sorted(v@.subrange(l1 as int, r1 + 1)),
            forall|a: int, b: int| l1 <= a <= b < i ==> buf@[a] <= buf@[b],
            forall|t: int| i > l1 && j <= t <= r1 ==> buf@[i - 1] <= #[trigger] v@[t],
            forall|t: int| i > l1 && k <= t <= r2 ==> buf@[i - 1] <= #[trigger] v@[t],
            buf@.subrange(l1 as int, i as int).to_multiset() == v@.subrange(
                l1 as int,
                j as int,
            ).to_multiset().add(v@.subrange(l2 as int, k as int).to_multiset()),
        decreases r1 + 1 - j,
    {
        let ghost pre = buf@;
        let x = v[j];
        buf[i] = x;
        proof {
            assert(v@.subrange(l1 as int, j + 1) =~= v@.subrange(l1 as int, j as int).push(
                v@[j as int],
            ));
            v@.subrange(l1 as int, j as int).to_multiset_ensures();
            assert(buf@.subrange(l1 as int, i + 1) =~= pre.subrange(l1 as int, i as int).push(x));
            pre.subrange(l1 as int, i as int).to_multiset_ensures();
            assert(buf@.subrange(l1 as int, i + 1).to_multiset() =~= v@.subrange(
                l1 as int,
                j + 1,
            ).to_multiset().add(v@.subrange(l2 as int, k as int).to_multiset()));
            assert(v@[j as int] == v@.subrange(l1 as int, r1 + 1)[j - l1]);
            assert forall|t: int| j + 1 <= t <= r1 implies x <= v@[t] by {
                assert(v@[t] == v@.subrange(l1 as int, r1 + 1)[t - l1]);
            }
        }
        i += 1;
        j += 1;
    }
    while k <= r2
        invariant
            l1 <= r1 && l2 == r1 + 1 && l2 <= r2 && r2 < v@.len(),
            v@.len() == vlen,
            buf@.len() == v@.len(),
            v@ == old(v)@,
            j == r1 + 1 || k == r2 + 1,
            j <= r1 + 1,
            l2 <= k <= r2 + 1,
            i + l2 == j + k,
            sorted(v@.subrange(l2 as int, r2 + 1)),
            forall|a: int, b: int| l1 <= a <= b < i ==> buf@[a] <= buf@[b],
            forall|t: int| i > l1 && k <= t <= r2 ==> buf@[i - 1] <= #[trigger] v@[t],
            forall|t: int| i > l1 && j <= t <= r1 ==> buf@[i - 1] <= #[trigger] v@[t],
            buf@.subrange(l1 as int, i as int).to_multiset() == v@.subrange(
                l1 as int,
                j as int,
            ).to_multiset().add(v@.subrange(l2 as int, k as int).to_multiset()),
        decreases r2 + 1 - k,
    {
        let ghost pre = buf@;
        let x = v[k];
        buf[i] = x;
        proof {
            assert(v@.subrange(l2 as int, k + 1) =~= v@.subrange(l2 as int, k as int).push(
                v@[k as int],
            ));
            v@.subrange(l2 as int, k as int).to_multiset_ensures();
            assert(buf@.subrange(l1 as int, i + 1) =~= pre.subrange(l1 as int, i as int).push(x));
            pre.subrange(l1 as int, i as int).to_multiset_ensures();
            assert(buf@.subrange(l1 as int, i + 1).to_multiset() =~= v@.subrange(
                l1 as int,
                j as int,
            ).to_multiset().add(v@.subrange(l2 as int, k + 1).to_multiset()));
            assert(v@[k as int] == v@.subrange(l2 as int, r2 + 1)[k - l2]);
            assert forall|t: int| k + 1 <= t <= r2 implies x <= v@[t] by {
                assert(v@[t] == v@.subrange(l2 as int, r2 + 1)[t - l2]);
            }
        }
        i += 1;
        k += 1;
    }
    proof {
        assert(i == r2 + 1);
        assert(j == r1 + 1 && k == r2 + 1);
        assert(v@.subrange(l1 as int, r2 + 1) =~= v@.subrange(l1 as int, l2 as int) + v@.subrange(
            l2 as int,
            r2 + 1,
        ));
        vstd::seq_lib::lemma_multiset_commutative(
            v@.subrange(l1 as int, l2 as int),
            v@.subrange(l2 as int, r2 + 1),
        );
    }
    // Copy the merged run back.
    let ghost merged = buf@;
    let mut t = l1;
    while t <= r2
        invariant
            l1 <= t <= r2 + 1,
            r2 < v@.len(),
            v@.len() == vlen,
            buf@ == merged,
            buf@.len() == v@.len(),
            forall|s: int| (0 <= s < l1 || r2 < s < v@.len()) ==> v@[s] == old(v)@[s],
            forall|s: int| l1 <= s < t ==> v@[s] == buf@[s],
            v@.len() == old(v)@.len(),
        decreases r2 + 1 - t,
    {
        let x = buf[t];
        v[t] = x;
        t += 1;
    }
    proof {
        assert(v@.subrange(l1 as int, r2 + 1) =~= merged.subrange(l1 as int, r2 + 1));
    }
}

/// Sort `v[left..=right]` by recursive halving and merging.
pub fn mergesort(v: &mut Vec<i64>, left: usize, right: usize, buf: &mut Vec<i64>)
    requires
        right < old(v)@.len(),
        old(buf)@.len() == old(v)@.len(),
    ensures
        final(v)@.len() == old(v)@.len(),
        final(buf)@.len() == old(buf)@.len(),
        forall|t: int| (0 <= t < left || right < t < old(v)@.len())
            ==> final(v)@[t] == old(v)@[t],
        left <= right ==> sorted(final(v)@.subrange(left as int, right + 1)),
        left <= right ==> final(v)@.subrange(left as int, right + 1).to_multiset()
            == old(v)@.subrange(left as int, right + 1).to_multiset(),
        left > right ==> final(v)@ == old(v)@,
    decreases right + 1 - left,
{
    if left >= right {
        return;
    }
    let mid = left + (right - left) / 2;
    let ghost v0 = v@;
    mergesort(v, left, mid, buf);
    let ghost v1 = v@;
    mergesort(v, mid + 1, right, buf);
    let ghost v2 = v@;
    proof {
        assert(v2.subrange(left as int, mid + 1) =~= v1.subrange(left as int, mid + 1));
        assert(v1.subrange(mid + 1, right + 1) =~= v0.subrange(mid + 1, right + 1));
    }
    merge(v, left, mid, mid + 1, right, buf);
    proof {
        let fin = v@;
        assert(v2.subrange(left as int, right + 1) =~= v2.subrange(left as int, mid + 1)
            + v2.subrange(mid + 1, right + 1));
        assert(v0.subrange(left as int, right + 1) =~= v0.subrange(left as int, mid + 1)
            + v0.subrange(mid + 1, right + 1));
        vstd::seq_lib::lemma_multiset_commutative(
            v2.subrange(left as int, mid + 1),
            v2.subrange(mid + 1, right + 1),
        );
        vstd::seq_lib::lemma_multiset_commutative(
            v0.subrange(left as int, mid + 1),
            v0.subrange(mid + 1, right + 1),
        );
        assert forall|t: int| (0 <= t < left || right < t < old(v)@.len()) implies fin[t]
            == old(v)@[t] by {
            assert(fin[t] == v2[t]);
            assert(v2[t] == v1[t]);
            assert(v1[t] == v0[t]);
        }
    }
}

impl Sorter for Mergesort {
    fn sort(&self, v: &mut Vec<i64>) {
        let n = v.len();
        if n == 0 {
            return;
        }
        let first = v[0];
        let mut buf: Vec<i64> = vec![first; n];
        mergesort(v, 0, n - 1, &mut buf);
        proof {
            if n > 1 {
                assert(v@.subrange(0, n as int) =~= v@);
                assert(old(v)@.subrange(0, n as int) =~= old(v)@);
            }
        }
    }
}

} // verus!
