//! A hash map with separate chaining: a vector of buckets, each a vector of
//! key-value pairs, doubling in size when three quarters full.
//!
//! Keys are types that can say which bytes they hash as: the map's contracts
//! speak of a key only through that byte sequence, so two keys are the same
//! entry exactly when their bytes agree.

use vstd::prelude::*;

verus! {

use std::collections::hash_map::DefaultHasher;
use core::hash::Hasher;
use vstd::std_specs::hash::DefaultHasherAdditionalSpecFns;

/// A key of the hash map: a value with an abstract byte string that both the
/// hasher and the equality test go by.
pub trait MapKey: Sized {
    /// The bytes this key stands for.
    spec fn abs(&self) -> Seq<u8>;

    /// Write the key's bytes into the hasher.
    fn feed(&self, h: &mut DefaultHasher)
        ensures
            final(h)@ == old(h)@.push(self.abs()),
    ;

    /// Whether two keys stand for the same bytes.
    fn key_eq(&self, other: &Self) -> (r: bool)
        ensures
            r == (self.abs() == other.abs()),
    ;
}

impl MapKey for String {
    open spec fn abs(&self) -> Seq<u8> {
        vstd::utf8::encode_utf8(self@)
    }

    fn feed(&self, h: &mut DefaultHasher)
        ensures
            final(h)@ == old(h)@.push(self.abs()),
    {
        h.write(self.as_str().as_bytes());
    }

    fn key_eq(&self, other: &Self) -> (r: bool)
        ensures
            r == (self.abs() == other.abs()),
    {
        let r = self.eq(other);
        proof {
            if self@ == other@ {
                assert(self.abs() =~= other.abs());
            } else {
                assert(self.abs() != other.abs()) by {
                    if self.abs() == other.abs() {
                        vstd::utf8::encode_utf8_decode_utf8(self@);
                        vstd::utf8::encode_utf8_decode_utf8(other@);
                        assert(vstd::utf8::decode_utf8(vstd::utf8::encode_utf8(self@))
                            == vstd::utf8::decode_utf8(vstd::utf8::encode_utf8(other@)));
                    }
                }
            }
        }
        r
    }
}

/// The two's-complement bit pattern of an `i32`, as an unsigned number.
pub open spec fn u32_of(i: i32) -> u32 {
    (if i >= 0 {
        i as int
    } else {
        i as int + 0x1_0000_0000
    }) as u32
}

impl MapKey for i32 {
    open spec fn abs(&self) -> Seq<u8> {
        Seq::new(4, |k: int| ((u32_of(*self) >> (8 * k) as u32) & 0xff) as u8)
    }

    fn feed(&self, h: &mut DefaultHasher)
        ensures
            final(h)@ == old(h)@.push(self.abs()),
    {
        let u: u32 = if *self >= 0 {
            *self as u32
        } else {
            ((*self as i64) + 0x1_0000_0000i64) as u32
        };
        proof {
            assert(u == u32_of(*self));
            assert(u >> 0u32 == u) by (bit_vector);
        }
        let mut bytes: Vec<u8> = Vec::new();
        bytes.push((u & 0xff) as u8);
        bytes.push(((u >> 8u32) & 0xff) as u8);
        bytes.push(((u >> 16u32) & 0xff) as u8);
        bytes.push(((u >> 24u32) & 0xff) as u8);
        proof {
            assert(bytes@ =~= self.abs());
        }
        h.write(bytes.as_slice());
    }

    fn key_eq(&self, other: &Self) -> (r: bool)
        ensures
            r == (self.abs() == other.abs()),
    {
        let r = *self == *other;
        proof {
            if *self == *other {
                assert(self.abs() =~= other.abs());
            } else {
                let a = u32_of(*self);
                let b = u32_of(*other);
                assert(a != b) by {
                    assert(*self as int != *other as int);
                }
                assert(self.abs() != other.abs()) by {
                    if self.abs() == other.abs() {
                        assert(a >> 0u32 == a) by (bit_vector);
                        assert(b >> 0u32 == b) by (bit_vector);
                        assert(self.abs()[0] == other.abs()[0]);
                        assert(self.abs()[1] == other.abs()[1]);
                        assert(self.abs()[2] == other.abs()[2]);
                        assert(self.abs()[3] == other.abs()[3]);
                        assert(!((a & 0xff) as u8 == (b & 0xff) as u8 && ((a >> 8) & 0xff) as u8
                            == ((b >> 8) & 0xff) as u8 && ((a >> 16) & 0xff) as u8 == ((b >> 16)
                            & 0xff) as u8 && ((a >> 24) & 0xff) as u8 == ((b >> 24)
                            & 0xff) as u8) || a == b) by (bit_vector);
                    }
                }
            }
        }
        r
    }
}

/// The hash of a key's bytes, as the default hasher computes it from one
/// write.
pub open spec fn hash_of(a: Seq<u8>) -> u64 {
    DefaultHasher::spec_finish(seq![a])
}

/// The bucket the bytes `a` select among `n` buckets.
pub open spec fn bucket_index(a: Seq<u8>, n: int) -> int {
    hash_of(a) as int % n
}

/// A bucket holds items whose bytes select it.
pub open spec fn placed<K: MapKey, V>(bs: Seq<Seq<(K, V)>>) -> bool {
    forall|b: int, i: int| 0 <= b < bs.len() && 0 <= i < bs[b].len()
        ==> bucket_index((#[trigger] bs[b][i]).0.abs(), bs.len() as int) == b
}

/// No two items of one bucket share their key bytes.
pub open spec fn distinct<K: MapKey, V>(bs: Seq<Seq<(K, V)>>) -> bool {
    forall|b: int, i: int, j: int| 0 <= b < bs.len() && 0 <= i < j < bs[b].len()
        ==> (#[trigger] bs[b][i]).0.abs() != (#[trigger] bs[b][j]).0.abs()
}

/// Whether the buckets hold an item with the key bytes `a`.
pub open spec fn has_in<K: MapKey, V>(bs: Seq<Seq<(K, V)>>, a: Seq<u8>) -> bool {
    exists|b: int, i: int| 0 <= b < bs.len() && 0 <= i < bs[b].len()
        && (#[trigger] bs[b][i]).0.abs() == a
}

/// The value stored under the key bytes `a`, if any.
pub open spec fn get_in<K: MapKey, V>(bs: Seq<Seq<(K, V)>>, a: Seq<u8>) -> Option<V> {
    if has_in(bs, a) {
        let (b, i) = choose|b: int, i: int| 0 <= b < bs.len() && 0 <= i < bs[b].len()
            && (#[trigger] bs[b][i]).0.abs() == a;
        Some(bs[b][i].1)
    } else {
        None
    }
}

/// In a placed, distinct bucket table the witness for a key is unique.
pub proof fn lemma_witness_unique<K: MapKey, V>(
    bs: Seq<Seq<(K, V)>>,
    a: Seq<u8>,
    b1: int,
    i1: int,
    b2: int,
    i2: int,
)
    requires
        placed(bs),
        distinct(bs),
        0 <= b1 < bs.len() && 0 <= i1 < bs[b1].len() && bs[b1][i1].0.abs() == a,
        0 <= b2 < bs.len() && 0 <= i2 < bs[b2].len() && bs[b2][i2].0.abs() == a,
    ensures
        b1 == b2 && i1 == i2,
{
    assert(bucket_index(a, bs.len() as int) == b1);
    assert(bucket_index(a, bs.len() as int) == b2);
    if i1 < i2 {
        assert(bs[b1][i1].0.abs() != bs[b1][i2].0.abs());
    }
    if i2 < i1 {
        assert(bs[b1][i2].0.abs() != bs[b1][i1].0.abs());
    }
}

/// The item at a witness position is the stored value.
pub proof fn lemma_get_at<K: MapKey, V>(bs: Seq<Seq<(K, V)>>, a: Seq<u8>, b: int, i: int)
    requires
        placed(bs),
        distinct(bs),
        0 <= b < bs.len() && 0 <= i < bs[b].len() && bs[b][i].0.abs() == a,
    ensures
        get_in(bs, a) == Some(bs[b][i].1),
{
    assert(has_in(bs, a));
    let (b2, i2) = choose|b2: int, i2: int| 0 <= b2 < bs.len() && 0 <= i2 < bs[b2].len()
        && (#[trigger] bs[b2][i2]).0.abs() == a;
    lemma_witness_unique(bs, a, b, i, b2, i2);
}

/// The number of items over all buckets.
pub open spec fn total_items<K: MapKey, V>(bs: Seq<Seq<(K, V)>>) -> int
    decreases bs.len(),
{
    if bs.len() == 0 {
        0
    } else {
        total_items(bs.drop_last()) + bs.last().len()
    }
}

/// Every bucket contributes at most the total, and the total is the sum.
pub proof fn lemma_total_bounds<K: MapKey, V>(bs: Seq<Seq<(K, V)>>, b: int)
    requires
        0 <= b < bs.len(),
    ensures
        total_items(bs) >= bs[b].len(),
        total_items(bs) >= 0,
    decreases bs.len(),
{
    lemma_total_nonneg(bs);
    if b == bs.len() - 1 {
        lemma_total_nonneg(bs.drop_last());
    } else {
        lemma_total_bounds(bs.drop_last(), b);
        assert(bs.drop_last()[b] == bs[b]);
    }
}

/// The total is never negative.
pub proof fn lemma_total_nonneg<K: MapKey, V>(bs: Seq<Seq<(K, V)>>)
    ensures
        total_items(bs) >= 0,
    decreases bs.len(),
{
    if bs.len() > 0 {
        lemma_total_nonneg(bs.drop_last());
    }
}

/// Replacing one bucket changes the total by the length difference.
pub proof fn lemma_total_update<K: MapKey, V>(
    bs: Seq<Seq<(K, V)>>,
    b: int,
    nb: Seq<(K, V)>,
)
    requires
        0 <= b < bs.len(),
    ensures
        total_items(bs.update(b, nb)) == total_items(bs) - bs[b].len() + nb.len(),
    decreases bs.len(),
{
    let up = bs.update(b, nb);
    if b == bs.len() - 1 {
        assert(up.drop_last() =~= bs.drop_last());
        assert(up.last() == nb);
    } else {
        lemma_total_update(bs.drop_last(), b, nb);
        assert(up.drop_last() =~= bs.drop_last().update(b, nb));
        assert(up.last() == bs.last());
    }
}

/// The bucket table of a vector of vectors.
pub open spec fn table_view<K: MapKey, V>(b: Seq<Vec<(K, V)>>) -> Seq<Seq<(K, V)>> {
    b.map_values(|x: Vec<(K, V)>| x@)
}

/// The bucket among `n` that `key` selects, computed by one write to a fresh
/// default hasher.
fn bucket_for<K: MapKey>(key: &K, n: usize) -> (r: usize)
    requires
        n > 0,
    ensures
        r as int == bucket_index(key.abs(), n as int),
{
    let mut h = DefaultHasher::new();
    key.feed(&mut h);
    let hv = h.finish();
    proof {
        assert(h@ =~= seq![key.abs()]);
    }
    (hv % n as u64) as usize
}

/// A hash map from keys to values, chained in buckets.
pub struct HashMap<K: MapKey, V> {
    buckets: Vec<Vec<(K, V)>>,
    count: usize,
}

impl<K: MapKey, V> HashMap<K, V> {
    /// The bucket table, as a sequence of sequences.
    pub closed spec fn bs(&self) -> Seq<Seq<(K, V)>> {
        self.buckets@.map_values(|b: Vec<(K, V)>| b@)
    }

    /// Whether the map holds an entry whose key has the bytes `a`.
    pub closed spec fn spec_contains(&self, a: Seq<u8>) -> bool {
        has_in(self.bs(), a)
    }

    /// The value stored under the key bytes `a`.
    pub closed spec fn spec_get(&self, a: Seq<u8>) -> Option<V> {
        get_in(self.bs(), a)
    }

    /// The number of entries.
    pub closed spec fn spec_len(&self) -> int {
        self.count as int
    }

    /// The structural soundness of the table: every item in the bucket its
    /// key selects, no key twice, and the count equal to the number of items.
    pub closed spec fn wf(&self) -> bool {
        &&& placed(self.bs())
        &&& distinct(self.bs())
        &&& self.count as int == total_items(self.bs())
    }

    /// The empty map.
    pub fn new() -> (r: Self)
        ensures
            r.wf(),
            r.spec_len() == 0,
            forall|a: Seq<u8>| #[trigger] r.spec_get(a) == None::<V>,
            forall|a: Seq<u8>| !(#[trigger] r.spec_contains(a)),
    {
        let r = Self { buckets: Vec::new(), count: 0 };
        proof {
            assert(r.bs().len() == 0);
            assert(r.bs() =~= Seq::<Seq<(K, V)>>::empty());
        }
        r
    }

    /// The bucket the key would live in, or nothing while no buckets exist.
    fn bucket(&self, key: &K) -> (r: Option<usize>)
        ensures
            r == if self.bs().len() == 0 {
                None::<usize>
            } else {
                Some(bucket_index(key.abs(), self.bs().len() as int) as usize)
            },
    {
        if self.buckets.is_empty() {
            return None;
        }
        let mut h = DefaultHasher::new();
        key.feed(&mut h);
        let hv = h.finish();
        proof {
            assert(h@ =~= seq![key.abs()]);
        }
        Some((hv % self.buckets.len() as u64) as usize)
    }

    /// Read the entry of `key`.
    pub fn get(&self, key: &K) -> (r: Option<&V>)
        requires
            self.wf(),
        ensures
            match r {
                Some(v) => self.spec_get(key.abs()) == Some(*v),
                None => self.spec_get(key.abs()) == None::<V>,
            },
    {
        let bi = match self.bucket(key) {
            Some(bi) => bi,
            None => {
                return None;
            },
        };
        let nb = self.buckets.len();
        proof {
            assert(nb == self.bs().len());
            assert(0 <= bucket_index(key.abs(), self.bs().len() as int) < nb);
            assert(self.bs()[bi as int] == self.buckets@[bi as int]@);
        }
        let items = &self.buckets[bi];
        let n = items.len();
        let mut i: usize = 0;
        while i < n
            invariant
                n == items@.len(),
                i <= n,
                placed(self.bs()),
                distinct(self.bs()),
                items@ == self.bs()[bi as int],
                bi < self.bs().len(),
                bi as int == bucket_index(key.abs(), self.bs().len() as int),
                forall|j: int| 0 <= j < i ==> (#[trigger] items@[j]).0.abs() != key.abs(),
            decreases n - i,
        {
            let pair = &items[i];
            if pair.0.key_eq(key) {
                proof {
                    lemma_get_at(self.bs(), key.abs(), bi as int, i as int);
                }
                return Some(&pair.1);
            }
            i += 1;
        }
        proof {
            assert(!has_in(self.bs(), key.abs())) by {
                if has_in(self.bs(), key.abs()) {
                    let (b2, i2) = choose|b2: int, i2: int| 0 <= b2 < self.bs().len() && 0 <= i2
                        < self.bs()[b2].len() && (#[trigger] self.bs()[b2][i2]).0.abs()
                        == key.abs();
                    assert(bucket_index(key.abs(), self.bs().len() as int) == b2);
                }
            }
        }
        None
    }

    /// Whether `key` has an entry.
    pub fn contains_key(&self, key: &K) -> (r: bool)
        requires
            self.wf(),
        ensures
            r == self.spec_contains(key.abs()),
    {
        let r = self.get(key);
        proof {
            if self.spec_contains(key.abs()) {
                assert(self.spec_get(key.abs()) is Some);
            }
        }
        r.is_some()
    }

    /// The number of entries.
    pub fn len(&self) -> (r: usize)
        ensures
            r == self.spec_len(),
    {
        self.count
    }

    /// Whether the map has no entries.
    pub fn is_empty(&self) -> (r: bool)
        ensures
            r == (self.spec_len() == 0),
    {
        self.count == 0
    }

    /// Spread every entry over a fresh, larger bucket table.
    #[verifier::rlimit(100)]
    fn resize(&mut self)
        requires
            old(self).wf(),
        ensures
            final(self).wf(),
            final(self).bs().len() > 0,
            final(self).spec_len() == old(self).spec_len(),
            forall|a: Seq<u8>| #[trigger] final(self).spec_get(a) == old(self).spec_get(a),
            forall|a: Seq<u8>| #[trigger] final(self).spec_contains(a) == old(
                self,
            ).spec_contains(a),
    {
        let old_len = self.buckets.len();
        let target = if old_len == 0 {
            1
        } else if old_len <= usize::MAX / 2 {
            2 * old_len
        } else {
            old_len
        };
        let mut new_buckets: Vec<Vec<(K, V)>> = Vec::new();
        while new_buckets.len() < target
            invariant
                new_buckets@.len() <= target,
                forall|bb: int| 0 <= bb < new_buckets@.len()
                    ==> (#[trigger] new_buckets@[bb])@.len() == 0,
            decreases target - new_buckets.len(),
        {
            new_buckets.push(Vec::new());
        }
        let ghost old0 = self.bs();
        proof {
            lemma_total_nonneg(old0);
        }
        let mut b: usize = 0;
        proof {
            lemma_total_empty(table_view(new_buckets@));
        }
        while b < old_len
            invariant
                target > 0,
                self.count == old(self).count,
                b <= old_len,
                self.bs().len() == old_len,
                old0.len() == old_len,
                new_buckets@.len() == target,
                placed(old0),
                distinct(old0),
                placed(table_view(new_buckets@)),
                distinct(table_view(new_buckets@)),
                forall|bb: int| 0 <= bb < b ==> (#[trigger] self.bs()[bb]).len() == 0,
                forall|bb: int| b <= bb < old_len ==> #[trigger] self.bs()[bb] == old0[bb],
                forall|a: Seq<u8>| #[trigger] has_in(old0, a) == (has_in(
                    table_view(new_buckets@),
                    a,
                ) || has_in(self.bs(), a)),
                forall|a: Seq<u8>| #[trigger] has_in(table_view(new_buckets@), a)
                    ==> !has_in(self.bs(), a) && get_in(table_view(new_buckets@), a)
                        == get_in(old0, a),
                forall|a: Seq<u8>| #[trigger] has_in(self.bs(), a) ==> get_in(self.bs(), a)
                    == get_in(old0, a),
                total_items(table_view(new_buckets@)) + total_items(self.bs())
                    == self.count as int,
            decreases old_len - b,
        {
            proof {
                assert(self.bs()[b as int].take(self.bs()[b as int].len() as int)
                    =~= self.bs()[b as int]);
            }
            loop
                invariant
                    target > 0,
                    self.count == old(self).count,
                    b < old_len,
                    self.bs().len() == old_len,
                    old0.len() == old_len,
                    new_buckets@.len() == target,
                    placed(old0),
                    distinct(old0),
                    placed(table_view(new_buckets@)),
                    distinct(table_view(new_buckets@)),
                    forall|bb: int| 0 <= bb < b ==> (#[trigger] self.bs()[bb]).len() == 0,
                    forall|bb: int| b < bb < old_len ==> #[trigger] self.bs()[bb] == old0[bb],
                    self.bs()[b as int].len() <= old0[b as int].len(),
                    self.bs()[b as int] == old0[b as int].take(self.bs()[b as int].len() as int),
                    forall|a: Seq<u8>| #[trigger] has_in(old0, a) == (has_in(
                        table_view(new_buckets@),
                        a,
                    ) || has_in(self.bs(), a)),
                    forall|a: Seq<u8>| #[trigger] has_in(table_view(new_buckets@), a)
                        ==> !has_in(self.bs(), a) && get_in(table_view(new_buckets@), a)
                            == get_in(old0, a),
                    forall|a: Seq<u8>| #[trigger] has_in(self.bs(), a) ==> get_in(
                        self.bs(),
                        a,
                    ) == get_in(old0, a),
                    total_items(table_view(new_buckets@)) + total_items(self.bs())
                        == self.count as int,
                ensures
                    self.bs()[b as int].len() == 0,
                decreases self.bs()[b as int].len(),
            {
                let ghost obs = self.bs();
                let ghost nbs = table_view(new_buckets@);
                let slot = vstd::std_specs::vec::vec_index_mut(&mut self.buckets, b);
                let popped = slot.pop();
                let pair = match popped {
                    Some(pair) => pair,
                    None => {
                        proof {
                            assert(self.bs() =~= obs);
                        }
                        break;
                    },
                };
                proof {
                    assert(self.bs() =~= obs.update(b as int, obs[b as int].drop_last()));
                }
                let idx = bucket_for(&pair.0, target);
                let ghost mid = self.bs();
                let ghost pa = pair.0.abs();
                proof {
                    let k = obs[b as int].len() - 1;
                    assert(obs[b as int][k] == old0[b as int][k]);
                    assert(has_in(obs, pa)) by {
                        assert(obs[b as int][k].0.abs() == pa);
                    }
                    assert(has_in(old0, pa)) by {
                        assert(old0[b as int][k].0.abs() == pa);
                    }
                    lemma_get_at(old0, pa, b as int, k);
                    assert(!has_in(nbs, pa));
                    assert(!has_in(mid, pa)) by {
                        if has_in(mid, pa) {
                            let (b2, i2) = choose|b2: int, i2: int| 0 <= b2 < mid.len() && 0
                                <= i2 < mid[b2].len() && (#[trigger] mid[b2][i2]).0.abs() == pa;
                            if b2 == b as int {
                                lemma_witness_unique(old0, pa, b as int, k, b2, i2);
                            } else {
                                assert(mid[b2] == obs[b2]);
                                assert(has_in(obs, pa));
                                lemma_witness_unique(
                                    old0,
                                    pa,
                                    b as int,
                                    k,
                                    b2,
                                    if b2 < b as int { i2 } else { i2 },
                                );
                            }
                        }
                    }
                    lemma_total_update(obs, b as int, obs[b as int].drop_last());
                    lemma_total_bounds(obs, b as int);
                }
                let ghost gpair = pair;
                let nslot = vstd::std_specs::vec::vec_index_mut(&mut new_buckets, idx);
                nslot.push(pair);
                proof {
                    let nbs2 = table_view(new_buckets@);
                    let k = obs[b as int].len() - 1;
                    let w = nbs[idx as int].len() as int;
                    assert(nbs2 =~= nbs.update(idx as int, nbs[idx as int].push(gpair)));
                    assert(obs[b as int] == old0[b as int].take(obs[b as int].len() as int));
                    assert(gpair == obs[b as int][k]);
                    assert(obs[b as int][k] == old0[b as int][k]);
                    assert(gpair == old0[b as int][k]);
                    assert(mid[b as int] =~= old0[b as int].take(k));
                    // The moved item is placed and fresh in its new bucket.
                    assert(placed(nbs2)) by {
                        assert forall|bb: int, ii: int| 0 <= bb < nbs2.len() && 0 <= ii
                            < nbs2[bb].len() implies bucket_index(
                            (#[trigger] nbs2[bb][ii]).0.abs(),
                            nbs2.len() as int,
                        ) == bb by {
                            if !(bb == idx as int && ii == w) {
                                assert(nbs2[bb][ii] == nbs[bb][ii]);
                            }
                        }
                    }
                    assert(distinct(nbs2)) by {
                        assert forall|bb: int, ii: int, jj: int| 0 <= bb < nbs2.len() && 0 <= ii
                            < jj < nbs2[bb].len() implies (#[trigger] nbs2[bb][ii]).0.abs()
                            != (#[trigger] nbs2[bb][jj]).0.abs() by {
                            if bb == idx as int && jj == w {
                                assert(nbs2[bb][ii] == nbs[bb][ii]);
                                if nbs[bb][ii].0.abs() == pa {
                                    assert(has_in(nbs, pa));
                                }
                            } else {
                                assert(nbs2[bb][ii] == nbs[bb][ii]);
                                assert(nbs2[bb][jj] == nbs[bb][jj]);
                            }
                        }
                    }
                    // Transfer facts.
                    assert forall|a: Seq<u8>| #[trigger] has_in(old0, a) == (has_in(nbs2, a)
                        || has_in(mid, a)) by {
                        if a == pa {
                            assert(nbs2[idx as int][w].0.abs() == pa);
                            assert(has_in(nbs2, pa));
                        } else {
                            assert(has_in(nbs2, a) == has_in(nbs, a)) by {
                                if has_in(nbs2, a) {
                                    let (b2, i2) = choose|b2: int, i2: int| 0 <= b2
                                        < nbs2.len() && 0 <= i2 < nbs2[b2].len() && (
                                    #[trigger] nbs2[b2][i2]).0.abs() == a;
                                    assert(!(b2 == idx as int && i2 == w));
                                    assert(nbs[b2][i2].0.abs() == a);
                                }
                                if has_in(nbs, a) {
                                    let (b2, i2) = choose|b2: int, i2: int| 0 <= b2
                                        < nbs.len() && 0 <= i2 < nbs[b2].len() && (
                                    #[trigger] nbs[b2][i2]).0.abs() == a;
                                    assert(nbs2[b2][i2].0.abs() == a);
                                }
                            }
                            assert(has_in(mid, a) == has_in(obs, a)) by {
                                if has_in(mid, a) {
                                    let (b2, i2) = choose|b2: int, i2: int| 0 <= b2
                                        < mid.len() && 0 <= i2 < mid[b2].len() && (
                                    #[trigger] mid[b2][i2]).0.abs() == a;
                                    assert(obs[b2][i2].0.abs() == a);
                                }
                                if has_in(obs, a) {
                                    let (b2, i2) = choose|b2: int, i2: int| 0 <= b2
                                        < obs.len() && 0 <= i2 < obs[b2].len() && (
                                    #[trigger] obs[b2][i2]).0.abs() == a;
                                    assert(!(b2 == b as int && i2 == k));
                                    assert(mid[b2][i2].0.abs() == a);
                                }
                            }
                        }
                    }
                    assert forall|a: Seq<u8>| #[trigger] has_in(nbs2, a) implies !has_in(mid, a)
                        && get_in(nbs2, a) == get_in(old0, a) by {
                        if a == pa {
                            lemma_get_at(nbs2, pa, idx as int, w);
                        } else {
                            let (b2, i2) = choose|b2: int, i2: int| 0 <= b2 < nbs2.len() && 0
                                <= i2 < nbs2[b2].len() && (#[trigger] nbs2[b2][i2]).0.abs()
                                == a;
                            assert(!(b2 == idx as int && i2 == w));
                            assert(nbs[b2][i2].0.abs() == a);
                            assert(has_in(nbs, a));
                            lemma_get_at(nbs2, a, b2, i2);
                            lemma_get_at(nbs, a, b2, i2);
                            assert(!has_in(obs, a));
                            assert(!has_in(mid, a)) by {
                                if has_in(mid, a) {
                                    let (b3, i3) = choose|b3: int, i3: int| 0 <= b3
                                        < mid.len() && 0 <= i3 < mid[b3].len() && (
                                    #[trigger] mid[b3][i3]).0.abs() == a;
                                    assert(obs[b3][i3].0.abs() == a);
                                }
                            }
                        }
                    }
                    assert forall|a: Seq<u8>| #[trigger] has_in(mid, a) implies get_in(mid, a)
                        == get_in(old0, a) by {
                        let (b2, i2) = choose|b2: int, i2: int| 0 <= b2 < mid.len() && 0 <= i2
                            < mid[b2].len() && (#[trigger] mid[b2][i2]).0.abs() == a;
                        assert(obs[b2][i2].0.abs() == a);
                        assert(has_in(obs, a));
                        assert(placed(mid) && distinct(mid)) by {
                            assert forall|b3: int, i3: int| 0 <= b3 < mid.len() && 0 <= i3
                                < mid[b3].len() implies bucket_index(
                                (#[trigger] mid[b3][i3]).0.abs(),
                                mid.len() as int,
                            ) == b3 by {
                                assert(mid[b3][i3] == obs[b3][i3]);
                            }
                            assert forall|b3: int, i3: int, j3: int| 0 <= b3 < mid.len() && 0
                                <= i3 < j3 < mid[b3].len() implies (
                            #[trigger] mid[b3][i3]).0.abs() != (#[trigger] mid[b3][j3]).0.abs()
                                by {
                                assert(mid[b3][i3] == obs[b3][i3]);
                                assert(mid[b3][j3] == obs[b3][j3]);
                            }
                        }
                        lemma_get_at(mid, a, b2, i2);
                        lemma_get_at(obs, a, b2, i2);
                    }
                    lemma_total_update(nbs, idx as int, nbs[idx as int].push(gpair));
                }
            }
            b += 1;
        }
        let ghost nbs_final = table_view(new_buckets@);
        let ghost obs_final = self.bs();
        proof {
            assert(forall|a: Seq<u8>| !(#[trigger] has_in(obs_final, a))) by {
                assert forall|a: Seq<u8>| !(#[trigger] has_in(obs_final, a)) by {
                    if has_in(obs_final, a) {
                        let (b2, i2) = choose|b2: int, i2: int| 0 <= b2 < obs_final.len() && 0
                            <= i2 < obs_final[b2].len() && (#[trigger] obs_final[b2][i2]).0
                            .abs() == a;
                        assert(obs_final[b2].len() == 0);
                    }
                }
            }
            lemma_total_empty(obs_final);
        }
        self.buckets = new_buckets;
        proof {
            assert(self.bs() == nbs_final);
            assert forall|a: Seq<u8>| #[trigger] get_in(nbs_final, a) == get_in(old0, a) by {
                if has_in(old0, a) {
                    assert(has_in(nbs_final, a));
                } else {
                    assert(!has_in(nbs_final, a));
                }
            }
        }
    }
}

impl<K: MapKey, V> HashMap<K, V> {
    /// Insert `value` under `key`, handing back the value the key held
    /// before, if any.
    #[verifier::rlimit(100)]
    pub fn insert(&mut self, key: K, value: V) -> (r: Option<V>)
        requires
            old(self).wf(),
            old(self).spec_len() < usize::MAX,
        ensures
            final(self).wf(),
            r == old(self).spec_get(key.abs()),
            final(self).spec_get(key.abs()) == Some(value),
            final(self).spec_contains(key.abs()),
            forall|a: Seq<u8>| a != key.abs() ==> #[trigger] final(self).spec_get(a) == old(
                self,
            ).spec_get(a),
            forall|a: Seq<u8>| a != key.abs() ==> #[trigger] final(self).spec_contains(a)
                == old(self).spec_contains(a),
            final(self).spec_len() == old(self).spec_len() + (if old(self).spec_contains(
                key.abs(),
            ) {
                0int
            } else {
                1int
            }),
    {
        let nb0 = self.buckets.len();
        let threshold = if nb0 <= usize::MAX / 3 {
            3 * nb0 / 4
        } else {
            usize::MAX
        };
        if nb0 == 0 || self.count >= threshold {
            self.resize();
        }
        let ghost pre = *self;
        proof {
            assert forall|a: Seq<u8>|
                #![trigger pre.spec_get(a)]
                #![trigger pre.spec_contains(a)]
                pre.spec_get(a) == old(self).spec_get(a)
                && pre.spec_contains(a) == old(self).spec_contains(a) by {
                assert(self.spec_get(a) == old(self).spec_get(a));
                assert(self.spec_contains(a) == old(self).spec_contains(a));
            }
            assert(pre.spec_len() == old(self).spec_len());
            assert(pre.wf());
        }
        let bi = bucket_for(&key, self.buckets.len());
        proof {
            assert(pre.bs()[bi as int] == pre.buckets@[bi as int]@);
        }
        let n = self.buckets[bi].len();
        let ghost pa = key.abs();
        let mut i: usize = 0;
        while i < n
            invariant
                pre == *self,
                pre.wf(),
                pa == key.abs(),
                bi < pre.bs().len(),
                bi as int == bucket_index(pa, pre.bs().len() as int),
                n == pre.bs()[bi as int].len(),
                i <= n,
                forall|j: int| 0 <= j < i ==> (#[trigger] pre.bs()[bi as int][j]).0.abs() != pa,
                forall|a: Seq<u8>|
                    #![trigger pre.spec_get(a)]
                    #![trigger pre.spec_contains(a)]
                    pre.spec_get(a) == old(self).spec_get(a) && pre.spec_contains(a) == old(
                        self,
                    ).spec_contains(a),
                pre.spec_len() == old(self).spec_len(),
                pre.spec_len() < usize::MAX,
            decreases n - i,
        {
            proof {
                assert(pre.bs()[bi as int] == self.buckets@[bi as int]@);
            }
            let hit = self.buckets[bi][i].0.key_eq(&key);
            if hit {
                let slot = vstd::std_specs::vec::vec_index_mut(&mut self.buckets, bi);
                let pair = slot.remove(i);
                slot.insert(i, (pair.0, value));
                proof {
                    let bs2 = self.bs();
                    assert(bs2 =~= pre.bs().update(bi as int, bs2[bi as int]));
                    assert(bs2[bi as int].len() == pre.bs()[bi as int].len());
                    assert forall|j: int| 0 <= j < bs2[bi as int].len() implies (
                    #[trigger] bs2[bi as int][j]).0.abs() == pre.bs()[bi as int][j].0.abs() by {
                        if j != i {
                            assert(bs2[bi as int][j] == pre.bs()[bi as int][j]);
                        }
                    }
                    assert(placed(bs2)) by {
                        assert forall|b2: int, i2: int| 0 <= b2 < bs2.len() && 0 <= i2
                            < bs2[b2].len() implies bucket_index(
                            (#[trigger] bs2[b2][i2]).0.abs(),
                            bs2.len() as int,
                        ) == b2 by {
                            if b2 != bi as int {
                                assert(bs2[b2][i2] == pre.bs()[b2][i2]);
                            } else {
                                assert(bs2[b2][i2].0.abs() == pre.bs()[b2][i2].0.abs());
                            }
                        }
                    }
                    assert(distinct(bs2)) by {
                        assert forall|b2: int, i2: int, j2: int| 0 <= b2 < bs2.len() && 0 <= i2
                            < j2 < bs2[b2].len() implies (#[trigger] bs2[b2][i2]).0.abs() != (
                        #[trigger] bs2[b2][j2]).0.abs() by {
                            if b2 != bi as int {
                                assert(bs2[b2][i2] == pre.bs()[b2][i2]);
                                assert(bs2[b2][j2] == pre.bs()[b2][j2]);
                            } else {
                                assert(bs2[b2][i2].0.abs() == pre.bs()[b2][i2].0.abs());
                                assert(bs2[b2][j2].0.abs() == pre.bs()[b2][j2].0.abs());
                            }
                        }
                    }
                    lemma_get_at(pre.bs(), pa, bi as int, i as int);
                    lemma_get_at(bs2, pa, bi as int, i as int);
                    assert(bs2[bi as int][i as int].1 == value);
                    assert forall|a: Seq<u8>|
                        #![trigger self.spec_get(a)]
                        #![trigger self.spec_contains(a)]
                        a != pa implies self.spec_get(a) == pre.spec_get(a)
                        && self.spec_contains(a) == pre.spec_contains(a) by {
                        if has_in(bs2, a) {
                            let (b2, i2) = choose|b2: int, i2: int| 0 <= b2 < bs2.len() && 0
                                <= i2 < bs2[b2].len() && (#[trigger] bs2[b2][i2]).0.abs() == a;
                            assert(pre.bs()[b2][i2].0.abs() == a) by {
                                if b2 == bi as int && i2 == i {
                                    assert(bs2[b2][i2].0.abs() == pa);
                                }
                                if b2 == bi as int {
                                    assert(bs2[b2][i2].0.abs() == pre.bs()[b2][i2].0.abs());
                                } else {
                                    assert(bs2[b2][i2] == pre.bs()[b2][i2]);
                                }
                            }
                            lemma_get_at(bs2, a, b2, i2);
                            lemma_get_at(pre.bs(), a, b2, i2);
                        }
                        if has_in(pre.bs(), a) {
                            let (b2, i2) = choose|b2: int, i2: int| 0 <= b2 < pre.bs().len()
                                && 0 <= i2 < pre.bs()[b2].len() && (
                            #[trigger] pre.bs()[b2][i2]).0.abs() == a;
                            assert(bs2[b2][i2].0.abs() == a) by {
                                if b2 == bi as int {
                                    assert(bs2[b2][i2].0.abs() == pre.bs()[b2][i2].0.abs());
                                } else {
                                    assert(bs2[b2][i2] == pre.bs()[b2][i2]);
                                }
                            }
                            lemma_get_at(bs2, a, b2, i2);
                            lemma_get_at(pre.bs(), a, b2, i2);
                        }
                    }
                    lemma_total_update(pre.bs(), bi as int, bs2[bi as int]);
                    assert(self.spec_get(pa) == Some(value));
                    assert(self.spec_contains(pa));
                    assert(pre.spec_contains(pa));
                    assert(pre.spec_get(pa) == Some(pair.1));
                    assert forall|a: Seq<u8>| a != pa implies #[trigger] self.spec_get(a)
                        == old(self).spec_get(a) by {
                        assert(self.spec_get(a) == pre.spec_get(a));
                        assert(pre.spec_get(a) == old(self).spec_get(a));
                    }
                    assert forall|a: Seq<u8>| a != pa implies #[trigger] self.spec_contains(a)
                        == old(self).spec_contains(a) by {
                        assert(self.spec_get(a) == pre.spec_get(a));
                        assert(self.spec_contains(a) == pre.spec_contains(a));
                        assert(pre.spec_contains(a) == old(self).spec_contains(a));
                    }
                    assert(old(self).spec_get(pa) == pre.spec_get(pa));
                    assert(old(self).spec_contains(pa) == pre.spec_contains(pa));
                }
                return Some(pair.1);
            }
            i += 1;
        }
        // The key is new: append it to its bucket.
        proof {
            assert(!has_in(pre.bs(), pa)) by {
                if has_in(pre.bs(), pa) {
                    let (b2, i2) = choose|b2: int, i2: int| 0 <= b2 < pre.bs().len() && 0 <= i2
                        < pre.bs()[b2].len() && (#[trigger] pre.bs()[b2][i2]).0.abs() == pa;
                    assert(bucket_index(pa, pre.bs().len() as int) == b2);
                }
            }
            lemma_total_bounds(pre.bs(), bi as int);
        }
        let slot = vstd::std_specs::vec::vec_index_mut(&mut self.buckets, bi);
        slot.push((key, value));
        self.count = self.count + 1;
        proof {
            let bs2 = self.bs();
            let w = pre.bs()[bi as int].len() as int;
            assert(bs2 =~= pre.bs().update(bi as int, pre.bs()[bi as int].push((key, value))));
            assert(placed(bs2)) by {
                assert forall|b2: int, i2: int| 0 <= b2 < bs2.len() && 0 <= i2
                    < bs2[b2].len() implies bucket_index(
                    (#[trigger] bs2[b2][i2]).0.abs(),
                    bs2.len() as int,
                ) == b2 by {
                    if !(b2 == bi as int && i2 == w) {
                        assert(bs2[b2][i2] == pre.bs()[b2][i2]);
                    }
                }
            }
            assert(distinct(bs2)) by {
                assert forall|b2: int, i2: int, j2: int| 0 <= b2 < bs2.len() && 0 <= i2 < j2
                    < bs2[b2].len() implies (#[trigger] bs2[b2][i2]).0.abs() != (
                #[trigger] bs2[b2][j2]).0.abs() by {
                    if b2 == bi as int && j2 == w {
                        assert(bs2[b2][i2] == pre.bs()[b2][i2]);
                    } else {
                        assert(bs2[b2][i2] == pre.bs()[b2][i2]);
                        assert(bs2[b2][j2] == pre.bs()[b2][j2]);
                    }
                }
            }
            assert(bs2[bi as int][w].0.abs() == pa);
            lemma_get_at(bs2, pa, bi as int, w);
            assert forall|a: Seq<u8>|
                #![trigger self.spec_get(a)]
                #![trigger self.spec_contains(a)]
                a != pa implies self.spec_get(a) == pre.spec_get(a)
                && self.spec_contains(a) == pre.spec_contains(a) by {
                if has_in(bs2, a) {
                    let (b2, i2) = choose|b2: int, i2: int| 0 <= b2 < bs2.len() && 0 <= i2
                        < bs2[b2].len() && (#[trigger] bs2[b2][i2]).0.abs() == a;
                    assert(!(b2 == bi as int && i2 == w));
                    assert(pre.bs()[b2][i2].0.abs() == a);
                    lemma_get_at(bs2, a, b2, i2);
                    lemma_get_at(pre.bs(), a, b2, i2);
                }
                if has_in(pre.bs(), a) {
                    let (b2, i2) = choose|b2: int, i2: int| 0 <= b2 < pre.bs().len() && 0 <= i2
                        < pre.bs()[b2].len() && (#[trigger] pre.bs()[b2][i2]).0.abs() == a;
                    assert(bs2[b2][i2].0.abs() == a);
                    lemma_get_at(bs2, a, b2, i2);
                    lemma_get_at(pre.bs(), a, b2, i2);
                }
            }
            lemma_total_update(pre.bs(), bi as int, pre.bs()[bi as int].push((key, value)));
            assert(self.spec_get(pa) == Some(value));
            assert(self.spec_contains(pa));
            assert(!pre.spec_contains(pa));
            assert(pre.spec_get(pa) == None::<V>);
            assert forall|a: Seq<u8>| a != pa implies #[trigger] self.spec_get(a) == old(
                self,
            ).spec_get(a) by {
                assert(self.spec_get(a) == pre.spec_get(a));
                assert(pre.spec_get(a) == old(self).spec_get(a));
            }
            assert forall|a: Seq<u8>| a != pa implies #[trigger] self.spec_contains(a) == old(
                self,
            ).spec_contains(a) by {
                assert(self.spec_get(a) == pre.spec_get(a));
                assert(self.spec_contains(a) == pre.spec_contains(a));
                assert(pre.spec_contains(a) == old(self).spec_contains(a));
            }
            assert(old(self).spec_get(pa) == pre.spec_get(pa));
            assert(old(self).spec_contains(pa) == pre.spec_contains(pa));
        }
        None
    }

    /// Take the entry of `key` out of the map, key and value together.
    #[verifier::rlimit(100)]
    pub fn remove_entry(&mut self, key: &K) -> (r: Option<(K, V)>)
        requires
            old(self).wf(),
        ensures
            final(self).wf(),
            match r {
                Some(pair) => old(self).spec_contains(key.abs()) && pair.0.abs() == key.abs()
                    && old(self).spec_get(key.abs()) == Some(pair.1),
                None => !old(self).spec_contains(key.abs()),
            },
            final(self).spec_get(key.abs()) == None::<V>,
            !final(self).spec_contains(key.abs()),
            forall|a: Seq<u8>| a != key.abs() ==> #[trigger] final(self).spec_get(a) == old(
                self,
            ).spec_get(a),
            forall|a: Seq<u8>| a != key.abs() ==> #[trigger] final(self).spec_contains(a)
                == old(self).spec_contains(a),
            final(self).spec_len() == old(self).spec_len() - (if old(self).spec_contains(
                key.abs(),
            ) {
                1int
            } else {
                0int
            }),
    {
        let ghost pre = *self;
        let ghost pa = key.abs();
        let bi = match self.bucket(key) {
            Some(bi) => bi,
            None => {
                proof {
                    assert(!has_in(pre.bs(), pa));
                    assert(self.spec_get(pa) == None::<V>);
                }
                return None;
            },
        };
        let nbkts = self.buckets.len();
        proof {
            assert(nbkts == pre.bs().len());
            assert(0 <= bucket_index(pa, pre.bs().len() as int) < nbkts);
            assert(pre.bs()[bi as int] == pre.buckets@[bi as int]@);
        }
        let n = self.buckets[bi].len();
        let mut i: usize = 0;
        while i < n
            invariant
                pre == *self,
                pre == *old(self),
                pre.wf(),
                pa == key.abs(),
                bi < pre.bs().len(),
                bi as int == bucket_index(pa, pre.bs().len() as int),
                n == pre.bs()[bi as int].len(),
                i <= n,
                forall|j: int| 0 <= j < i ==> (#[trigger] pre.bs()[bi as int][j]).0.abs() != pa,
            decreases n - i,
        {
            proof {
                assert(pre.bs()[bi as int] == self.buckets@[bi as int]@);
            }
            let hit = self.buckets[bi][i].0.key_eq(key);
            if hit {
                proof {
                    lemma_total_bounds(pre.bs(), bi as int);
                    lemma_get_at(pre.bs(), pa, bi as int, i as int);
                }
                self.count = self.count - 1;
                let slot = vstd::std_specs::vec::vec_index_mut(&mut self.buckets, bi);
                let pair = slot.swap_remove(i);
                proof {
                    let bs2 = self.bs();
                    let nb = pre.bs()[bi as int].update(
                        i as int,
                        pre.bs()[bi as int].last(),
                    ).drop_last();
                    assert(bs2 =~= pre.bs().update(bi as int, nb));
                    assert forall|j: int| 0 <= j < nb.len() implies exists|j0: int| 0 <= j0
                        < pre.bs()[bi as int].len() && (#[trigger] nb[j]) == pre.bs()[
                        bi as int][j0] && j0 != i by {
                        if j == i {
                            assert(nb[j] == pre.bs()[bi as int][pre.bs()[bi as int].len() - 1]);
                        } else {
                            assert(nb[j] == pre.bs()[bi as int][j]);
                        }
                    }
                    assert(placed(bs2)) by {
                        assert forall|b2: int, i2: int| 0 <= b2 < bs2.len() && 0 <= i2
                            < bs2[b2].len() implies bucket_index(
                            (#[trigger] bs2[b2][i2]).0.abs(),
                            bs2.len() as int,
                        ) == b2 by {
                            if b2 != bi as int {
                                assert(bs2[b2][i2] == pre.bs()[b2][i2]);
                            } else {
                                if i2 == i {
                                    assert(bs2[b2][i2] == pre.bs()[bi as int][pre.bs()[
                                        bi as int].len() - 1]);
                                } else {
                                    assert(bs2[b2][i2] == pre.bs()[b2][i2]);
                                }
                            }
                        }
                    }
                    assert(distinct(bs2)) by {
                        assert forall|b2: int, i2: int, j2: int| 0 <= b2 < bs2.len() && 0 <= i2
                            < j2 < bs2[b2].len() implies (#[trigger] bs2[b2][i2]).0.abs() != (
                        #[trigger] bs2[b2][j2]).0.abs() by {
                            if b2 != bi as int {
                                assert(bs2[b2][i2] == pre.bs()[b2][i2]);
                                assert(bs2[b2][j2] == pre.bs()[b2][j2]);
                            } else {
                                let l = pre.bs()[bi as int].len() - 1;
                                if i2 == i {
                                    assert(bs2[b2][i2] == pre.bs()[b2][l]);
                                    assert(bs2[b2][j2] == pre.bs()[b2][j2]);
                                    assert(j2 < l);
                                } else if j2 == i {
                                    assert(bs2[b2][j2] == pre.bs()[b2][l]);
                                    assert(bs2[b2][i2] == pre.bs()[b2][i2]);
                                    assert(i2 < l);
                                } else {
                                    assert(bs2[b2][i2] == pre.bs()[b2][i2]);
                                    assert(bs2[b2][j2] == pre.bs()[b2][j2]);
                                }
                            }
                        }
                    }
                    assert(!has_in(bs2, pa)) by {
                        if has_in(bs2, pa) {
                            let (b2, i2) = choose|b2: int, i2: int| 0 <= b2 < bs2.len() && 0
                                <= i2 < bs2[b2].len() && (#[trigger] bs2[b2][i2]).0.abs() == pa;
                            if b2 != bi as int {
                                assert(pre.bs()[b2][i2].0.abs() == pa);
                                lemma_witness_unique(pre.bs(), pa, bi as int, i as int, b2, i2);
                            } else {
                                let l = pre.bs()[bi as int].len() - 1;
                                if i2 == i {
                                    assert(bs2[b2][i2] == pre.bs()[b2][l]);
                                    lemma_witness_unique(
                                        pre.bs(),
                                        pa,
                                        bi as int,
                                        i as int,
                                        b2,
                                        l,
                                    );
                                } else {
                                    assert(bs2[b2][i2] == pre.bs()[b2][i2]);
                                    lemma_witness_unique(
                                        pre.bs(),
                                        pa,
                                        bi as int,
                                        i as int,
                                        b2,
                                        i2,
                                    );
                                }
                            }
                        }
                    }
                    assert forall|a: Seq<u8>|
                        #![trigger self.spec_get(a)]
                        #![trigger self.spec_contains(a)]
                        a != pa implies self.spec_get(a) == pre.spec_get(a)
                        && self.spec_contains(a) == pre.spec_contains(a) by {
                        let l = pre.bs()[bi as int].len() - 1;
                        if has_in(bs2, a) {
                            let (b2, i2) = choose|b2: int, i2: int| 0 <= b2 < bs2.len() && 0
                                <= i2 < bs2[b2].len() && (#[trigger] bs2[b2][i2]).0.abs() == a;
                            if b2 == bi as int && i2 == i {
                                assert(bs2[b2][i2] == pre.bs()[b2][l]);
                                lemma_get_at(bs2, a, b2, i2);
                                lemma_get_at(pre.bs(), a, b2, l);
                            } else {
                                assert(bs2[b2][i2] == pre.bs()[b2][i2]);
                                lemma_get_at(bs2, a, b2, i2);
                                lemma_get_at(pre.bs(), a, b2, i2);
                            }
                        }
                        if has_in(pre.bs(), a) {
                            let (b2, i2) = choose|b2: int, i2: int| 0 <= b2 < pre.bs().len()
                                && 0 <= i2 < pre.bs()[b2].len() && (
                            #[trigger] pre.bs()[b2][i2]).0.abs() == a;
                            if b2 == bi as int && i2 == l && i < l {
                                assert(bs2[b2][i as int] == pre.bs()[b2][l]);
                                assert(has_in(bs2, a));
                            } else if b2 == bi as int && i2 == l && i as int == l {
                                assert(pre.bs()[b2][i2].0.abs() == pa);
                            } else if b2 == bi as int && i2 == i {
                                assert(pre.bs()[b2][i2].0.abs() == pa);
                            } else {
                                assert(bs2[b2][i2] == pre.bs()[b2][i2]);
                                assert(has_in(bs2, a));
                            }
                        }
                    }
                    lemma_total_update(pre.bs(), bi as int, nb);
                    assert(self.spec_get(pa) == None::<V>);
                    assert(!self.spec_contains(pa));
                    assert(pre.spec_contains(pa));
                    assert(pre.spec_get(pa) == Some(pair.1));
                }
                return Some(pair);
            }
            i += 1;
        }
        proof {
            assert(!has_in(pre.bs(), pa)) by {
                if has_in(pre.bs(), pa) {
                    let (b2, i2) = choose|b2: int, i2: int| 0 <= b2 < pre.bs().len() && 0 <= i2
                        < pre.bs()[b2].len() && (#[trigger] pre.bs()[b2][i2]).0.abs() == pa;
                    assert(bucket_index(pa, pre.bs().len() as int) == b2);
                }
            }
            assert(self.spec_get(pa) == None::<V>);
        }
        None
    }

    /// Take the value of `key` out of the map.
    pub fn remove(&mut self, key: &K) -> (r: Option<V>)
        requires
            old(self).wf(),
        ensures
            final(self).wf(),
            r == old(self).spec_get(key.abs()),
            final(self).spec_get(key.abs()) == None::<V>,
            !final(self).spec_contains(key.abs()),
            forall|a: Seq<u8>| a != key.abs() ==> #[trigger] final(self).spec_get(a) == old(
                self,
            ).spec_get(a),
            forall|a: Seq<u8>| a != key.abs() ==> #[trigger] final(self).spec_contains(a)
                == old(self).spec_contains(a),
            final(self).spec_len() == old(self).spec_len() - (if old(self).spec_contains(
                key.abs(),
            ) {
                1int
            } else {
                0int
            }),
    {
        proof {
            if self.spec_contains(key.abs()) {
                assert(self.spec_get(key.abs()) is Some);
            }
        }
        match self.remove_entry(key) {
            Some(pair) => Some(pair.1),
            None => None,
        }
    }
}

/// A borrowing cursor over the map: bucket by bucket, item by item.
pub struct Iter<'a, K: MapKey, V> {
    map: &'a HashMap<K, V>,
    bucket: usize,
    at: usize,
}

impl<'a, K: MapKey, V> Iter<'a, K, V> {
    /// The map the cursor walks.
    pub closed spec fn spec_map(&self) -> HashMap<K, V> {
        *self.map
    }

    /// The next entry, if one remains: always an entry the map holds.
    pub fn next(&mut self) -> (r: Option<(&'a K, &'a V)>)
        requires
            old(self).spec_map().wf(),
        ensures
            final(self).spec_map() == old(self).spec_map(),
            match r {
                Some(pair) => old(self).spec_map().spec_get(pair.0.abs()) == Some(*pair.1),
                None => true,
            },
    {
        loop
            invariant
                self.map.wf(),
                self.map == old(self).map,
            decreases self.map.buckets@.len() - self.bucket,
        {
            if self.bucket >= self.map.buckets.len() {
                return None;
            }
            let items = &self.map.buckets[self.bucket];
            if self.at < items.len() {
                let pair = &items[self.at];
                proof {
                    let b = self.bucket as int;
                    let i = self.at as int;
                    assert(self.map.bs()[b] == self.map.buckets@[b]@);
                    lemma_get_at(self.map.bs(), pair.0.abs(), b, i);
                }
                self.at = self.at + 1;
                return Some((&pair.0, &pair.1));
            }
            self.bucket = self.bucket + 1;
            self.at = 0;
        }
    }
}

/// A consuming cursor over the map: drains each bucket from its end.
pub struct IntoIter<K: MapKey, V> {
    map: HashMap<K, V>,
    bucket: usize,
}

impl<K: MapKey, V> IntoIter<K, V> {
    /// How many entries are still to come.
    pub closed spec fn remaining(&self) -> int {
        self.map.spec_len()
    }

    /// Structural soundness of the drained map.
    pub closed spec fn wf(&self) -> bool {
        &&& self.map.wf()
        &&& forall|b: int| 0 <= b < self.bucket && b < self.map.bs().len()
            ==> (#[trigger] self.map.bs()[b]).len() == 0
    }

    /// The next entry, if one remains.
    pub fn next(&mut self) -> (r: Option<(K, V)>)
        requires
            old(self).wf(),
        ensures
            final(self).wf(),
            match r {
                Some(pair) => old(self).remaining() > 0 && final(self).remaining() == old(
                    self,
                ).remaining() - 1 && old(self).spec_map_of().spec_get(pair.0.abs()) == Some(pair.1),
                None => final(self).remaining() == old(self).remaining(),
            },
    {
        loop
            invariant
                self.wf(),
                self.map.spec_len() == old(self).map.spec_len(),
                forall|a: Seq<u8>| #[trigger] self.map.spec_get(a) == old(
                    self,
                ).map.spec_get(a),
            decreases self.map.buckets@.len() - self.bucket,
        {
            if self.bucket >= self.map.buckets.len() {
                return None;
            }
            let ghost pre = self.map;
            proof {
                assert forall|a: Seq<u8>| #[trigger] pre.spec_get(a) == old(
                    self,
                ).spec_map_of().spec_get(a) by {
                    assert(self.map.spec_get(a) == old(self).map.spec_get(a));
                }
                assert(pre.spec_len() == old(self).spec_map_of().spec_len());
            }
            let nonempty = self.map.buckets[self.bucket].len() > 0;
            if nonempty {
                proof {
                    assert(pre.bs()[self.bucket as int] == pre.buckets@[self.bucket as int]@);
                    lemma_total_bounds(pre.bs(), self.bucket as int);
                }
                self.map.count = self.map.count - 1;
                let slot = vstd::std_specs::vec::vec_index_mut(
                    &mut self.map.buckets,
                    self.bucket,
                );
                let pair = match slot.pop() {
                    Some(pair) => pair,
                    None => {
                        proof {
                            assert(false);
                        }
                        return None;
                    },
                };
                proof {
                    let b = self.bucket as int;
                    let bs2 = self.map.bs();
                    let k = pre.bs()[b].len() - 1;
                    let ghost pa = pair.0.abs();
                    assert(bs2 =~= pre.bs().update(b, pre.bs()[b].drop_last()));
                    assert(pair == pre.bs()[b][k]);
                    lemma_get_at(pre.bs(), pa, b, k);
                    assert(pre.spec_get(pa) == Some(pair.1));
                    assert(placed(bs2) && distinct(bs2)) by {
                        assert forall|b2: int, i2: int| 0 <= b2 < bs2.len() && 0 <= i2
                            < bs2[b2].len() implies bucket_index(
                            (#[trigger] bs2[b2][i2]).0.abs(),
                            bs2.len() as int,
                        ) == b2 by {
                            assert(bs2[b2][i2] == pre.bs()[b2][i2]);
                        }
                        assert forall|b2: int, i2: int, j2: int| 0 <= b2 < bs2.len() && 0 <= i2
                            < j2 < bs2[b2].len() implies (#[trigger] bs2[b2][i2]).0.abs() != (
                        #[trigger] bs2[b2][j2]).0.abs() by {
                            assert(bs2[b2][i2] == pre.bs()[b2][i2]);
                            assert(bs2[b2][j2] == pre.bs()[b2][j2]);
                        }
                    }
                    lemma_total_update(pre.bs(), b, pre.bs()[b].drop_last());
                    assert forall|b2: int| 0 <= b2 < self.bucket && b2 < bs2.len() implies (
                    #[trigger] bs2[b2]).len() == 0 by {
                        assert(bs2[b2] == pre.bs()[b2]);
                    }
                }
                return Some(pair);
            }
            self.bucket = self.bucket + 1;
            proof {
                assert(self.map == pre);
            }
        }
    }
}

impl<K: MapKey, V> HashMap<K, V> {
    /// A borrowing cursor over all entries.
    pub fn iter(&self) -> (r: Iter<'_, K, V>)
        ensures
            r.spec_map() == *self,
    {
        Iter { map: self, bucket: 0, at: 0 }
    }

    /// A consuming cursor over all entries.
    pub fn into_iter(self) -> (r: IntoIter<K, V>)
        requires
            self.wf(),
        ensures
            r.wf(),
            r.remaining() == self.spec_len(),
            forall|a: Seq<u8>| #[trigger] r.spec_map_of().spec_get(a) == self.spec_get(a),
    {
        IntoIter { map: self, bucket: 0 }
    }
}

impl<K: MapKey, V> IntoIter<K, V> {
    /// The map still to be drained.
    pub closed spec fn spec_map_of(&self) -> HashMap<K, V> {
        self.map
    }
}

/// A table of empty buckets holds nothing.
pub proof fn lemma_total_empty<K: MapKey, V>(bs: Seq<Seq<(K, V)>>)
    requires
        forall|b: int| 0 <= b < bs.len() ==> (#[trigger] bs[b]).len() == 0,
    ensures
        total_items(bs) == 0,
    decreases bs.len(),
{
    if bs.len() > 0 {
        lemma_total_empty(bs.drop_last());
    }
}

} // verus!
