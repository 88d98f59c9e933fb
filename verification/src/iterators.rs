//! Eager iterator adapters: flattening a vector of vectors, and mapping
//! each element to a vector before flattening, with a cursor over the
//! result that yields from either end.

use vstd::prelude::*;

verus! {

/// The flattening of a vector of vectors, as sequences.
pub open spec fn flat_view<T>(items: Seq<Vec<T>>) -> Seq<T> {
    items.map_values(|v: Vec<T>| v@).flatten()
}

/// A two-ended cursor over flattened elements; its view is what it has yet
/// to yield.
pub struct Flatten<T> {
    data: Vec<T>,
    front: usize,
    back: usize,
}

impl<T> View for Flatten<T> {
    type V = Seq<T>;

    closed spec fn view(&self) -> Seq<T> {
        if self.front <= self.back <= self.data@.len() {
            self.data@.subrange(self.front as int, self.back as int)
        } else {
            Seq::empty()
        }
    }
}

impl<T> Flatten<T> {
    /// The cursor's bounds are in order.
    pub closed spec fn wf(&self) -> bool {
        self.front <= self.back <= self.data@.len()
    }

    /// Concatenate the inner vectors into one cursor.
    pub fn new(items: Vec<Vec<T>>) -> (r: Self)
        ensures
            r.wf(),
            r@ == flat_view(items@),
    {
        let ghost items0 = items@;
        let mut items = items;
        let n = items.len();
        let mut data: Vec<T> = Vec::new();
        let mut i: usize = 0;
        proof {
            assert(items0.take(0).map_values(|v: Vec<T>| v@) =~= Seq::<Seq<T>>::empty());
        }
        while i < n
            invariant
                n == items@.len(),
                items@.len() == items0.len(),
                i <= n,
                forall|j: int| i <= j < n ==> items@[j] == items0[j],
                data@ == items0.take(i as int).map_values(|v: Vec<T>| v@).flatten_alt(),
            decreases n - i,
        {
            let ghost before = data@;
            let slot = vstd::std_specs::vec::vec_index_mut(&mut items, i);
            let mut taken: Vec<T> = Vec::new();
            std::mem::swap(slot, &mut taken);
            data.append(&mut taken);
            proof {
                let m = |v: Vec<T>| v@;
                assert(items0.take(i + 1).map_values(m).drop_last() =~= items0.take(
                    i as int,
                ).map_values(m));
                assert(items0.take(i + 1).map_values(m).last() == items0[i as int]@);
                assert(data@ == before + items0[i as int]@);
            }
            i += 1;
        }
        proof {
            assert(items0.take(n as int) =~= items0);
            items0.map_values(|v: Vec<T>| v@).lemma_flatten_and_flatten_alt_are_equivalent();
        }
        let back = data.len();
        let r = Self { data, front: 0, back };
        proof {
            assert(r@ =~= flat_view(items0));
        }
        r
    }

    /// The next element from the front, if any remains.
    pub fn next(&mut self) -> (r: Option<T>)
        requires
            old(self).wf(),
        ensures
            final(self).wf(),
            match r {
                Some(v) => old(self)@.len() > 0 && v == old(self)@[0] && final(self)@ == old(
                    self,
                )@.drop_first(),
                None => old(self)@.len() == 0 && final(self)@ == old(self)@,
            },
    {
        if self.front >= self.back {
            return None;
        }
        let v = self.data.remove(self.front);
        self.back = self.back - 1;
        proof {
            assert(self@ =~= old(self)@.drop_first());
        }
        Some(v)
    }

    /// The next element from the back, if any remains.
    pub fn next_back(&mut self) -> (r: Option<T>)
        requires
            old(self).wf(),
        ensures
            final(self).wf(),
            match r {
                Some(v) => old(self)@.len() > 0 && v == old(self)@.last() && final(self)@
                    == old(self)@.drop_last(),
                None => old(self)@.len() == 0 && final(self)@ == old(self)@,
            },
    {
        if self.front >= self.back {
            return None;
        }
        let b = self.back - 1;
        let v = self.data.remove(b);
        self.back = b;
        proof {
            assert(self@ =~= old(self)@.drop_last());
        }
        Some(v)
    }

    /// How many elements are yet to come.
    pub fn count(&self) -> (r: usize)
        requires
            self.wf(),
        ensures
            r == self@.len(),
    {
        self.back - self.front
    }
}

/// Flatten a vector of vectors into a two-ended cursor.
pub fn flatten<T>(items: Vec<Vec<T>>) -> (r: Flatten<T>)
    ensures
        r.wf(),
        r@ == flat_view(items@),
{
    Flatten::new(items)
}

/// A two-ended cursor over the concatenated images of a function; its view
/// is what it has yet to yield.
pub struct FlatMap<U> {
    inner: Flatten<U>,
}

impl<U> View for FlatMap<U> {
    type V = Seq<U>;

    closed spec fn view(&self) -> Seq<U> {
        self.inner@
    }
}

impl<U> FlatMap<U> {
    /// The cursor's bounds are in order.
    pub closed spec fn wf(&self) -> bool {
        self.inner.wf()
    }

    /// Apply `f` to every element and lay the resulting vectors end to end.
    pub fn new<T, F: Fn(T) -> Vec<U>>(items: Vec<T>, f: F) -> (r: Self)
        requires
            forall|j: int| 0 <= j < items@.len() ==> f.requires((#[trigger] items@[j],)),
        ensures
            r.wf(),
            exists|outs: Seq<Vec<U>>|
                {
                    &&& outs.len() == items@.len()
                    &&& forall|j: int| 0 <= j < items@.len() ==> f.ensures(
                        (#[trigger] items@[j],),
                        outs[j],
                    )
                    &&& r@ == flat_view(outs)
                },
    {
        let ghost items0 = items@;
        let mut items = items;
        let mut collected: Vec<Vec<U>> = Vec::new();
        let ghost mut outs: Seq<Vec<U>> = Seq::empty();
        let ghost mut i: int = 0;
        while items.len() > 0
            invariant
                0 <= i <= items0.len(),
                items@ =~= items0.skip(i),
                forall|j: int| 0 <= j < items0.len() ==> f.requires((#[trigger] items0[j],)),
                collected@ == outs,
                outs.len() == i,
                forall|j: int| 0 <= j < i ==> f.ensures((#[trigger] items0[j],), outs[j]),
            decreases items@.len(),
        {
            let t = items.remove(0);
            proof {
                assert(t == items0[i]);
            }
            let out = f(t);
            collected.push(out);
            proof {
                outs = outs.push(out);
                i = i + 1;
                assert(items@ =~= items0.skip(i));
            }
        }
        let r = Self { inner: Flatten::new(collected) };
        r
    }

    /// The next element from the front, if any remains.
    pub fn next(&mut self) -> (r: Option<U>)
        requires
            old(self).wf(),
        ensures
            final(self).wf(),
            match r {
                Some(v) => old(self)@.len() > 0 && v == old(self)@[0] && final(self)@ == old(
                    self,
                )@.drop_first(),
                None => old(self)@.len() == 0 && final(self)@ == old(self)@,
            },
    {
        self.inner.next()
    }

    /// The next element from the back, if any remains.
    pub fn next_back(&mut self) -> (r: Option<U>)
        requires
            old(self).wf(),
        ensures
            final(self).wf(),
            match r {
                Some(v) => old(self)@.len() > 0 && v == old(self)@.last() && final(self)@
                    == old(self)@.drop_last(),
                None => old(self)@.len() == 0 && final(self)@ == old(self)@,
            },
    {
        self.inner.next_back()
    }

    /// How many elements are yet to come.
    pub fn count(&self) -> (r: usize)
        requires
            self.wf(),
        ensures
            r == self@.len(),
    {
        self.inner.count()
    }
}

/// Apply `f` to every element of `items` and flatten the results into a
/// two-ended cursor.
pub fn flat_map<T, U, F: Fn(T) -> Vec<U>>(items: Vec<T>, f: F) -> (r: FlatMap<U>)
    requires
        forall|j: int| 0 <= j < items@.len() ==> f.requires((#[trigger] items@[j],)),
    ensures
        r.wf(),
        exists|outs: Seq<Vec<U>>|
            {
                &&& outs.len() == items@.len()
                &&& forall|j: int| 0 <= j < items@.len() ==> f.ensures(
                    (#[trigger] items@[j],),
                    outs[j],
                )
                &&& r@ == flat_view(outs)
            },
{
    FlatMap::new(items, f)
}

} // verus!
