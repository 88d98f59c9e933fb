//! A queue-shaped list: elements go in at the back and come out at the
//! front.

use vstd::prelude::*;

verus! {

/// A first-in, first-out list; the view lists the elements front first.
pub struct List<T> {
    items: Vec<T>,
}

impl<T> View for List<T> {
    type V = Seq<T>;

    closed spec fn view(&self) -> Seq<T> {
        self.items@
    }
}

impl<T> List<T> {
    /// The empty queue.
    pub fn new() -> (r: Self)
        ensures
            r@ == Seq::<T>::empty(),
    {
        Self { items: Vec::new() }
    }

    /// Append an element at the back.
    pub fn push(&mut self, elem: T)
        ensures
            final(self)@ == old(self)@.push(elem),
    {
        self.items.push(elem);
    }

    /// Take the front element, if any.
    pub fn pop(&mut self) -> (r: Option<T>)
        ensures
            match r {
                Some(v) => old(self)@.len() > 0 && v == old(self)@[0] && final(self)@ == old(
                    self,
                )@.drop_first(),
                None => old(self)@.len() == 0 && final(self)@ == old(self)@,
            },
    {
        if self.items.len() == 0 {
            return None;
        }
        let v = self.items.remove(0);
        proof {
            assert(self@ =~= old(self)@.drop_first());
        }
        Some(v)
    }

    /// A borrowing cursor from the front.
    pub fn iter(&self) -> (r: Iter<'_, T>)
        ensures
            r.spec_list() == *self,
            r.remaining() == self@,
    {
        Iter { list: self, at: 0 }
    }

    /// A consuming cursor from the front.
    pub fn into_iter(self) -> (r: IntoIter<T>)
        ensures
            r@ == self@,
    {
        IntoIter { list: self }
    }
}

/// A borrowing cursor over the queue, front to back.
pub struct Iter<'a, T> {
    list: &'a List<T>,
    at: usize,
}

impl<'a, T> Iter<'a, T> {
    /// The queue the cursor walks.
    pub closed spec fn spec_list(&self) -> List<T> {
        *self.list
    }

    /// The elements still to come.
    pub closed spec fn remaining(&self) -> Seq<T> {
        if self.at <= self.list@.len() {
            self.list@.skip(self.at as int)
        } else {
            Seq::empty()
        }
    }

    /// The next element from the front, if any remains.
    pub fn next(&mut self) -> (r: Option<&'a T>)
        ensures
            final(self).spec_list() == old(self).spec_list(),
            match r {
                Some(v) => old(self).remaining().len() > 0 && *v == old(self).remaining()[0]
                    && final(self).remaining() == old(self).remaining().drop_first(),
                None => old(self).remaining().len() == 0 && final(self).remaining() == old(
                    self,
                ).remaining(),
            },
    {
        if self.at >= self.list.items.len() {
            return None;
        }
        let v = &self.list.items[self.at];
        self.at = self.at + 1;
        proof {
            assert(self.remaining() =~= old(self).remaining().drop_first());
        }
        Some(v)
    }
}

/// A consuming cursor; its view is what it has yet to yield.
pub struct IntoIter<T> {
    list: List<T>,
}

impl<T> View for IntoIter<T> {
    type V = Seq<T>;

    closed spec fn view(&self) -> Seq<T> {
        self.list@
    }
}

impl<T> IntoIter<T> {
    /// The next element from the front, if any remains.
    pub fn next(&mut self) -> (r: Option<T>)
        ensures
            match r {
                Some(v) => old(self)@.len() > 0 && v == old(self)@[0] && final(self)@ == old(
                    self,
                )@.drop_first(),
                None => old(self)@.len() == 0 && final(self)@ == old(self)@,
            },
    {
        self.list.pop()
    }
}

} // verus!
