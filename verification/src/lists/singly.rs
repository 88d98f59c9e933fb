//! A singly-linked list used as a stack: push and pop at the head.

use vstd::prelude::*;

verus! {

struct Node<T> {
    elem: T,
    next: Option<Box<Node<T>>>,
}

/// The elements hanging off a link, front first.
spec fn link_view<T>(l: Option<Box<Node<T>>>) -> Seq<T>
    decreases l,
{
    match l {
        None => Seq::empty(),
        Some(n) => seq![n.elem] + link_view(n.next),
    }
}

/// A stack of elements; the view lists them front (most recently pushed)
/// first.
pub struct List<T> {
    head: Option<Box<Node<T>>>,
}

impl<T> View for List<T> {
    type V = Seq<T>;

    closed spec fn view(&self) -> Seq<T> {
        link_view(self.head)
    }
}

impl<T> List<T> {
    /// The empty list.
    pub fn new() -> (r: Self)
        ensures
            r@ == Seq::<T>::empty(),
    {
        let r = Self { head: None };
        proof {
            assert(r@ =~= Seq::<T>::empty());
        }
        r
    }

    /// Push an element at the front.
    pub fn push(&mut self, elem: T)
        ensures
            final(self)@ == seq![elem] + old(self)@,
    {
        let next = Box::new(Node { elem, next: self.head.take() });
        self.head = Some(next);
    }

    /// Pop the front element, if any.
    pub fn pop(&mut self) -> (r: Option<T>)
        ensures
            match r {
                Some(v) => old(self)@.len() > 0 && v == old(self)@[0] && final(self)@ == old(
                    self,
                )@.drop_first(),
                None => old(self)@.len() == 0 && final(self)@ == old(self)@,
            },
    {
        match self.head.take() {
            None => None,
            Some(node) => {
                let node = *node;
                self.head = node.next;
                proof {
                    assert(old(self)@ =~= seq![node.elem] + self@);
                    assert((seq![node.elem] + self@).drop_first() =~= self@);
                }
                Some(node.elem)
            },
        }
    }

    /// The front element, if any.
    pub fn peek(&self) -> (r: Option<&T>)
        ensures
            match r {
                Some(v) => self@.len() > 0 && *v == self@[0],
                None => self@.len() == 0,
            },
    {
        match &self.head {
            None => None,
            Some(node) => Some(&node.elem),
        }
    }

    /// The front element, writable, if any.
    pub fn peek_mut(&mut self) -> (r: Option<&mut T>)
        ensures
            match r {
                Some(v) => old(self)@.len() > 0 && *v == old(self)@[0] && final(self)@ == old(
                    self,
                )@.update(0, *final(v)),
                None => old(self)@.len() == 0 && final(self)@ == old(self)@,
            },
    {
        match &mut self.head {
            None => None,
            Some(node) => {
                proof {
                    assert(old(self)@ =~= seq![node.elem] + link_view(node.next));
                }
                let r = &mut node.elem;
                proof {
                    assert(after_borrow(self)@ =~= (seq![*final(r)] + link_view(
                        old(self).head->Some_0.next,
                    )));
                    assert(after_borrow(self)@ =~= old(self)@.update(0, *final(r)));
                }
                Some(r)
            },
        }
    }

    /// A borrowing cursor from the front.
    pub fn iter(&self) -> (r: Iter<'_, T>)
        ensures
            r@ == self@,
    {
        Iter {
            at: match &self.head {
                None => None,
                Some(b) => Some(&**b),
            },
        }
    }

    /// A consuming cursor from the front.
    pub fn into_iter(self) -> (r: IntoIter<T>)
        ensures
            r@ == self@,
    {
        IntoIter { list: self }
    }
}

/// A borrowing cursor; its view is what it has yet to yield.
pub struct Iter<'a, T> {
    at: Option<&'a Node<T>>,
}

impl<'a, T> View for Iter<'a, T> {
    type V = Seq<T>;

    closed spec fn view(&self) -> Seq<T> {
        match self.at {
            None => Seq::empty(),
            Some(n) => seq![n.elem] + link_view(n.next),
        }
    }
}

impl<'a, T> Iter<'a, T> {
    /// The next element from the front, if any remains.
    pub fn next(&mut self) -> (r: Option<&'a T>)
        ensures
            match r {
                Some(v) => old(self)@.len() > 0 && *v == old(self)@[0] && final(self)@ == old(
                    self,
                )@.drop_first(),
                None => old(self)@.len() == 0 && final(self)@ == old(self)@,
            },
    {
        match self.at.take() {
            None => None,
            Some(node) => {
                self.at = match &node.next {
                    None => None,
                    Some(b) => Some(&**b),
                };
                proof {
                    assert(old(self)@ =~= seq![node.elem] + self@);
                    assert((seq![node.elem] + self@).drop_first() =~= self@);
                }
                Some(&node.elem)
            },
        }
    }
}

/// A consuming cursor; its view is what it has yet to yield.
pub struct IntoIter<T> {
    list: List<T>,
}

impl<T> View for IntoIter<T> {
    type V = Seq<T>;

    closed spec fn view(&self) -> Seq<T> {
        self.list@
    }
}

impl<T> IntoIter<T> {
    /// The next element from the front, if any remains.
    pub fn next(&mut self) -> (r: Option<T>)
        ensures
            match r {
                Some(v) => old(self)@.len() > 0 && v == old(self)@[0] && final(self)@ == old(
                    self,
                )@.drop_first(),
                None => old(self)@.len() == 0 && final(self)@ == old(self)@,
            },
    {
        self.list.pop()
    }
}

} // verus!
