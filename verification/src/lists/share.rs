//! A persistent list: lists produced by `prepend` and `tail` share their
//! tails through reference counting.

use vstd::prelude::*;

verus! {

use std::rc::Rc;

struct Node<T> {
    elem: T,
    next: Option<Rc<Node<T>>>,
}

/// The elements hanging off a link, head first.
spec fn link_view<T>(l: Option<Rc<Node<T>>>) -> Seq<T>
    decreases l,
{
    match l {
        None => Seq::empty(),
        Some(n) => seq![n.elem] + link_view(n.next),
    }
}

/// Relies on `Rc::clone`: the clone is a handle to the very same value.
#[verifier::external_body]
fn rc_clone<T>(rc: &Rc<T>) -> (r: Rc<T>)
    ensures
        r == *rc,
{
    Rc::clone(rc)
}

/// A persistent list; the view lists the elements head first.
pub struct List<T> {
    head: Option<Rc<Node<T>>>,
}

impl<T> View for List<T> {
    type V = Seq<T>;

    closed spec fn view(&self) -> Seq<T> {
        link_view(self.head)
    }
}

impl<T> List<T> {
    /// The empty list.
    pub fn new() -> (r: Self)
        ensures
            r@ == Seq::<T>::empty(),
    {
        let r = Self { head: None };
        proof {
            assert(r@ =~= Seq::<T>::empty());
        }
        r
    }

    /// A new list with `elem` in front of this one, which is left as it was.
    pub fn prepend(&mut self, elem: T) -> (r: Self)
        ensures
            final(self)@ == old(self)@,
            r@ == seq![elem] + old(self)@,
    {
        let next = match &self.head {
            None => None,
            Some(rc) => Some(rc_clone(rc)),
        };
        Self { head: Some(Rc::new(Node { elem, next })) }
    }

    /// A new list holding everything after this one's head, which is left as
    /// it was.
    pub fn tail(&mut self) -> (r: Self)
        ensures
            final(self)@ == old(self)@,
            r@ == if old(self)@.len() == 0 {
                Seq::<T>::empty()
            } else {
                old(self)@.drop_first()
            },
    {
        let head = match &self.head {
            None => None,
            Some(rc) => match &rc.next {
                None => None,
                Some(next) => Some(rc_clone(next)),
            },
        };
        let r = Self { head };
        proof {
            match old(self).head {
                None => {
                    assert(r@ =~= Seq::<T>::empty());
                },
                Some(n) => {
                    assert(old(self)@ =~= seq![n.elem] + link_view(n.next));
                    assert(r@ =~= old(self)@.drop_first());
                },
            }
        }
        r
    }

    /// The first element, if any.
    pub fn head(&self) -> (r: Option<&T>)
        ensures
            match r {
                Some(v) => self@.len() > 0 && *v == self@[0],
                None => self@.len() == 0,
            },
    {
        match &self.head {
            None => None,
            Some(rc) => Some(&rc.elem),
        }
    }

    /// A borrowing cursor from the head.
    pub fn iter(&self) -> (r: Iter<'_, T>)
        ensures
            r@ == self@,
    {
        Iter {
            at: match &self.head {
                None => None,
                Some(rc) => Some(&**rc),
            },
        }
    }
}

/// A borrowing cursor; its view is what it has yet to yield.
pub struct Iter<'a, T> {
    at: Option<&'a Node<T>>,
}

impl<'a, T> View for Iter<'a, T> {
    type V = Seq<T>;

    closed spec fn view(&self) -> Seq<T> {
        match self.at {
            None => Seq::empty(),
            Some(n) => seq![n.elem] + link_view(n.next),
        }
    }
}

impl<'a, T> Iter<'a, T> {
    /// The next element from the head, if any remains.
    pub fn next(&mut self) -> (r: Option<&'a T>)
        ensures
            match r {
                Some(v) => old(self)@.len() > 0 && *v == old(self)@[0] && final(self)@ == old(
                    self,
                )@.drop_first(),
                None => old(self)@.len() == 0 && final(self)@ == old(self)@,
            },
    {
        match self.at.take() {
            None => None,
            Some(node) => {
                self.at = match &node.next {
                    None => None,
                    Some(rc) => Some(&**rc),
                };
                proof {
                    assert(old(self)@ =~= seq![node.elem] + self@);
                    assert((seq![node.elem] + self@).drop_first() =~= self@);
                }
                Some(&node.elem)
            },
        }
    }
}

} // verus!
