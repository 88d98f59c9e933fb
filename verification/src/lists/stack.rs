//! A singly-linked stack, and a deque built from two of them facing away
//! from a cursor.

use vstd::prelude::*;

verus! {

struct Node<T> {
    elem: T,
    next: Option<Box<Node<T>>>,
}

/// The elements hanging off a link, top first.
spec fn link_view<T>(l: Option<Box<Node<T>>>) -> Seq<T>
    decreases l,
{
    match l {
        None => Seq::empty(),
        Some(n) => seq![n.elem] + link_view(n.next),
    }
}

/// A stack; the view lists the elements top (most recently pushed) first.
pub struct Stack<T> {
    head: Option<Box<Node<T>>>,
}

impl<T> View for Stack<T> {
    type V = Seq<T>;

    closed spec fn view(&self) -> Seq<T> {
        link_view(self.head)
    }
}

impl<T> Stack<T> {
    /// The empty stack.
    pub fn new() -> (r: Self)
        ensures
            r@ == Seq::<T>::empty(),
    {
        let r = Self { head: None };
        proof {
            assert(r@ =~= Seq::<T>::empty());
        }
        r
    }

    /// Push an element on top.
    pub fn push(&mut self, elem: T)
        ensures
            final(self)@ == seq![elem] + old(self)@,
    {
        let node = Box::new(Node { elem, next: None });
        self.push_node(node);
    }

    /// Link an already-boxed node on top.
    fn push_node(&mut self, mut node: Box<Node<T>>)
        ensures
            final(self)@ == seq![node.elem] + old(self)@,
    {
        node.next = self.head.take();
        self.head = Some(node);
    }

    /// Pop the top element, if any.
    pub fn pop(&mut self) -> (r: Option<T>)
        ensures
            match r {
                Some(v) => old(self)@.len() > 0 && v == old(self)@[0] && final(self)@ == old(
                    self,
                )@.drop_first(),
                None => old(self)@.len() == 0 && final(self)@ == old(self)@,
            },
    {
        match self.pop_node() {
            None => None,
            Some(node) => Some(node.elem),
        }
    }

    /// Unlink the top node, if any.
    fn pop_node(&mut self) -> (r: Option<Box<Node<T>>>)
        ensures
            match r {
                Some(node) => old(self)@.len() > 0 && node.elem == old(self)@[0] && node.next
                    is None && final(self)@ == old(self)@.drop_first(),
                None => old(self)@.len() == 0 && final(self)@ == old(self)@,
            },
    {
        match self.head.take() {
            None => None,
            Some(mut node) => {
                self.head = node.next.take();
                proof {
                    assert(old(self)@ =~= seq![node.elem] + self@);
                    assert((seq![node.elem] + self@).drop_first() =~= self@);
                    assert(link_view(node.next) =~= Seq::<T>::empty());
                }
                Some(node)
            },
        }
    }

    /// The top element, if any.
    pub fn peek(&self) -> (r: Option<&T>)
        ensures
            match r {
                Some(v) => self@.len() > 0 && *v == self@[0],
                None => self@.len() == 0,
            },
    {
        match self.peek_node() {
            None => None,
            Some(node) => Some(&node.elem),
        }
    }

    /// The top element, writable, if any.
    pub fn peek_mut(&mut self) -> (r: Option<&mut T>)
        ensures
            match r {
                Some(v) => old(self)@.len() > 0 && *v == old(self)@[0] && final(self)@ == old(
                    self,
                )@.update(0, *final(v)),
                None => old(self)@.len() == 0 && final(self)@ == old(self)@,
            },
    {
        match self.peek_mut_node() {
            None => None,
            Some(node) => {
                let r = &mut node.elem;
                proof {
                    assert(after_borrow(self)@ =~= old(self)@.update(0, *final(r)));
                }
                Some(r)
            },
        }
    }

    /// The top node, if any.
    fn peek_node(&self) -> (r: Option<&Node<T>>)
        ensures
            match r {
                Some(node) => self@.len() > 0 && node.elem == self@[0],
                None => self@.len() == 0,
            },
    {
        match &self.head {
            None => None,
            Some(b) => Some(&**b),
        }
    }

    /// The top node, writable, if any.
    fn peek_mut_node(&mut self) -> (r: Option<&mut Node<T>>)
        ensures
            match r {
                Some(node) => old(self)@.len() > 0 && node.elem == old(self)@[0]
                    && link_view(node.next) == old(self)@.drop_first() && final(self)@
                    == seq![final(node).elem] + link_view(final(node).next),
                None => old(self)@.len() == 0 && final(self)@ == old(self)@,
            },
    {
        match &mut self.head {
            None => None,
            Some(b) => {
                proof {
                    assert(old(self)@ =~= seq![b.elem] + link_view(b.next));
                    assert((seq![b.elem] + link_view(b.next)).drop_first() =~= link_view(
                        b.next,
                    ));
                }
                let r = &mut **b;
                proof {
                    assert(after_borrow(self)@ =~= seq![final(r).elem] + link_view(
                        final(r).next,
                    ));
                }
                Some(r)
            },
        }
    }
}

/// A deque as two stacks either side of a cursor: pushing left or right
/// stacks an element on that side; walking moves one element across.
pub struct Deque<T> {
    left: Stack<T>,
    right: Stack<T>,
}

impl<T> Deque<T> {
    /// The elements on the left of the cursor, nearest first.
    pub closed spec fn left_view(&self) -> Seq<T> {
        self.left@
    }

    /// The elements on the right of the cursor, nearest first.
    pub closed spec fn right_view(&self) -> Seq<T> {
        self.right@
    }

    /// The empty deque.
    pub fn new() -> (r: Self)
        ensures
            r.left_view() == Seq::<T>::empty(),
            r.right_view() == Seq::<T>::empty(),
    {
        Self { left: Stack::new(), right: Stack::new() }
    }

    /// Put an element just left of the cursor.
    pub fn push_left(&mut self, elem: T)
        ensures
            final(self).left_view() == seq![elem] + old(self).left_view(),
            final(self).right_view() == old(self).right_view(),
    {
        self.left.push(elem)
    }

    /// Put an element just right of the cursor.
    pub fn push_right(&mut self, elem: T)
        ensures
            final(self).right_view() == seq![elem] + old(self).right_view(),
            final(self).left_view() == old(self).left_view(),
    {
        self.right.push(elem)
    }

    /// Take the element just left of the cursor, if any.
    pub fn pop_left(&mut self) -> (r: Option<T>)
        ensures
            final(self).right_view() == old(self).right_view(),
            match r {
                Some(v) => old(self).left_view().len() > 0 && v == old(self).left_view()[0]
                    && final(self).left_view() == old(self).left_view().drop_first(),
                None => old(self).left_view().len() == 0 && final(self).left_view() == old(
                    self,
                ).left_view(),
            },
    {
        self.left.pop()
    }

    /// Take the element just right of the cursor, if any.
    pub fn pop_right(&mut self) -> (r: Option<T>)
        ensures
            final(self).left_view() == old(self).left_view(),
            match r {
                Some(v) => old(self).right_view().len() > 0 && v == old(self).right_view()[0]
                    && final(self).right_view() == old(self).right_view().drop_first(),
                None => old(self).right_view().len() == 0 && final(self).right_view() == old(
                    self,
                ).right_view(),
            },
    {
        self.right.pop()
    }

    /// The element just left of the cursor, if any.
    pub fn peek_left(&self) -> (r: Option<&T>)
        ensures
            match r {
                Some(v) => self.left_view().len() > 0 && *v == self.left_view()[0],
                None => self.left_view().len() == 0,
            },
    {
        self.left.peek()
    }

    /// The element just right of the cursor, if any.
    pub fn peek_right(&self) -> (r: Option<&T>)
        ensures
            match r {
                Some(v) => self.right_view().len() > 0 && *v == self.right_view()[0],
                None => self.right_view().len() == 0,
            },
    {
        self.right.peek()
    }

    /// The element just left of the cursor, writable, if any.
    pub fn peek_left_mut(&mut self) -> (r: Option<&mut T>)
        ensures
            final(self).right_view() == old(self).right_view(),
            match r {
                Some(v) => old(self).left_view().len() > 0 && *v == old(self).left_view()[0]
                    && final(self).left_view() == old(self).left_view().update(
                    0,
                    *final(v),
                ),
                None => old(self).left_view().len() == 0 && final(self).left_view() == old(
                    self,
                ).left_view(),
            },
    {
        self.left.peek_mut()
    }

    /// The element just right of the cursor, writable, if any.
    pub fn peek_right_mut(&mut self) -> (r: Option<&mut T>)
        ensures
            final(self).left_view() == old(self).left_view(),
            match r {
                Some(v) => old(self).right_view().len() > 0 && *v == old(self).right_view()[0]
                    && final(self).right_view() == old(self).right_view().update(
                    0,
                    *final(v),
                ),
                None => old(self).right_view().len() == 0 && final(self).right_view() == old(
                    self,
                ).right_view(),
            },
    {
        self.right.peek_mut()
    }

    /// Step the cursor left: the nearest left element becomes the nearest
    /// right one.  Reports whether there was one.
    pub fn go_left(&mut self) -> (r: bool)
        ensures
            r == (old(self).left_view().len() > 0),
            r ==> final(self).left_view() == old(self).left_view().drop_first()
                && final(self).right_view() == seq![old(self).left_view()[0]] + old(
                self,
            ).right_view(),
            !r ==> final(self).left_view() == old(self).left_view() && final(self).right_view()
                == old(self).right_view(),
    {
        match self.left.pop_node() {
            Some(node) => {
                self.right.push_node(node);
                true
            },
            None => false,
        }
    }

    /// Step the cursor right: the nearest right element becomes the nearest
    /// left one.  Reports whether there was one.
    pub fn go_right(&mut self) -> (r: bool)
        ensures
            r == (old(self).right_view().len() > 0),
            r ==> final(self).right_view() == old(self).right_view().drop_first()
                && final(self).left_view() == seq![old(self).right_view()[0]] + old(
                self,
            ).left_view(),
            !r ==> final(self).left_view() == old(self).left_view() && final(self).right_view()
                == old(self).right_view(),
    {
        match self.right.pop_node() {
            Some(node) => {
                self.left.push_node(node);
                true
            },
            None => false,
        }
    }
}

} // verus!
