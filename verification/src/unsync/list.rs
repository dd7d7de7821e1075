//! The list whose nodes are shared within one thread.

use crate::shared;
use crate::shared::handle::{rc_clone, rc_try_unwrap};
use crate::shared::link::Link;
use std::rc::Rc;
use vstd::prelude::*;

pub use crate::shared::list::{filter, fmap, foldl, foldr, mreturn};

verus! {

pub type List<T> = shared::list::List<UnsyncLink<T>>;

type UnsyncLink<T> = Rc<Node<T>>;

/// A node of the list. It is never changed once it is made.
#[derive(Debug)]
pub struct Node<T> {
    element: T,
    next: Option<Rc<Node<T>>>,
}

impl<T> Node<T> {
    /// The elements from this node to the end of the chain.
    pub closed spec fn chain(&self) -> Seq<T>
        decreases self,
    {
        seq![self.element] + match self.next {
            Some(n) => n.chain(),
            None => Seq::empty(),
        }
    }
}

impl<T> Node<T> {
    /// A node is built from each of the elements of its chain.
    proof fn lemma_chain_holds_parts(&self, i: int)
        requires
            0 <= i < self.chain().len(),
        ensures
            decreases_to!(*self => self.chain()[i]),
        decreases self,
    {
        if i > 0 {
            let n = self.next->0;
            n.lemma_chain_holds_parts(i - 1);
            assert(decreases_to!(*self => self.next));
            assert(decreases_to!(self.next => n));
        } else {
            assert(decreases_to!(*self => self.element));
        }
    }
}

impl<T> Link for Rc<Node<T>> {
    type ValueType = T;

    closed spec fn spec_cons(element: T, next: Option<Self>) -> Self {
        Rc::new(Node { element, next })
    }

    closed spec fn next(&self) -> Option<Self> {
        self.next
    }

    closed spec fn elements(&self) -> Seq<T> {
        self.chain()
    }

    proof fn lemma_chain(element: T, next: Option<Self>) {
    }

    proof fn lemma_elements(&self) {
        assert(self.chain().drop_first() =~= match self.next {
            Some(n) => n.chain(),
            None => Seq::empty(),
        });
    }

    proof fn lemma_elements_are_parts(&self, i: int) {
        (**self).lemma_chain_holds_parts(i);
    }

    fn from_value(element: T) -> Self {
        Rc::new(Node { element, next: None })
    }

    fn cons(element: T, next: Option<Self>) -> Self {
        Rc::new(Node { element, next })
    }

    fn clone(&self) -> Self {
        rc_clone(self)
    }

    fn get_element(&self) -> &T {
        &self.element
    }

    fn next_cloned(&self) -> Option<Self> {
        match &self.next {
            Some(n) => Some(rc_clone(n)),
            None => None,
        }
    }

    fn next_ref(&self) -> Option<&Self> {
        self.next.as_ref()
    }

    fn link_ref(&self) -> &Self {
        self
    }
}

/// The number of nodes that are still to be looked at.
spec fn remaining<T>(next: Option<Rc<Node<T>>>) -> nat {
    match next {
        Some(n) => n.chain().len(),
        None => 0,
    }
}

/// Takes the next node out of `node`, which is left with its element alone.
fn take_next<T>(node: &mut Node<T>) -> (next: Option<Rc<Node<T>>>)
    ensures
        next == old(node).next,
        final(node).next is None,
        final(node).element == old(node).element,
        final(node).chain() == old(node).chain().take(1),
    opens_invariants none
    no_unwind
{
    let mut next: Option<Rc<Node<T>>> = None;
    std::mem::swap(&mut next, &mut node.next);
    proof {
        assert(node.chain() =~= old(node).chain().take(1));
    }
    next
}

/// The node to release after a node was asked for: the one behind it where
/// the node was handed over, because no other list holds it, and none where
/// the node is still shared, so that what others hold is left alone.
fn next_to_release<T>(unwrapped: Result<Node<T>, Rc<Node<T>>>) -> (next: Option<Rc<Node<T>>>)
    ensures
        match unwrapped {
            Ok(inner) => next == inner.next,
            Err(_) => next is None,
        },
    opens_invariants none
    no_unwind
{
    match unwrapped {
        Ok(inner) => {
            let mut inner = inner;
            take_next(&mut inner)
        },
        Err(_) => None,
    }
}

impl<T> Drop for Node<T> {
    /// Releases the chain behind this node one node at a time, as far as no
    /// other list holds it, so that a long chain needs no deep recursion.
    /// The node itself is left with its element alone.
    fn drop(&mut self)
        ensures
            final(self).chain() == old(self).chain().take(1),
        opens_invariants none
        no_unwind
    {
        let mut next = take_next(self);
        loop
            invariant
                self.chain() == old(self).chain().take(1),
            decreases remaining(next),
        {
            match next {
                None => {
                    break ;
                },
                Some(node) => {
                    next = next_to_release(rc_try_unwrap(node));
                },
            }
        }
    }
}

} // verus!
