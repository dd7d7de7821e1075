//! The red-black tree whose nodes are shared within one thread.

use crate::shared;
use crate::shared::handle::rc_clone;
use crate::shared::rb_node::{Colour, RBNode, Shape};
use std::rc::Rc;
use vstd::prelude::*;

verus! {

pub type RBTree<T> = shared::rb_tree::RBTree<Rc<Node<T>>>;

/// A node of the tree. It is never changed once it is made.
#[derive(Debug)]
pub struct Node<T> {
    element: T,
    colour: Colour,
    left: Option<Rc<Node<T>>>,
    right: Option<Rc<Node<T>>>,
}

impl<T> Node<T> {
    /// The tree below and including this node.
    pub closed spec fn as_shape(&self) -> Shape<T>
        decreases self,
    {
        Shape::fork(
            self.colour,
            match self.left {
                Some(l) => l.as_shape(),
                None => Shape::Empty,
            },
            self.element,
            match self.right {
                Some(r) => r.as_shape(),
                None => Shape::Empty,
            },
        )
    }
}

impl<T> RBNode for Rc<Node<T>> {
    type ValueType = T;

    closed spec fn shape(&self) -> Shape<T> {
        (**self).as_shape()
    }

    proof fn lemma_shape_is_fork(&self) {
    }

    fn leaf(element: T) -> Self {
        Rc::new(Node { element, colour: Colour::Red, left: None, right: None })
    }

    fn node(colour: Colour, element: T, left: Option<Self>, right: Option<Self>) -> Self {
        Rc::new(Node { element, colour, left, right })
    }

    fn clone(&self) -> Self {
        rc_clone(self)
    }

    fn get_element(&self) -> &T {
        &self.element
    }

    fn get_colour(&self) -> Colour {
        self.colour
    }

    fn left_cloned(&self) -> Option<Self> {
        match &self.left {
            Some(l) => Some(rc_clone(l)),
            None => None,
        }
    }

    fn right_cloned(&self) -> Option<Self> {
        match &self.right {
            Some(r) => Some(rc_clone(r)),
            None => None,
        }
    }

    fn contains<Q>(&self, q: &Q) -> (r: bool) where T: PartialOrd<Q>
        decreases self,
    {
        proof {
            reveal_with_fuel(Shape::find, 2);
        }
        if self.element > *q {
            match &self.left {
                Some(l) => l.contains(q),
                None => false,
            }
        } else if self.element < *q {
            match &self.right {
                Some(r) => r.contains(q),
                None => false,
            }
        } else {
            true
        }
    }

    fn get<Q>(&self, q: &Q) -> (r: Option<&T>) where T: PartialOrd<Q>
        decreases self,
    {
        proof {
            reveal_with_fuel(Shape::find, 2);
        }
        if self.element > *q {
            match &self.left {
                Some(l) => l.get(q),
                None => None,
            }
        } else if self.element < *q {
            match &self.right {
                Some(r) => r.get(q),
                None => None,
            }
        } else {
            Some(&self.element)
        }
    }
}

} // verus!
