//! A binary tree that so far is its root alone.

use vstd::prelude::*;

verus! {

/// A binary tree that holds at most one value, at its root.
pub struct BinaryTree<T> {
    v: Option<T>,
}

impl<T> View for BinaryTree<T> {
    type V = Option<T>;

    /// The value at the root, if there is one.
    closed spec fn view(&self) -> Option<T> {
        self.v
    }
}

impl<T> BinaryTree<T> {
    /// The empty tree.
    pub fn new() -> (r: Self)
        ensures
            r@ is None,
    {
        Self { v: None }
    }

    pub fn is_empty(&self) -> (r: bool)
        ensures
            r == (self@ is None),
    {
        self.v.is_none()
    }

    /// The value at the root, if there is one.
    pub fn root(&self) -> (r: Option<&T>)
        ensures
            match r {
                Some(v) => self@ == Some(*v),
                None => self@ is None,
            },
    {
        self.v.as_ref()
    }
}

} // verus!
