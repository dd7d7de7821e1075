//! A tree whose nodes hold an element and a list of subtrees.

use crate::shared::handle::rc_clone;
use crate::shared::list_eq::{zip_longest, Zipped};
use crate::unsync::list::List;
use std::rc::Rc;
use vstd::prelude::*;
use vstd::std_specs::cmp::{PartialEqSpec, PartialEqSpecImpl};

verus! {

/// A persistent tree of any width: a handle on an optional root node.
#[derive(Debug)]
pub struct Tree<T> {
    root: Option<Rc<TreeNode<T>>>,
}

#[derive(Debug)]
struct TreeNode<T> {
    element: T,
    children: List<Tree<T>>,
}

impl<T> TreeNode<T> {
    fn leaf(element: T) -> (r: Self)
        ensures
            r.element == element,
            r.children@ == Seq::<Tree<T>>::empty(),
    {
        Self { element, children: List::new() }
    }

    fn new(element: T, children: List<Tree<T>>) -> (r: Self)
        ensures
            r.element == element,
            r.children == children,
    {
        Self { element, children }
    }
}

impl<T> Tree<T> {
    /// The element at the root, if there is one.
    pub closed spec fn spec_root(&self) -> Option<T> {
        match self.root {
            Some(node) => Some(node.element),
            None => None,
        }
    }

    /// The subtrees of the root, if there is one.
    pub closed spec fn spec_children(&self) -> Option<List<Tree<T>>> {
        match self.root {
            Some(node) => Some(node.children),
            None => None,
        }
    }

    /// The empty tree.
    pub fn new() -> (r: Self)
        ensures
            r.spec_root() is None,
            r.spec_children() is None,
    {
        Tree { root: None }
    }

    /// The tree of one node without subtrees.
    pub fn leaf(x: T) -> (r: Self)
        ensures
            r.spec_root() == Some(x),
            r.spec_children() is Some,
            r.spec_children()->0@ == Seq::<Tree<T>>::empty(),
    {
        Tree { root: Some(Rc::new(TreeNode::leaf(x))) }
    }

    /// The tree with `x` at the root above the given subtrees.
    pub fn tree(x: T, children: List<Self>) -> (r: Self)
        ensures
            r.spec_root() == Some(x),
            r.spec_children() == Some(children),
    {
        Tree { root: Some(Rc::new(TreeNode::new(x, children))) }
    }

    pub fn is_empty(&self) -> (r: bool)
        ensures
            r == (self.spec_root() is None),
    {
        self.root.is_none()
    }

    /// The element at the root, if there is one.
    pub fn root(&self) -> (r: Option<&T>)
        ensures
            match r {
                Some(x) => self.spec_root() == Some(*x),
                None => self.spec_root() is None,
            },
    {
        match &self.root {
            Some(node) => Some(&node.element),
            None => None,
        }
    }

    /// The subtrees of the root, if there is one.
    pub fn children(&self) -> (r: Option<&List<Tree<T>>>)
        ensures
            match r {
                Some(c) => self.spec_children() == Some(*c),
                None => self.spec_children() is None,
            },
    {
        match &self.root {
            Some(node) => Some(&node.children),
            None => None,
        }
    }
}

impl<T> Clone for Tree<T> {
    /// Another handle on the same tree.
    fn clone(&self) -> (r: Self)
        ensures
            r == *self,
    {
        match &self.root {
            Some(node) => Tree { root: Some(rc_clone(node)) },
            None => Tree { root: None },
        }
    }
}

impl<T> Tree<T> {
    /// A tree is built from each of the subtrees of its root.
    pub proof fn lemma_children_are_parts(&self, i: int)
        requires
            self.spec_children() is Some,
            0 <= i < self.spec_children()->0@.len(),
        ensures
            decreases_to!(*self => self.spec_children()->0@[i]),
    {
        let node = self.root->0;
        node.children.lemma_elements_are_parts(i);
        assert(decreases_to!(*self => self.root));
        assert(decreases_to!(self.root => node));
        assert(decreases_to!(node => node.children));
    }

    /// A tree has a root exactly if it has a list of subtrees.
    pub proof fn lemma_root_and_children(&self)
        ensures
            self.spec_root() is Some <==> self.spec_children() is Some,
    {
    }
}

impl<T: PartialEq> Tree<T> {
    /// Both trees are empty, or both have equal elements at their roots and
    /// equally many subtrees, which are the same in turn.
    pub open spec fn is_same(&self, other: &Self) -> bool
        decreases *self,
    {
        match (self.spec_root(), other.spec_root()) {
            (None, None) => true,
            (Some(x), Some(y)) => {
                let mine = self.spec_children()->0@;
                let theirs = other.spec_children()->0@;
                &&& x.eq_spec(&y)
                &&& mine.len() == theirs.len()
                &&& forall|i: int|
                    #![trigger mine[i]]
                    0 <= i < mine.len() ==> {
                        proof {
                            self.lemma_root_and_children();
                            self.lemma_children_are_parts(i);
                        }
                        mine[i].is_same(&theirs[i])
                    }
            },
            _ => false,
        }
    }

    /// Whether the two trees are the same. The subtrees are walked side by
    /// side until a pair of them differs or one list of them has ended.
    fn same(&self, other: &Self) -> (r: bool)
        ensures
            T::obeys_eq_spec() ==> r == self.is_same(other),
        decreases *self,
    {
        match &self.root {
            None => other.root.is_none(),
            Some(x) => match &other.root {
                None => false,
                Some(y) => {
                    if !(x.element == y.element) {
                        return false;
                    }
                    let pairs = zip_longest(x.children.to_refs(), y.children.to_refs());
                    let ghost mine = x.children@;
                    let ghost theirs = y.children@;
                    let mut i: usize = 0;
                    while i < pairs.len()
                        invariant
                            i <= pairs@.len(),
                            self.spec_root() == Some(x.element),
                            other.spec_root() == Some(y.element),
                            self.spec_children() == Some(x.children),
                            other.spec_children() == Some(y.children),
                            mine == x.children@,
                            theirs == y.children@,
                            pairs@.len() == if mine.len() >= theirs.len() {
                                mine.len()
                            } else {
                                theirs.len()
                            },
                            forall|j: int|
                                0 <= j < pairs@.len() ==> match #[trigger] pairs@[j] {
                                    Zipped::Both(a, b) => j < mine.len() && j < theirs.len() && *a
                                        == mine[j] && *b == theirs[j],
                                    Zipped::Left(a) => j >= theirs.len(),
                                    Zipped::Right(b) => j >= mine.len(),
                                },
                            T::obeys_eq_spec() ==> x.element.eq_spec(&y.element),
                            T::obeys_eq_spec() ==> forall|j: int|
                                0 <= j < i ==> j < mine.len() && j < theirs.len() && (
                                #[trigger] mine[j]).is_same(&theirs[j]),
                        decreases pairs@.len() - i,
                    {
                        match &pairs[i] {
                            Zipped::Both(a, b) => {
                                proof {
                                    self.lemma_children_are_parts(i as int);
                                }
                                if !a.same(b) {
                                    return false;
                                }
                            },
                            Zipped::Left(_) => {
                                return false;
                            },
                            Zipped::Right(_) => {
                                return false;
                            },
                        }
                        i = i + 1;
                    }
                    proof {
                        if T::obeys_eq_spec() && pairs@.len() > 0 {
                            let last = pairs@.len() - 1;
                            assert(mine[last].is_same(&theirs[last]));
                        }
                    }
                    true
                },
            },
        }
    }
}

impl<T: PartialEq> PartialEq for Tree<T> {
    fn eq(&self, other: &Self) -> (r: bool) {
        self.same(other)
    }
}

impl<T: PartialEq> PartialEqSpecImpl for Tree<T> {
    open spec fn obeys_eq_spec() -> bool {
        T::obeys_eq_spec()
    }

    open spec fn eq_spec(&self, other: &Self) -> bool {
        self.is_same(other)
    }
}

} // verus!
