//! What a node of a red-black tree has to offer, and the shape it stands for.

use super::order::{comparison_is_specified, follows, precedes};
use vstd::prelude::*;

verus! {

/// The colour of a node.
#[derive(Debug, Copy, Clone, PartialEq, Eq, Structural)]
pub enum Colour {
    Red,
    Black,
}

/// The mathematical tree that a node and all below it stand for.
pub enum Shape<T> {
    Empty,
    Fork { colour: Colour, left: Box<Shape<T>>, element: T, right: Box<Shape<T>> },
}

impl<T> Shape<T> {
    /// The tree with the given root and subtrees.
    pub open spec fn fork(colour: Colour, left: Shape<T>, element: T, right: Shape<T>) -> Shape<T> {
        Shape::Fork { colour, left: Box::new(left), element, right: Box::new(right) }
    }

    /// The tree of one red node.
    pub open spec fn single(element: T) -> Shape<T> {
        Shape::fork(Colour::Red, Shape::Empty, element, Shape::Empty)
    }

    /// The left subtree; of the empty tree, the empty tree.
    pub open spec fn left(self) -> Shape<T> {
        match self {
            Shape::Fork { left, .. } => *left,
            Shape::Empty => Shape::Empty,
        }
    }

    /// The right subtree; of the empty tree, the empty tree.
    pub open spec fn right(self) -> Shape<T> {
        match self {
            Shape::Fork { right, .. } => *right,
            Shape::Empty => Shape::Empty,
        }
    }

    /// The root is there and it is red.
    pub open spec fn is_red(self) -> bool {
        self matches Shape::Fork { colour: Colour::Red, .. }
    }

    /// The root is there and it is black.
    pub open spec fn is_black(self) -> bool {
        self matches Shape::Fork { colour: Colour::Black, .. }
    }

    /// The elements from left to right.
    pub open spec fn in_order(self) -> Seq<T>
        decreases self,
    {
        match self {
            Shape::Empty => Seq::empty(),
            Shape::Fork { left, element, right, .. } => left.in_order().push(element)
                + right.in_order(),
        }
    }

    /// The element that an ordered search for `q` arrives at: from each node
    /// it goes left where the node's element sorts after `q`, right where it
    /// sorts before `q`, and stops where it does neither.
    pub open spec fn find<Q>(self, q: Q) -> Option<T> where T: PartialOrd<Q>
        decreases self,
    {
        match self {
            Shape::Empty => None,
            Shape::Fork { left, element, right, .. } => if follows(element, q) {
                left.find(q)
            } else if precedes(element, q) {
                right.find(q)
            } else {
                Some(element)
            },
        }
    }
}

/// The shape that an optional node stands for.
pub open spec fn shape_of<L: RBNode>(node: Option<L>) -> Shape<L::ValueType> {
    match node {
        Some(n) => n.shape(),
        None => Shape::Empty,
    }
}

/// A node of a red-black tree: an element, a colour and two optional
/// children, shared and never changed once made.
pub trait RBNode: Sized {
    type ValueType;

    /// The tree below and including this node.
    spec fn shape(&self) -> Shape<Self::ValueType>;

    /// A node always holds an element.
    proof fn lemma_shape_is_fork(&self)
        ensures
            self.shape() is Fork,
    ;

    /// The colour of a leaf must be `Colour::Red`.
    fn leaf(element: Self::ValueType) -> (r: Self)
        ensures
            r.shape() == Shape::single(element),
    ;

    /// A node with the given colour, element and children.
    fn node(colour: Colour, element: Self::ValueType, left: Option<Self>, right: Option<Self>) -> (r:
        Self)
        ensures
            r.shape() == Shape::fork(
                colour,
                match left {
                    Some(l) => l.shape(),
                    None => Shape::Empty,
                },
                element,
                match right {
                    Some(r) => r.shape(),
                    None => Shape::Empty,
                },
            ),
    ;

    /// Another handle on the same node.
    fn clone(&self) -> (r: Self)
        ensures
            r == *self,
    ;

    fn get_element(&self) -> (r: &Self::ValueType)
        ensures
            self.shape() matches Shape::Fork { element, .. } && element == *r,
    ;

    fn get_colour(&self) -> (r: Colour)
        ensures
            self.shape() matches Shape::Fork { colour, .. } && colour == r,
    ;

    fn left_cloned(&self) -> (r: Option<Self>)
        ensures
            match r {
                Some(l) => l.shape() == self.shape().left(),
                None => self.shape().left() is Empty,
            },
    ;

    fn right_cloned(&self) -> (r: Option<Self>)
        ensures
            match r {
                Some(l) => l.shape() == self.shape().right(),
                None => self.shape().right() is Empty,
            },
    ;

    /// Whether the ordered search for `q` arrives at an element.
    fn contains<Q>(&self, q: &Q) -> (r: bool) where Self::ValueType: PartialOrd<Q>
        ensures
            comparison_is_specified::<Self::ValueType, Q>() ==> r == (self.shape().find(*q) is Some),
    ;

    /// The element that the ordered search for `q` arrives at.
    fn get<Q>(&self, q: &Q) -> (r: Option<&Self::ValueType>) where Self::ValueType: PartialOrd<Q>
        ensures
            comparison_is_specified::<Self::ValueType, Q>() ==> match r {
                Some(e) => self.shape().find(*q) == Some(*e),
                None => self.shape().find(*q) is None,
            },
    ;
}

} // verus!
