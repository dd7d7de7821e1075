//! The persistent red-black tree, generic over its nodes.

use super::cloning::clones_exactly;
use super::order::{
    comparison_is_specified, is_query, is_sortable, lemma_ties_with_itself, ties,
};
use super::rb_node::{shape_of, Colour, RBNode, Shape};
use super::rb_shape::{
    lemma_balance_black, lemma_coloured_like, lemma_coloured_like_itself, lemma_find,
    lemma_inserted_in_order, lemma_no_elements, lemma_replaced_in_place,
};
use super::sorted::{has_tie, is_sorted, lemma_inserted_ties, seq_inserted};
use vstd::prelude::*;

verus! {

/// Elements of type `T` keep a tree in order: the type can be sorted by, and
/// an element is the same after it was cloned into a new node.
pub open spec fn is_lawful_element<T: PartialOrd + Clone>() -> bool {
    is_sortable::<T>() && clones_exactly::<T>()
}

/// Whether the node is there and red.
fn is_red_link<L: RBNode>(node: &Option<L>) -> (r: bool)
    ensures
        r == shape_of(*node).is_red(),
{
    match node {
        None => false,
        Some(n) => {
            match n.get_colour() {
                Colour::Red => true,
                Colour::Black => false,
            }
        },
    }
}

/// The node with its colour changed; the node itself where it has that
/// colour already.
fn paint_link<L>(node: &Option<L>, colour: Colour) -> (r: Option<L>) where
    L: RBNode,
    L::ValueType: Clone,

    ensures
        shape_of(r).is_coloured_like(shape_of(*node).painted(colour)),
        clones_exactly::<L::ValueType>() ==> shape_of(r) == shape_of(*node).painted(colour),
{
    match node {
        None => None,
        Some(n) => {
            proof {
                n.lemma_shape_is_fork();
                lemma_coloured_like_itself(n.shape().left());
                lemma_coloured_like_itself(n.shape().right());
            }
            if n.get_colour() == colour {
                let same = n.clone();
                proof {
                    lemma_coloured_like_itself(n.shape());
                }
                Some(same)
            } else {
                Some(L::node(colour, n.get_element().clone(), n.left_cloned(), n.right_cloned()))
            }
        },
    }
}

/// The local repair at a node that was rebuilt during an insertion.
fn balance_node<L>(c: Colour, x: L::ValueType, left: Option<L>, right: Option<L>) -> (r: Option<
    L,
>) where L: RBNode, L::ValueType: Clone
    ensures
        r is Some,
        shape_of(r).is_coloured_like(Shape::balance(c, shape_of(left), x, shape_of(right))),
        clones_exactly::<L::ValueType>() ==> shape_of(r) == Shape::balance(
            c,
            shape_of(left),
            x,
            shape_of(right),
        ),
{
    proof {
        reveal_with_fuel(Shape::is_coloured_like, 3);
        lemma_coloured_like_itself(shape_of(left));
        lemma_coloured_like_itself(shape_of(right));
        lemma_coloured_like_itself(shape_of(left).left());
        lemma_coloured_like_itself(shape_of(left).right());
        lemma_coloured_like_itself(shape_of(right).left());
        lemma_coloured_like_itself(shape_of(right).right());
    }
    if c == Colour::Black {
        if is_red_link(&left) {
            let l = left.as_ref().unwrap();
            let ll = l.left_cloned();
            if is_red_link(&ll) {
                let new_left = paint_link(&ll, Colour::Black);
                let new_right = L::node(Colour::Black, x, l.right_cloned(), right);
                return Some(
                    L::node(Colour::Red, l.get_element().clone(), new_left, Some(new_right)),
                );
            }
            let lr = l.right_cloned();
            if is_red_link(&lr) {
                let m = lr.as_ref().unwrap();
                proof {
                    lemma_coloured_like_itself(m.shape().left());
                    lemma_coloured_like_itself(m.shape().right());
                }
                let new_left = L::node(
                    Colour::Black,
                    l.get_element().clone(),
                    ll,
                    m.left_cloned(),
                );
                let new_right = L::node(Colour::Black, x, m.right_cloned(), right);
                return Some(
                    L::node(
                        Colour::Red,
                        m.get_element().clone(),
                        Some(new_left),
                        Some(new_right),
                    ),
                );
            }
        }
        if is_red_link(&right) {
            let r = right.as_ref().unwrap();
            let rl = r.left_cloned();
            if is_red_link(&rl) {
                let m = rl.as_ref().unwrap();
                proof {
                    lemma_coloured_like_itself(m.shape().left());
                    lemma_coloured_like_itself(m.shape().right());
                }
                let new_left = L::node(Colour::Black, x, left, m.left_cloned());
                let new_right = L::node(
                    Colour::Black,
                    r.get_element().clone(),
                    m.right_cloned(),
                    r.right_cloned(),
                );
                return Some(
                    L::node(
                        Colour::Red,
                        m.get_element().clone(),
                        Some(new_left),
                        Some(new_right),
                    ),
                );
            }
            let rr = r.right_cloned();
            if is_red_link(&rr) {
                let new_left = L::node(Colour::Black, x, left, rl);
                let new_right = paint_link(&rr, Colour::Black);
                return Some(
                    L::node(Colour::Red, r.get_element().clone(), Some(new_left), new_right),
                );
            }
        }
    }
    Some(L::node(c, x, left, right))
}

/// The insertion before the root is painted: a red leaf where the search
/// for `x` ends, and the repair at every node on the way back up. Only the
/// nodes on that way are made anew; every other subtree is shared.
fn sorted_insert<L>(node: &Option<L>, x: L::ValueType, replace: bool) -> (r: Option<L>) where
    L: RBNode,
    L::ValueType: PartialOrd + Clone,

    requires
        shape_of(*node).is_balanced(),
    ensures
        shape_of(r) is Fork,
        shape_of(r).is_evenly_black(),
        shape_of(r).black_height() == shape_of(*node).black_height(),
        shape_of(r).has_no_red_red_below_root(),
        !shape_of(*node).is_red() ==> shape_of(r).has_no_red_red(),
        comparison_is_specified::<L::ValueType, L::ValueType>() && clones_exactly::<
            L::ValueType,
        >() ==> shape_of(r) == shape_of(*node).grown(x, replace),
    decreases shape_of(*node),
{
    match node {
        None => Some(L::leaf(x)),
        Some(node) => {
            proof {
                node.lemma_shape_is_fork();
                assert(node.shape().has_no_red_red_below_root());
            }
            let colour = node.get_colour();
            let element = node.get_element();
            if x < *element {
                let kept = element.clone();
                let left = sorted_insert(&node.left_cloned(), x, replace);
                let right = node.right_cloned();
                let r = balance_node(colour, kept, left, right);
                proof {
                    let b = Shape::balance(colour, shape_of(left), kept, shape_of(right));
                    if colour == Colour::Black {
                        lemma_balance_black(shape_of(left), kept, shape_of(right));
                    }
                    lemma_coloured_like(shape_of(r), b);
                    r->0.lemma_shape_is_fork();
                }
                r
            } else if x > *element {
                let kept = element.clone();
                let left = node.left_cloned();
                let right = sorted_insert(&node.right_cloned(), x, replace);
                let r = balance_node(colour, kept, left, right);
                proof {
                    let b = Shape::balance(colour, shape_of(left), kept, shape_of(right));
                    if colour == Colour::Black {
                        lemma_balance_black(shape_of(left), kept, shape_of(right));
                    }
                    lemma_coloured_like(shape_of(r), b);
                    r->0.lemma_shape_is_fork();
                }
                r
            } else if replace {
                Some(L::node(colour, x, node.left_cloned(), node.right_cloned()))
            } else {
                Some(node.clone())
            }
        },
    }
}

/// The insertion: `sorted_insert`, and the root painted black.
fn node_inserted<L>(node: &Option<L>, x: L::ValueType, replace: bool) -> (r: Option<L>) where
    L: RBNode,
    L::ValueType: PartialOrd + Clone,

    requires
        shape_of(*node).is_balanced(),
    ensures
        shape_of(r).is_red_black(),
        shape_of(r).is_black(),
        comparison_is_specified::<L::ValueType, L::ValueType>() && clones_exactly::<
            L::ValueType,
        >() ==> shape_of(r) == shape_of(*node).inserted(x, replace),
{
    let new_link = sorted_insert(node, x, replace);
    let r = paint_link(&new_link, Colour::Black);
    proof {
        lemma_coloured_like(shape_of(r), shape_of(new_link).painted(Colour::Black));
    }
    r
}

/// A persistent red-black tree: a handle on an optional root node.
#[derive(Debug)]
pub struct RBTree<L: RBNode> where L::ValueType: PartialOrd + Clone {
    root: Option<L>,
}

impl<L: RBNode> Default for RBTree<L> where L::ValueType: PartialOrd + Clone {
    /// The empty tree.
    fn default() -> (r: Self)
        ensures
            r.shape() is Empty,
    {
        RBTree { root: None }
    }
}

impl<L: RBNode> Clone for RBTree<L> where L::ValueType: PartialOrd + Clone {
    /// Another handle on the same tree.
    fn clone(&self) -> (r: Self)
        ensures
            r == *self,
    {
        proof {
            use_type_invariant(self);
        }
        match &self.root {
            Some(n) => RBTree { root: Some(n.clone()) },
            None => RBTree { root: None },
        }
    }
}

impl<L: RBNode> View for RBTree<L> where L::ValueType: PartialOrd + Clone {
    type V = Seq<L::ValueType>;

    /// The elements from left to right.
    open spec fn view(&self) -> Seq<L::ValueType> {
        self.shape().in_order()
    }
}

impl<L: RBNode> RBTree<L> where L::ValueType: PartialOrd + Clone {
    /// What holds of every tree: the colour rules of a subtree, and the
    /// elements in order wherever the element type is lawful.
    #[verifier::type_invariant]
    pub closed spec fn is_well_formed(&self) -> bool {
        &&& shape_of(self.root).is_balanced()
        &&& is_lawful_element::<L::ValueType>() ==> is_sorted(shape_of(self.root).in_order())
    }

    /// The shape of the tree.
    pub closed spec fn shape(&self) -> Shape<L::ValueType> {
        shape_of(self.root)
    }

    /// Some element of the tree ties with `q`.
    pub open spec fn has<Q>(&self, q: Q) -> bool where L::ValueType: PartialOrd<Q> {
        has_tie(self@, q)
    }

    /// What a well-formed tree is: it obeys the colour rules of a subtree,
    /// and is sorted where its element type is lawful.
    pub proof fn lemma_well_formed(&self)
        ensures
            self.is_well_formed() <==> {
                &&& self.shape().is_balanced()
                &&& is_lawful_element::<L::ValueType>() ==> is_sorted(self@)
            },
    {
    }

    /// The empty tree.
    pub fn new() -> (r: Self)
        ensures
            r.shape() is Empty,
    {
        RBTree { root: None }
    }

    pub fn is_empty(&self) -> (r: bool)
        ensures
            r == (self.shape() is Empty),
            r == (self@.len() == 0),
    {
        proof {
            if self.root is Some {
                self.root->0.lemma_shape_is_fork();
            }
            lemma_no_elements(self.shape());
        }
        self.root.is_none()
    }

    /// The tree of one red node that holds `element`.
    pub fn leaf(element: L::ValueType) -> (r: Self)
        ensures
            r.shape() == Shape::single(element),
    {
        let node = L::leaf(element);
        proof {
            reveal_with_fuel(Shape::in_order, 2);
            reveal_with_fuel(Shape::has_no_red_red, 2);
            reveal_with_fuel(Shape::is_evenly_black, 2);
            assert(Shape::single(element).in_order() =~= seq![element]);
        }
        RBTree { root: Some(node) }
    }

    /// The element at the root, if there is one.
    pub fn root(&self) -> (r: Option<&L::ValueType>)
        ensures
            match r {
                Some(e) => self.shape() matches Shape::Fork { element, .. } && element == *e,
                None => self.shape() is Empty,
            },
    {
        match &self.root {
            Some(n) => Some(n.get_element()),
            None => None,
        }
    }

    /// The colour of the root, if there is one.
    pub fn root_colour(&self) -> (r: Option<Colour>)
        ensures
            match r {
                Some(c) => self.shape() matches Shape::Fork { colour, .. } && colour == c,
                None => self.shape() is Empty,
            },
    {
        match &self.root {
            Some(n) => Some(n.get_colour()),
            None => None,
        }
    }

    /// The left subtree. The tree must not be empty.
    pub fn left(&self) -> (r: Self)
        requires
            !(self.shape() is Empty),
        ensures
            r.shape() == self.shape().left(),
    {
        proof {
            use_type_invariant(self);
            if is_lawful_element::<L::ValueType>() {
                self.lemma_subtrees_sorted();
            }
        }
        match &self.root {
            Some(n) => RBTree { root: n.left_cloned() },
            None => vstd::pervasive::unreached(),
        }
    }

    /// The right subtree. The tree must not be empty.
    pub fn right(&self) -> (r: Self)
        requires
            !(self.shape() is Empty),
        ensures
            r.shape() == self.shape().right(),
    {
        proof {
            use_type_invariant(self);
            if is_lawful_element::<L::ValueType>() {
                self.lemma_subtrees_sorted();
            }
        }
        match &self.root {
            Some(n) => RBTree { root: n.right_cloned() },
            None => vstd::pervasive::unreached(),
        }
    }

    proof fn lemma_subtrees_sorted(&self)
        requires
            is_sorted(self@),
        ensures
            is_sorted(self.shape().left().in_order()),
            is_sorted(self.shape().right().in_order()),
    {
        let s = self.shape();
        let a = s.left().in_order();
        let b = s.right().in_order();
        if s is Fork {
            assert(s.in_order() =~= a + (seq![s->element] + b));
            super::sorted::lemma_sorted_parts(a, seq![s->element] + b);
            super::sorted::lemma_sorted_parts(seq![s->element], b);
        }
    }

    /// Whether some element ties with `q`.
    pub fn contains<Q>(&self, q: &Q) -> (r: bool) where L::ValueType: PartialOrd<Q>
        ensures
            self.shape() is Empty ==> !r,
            comparison_is_specified::<L::ValueType, Q>() ==> r == (self.shape().find(*q) is Some),
            is_lawful_element::<L::ValueType>() && is_query::<L::ValueType, Q>(*q) ==> r
                == self.has(*q),
    {
        proof {
            use_type_invariant(self);
            if self.root is Some {
                self.root->0.lemma_shape_is_fork();
            }
            if is_lawful_element::<L::ValueType>() && is_query::<L::ValueType, Q>(*q) {
                lemma_find(self.shape(), *q);
            }
        }
        match &self.root {
            Some(n) => n.contains(q),
            None => false,
        }
    }

    /// The element that ties with `q`, if there is one.
    pub fn get<Q>(&self, q: &Q) -> (r: Option<&L::ValueType>) where L::ValueType: PartialOrd<Q>
        ensures
            self.shape() is Empty ==> r is None,
            comparison_is_specified::<L::ValueType, Q>() ==> match r {
                Some(e) => self.shape().find(*q) == Some(*e),
                None => self.shape().find(*q) is None,
            },
            is_lawful_element::<L::ValueType>() && is_query::<L::ValueType, Q>(*q) ==> match r {
                Some(e) => self@.contains(*e) && ties(*e, *q),
                None => !self.has(*q),
            },
    {
        proof {
            use_type_invariant(self);
            if self.root is Some {
                self.root->0.lemma_shape_is_fork();
            }
            if is_lawful_element::<L::ValueType>() && is_query::<L::ValueType, Q>(*q) {
                lemma_find(self.shape(), *q);
            }
        }
        match &self.root {
            Some(n) => n.get(q),
            None => None,
        }
    }

    /// The element that ties with `q`, or `default` where there is none.
    pub fn get_or_default<'a, Q>(&'a self, q: &Q, default: &'a L::ValueType) -> (r:
        &'a L::ValueType) where L::ValueType: PartialOrd<Q>
        ensures
            self.shape() is Empty ==> *r == *default,
            comparison_is_specified::<L::ValueType, Q>() ==> *r == match self.shape().find(*q) {
                Some(e) => e,
                None => *default,
            },
            is_lawful_element::<L::ValueType>() && is_query::<L::ValueType, Q>(*q) ==> if self.has(
                *q,
            ) {
                self@.contains(*r) && ties(*r, *q)
            } else {
                *r == *default
            },
    {
        match self.get(q) {
            Some(e) => e,
            None => default,
        }
    }

    /// The tree with `x` inserted; the tree as it is where an element ties
    /// with `x`.
    pub fn inserted(&self, x: L::ValueType) -> (r: Self)
        ensures
            r.shape().is_red_black(),
            r.shape().is_black(),
            comparison_is_specified::<L::ValueType, L::ValueType>() && clones_exactly::<
                L::ValueType,
            >() ==> r.shape() == self.shape().inserted(x, false),
            is_lawful_element::<L::ValueType>() ==> {
                &&& r@ == seq_inserted(self@, x, false)
                &&& is_sorted(r@)
                &&& r.has(x)
                &&& forall|q: L::ValueType| #[trigger] r.has(q) <==> self.has(q) || ties(x, q)
            },
    {
        proof {
            use_type_invariant(self);
            if is_lawful_element::<L::ValueType>() {
                lemma_inserted_in_order(self.shape(), x, false);
                lemma_ties_with_itself(x);
                assert forall|q: L::ValueType|
                    has_tie(seq_inserted(self@, x, false), q) <==> self.has(q) || ties(x, q) by {
                    lemma_inserted_ties(self@, x, false, q);
                }
            }
        }
        RBTree { root: node_inserted(&self.root, x, false) }
    }

    /// The tree with `x` inserted; where an element ties with `x`, the tree
    /// with `x` in its place and every node and colour as before.
    pub fn inserted_or_replaced(&self, x: L::ValueType) -> (r: Self)
        ensures
            r.shape().is_red_black(),
            r.shape().is_black(),
            comparison_is_specified::<L::ValueType, L::ValueType>() && clones_exactly::<
                L::ValueType,
            >() ==> r.shape() == self.shape().inserted(x, true),
            is_lawful_element::<L::ValueType>() ==> {
                &&& r@ == seq_inserted(self@, x, true)
                &&& is_sorted(r@)
                &&& r.has(x)
                &&& forall|q: L::ValueType| #[trigger] r.has(q) <==> self.has(q) || ties(x, q)
                &&& self.has(x) && !self.shape().is_red() ==> r.shape().is_coloured_like(
                    self.shape(),
                )
            },
    {
        proof {
            use_type_invariant(self);
            if is_lawful_element::<L::ValueType>() {
                if self.has(x) && !self.shape().is_red() {
                    lemma_replaced_in_place(self.shape(), x);
                }
                lemma_inserted_in_order(self.shape(), x, true);
                lemma_ties_with_itself(x);
                assert forall|q: L::ValueType|
                    has_tie(seq_inserted(self@, x, true), q) <==> self.has(q) || ties(x, q) by {
                    lemma_inserted_ties(self@, x, true, q);
                }
            }
        }
        RBTree { root: node_inserted(&self.root, x, true) }
    }
}

} // verus!
