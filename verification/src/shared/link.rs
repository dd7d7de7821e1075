//! What a node of a list has to offer.

use vstd::prelude::*;

verus! {

/// A node of a list: an element and an optional next node, shared and never
/// changed once made.
pub trait Link: Sized {
    type ValueType;

    /// The node that holds `element` in front of `next`.
    spec fn spec_cons(element: Self::ValueType, next: Option<Self>) -> Self;

    /// The node that follows this one.
    spec fn next(&self) -> Option<Self>;

    /// The elements from this node to the end of the chain.
    spec fn elements(&self) -> Seq<Self::ValueType>;

    /// A chain is its first element and the chain of the next node; a node
    /// made from an element and a next node has these two.
    proof fn lemma_chain(element: Self::ValueType, next: Option<Self>)
        ensures
            Self::spec_cons(element, next).next() == next,
            Self::spec_cons(element, next).elements() == seq![element] + match next {
                Some(n) => n.elements(),
                None => Seq::empty(),
            },
    ;

    /// Every node holds an element, and after it come the elements of the
    /// next node.
    proof fn lemma_elements(&self)
        ensures
            self.elements().len() > 0,
            self.elements().drop_first() == match self.next() {
                Some(n) => n.elements(),
                None => Seq::empty(),
            },
    ;

    /// A node is built from each of the elements of its chain.
    proof fn lemma_elements_are_parts(&self, i: int)
        requires
            0 <= i < self.elements().len(),
        ensures
            decreases_to!(*self => self.elements()[i]),
    ;

    fn from_value(element: Self::ValueType) -> (r: Self)
        ensures
            r == Self::spec_cons(element, None),
    ;

    fn cons(element: Self::ValueType, next: Option<Self>) -> (r: Self)
        ensures
            r == Self::spec_cons(element, next),
    ;

    /// Another handle on the same node.
    fn clone(&self) -> (r: Self)
        ensures
            r == *self,
    ;

    fn get_element(&self) -> (r: &Self::ValueType)
        ensures
            self.elements().len() > 0,
            *r == self.elements()[0],
    ;

    fn next_cloned(&self) -> (r: Option<Self>)
        ensures
            r == self.next(),
    ;

    fn next_ref(&self) -> (r: Option<&Self>)
        ensures
            match r {
                Some(n) => self.next() == Some(*n),
                None => self.next() is None,
            },
    ;

    fn link_ref(&self) -> (r: &Self)
        ensures
            *r == *self,
    ;
}

} // verus!
