//! The order that the tree and the map sort by, stated over `PartialOrd`.
//!
//! The search and the insertion ask only two questions of two values: does the
//! first sort strictly before the second, and does it sort strictly after it.
//! When neither holds the two values *tie*: they take the same place in a tree.

use core::cmp::Ordering;
use vstd::prelude::*;
use vstd::std_specs::cmp::PartialOrdSpec;

verus! {

/// `a` sorts strictly before `b`.
pub open spec fn precedes<A: PartialOrd<B>, B>(a: A, b: B) -> bool {
    a.partial_cmp_spec(&b) == Some(Ordering::Less)
}

/// `a` sorts strictly after `b`.
pub open spec fn follows<A: PartialOrd<B>, B>(a: A, b: B) -> bool {
    a.partial_cmp_spec(&b) == Some(Ordering::Greater)
}

/// `a` sorts neither before nor after `b`: the two take the same place.
pub open spec fn ties<A: PartialOrd<B>, B>(a: A, b: B) -> bool {
    !precedes(a, b) && !follows(a, b)
}

/// The comparison operators of `A` against `B` compute what
/// `partial_cmp_spec` says.
pub open spec fn comparison_is_specified<A: PartialOrd<B>, B>() -> bool {
    A::obeys_partial_cmp_spec()
}

/// `T` is ordered as a strict weak order: "before" and "after" mirror each
/// other, "before" is transitive, and a value that ties with another sorts
/// before whatever the other sorts before.
pub open spec fn is_strict_weak_order<T: PartialOrd>() -> bool {
    &&& forall|a: T, b: T| #[trigger] precedes(a, b) <==> follows(b, a)
    &&& forall|a: T, b: T, c: T|
        #![trigger precedes(a, b), precedes(b, c)]
        precedes(a, b) && precedes(b, c) ==> precedes(a, c)
    &&& forall|a: T, b: T, c: T|
        #![trigger ties(a, b), precedes(b, c)]
        ties(a, b) && precedes(b, c) ==> precedes(a, c)
    &&& forall|a: T, b: T, c: T|
        #![trigger precedes(a, b), ties(b, c)]
        precedes(a, b) && ties(b, c) ==> precedes(a, c)
}

/// `T` can be sorted by: its operators compute its specified order, and that
/// order is a strict weak order.
pub open spec fn is_sortable<T: PartialOrd>() -> bool {
    comparison_is_specified::<T, T>() && is_strict_weak_order::<T>()
}

/// The query `q` cuts the order of `T` in one place: of two elements of which
/// the first sorts before the second, either the first sorts before `q` or
/// the second sorts after it.
pub open spec fn is_cut<T: PartialOrd + PartialOrd<Q>, Q>(q: Q) -> bool {
    forall|a: T, b: T|
        #![trigger precedes(a, b), precedes(a, q)]
        #![trigger precedes(a, b), follows(b, q)]
        precedes(a, b) ==> precedes(a, q) || follows(b, q)
}

/// A query of type `Q` can be searched for among elements of type `T`.
pub open spec fn is_query<T: PartialOrd + PartialOrd<Q>, Q>(q: Q) -> bool {
    comparison_is_specified::<T, Q>() && is_cut::<T, Q>(q)
}

/// No value sorts before itself, so every value ties with itself.
pub proof fn lemma_ties_with_itself<T: PartialOrd>(a: T)
    requires
        is_strict_weak_order::<T>(),
    ensures
        ties(a, a),
{
    assert(precedes(a, a) <==> follows(a, a));
}

/// Two values tie whichever of them is asked first.
pub proof fn lemma_ties_is_symmetric<T: PartialOrd>(a: T, b: T)
    requires
        is_strict_weak_order::<T>(),
        ties(a, b),
    ensures
        ties(b, a),
{
    assert(precedes(a, b) <==> follows(b, a));
    assert(precedes(b, a) <==> follows(a, b));
}

/// Values that tie with a common third tie with each other.
pub proof fn lemma_ties_is_transitive<T: PartialOrd>(a: T, b: T, c: T)
    requires
        is_strict_weak_order::<T>(),
        ties(a, b),
        ties(b, c),
    ensures
        ties(a, c),
{
    lemma_ties_is_symmetric(a, b);
    lemma_ties_is_symmetric(b, c);
    assert(precedes(a, c) <==> follows(c, a));
    assert(precedes(c, a) <==> follows(a, c));
    if precedes(a, c) {
        // b ties with a, a sorts before c
        assert(ties(b, a) && precedes(a, c));
        assert(precedes(b, c));
    }
    if precedes(c, a) {
        assert(precedes(c, a) && ties(a, b));
        assert(precedes(c, b));
        assert(precedes(c, b) <==> follows(b, c));
    }
}

/// In a strict weak order every value of the ordered type is itself a query.
pub proof fn lemma_element_is_cut<T: PartialOrd>(q: T)
    requires
        is_strict_weak_order::<T>(),
    ensures
        is_cut::<T, T>(q),
{
    assert forall|a: T, b: T| precedes(a, b) implies precedes(a, q) || follows(b, q) by {
        if !precedes(a, q) {
            assert(precedes(q, b) <==> follows(b, q));
            assert(precedes(q, a) <==> follows(a, q));
            if follows(a, q) {
                assert(precedes(q, a) && precedes(a, b));
            } else {
                lemma_ties_is_symmetric(a, q);
                assert(ties(q, a) && precedes(a, b));
            }
        }
    }
}

} // verus!
