//! What is known of an element after it was cloned.

use vstd::prelude::*;

verus! {

/// Cloning a value of type `T` yields that value.
pub open spec fn clones_exactly<T: Clone>() -> bool {
    forall|a: T, b: T| #[trigger] call_ensures(T::clone, (&a,), b) ==> a == b
}

/// Each element of `b` is a clone of the element of `a` in the same place.
pub open spec fn is_clone_of<T: Clone>(a: Seq<T>, b: Seq<T>) -> bool {
    a.len() == b.len() && forall|i: int| 0 <= i < a.len() ==> cloned(#[trigger] a[i], b[i])
}

/// Where cloning yields the same element, a sequence of clones is the
/// sequence itself.
pub proof fn lemma_exact_clones<T: Clone>(a: Seq<T>, b: Seq<T>)
    requires
        is_clone_of(a, b),
        clones_exactly::<T>(),
    ensures
        a == b,
{
    assert forall|i: int| 0 <= i < a.len() implies a[i] == b[i] by {
        assert(cloned(a[i], b[i]));
    }
    assert(a =~= b);
}

} // verus!
