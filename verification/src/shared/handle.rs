//! The calls into `Rc` and `Arc` that the nodes are shared and released by.
//!
//! Verus is told what these calls do and does not look into them.

use std::rc::Rc;
use std::sync::Arc;
use vstd::prelude::*;

verus! {

/// `Rc::clone`: one more pointer to the same allocation. The value behind the
/// result is the value behind `p`.
#[verifier::external_body]
pub(crate) fn rc_clone<T>(p: &Rc<T>) -> (r: Rc<T>)
    ensures
        r == *p,
{
    Rc::clone(p)
}

/// `Arc::clone`: one more pointer to the same allocation. The value behind
/// the result is the value behind `p`.
#[verifier::external_body]
pub(crate) fn arc_clone<T>(p: &Arc<T>) -> (r: Arc<T>)
    ensures
        r == *p,
{
    Arc::clone(p)
}

/// `Rc::try_unwrap`: the value behind `p` where `p` was the only strong
/// pointer to it, else `p` itself. The call does not panic, which a
/// destructor that makes it has to know.
#[verifier::external_body]
pub(crate) fn rc_try_unwrap<T>(p: Rc<T>) -> (r: Result<T, Rc<T>>)
    ensures
        match r {
            Ok(t) => t == *p,
            Err(q) => q == p,
        },
    opens_invariants none
    no_unwind
{
    Rc::try_unwrap(p)
}

/// `Arc::try_unwrap`: the value behind `p` where `p` was the only strong
/// pointer to it, else `p` itself. The call does not panic, which a
/// destructor that makes it has to know.
#[verifier::external_body]
pub(crate) fn arc_try_unwrap<T>(p: Arc<T>) -> (r: Result<T, Arc<T>>)
    ensures
        match r {
            Ok(t) => t == *p,
            Err(q) => q == p,
        },
    opens_invariants none
    no_unwind
{
    Arc::try_unwrap(p)
}

} // verus!
