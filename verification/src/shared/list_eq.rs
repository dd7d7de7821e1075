//! Equality of lists: the same length, and equal elements in the same places.

use super::link::Link;
use super::list::List;
use itertools::{EitherOrBoth, Itertools};
use vstd::prelude::*;
use vstd::std_specs::cmp::{PartialEqSpec, PartialEqSpecImpl};

verus! {

/// What stands at one place of two sequences that are walked side by side:
/// an item of each, or of the one that is longer.
pub enum Zipped<A, B> {
    Both(A, B),
    Left(A),
    Right(B),
}

/// What stands at place `i` when `a` and `b` are walked side by side.
pub open spec fn zipped_at<A, B>(a: Seq<A>, b: Seq<B>, i: int) -> Zipped<A, B> {
    if i < a.len() && i < b.len() {
        Zipped::Both(a[i], b[i])
    } else if i < a.len() {
        Zipped::Left(a[i])
    } else {
        Zipped::Right(b[i])
    }
}

/// `Itertools::zip_longest`, collected: the two sequences walked side by side
/// to the end of the longer one. As long as both have items the places hold
/// both, after that the item of the one that is left.
#[verifier::external_body]
pub(crate) fn zip_longest<'a, T>(a: Vec<&'a T>, b: Vec<&'a T>) -> (r: Vec<Zipped<&'a T, &'a T>>)
    ensures
        r@.len() == if a@.len() >= b@.len() {
            a@.len()
        } else {
            b@.len()
        },
        forall|i: int| 0 <= i < r@.len() ==> #[trigger] r@[i] == zipped_at(a@, b@, i),
{
    a.into_iter().zip_longest(b).map(
        |pair|
            match pair {
                EitherOrBoth::Both(x, y) => Zipped::Both(x, y),
                EitherOrBoth::Left(x) => Zipped::Left(x),
                EitherOrBoth::Right(y) => Zipped::Right(y),
            },
    ).collect()
}

impl<L> PartialEq for List<L> where L: Link, L::ValueType: PartialEq {
    /// Walks both lists side by side and stops at the first place where the
    /// elements differ or one list has ended.
    fn eq(&self, other: &Self) -> (r: bool) {
        let pairs = zip_longest(self.to_refs(), other.to_refs());
        let mut i: usize = 0;
        while i < pairs.len()
            invariant
                i <= pairs@.len(),
                pairs@.len() == if self@.len() >= other@.len() {
                    self@.len()
                } else {
                    other@.len()
                },
                forall|j: int|
                    0 <= j < pairs@.len() ==> match #[trigger] pairs@[j] {
                        Zipped::Both(a, b) => j < self@.len() && j < other@.len() && *a == self@[j]
                            && *b == other@[j],
                        Zipped::Left(a) => j >= other@.len(),
                        Zipped::Right(b) => j >= self@.len(),
                    },
                L::ValueType::obeys_eq_spec() ==> forall|j: int|
                    0 <= j < i ==> j < self@.len() && j < other@.len() && (#[trigger] self@[j]).eq_spec(
                        &other@[j],
                    ),
            decreases pairs@.len() - i,
        {
            match &pairs[i] {
                Zipped::Both(a, b) => {
                    if !(**a == **b) {
                        return false;
                    }
                },
                Zipped::Left(_) => {
                    return false;
                },
                Zipped::Right(_) => {
                    return false;
                },
            }
            i = i + 1;
        }
        proof {
            if L::ValueType::obeys_eq_spec() && pairs@.len() > 0 {
                let last = pairs@.len() - 1;
                assert((self@[last]).eq_spec(&other@[last]));
            }
        }
        true
    }
}

impl<L> PartialEqSpecImpl for List<L> where L: Link, L::ValueType: PartialEq {
    open spec fn obeys_eq_spec() -> bool {
        L::ValueType::obeys_eq_spec()
    }

    /// The lists have the same length, and equal elements in the same
    /// places.
    open spec fn eq_spec(&self, other: &Self) -> bool {
        &&& self@.len() == other@.len()
        &&& forall|i: int| 0 <= i < self@.len() ==> (#[trigger] self@[i]).eq_spec(&other@[i])
    }
}

} // verus!
