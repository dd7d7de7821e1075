//! A key with its value, compared and ordered by the key alone.

use crate::shared::order::{
    comparison_is_specified, follows, is_cut, is_query, is_sortable, is_strict_weak_order,
    lemma_element_is_cut, precedes, ties,
};
use core::cmp::Ordering;
use vstd::prelude::*;
use vstd::std_specs::cmp::{PartialEqSpec, PartialEqSpecImpl, PartialOrdSpec, PartialOrdSpecImpl};

verus! {

/// An entry of a map. Two entries are equal, and are ordered, as their keys
/// are; the values have no say.
#[derive(Debug)]
pub struct KeyValue<K, V>(pub K, pub V);

impl<K, V> Copy for KeyValue<K, V> where K: Copy, V: Copy {

}

impl<K, V> Clone for KeyValue<K, V> where K: Clone, V: Clone {
    fn clone(&self) -> (r: Self)
        ensures
            cloned(self.0, r.0),
            cloned(self.1, r.1),
    {
        KeyValue(self.0.clone(), self.1.clone())
    }
}

impl<K, V> PartialEq for KeyValue<K, V> where K: PartialEq {
    fn eq(&self, other: &Self) -> (r: bool) {
        self.0 == other.0
    }
}

impl<K, V> PartialEqSpecImpl for KeyValue<K, V> where K: PartialEq {
    open spec fn obeys_eq_spec() -> bool {
        K::obeys_eq_spec()
    }

    open spec fn eq_spec(&self, other: &Self) -> bool {
        self.0.eq_spec(&other.0)
    }
}

impl<K, V> PartialOrd for KeyValue<K, V> where K: PartialOrd {
    fn partial_cmp(&self, other: &Self) -> (r: Option<Ordering>) {
        self.0.partial_cmp(&other.0)
    }
}

impl<K, V> PartialOrdSpecImpl for KeyValue<K, V> where K: PartialOrd {
    open spec fn obeys_partial_cmp_spec() -> bool {
        K::obeys_partial_cmp_spec()
    }

    open spec fn partial_cmp_spec(&self, other: &Self) -> Option<Ordering> {
        self.0.partial_cmp_spec(&other.0)
    }
}

impl<K, V> PartialEq<K> for KeyValue<K, V> where K: PartialEq {
    fn eq(&self, other: &K) -> (r: bool) {
        self.0 == *other
    }
}

impl<K, V> PartialEqSpecImpl<K> for KeyValue<K, V> where K: PartialEq {
    open spec fn obeys_eq_spec() -> bool {
        K::obeys_eq_spec()
    }

    open spec fn eq_spec(&self, other: &K) -> bool {
        self.0.eq_spec(other)
    }
}

impl<K, V> PartialOrd<K> for KeyValue<K, V> where K: PartialOrd {
    fn partial_cmp(&self, other: &K) -> (r: Option<Ordering>) {
        self.0.partial_cmp(other)
    }
}

impl<K, V> PartialOrdSpecImpl<K> for KeyValue<K, V> where K: PartialOrd {
    open spec fn obeys_partial_cmp_spec() -> bool {
        K::obeys_partial_cmp_spec()
    }

    open spec fn partial_cmp_spec(&self, other: &K) -> Option<Ordering> {
        self.0.partial_cmp_spec(other)
    }
}

/// Entries sort as their keys do: where the keys can be sorted by, so can the
/// entries.
pub proof fn lemma_entries_sort_by_key<K: PartialOrd, V>()
    requires
        is_sortable::<K>(),
    ensures
        is_sortable::<KeyValue<K, V>>(),
        forall|a: KeyValue<K, V>, b: KeyValue<K, V>| #[trigger] precedes(a, b) == precedes(a.0, b.0),
        forall|a: KeyValue<K, V>, b: KeyValue<K, V>| #[trigger] follows(a, b) == follows(a.0, b.0),
        forall|a: KeyValue<K, V>, b: KeyValue<K, V>| #[trigger] ties(a, b) == ties(a.0, b.0),
{
    assert forall|a: KeyValue<K, V>, b: KeyValue<K, V>| #[trigger]
        precedes(a, b) <==> follows(b, a) by {
        assert(precedes(a.0, b.0) <==> follows(b.0, a.0));
    }
    assert forall|a: KeyValue<K, V>, b: KeyValue<K, V>, c: KeyValue<K, V>|
        #![trigger precedes(a, b), precedes(b, c)]
        precedes(a, b) && precedes(b, c) implies precedes(a, c) by {
        assert(precedes(a.0, b.0) && precedes(b.0, c.0));
    }
    assert forall|a: KeyValue<K, V>, b: KeyValue<K, V>, c: KeyValue<K, V>|
        #![trigger ties(a, b), precedes(b, c)]
        ties(a, b) && precedes(b, c) implies precedes(a, c) by {
        assert(ties(a.0, b.0) && precedes(b.0, c.0));
    }
    assert forall|a: KeyValue<K, V>, b: KeyValue<K, V>, c: KeyValue<K, V>|
        #![trigger precedes(a, b), ties(b, c)]
        precedes(a, b) && ties(b, c) implies precedes(a, c) by {
        assert(precedes(a.0, b.0) && ties(b.0, c.0));
    }
}

/// A key is a query among entries: an entry stands to a key as its own key
/// does.
pub proof fn lemma_key_is_query<K: PartialOrd, V>(k: K)
    requires
        is_sortable::<K>(),
    ensures
        is_query::<KeyValue<K, V>, K>(k),
        forall|a: KeyValue<K, V>| #[trigger] precedes(a, k) == precedes(a.0, k),
        forall|a: KeyValue<K, V>| #[trigger] follows(a, k) == follows(a.0, k),
        forall|a: KeyValue<K, V>| #[trigger] ties(a, k) == ties(a.0, k),
{
    lemma_element_is_cut::<K>(k);
    assert forall|a: KeyValue<K, V>, b: KeyValue<K, V>|
        #![trigger precedes(a, b), precedes(a, k)]
        #![trigger precedes(a, b), follows(b, k)]
        precedes(a, b) implies precedes(a, k) || follows(b, k) by {
        assert(precedes(a.0, b.0));
        assert(precedes(a.0, k) || follows(b.0, k));
    }
}

} // verus!
