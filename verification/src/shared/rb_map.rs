//! The persistent ordered map, generic over its nodes: what a sorted
//! sequence of entries maps a key to, what that is after an insertion, and
//! the map itself on top of the red-black tree.

use super::order::{
    comparison_is_specified, is_sortable, lemma_ties_is_symmetric, lemma_ties_is_transitive,
    lemma_ties_with_itself, ties,
};
use super::rb_shape::lemma_no_elements;
use super::cloning::clones_exactly;
use super::rb_node::{RBNode, Shape};
use super::rb_tree::{is_lawful_element, RBTree};
use super::sorted::{
    has_tie, is_sorted, lemma_inserted_holds_new, lemma_inserted_holds_no_less,
    lemma_inserted_holds_no_more, lemma_inserted_is_sorted, lemma_tie_is_unique, seq_inserted,
};
use crate::common::key_value::{lemma_entries_sort_by_key, lemma_key_is_query, KeyValue};
use vstd::prelude::*;

verus! {

/// Keys of type `K` with values of type `V` keep a map in order: the keys can
/// be sorted by, and keys and values are the same after they were cloned.
pub open spec fn is_lawful_entry<K: PartialOrd + Clone, V: Clone>() -> bool {
    is_sortable::<K>() && clones_exactly::<K>() && clones_exactly::<V>()
}

/// Lawful keys and values make lawful entries.
pub proof fn lemma_lawful_entry<K: PartialOrd + Clone, V: Clone>()
    requires
        is_lawful_entry::<K, V>(),
    ensures
        is_lawful_element::<KeyValue<K, V>>(),
{
    lemma_entries_sort_by_key::<K, V>();
    assert forall|a: KeyValue<K, V>, b: KeyValue<K, V>| #[trigger]
        call_ensures(KeyValue::<K, V>::clone, (&a,), b) implies a == b by {
        assert(cloned(a.0, b.0) && cloned(a.1, b.1));
    }
}

/// Some entry has a key that ties with `k`.
pub open spec fn has_key<K: PartialOrd, V>(entries: Seq<KeyValue<K, V>>, k: K) -> bool {
    exists|i: int| 0 <= i < entries.len() && ties(#[trigger] entries[i].0, k)
}

/// The value of an entry whose key ties with `k`, if there is such an entry.
/// Among sorted entries there is at most one.
pub open spec fn value_at<K: PartialOrd, V>(entries: Seq<KeyValue<K, V>>, k: K) -> Option<V> {
    if has_key(entries, k) {
        Some(entries[choose|i: int| 0 <= i < entries.len() && ties(#[trigger] entries[i].0, k)].1)
    } else {
        None
    }
}

/// Among sorted entries, the entry whose key ties with `k` gives the value at
/// `k`.
pub proof fn lemma_value_at<K: PartialOrd, V>(entries: Seq<KeyValue<K, V>>, k: K, i: int)
    requires
        is_sortable::<K>(),
        is_sorted(entries),
        0 <= i < entries.len(),
        ties(entries[i].0, k),
    ensures
        value_at(entries, k) == Some(entries[i].1),
        has_tie(entries, k),
{
    lemma_key_is_query::<K, V>(k);
    let j = choose|j: int| 0 <= j < entries.len() && ties(#[trigger] entries[j].0, k);
    assert(ties(entries[i], k));
    assert(ties(entries[j], k));
    lemma_tie_is_unique(entries, k, i, j);
}

/// What a map holds after an insertion. At a key that ties with the new key
/// stands the new value, but where the old entry stays stands the old value.
/// At every other key stands what stood there before.
pub proof fn lemma_value_at_inserted<K: PartialOrd, V>(
    entries: Seq<KeyValue<K, V>>,
    k: K,
    v: V,
    replace: bool,
    q: K,
)
    requires
        is_sortable::<K>(),
        is_sorted(entries),
    ensures
        value_at(seq_inserted(entries, KeyValue(k, v), replace), q) == if !ties(k, q) {
            value_at(entries, q)
        } else if replace || !has_key(entries, k) {
            Some(v)
        } else {
            value_at(entries, k)
        },
{
    let x = KeyValue(k, v);
    let r = seq_inserted(entries, x, replace);
    lemma_entries_sort_by_key::<K, V>();
    lemma_key_is_query::<K, V>(q);
    lemma_key_is_query::<K, V>(k);
    lemma_inserted_is_sorted(entries, x, replace);
    if ties(k, q) {
        lemma_inserted_holds_new(entries, x, replace);
        let j = choose|j: int| 0 <= j < r.len() && ties(#[trigger] r[j], x);
        assert(ties(r[j].0, k));
        lemma_ties_is_transitive(r[j].0, k, q);
        lemma_value_at(r, q, j);
        if replace {
            let m = choose|m: int| 0 <= m < r.len() && r[m] == x;
            lemma_value_at(r, q, m);
        } else if has_key(entries, k) {
            let i = choose|i: int| 0 <= i < entries.len() && ties(#[trigger] entries[i].0, k);
            lemma_value_at(entries, k, i);
            lemma_inserted_holds_no_less(entries, x, replace, i);
            let m = choose|m: int| 0 <= m < r.len() && r[m] == entries[i];
            lemma_ties_is_transitive(entries[i].0, k, q);
            lemma_value_at(r, q, m);
        } else {
            lemma_inserted_holds_no_more(entries, x, replace, j);
            if r[j] != x {
                let i = choose|i: int| 0 <= i < entries.len() && entries[i] == r[j];
                assert(ties(entries[i].0, k));
            }
        }
    } else {
        if has_key(r, q) {
            let j = choose|j: int| 0 <= j < r.len() && ties(#[trigger] r[j].0, q);
            lemma_value_at(r, q, j);
            lemma_inserted_holds_no_more(entries, x, replace, j);
            let i = choose|i: int| 0 <= i < entries.len() && entries[i] == r[j];
            lemma_value_at(entries, q, i);
        }
        if has_key(entries, q) {
            let i = choose|i: int| 0 <= i < entries.len() && ties(#[trigger] entries[i].0, q);
            lemma_value_at(entries, q, i);
            lemma_inserted_holds_no_less(entries, x, replace, i);
            if !r.contains(entries[i]) {
                assert(ties(k, entries[i].0));
                lemma_ties_is_transitive(k, entries[i].0, q);
            }
            let m = choose|m: int| 0 <= m < r.len() && r[m] == entries[i];
            lemma_value_at(r, q, m);
        }
    }
}

/// Map duplicate policy, first writer wins: after two insertions at one key
/// that the map did not hold, the first value stands at that key.
pub proof fn lemma_inserted_twice_keeps_first<K: PartialOrd, V>(
    entries: Seq<KeyValue<K, V>>,
    k: K,
    v1: V,
    v2: V,
)
    requires
        is_sortable::<K>(),
        is_sorted(entries),
        !has_key(entries, k),
    ensures
        value_at(
            seq_inserted(seq_inserted(entries, KeyValue(k, v1), false), KeyValue(k, v2), false),
            k,
        ) == Some(v1),
{
    let first = seq_inserted(entries, KeyValue(k, v1), false);
    lemma_entries_sort_by_key::<K, V>();
    lemma_ties_with_itself(k);
    lemma_inserted_is_sorted(entries, KeyValue(k, v1), false);
    lemma_value_at_inserted(entries, k, v1, false, k);
    lemma_value_at_inserted(first, k, v2, false, k);
}

/// Map duplicate policy, last writer wins: after two replacing insertions at
/// one key the second value stands at that key.
pub proof fn lemma_replaced_twice_keeps_last<K: PartialOrd, V>(
    entries: Seq<KeyValue<K, V>>,
    k: K,
    v1: V,
    v2: V,
)
    requires
        is_sortable::<K>(),
        is_sorted(entries),
    ensures
        value_at(
            seq_inserted(seq_inserted(entries, KeyValue(k, v1), true), KeyValue(k, v2), true),
            k,
        ) == Some(v2),
{
    let first = seq_inserted(entries, KeyValue(k, v1), true);
    lemma_entries_sort_by_key::<K, V>();
    lemma_ties_with_itself(k);
    lemma_inserted_is_sorted(entries, KeyValue(k, v1), true);
    lemma_value_at_inserted(first, k, v2, true, k);
}

/// A persistent map from keys to values, ordered by its keys.
#[derive(Debug)]
pub struct RBMap<L: RBNode>(RBTree<L>) where L::ValueType: PartialOrd + Clone;

impl<L: RBNode> Clone for RBMap<L> where L::ValueType: PartialOrd + Clone {
    /// Another handle on the same map.
    fn clone(&self) -> (r: Self)
        ensures
            r == *self,
    {
        proof {
            use_type_invariant(self);
        }
        RBMap(self.0.clone())
    }
}

impl<L: RBNode> View for RBMap<L> where L::ValueType: PartialOrd + Clone {
    type V = Seq<L::ValueType>;

    /// The entries in the order of their keys.
    open spec fn view(&self) -> Seq<L::ValueType> {
        self.shape().in_order()
    }
}

impl<L: RBNode> RBMap<L> where L::ValueType: PartialOrd + Clone {
    /// What holds of every map: of its tree what holds of every tree, and
    /// its root is not red.
    #[verifier::type_invariant]
    pub closed spec fn is_well_formed(&self) -> bool {
        self.0.is_well_formed() && !self.0.shape().is_red()
    }

    /// The shape of the tree that holds the entries.
    pub closed spec fn shape(&self) -> Shape<L::ValueType> {
        self.0.shape()
    }
}

impl<K, V, L> RBMap<L> where L: RBNode<ValueType = KeyValue<K, V>>, K: Clone + PartialOrd, V: Clone {
    /// What a well-formed map is: its tree is a red-black tree, and its
    /// entries are sorted where keys and values are lawful.
    pub proof fn lemma_well_formed(&self)
        requires
            self.is_well_formed(),
        ensures
            self.shape().is_red_black(),
            is_lawful_entry::<K, V>() ==> is_sorted(self@),
    {
        if is_lawful_entry::<K, V>() {
            lemma_lawful_entry::<K, V>();
        }
        self.0.lemma_well_formed();
    }

    /// The value at `k`, if the map holds one.
    pub open spec fn lookup(&self, k: K) -> Option<V> {
        value_at(self@, k)
    }

    /// The empty map.
    pub fn new() -> (r: Self)
        ensures
            r.shape() is Empty,
            r@ == Seq::<KeyValue<K, V>>::empty(),
    {
        let tree = RBTree::<L>::new();
        proof {
            use_type_invariant(&tree);
        }
        RBMap(tree)
    }

    pub fn is_empty(&self) -> (r: bool)
        ensures
            r == (self.shape() is Empty),
            r == (self@.len() == 0),
    {
        self.0.is_empty()
    }

    /// Whether the map holds a value at `k`.
    pub fn contains_key(&self, k: &K) -> (r: bool)
        ensures
            self@.len() == 0 ==> !r,
            is_lawful_entry::<K, V>() ==> r == has_key(self@, *k),
    {
        proof {
            lemma_no_elements(self.shape());
            if is_lawful_entry::<K, V>() {
                lemma_lawful_entry::<K, V>();
                lemma_key_is_query::<K, V>(*k);
                if has_key(self@, *k) {
                    let i = choose|i: int| 0 <= i < self@.len() && ties(#[trigger] self@[i].0, *k);
                    assert(ties(self@[i], *k));
                }
            }
        }
        self.0.contains(k)
    }

    /// The map with `v` at `k`, if it held nothing there; else the map as it
    /// is.
    pub fn inserted(&self, k: K, v: V) -> (r: Self)
        ensures
            r.shape().is_red_black(),
            r.shape().is_black(),
            r@.len() > 0,
            comparison_is_specified::<KeyValue<K, V>, KeyValue<K, V>>() && clones_exactly::<
                KeyValue<K, V>,
            >() ==> r.shape() == self.shape().inserted(KeyValue(k, v), false),
            is_lawful_entry::<K, V>() ==> {
                &&& r@ == seq_inserted(self@, KeyValue(k, v), false)
                &&& is_sorted(r@)
                &&& forall|q: K| #[trigger]
                    r.lookup(q) == if !ties(k, q) {
                        self.lookup(q)
                    } else if has_key(self@, k) {
                        self.lookup(k)
                    } else {
                        Some(v)
                    }
            },
    {
        let tree = self.0.inserted(KeyValue(k, v));
        proof {
            use_type_invariant(self);
            use_type_invariant(&tree);
            lemma_no_elements(tree.shape());
            if is_lawful_entry::<K, V>() {
                lemma_lawful_entry::<K, V>();
                self.0.lemma_well_formed();
                tree.lemma_well_formed();
                assert forall|q: K| #[trigger]
                    value_at(tree@, q) == if !ties(k, q) {
                        self.lookup(q)
                    } else if has_key(self@, k) {
                        self.lookup(k)
                    } else {
                        Some(v)
                    } by {
                    lemma_value_at_inserted(self@, k, v, false, q);
                }
            }
        }
        RBMap(tree)
    }

    /// The map with `v` at `k`, whatever it held there. Where it held an
    /// entry at `k`, the tree keeps its nodes and colours and the entry alone
    /// gives way.
    pub fn inserted_or_replaced(&self, k: K, v: V) -> (r: Self)
        ensures
            r.shape().is_red_black(),
            r.shape().is_black(),
            r@.len() > 0,
            comparison_is_specified::<KeyValue<K, V>, KeyValue<K, V>>() && clones_exactly::<
                KeyValue<K, V>,
            >() ==> r.shape() == self.shape().inserted(KeyValue(k, v), true),
            is_lawful_entry::<K, V>() ==> {
                &&& r@ == seq_inserted(self@, KeyValue(k, v), true)
                &&& is_sorted(r@)
                &&& forall|q: K| #[trigger]
                    r.lookup(q) == if ties(k, q) {
                        Some(v)
                    } else {
                        self.lookup(q)
                    }
                &&& has_key(self@, k) ==> r.shape().is_coloured_like(self.shape())
            },
    {
        let tree = self.0.inserted_or_replaced(KeyValue(k, v));
        proof {
            use_type_invariant(self);
            use_type_invariant(&tree);
            lemma_no_elements(tree.shape());
            if is_lawful_entry::<K, V>() {
                lemma_lawful_entry::<K, V>();
                if has_key(self@, k) {
                    let i = choose|i: int| 0 <= i < self@.len() && ties(#[trigger] self@[i].0, k);
                    assert(ties(self@[i], KeyValue(k, v)));
                }
                self.0.lemma_well_formed();
                tree.lemma_well_formed();
                assert forall|q: K| #[trigger]
                    value_at(tree@, q) == if ties(k, q) {
                        Some(v)
                    } else {
                        self.lookup(q)
                    } by {
                    lemma_value_at_inserted(self@, k, v, true, q);
                }
            }
        }
        RBMap(tree)
    }

    /// The entry whose key ties with `k`, if the map holds one.
    fn entry(&self, k: &K) -> (r: Option<&L::ValueType>)
        ensures
            self@.len() == 0 ==> r is None,
            is_lawful_entry::<K, V>() ==> match r {
                Some(kv) => self@.contains(*kv) && ties(kv.0, *k) && self.lookup(*k) == Some(kv.1),
                None => !has_key(self@, *k) && self.lookup(*k) is None,
            },
    {
        proof {
            use_type_invariant(self);
            lemma_no_elements(self.shape());
            if is_lawful_entry::<K, V>() {
                lemma_lawful_entry::<K, V>();
                lemma_key_is_query::<K, V>(*k);
                self.0.lemma_well_formed();
            }
        }
        let found = self.0.get(k);
        proof {
            if is_lawful_entry::<K, V>() {
                match found {
                    None => {
                        if has_key(self@, *k) {
                            let i = choose|i: int|
                                0 <= i < self@.len() && ties(#[trigger] self@[i].0, *k);
                            assert(ties(self@[i], *k));
                        }
                    },
                    Some(kv) => {
                        let i = choose|i: int| 0 <= i < self@.len() && self@[i] == *kv;
                        lemma_value_at(self@, *k, i);
                    },
                }
            }
        }
        found
    }

    /// The value at `k`, if the map holds one.
    pub fn get<'a>(&'a self, k: &K) -> (r: Option<&'a V>) where K: 'a
        ensures
            self@.len() == 0 ==> r is None,
            is_lawful_entry::<K, V>() ==> match r {
                Some(v) => self.lookup(*k) == Some(*v),
                None => self.lookup(*k) is None,
            },
    {
        match self.entry(k) {
            None => None,
            Some(kv) => Some(&kv.1),
        }
    }

    /// The value at `k`, or `default` where the map holds none.
    pub fn get_or_default<'a>(&'a self, k: &K, default: &'a V) -> (r: &'a V) where K: 'a
        ensures
            self@.len() == 0 ==> *r == *default,
            is_lawful_entry::<K, V>() ==> *r == match self.lookup(*k) {
                Some(v) => v,
                None => *default,
            },
    {
        match self.entry(k) {
            None => default,
            Some(kv) => &kv.1,
        }
    }

    /// The entry at `k`, if the map holds one: the key as the map holds it,
    /// and the value.
    pub fn get_key_value(&self, k: &K) -> (r: Option<(&K, &V)>)
        ensures
            self@.len() == 0 ==> r is None,
            is_lawful_entry::<K, V>() ==> match r {
                Some(kv) => self@.contains(KeyValue(*kv.0, *kv.1)) && ties(*kv.0, *k)
                    && self.lookup(*k) == Some(*kv.1),
                None => !has_key(self@, *k),
            },
    {
        match self.entry(k) {
            None => None,
            Some(kv) => Some((&kv.0, &kv.1)),
        }
    }
}

} // verus!
