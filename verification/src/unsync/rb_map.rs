//! The ordered map whose nodes are shared within one thread.

use crate::common::key_value::KeyValue;
use crate::shared;
use crate::unsync::rb_tree::Node;
use std::rc::Rc;
use vstd::prelude::*;

verus! {

/// A persistent map from keys to values, ordered by its keys.
pub type RBMap<K, V> = shared::rb_map::RBMap<Rc<Node<KeyValue<K, V>>>>;

} // verus!
