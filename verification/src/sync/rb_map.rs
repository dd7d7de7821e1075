//! The ordered map whose nodes are shared across threads.

use crate::common::key_value::KeyValue;
use crate::shared;
use crate::sync::rb_tree::Node;
use std::sync::Arc;
use vstd::prelude::*;

verus! {

/// A persistent map from keys to values, ordered by its keys.
pub type RBMap<K, V> = shared::rb_map::RBMap<Arc<Node<KeyValue<K, V>>>>;

} // verus!
