//! Code that is generic over the way nodes are shared.

pub mod cloning;
pub mod handle;
pub mod link;
pub mod list;
pub mod list_eq;
pub mod list_laws;
pub mod order;
pub mod rb_map;
pub mod rb_node;
pub mod rb_shape;
pub mod rb_tree;
pub mod sorted;
