//! The collections for use across threads: nodes are shared by `Arc`.

pub mod list;
pub mod rb_map;
pub mod rb_tree;

pub use list::List;
pub use rb_map::RBMap;
pub use rb_tree::RBTree;
