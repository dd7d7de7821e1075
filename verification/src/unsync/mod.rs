//! The collections for use within one thread: nodes are shared by `Rc`.

pub mod binary_tree;
pub mod list;
pub mod rb_map;
pub mod rb_tree;
pub mod tree;

pub use list::List;
pub use rb_map::RBMap;
pub use rb_tree::RBTree;
