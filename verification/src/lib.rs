//! Persistent collections: a singly-linked list and a red-black tree with an
//! ordered map on top of it. Every operation returns a new version and leaves
//! the old one as it was; versions share their unchanged parts by reference
//! counting.

pub mod common;
pub mod list;
pub mod shared;
pub mod unsync;
pub mod sync;
