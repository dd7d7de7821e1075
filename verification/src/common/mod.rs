//! Types that both kinds of collections use.

pub mod key_value;

pub use key_value::KeyValue;
