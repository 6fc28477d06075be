//! A verified core for a persistent adaptive radix trie.

pub mod byte_order;
pub mod child_node;
pub mod cursor_iter;
pub mod cursor_laws;
pub mod dash;
pub mod dict_impl;
pub mod dirty_tracker;
pub mod dirty_tracking;
pub mod error;
pub mod eviction;
pub mod fx;
pub mod key_encoding;
pub mod laws;
pub mod number_set;
pub mod overlay;
pub mod path_map;
pub mod registry;
pub mod shared;
pub mod swizzled_ptr;
pub mod text;
pub mod value;
pub mod version_gc;
pub mod wal;
