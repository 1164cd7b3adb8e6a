//! An immutable, hashable map kept as parallel sorted key and value
//! arrays, with an open-addressing probe table for hash lookups and an
//! aggregate hash computed once, at construction.

pub mod entry_list;
pub mod frozen_map;
pub mod hash_index;
