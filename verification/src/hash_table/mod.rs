//! A growable array of slots and the split-ordered hash map built on it.
mod arena_list;
pub mod growable_array;
pub mod split_order;
pub mod split_ordered_list;
