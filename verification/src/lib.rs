//! Sorted list sets and a split-ordered hash map, with their contracts proved by Verus.
//!
//! The list sets keep their elements in a strictly increasing singly linked list; the
//! split-ordered list keeps a map from `usize` keys in a list sorted by bit-reversed keys,
//! reached through a growable array of bucket entry points.
use vstd::prelude::*;

pub mod order;
pub mod list_set;
pub mod hash_table;

verus! {

} // verus!
