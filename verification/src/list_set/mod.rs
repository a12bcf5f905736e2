//! Sets kept as strictly increasing singly linked lists.
pub mod fine_grained;
pub mod optimistic_fine_grained;
mod sorted_list;
