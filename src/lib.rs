//! Two linked-list logs of text entries, appended at the tail and popped at
//! the head: a singly-linked one and a doubly-linked one with cursors in
//! both directions. Nodes live in an index arena, so links are slot numbers.
mod arena;
pub mod log_model;
pub mod doubly_linked_list;
pub mod linked_list;
