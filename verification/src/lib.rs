//! Small verified algorithms: a singly-linked list with stack discipline,
//! utilities over vectors and strings, a binary search and a generator of
//! random test data.
pub use crate::vectors::{get_unique, has_dupes, max_return, remove_dupes, rotate_array};

pub mod counting;
pub mod digits;
pub mod linked_list;
pub mod linked_lists;
pub mod list_model;
pub mod math;
pub mod search;
pub mod strings;
pub mod vectors;
