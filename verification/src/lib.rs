//! A binary min-heap over any ordered element type, and a heapsort built on it.
//!
//! The heap keeps its elements in a vector that is read as an implicit complete
//! binary tree. Every contract speaks of the heap through its view, the sequence
//! of elements in storage order.

pub mod order;
pub mod layout;
pub mod model;
pub mod laws;
pub mod heap;
pub mod sort;

pub use heap::Heap;
pub use layout::{get_first_child_index, get_parent_index};
pub use sort::heapsort;
