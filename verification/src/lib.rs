//! A priority queue on a binary heap that lives in one growable array.
//!
//! The queue is ordered by a "less than" predicate fixed at construction:
//! the natural order of the element type, or any predicate the caller
//! supplies. Contracts speak of the stored sequence and of the relations
//! that describe the predicate; `tree` holds the model of the array as an
//! implicit binary tree, `order` the vocabulary for predicates, and `queue`
//! the executable container.
pub mod order;
pub mod tree;
pub mod queue;

pub use queue::PriorityQueue;
