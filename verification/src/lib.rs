//! A ranked skip list: an ordered collection that finds an element by its
//! rank, and the rank of an element, in logarithmic expected time.
//!
//! - `order`: the ordering of the elements, and sorted sequences.
//! - `level`: the random heights of new nodes.
//! - `list`: the list, its invariant and its operations.
//! - `laws`: what holds of the operations taken together.

pub mod laws;
pub mod level;
pub mod list;
pub mod order;

pub use list::{SkipList, SkipListError};
