//! Data structures for queries over ranges of an array.
pub mod bit;

pub use bit::{Bit, Bound};
