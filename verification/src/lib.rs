//! A fixed-capacity double-ended queue stored in one array.
//!
//! The capacity is a power of two, nothing is allocated on the heap, and both
//! ends take pushes and pops in constant time.
//!
//! - [`ArrayDequePlain`] is the deque for plain data, [`ArrayDeque`] the one
//!   for elements that own resources. Both are built on [`ArrayDequeBase`].
//! - [`ring`] holds the mathematical model that the contracts speak of, and
//!   [`laws`] what follows for runs of operations.
//! - [`index`] holds the wraparound arithmetic.

pub mod deque;
pub mod index;
pub mod laws;
pub mod owned;
pub mod plain;
pub mod ring;

pub use crate::deque::ArrayDequeBase;
pub use crate::owned::ArrayDeque;
pub use crate::plain::ArrayDequePlain;
