//! A doubly-linked list with verified contracts.
//!
//! [`List`] is an ordered, growable sequence with constant-time insertion at
//! both ends, indexed access that reports a miss instead of failing, in-place
//! reversal, and cursors that walk it in either direction. Every operation
//! states its effect on the list's view, a mathematical sequence of the
//! elements in order.

pub mod convert;
pub mod cursor;
pub mod error;
pub mod laws;
mod links;
pub mod list;

pub use cursor::{Elem, RevElem};
pub use error::ListError;
pub use list::List;
