//! The ways a read from a list can miss.

use vstd::prelude::*;

verus! {

/// Why a read found no element.
#[derive(Debug, Clone, Copy, PartialEq, Eq, Structural)]
pub enum ListError {
    /// The index is not below the length of the list.
    OutOfBounds,
    /// The list has no elements, so it has neither a first nor a last one.
    EmptyContainer,
}

} // verus!
