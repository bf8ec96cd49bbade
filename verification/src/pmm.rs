//! Definitions shared by the physical memory managers.
use vstd::prelude::*;

verus! {

/// Errors that the PMM might encounter
#[derive(Debug, PartialEq, Eq, Structural, Clone, Copy)]
pub enum PmmError {
    /// The requested block is out of bounds
    OutOfBounds,
    /// No available block of the requested size
    NoAvailableBlock,
    /// The requested block is already free
    FreeOfAlreadyFree,
    /// The requested alignment is invalid
    InvalidAlignment,
    /// The requested address is invalid
    InvalidAddress,
    /// The requested page count is invalid (0)
    EmptyAllocation,
    /// The requested page count is invalid (0)
    EmptyFree,
    /// The requested page count is too big
    TooBigAllocation,
}

} // verus!
