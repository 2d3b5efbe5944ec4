use vstd::prelude::*;

verus! {

/// The recoverable failures of the book's operations.
#[derive(Debug, Clone, Copy, PartialEq, Eq, Structural)]
pub enum BookError {
    /// An order of size zero was submitted.
    InvalidSize,
    /// A cancellation named an identity that is not resting in the book.
    OrderNotFound,
    /// An order with the same identity is already resting in the book.
    DuplicateOrder,
    /// Admitting the order would take the level's aggregate volume past `u64::MAX`.
    VolumeOverflow,
}

} // verus!
