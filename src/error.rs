use vstd::prelude::*;

verus! {

/// The ways an operation on a buffer or a list can fail.
#[derive(Debug, Clone, Copy, PartialEq, Eq, Structural)]
pub enum Error {
    /// The memory layout for the requested number of elements is invalid.
    AllocationError,
    /// An index lies outside the bound that the operation allows.
    IndexOutOfRange,
    /// The destination of a bulk copy is smaller than its source.
    InsufficientSpace,
    /// A removal was asked of a list with no elements.
    EmptyContainer,
}

} // verus!
