//! Failure conditions of the allocator.

use vstd::prelude::*;

verus! {

/// Every way an allocator operation can fail.
///
/// `OutOfRange` and `OutOfMemory` are ordinary failure values that the caller
/// may recover from.  `DoubleFree` and `InvalidFree` report a violated
/// deallocation contract; a caller must treat them as fatal, since continuing
/// would risk silent corruption of the chunk chain.
#[derive(Clone, Copy, Debug, PartialEq, Eq, Structural)]
pub enum AllocError {
    /// No representable power of two is large enough for the requested size.
    OutOfRange,
    /// No chunk in the chain can host the request.
    OutOfMemory,
    /// Deallocation named a chunk that is already free.
    DoubleFree,
    /// Deallocation named an address that no chunk header matches.
    InvalidFree,
}

} // verus!
