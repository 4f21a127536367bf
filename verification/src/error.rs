//! The errors of the library.

use vstd::prelude::*;

verus! {

/// Everything that can go wrong while a tree is laid out, hashed or updated.
///
/// Each of them reports a broken contract between caller and cache (a buffer
/// of the wrong size, a chunk that is not there), never an expected outcome.
#[derive(Debug, PartialEq, Eq)]
pub enum Error {
    /// A value without leaves of its own was asked for a leaf layout.
    ShouldNotProduceBTreeOverlay,
    /// The overlay has no leaf to name.
    NoFirstNode,
    /// The cache is empty, so it has no root.
    NoBytesForRoot,
    /// A buffer of this many bytes is not a whole number of chunks.
    BytesAreNotEvenChunks(usize),
    /// There is no modified flag for this chunk.
    NoModifiedFieldForChunk(usize),
    /// There are no bytes for this chunk.
    NoBytesForChunk(usize),
    /// The two children do not lie within the cache.
    NoChildrenForHashing((usize, usize)),
    /// There were no leaves to hash.
    CannotMerkleizeZeroLeaves,
    /// The number of leaves was not a power of two.
    LeavesMustBePowerOfTwo,
}

impl Clone for Error {
    fn clone(&self) -> (res: Self)
        ensures
            res == *self,
    {
        match self {
            Error::ShouldNotProduceBTreeOverlay => Error::ShouldNotProduceBTreeOverlay,
            Error::NoFirstNode => Error::NoFirstNode,
            Error::NoBytesForRoot => Error::NoBytesForRoot,
            Error::BytesAreNotEvenChunks(len) => Error::BytesAreNotEvenChunks(*len),
            Error::NoModifiedFieldForChunk(chunk) => Error::NoModifiedFieldForChunk(*chunk),
            Error::NoBytesForChunk(chunk) => Error::NoBytesForChunk(*chunk),
            Error::NoChildrenForHashing(children) => Error::NoChildrenForHashing(
                (children.0, children.1),
            ),
            Error::CannotMerkleizeZeroLeaves => Error::CannotMerkleizeZeroLeaves,
            Error::LeavesMustBePowerOfTwo => Error::LeavesMustBePowerOfTwo,
        }
    }
}

} // verus!
