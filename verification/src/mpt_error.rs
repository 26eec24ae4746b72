//! The errors of the Merkle-Patricia trie.
use vstd::prelude::*;

verus! {

/// What can go wrong in the trie and its persistence.
#[derive(Debug)]
pub enum MPTError {
    /// The external key-value database reported a failure.
    DatabaseError(Vec<u8>),
    /// A node blob could not be written or read back.
    SerializationError(Vec<u8>),
    /// A referenced node was not found.
    NodeNotFound,
    /// A key was not acceptable.
    InvalidKey(Vec<u8>),
    /// Stored data had an unexpected shape.
    InvalidData(Vec<u8>),
}

} // verus!
