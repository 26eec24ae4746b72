//! Stand-in authenticated trees: a Merkle tree and a Patricia trie that only
//! keep a root commitment, refreshed from a changing timestamp.  They mark
//! the extension points for further structures beside the accumulator and
//! the hex-nibble trie.
use vstd::prelude::*;

use crate::field::sha256;
use crate::mpt::zero_hash;
use crate::poly::scalar_clone;

verus! {

/// Relies on std's system clock: the nanoseconds since the epoch, as
/// little-endian bytes.  Two calls may differ; only the length is promised.
#[verifier::external_body]
fn now_nanos_bytes() -> (r: Vec<u8>)
    ensures
        r@.len() == 16,
{
    let nanos = std::time::SystemTime::now()
        .duration_since(std::time::UNIX_EPOCH)
        .map(|d| d.as_nanos())
        .unwrap_or(0);
    nanos.to_le_bytes().to_vec()
}

/// A Merkle tree that keeps only its root commitment.
pub struct MerkleTree {
    root: Vec<u8>,
}

impl MerkleTree {
    /// The root commitment.
    pub closed spec fn root_view(self) -> Seq<u8> {
        self.root@
    }

    /// An empty tree with an all-zero root.
    pub fn new() -> (r: Self)
        ensures
            r.root_view() == zero_hash(),
    {
        MerkleTree { root: crate::mpt::make_zero_hash() }
    }

    /// Records an insertion by refreshing the root commitment.
    pub fn insert(&mut self, data: &Vec<u8>)
        ensures
            final(self).root_view().len() == 32,
    {
        let _ = data;
        self.update_root();
    }

    /// Records a deletion by refreshing the root commitment.
    pub fn delete(&mut self, data: &Vec<u8>)
        ensures
            final(self).root_view().len() == 32,
    {
        let _ = data;
        self.update_root();
    }

    /// A placeholder proof: an all-zero digest.
    pub fn get_proof(&self, data: &Vec<u8>) -> (r: Vec<u8>)
        ensures
            r@ == zero_hash(),
    {
        let _ = data;
        crate::mpt::make_zero_hash()
    }

    /// The current root commitment.
    pub fn root_hash(&self) -> (r: Vec<u8>)
        ensures
            r@ == self.root_view(),
    {
        scalar_clone(&self.root)
    }

    fn update_root(&mut self)
        ensures
            final(self).root_view().len() == 32,
    {
        let stamp = now_nanos_bytes();
        self.root = sha256(&stamp);
    }
}

impl Default for MerkleTree {
    fn default() -> (r: Self)
        ensures
            r.root_view() == zero_hash(),
    {
        MerkleTree::new()
    }
}

/// A Patricia trie that keeps only its root commitment.
pub struct PatriciaTrie {
    root: Vec<u8>,
}

impl PatriciaTrie {
    /// The root commitment.
    pub closed spec fn root_view(self) -> Seq<u8> {
        self.root@
    }

    /// An empty trie with an all-zero root.
    pub fn new() -> (r: Self)
        ensures
            r.root_view() == zero_hash(),
    {
        PatriciaTrie { root: crate::mpt::make_zero_hash() }
    }

    /// Records an insertion by refreshing the root commitment.
    pub fn insert(&mut self, key: &Vec<u8>, value: &Vec<u8>)
        ensures
            final(self).root_view().len() == 32,
    {
        let _ = key;
        let _ = value;
        self.update_root();
    }

    /// Records a deletion by refreshing the root commitment.
    pub fn delete(&mut self, key: &Vec<u8>)
        ensures
            final(self).root_view().len() == 32,
    {
        let _ = key;
        self.update_root();
    }

    /// A placeholder proof: an all-zero digest.
    pub fn get_proof(&self, key: &Vec<u8>) -> (r: Vec<u8>)
        ensures
            r@ == zero_hash(),
    {
        let _ = key;
        crate::mpt::make_zero_hash()
    }

    /// The current root commitment.
    pub fn root_hash(&self) -> (r: Vec<u8>)
        ensures
            r@ == self.root_view(),
    {
        scalar_clone(&self.root)
    }

    fn update_root(&mut self)
        ensures
            final(self).root_view().len() == 32,
    {
        let stamp = now_nanos_bytes();
        self.root = sha256(&stamp);
    }
}

impl Default for PatriciaTrie {
    fn default() -> (r: Self)
        ensures
            r.root_view() == zero_hash(),
    {
        PatriciaTrie::new()
    }
}

} // verus!
