//! A verifiable keyword-index store.
//!
//! Each file identifier (fid) is associated with a set of keywords; the store
//! answers keyword and boolean-combination queries together with a
//! cryptographic proof that the answer is consistent with the indexed set.
//! Two authenticated data structures back a keyword's posting list: a
//! bilinear-pairing dynamic accumulator and a hex-nibble Merkle-Patricia trie.
use vstd::prelude::*;

pub mod field;
pub mod poly;
pub mod dynamic_accumulator;
pub mod digest_set;
pub mod mpt_utils;
pub mod mpt_error;
pub mod mpt_node;
pub mod mpt_db;
pub mod mpt;
pub mod mpt_proof;
pub mod boolexpr;
pub mod ring;
pub mod types;
pub mod verification;
pub mod routing;
pub mod manager;
pub mod client;
pub mod system;
pub mod trees;
pub mod ads;

verus! {

/// Hash of a data chunk or an authenticated-structure root.
pub type RootHash = Vec<u8>;

} // verus!
