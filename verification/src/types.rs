//! Shared types of the store.
use vstd::prelude::*;

verus! {

/// A file identifier.
pub type Fid = Vec<u8>;

/// A search keyword.
pub type Keyword = Vec<u8>;

/// A proof carried over the wire.
pub struct Proof {
    pub data: Vec<u8>,
}

/// Which authenticated data structure backs the posting lists.
#[derive(Debug, Clone, Copy, PartialEq, Eq, Structural)]
pub enum AdsMode {
    /// The bilinear-pairing dynamic accumulator.
    CryptoAccumulator,
    /// The Merkle-Patricia trie.
    Mpt,
}

/// The configuration of a deployment.
pub struct SystemConfig {
    pub num_clients: usize,
    pub num_storagers: usize,
    pub ads_mode: AdsMode,
    pub manager_addr: Vec<u8>,
    pub storager_addrs: Vec<Vec<u8>>,
    pub client_addrs: Vec<Vec<u8>>,
}

} // verus!
