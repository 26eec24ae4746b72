//! The manager's verified core: routing, proof checking and the root-hash
//! cache.
//!
//! The remote calls themselves happen outside the library; a driver routes
//! each keyword here, sends the request, and hands the response back to the
//! verifier and the root cache.
use vstd::prelude::*;

use crate::poly::{bytes_eq, scalar_clone};
use crate::routing::{addr_of, Router};
use crate::verification::first_nonempty_of;
use crate::types::AdsMode;
use crate::verification::ProofVerifier;

verus! {

/// The cached root bound to a node name.
pub open spec fn root_of(roots: Seq<(Seq<u8>, Seq<u8>)>, name: Seq<u8>) -> Option<Seq<u8>>
    decreases roots.len(),
{
    if roots.len() == 0 {
        None
    } else if roots.last().0 == name {
        Some(roots.last().1)
    } else {
        root_of(roots.drop_last(), name)
    }
}

/// The manager: the router, the proof verifier, and the per-node cache of
/// the last verified root.
pub struct Manager {
    router: Router,
    verifier: ProofVerifier,
    root_hashes: Vec<(Vec<u8>, Vec<u8>)>,
}

impl Manager {
    /// The root cache, oldest entry first; a later entry for a node shadows
    /// an earlier one.
    pub closed spec fn roots_view(self) -> Seq<(Seq<u8>, Seq<u8>)> {
        Seq::new(self.root_hashes@.len(), |i: int| (self.root_hashes@[i].0@, self.root_hashes@[i].1@))
    }

    /// A manager over the given storage-node addresses, with 150 virtual
    /// nodes per node on the ring.
    pub fn new(storager_addrs: &Vec<Vec<u8>>, ads_mode: AdsMode) -> (r: Self)
        ensures
            r.ads_mode_spec() == ads_mode,
            r.roots_view().len() == 0,
    {
        let router = Router::new(storager_addrs, 150);
        let verifier = ProofVerifier::new(ads_mode);
        let r = Manager { router, verifier, root_hashes: Vec::new() };
        proof {
            assert(r.roots_view() =~= Seq::<(Seq<u8>, Seq<u8>)>::empty());
        }
        r
    }

    /// The mode the manager runs in.
    pub closed spec fn ads_mode_spec(&self) -> AdsMode {
        self.verifier.ads_mode_spec()
    }

    /// The router's node-name to address table.
    pub closed spec fn addrs_view(self) -> Seq<(Seq<u8>, Seq<u8>)> {
        self.router.addrs_view()
    }

    /// The mode the manager runs in.
    #[verifier::when_used_as_spec(ads_mode_spec)]
    pub fn ads_mode(&self) -> (r: AdsMode)
        ensures
            r == self.ads_mode_spec(),
    {
        self.verifier.ads_mode()
    }

    /// The node a keyword routes to, with its address.
    pub fn get_storager_for_keyword(&self, keyword: &Vec<u8>) -> (r: Option<(Vec<u8>, Vec<u8>)>)
        ensures
            r is Some ==> addr_of(self.addrs_view(), r->Some_0.0@) == Some(r->Some_0.1@),
    {
        self.router.get_storager_for_keyword(keyword)
    }

    /// Checks a proof against a root hash, under the manager's mode.
    pub fn verify_proof(&self, proof: &Vec<u8>, root_hash: &Vec<u8>) -> (r: bool)
        ensures
            self.ads_mode_spec() is CryptoAccumulator ==> r == crate::verification::acc_proof_ok(
                proof@,
            ),
            self.ads_mode_spec() is Mpt ==> r == true,
    {
        self.verifier.verify(proof, root_hash)
    }

    /// Records the last verified root of a node.
    pub fn update_root_hash(&mut self, storager_name: Vec<u8>, root_hash: Vec<u8>)
        ensures
            final(self).roots_view() == old(self).roots_view().push((storager_name@, root_hash@)),
            final(self).ads_mode_spec() == old(self).ads_mode_spec(),
            forall|nm: Seq<u8>|
                #[trigger] root_of(final(self).roots_view(), nm) == (if nm == storager_name@ {
                    Some(root_hash@)
                } else {
                    root_of(old(self).roots_view(), nm)
                }),
    {
        let ghost before = self.roots_view();
        self.root_hashes.push((storager_name, root_hash));
        proof {
            assert(self.roots_view() =~= before.push(
                (self.root_hashes@.last().0@, self.root_hashes@.last().1@),
            ));
            assert forall|nm: Seq<u8>| #[trigger]
                root_of(self.roots_view(), nm) == (if nm == self.root_hashes@.last().0@ {
                    Some(self.root_hashes@.last().1@)
                } else {
                    root_of(before, nm)
                }) by {
                assert(self.roots_view().drop_last() =~= before);
            }
        }
    }

    /// The cached root of a node, if one was recorded.
    pub fn cached_root(&self, storager_name: &Vec<u8>) -> (r: Option<Vec<u8>>)
        ensures
            r is Some ==> root_of(self.roots_view(), storager_name@) == Some(r->Some_0@),
            r is None ==> root_of(self.roots_view(), storager_name@) is None,
    {
        let mut i: usize = self.root_hashes.len();
        proof {
            assert(self.roots_view().take(self.root_hashes@.len() as int) =~= self.roots_view());
        }
        while i > 0
            invariant
                i <= self.root_hashes@.len(),
                root_of(self.roots_view(), storager_name@) == root_of(
                    self.roots_view().take(i as int),
                    storager_name@,
                ),
            decreases i,
        {
            i -= 1;
            proof {
                assert(self.roots_view().take(i + 1).last() == self.roots_view()[i as int]);
                assert(self.roots_view().take(i + 1).drop_last() =~= self.roots_view().take(
                    i as int,
                ));
            }
            if bytes_eq(&self.root_hashes[i].0, storager_name) {
                return Some(scalar_clone(&self.root_hashes[i].1));
            }
        }
        proof {
            assert(self.roots_view().take(0) =~= Seq::<(Seq<u8>, Seq<u8>)>::empty());
        }
        None
    }

    /// Combines per-keyword proofs into the response's single proof: the
    /// first one in accumulator mode, the first non-empty one in trie mode.
    pub fn combine_proofs(&self, proofs: &Vec<Vec<u8>>) -> (r: Vec<u8>)
        ensures
            proofs@.len() == 0 ==> r@ == Seq::<u8>::empty(),
            proofs@.len() > 0 && self.ads_mode_spec() is CryptoAccumulator ==> r@ == proofs@[0]@,
            proofs@.len() > 0 && self.ads_mode_spec() is Mpt ==> r@ == first_nonempty_of(
                crate::poly::pv(proofs@),
            ),
    {
        self.verifier.combine_proofs(proofs)
    }

    /// Every storage node with its address.
    pub fn get_storagers(&self) -> (r: Vec<(Vec<u8>, Vec<u8>)>)
        ensures
            Seq::new(r@.len(), |i: int| (r@[i].0@, r@[i].1@)) == self.addrs_view(),
    {
        self.router.get_all_storagers()
    }
}

} // verus!
