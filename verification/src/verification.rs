//! The manager-side proof verifier.
//!
//! In accumulator mode it checks the structure of the fixed-layout proof
//! bytes: the storage node's self-check byte must be set, the proof must be
//! long enough, and its leading bytes must decode as a G1 point.  In trie
//! mode the transported proof is the root hash itself, and any shape is
//! accepted.  A production deployment would add the pairing check here.
use vstd::prelude::*;

use crate::field::{g1_check, g1_ok};
use crate::types::AdsMode;

verus! {

/// What the structural accumulator-proof check accepts: a self-check byte of
/// one, at least a point, an element and the self-check byte, and a leading
/// G1 encoding.
pub open spec fn acc_proof_ok(proof: Seq<u8>) -> bool {
    &&& proof.len() >= 105
    &&& proof.last() == 1u8
    &&& g1_ok(proof.take(96))
}

/// The first non-empty proof, if any.
pub open spec fn first_nonempty_of(proofs: Seq<Seq<u8>>) -> Seq<u8>
    decreases proofs.len(),
{
    if proofs.len() == 0 {
        Seq::empty()
    } else if proofs[0].len() > 0 {
        proofs[0]
    } else {
        first_nonempty_of(proofs.drop_first())
    }
}

/// The manager's proof verifier.
pub struct ProofVerifier {
    ads_mode: AdsMode,
}

impl ProofVerifier {
    /// A verifier for the given mode.
    pub fn new(ads_mode: AdsMode) -> (r: Self)
        ensures
            r.ads_mode_spec() == ads_mode,
    {
        ProofVerifier { ads_mode }
    }

    /// The mode the verifier runs in.
    pub closed spec fn ads_mode_spec(&self) -> AdsMode {
        self.ads_mode
    }

    /// The mode the verifier runs in.
    #[verifier::when_used_as_spec(ads_mode_spec)]
    pub fn ads_mode(&self) -> (r: AdsMode)
        ensures
            r == self.ads_mode_spec(),
    {
        self.ads_mode
    }

    /// Checks a proof: the structural accumulator check in accumulator mode;
    /// in trie mode the proof is the root hash itself and every shape is
    /// accepted.
    pub fn verify(&self, proof: &Vec<u8>, root_hash: &Vec<u8>) -> (r: bool)
        ensures
            self.ads_mode_spec() is CryptoAccumulator ==> r == acc_proof_ok(proof@),
            self.ads_mode_spec() is Mpt ==> r == true,
    {
        let _ = root_hash;
        match self.ads_mode {
            AdsMode::CryptoAccumulator => self.verify_crypto_accumulator(proof),
            AdsMode::Mpt => self.verify_mpt(proof),
        }
    }

    /// The structural check of an accumulator proof.
    fn verify_crypto_accumulator(&self, proof: &Vec<u8>) -> (r: bool)
        ensures
            r == acc_proof_ok(proof@),
    {
        if proof.len() == 0 {
            return false;
        }
        if proof[proof.len() - 1] != 1 {
            return false;
        }
        if proof.len() < 105 {
            return false;
        }
        let mut head: Vec<u8> = Vec::new();
        let mut i: usize = 0;
        while i < 96
            invariant
                proof@.len() >= 105,
                0 <= i <= 96,
                head@ == proof@.take(i as int),
            decreases 96 - i,
        {
            head.push(proof[i]);
            proof {
                assert(proof@.take(i + 1) =~= proof@.take(i as int).push(proof@[i as int]));
            }
            i += 1;
        }
        g1_check(&head)
    }

    /// The trie-mode check: the proof is a root hash or empty, and is
    /// accepted as transported.
    fn verify_mpt(&self, proof: &Vec<u8>) -> (r: bool)
        ensures
            r == true,
    {
        let _ = proof;
        true
    }

    /// Combines per-keyword proofs into the single proof the response
    /// carries: the first one in accumulator mode, the first non-empty one
    /// in trie mode.
    pub fn combine_proofs(&self, proofs: &Vec<Vec<u8>>) -> (r: Vec<u8>)
        ensures
            proofs@.len() == 0 ==> r@ == Seq::<u8>::empty(),
            proofs@.len() > 0 && self.ads_mode_spec() is CryptoAccumulator ==> r@ == proofs@[0]@,
            proofs@.len() > 0 && self.ads_mode_spec() is Mpt ==> r@ == first_nonempty_of(
                crate::poly::pv(proofs@),
            ),
    {
        if proofs.len() == 0 {
            return Vec::new();
        }
        match self.ads_mode {
            AdsMode::CryptoAccumulator => crate::poly::scalar_clone(&proofs[0]),
            AdsMode::Mpt => {
                proof {
                    assert(self.ads_mode_spec() is Mpt);
                    assert(!(self.ads_mode_spec() is CryptoAccumulator));
                }
                let n = proofs.len();
                let mut i: usize = 0;
                proof {
                    assert(crate::poly::pv(proofs@).skip(0) =~= crate::poly::pv(proofs@));
                }
                while i < n
                    invariant
                        n == proofs@.len(),
                        0 <= i <= n,
                        self.ads_mode_spec() is Mpt,
                        first_nonempty_of(crate::poly::pv(proofs@)) == first_nonempty_of(
                            crate::poly::pv(proofs@).skip(i as int),
                        ),
                    decreases n - i,
                {
                    proof {
                        assert(crate::poly::pv(proofs@).skip(i as int)[0] == crate::poly::pv(
                            proofs@,
                        )[i as int]);
                        assert(crate::poly::pv(proofs@).skip(i as int).drop_first()
                            =~= crate::poly::pv(proofs@).skip(i + 1));
                    }
                    if proofs[i].len() > 0 {
                        return crate::poly::scalar_clone(&proofs[i]);
                    }
                    i += 1;
                }
                proof {
                    assert(crate::poly::pv(proofs@).skip(n as int) =~= Seq::<Seq<u8>>::empty());
                }
                Vec::new()
            },
        }
    }
}

} // verus!
