//! Query proofs of the Merkle-Patricia trie.
//!
//! A proof is an ordered list of elements from the leaf upward; each element
//! carries what a verifier needs to recompute one node's hash.  The verifier
//! starts from the claimed value, rehashes element by element, checks at each
//! level that the hash computed so far is referenced by the element above,
//! and compares the final hash with the trie's root.
use vstd::prelude::*;

use crate::field::{sha256, sha256_of};
use crate::mpt_node::append_bytes;
use crate::poly::pv;

verus! {

/// One level of a proof: the local data of a leaf (type 0), extension
/// (type 1) or branch (type 2).
pub struct ProofElement {
    pub level: u32,
    pub proof_type: u8,
    pub prefix: Vec<u8>,
    pub suffix: Vec<u8>,
    pub value: Vec<u8>,
    pub next_node_hash: Vec<u8>,
    pub children_hashes: Vec<Vec<u8>>,
}

/// A whole query proof: whether the key exists, the depth the descent
/// reached, and the elements from the leaf upward.
pub struct MPTProof {
    pub is_exist: bool,
    pub levels: u32,
    pub proofs: Vec<ProofElement>,
}

/// The saturating sum of two sizes.
pub open spec fn sat_add_of(a: int, b: int) -> int {
    if a + b > usize::MAX {
        usize::MAX as int
    } else {
        a + b
    }
}

/// The reported in-memory size of a proof element.
pub open spec fn pe_size_of(pe: ProofElement) -> int {
    sat_add_of(
        sat_add_of(
            sat_add_of(sat_add_of(sat_add_of(5, pe.prefix@.len() as int), pe.suffix@.len() as int),
                pe.value@.len() as int),
            pe.next_node_hash@.len() as int,
        ),
        children_sizes_of(pv(pe.children_hashes@)),
    )
}

/// The saturating total length of the child hashes.
pub open spec fn children_sizes_of(chs: Seq<Seq<u8>>) -> int
    decreases chs.len(),
{
    if chs.len() == 0 {
        0
    } else {
        sat_add_of(children_sizes_of(chs.drop_last()), chs.last().len() as int)
    }
}

/// The saturating total size of a proof's elements.
pub open spec fn proofs_sizes_of(ps: Seq<ProofElement>, base: int) -> int
    decreases ps.len(),
{
    if ps.len() == 0 {
        base
    } else {
        sat_add_of(proofs_sizes_of(ps.drop_last(), base), pe_size_of(ps.last()))
    }
}

/// Adds two sizes, stopping at the largest representable one.
pub(crate) fn sat_add(a: usize, b: usize) -> (r: usize)
    ensures
        r == sat_add_of(a as int, b as int),
{
    if a > usize::MAX - b {
        usize::MAX
    } else {
        a + b
    }
}

impl ProofElement {
    /// Builds a proof element from its parts.
    pub fn new(
        level: u32,
        proof_type: u8,
        prefix: Vec<u8>,
        suffix: Vec<u8>,
        value: Vec<u8>,
        next_node_hash: Vec<u8>,
        children_hashes: Vec<Vec<u8>>,
    ) -> (r: Self)
        ensures
            r.level == level,
            r.proof_type == proof_type,
            r.prefix@ == prefix@,
            r.suffix@ == suffix@,
            r.value@ == value@,
            r.next_node_hash@ == next_node_hash@,
            r.children_hashes@ == children_hashes@,
    {
        Self { level, proof_type, prefix, suffix, value, next_node_hash, children_hashes }
    }

    /// The reported size of this element.
    pub fn size_of(&self) -> (r: usize)
        ensures
            r == pe_size_of(*self),
    {
        let mut acc = sat_add(5, self.prefix.len());
        acc = sat_add(acc, self.suffix.len());
        acc = sat_add(acc, self.value.len());
        acc = sat_add(acc, self.next_node_hash.len());
        let mut total: usize = 0;
        let mut i: usize = 0;
        while i < self.children_hashes.len()
            invariant
                0 <= i <= self.children_hashes@.len(),
                total == children_sizes_of(pv(self.children_hashes@).take(i as int)),
                total <= usize::MAX,
            decreases self.children_hashes@.len() - i,
        {
            proof {
                assert(pv(self.children_hashes@).take(i + 1).drop_last() =~= pv(
                    self.children_hashes@,
                ).take(i as int));
                assert(pv(self.children_hashes@).take(i + 1).last() == pv(self.children_hashes@)[
                    i as int
                ]);
            }
            total = sat_add(total, self.children_hashes[i].len());
            i += 1;
        }
        proof {
            assert(pv(self.children_hashes@).take(self.children_hashes@.len() as int) =~= pv(
                self.children_hashes@,
            ));
        }
        sat_add(acc, total)
    }
}

impl MPTProof {
    /// Builds a proof from its parts.
    pub fn new(is_exist: bool, levels: u32, proofs: Vec<ProofElement>) -> (r: Self)
        ensures
            r.is_exist == is_exist,
            r.levels == levels,
            r.proofs@ == proofs@,
    {
        Self { is_exist, levels, proofs }
    }

    /// Whether the key was found.
    pub fn get_is_exist(&self) -> (r: bool)
        ensures
            r == self.is_exist,
    {
        self.is_exist
    }

    /// The depth the descent reached.
    pub fn get_levels(&self) -> (r: u32)
        ensures
            r == self.levels,
    {
        self.levels
    }

    /// The proof elements, leaf first.
    pub fn get_proofs(&self) -> (r: &Vec<ProofElement>)
        ensures
            r@ == self.proofs@,
    {
        &self.proofs
    }

    /// The reported size of the whole proof.
    pub fn size_of(&self) -> (r: usize)
        ensures
            r == proofs_sizes_of(self.proofs@, 5),
    {
        let mut total: usize = 5;
        let mut i: usize = 0;
        while i < self.proofs.len()
            invariant
                0 <= i <= self.proofs@.len(),
                total == proofs_sizes_of(self.proofs@.take(i as int), 5),
                total <= usize::MAX,
            decreases self.proofs@.len() - i,
        {
            proof {
                assert(self.proofs@.take(i + 1).drop_last() =~= self.proofs@.take(i as int));
                assert(self.proofs@.take(i + 1).last() == self.proofs@[i as int]);
            }
            let s = self.proofs[i].size_of();
            total = sat_add(total, s);
            i += 1;
        }
        proof {
            assert(self.proofs@.take(self.proofs@.len() as int) =~= self.proofs@);
        }
        total
    }
}

/// The starting accumulator of the verification: the value padded right with
/// zeros into 32 bytes, or its hash when longer.
pub open spec fn init_acc_of(value: Seq<u8>) -> Seq<u8> {
    if value.len() <= 32 {
        value + Seq::new((32 - value.len()) as nat, |i: int| 0u8)
    } else {
        sha256_of(value)
    }
}

/// Whether one of the child hashes is a 32-byte hash equal to `cur`.
pub open spec fn child_hash_present(chs: Seq<Seq<u8>>, cur: Seq<u8>) -> bool {
    exists|j: int| 0 <= j < chs.len() && chs[j].len() == 32 && chs[j] == cur
}

/// The concatenation of all child hash entries.
pub open spec fn concat_children_of(chs: Seq<Seq<u8>>) -> Seq<u8>
    decreases chs.len(),
{
    if chs.len() == 0 {
        Seq::empty()
    } else {
        concat_children_of(chs.drop_last()) + chs.last()
    }
}

/// One verification step: rehashes the element, or reports failure when the
/// element does not reference the hash computed so far.
pub open spec fn proof_step_of(
    cur: Seq<u8>,
    pe: ProofElement,
    value: Seq<u8>,
    is_exist: bool,
    levels: u32,
) -> Option<Seq<u8>> {
    if pe.proof_type == 0 {
        Some(
            sha256_of(
                pe.prefix@ + pe.suffix@ + (if is_exist {
                    value
                } else {
                    pe.value@
                }),
            ),
        )
    } else if pe.proof_type == 1 {
        if pe.level != levels && pe.next_node_hash@.len() == 32 && pe.next_node_hash@ != cur {
            None
        } else {
            Some(sha256_of(pe.prefix@ + pe.suffix@ + pe.next_node_hash@))
        }
    } else if pe.proof_type == 2 {
        if pe.level != levels && !child_hash_present(pv(pe.children_hashes@), cur) {
            None
        } else {
            Some(sha256_of(concat_children_of(pv(pe.children_hashes@)) + pe.value@))
        }
    } else {
        None
    }
}

/// The verification chain from element `i` on: an all-zero hash on the first
/// failing step, the final hash otherwise.
pub open spec fn proof_chain_of(
    proofs: Seq<ProofElement>,
    i: int,
    cur: Seq<u8>,
    value: Seq<u8>,
    is_exist: bool,
    levels: u32,
) -> Seq<u8>
    decreases proofs.len() - i,
{
    if i < 0 || i >= proofs.len() {
        cur
    } else {
        match proof_step_of(cur, proofs[i], value, is_exist, levels) {
            None => crate::mpt::zero_hash(),
            Some(h) => proof_chain_of(proofs, i + 1, h, value, is_exist, levels),
        }
    }
}

/// The root hash a proof reconstructs for a claimed value.
pub open spec fn compute_root_of(value: Seq<u8>, proof: MPTProof) -> Seq<u8> {
    proof_chain_of(proof.proofs@, 0, init_acc_of(value), value, proof.is_exist, proof.levels)
}

/// Recomputes the root hash from a claimed value and a proof, from the leaf
/// upward; a step that does not reference the hash below it yields the
/// all-zero hash.
pub fn compute_mpt_root(value: &Vec<u8>, mpt_proof: &MPTProof) -> (r: Vec<u8>)
    ensures
        r@ == compute_root_of(value@, *mpt_proof),
        r@.len() == 32,
{
    let mut cur: Vec<u8>;
    if value.len() <= 32 {
        let mut buf: Vec<u8> = Vec::new();
        append_bytes(&mut buf, value);
        let mut k = value.len();
        while k < 32
            invariant
                value@.len() <= 32,
                value@.len() <= k <= 32,
                buf@.len() == k,
                buf@.take(value@.len() as int) == value@,
                forall|i: int| value@.len() <= i < k ==> buf@[i] == 0u8,
            decreases 32 - k,
        {
            buf.push(0);
            proof {
                assert(buf@.take(value@.len() as int) =~= value@);
            }
            k += 1;
        }
        proof {
            assert(buf@ =~= init_acc_of(value@));
        }
        cur = buf;
    } else {
        cur = sha256(value);
    }
    let n = mpt_proof.proofs.len();
    let mut i: usize = 0;
    while i < n
        invariant
            n == mpt_proof.proofs@.len(),
            0 <= i <= n,
            cur@.len() == 32 || i == 0,
            compute_root_of(value@, *mpt_proof) == proof_chain_of(
                mpt_proof.proofs@,
                i as int,
                cur@,
                value@,
                mpt_proof.is_exist,
                mpt_proof.levels,
            ),
        decreases n - i,
    {
        let pe = &mpt_proof.proofs[i];
        let ghost curv = cur@;
        if pe.proof_type == 0 {
            let mut buf: Vec<u8> = Vec::new();
            append_bytes(&mut buf, &pe.prefix);
            append_bytes(&mut buf, &pe.suffix);
            if mpt_proof.is_exist {
                append_bytes(&mut buf, value);
            } else {
                append_bytes(&mut buf, &pe.value);
            }
            proof {
                assert(buf@ =~= pe.prefix@ + pe.suffix@ + (if mpt_proof.is_exist {
                    value@
                } else {
                    pe.value@
                }));
            }
            cur = sha256(&buf);
        } else if pe.proof_type == 1 {
            if pe.level != mpt_proof.levels && pe.next_node_hash.len() == 32 && !crate::poly::bytes_eq(
                &pe.next_node_hash,
                &cur,
            ) {
                let z = crate::mpt::make_zero_hash();
                proof {
                    assert(proof_step_of(
                        curv,
                        mpt_proof.proofs@[i as int],
                        value@,
                        mpt_proof.is_exist,
                        mpt_proof.levels,
                    ) is None);
                }
                return z;
            }
            let mut buf: Vec<u8> = Vec::new();
            append_bytes(&mut buf, &pe.prefix);
            append_bytes(&mut buf, &pe.suffix);
            append_bytes(&mut buf, &pe.next_node_hash);
            proof {
                assert(buf@ =~= pe.prefix@ + pe.suffix@ + pe.next_node_hash@);
            }
            cur = sha256(&buf);
        } else if pe.proof_type == 2 {
            if pe.level != mpt_proof.levels {
                let mut found = false;
                let mut j: usize = 0;
                while j < pe.children_hashes.len()
                    invariant
                        0 <= j <= pe.children_hashes@.len(),
                        found ==> child_hash_present(pv(pe.children_hashes@), curv),
                        !found ==> forall|w: int|
                            0 <= w < j ==> !(pv(pe.children_hashes@)[w].len() == 32 && pv(
                                pe.children_hashes@,
                            )[w] == curv),
                        curv == cur@,
                    decreases pe.children_hashes@.len() - j,
                {
                    if pe.children_hashes[j].len() == 32 && crate::poly::bytes_eq(
                        &pe.children_hashes[j],
                        &cur,
                    ) {
                        found = true;
                        proof {
                            assert(pv(pe.children_hashes@)[j as int].len() == 32 && pv(
                                pe.children_hashes@,
                            )[j as int] == curv);
                        }
                    }
                    j += 1;
                }
                if !found {
                    let z = crate::mpt::make_zero_hash();
                    proof {
                        assert(!child_hash_present(pv(pe.children_hashes@), curv));
                        assert(proof_step_of(
                            curv,
                            mpt_proof.proofs@[i as int],
                            value@,
                            mpt_proof.is_exist,
                            mpt_proof.levels,
                        ) is None);
                    }
                    return z;
                }
            }
            let mut buf: Vec<u8> = Vec::new();
            let mut j: usize = 0;
            while j < pe.children_hashes.len()
                invariant
                    0 <= j <= pe.children_hashes@.len(),
                    buf@ == concat_children_of(pv(pe.children_hashes@).take(j as int)),
                decreases pe.children_hashes@.len() - j,
            {
                proof {
                    assert(pv(pe.children_hashes@).take(j + 1).drop_last() =~= pv(
                        pe.children_hashes@,
                    ).take(j as int));
                    assert(pv(pe.children_hashes@).take(j + 1).last() == pv(pe.children_hashes@)[
                        j as int
                    ]);
                }
                append_bytes(&mut buf, &pe.children_hashes[j]);
                j += 1;
            }
            proof {
                assert(pv(pe.children_hashes@).take(pe.children_hashes@.len() as int) =~= pv(
                    pe.children_hashes@,
                ));
            }
            append_bytes(&mut buf, &pe.value);
            proof {
                assert(buf@ =~= concat_children_of(pv(pe.children_hashes@)) + pe.value@);
            }
            cur = sha256(&buf);
        } else {
            let z = crate::mpt::make_zero_hash();
            return z;
        }
        i += 1;
    }
    cur
}

} // verus!
