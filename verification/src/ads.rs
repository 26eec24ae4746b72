//! The storage node and its two posting-list backends.
//!
//! A storage node keeps one authenticated structure per keyword: either a
//! dynamic accumulator with the keyword's file identifiers, or a
//! Merkle-Patricia trie whose value for the keyword is the comma-joined
//! identifier list.  Every mutation answers with a proof and the new root.
use vstd::prelude::*;

use crate::dynamic_accumulator::DynamicAccumulator;
use crate::mpt::{wf_mpt, MPT, MAX_KEY_BYTES};
use crate::mpt_db::MemoryDatabase;
use crate::mpt_utils::KVPair;
use crate::dynamic_accumulator::{
    acc_empty_value, acc_step_of, acc_unstep_of, default_setup_secret, digest_gap_ok, remove_first,
};
use crate::field::{g1_ok, update_pair_check_of};
use crate::poly::{bytes_eq, pv, scalar_clone};
use crate::verification::acc_proof_ok;
use crate::RootHash;

verus! {

/// The operations a posting-list backend offers.
pub trait AdsOperations {
    /// Adds a (keyword, fid) pair; answers the proof and the new root.
    fn add(&mut self, keyword: &Vec<u8>, fid: &Vec<u8>) -> (Vec<u8>, RootHash);

    /// The fids of a keyword, with a proof.
    fn query(&self, keyword: &Vec<u8>) -> (Vec<Vec<u8>>, Vec<u8>);

    /// Removes a (keyword, fid) pair; answers the proof and the new root.
    fn delete(&mut self, keyword: &Vec<u8>, fid: &Vec<u8>) -> (Vec<u8>, RootHash);
}

/// One wrapping step of the element fold: `acc * 31 + byte`.
pub open spec fn elem_step(acc: i64, b: u8) -> i64 {
    vstd::wrapping::i64_specs::wrapping_add(
        vstd::wrapping::i64_specs::wrapping_mul(acc, 31),
        b as i64,
    )
}

/// The element fold over the first `i` bytes.
pub open spec fn elem_fold(bytes: Seq<u8>, i: int) -> i64
    decreases i,
{
    if i <= 0 {
        0
    } else {
        elem_step(elem_fold(bytes, i - 1), bytes[i - 1])
    }
}

/// The accumulator element of a (keyword, fid) pair: the wrapping fold of
/// `keyword:fid`, so that one fid makes distinct elements under distinct
/// keywords.
pub open spec fn fid_elem_of(keyword: Seq<u8>, fid: Seq<u8>) -> i64 {
    elem_fold(keyword + seq![58u8] + fid, (keyword.len() + 1 + fid.len()) as int)
}

/// The little-endian bytes of an element.
pub open spec fn i64_le_of(e: i64) -> Seq<u8> {
    Seq::new(8, |k: int| (((e as u64) >> (8 * k as u64)) & 0xff) as u8)
}

/// Computes the accumulator element of a (keyword, fid) pair.
pub fn fid_to_element(keyword: &Vec<u8>, fid: &Vec<u8>) -> (r: i64)
    ensures
        r == fid_elem_of(keyword@, fid@),
{
    let mut combined = scalar_clone(keyword);
    combined.push(58);
    crate::mpt_node::append_bytes(&mut combined, fid);
    proof {
        assert(combined@ =~= keyword@ + seq![58u8] + fid@);
    }
    let n = combined.len();
    let mut acc: i64 = 0;
    let mut i: usize = 0;
    while i < n
        invariant
            n == combined@.len(),
            0 <= i <= n,
            acc == elem_fold(combined@, i as int),
        decreases n - i,
    {
        acc = acc.wrapping_mul(31).wrapping_add(combined[i] as i64);
        i += 1;
    }
    acc
}

/// Writes an element as its little-endian bytes.
pub(crate) fn i64_le_bytes(e: i64) -> (r: Vec<u8>)
    ensures
        r@ == i64_le_of(e),
{
    let u = e as u64;
    let mut out: Vec<u8> = Vec::new();
    let mut k: usize = 0;
    while k < 8
        invariant
            u == e as u64,
            0 <= k <= 8,
            out@.len() == k,
            forall|w: int| 0 <= w < k ==> #[trigger] out@[w] == (((e as u64) >> (8 * w as u64))
                & 0xff) as u8,
        decreases 8 - k,
    {
        out.push(((u >> ((8 * k) as u64)) & 0xff) as u8);
        k += 1;
    }
    proof {
        assert(out@ =~= i64_le_of(e));
    }
    out
}

/// The serialized update proof: old value, new value, element, self-check.
pub open spec fn update_proof_of(
    old_acc: Seq<u8>,
    new_acc: Seq<u8>,
    element: i64,
    is_valid: bool,
) -> Seq<u8> {
    old_acc + new_acc + i64_le_of(element) + seq![
        if is_valid {
            1u8
        } else {
            0u8
        },
    ]
}

/// The serialized membership proof: witness, element, value, self-check.
pub open spec fn membership_proof_of(
    witness: Seq<u8>,
    element: i64,
    acc_value: Seq<u8>,
    is_valid: bool,
) -> Seq<u8> {
    witness + i64_le_of(element) + acc_value + seq![
        if is_valid {
            1u8
        } else {
            0u8
        },
    ]
}

/// The first accumulator entry bound to a keyword.
pub open spec fn find_acc_entry(entries: Seq<(Vec<u8>, AccEntry)>, kw: Seq<u8>) -> Option<AccEntry>
    decreases entries.len(),
{
    if entries.len() == 0 {
        None
    } else if entries[0].0@ == kw {
        Some(entries[0].1)
    } else {
        find_acc_entry(entries.drop_first(), kw)
    }
}

/// Appending an entry binds its keyword when nothing earlier does, and
/// leaves every earlier binding alone.
proof fn lemma_find_acc_push(entries: Seq<(Vec<u8>, AccEntry)>, e: (Vec<u8>, AccEntry), q: Seq<u8>)
    ensures
        find_acc_entry(entries.push(e), q) == (if find_acc_entry(entries, q) is Some {
            find_acc_entry(entries, q)
        } else if e.0@ == q {
            Some(e.1)
        } else {
            None::<AccEntry>
        }),
    decreases entries.len(),
{
    if entries.len() == 0 {
        assert(entries.push(e)[0] == e);
        assert(entries.push(e).drop_first() =~= Seq::<(Vec<u8>, AccEntry)>::empty());
        assert(find_acc_entry(entries, q) is None);
        if e.0@ == q {
            assert(find_acc_entry(entries.push(e), q) == Some(e.1));
        } else {
            assert(find_acc_entry(Seq::<(Vec<u8>, AccEntry)>::empty(), q) is None);
            assert(find_acc_entry(entries.push(e), q) is None);
        }
    } else {
        assert(entries.push(e)[0] == entries[0]);
        assert(entries.push(e).drop_first() =~= entries.drop_first().push(e));
        lemma_find_acc_push(entries.drop_first(), e, q);
        if entries[0].0@ == q {
            assert(find_acc_entry(entries.push(e), q) == Some(entries[0].1));
            assert(find_acc_entry(entries, q) == Some(entries[0].1));
        } else {
            assert(find_acc_entry(entries.push(e), q) == find_acc_entry(
                entries.drop_first().push(e),
                q,
            ));
            assert(find_acc_entry(entries, q) == find_acc_entry(entries.drop_first(), q));
        }
    }
}

/// A keyword bound by no entry finds nothing.
/// The first entry bound to a keyword, found by its index.
proof fn lemma_find_acc_at(entries: Seq<(Vec<u8>, AccEntry)>, idx: int, kw: Seq<u8>)
    requires
        0 <= idx < entries.len(),
        forall|k: int| 0 <= k < idx ==> (#[trigger] entries[k]).0@ != kw,
        entries[idx].0@ == kw,
    ensures
        find_acc_entry(entries, kw) == Some(entries[idx].1),
    decreases idx,
{
    if idx > 0 {
        assert(forall|k: int|
            0 <= k < entries.drop_first().len() ==> (#[trigger] entries.drop_first()[k])
                == entries[k + 1]);
        lemma_find_acc_at(entries.drop_first(), idx - 1, kw);
    }
}

proof fn lemma_find_acc_none(entries: Seq<(Vec<u8>, AccEntry)>, q: Seq<u8>)
    requires
        forall|k: int| 0 <= k < entries.len() ==> (#[trigger] entries[k]).0@ != q,
    ensures
        find_acc_entry(entries, q) is None,
    decreases entries.len(),
{
    if entries.len() > 0 {
        assert(forall|k: int|
            0 <= k < entries.drop_first().len() ==> (#[trigger] entries.drop_first()[k])
                == entries[k + 1]);
        lemma_find_acc_none(entries.drop_first(), q);
    }
}

/// One keyword's accumulator with its fid list.
pub struct AccEntry {
    pub accumulator: DynamicAccumulator,
    pub fids: Vec<Vec<u8>>,
}

/// The accumulator backend: one accumulator and fid list per keyword.
pub struct CryptoAccumulatorAds {
    accumulators: Vec<(Vec<u8>, AccEntry)>,
}

impl CryptoAccumulatorAds {
    #[verifier::type_invariant]
    spec fn wf(self) -> bool {
        forall|i: int, j: int|
            0 <= i < j < self.accumulators@.len() ==> (#[trigger] self.accumulators@[i]).0@ != (
            #[trigger] self.accumulators@[j]).0@
    }

    /// The entry a keyword is bound to.
    pub closed spec fn entry_of(self, kw: Seq<u8>) -> Option<AccEntry> {
        find_acc_entry(self.accumulators@, kw)
    }

    /// An empty backend: no keyword is bound.
    pub fn new() -> (r: Self)
        ensures
            forall|kw: Seq<u8>| #[trigger] r.entry_of(kw) is None,
    {
        let r = CryptoAccumulatorAds { accumulators: Vec::new() };
        proof {
            assert forall|kw: Seq<u8>| #[trigger] r.entry_of(kw) is None by {
                assert(r.accumulators@ =~= Seq::<(Vec<u8>, AccEntry)>::empty());
            }
        }
        r
    }

    /// Writes an update proof: old value, new value, element, self-check.
    pub(crate) fn serialize_update_proof(
        old_acc: &Vec<u8>,
        new_acc: &Vec<u8>,
        element: i64,
        is_valid: bool,
    ) -> (r: Vec<u8>)
        ensures
            r@ == update_proof_of(old_acc@, new_acc@, element, is_valid),
    {
        let mut proof: Vec<u8> = Vec::new();
        crate::mpt_node::append_bytes(&mut proof, old_acc);
        crate::mpt_node::append_bytes(&mut proof, new_acc);
        let le = i64_le_bytes(element);
        crate::mpt_node::append_bytes(&mut proof, &le);
        proof.push(
            if is_valid {
                1
            } else {
                0
            },
        );
        proof {
            assert(proof@ =~= update_proof_of(old_acc@, new_acc@, element, is_valid));
        }
        proof
    }

    /// Writes a membership proof: witness, element, value, self-check.
    pub(crate) fn serialize_membership_proof(
        witness: &Vec<u8>,
        element: i64,
        acc_value: &Vec<u8>,
        is_valid: bool,
    ) -> (r: Vec<u8>)
        ensures
            r@ == membership_proof_of(witness@, element, acc_value@, is_valid),
    {
        let mut proof: Vec<u8> = Vec::new();
        crate::mpt_node::append_bytes(&mut proof, witness);
        let le = i64_le_bytes(element);
        crate::mpt_node::append_bytes(&mut proof, &le);
        crate::mpt_node::append_bytes(&mut proof, acc_value);
        proof.push(
            if is_valid {
                1
            } else {
                0
            },
        );
        proof {
            assert(proof@ =~= membership_proof_of(witness@, element, acc_value@, is_valid));
        }
        proof
    }

    /// The index of a keyword's entry.
    fn find_entry(&self, keyword: &Vec<u8>) -> (r: Option<usize>)
        ensures
            r is Some ==> r->Some_0 < self.accumulators@.len()
                && self.accumulators@[r->Some_0 as int].0@ == keyword@ && self.entry_of(keyword@)
                == Some(self.accumulators@[r->Some_0 as int].1),
            r is None ==> (forall|k: int|
                0 <= k < self.accumulators@.len() ==> (#[trigger] self.accumulators@[k]).0@
                    != keyword@) && self.entry_of(keyword@) is None,
    {
        let n = self.accumulators.len();
        let mut i: usize = 0;
        proof {
            assert(self.accumulators@.skip(0) =~= self.accumulators@);
        }
        while i < n
            invariant
                n == self.accumulators@.len(),
                0 <= i <= n,
                forall|k: int| 0 <= k < i ==> (#[trigger] self.accumulators@[k]).0@ != keyword@,
                find_acc_entry(self.accumulators@, keyword@) == find_acc_entry(
                    self.accumulators@.skip(i as int),
                    keyword@,
                ),
            decreases n - i,
        {
            proof {
                assert(self.accumulators@.skip(i as int)[0] == self.accumulators@[i as int]);
                assert(self.accumulators@.skip(i as int).drop_first() =~= self.accumulators@.skip(
                    i + 1,
                ));
            }
            if bytes_eq(&self.accumulators[i].0, keyword) {
                return Some(i);
            }
            i += 1;
        }
        proof {
            assert(self.accumulators@.skip(n as int) =~= Seq::<(Vec<u8>, AccEntry)>::empty());
        }
        None
    }

    /// Takes a keyword's entry out, or starts an empty one.
    fn take_entry(&mut self, keyword: &Vec<u8>) -> (r: AccEntry)
        ensures
            forall|k: int|
                0 <= k < final(self).accumulators@.len() ==> (
                #[trigger] final(self).accumulators@[k]).0@ != keyword@,
            old(self).entry_of(keyword@) is Some ==> r == old(self).entry_of(keyword@)->Some_0,
            old(self).entry_of(keyword@) is None ==> r.accumulator.elements() == Seq::<
                i64,
            >::empty() && r.accumulator.acc() == acc_empty_value() && r.accumulator.setup_secret()
                == default_setup_secret() && r.fids@.len() == 0,
    {
        proof {
            use_type_invariant(&*self);
        }
        let mut avec: Vec<(Vec<u8>, AccEntry)> = Vec::new();
        core::mem::swap(&mut avec, &mut self.accumulators);
        let n = avec.len();
        let mut i: usize = 0;
        let mut found: Option<usize> = None;
        while i < n && found.is_none()
            invariant
                n == avec@.len(),
                0 <= i <= n,
                found is None ==> forall|k: int| 0 <= k < i ==> (#[trigger] avec@[k]).0@ != keyword@,
                found is Some ==> found->Some_0 < n && avec@[found->Some_0 as int].0@ == keyword@,
            decreases n - i, (if found is None { 1int } else { 0int }),
        {
            if bytes_eq(&avec[i].0, keyword) {
                found = Some(i);
            } else {
                i += 1;
            }
        }
        let entry = match found {
            Some(idx) => {
                proof {
                    lemma_find_acc_at(avec@, idx as int, keyword@);
                }
                let pair = avec.remove(idx);
                proof {
                    assert forall|p: int, q: int|
                        0 <= p < q < avec@.len() implies (#[trigger] avec@[p]).0@ != (
                    #[trigger] avec@[q]).0@ by {
                        let bp: int = if p < idx {
                            p
                        } else {
                            p + 1
                        };
                        let bq: int = if q < idx {
                            q
                        } else {
                            q + 1
                        };
                        assert(avec@[p] == old(self).accumulators@[bp]);
                        assert(avec@[q] == old(self).accumulators@[bq]);
                    }
                    assert forall|k: int|
                        0 <= k < avec@.len() implies (#[trigger] avec@[k]).0@ != keyword@ by {
                        let bk: int = if k < idx {
                            k
                        } else {
                            k + 1
                        };
                        assert(avec@[k] == old(self).accumulators@[bk]);
                        if bk != idx {
                            assert(old(self).accumulators@[bk].0@ != old(self).accumulators@[
                                idx as int
                            ].0@);
                        }
                    }
                }
                pair.1
            },
            None => {
                proof {
                    lemma_find_acc_none(avec@, keyword@);
                }
                AccEntry { accumulator: DynamicAccumulator::new(), fids: Vec::new() }
            },
        };
        core::mem::swap(&mut avec, &mut self.accumulators);
        entry
    }

    /// Puts a keyword's entry back; the keyword must not be present.
    fn put_entry(&mut self, keyword: &Vec<u8>, entry: AccEntry)
        requires
            forall|k: int|
                0 <= k < old(self).accumulators@.len() ==> (
                #[trigger] old(self).accumulators@[k]).0@ != keyword@,
        ensures
            final(self).entry_of(keyword@) == Some(entry),
    {
        proof {
            use_type_invariant(&*self);
        }
        let mut avec: Vec<(Vec<u8>, AccEntry)> = Vec::new();
        core::mem::swap(&mut avec, &mut self.accumulators);
        let ghost before = avec@;
        avec.push((scalar_clone(keyword), entry));
        proof {
            assert forall|p: int, q: int|
                0 <= p < q < avec@.len() implies (#[trigger] avec@[p]).0@ != (
            #[trigger] avec@[q]).0@ by {
                if q == avec@.len() - 1 {
                    assert(avec@[p] == old(self).accumulators@[p]);
                } else {
                    assert(avec@[p] == old(self).accumulators@[p]);
                    assert(avec@[q] == old(self).accumulators@[q]);
                }
            }
        }
        core::mem::swap(&mut avec, &mut self.accumulators);
        proof {
            lemma_find_acc_none(before, keyword@);
            lemma_find_acc_push(before, self.accumulators@.last(), keyword@);
            assert(self.accumulators@ =~= before.push(self.accumulators@.last()));
        }
    }
}

impl AdsOperations for CryptoAccumulatorAds {
    /// Adds a fid under a keyword, creating the accumulator on first use; a
    /// duplicate fid leaves the state as it is.  The proof is the serialized
    /// update proof with the node's own pairing check as its self-check
    /// byte; the root is the accumulator's value.
    fn add(&mut self, keyword: &Vec<u8>, fid: &Vec<u8>) -> (r: (Vec<u8>, RootHash))
        ensures
            final(self).entry_of(keyword@) is Some,
            r.1@ == final(self).entry_of(keyword@)->Some_0.accumulator.acc(),
            r.0@.len() == 201,
            r.0@.subrange(96, 192) == r.1@,
            r.0@.subrange(192, 200) == i64_le_of(fid_elem_of(keyword@, fid@)),
            acc_proof_ok(r.0@) <==> r.0@.last() == 1u8,
            old(self).entry_of(keyword@) is Some && pv(
                old(self).entry_of(keyword@)->Some_0.fids@,
            ).contains(fid@) ==> final(self).entry_of(keyword@) == old(self).entry_of(keyword@),
            old(self).entry_of(keyword@) is Some && !pv(
                old(self).entry_of(keyword@)->Some_0.fids@,
            ).contains(fid@)
                && !old(self).entry_of(keyword@)->Some_0.accumulator.elements().contains(
                fid_elem_of(keyword@, fid@),
            ) ==> ({
                let e0 = old(self).entry_of(keyword@)->Some_0;
                let e1 = final(self).entry_of(keyword@)->Some_0;
                &&& e1.accumulator.elements() == e0.accumulator.elements().push(
                    fid_elem_of(keyword@, fid@),
                )
                &&& e1.accumulator.acc() == acc_step_of(
                    e0.accumulator.setup_secret(),
                    e0.accumulator.acc(),
                    fid_elem_of(keyword@, fid@),
                )
                &&& pv(e1.fids@) == pv(e0.fids@).push(fid@)
                &&& r.0@ == update_proof_of(
                    e0.accumulator.acc(),
                    e1.accumulator.acc(),
                    fid_elem_of(keyword@, fid@),
                    update_pair_check_of(
                        e0.accumulator.setup_secret(),
                        e0.accumulator.acc(),
                        e1.accumulator.acc(),
                        fid_elem_of(keyword@, fid@),
                    ),
                )
            }),
            old(self).entry_of(keyword@) is None ==> ({
                let e1 = final(self).entry_of(keyword@)->Some_0;
                &&& e1.accumulator.elements() == seq![fid_elem_of(keyword@, fid@)]
                &&& e1.accumulator.acc() == acc_step_of(
                    default_setup_secret(),
                    acc_empty_value(),
                    fid_elem_of(keyword@, fid@),
                )
                &&& pv(e1.fids@) == seq![fid@]
            }),
    {
        let element = fid_to_element(keyword, fid);
        let mut entry = self.take_entry(keyword);
        let old_acc_value = scalar_clone(entry.accumulator.acc_value());
        if crate::mpt_utils::tokens_contain(&entry.fids, fid) {
            let root_hash = scalar_clone(entry.accumulator.acc_value());
            let proof = Self::serialize_update_proof(
                &old_acc_value,
                &root_hash,
                element,
                true,
            );
            self.put_entry(keyword, entry);
            proof {
                assert(proof@.subrange(96, 192) =~= root_hash@);
                assert(proof@.take(96) =~= old_acc_value@);
                assert(proof@.subrange(192, 200) =~= i64_le_of(element));
            }
            return (proof, root_hash);
        }
        let is_valid = match entry.accumulator.add(&element) {
            Ok(p) => p.verify(entry.accumulator.setup()),
            Err(_) => {
                let proof = Self::serialize_update_proof(
                    &old_acc_value,
                    &old_acc_value,
                    element,
                    false,
                );
                let root_hash = scalar_clone(entry.accumulator.acc_value());
                self.put_entry(keyword, entry);
                proof {
                    assert(proof@.subrange(96, 192) =~= root_hash@);
                    assert(proof@.subrange(192, 200) =~= i64_le_of(element));
                    assert(proof@.take(96) =~= old_acc_value@);
                }
                return (proof, root_hash);
            },
        };
        let ghost fids0 = entry.fids@;
        entry.fids.push(scalar_clone(fid));
        let root_hash = scalar_clone(entry.accumulator.acc_value());
        let proof = Self::serialize_update_proof(&old_acc_value, &root_hash, element, is_valid);
        self.put_entry(keyword, entry);
        proof {
            assert(proof@.subrange(96, 192) =~= root_hash@);
            assert(proof@.subrange(192, 200) =~= i64_le_of(element));
            assert(proof@.take(96) =~= old_acc_value@);
            assert(pv(entry.fids@) =~= pv(fids0).push(fid@));
            if old(self).entry_of(keyword@) is None {
                assert(entry.accumulator.elements() =~= seq![fid_elem_of(keyword@, fid@)]);
                assert(pv(entry.fids@) =~= seq![fid@]);
            }
        }
        (proof, root_hash)
    }

    /// The fids of a keyword, with a membership proof of the first one; an
    /// empty or missing keyword answers a one-byte marker.
    fn query(&self, keyword: &Vec<u8>) -> (r: (Vec<Vec<u8>>, Vec<u8>))
        ensures
            self.entry_of(keyword@) is None ==> r.0@.len() == 0 && r.1@ == seq![1u8],
            self.entry_of(keyword@) is Some ==> pv(r.0@) == pv(
                self.entry_of(keyword@)->Some_0.fids@,
            ),
            r.1@.len() != 1 ==> (acc_proof_ok(r.1@) <==> r.1@.last() == 1u8),
            ({
                let e = self.entry_of(keyword@)->Some_0;
                &&& self.entry_of(keyword@) is Some
                &&& pv(e.fids@).len() > 0
                &&& e.accumulator.elements().contains(
                    fid_elem_of(keyword@, pv(e.fids@)[0]),
                )
                &&& digest_gap_ok(
                    e.accumulator.setup_secret(),
                    fid_elem_of(keyword@, pv(e.fids@)[0]),
                )
            }) ==> acc_proof_ok(r.1@),
    {
        let idx = match self.find_entry(keyword) {
            Some(i) => i,
            None => {
                let mut marker: Vec<u8> = Vec::new();
                marker.push(1);
                return (Vec::new(), marker);
            },
        };
        let entry = &self.accumulators[idx].1;
        if entry.fids.len() == 0 {
            let mut marker: Vec<u8> = Vec::new();
            marker.push(1);
            return (clone_fid_list(&entry.fids), marker);
        }
        let element = fid_to_element(keyword, &entry.fids[0]);
        proof {
            assert(pv(entry.fids@)[0] == entry.fids@[0]@);
        }
        match entry.accumulator.prove_membership(&element) {
            Ok(membership_proof) => {
                let is_valid = entry.accumulator.verify_membership(&membership_proof);
                let proof = Self::serialize_membership_proof(
                    &membership_proof.witness,
                    element,
                    entry.accumulator.acc_value(),
                    is_valid,
                );
                proof {
                    assert(proof@.take(96) =~= membership_proof.witness@);
                }
                (clone_fid_list(&entry.fids), proof)
            },
            Err(_) => {
                let mut marker: Vec<u8> = Vec::new();
                marker.push(0);
                (clone_fid_list(&entry.fids), marker)
            },
        }
    }

    /// Removes a fid from a keyword; the last fid discards the keyword's
    /// accumulator and answers an empty root.  A missing keyword or fid
    /// answers a zero marker.
    fn delete(&mut self, keyword: &Vec<u8>, fid: &Vec<u8>) -> (r: (Vec<u8>, RootHash))
        ensures
            old(self).entry_of(keyword@) is None ==> r.0@ == seq![0u8] && r.1@.len() == 0,
            final(self).entry_of(keyword@) is None ==> r.1@.len() == 0,
            final(self).entry_of(keyword@) is Some ==> r.1@ == final(self).entry_of(
                keyword@,
            )->Some_0.accumulator.acc(),
            old(self).entry_of(keyword@) is Some
                && old(self).entry_of(keyword@)->Some_0.accumulator.elements().contains(
                fid_elem_of(keyword@, fid@),
            ) && digest_gap_ok(
                old(self).entry_of(keyword@)->Some_0.accumulator.setup_secret(),
                fid_elem_of(keyword@, fid@),
            ) ==> ({
                let e0 = old(self).entry_of(keyword@)->Some_0;
                let newacc = acc_unstep_of(
                    e0.accumulator.setup_secret(),
                    e0.accumulator.acc(),
                    fid_elem_of(keyword@, fid@),
                );
                &&& r.0@ == update_proof_of(
                    e0.accumulator.acc(),
                    newacc,
                    fid_elem_of(keyword@, fid@),
                    update_pair_check_of(
                        e0.accumulator.setup_secret(),
                        newacc,
                        e0.accumulator.acc(),
                        fid_elem_of(keyword@, fid@),
                    ),
                )
                &&& (final(self).entry_of(keyword@) is Some ==> ({
                    let e1 = final(self).entry_of(keyword@)->Some_0;
                    &&& e1.accumulator.elements() == remove_first(
                        e0.accumulator.elements(),
                        fid_elem_of(keyword@, fid@),
                    )
                    &&& e1.accumulator.acc() == newacc
                    &&& pv(e1.fids@) == crate::mpt_utils::remove_tok(pv(e0.fids@), fid@)
                }))
            }),
    {
        let element = fid_to_element(keyword, fid);
        let had = match self.find_entry(keyword) {
            Some(_) => true,
            None => false,
        };
        if !had {
            let mut marker: Vec<u8> = Vec::new();
            marker.push(0);
            return (marker, Vec::new());
        }
        let mut entry = self.take_entry(keyword);
        let old_acc_value = scalar_clone(entry.accumulator.acc_value());
        let is_valid = match entry.accumulator.delete(&element) {
            Ok(p) => p.verify(entry.accumulator.setup()),
            Err(_) => {
                let mut marker: Vec<u8> = Vec::new();
                marker.push(0);
                let root_hash = scalar_clone(entry.accumulator.acc_value());
                self.put_entry(keyword, entry);
                return (marker, root_hash);
            },
        };
        entry.fids = crate::mpt_utils::tokens_remove(&entry.fids, fid);
        let new_acc_value = scalar_clone(entry.accumulator.acc_value());
        let proof = Self::serialize_update_proof(&old_acc_value, &new_acc_value, element, is_valid);
        if entry.fids.len() == 0 {
            // the keyword's instance is discarded; the entry stays out
            proof {
                lemma_find_acc_none(self.accumulators@, keyword@);
            }
            return (proof, Vec::new());
        }
        let root_hash = scalar_clone(entry.accumulator.acc_value());
        self.put_entry(keyword, entry);
        (proof, root_hash)
    }
}

/// Copies a fid list.
pub(crate) fn clone_fid_list(fids: &Vec<Vec<u8>>) -> (r: Vec<Vec<u8>>)
    ensures
        pv(r@) == pv(fids@),
{
    let mut out: Vec<Vec<u8>> = Vec::new();
    let mut i: usize = 0;
    while i < fids.len()
        invariant
            0 <= i <= fids@.len(),
            out@.len() == i,
            forall|k: int| 0 <= k < i ==> #[trigger] out@[k]@ == fids@[k]@,
        decreases fids@.len() - i,
    {
        out.push(scalar_clone(&fids[i]));
        i += 1;
    }
    proof {
        assert(pv(out@) =~= pv(fids@));
    }
    out
}

/// One keyword's trie with its database and fid list.
pub struct MptEntry {
    pub trie: MPT,
    pub db: MemoryDatabase,
    pub fids: Vec<Vec<u8>>,
}

/// The first trie entry bound to a keyword.
pub open spec fn find_mpt_entry(entries: Seq<(Vec<u8>, MptEntry)>, kw: Seq<u8>) -> Option<MptEntry>
    decreases entries.len(),
{
    if entries.len() == 0 {
        None
    } else if entries[0].0@ == kw {
        Some(entries[0].1)
    } else {
        find_mpt_entry(entries.drop_first(), kw)
    }
}

/// A keyword bound by no entry finds nothing.
proof fn lemma_find_mpt_none(entries: Seq<(Vec<u8>, MptEntry)>, q: Seq<u8>)
    requires
        forall|k: int| 0 <= k < entries.len() ==> (#[trigger] entries[k]).0@ != q,
    ensures
        find_mpt_entry(entries, q) is None,
    decreases entries.len(),
{
    if entries.len() > 0 {
        assert(forall|k: int|
            0 <= k < entries.drop_first().len() ==> (#[trigger] entries.drop_first()[k])
                == entries[k + 1]);
        lemma_find_mpt_none(entries.drop_first(), q);
    }
}

/// Appending an entry binds its keyword when nothing earlier does, and
/// leaves every earlier binding alone.
proof fn lemma_find_mpt_push(entries: Seq<(Vec<u8>, MptEntry)>, e: (Vec<u8>, MptEntry), q: Seq<u8>)
    ensures
        find_mpt_entry(entries.push(e), q) == (if find_mpt_entry(entries, q) is Some {
            find_mpt_entry(entries, q)
        } else if e.0@ == q {
            Some(e.1)
        } else {
            None::<MptEntry>
        }),
    decreases entries.len(),
{
    if entries.len() == 0 {
        assert(entries.push(e)[0] == e);
        assert(entries.push(e).drop_first() =~= Seq::<(Vec<u8>, MptEntry)>::empty());
        assert(find_mpt_entry(entries, q) is None);
        if e.0@ == q {
            assert(find_mpt_entry(entries.push(e), q) == Some(e.1));
        } else {
            assert(find_mpt_entry(Seq::<(Vec<u8>, MptEntry)>::empty(), q) is None);
            assert(find_mpt_entry(entries.push(e), q) is None);
        }
    } else {
        assert(entries.push(e)[0] == entries[0]);
        assert(entries.push(e).drop_first() =~= entries.drop_first().push(e));
        lemma_find_mpt_push(entries.drop_first(), e, q);
        if entries[0].0@ == q {
            assert(find_mpt_entry(entries.push(e), q) == Some(entries[0].1));
            assert(find_mpt_entry(entries, q) == Some(entries[0].1));
        } else {
            assert(find_mpt_entry(entries.push(e), q) == find_mpt_entry(
                entries.drop_first().push(e),
                q,
            ));
            assert(find_mpt_entry(entries, q) == find_mpt_entry(entries.drop_first(), q));
        }
    }
}

/// The trie backend: one trie per keyword, whose value is the comma-joined
/// fid list.
pub struct MptAds {
    tries: Vec<(Vec<u8>, MptEntry)>,
}

/// Joins fids with commas.
pub fn encode_fids(fids: &Vec<Vec<u8>>) -> (r: Vec<u8>)
    ensures
        r@ == crate::mpt_utils::join_csv(pv(fids@)),
{
    crate::mpt_utils::join_tokens(fids)
}

/// Splits a comma-joined value into fids; an empty value has none.
pub fn decode_fids(data: &Vec<u8>) -> (r: Vec<Vec<u8>>)
    ensures
        data@.len() == 0 ==> pv(r@) == Seq::<Seq<u8>>::empty(),
        data@.len() > 0 ==> pv(r@) == crate::mpt_utils::split_csv(data@),
{
    if data.len() == 0 {
        let out: Vec<Vec<u8>> = Vec::new();
        proof {
            assert(pv(out@) =~= Seq::<Seq<u8>>::empty());
        }
        return out;
    }
    crate::mpt_utils::split_tokens(data)
}

impl MptAds {
    #[verifier::type_invariant]
    spec fn wf(self) -> bool {
        &&& forall|i: int, j: int|
            0 <= i < j < self.tries@.len() ==> (#[trigger] self.tries@[i]).0@ != (
            #[trigger] self.tries@[j]).0@
        &&& forall|i: int| 0 <= i < self.tries@.len() ==> wf_mpt((#[trigger] self.tries@[i]).1.trie)
    }

    /// The entry a keyword is bound to.
    pub closed spec fn entry_of(self, kw: Seq<u8>) -> Option<MptEntry> {
        find_mpt_entry(self.tries@, kw)
    }

    /// An empty backend: no keyword is bound.
    pub fn new() -> (r: Self)
        ensures
            forall|kw: Seq<u8>| #[trigger] r.entry_of(kw) is None,
    {
        let r = MptAds { tries: Vec::new() };
        proof {
            assert forall|kw: Seq<u8>| #[trigger] r.entry_of(kw) is None by {
                assert(r.tries@ =~= Seq::<(Vec<u8>, MptEntry)>::empty());
            }
        }
        r
    }

    /// The index of a keyword's entry.
    fn find_entry(&self, keyword: &Vec<u8>) -> (r: Option<usize>)
        ensures
            r is Some ==> r->Some_0 < self.tries@.len() && self.tries@[r->Some_0 as int].0@
                == keyword@ && self.entry_of(keyword@) == Some(
                self.tries@[r->Some_0 as int].1,
            ),
            r is None ==> (forall|k: int|
                0 <= k < self.tries@.len() ==> (#[trigger] self.tries@[k]).0@ != keyword@)
                && self.entry_of(keyword@) is None,
    {
        let n = self.tries.len();
        let mut i: usize = 0;
        proof {
            assert(self.tries@.skip(0) =~= self.tries@);
        }
        while i < n
            invariant
                n == self.tries@.len(),
                0 <= i <= n,
                forall|k: int| 0 <= k < i ==> (#[trigger] self.tries@[k]).0@ != keyword@,
                find_mpt_entry(self.tries@, keyword@) == find_mpt_entry(
                    self.tries@.skip(i as int),
                    keyword@,
                ),
            decreases n - i,
        {
            proof {
                assert(self.tries@.skip(i as int)[0] == self.tries@[i as int]);
                assert(self.tries@.skip(i as int).drop_first() =~= self.tries@.skip(i + 1));
            }
            if bytes_eq(&self.tries[i].0, keyword) {
                return Some(i);
            }
            i += 1;
        }
        proof {
            assert(self.tries@.skip(n as int) =~= Seq::<(Vec<u8>, MptEntry)>::empty());
        }
        None
    }

    /// Takes a keyword's entry out, or starts an empty one.
    fn take_entry(&mut self, keyword: &Vec<u8>) -> (r: MptEntry)
        ensures
            wf_mpt(r.trie),
            forall|k: int|
                0 <= k < final(self).tries@.len() ==> (#[trigger] final(self).tries@[k]).0@
                    != keyword@,
    {
        proof {
            use_type_invariant(&*self);
        }
        let mut tvec: Vec<(Vec<u8>, MptEntry)> = Vec::new();
        core::mem::swap(&mut tvec, &mut self.tries);
        let n = tvec.len();
        let mut i: usize = 0;
        let mut found: Option<usize> = None;
        while i < n && found.is_none()
            invariant
                n == tvec@.len(),
                0 <= i <= n,
                found is None ==> forall|k: int| 0 <= k < i ==> (#[trigger] tvec@[k]).0@ != keyword@,
                found is Some ==> found->Some_0 < n && tvec@[found->Some_0 as int].0@ == keyword@,
            decreases n - i, (if found is None { 1int } else { 0int }),
        {
            if bytes_eq(&tvec[i].0, keyword) {
                found = Some(i);
            } else {
                i += 1;
            }
        }
        let entry = match found {
            Some(idx) => {
                let pair = tvec.remove(idx);
                proof {
                    assert forall|p: int, q: int|
                        0 <= p < q < tvec@.len() implies (#[trigger] tvec@[p]).0@ != (
                    #[trigger] tvec@[q]).0@ by {
                        let bp: int = if p < idx {
                            p
                        } else {
                            p + 1
                        };
                        let bq: int = if q < idx {
                            q
                        } else {
                            q + 1
                        };
                        assert(tvec@[p] == old(self).tries@[bp]);
                        assert(tvec@[q] == old(self).tries@[bq]);
                    }
                    assert forall|k: int|
                        0 <= k < tvec@.len() implies (#[trigger] tvec@[k]).0@ != keyword@ by {
                        let bk: int = if k < idx {
                            k
                        } else {
                            k + 1
                        };
                        assert(tvec@[k] == old(self).tries@[bk]);
                        if bk != idx {
                            assert(old(self).tries@[bk].0@ != old(self).tries@[idx as int].0@);
                        }
                    }
                    assert forall|k: int|
                        0 <= k < tvec@.len() implies wf_mpt((#[trigger] tvec@[k]).1.trie) by {
                        let bk: int = if k < idx {
                            k
                        } else {
                            k + 1
                        };
                        assert(tvec@[k] == old(self).tries@[bk]);
                    }
                    assert(wf_mpt(old(self).tries@[idx as int].1.trie));
                }
                pair.1
            },
            None => MptEntry { trie: MPT::new(None), db: MemoryDatabase::new(), fids: Vec::new() },
        };
        core::mem::swap(&mut tvec, &mut self.tries);
        entry
    }

    /// Puts a keyword's entry back; the keyword must not be present.
    fn put_entry(&mut self, keyword: &Vec<u8>, entry: MptEntry)
        requires
            forall|k: int|
                0 <= k < old(self).tries@.len() ==> (#[trigger] old(self).tries@[k]).0@ != keyword@,
            wf_mpt(entry.trie),
        ensures
            final(self).entry_of(keyword@) == Some(entry),
    {
        proof {
            use_type_invariant(&*self);
        }
        let mut tvec: Vec<(Vec<u8>, MptEntry)> = Vec::new();
        core::mem::swap(&mut tvec, &mut self.tries);
        let ghost before = tvec@;
        tvec.push((scalar_clone(keyword), entry));
        proof {
            assert forall|p: int, q: int|
                0 <= p < q < tvec@.len() implies (#[trigger] tvec@[p]).0@ != (
            #[trigger] tvec@[q]).0@ by {
                if q == tvec@.len() - 1 {
                    assert(tvec@[p] == old(self).tries@[p]);
                } else {
                    assert(tvec@[p] == old(self).tries@[p]);
                    assert(tvec@[q] == old(self).tries@[q]);
                }
            }
            assert forall|k: int|
                0 <= k < tvec@.len() implies wf_mpt((#[trigger] tvec@[k]).1.trie) by {
                if k < tvec@.len() - 1 {
                    assert(tvec@[k] == old(self).tries@[k]);
                }
            }
        }
        core::mem::swap(&mut tvec, &mut self.tries);
        proof {
            lemma_find_mpt_none(before, keyword@);
            lemma_find_mpt_push(before, self.tries@.last(), keyword@);
            assert(self.tries@ =~= before.push(self.tries@.last()));
        }
    }
}

/// Removing a token removes every occurrence of it.
proof fn lemma_remove_tok_absent(ts: Seq<Seq<u8>>, t: Seq<u8>)
    ensures
        !crate::mpt_utils::remove_tok(ts, t).contains(t),
    decreases ts.len(),
{
    if ts.len() > 0 {
        lemma_remove_tok_absent(ts.drop_last(), t);
        if ts.last() != t {
            let r = crate::mpt_utils::remove_tok(ts.drop_last(), t).push(ts.last());
            assert forall|k: int| 0 <= k < r.len() implies r[k] != t by {
                if k < r.len() - 1 {
                    assert(r[k] == crate::mpt_utils::remove_tok(ts.drop_last(), t)[k]);
                    assert(!crate::mpt_utils::remove_tok(ts.drop_last(), t).contains(t));
                }
            }
        }
    }
}

impl AdsOperations for MptAds {
    /// Adds a fid under a keyword: records it in the fid list and overwrites
    /// the trie's value for the keyword with the joined list.  The proof and
    /// root are both the trie's root hash.  A keyword too long for the trie
    /// is refused with empty answers.
    fn add(&mut self, keyword: &Vec<u8>, fid: &Vec<u8>) -> (r: (Vec<u8>, RootHash))
        ensures
            keyword@.len() > MAX_KEY_BYTES ==> r.0@.len() == 0 && r.1@.len() == 0,
            keyword@.len() <= MAX_KEY_BYTES ==> final(self).entry_of(keyword@) is Some && pv(
                final(self).entry_of(keyword@)->Some_0.fids@,
            ).contains(fid@) && ((r.0@.len() == 0 && r.1@.len() == 0) || (r.1@
                == final(self).entry_of(keyword@)->Some_0.trie.root_hash@ && r.0@ == r.1@
                && crate::mpt::mpt_lookup(final(self).entry_of(keyword@)->Some_0.trie, keyword@)
                == Some(
                crate::mpt_utils::join_csv(pv(final(self).entry_of(keyword@)->Some_0.fids@)),
            ))),
    {
        if keyword.len() > MAX_KEY_BYTES {
            return (Vec::new(), Vec::new());
        }
        let mut entry = self.take_entry(keyword);
        if !crate::mpt_utils::tokens_contain(&entry.fids, fid) {
            let ghost before = entry.fids@;
            entry.fids.push(scalar_clone(fid));
            proof {
                assert(pv(entry.fids@)[before.len() as int] == fid@);
            }
        }
        assert(pv(entry.fids@).contains(fid@));
        let value = encode_fids(&entry.fids);
        let kv = KVPair::new(scalar_clone(keyword), value);
        let ins = entry.trie.insert(kv, &mut entry.db, true, false);
        if ins.is_err() {
            // the store refused the write: the list is kept, the root withheld
            self.put_entry(keyword, entry);
            return (Vec::new(), Vec::new());
        }
        let root_hash = entry.trie.get_root_hash();
        let proof = scalar_clone(&root_hash);
        self.put_entry(keyword, entry);
        (proof, root_hash)
    }

    /// The fids of a keyword with the trie's root hash as the transported
    /// proof; a missing keyword answers empty.
    fn query(&self, keyword: &Vec<u8>) -> (r: (Vec<Vec<u8>>, Vec<u8>))
        ensures
            self.entry_of(keyword@) is None ==> r.0@.len() == 0 && r.1@.len() == 0,
            self.entry_of(keyword@) is Some ==> pv(r.0@) == pv(
                self.entry_of(keyword@)->Some_0.fids@,
            ) && r.1@ == self.entry_of(keyword@)->Some_0.trie.root_hash@,
    {
        match self.find_entry(keyword) {
            Some(idx) => {
                let entry = &self.tries[idx].1;
                (clone_fid_list(&entry.fids), entry.trie.get_root_hash())
            },
            None => (Vec::new(), Vec::new()),
        }
    }

    /// Removes a fid from a keyword; the last fid deletes the keyword from
    /// its trie and discards the instance when the trie empties.
    fn delete(&mut self, keyword: &Vec<u8>, fid: &Vec<u8>) -> (r: (Vec<u8>, RootHash))
        ensures
            keyword@.len() > MAX_KEY_BYTES ==> r.0@.len() == 0 && r.1@.len() == 0,
            keyword@.len() <= MAX_KEY_BYTES && old(self).entry_of(keyword@) is None ==> r.0@.len()
                == 0 && r.1@.len() == 0 && *final(self) == *old(self),
            keyword@.len() <= MAX_KEY_BYTES && final(self).entry_of(keyword@) is Some ==> !pv(
                final(self).entry_of(keyword@)->Some_0.fids@,
            ).contains(fid@) && ((r.1@.len() == 0) || (r.1@
                == final(self).entry_of(keyword@)->Some_0.trie.root_hash@ && (pv(
                final(self).entry_of(keyword@)->Some_0.fids@,
            ).len() > 0 ==> crate::mpt::mpt_lookup(
                final(self).entry_of(keyword@)->Some_0.trie,
                keyword@,
            ) == Some(
                crate::mpt_utils::join_csv(pv(final(self).entry_of(keyword@)->Some_0.fids@)),
            )) && (pv(final(self).entry_of(keyword@)->Some_0.fids@).len() == 0
                ==> crate::mpt::mpt_lookup(
                final(self).entry_of(keyword@)->Some_0.trie,
                keyword@,
            ) is None))),
    {
        if keyword.len() > MAX_KEY_BYTES {
            return (Vec::new(), Vec::new());
        }
        let had = match self.find_entry(keyword) {
            Some(_) => true,
            None => false,
        };
        if !had {
            return (Vec::new(), Vec::new());
        }
        let mut entry = self.take_entry(keyword);
        let ghost pre = entry.fids@;
        entry.fids = crate::mpt_utils::tokens_remove(&entry.fids, fid);
        proof {
            lemma_remove_tok_absent(pv(pre), fid@);
            assert(!pv(entry.fids@).contains(fid@));
        }
        if entry.fids.len() == 0 {
            let del = entry.trie.delete(keyword, &mut entry.db);
            if del.is_err() {
                // the store refused the removal: the root is withheld
                self.put_entry(keyword, entry);
                return (Vec::new(), Vec::new());
            }
            let root_hash = entry.trie.get_root_hash();
            let zeros = crate::mpt::make_zero_hash();
            if bytes_eq(&root_hash, &zeros) {
                // the trie emptied; the instance is discarded
                proof {
                    lemma_find_mpt_none(self.tries@, keyword@);
                }
                return (Vec::new(), Vec::new());
            }
            self.put_entry(keyword, entry);
            return (Vec::new(), root_hash);
        }
        let value = encode_fids(&entry.fids);
        let kv = KVPair::new(scalar_clone(keyword), value);
        let ins = entry.trie.insert(kv, &mut entry.db, true, false);
        if ins.is_err() {
            // the store refused the rewrite: the root is withheld
            self.put_entry(keyword, entry);
            return (Vec::new(), Vec::new());
        }
        let root_hash = entry.trie.get_root_hash();
        let proof = scalar_clone(&root_hash);
        self.put_entry(keyword, entry);
        (proof, root_hash)
    }
}

impl Default for MptAds {
    fn default() -> (r: Self)
    {
        MptAds::new()
    }
}

/// A posting-list backend: one of the two structures.
pub enum AdsInstance {
    CryptoAccumulator(CryptoAccumulatorAds),
    Mpt(MptAds),
}

/// A storage node: the backend it runs.
pub struct Storager {
    ads: AdsInstance,
}

impl Storager {
    /// The backend the node runs.
    pub closed spec fn backend(self) -> AdsInstance {
        self.ads
    }

    /// A node with the default backend, the accumulator.
    pub fn new() -> (r: Self)
        ensures
            r.backend() is CryptoAccumulator,
    {
        Self::with_crypto_accumulator()
    }

    /// A node backed by the accumulator.
    pub fn with_crypto_accumulator() -> (r: Self)
        ensures
            r.backend() is CryptoAccumulator,
    {
        Storager { ads: AdsInstance::CryptoAccumulator(CryptoAccumulatorAds::new()) }
    }

    /// A node backed by the trie.
    pub fn with_mpt() -> (r: Self)
        ensures
            r.backend() is Mpt,
    {
        Storager { ads: AdsInstance::Mpt(MptAds::new()) }
    }

    /// A node for a configuration word: `mpt` for the trie, `accumulator` or
    /// `crypto` for the accumulator, which is also the fallback.
    pub fn from_config(ads_type: &Vec<u8>) -> (r: Self)
    {
        let lowered = ascii_lower(ads_type);
        let mut mpt_word: Vec<u8> = Vec::new();
        mpt_word.push(109);
        mpt_word.push(112);
        mpt_word.push(116);
        if bytes_eq(&lowered, &mpt_word) {
            return Self::with_mpt();
        }
        Self::with_crypto_accumulator()
    }

    /// Adds a (keyword, fid) pair.  On the accumulator the proof is the
    /// serialized update proof and the root the accumulator value; on the
    /// trie both are the root hash and the fid joins the keyword's list.
    pub fn add(&mut self, keyword: &Vec<u8>, fid: &Vec<u8>) -> (r: (Vec<u8>, RootHash))
        ensures
            final(self).backend() is CryptoAccumulator == (old(self).backend() is CryptoAccumulator),
            old(self).backend() is CryptoAccumulator ==> final(self).backend()->CryptoAccumulator_0.entry_of(keyword@) is Some && r.1@ == final(self).backend()->CryptoAccumulator_0.entry_of(keyword@)->Some_0.accumulator.acc()
                && r.0@.len() == 201 && r.0@.subrange(96, 192) == r.1@ && r.0@.subrange(192, 200)
                == i64_le_of(fid_elem_of(keyword@, fid@)) && (acc_proof_ok(r.0@) <==> r.0@.last()
                == 1u8),
            old(self).backend() is Mpt && keyword@.len() <= MAX_KEY_BYTES ==> final(self).backend()->Mpt_0.entry_of(keyword@) is Some && pv(
                final(self).backend()->Mpt_0.entry_of(keyword@)->Some_0.fids@,
            ).contains(fid@) && ((r.0@.len() == 0 && r.1@.len() == 0) || (r.1@
                == final(self).backend()->Mpt_0.entry_of(keyword@)->Some_0.trie.root_hash@ && r.0@
                == r.1@ && crate::mpt::mpt_lookup(
                final(self).backend()->Mpt_0.entry_of(keyword@)->Some_0.trie,
                keyword@,
            ) == Some(
                crate::mpt_utils::join_csv(
                    pv(final(self).backend()->Mpt_0.entry_of(keyword@)->Some_0.fids@),
                ),
            ))),
    {
        match &mut self.ads {
            AdsInstance::CryptoAccumulator(a) => a.add(keyword, fid),
            AdsInstance::Mpt(m) => m.add(keyword, fid),
        }
    }

    /// The fids of a keyword, with a proof: the first fid's membership proof
    /// on the accumulator, the trie's root hash on the trie.
    pub fn query(&self, keyword: &Vec<u8>) -> (r: (Vec<Vec<u8>>, Vec<u8>))
        ensures
            self.backend() is CryptoAccumulator ==> {
                &&& self.backend()->CryptoAccumulator_0.entry_of(keyword@) is None ==> r.0@.len()
                    == 0 && r.1@ == seq![1u8]
                &&& self.backend()->CryptoAccumulator_0.entry_of(keyword@) is Some ==> pv(r.0@)
                    == pv(self.backend()->CryptoAccumulator_0.entry_of(keyword@)->Some_0.fids@)
                &&& r.1@.len() != 1 ==> (acc_proof_ok(r.1@) <==> r.1@.last() == 1u8)
            },
            self.backend() is Mpt ==> {
                &&& self.backend()->Mpt_0.entry_of(keyword@) is None ==> r.0@.len() == 0
                    && r.1@.len() == 0
                &&& self.backend()->Mpt_0.entry_of(keyword@) is Some ==> pv(r.0@) == pv(
                    self.backend()->Mpt_0.entry_of(keyword@)->Some_0.fids@,
                ) && r.1@ == self.backend()->Mpt_0.entry_of(keyword@)->Some_0.trie.root_hash@
            },
    {
        match &self.ads {
            AdsInstance::CryptoAccumulator(a) => a.query(keyword),
            AdsInstance::Mpt(m) => m.query(keyword),
        }
    }

    /// Removes a (keyword, fid) pair; after the call the keyword's surviving
    /// list no longer carries the fid.
    pub fn delete(&mut self, keyword: &Vec<u8>, fid: &Vec<u8>) -> (r: (Vec<u8>, RootHash))
        ensures
            final(self).backend() is CryptoAccumulator == (old(self).backend() is CryptoAccumulator),
            old(self).backend() is CryptoAccumulator ==> {
                &&& old(self).backend()->CryptoAccumulator_0.entry_of(keyword@) is None ==> r.0@
                    == seq![0u8] && r.1@.len() == 0
                &&& final(self).backend()->CryptoAccumulator_0.entry_of(keyword@) is None ==> r.1@.len()
                    == 0
                &&& final(self).backend()->CryptoAccumulator_0.entry_of(keyword@) is Some ==> r.1@
                    == final(self).backend()->CryptoAccumulator_0.entry_of(
                    keyword@,
                )->Some_0.accumulator.acc()
            },
            old(self).backend() is Mpt && keyword@.len() <= MAX_KEY_BYTES && final(self).backend()->Mpt_0.entry_of(keyword@) is Some ==> !pv(
                final(self).backend()->Mpt_0.entry_of(keyword@)->Some_0.fids@,
            ).contains(fid@) && ((r.1@.len() == 0) || (r.1@
                == final(self).backend()->Mpt_0.entry_of(keyword@)->Some_0.trie.root_hash@)),
    {
        match &mut self.ads {
            AdsInstance::CryptoAccumulator(a) => a.delete(keyword, fid),
            AdsInstance::Mpt(m) => m.delete(keyword, fid),
        }
    }
}

impl Default for Storager {
    fn default() -> (r: Self)
    {
        Storager::new()
    }
}

/// Lowercases the ASCII letters of a word.
fn ascii_lower(w: &Vec<u8>) -> (r: Vec<u8>)
{
    let mut out: Vec<u8> = Vec::new();
    let mut i: usize = 0;
    while i < w.len()
        invariant
            0 <= i <= w@.len(),
        decreases w@.len() - i,
    {
        let b = w[i];
        if 65 <= b && b <= 90 {
            out.push(b + 32);
        } else {
            out.push(b);
        }
        i += 1;
    }
    out
}

/// A template for a further backend: the skeleton a new structure starts
/// from.
pub struct NewAds {
}

impl NewAds {
    /// An empty instance.
    pub fn new() -> (r: Self)
    {
        NewAds {  }
    }
}

} // verus!
