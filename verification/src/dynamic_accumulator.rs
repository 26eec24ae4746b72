//! A dynamic cryptographic accumulator over BLS12-381.
//!
//! The accumulator commits to a set of application elements: its value is
//! `g1^P(s)` for `P(X) = prod(X - h(e))` over the digests of the elements,
//! where `s` is the trusted-setup scalar.  Elements can be added and deleted;
//! membership, non-membership, intersection and union come with constant-size
//! proofs that a verifier checks by pairings.
//!
//! Group points and scalars are carried as canonical byte encodings; the
//! contracts pin every value as a composition of the named curve operations
//! of `field`, so that adding then deleting an element provably restores the
//! accumulator bytes, and every error case is characterized exactly.
use vstd::prelude::*;

use crate::field::{
    fr_digest, fr_digest_of, fr_from_u64, fr_inv, fr_inv_of, fr_of_u64, fr_ok, fr_sub, fr_sub_of,
    g1_canon, g1_gen_mul, g1_gen_pow_of, g1_mul, g1_mul_of, g1_ok, g1_sum_check, g1_sum_eq_of,
    g2_gen_mul,
    g2_gen_pow_of, inter_pair_check_of, nonmem_pair_check, nonmem_pair_check_of, pair_product_check,
    pair_vs_gen, update_pair_check, update_pair_check_of,
};
use crate::poly::{
    bytes_eq, linear_of, poly_divmod, poly_eval, poly_eval_of, poly_from_roots, poly_scale,
    poly_scale_of, poly_trim, poly_wf, poly_xgcd, pv, roots_poly_of, scalar_clone, trim_of,
    divmod_of, xgcd_of, frz,
};

verus! {

/// The seed from which the deterministic test-build setup scalar is derived.
/// A deployment would replace this derivation with a ceremony.
pub const SETUP_SEED: i64 = 0x5eed;

/// The setup scalar of the deterministic test build.
pub open spec fn default_setup_secret() -> Seq<u8> {
    fr_digest_of(SETUP_SEED)
}

/// The accumulator value after one element is added: the point raised to
/// `s - h(e)`.
pub open spec fn acc_step_of(s: Seq<u8>, acc: Seq<u8>, e: i64) -> Seq<u8> {
    g1_mul_of(acc, fr_sub_of(s, fr_digest_of(e)))
}

/// The accumulator value after one element is deleted: the point raised to
/// the inverse of `s - h(e)`.
pub open spec fn acc_unstep_of(s: Seq<u8>, acc: Seq<u8>, e: i64) -> Seq<u8> {
    g1_mul_of(acc, fr_inv_of(fr_sub_of(s, fr_digest_of(e))))
}

/// Whether `s - h(e)` is invertible; when it is not, deleting `e` would be a
/// division by zero.
pub open spec fn digest_gap_ok(s: Seq<u8>, e: i64) -> bool {
    fr_sub_of(s, fr_digest_of(e)) != fr_of_u64(0)
}

/// The accumulator value of the empty set: the G1 generator.
pub open spec fn acc_empty_value() -> Seq<u8> {
    g1_gen_pow_of(fr_of_u64(1))
}

/// The accumulator value reached from `a0` by adding the elements of `es` in
/// order.
pub open spec fn acc_fold_from(s: Seq<u8>, a0: Seq<u8>, es: Seq<i64>) -> Seq<u8>
    decreases es.len(),
{
    if es.len() == 0 {
        a0
    } else {
        acc_step_of(s, acc_fold_from(s, a0, es.drop_last()), es.last())
    }
}

/// The digests of a sequence of application elements.
pub open spec fn digests_of(es: Seq<i64>) -> Seq<Seq<u8>> {
    Seq::new(es.len(), |i: int| fr_digest_of(es[i]))
}

/// The sequence with the first occurrence of `x` removed.
pub open spec fn remove_first(s: Seq<i64>, x: i64) -> Seq<i64>
    decreases s.len(),
{
    if s.len() == 0 {
        s
    } else if s[0] == x {
        s.drop_first()
    } else {
        seq![s[0]] + remove_first(s.drop_first(), x)
    }
}

/// Whether adding the elements of `xs`, in order, to a set holding `held`
/// meets no duplicate.
pub open spec fn batch_ok(held: Seq<i64>, xs: Seq<i64>) -> bool
    decreases xs.len(),
{
    if xs.len() == 0 {
        true
    } else {
        !held.contains(xs[0]) && batch_ok(held.push(xs[0]), xs.drop_first())
    }
}

/// The trusted setup: the secret scalar `s`, held only in memory and never
/// serialized.  The test build derives it deterministically from
/// `SETUP_SEED`.
pub struct TrustedSetup {
    secret: Vec<u8>,
}

impl TrustedSetup {
    #[verifier::type_invariant]
    spec fn wf(self) -> bool {
        fr_ok(self.secret@) && self.secret@.len() == 32
    }

    /// The encoded setup scalar.
    pub closed spec fn secret(self) -> Seq<u8> {
        self.secret@
    }

    /// The deterministic test-build setup.
    pub fn deterministic() -> (r: Self)
        ensures
            r.secret() == default_setup_secret(),
    {
        TrustedSetup { secret: fr_digest(SETUP_SEED) }
    }

    fn secret_bytes(&self) -> (r: &Vec<u8>)
        ensures
            r@ == self.secret(),
            fr_ok(r@),
            r@.len() == 32,
    {
        proof {
            use_type_invariant(self);
        }
        &self.secret
    }
}

/// The errors of the accumulator's operations.
#[derive(Debug, Clone, Copy, PartialEq, Eq, Structural)]
pub enum AccError {
    /// Adding an element that the set already holds.
    ElementAlreadyPresent,
    /// Deleting or proving membership of an element the set does not hold.
    ElementAbsent,
    /// Proving non-membership of an element the set holds.
    ElementPresent,
    /// The scalar `s - h(e)` has no inverse.
    ZeroDivisor,
    /// The extended GCD did not produce a nonzero constant.
    NonCoprime,
    /// The quotient polynomials of an intersection were not coprime, or the
    /// claimed intersection polynomial did not divide a set polynomial.
    QuotientNotCoprime,
}

/// A proof that an add was performed correctly: the verifier checks
/// `e(new_acc, g2) == e(old_acc, g2^(s - h(e)))`.
pub struct AddProof {
    pub old_acc_value: Vec<u8>,
    pub new_acc_value: Vec<u8>,
    pub element: i64,
}

impl AddProof {
    /// Runs the pairing check for this add against the given setup: an
    /// honestly stepped accumulator always passes.
    pub fn verify(&self, setup: &TrustedSetup) -> (r: bool)
        ensures
            r == update_pair_check_of(
                setup.secret(),
                self.old_acc_value@,
                self.new_acc_value@,
                self.element,
            ),
            g1_ok(self.old_acc_value@) && self.new_acc_value@ == acc_step_of(
                setup.secret(),
                self.old_acc_value@,
                self.element,
            ) ==> r,
    {
        update_pair_check(setup.secret_bytes(), &self.old_acc_value, &self.new_acc_value, self.element)
    }
}

/// A proof that a delete was performed correctly: the verifier checks
/// `e(new_acc, g2^(s - h(e))) == e(old_acc, g2)`.
pub struct DeleteProof {
    pub old_acc_value: Vec<u8>,
    pub new_acc_value: Vec<u8>,
    pub element: i64,
}

impl DeleteProof {
    /// Runs the pairing check for this delete against the given setup: an
    /// honestly unstepped accumulator always passes.
    pub fn verify(&self, setup: &TrustedSetup) -> (r: bool)
        ensures
            r == update_pair_check_of(
                setup.secret(),
                self.new_acc_value@,
                self.old_acc_value@,
                self.element,
            ),
            g1_ok(self.old_acc_value@) && digest_gap_ok(setup.secret(), self.element)
                && self.new_acc_value@ == acc_unstep_of(
                setup.secret(),
                self.old_acc_value@,
                self.element,
            ) ==> r,
    {
        update_pair_check(setup.secret_bytes(), &self.new_acc_value, &self.old_acc_value, self.element)
    }
}

/// A membership proof: the witness is the accumulator of the set without the
/// element, and the verifier checks `e(witness, g2^(s - h(e))) == e(acc, g2)`.
pub struct MembershipProof {
    pub witness: Vec<u8>,
    pub element: i64,
}

impl MembershipProof {
    /// Runs the pairing check for this membership proof against the given
    /// accumulator value: an honestly produced witness always passes.
    pub fn verify(&self, accumulator: &Vec<u8>, setup: &TrustedSetup) -> (r: bool)
        ensures
            r == update_pair_check_of(setup.secret(), self.witness@, accumulator@, self.element),
            g1_ok(accumulator@) && digest_gap_ok(setup.secret(), self.element) && self.witness@
                == acc_unstep_of(setup.secret(), accumulator@, self.element) ==> r,
    {
        update_pair_check(setup.secret_bytes(), &self.witness, accumulator, self.element)
    }
}

/// A non-membership proof: `witness` is `g2^B(s)` and `g1_a` is `g1^A(s)`
/// for Bezout coefficients with `A(X)(X - h(e)) + B(X)P(X) = 1`; the verifier
/// checks `e(acc, witness) * e(g1_a, g2^(s - h(e))) == e(g1, g2)`.
pub struct NonMembershipProof {
    pub element: i64,
    pub witness: Vec<u8>,
    pub g1_a: Vec<u8>,
}

/// A proof that one accumulator holds the intersection of two others:
/// `witness_a`/`witness_b` are `g2^Q1(s)`/`g2^Q2(s)` for the two quotient
/// polynomials, and `witness_coprime_a`/`witness_coprime_b` are `g1^A(s)`/
/// `g1^B(s)` for Bezout coefficients with `A(X)Q1(X) + B(X)Q2(X) = 1`.
pub struct IntersectionProof {
    pub witness_a: Vec<u8>,
    pub witness_b: Vec<u8>,
    pub witness_coprime_a: Vec<u8>,
    pub witness_coprime_b: Vec<u8>,
}

/// A union proof: the intersection proof together with the intersection
/// accumulator's value; the verifier additionally checks
/// `acc1 + acc2 == accU + accI` in G1.
pub struct UnionProof {
    pub intersection_acc_value: Vec<u8>,
    pub intersection_proof: IntersectionProof,
}

/// The result of a query: a proof of membership or of non-membership.
pub enum QueryResult {
    Membership(MembershipProof),
    NonMembership(NonMembershipProof),
}

/// The dynamic accumulator: the current G1 value together with the plaintext
/// element set and the setup it was built under.
pub struct DynamicAccumulator {
    setup: TrustedSetup,
    acc_value: Vec<u8>,
    elements: Vec<i64>,
}

impl DynamicAccumulator {
    #[verifier::type_invariant]
    spec fn wf(self) -> bool {
        &&& g1_canon(self.acc_value@)
        &&& g1_ok(self.acc_value@)
        &&& self.acc_value@.len() == 96
        &&& self.elements@.no_duplicates()
    }

    /// The elements the accumulator holds, in insertion order.
    pub closed spec fn elements(self) -> Seq<i64> {
        self.elements@
    }

    /// The encoded accumulator value.
    pub closed spec fn acc(self) -> Seq<u8> {
        self.acc_value@
    }

    /// The encoded setup scalar the accumulator runs under.
    pub closed spec fn setup_secret(self) -> Seq<u8> {
        self.setup.secret()
    }

    /// Creates an empty accumulator under the deterministic setup; its value
    /// is the G1 generator.
    pub fn new() -> (r: Self)
        ensures
            r.elements() == Seq::<i64>::empty(),
            r.acc() == acc_empty_value(),
            r.setup_secret() == default_setup_secret(),
    {
        let one = fr_from_u64(1);
        let acc_value = g1_gen_mul(&one);
        let r = DynamicAccumulator { setup: TrustedSetup::deterministic(), acc_value, elements: Vec::new() };
        proof {
            assert(r.elements@.no_duplicates());
        }
        r
    }

    /// A reference to the setup, for verifying proofs against this
    /// accumulator.
    pub fn setup(&self) -> (r: &TrustedSetup)
        ensures
            r.secret() == self.setup_secret(),
    {
        &self.setup
    }

    /// The current accumulator value.
    pub fn acc_value(&self) -> (r: &Vec<u8>)
        ensures
            r@ == self.acc(),
            r@.len() == 96,
            g1_ok(r@),
    {
        proof {
            use_type_invariant(self);
        }
        &self.acc_value
    }

    /// The number of elements in the accumulator.
    pub fn len(&self) -> (r: usize)
        ensures
            r == self.elements().len(),
    {
        self.elements.len()
    }

    /// Whether the accumulator is empty.
    pub fn is_empty(&self) -> (r: bool)
        ensures
            r == (self.elements().len() == 0),
    {
        self.elements.len() == 0
    }

    /// The digests of the held elements; the original application values are
    /// not part of the commitment.
    pub fn elements_fr(&self) -> (r: Vec<Vec<u8>>)
        ensures
            pv(r@) == digests_of(self.elements()),
            poly_wf(pv(r@)),
    {
        let mut out: Vec<Vec<u8>> = Vec::new();
        let mut i: usize = 0;
        while i < self.elements.len()
            invariant
                0 <= i <= self.elements@.len(),
                out@.len() == i,
                forall|k: int| 0 <= k < i ==> #[trigger] out@[k]@ == fr_digest_of(self.elements@[k]),
                forall|k: int| 0 <= k < i ==> crate::field::fr_ok(#[trigger] out@[k]@) && out@[k]@.len() == 32,
            decreases self.elements@.len() - i,
        {
            out.push(fr_digest(self.elements[i]));
            i += 1;
        }
        proof {
            assert(pv(out@) =~= digests_of(self.elements()));
            assert(poly_wf(pv(out@)));
        }
        out
    }

    fn contains_element(&self, element: i64) -> (r: bool)
        ensures
            r == self.elements().contains(element),
    {
        contains_i64(&self.elements, element)
    }

    /// Adds an element.  Fails exactly when the element is already held; on
    /// success the value is raised to `s - h(e)`, and raising the new value
    /// to the inverse of that scalar gives the old value back.
    pub fn add(&mut self, element: &i64) -> (r: Result<AddProof, AccError>)
        ensures
            old(self).elements().contains(*element) ==> r == Err::<AddProof, AccError>(
                AccError::ElementAlreadyPresent,
            ) && final(self).elements() == old(self).elements() && final(self).acc() == old(self).acc() && final(self).setup_secret() == old(self).setup_secret(),
            !old(self).elements().contains(*element) ==> {
                &&& r is Ok
                &&& final(self).elements() == old(self).elements().push(*element)
                &&& final(self).acc() == acc_step_of(
                    old(self).setup_secret(),
                    old(self).acc(),
                    *element,
                )
                &&& final(self).setup_secret() == old(self).setup_secret()
                &&& r->Ok_0.old_acc_value@ == old(self).acc()
                &&& r->Ok_0.new_acc_value@ == final(self).acc()
                &&& r->Ok_0.element == *element
                &&& (digest_gap_ok(old(self).setup_secret(), *element) ==> acc_unstep_of(
                    old(self).setup_secret(),
                    final(self).acc(),
                    *element,
                ) == old(self).acc())
            },
    {
        proof {
            use_type_invariant(&*self);
        }
        if self.contains_element(*element) {
            return Err(AccError::ElementAlreadyPresent);
        }
        let d = fr_digest(*element);
        let diff = fr_sub(self.setup.secret_bytes(), &d);
        let old_acc = scalar_clone(&self.acc_value);
        let new_acc = g1_mul(&self.acc_value, &diff);
        let new_acc2 = scalar_clone(&new_acc);
        let mut elements: Vec<i64> = Vec::new();
        core::mem::swap(&mut elements, &mut self.elements);
        proof {
            assert(!elements@.contains(*element));
        }
        elements.push(*element);
        proof {
            assert(elements@.drop_last() =~= old(self).elements());
            assert(elements@.no_duplicates());
        }
        let setup = TrustedSetup { secret: scalar_clone(self.setup.secret_bytes()) };
        *self = DynamicAccumulator { setup, acc_value: new_acc, elements };
        Ok(AddProof { old_acc_value: old_acc, new_acc_value: new_acc2, element: *element })
    }

    /// Adds each element in order; fails on the first duplicate, leaving the
    /// elements added before it in place.
    pub fn add_batch(&mut self, elements: &[i64]) -> (r: Result<(), AccError>)
        ensures
            batch_ok(old(self).elements(), elements@) ==> {
                &&& r is Ok
                &&& final(self).elements() == old(self).elements() + elements@
                &&& final(self).acc() == acc_fold_from(
                    old(self).setup_secret(),
                    old(self).acc(),
                    elements@,
                )
                &&& final(self).setup_secret() == old(self).setup_secret()
            },
            !batch_ok(old(self).elements(), elements@) ==> r is Err && exists|j: int|
                {
                    &&& 0 <= j < elements@.len()
                    &&& batch_ok(old(self).elements(), elements@.take(j))
                    &&& (old(self).elements() + elements@.take(j)).contains(elements@[j])
                    &&& final(self).elements() == old(self).elements() + elements@.take(j)
                    &&& final(self).acc() == acc_fold_from(
                        old(self).setup_secret(),
                        old(self).acc(),
                        elements@.take(j),
                    )
                },
            final(self).setup_secret() == old(self).setup_secret(),
    {
        let n = elements.len();
        proof {
            assert(elements@.skip(0) =~= elements@);
            assert(old(self).elements() + elements@.take(0) =~= old(self).elements());
            assert(batch_ok(old(self).elements(), elements@.take(0)));
        }
        let mut i: usize = 0;
        while i < n
            invariant
                n == elements@.len(),
                0 <= i <= n,
                self.elements() == old(self).elements() + elements@.take(i as int),
                self.acc() == acc_fold_from(
                    old(self).setup_secret(),
                    old(self).acc(),
                    elements@.take(i as int),
                ),
                self.setup_secret() == old(self).setup_secret(),
                batch_ok(old(self).elements(), elements@.take(i as int)),
                batch_ok(old(self).elements(), elements@) <==> batch_ok(
                    self.elements(),
                    elements@.skip(i as int),
                ),
            decreases n - i,
        {
            let e = *slice_index(elements, i);
            let ghost pre = self.elements();
            let ghost preacc = self.acc();
            proof {
                assert(elements@.skip(i as int)[0] == elements@[i as int]);
                assert(elements@.skip(i as int).drop_first() =~= elements@.skip(i + 1));
            }
            match self.add(&e) {
                Ok(_) => {
                    proof {
                        assert(pre.push(e) =~= old(self).elements() + elements@.take(i + 1));
                        assert(elements@.take(i + 1).drop_last() =~= elements@.take(i as int));
                        assert(elements@.take(i + 1).last() == elements@[i as int]);
                        lemma_batch_ok_push(old(self).elements(), elements@.take(i as int), e);
                        assert(elements@.take(i + 1) =~= elements@.take(i as int).push(e));
                    }
                },
                Err(err) => {
                    proof {
                        assert(pre.contains(e));
                        assert(!batch_ok(pre, elements@.skip(i as int)));
                        assert(0 <= i < elements@.len() && batch_ok(
                            old(self).elements(),
                            elements@.take(i as int),
                        ) && (old(self).elements() + elements@.take(i as int)).contains(
                            elements@[i as int],
                        ) && self.elements() == old(self).elements() + elements@.take(i as int)
                            && self.acc() == acc_fold_from(
                            old(self).setup_secret(),
                            old(self).acc(),
                            elements@.take(i as int),
                        ));
                    }
                    return Err(err);
                },
            }
            i += 1;
        }
        proof {
            assert(elements@.take(n as int) =~= elements@);
            assert(elements@.skip(n as int) =~= Seq::<i64>::empty());
        }
        Ok(())
    }

    /// Deletes an element.  Fails with `ElementAbsent` exactly when the
    /// element is not held, and with `ZeroDivisor` exactly when `s - h(e)`
    /// has no inverse; on success the value is raised to that inverse and the
    /// first occurrence of the element leaves the set.
    pub fn delete(&mut self, element: &i64) -> (r: Result<DeleteProof, AccError>)
        ensures
            !old(self).elements().contains(*element) ==> r == Err::<DeleteProof, AccError>(
                AccError::ElementAbsent,
            ) && final(self).elements() == old(self).elements() && final(self).acc() == old(self).acc() && final(self).setup_secret() == old(self).setup_secret(),
            old(self).elements().contains(*element) && !digest_gap_ok(
                old(self).setup_secret(),
                *element,
            ) ==> r == Err::<DeleteProof, AccError>(AccError::ZeroDivisor) && final(self).elements()
                == old(self).elements() && final(self).acc() == old(self).acc() && final(self).setup_secret() == old(self).setup_secret(),
            old(self).elements().contains(*element) && digest_gap_ok(
                old(self).setup_secret(),
                *element,
            ) ==> {
                &&& r is Ok
                &&& final(self).elements() == remove_first(old(self).elements(), *element)
                &&& final(self).acc() == acc_unstep_of(
                    old(self).setup_secret(),
                    old(self).acc(),
                    *element,
                )
                &&& final(self).setup_secret() == old(self).setup_secret()
                &&& r->Ok_0.old_acc_value@ == old(self).acc()
                &&& r->Ok_0.new_acc_value@ == final(self).acc()
                &&& r->Ok_0.element == *element
            },
    {
        proof {
            use_type_invariant(&*self);
        }
        let idx = match index_of_i64(&self.elements, *element) {
            Some(i) => i,
            None => {
                return Err(AccError::ElementAbsent);
            },
        };
        let d = fr_digest(*element);
        let diff = fr_sub(self.setup.secret_bytes(), &d);
        let inv = match fr_inv(&diff) {
            Some(v) => v,
            None => {
                return Err(AccError::ZeroDivisor);
            },
        };
        let old_acc = scalar_clone(&self.acc_value);
        let new_acc = g1_mul(&self.acc_value, &inv);
        let new_acc2 = scalar_clone(&new_acc);
        let mut elements: Vec<i64> = Vec::new();
        core::mem::swap(&mut elements, &mut self.elements);
        let ghost before = elements@;
        let _ = elements.remove(idx);
        proof {
            lemma_remove_first_at(before, *element, idx as int);
            assert(before.remove(idx as int) =~= before.subrange(0, idx as int) + before.subrange(
                idx + 1,
                before.len() as int,
            ));
            lemma_no_duplicates_remove(before, idx as int);
        }
        let setup = TrustedSetup { secret: scalar_clone(self.setup.secret_bytes()) };
        *self = DynamicAccumulator { setup, acc_value: new_acc, elements };
        Ok(DeleteProof { old_acc_value: old_acc, new_acc_value: new_acc2, element: *element })
    }

    /// Deletes `old_element` and then adds `new_element`; fails if the delete
    /// fails, or if `new_element` is already held after the delete (the
    /// delete then remains applied).
    pub fn update(&mut self, old_element: &i64, new_element: &i64) -> (r: Result<
        (DeleteProof, AddProof),
        AccError,
    >)
        ensures
            r is Ok ==> {
                &&& old(self).elements().contains(*old_element)
                &&& digest_gap_ok(old(self).setup_secret(), *old_element)
                &&& !remove_first(old(self).elements(), *old_element).contains(*new_element)
                &&& final(self).elements() == remove_first(
                    old(self).elements(),
                    *old_element,
                ).push(*new_element)
                &&& final(self).acc() == acc_step_of(
                    old(self).setup_secret(),
                    acc_unstep_of(old(self).setup_secret(), old(self).acc(), *old_element),
                    *new_element,
                )
            },
            r is Err ==> (r->Err_0 == AccError::ElementAbsent && !old(self).elements().contains(
                *old_element,
            )) || (r->Err_0 == AccError::ZeroDivisor && !digest_gap_ok(
                old(self).setup_secret(),
                *old_element,
            )) || (r->Err_0 == AccError::ElementAlreadyPresent && remove_first(
                old(self).elements(),
                *old_element,
            ).contains(*new_element)),
            r is Err && (r->Err_0 == AccError::ElementAbsent || r->Err_0 == AccError::ZeroDivisor)
                ==> final(self).elements() == old(self).elements() && final(self).acc() == old(
                self,
            ).acc(),
            r is Err && r->Err_0 == AccError::ElementAlreadyPresent ==> final(self).elements()
                == remove_first(old(self).elements(), *old_element) && final(self).acc()
                == acc_unstep_of(old(self).setup_secret(), old(self).acc(), *old_element),
            final(self).setup_secret() == old(self).setup_secret(),
    {
        let delete_proof = match self.delete(old_element) {
            Ok(p) => p,
            Err(e) => {
                return Err(e);
            },
        };
        let add_proof = match self.add(new_element) {
            Ok(p) => p,
            Err(e) => {
                return Err(e);
            },
        };
        Ok((delete_proof, add_proof))
    }

    /// Produces a membership proof: the witness is the accumulator value
    /// raised to the inverse of `s - h(e)`.  Fails with `ElementAbsent`
    /// exactly when the element is not held, and with `ZeroDivisor` exactly
    /// when that scalar has no inverse.
    pub fn prove_membership(&self, element: &i64) -> (r: Result<MembershipProof, AccError>)
        ensures
            !self.elements().contains(*element) ==> r == Err::<MembershipProof, AccError>(
                AccError::ElementAbsent,
            ),
            self.elements().contains(*element) && !digest_gap_ok(self.setup_secret(), *element)
                ==> r == Err::<MembershipProof, AccError>(AccError::ZeroDivisor),
            self.elements().contains(*element) && digest_gap_ok(self.setup_secret(), *element)
                ==> {
                &&& r is Ok
                &&& r->Ok_0.witness@ == acc_unstep_of(self.setup_secret(), self.acc(), *element)
                &&& r->Ok_0.element == *element
                &&& g1_ok(r->Ok_0.witness@)
                &&& r->Ok_0.witness@.len() == 96
            },
    {
        proof {
            use_type_invariant(self);
        }
        if !self.contains_element(*element) {
            return Err(AccError::ElementAbsent);
        }
        let d = fr_digest(*element);
        let diff = fr_sub(self.setup.secret_bytes(), &d);
        let inv = match fr_inv(&diff) {
            Some(v) => v,
            None => {
                return Err(AccError::ZeroDivisor);
            },
        };
        let witness = g1_mul(&self.acc_value, &inv);
        Ok(MembershipProof { witness, element: *element })
    }

    /// Checks a membership proof against the current accumulator value: a
    /// proof from `prove_membership` on a held element always passes.
    pub fn verify_membership(&self, proof: &MembershipProof) -> (r: bool)
        ensures
            r == update_pair_check_of(self.setup_secret(), proof.witness@, self.acc(), proof.element),
            digest_gap_ok(self.setup_secret(), proof.element) && proof.witness@ == acc_unstep_of(
                self.setup_secret(),
                self.acc(),
                proof.element,
            ) ==> r,
    {
        proof {
            use_type_invariant(self);
        }
        proof.verify(&self.acc_value, &self.setup)
    }
}

/// The accumulator value of an element set, computed by a route
/// independent of the incremental stepping: the digest polynomial is
/// expanded from its roots, evaluated at the deterministic setup scalar,
/// and raised on the generator in a single exponentiation.
pub fn static_accumulator(elements: &Vec<(i64, u32)>) -> (r: Vec<u8>)
    ensures
        r@ == g1_gen_pow_of(
            poly_eval_of(
                crate::poly::roots_poly_of(
                    crate::digest_set::repeat_pairs(
                        Seq::new(
                            elements@.len(),
                            |i: int| (fr_digest_of(elements@[i].0), elements@[i].1),
                        ),
                    ),
                ),
                default_setup_secret(),
            ),
        ),
{
    let set = crate::digest_set::DigestSet::new(elements);
    let poly = set.expand_to_poly();
    let setup = TrustedSetup::deterministic();
    let value = poly_eval(&poly, setup.secret_bytes());
    g1_gen_mul(&value)
}

/// Reports whether the vector holds the value.
pub(crate) fn contains_i64(v: &Vec<i64>, x: i64) -> (r: bool)
    ensures
        r == v@.contains(x),
{
    let mut i: usize = 0;
    while i < v.len()
        invariant
            0 <= i <= v@.len(),
            forall|k: int| 0 <= k < i ==> v@[k] != x,
        decreases v@.len() - i,
    {
        if v[i] == x {
            return true;
        }
        i += 1;
    }
    false
}

/// The index of the first occurrence of the value, if any.
pub(crate) fn index_of_i64(v: &Vec<i64>, x: i64) -> (r: Option<usize>)
    ensures
        r is Some ==> 0 <= r->Some_0 < v@.len() && v@[r->Some_0 as int] == x && forall|k: int|
            0 <= k < r->Some_0 ==> v@[k] != x,
        r is None ==> !v@.contains(x),
{
    let mut i: usize = 0;
    while i < v.len()
        invariant
            0 <= i <= v@.len(),
            forall|k: int| 0 <= k < i ==> v@[k] != x,
        decreases v@.len() - i,
    {
        if v[i] == x {
            return Some(i);
        }
        i += 1;
    }
    None
}

/// Reads one element of a slice.
fn slice_index(s: &[i64], i: usize) -> (r: &i64)
    requires
        i < s@.len(),
    ensures
        *r == s@[i as int],
{
    &s[i]
}

/// Removing the first occurrence of `x`, found at index `i`, keeps exactly
/// the elements around it.
proof fn lemma_remove_first_at(s: Seq<i64>, x: i64, i: int)
    requires
        0 <= i < s.len(),
        s[i] == x,
        forall|k: int| 0 <= k < i ==> s[k] != x,
    ensures
        remove_first(s, x) == s.subrange(0, i) + s.subrange(i + 1, s.len() as int),
    decreases i,
{
    if i == 0 {
        assert(s.drop_first() =~= s.subrange(0, 0) + s.subrange(1, s.len() as int));
    } else {
        lemma_remove_first_at(s.drop_first(), x, i - 1);
        assert(s.drop_first().subrange(0, i - 1) =~= s.subrange(1, i));
        assert(s.drop_first().subrange(i, s.drop_first().len() as int) =~= s.subrange(
            i + 1,
            s.len() as int,
        ));
        assert(seq![s[0]] + (s.subrange(1, i) + s.subrange(i + 1, s.len() as int)) =~= s.subrange(
            0,
            i,
        ) + s.subrange(i + 1, s.len() as int));
    }
}

/// Removing an element of a duplicate-free sequence keeps it duplicate-free.
proof fn lemma_no_duplicates_remove(s: Seq<i64>, i: int)
    requires
        0 <= i < s.len(),
        s.no_duplicates(),
    ensures
        s.remove(i).no_duplicates(),
{
    let t = s.remove(i);
    assert forall|p: int, q: int| 0 <= p < q < t.len() implies t[p] != t[q] by {
        if q < i {
            assert(t[p] == s[p] && t[q] == s[q]);
        } else if p < i {
            assert(t[p] == s[p] && t[q] == s[q + 1]);
        } else {
            assert(t[p] == s[p + 1] && t[q] == s[q + 1]);
        }
    }
}

/// A batch that ran clean stays clean when extended by an element the held
/// set does not reach.
proof fn lemma_batch_ok_push(held: Seq<i64>, xs: Seq<i64>, x: i64)
    requires
        batch_ok(held, xs),
        !(held + xs).contains(x),
    ensures
        batch_ok(held, xs.push(x)),
    decreases xs.len(),
{
    if xs.len() == 0 {
        assert(held + xs =~= held);
        assert(!held.contains(x));
        assert(xs.push(x)[0] == x);
        assert(xs.push(x).drop_first() =~= Seq::<i64>::empty());
        assert(batch_ok(held.push(x), xs.push(x).drop_first()));
    } else {
        assert(xs.push(x)[0] == xs[0]);
        assert(held.push(xs[0]) + xs.drop_first() =~= held + xs);
        lemma_batch_ok_push(held.push(xs[0]), xs.drop_first(), x);
        assert(xs.push(x).drop_first() =~= xs.drop_first().push(x));
        assert(batch_ok(held.push(xs[0]), xs.push(x).drop_first()));
    }
}

/// Adding an element that a set does not hold and then removing it restores
/// the element sequence exactly.
pub proof fn lemma_add_delete_elements(s: Seq<i64>, x: i64)
    requires
        !s.contains(x),
    ensures
        remove_first(s.push(x), x) == s,
    decreases s.len(),
{
    lemma_remove_first_at(s.push(x), x, s.len() as int);
    assert(s.push(x).subrange(0, s.len() as int) =~= s);
    assert(s.push(x).subrange(s.len() + 1 as int, s.len() + 1 as int) =~= Seq::<i64>::empty());
    assert(s + Seq::<i64>::empty() =~= s);
}


/// The elements of `a`, in order, that `b` also holds.
pub open spec fn keep_in(a: Seq<i64>, b: Seq<i64>) -> Seq<i64>
    decreases a.len(),
{
    if a.len() == 0 {
        Seq::empty()
    } else {
        let prev = keep_in(a.drop_last(), b);
        if b.contains(a.last()) {
            prev.push(a.last())
        } else {
            prev
        }
    }
}

/// The elements of `a`, in order, that `b` does not hold.
pub open spec fn keep_out(a: Seq<i64>, b: Seq<i64>) -> Seq<i64>
    decreases a.len(),
{
    if a.len() == 0 {
        Seq::empty()
    } else {
        let prev = keep_out(a.drop_last(), b);
        if !b.contains(a.last()) {
            prev.push(a.last())
        } else {
            prev
        }
    }
}

/// The intersection of the two element sequences, in `a`'s order.
pub open spec fn inter_elems(a: Seq<i64>, b: Seq<i64>) -> Seq<i64> {
    keep_in(a, b)
}

/// The union of the two element sequences: `a` followed by what only `b`
/// holds.
pub open spec fn union_elems(a: Seq<i64>, b: Seq<i64>) -> Seq<i64> {
    a + keep_out(b, a)
}

/// The characteristic polynomial of an element set: the monic polynomial
/// whose roots are the digests, trimmed.
pub open spec fn set_poly_of(es: Seq<i64>) -> Seq<Seq<u8>> {
    trim_of(roots_poly_of(digests_of(es)))
}

/// Whether a polynomial is a nonzero constant.
pub open spec fn gcd_is_unit(g: Seq<Seq<u8>>) -> bool {
    g.len() == 1 && g[0] != frz()
}

/// The extended GCD run by a non-membership proof: of `X - h(e)` and the set
/// polynomial.
pub open spec fn nonmem_xgcd_of(es: Seq<i64>, e: i64) -> (Seq<Seq<u8>>, Seq<Seq<u8>>, Seq<Seq<u8>>) {
    xgcd_of(linear_of(fr_digest_of(e)), set_poly_of(es))
}

/// The `g1^A(s)` component of a non-membership proof: the first Bezout
/// coefficient, normalized by the constant GCD, evaluated at `s`, in G1.
pub open spec fn nonmem_g1a_of(es: Seq<i64>, e: i64, s: Seq<u8>) -> Seq<u8> {
    g1_gen_pow_of(
        poly_eval_of(
            poly_scale_of(nonmem_xgcd_of(es, e).1, fr_inv_of(nonmem_xgcd_of(es, e).0[0])),
            s,
        ),
    )
}

/// The `g2^B(s)` component of a non-membership proof: the second Bezout
/// coefficient, normalized by the constant GCD, evaluated at `s`, in G2.
pub open spec fn nonmem_witness_of(es: Seq<i64>, e: i64, s: Seq<u8>) -> Seq<u8> {
    g2_gen_pow_of(
        poly_eval_of(
            poly_scale_of(nonmem_xgcd_of(es, e).2, fr_inv_of(nonmem_xgcd_of(es, e).0[0])),
            s,
        ),
    )
}

/// The trimmed quotient of `a`'s set polynomial by the intersection's.
pub open spec fn inter_q1_of(a: Seq<i64>, b: Seq<i64>) -> Seq<Seq<u8>> {
    trim_of(divmod_of(set_poly_of(a), set_poly_of(inter_elems(a, b))).0)
}

/// The trimmed quotient of `b`'s set polynomial by the intersection's.
pub open spec fn inter_q2_of(a: Seq<i64>, b: Seq<i64>) -> Seq<Seq<u8>> {
    trim_of(divmod_of(set_poly_of(b), set_poly_of(inter_elems(a, b))).0)
}

/// The extended GCD of the two intersection quotients.
pub open spec fn inter_xgcd_of(a: Seq<i64>, b: Seq<i64>) -> (Seq<Seq<u8>>, Seq<Seq<u8>>, Seq<
    Seq<u8>,
>) {
    xgcd_of(inter_q1_of(a, b), inter_q2_of(a, b))
}

/// Whether an intersection proof can be produced for the two element
/// sequences: the intersection polynomial is nonzero and divides both set
/// polynomials, and the quotients are coprime.
pub open spec fn inter_ready(a: Seq<i64>, b: Seq<i64>) -> bool {
    let pi = set_poly_of(inter_elems(a, b));
    &&& pi.len() >= 1
    &&& divmod_of(set_poly_of(a), pi).1.len() == 0
    &&& divmod_of(set_poly_of(b), pi).1.len() == 0
    &&& gcd_is_unit(inter_xgcd_of(a, b).0)
}

/// The `g2^Q1(s)` component of an intersection proof.
pub open spec fn inter_witness_a_of(a: Seq<i64>, b: Seq<i64>, s: Seq<u8>) -> Seq<u8> {
    g2_gen_pow_of(poly_eval_of(inter_q1_of(a, b), s))
}

/// The `g2^Q2(s)` component of an intersection proof.
pub open spec fn inter_witness_b_of(a: Seq<i64>, b: Seq<i64>, s: Seq<u8>) -> Seq<u8> {
    g2_gen_pow_of(poly_eval_of(inter_q2_of(a, b), s))
}

/// The `g1^A(s)` coprimality component of an intersection proof.
pub open spec fn inter_coprime_a_of(a: Seq<i64>, b: Seq<i64>, s: Seq<u8>) -> Seq<u8> {
    g1_gen_pow_of(
        poly_eval_of(
            poly_scale_of(inter_xgcd_of(a, b).1, fr_inv_of(inter_xgcd_of(a, b).0[0])),
            s,
        ),
    )
}

/// The `g1^B(s)` coprimality component of an intersection proof.
pub open spec fn inter_coprime_b_of(a: Seq<i64>, b: Seq<i64>, s: Seq<u8>) -> Seq<u8> {
    g1_gen_pow_of(
        poly_eval_of(
            poly_scale_of(inter_xgcd_of(a, b).2, fr_inv_of(inter_xgcd_of(a, b).0[0])),
            s,
        ),
    )
}

/// The accumulator value of an element sequence built up from the empty
/// accumulator.
pub open spec fn acc_of_elems(s: Seq<u8>, es: Seq<i64>) -> Seq<u8> {
    acc_fold_from(s, acc_empty_value(), es)
}

/// What a union proof verification checks: the embedded intersection proof,
/// and the group equation `acc1 + acc2 == accU + accI`.
pub open spec fn union_check_of(
    a1: Seq<u8>,
    a2: Seq<u8>,
    au: Seq<u8>,
    iav: Seq<u8>,
    wa: Seq<u8>,
    wb: Seq<u8>,
    ca: Seq<u8>,
    cb: Seq<u8>,
) -> bool {
    inter_pair_check_of(a1, a2, iav, wa, wb, ca, cb) && g1_sum_eq_of(a1, a2, au, iav)
}

/// Law: a union proof that verifies establishes the group equation
/// `acc1 + acc2 == accU + accI` between the four accumulator values.
pub proof fn lemma_union_check_gives_sum(
    a1: Seq<u8>,
    a2: Seq<u8>,
    au: Seq<u8>,
    iav: Seq<u8>,
    wa: Seq<u8>,
    wb: Seq<u8>,
    ca: Seq<u8>,
    cb: Seq<u8>,
)
    requires
        union_check_of(a1, a2, au, iav, wa, wb, ca, cb),
    ensures
        g1_sum_eq_of(a1, a2, au, iav),
{
}

/// A sequence inserted into in ascending position: `x` goes before the first
/// element not below it.
pub open spec fn insert_sorted_of(s: Seq<i64>, x: i64) -> Seq<i64>
    decreases s.len(),
{
    if s.len() == 0 {
        seq![x]
    } else if s[0] >= x {
        seq![x] + s
    } else {
        seq![s[0]] + insert_sorted_of(s.drop_first(), x)
    }
}

/// The sorted duplicate-free sequence of the values, built by inserting each
/// value in turn, skipping those already placed.
pub open spec fn sort_uniq_of(s: Seq<i64>) -> Seq<i64>
    decreases s.len(),
{
    if s.len() == 0 {
        Seq::empty()
    } else {
        let prev = sort_uniq_of(s.drop_last());
        if prev.contains(s.last()) {
            prev
        } else {
            insert_sorted_of(prev, s.last())
        }
    }
}

/// The values of `a`, in order, that `b` also holds (over plain value
/// slices).
pub open spec fn common_vals(a: Seq<i64>, b: Seq<i64>) -> Seq<i64> {
    keep_in(a, b)
}

proof fn lemma_keep_in_contains(a: Seq<i64>, b: Seq<i64>, x: i64)
    requires
        keep_in(a, b).contains(x),
    ensures
        a.contains(x),
        b.contains(x),
    decreases a.len(),
{
    if a.len() > 0 {
        let prev = keep_in(a.drop_last(), b);
        if prev.contains(x) {
            lemma_keep_in_contains(a.drop_last(), b, x);
            assert(a.drop_last().contains(x));
            let i = choose|i: int| 0 <= i < a.drop_last().len() && a.drop_last()[i] == x;
            assert(a[i] == x);
        } else {
            assert(b.contains(a.last()) && x == a.last());
            assert(a.contains(x)) by {
                assert(a[a.len() - 1] == x);
            }
        }
    }
}

proof fn lemma_keep_out_contains(a: Seq<i64>, b: Seq<i64>, x: i64)
    requires
        keep_out(a, b).contains(x),
    ensures
        a.contains(x),
        !b.contains(x),
    decreases a.len(),
{
    if a.len() > 0 {
        let prev = keep_out(a.drop_last(), b);
        if prev.contains(x) {
            lemma_keep_out_contains(a.drop_last(), b, x);
            let i = choose|i: int| 0 <= i < a.drop_last().len() && a.drop_last()[i] == x;
            assert(a[i] == x);
        } else {
            assert(!b.contains(a.last()) && x == a.last());
            assert(a[a.len() - 1] == x);
        }
    }
}

proof fn lemma_keep_in_no_dups(a: Seq<i64>, b: Seq<i64>)
    requires
        a.no_duplicates(),
    ensures
        keep_in(a, b).no_duplicates(),
    decreases a.len(),
{
    if a.len() > 0 {
        lemma_keep_in_no_dups(a.drop_last(), b);
        let prev = keep_in(a.drop_last(), b);
        if b.contains(a.last()) {
            if prev.contains(a.last()) {
                lemma_keep_in_contains(a.drop_last(), b, a.last());
                let i = choose|i: int| 0 <= i < a.drop_last().len() && a.drop_last()[i] == a.last();
                assert(a[i] == a[a.len() - 1]);
                assert(false);
            }
        }
    }
}

proof fn lemma_keep_out_no_dups(a: Seq<i64>, b: Seq<i64>)
    requires
        a.no_duplicates(),
    ensures
        keep_out(a, b).no_duplicates(),
    decreases a.len(),
{
    if a.len() > 0 {
        lemma_keep_out_no_dups(a.drop_last(), b);
        let prev = keep_out(a.drop_last(), b);
        if !b.contains(a.last()) {
            if prev.contains(a.last()) {
                lemma_keep_out_contains(a.drop_last(), b, a.last());
                let i = choose|i: int| 0 <= i < a.drop_last().len() && a.drop_last()[i] == a.last();
                assert(a[i] == a[a.len() - 1]);
                assert(false);
            }
        }
    }
}

proof fn lemma_union_no_dups(a: Seq<i64>, b: Seq<i64>)
    requires
        a.no_duplicates(),
        b.no_duplicates(),
    ensures
        union_elems(a, b).no_duplicates(),
{
    lemma_keep_out_no_dups(b, a);
    let u = union_elems(a, b);
    let ko = keep_out(b, a);
    assert forall|p: int, q: int| 0 <= p < q < u.len() implies u[p] != u[q] by {
        if q < a.len() {
        } else if p >= a.len() {
            assert(u[p] == ko[p - a.len()] && u[q] == ko[q - a.len()]);
        } else {
            assert(u[q] == ko[q - a.len()]);
            assert(ko.contains(ko[q - a.len()]));
            lemma_keep_out_contains(b, a, ko[q - a.len()]);
            assert(!a.contains(u[q]));
            assert(u[p] == a[p]);
            if u[p] == u[q] {
                assert(a.contains(u[q])) by {
                    assert(a[p] == u[q]);
                }
                assert(false);
            }
        }
    }
}

proof fn lemma_batch_ok_of_no_dups(held: Seq<i64>, xs: Seq<i64>)
    requires
        xs.no_duplicates(),
        forall|i: int| 0 <= i < xs.len() ==> !held.contains(#[trigger] xs[i]),
    ensures
        batch_ok(held, xs),
    decreases xs.len(),
{
    if xs.len() > 0 {
        let held2 = held.push(xs[0]);
        let rest = xs.drop_first();
        assert(rest.no_duplicates());
        assert forall|i: int| 0 <= i < rest.len() implies !held2.contains(#[trigger] rest[i]) by {
            assert(rest[i] == xs[i + 1]);
            if held2.contains(rest[i]) {
                let w = choose|w: int| 0 <= w < held2.len() && held2[w] == rest[i];
                if w < held.len() {
                    assert(held.contains(xs[i + 1]));
                } else {
                    assert(xs[0] == xs[i + 1]);
                }
                assert(false);
            }
        }
        lemma_batch_ok_of_no_dups(held2, rest);
    }
}

proof fn lemma_insert_sorted_at(s: Seq<i64>, x: i64, i: int)
    requires
        0 <= i <= s.len(),
        forall|k: int| 0 <= k < i ==> s[k] < x,
        i < s.len() ==> s[i] >= x,
    ensures
        insert_sorted_of(s, x) == s.subrange(0, i) + seq![x] + s.subrange(i, s.len() as int),
    decreases i,
{
    if s.len() == 0 {
        assert(insert_sorted_of(s, x) =~= s.subrange(0, 0) + seq![x] + s.subrange(0, 0));
    } else if i == 0 {
        assert(seq![x] + s =~= s.subrange(0, 0) + seq![x] + s.subrange(0, s.len() as int));
    } else {
        lemma_insert_sorted_at(s.drop_first(), x, i - 1);
        assert(s.drop_first().subrange(0, i - 1) =~= s.subrange(1, i));
        assert(s.drop_first().subrange(i - 1, s.drop_first().len() as int) =~= s.subrange(
            i,
            s.len() as int,
        ));
        assert(seq![s[0]] + (s.subrange(1, i) + seq![x] + s.subrange(i, s.len() as int)) =~= s
            .subrange(0, i) + seq![x] + s.subrange(i, s.len() as int));
    }
}

/// Builds the sorted duplicate-free vector of the given values.
pub(crate) fn sorted_unique(values: &[i64]) -> (r: Vec<i64>)
    ensures
        r@ == sort_uniq_of(values@),
        r@.no_duplicates(),
{
    let mut out: Vec<i64> = Vec::new();
    let n = values.len();
    let mut i: usize = 0;
    proof {
        assert(values@.take(0) =~= Seq::<i64>::empty());
    }
    while i < n
        invariant
            n == values@.len(),
            0 <= i <= n,
            out@ == sort_uniq_of(values@.take(i as int)),
            out@.no_duplicates(),
        decreases n - i,
    {
        let x = *slice_index(values, i);
        proof {
            assert(values@.take(i + 1).drop_last() =~= values@.take(i as int));
            assert(values@.take(i + 1).last() == values@[i as int]);
        }
        if !contains_i64(&out, x) {
            let mut pos: usize = 0;
            while pos < out.len() && out[pos as usize] < x
                invariant
                    0 <= pos <= out@.len(),
                    forall|k: int| 0 <= k < pos ==> out@[k] < x,
                decreases out@.len() - pos,
            {
                pos += 1;
            }
            let ghost before = out@;
            out.insert(pos, x);
            proof {
                lemma_insert_sorted_at(before, x, pos as int);
                assert(out@ =~= before.subrange(0, pos as int) + seq![x] + before.subrange(
                    pos as int,
                    before.len() as int,
                ));
                assert(out@.no_duplicates()) by {
                    assert forall|p: int, q: int| 0 <= p < q < out@.len() implies out@[p] != out@[q]
                        by {
                        if p != pos && q != pos {
                            let p0: int = if p < pos { p } else { p - 1 };
                            let q0: int = if q < pos { q } else { q - 1 };
                            assert(out@[p] == before[p0] && out@[q] == before[q0]);
                        } else if p == pos {
                            assert(out@[p] == x && out@[q] == before[q - 1]);
                            assert(!before.contains(x));
                        } else {
                            assert(out@[q] == x && out@[p] == before[p]);
                            assert(!before.contains(x));
                        }
                    }
                }
            }
        }
        i += 1;
    }
    proof {
        assert(values@.take(n as int) =~= values@);
    }
    out
}

/// The values held by both slices, each value once, ascending.
pub(crate) fn sorted_common_values(a: &[i64], b: &[i64]) -> (r: Vec<i64>)
    ensures
        r@ == sort_uniq_of(common_vals(a@, b@)),
        r@.no_duplicates(),
{
    let mut both: Vec<i64> = Vec::new();
    let n = a.len();
    let mut i: usize = 0;
    while i < n
        invariant
            n == a@.len(),
            0 <= i <= n,
            both@ == keep_in(a@.take(i as int), b@),
        decreases n - i,
    {
        let x = *slice_index(a, i);
        proof {
            assert(a@.take(i + 1).drop_last() =~= a@.take(i as int));
            assert(a@.take(i + 1).last() == a@[i as int]);
        }
        if contains_slice_i64(b, x) {
            both.push(x);
        }
        i += 1;
    }
    proof {
        assert(a@.take(n as int) =~= a@);
    }
    sorted_unique(both.as_slice())
}

/// Reports whether the slice holds the value.
pub(crate) fn contains_slice_i64(v: &[i64], x: i64) -> (r: bool)
    ensures
        r == v@.contains(x),
{
    let mut i: usize = 0;
    while i < v.len()
        invariant
            0 <= i <= v@.len(),
            forall|k: int| 0 <= k < i ==> v@[k] != x,
        decreases v@.len() - i,
    {
        if *slice_index(v, i) == x {
            return true;
        }
        i += 1;
    }
    false
}

impl DynamicAccumulator {
    /// Produces a non-membership proof by the Bezout identity
    /// `A(X)(X - h(e)) + B(X)P(X) = 1`.  Fails with `ElementPresent` exactly
    /// when the element is held, and with `NonCoprime` exactly when the
    /// extended GCD of `X - h(e)` and the set polynomial is not a nonzero
    /// constant.
    pub fn prove_non_membership(&self, element: &i64) -> (r: Result<NonMembershipProof, AccError>)
        ensures
            self.elements().contains(*element) ==> r == Err::<NonMembershipProof, AccError>(
                AccError::ElementPresent,
            ),
            !self.elements().contains(*element) && !gcd_is_unit(
                nonmem_xgcd_of(self.elements(), *element).0,
            ) ==> r == Err::<NonMembershipProof, AccError>(AccError::NonCoprime),
            !self.elements().contains(*element) && gcd_is_unit(
                nonmem_xgcd_of(self.elements(), *element).0,
            ) ==> {
                &&& r is Ok
                &&& r->Ok_0.element == *element
                &&& r->Ok_0.witness@ == nonmem_witness_of(
                    self.elements(),
                    *element,
                    self.setup_secret(),
                )
                &&& r->Ok_0.g1_a@ == nonmem_g1a_of(self.elements(), *element, self.setup_secret())
            },
    {
        proof {
            use_type_invariant(self);
        }
        if self.contains_element(*element) {
            return Err(AccError::ElementPresent);
        }
        let digs = self.elements_fr();
        let mut p = poly_from_roots(&digs);
        poly_trim(&mut p);
        let d = fr_digest(*element);
        let mut q: Vec<Vec<u8>> = Vec::new();
        q.push(crate::field::fr_neg(&d));
        q.push(fr_from_u64(1));
        proof {
            assert(pv(q@) =~= linear_of(fr_digest_of(*element)));
            assert(pv(q@)[1] != frz());
            crate::poly::lemma_trim(roots_poly_of(digests_of(self.elements())));
        }
        let xg = poly_xgcd(&q, &p);
        let g = xg.0;
        let zero = fr_from_u64(0);
        if !(g.len() == 1 && !bytes_eq(&g[0], &zero)) {
            return Err(AccError::NonCoprime);
        }
        assert(fr_ok(pv(g@)[0]));
        let gi = match fr_inv(&g[0]) {
            Some(v) => v,
            None => {
                proof {
                    assert(false);
                }
                Vec::new()
            },
        };
        let an = poly_scale(&xg.1, &gi);
        let bn = poly_scale(&xg.2, &gi);
        let s = self.setup.secret_bytes();
        let a_s = poly_eval(&an, s);
        let b_s = poly_eval(&bn, s);
        let witness = g2_gen_mul(&b_s);
        let g1_a = g1_gen_mul(&a_s);
        Ok(NonMembershipProof { element: *element, witness, g1_a })
    }

    /// Checks a non-membership proof against the current accumulator value.
    pub fn verify_non_membership(&self, proof: &NonMembershipProof) -> (r: bool)
        ensures
            r == nonmem_pair_check_of(
                self.setup_secret(),
                self.acc(),
                proof.g1_a@,
                proof.witness@,
                proof.element,
            ),
    {
        proof {
            use_type_invariant(self);
        }
        nonmem_pair_check(self.setup.secret_bytes(), &self.acc_value, &proof.g1_a, &proof.witness, proof.element)
    }

    /// Queries the accumulator for an element: a membership proof when it is
    /// held, a non-membership proof when it is not; fails only when the
    /// underlying prover does.
    pub fn query(&self, element: &i64) -> (r: Result<QueryResult, AccError>)
        ensures
            self.elements().contains(*element) && digest_gap_ok(self.setup_secret(), *element)
                ==> {
                &&& r is Ok
                &&& r->Ok_0 is Membership
                &&& r->Ok_0->Membership_0.witness@ == acc_unstep_of(
                    self.setup_secret(),
                    self.acc(),
                    *element,
                )
                &&& r->Ok_0->Membership_0.element == *element
            },
            self.elements().contains(*element) && !digest_gap_ok(self.setup_secret(), *element)
                ==> r == Err::<QueryResult, AccError>(AccError::ZeroDivisor),
            !self.elements().contains(*element) && gcd_is_unit(
                nonmem_xgcd_of(self.elements(), *element).0,
            ) ==> {
                &&& r is Ok
                &&& r->Ok_0 is NonMembership
                &&& r->Ok_0->NonMembership_0.element == *element
                &&& r->Ok_0->NonMembership_0.witness@ == nonmem_witness_of(
                    self.elements(),
                    *element,
                    self.setup_secret(),
                )
                &&& r->Ok_0->NonMembership_0.g1_a@ == nonmem_g1a_of(
                    self.elements(),
                    *element,
                    self.setup_secret(),
                )
            },
            !self.elements().contains(*element) && !gcd_is_unit(
                nonmem_xgcd_of(self.elements(), *element).0,
            ) ==> r == Err::<QueryResult, AccError>(AccError::NonCoprime),
    {
        if self.contains_element(*element) {
            match self.prove_membership(element) {
                Ok(p) => Ok(QueryResult::Membership(p)),
                Err(e) => Err(e),
            }
        } else {
            match self.prove_non_membership(element) {
                Ok(p) => Ok(QueryResult::NonMembership(p)),
                Err(e) => Err(e),
            }
        }
    }
}


/// The digests of the values of a vector of elements.
pub(crate) fn digests_vec(v: &Vec<i64>) -> (r: Vec<Vec<u8>>)
    ensures
        pv(r@) == digests_of(v@),
        poly_wf(pv(r@)),
{
    let mut out: Vec<Vec<u8>> = Vec::new();
    let mut i: usize = 0;
    while i < v.len()
        invariant
            0 <= i <= v@.len(),
            out@.len() == i,
            forall|k: int| 0 <= k < i ==> #[trigger] out@[k]@ == fr_digest_of(v@[k]),
            forall|k: int| 0 <= k < i ==> fr_ok(#[trigger] out@[k]@) && out@[k]@.len() == 32,
        decreases v@.len() - i,
    {
        out.push(fr_digest(v[i]));
        i += 1;
    }
    proof {
        assert(pv(out@) =~= digests_of(v@));
        assert(poly_wf(pv(out@)));
    }
    out
}

impl DynamicAccumulator {
    /// Builds an empty accumulator under the same setup as this one.
    fn empty_like(&self) -> (r: Self)
        ensures
            r.elements() == Seq::<i64>::empty(),
            r.acc() == acc_empty_value(),
            r.setup_secret() == self.setup_secret(),
    {
        proof {
            use_type_invariant(self);
        }
        let one = fr_from_u64(1);
        let acc_value = g1_gen_mul(&one);
        let setup = TrustedSetup { secret: scalar_clone(self.setup.secret_bytes()) };
        let r = DynamicAccumulator { setup, acc_value, elements: Vec::new() };
        proof {
            assert(r.elements@.no_duplicates());
        }
        r
    }

    /// The elements held by both accumulators, in this accumulator's order.
    fn intersection_elements(&self, other: &DynamicAccumulator) -> (r: Vec<i64>)
        ensures
            r@ == inter_elems(self.elements(), other.elements()),
            r@.no_duplicates(),
    {
        proof {
            use_type_invariant(self);
            use_type_invariant(other);
        }
        let mut out: Vec<i64> = Vec::new();
        let n = self.elements.len();
        let mut i: usize = 0;
        proof {
            assert(self.elements@.take(0) =~= Seq::<i64>::empty());
        }
        while i < n
            invariant
                n == self.elements@.len(),
                0 <= i <= n,
                out@ == keep_in(self.elements@.take(i as int), other.elements@),
            decreases n - i,
        {
            let x = self.elements[i];
            proof {
                assert(self.elements@.take(i + 1).drop_last() =~= self.elements@.take(i as int));
                assert(self.elements@.take(i + 1).last() == self.elements@[i as int]);
            }
            if contains_i64(&other.elements, x) {
                out.push(x);
            }
            i += 1;
        }
        proof {
            assert(self.elements@.take(n as int) =~= self.elements@);
            lemma_keep_in_no_dups(self.elements@, other.elements@);
        }
        out
    }

    /// The union of the two accumulators' elements: this accumulator's,
    /// followed by the other's that it does not hold.
    fn union_elements_vec(&self, other: &DynamicAccumulator) -> (r: Vec<i64>)
        ensures
            r@ == union_elems(self.elements(), other.elements()),
            r@.no_duplicates(),
    {
        proof {
            use_type_invariant(self);
            use_type_invariant(other);
        }
        let mut out: Vec<i64> = Vec::new();
        let n = self.elements.len();
        let mut i: usize = 0;
        while i < n
            invariant
                n == self.elements@.len(),
                0 <= i <= n,
                out@ == self.elements@.take(i as int),
            decreases n - i,
        {
            out.push(self.elements[i]);
            proof {
                assert(out@ =~= self.elements@.take(i + 1));
            }
            i += 1;
        }
        proof {
            assert(self.elements@.take(n as int) =~= self.elements@);
            assert(keep_out(other.elements@.take(0), self.elements@) =~= Seq::<i64>::empty());
            assert(out@ =~= self.elements@ + keep_out(other.elements@.take(0), self.elements@));
        }
        let m = other.elements.len();
        let mut j: usize = 0;
        while j < m
            invariant
                m == other.elements@.len(),
                out@ == self.elements@ + keep_out(other.elements@.take(j as int), self.elements@),
                0 <= j <= m,
            decreases m - j,
        {
            let x = other.elements[j];
            proof {
                assert(other.elements@.take(j + 1).drop_last() =~= other.elements@.take(j as int));
                assert(other.elements@.take(j + 1).last() == other.elements@[j as int]);
            }
            if !contains_i64(&self.elements, x) {
                out.push(x);
            }
            j += 1;
        }
        proof {
            assert(other.elements@.take(m as int) =~= other.elements@);
            lemma_union_no_dups(self.elements@, other.elements@);
        }
        out
    }

    /// Computes the intersection accumulator of this accumulator and another,
    /// with a proof built from the quotient polynomials and their Bezout
    /// coefficients.  Fails exactly when the intersection polynomial does not
    /// divide both set polynomials with coprime quotients.
    pub fn prove_intersection(&self, other: &DynamicAccumulator) -> (r: Result<
        (DynamicAccumulator, IntersectionProof),
        AccError,
    >)
        ensures
            !inter_ready(self.elements(), other.elements()) ==> r == Err::<
                (DynamicAccumulator, IntersectionProof),
                AccError,
            >(AccError::QuotientNotCoprime),
            inter_ready(self.elements(), other.elements()) ==> {
                &&& r is Ok
                &&& r->Ok_0.0.elements() == inter_elems(self.elements(), other.elements())
                &&& r->Ok_0.0.acc() == acc_of_elems(
                    self.setup_secret(),
                    inter_elems(self.elements(), other.elements()),
                )
                &&& r->Ok_0.0.setup_secret() == self.setup_secret()
                &&& r->Ok_0.1.witness_a@ == inter_witness_a_of(
                    self.elements(),
                    other.elements(),
                    self.setup_secret(),
                )
                &&& r->Ok_0.1.witness_b@ == inter_witness_b_of(
                    self.elements(),
                    other.elements(),
                    self.setup_secret(),
                )
                &&& r->Ok_0.1.witness_coprime_a@ == inter_coprime_a_of(
                    self.elements(),
                    other.elements(),
                    self.setup_secret(),
                )
                &&& r->Ok_0.1.witness_coprime_b@ == inter_coprime_b_of(
                    self.elements(),
                    other.elements(),
                    self.setup_secret(),
                )
            },
    {
        proof {
            use_type_invariant(self);
            use_type_invariant(other);
        }
        let ghost av = self.elements@;
        let ghost bv = other.elements@;
        let ielems = self.intersection_elements(other);
        let mut iacc = self.empty_like();
        proof {
            lemma_batch_ok_of_no_dups(Seq::<i64>::empty(), ielems@);
        }
        match iacc.add_batch(ielems.as_slice()) {
            Ok(_) => {},
            Err(_) => {
                proof {
                    assert(false);
                }
                return Err(AccError::QuotientNotCoprime);
            },
        }
        let mut p1 = poly_from_roots(&digests_vec(&self.elements));
        poly_trim(&mut p1);
        let mut p2 = poly_from_roots(&digests_vec(&other.elements));
        poly_trim(&mut p2);
        let mut pi = poly_from_roots(&digests_vec(&ielems));
        poly_trim(&mut pi);
        proof {
            crate::poly::lemma_trim(roots_poly_of(digests_of(av)));
            crate::poly::lemma_trim(roots_poly_of(digests_of(bv)));
            crate::poly::lemma_trim(roots_poly_of(digests_of(inter_elems(av, bv))));
        }
        if pi.len() == 0 {
            return Err(AccError::QuotientNotCoprime);
        }
        let qr1 = poly_divmod(&p1, &pi);
        if qr1.1.len() > 0 {
            return Err(AccError::QuotientNotCoprime);
        }
        let qr2 = poly_divmod(&p2, &pi);
        if qr2.1.len() > 0 {
            return Err(AccError::QuotientNotCoprime);
        }
        let mut q1 = qr1.0;
        poly_trim(&mut q1);
        let mut q2 = qr2.0;
        poly_trim(&mut q2);
        proof {
            crate::poly::lemma_trim(divmod_of(set_poly_of(av), set_poly_of(inter_elems(av, bv))).0);
            crate::poly::lemma_trim(divmod_of(set_poly_of(bv), set_poly_of(inter_elems(av, bv))).0);
        }
        let s = self.setup.secret_bytes();
        let q1s = poly_eval(&q1, s);
        let q2s = poly_eval(&q2, s);
        let witness_a = g2_gen_mul(&q1s);
        let witness_b = g2_gen_mul(&q2s);
        let xg = poly_xgcd(&q1, &q2);
        let zero = fr_from_u64(0);
        if !(xg.0.len() == 1 && !bytes_eq(&xg.0[0], &zero)) {
            return Err(AccError::QuotientNotCoprime);
        }
        assert(fr_ok(pv(xg.0@)[0]));
        let gi = match fr_inv(&xg.0[0]) {
            Some(v) => v,
            None => {
                proof {
                    assert(false);
                }
                Vec::new()
            },
        };
        let an = poly_scale(&xg.1, &gi);
        let bn = poly_scale(&xg.2, &gi);
        let a_s = poly_eval(&an, s);
        let b_s = poly_eval(&bn, s);
        let witness_coprime_a = g1_gen_mul(&a_s);
        let witness_coprime_b = g1_gen_mul(&b_s);
        Ok(
            (
                iacc,
                IntersectionProof { witness_a, witness_b, witness_coprime_a, witness_coprime_b },
            ),
        )
    }

    /// As `prove_intersection`, also handing back the digests of the
    /// intersection's elements.
    pub fn prove_intersection_with_elements(&self, other: &DynamicAccumulator) -> (r: Result<
        (DynamicAccumulator, IntersectionProof, Vec<Vec<u8>>),
        AccError,
    >)
        ensures
            !inter_ready(self.elements(), other.elements()) ==> r is Err,
            inter_ready(self.elements(), other.elements()) ==> {
                &&& r is Ok
                &&& r->Ok_0.0.elements() == inter_elems(self.elements(), other.elements())
                &&& r->Ok_0.0.acc() == acc_of_elems(
                    self.setup_secret(),
                    inter_elems(self.elements(), other.elements()),
                )
                &&& pv(r->Ok_0.2@) == digests_of(inter_elems(self.elements(), other.elements()))
            },
    {
        match self.prove_intersection(other) {
            Ok((iacc, proof)) => {
                let digs = iacc.elements_fr();
                Ok((iacc, proof, digs))
            },
            Err(e) => Err(e),
        }
    }

    /// Checks an intersection proof against the three accumulator values by
    /// the three pairing equations.
    pub fn verify_intersection(
        acc1_value: &Vec<u8>,
        acc2_value: &Vec<u8>,
        intersection_value: &Vec<u8>,
        proof: &IntersectionProof,
    ) -> (r: bool)
        ensures
            r == inter_pair_check_of(
                acc1_value@,
                acc2_value@,
                intersection_value@,
                proof.witness_a@,
                proof.witness_b@,
                proof.witness_coprime_a@,
                proof.witness_coprime_b@,
            ),
    {
        let eq1 = pair_vs_gen(acc1_value, intersection_value, &proof.witness_a);
        let eq2 = pair_vs_gen(acc2_value, intersection_value, &proof.witness_b);
        let eq3 = pair_product_check(
            &proof.witness_coprime_a,
            &proof.witness_a,
            &proof.witness_coprime_b,
            &proof.witness_b,
        );
        eq1 && eq2 && eq3
    }

    /// Computes the intersection and queries it for an element, handing back
    /// the query result, the intersection proof, the intersection accumulator
    /// and its element digests.
    pub fn query_in_intersection_with_elements(
        &self,
        other: &DynamicAccumulator,
        element: &i64,
    ) -> (r: Result<(QueryResult, IntersectionProof, DynamicAccumulator, Vec<Vec<u8>>), AccError>)
        ensures
            !inter_ready(self.elements(), other.elements()) ==> r is Err,
            r is Ok ==> {
                &&& inter_ready(self.elements(), other.elements())
                &&& r->Ok_0.2.elements() == inter_elems(self.elements(), other.elements())
                &&& r->Ok_0.2.acc() == acc_of_elems(
                    self.setup_secret(),
                    inter_elems(self.elements(), other.elements()),
                )
                &&& pv(r->Ok_0.3@) == digests_of(inter_elems(self.elements(), other.elements()))
                &&& (r->Ok_0.0 is Membership ==> inter_elems(
                    self.elements(),
                    other.elements(),
                ).contains(*element) && r->Ok_0.0->Membership_0.element == *element)
                &&& (r->Ok_0.0 is NonMembership ==> !inter_elems(
                    self.elements(),
                    other.elements(),
                ).contains(*element) && r->Ok_0.0->NonMembership_0.element == *element)
            },
    {
        let (iacc, proof) = match self.prove_intersection(other) {
            Ok(p) => p,
            Err(e) => {
                return Err(e);
            },
        };
        let q = match iacc.query(element) {
            Ok(q) => q,
            Err(e) => {
                return Err(e);
            },
        };
        let digs = iacc.elements_fr();
        Ok((q, proof, iacc, digs))
    }

    /// Computes the union accumulator of this accumulator and another; the
    /// proof carries the intersection proof and the intersection
    /// accumulator's value.  Fails exactly when the intersection proof cannot
    /// be produced.
    pub fn prove_union(&self, other: &DynamicAccumulator) -> (r: Result<
        (DynamicAccumulator, UnionProof),
        AccError,
    >)
        ensures
            !inter_ready(self.elements(), other.elements()) ==> r is Err,
            inter_ready(self.elements(), other.elements()) ==> {
                &&& r is Ok
                &&& r->Ok_0.0.elements() == union_elems(self.elements(), other.elements())
                &&& r->Ok_0.0.acc() == acc_of_elems(
                    self.setup_secret(),
                    union_elems(self.elements(), other.elements()),
                )
                &&& r->Ok_0.0.setup_secret() == self.setup_secret()
                &&& r->Ok_0.1.intersection_acc_value@ == acc_of_elems(
                    self.setup_secret(),
                    inter_elems(self.elements(), other.elements()),
                )
                &&& r->Ok_0.1.intersection_proof.witness_a@ == inter_witness_a_of(
                    self.elements(),
                    other.elements(),
                    self.setup_secret(),
                )
                &&& r->Ok_0.1.intersection_proof.witness_b@ == inter_witness_b_of(
                    self.elements(),
                    other.elements(),
                    self.setup_secret(),
                )
                &&& r->Ok_0.1.intersection_proof.witness_coprime_a@ == inter_coprime_a_of(
                    self.elements(),
                    other.elements(),
                    self.setup_secret(),
                )
                &&& r->Ok_0.1.intersection_proof.witness_coprime_b@ == inter_coprime_b_of(
                    self.elements(),
                    other.elements(),
                    self.setup_secret(),
                )
            },
    {
        let (iacc, intersection_proof) = match self.prove_intersection(other) {
            Ok(p) => p,
            Err(e) => {
                return Err(e);
            },
        };
        let uelems = self.union_elements_vec(other);
        let mut uacc = self.empty_like();
        proof {
            lemma_batch_ok_of_no_dups(Seq::<i64>::empty(), uelems@);
        }
        match uacc.add_batch(uelems.as_slice()) {
            Ok(_) => {},
            Err(_) => {
                proof {
                    assert(false);
                }
                return Err(AccError::QuotientNotCoprime);
            },
        }
        let intersection_acc_value = scalar_clone(iacc.acc_value());
        Ok((uacc, UnionProof { intersection_acc_value, intersection_proof }))
    }

    /// Checks a union proof: the embedded intersection proof must verify, and
    /// the four accumulator values must satisfy `acc1 + acc2 == accU + accI`
    /// in the group.
    pub fn verify_union(
        acc1_value: &Vec<u8>,
        acc2_value: &Vec<u8>,
        union_acc_value: &Vec<u8>,
        proof: &UnionProof,
    ) -> (r: bool)
        ensures
            r == union_check_of(
                acc1_value@,
                acc2_value@,
                union_acc_value@,
                proof.intersection_acc_value@,
                proof.intersection_proof.witness_a@,
                proof.intersection_proof.witness_b@,
                proof.intersection_proof.witness_coprime_a@,
                proof.intersection_proof.witness_coprime_b@,
            ),
    {
        let is_intersection_valid = Self::verify_intersection(
            acc1_value,
            acc2_value,
            &proof.intersection_acc_value,
            &proof.intersection_proof,
        );
        if !is_intersection_valid {
            return false;
        }
        g1_sum_check(acc1_value, acc2_value, union_acc_value, &proof.intersection_acc_value)
    }

    /// As `prove_intersection`, also handing back the common application
    /// values of the two provided clear-text lists, each once, ascending.
    pub fn prove_intersection_with_values(
        &self,
        other: &DynamicAccumulator,
        self_values: &[i64],
        other_values: &[i64],
    ) -> (r: Result<(Vec<i64>, DynamicAccumulator, IntersectionProof), AccError>)
        ensures
            !inter_ready(self.elements(), other.elements()) ==> r is Err,
            inter_ready(self.elements(), other.elements()) ==> {
                &&& r is Ok
                &&& r->Ok_0.0@ == sort_uniq_of(common_vals(self_values@, other_values@))
                &&& r->Ok_0.1.elements() == inter_elems(self.elements(), other.elements())
                &&& r->Ok_0.1.acc() == acc_of_elems(
                    self.setup_secret(),
                    inter_elems(self.elements(), other.elements()),
                )
            },
    {
        let intersection_values = sorted_common_values(self_values, other_values);
        match self.prove_intersection(other) {
            Ok((iacc, proof)) => Ok((intersection_values, iacc, proof)),
            Err(e) => Err(e),
        }
    }

    /// Recomputes the intersection accumulator from the provided clear-text
    /// values (each once, ascending) and checks the intersection proof
    /// against it.
    pub fn verify_intersection_with_values(
        acc1_value: &Vec<u8>,
        acc2_value: &Vec<u8>,
        intersection_values: &[i64],
        proof: &IntersectionProof,
    ) -> (r: bool)
        ensures
            r == inter_pair_check_of(
                acc1_value@,
                acc2_value@,
                acc_of_elems(default_setup_secret(), sort_uniq_of(intersection_values@)),
                proof.witness_a@,
                proof.witness_b@,
                proof.witness_coprime_a@,
                proof.witness_coprime_b@,
            ),
    {
        let unique = sorted_unique(intersection_values);
        let mut acc = DynamicAccumulator::new();
        proof {
            lemma_batch_ok_of_no_dups(Seq::<i64>::empty(), unique@);
        }
        match acc.add_batch(unique.as_slice()) {
            Ok(_) => {},
            Err(_) => {
                proof {
                    assert(false);
                }
                return false;
            },
        }
        Self::verify_intersection(acc1_value, acc2_value, acc.acc_value(), proof)
    }

    /// Computes the union and intersection of the provided clear-text values
    /// together with the union accumulator and union proof.
    pub fn prove_union_with_values(
        &self,
        other: &DynamicAccumulator,
        self_values: &[i64],
        other_values: &[i64],
    ) -> (r: Result<(Vec<i64>, Vec<i64>, DynamicAccumulator, UnionProof), AccError>)
        ensures
            !inter_ready(self.elements(), other.elements()) ==> r is Err,
            inter_ready(self.elements(), other.elements()) ==> {
                &&& r is Ok
                &&& r->Ok_0.0@ == sort_uniq_of(self_values@ + other_values@)
                &&& r->Ok_0.1@ == sort_uniq_of(common_vals(self_values@, other_values@))
                &&& r->Ok_0.2.elements() == sort_uniq_of(self_values@ + other_values@)
                &&& r->Ok_0.2.acc() == acc_of_elems(
                    default_setup_secret(),
                    sort_uniq_of(self_values@ + other_values@),
                )
                &&& r->Ok_0.3.intersection_acc_value@ == acc_of_elems(
                    self.setup_secret(),
                    inter_elems(self.elements(), other.elements()),
                )
            },
    {
        let (iacc, intersection_proof) = match self.prove_intersection(other) {
            Ok(p) => p,
            Err(e) => {
                return Err(e);
            },
        };
        let intersection_values = sorted_common_values(self_values, other_values);
        let mut all: Vec<i64> = Vec::new();
        all.extend_from_slice(self_values);
        all.extend_from_slice(other_values);
        proof {
            assert(all@ =~= self_values@ + other_values@);
        }
        let union_values = sorted_unique(all.as_slice());
        let mut union_acc = DynamicAccumulator::new();
        proof {
            lemma_batch_ok_of_no_dups(Seq::<i64>::empty(), union_values@);
        }
        match union_acc.add_batch(union_values.as_slice()) {
            Ok(_) => {},
            Err(_) => {
                proof {
                    assert(false);
                }
                return Err(AccError::QuotientNotCoprime);
            },
        }
        let intersection_acc_value = scalar_clone(iacc.acc_value());
        Ok(
            (
                union_values,
                intersection_values,
                union_acc,
                UnionProof { intersection_acc_value, intersection_proof },
            ),
        )
    }

    /// Checks a union proof against clear-text union and intersection
    /// values: the recomputed intersection accumulator must match the one in
    /// the proof bitwise, the intersection proof must verify, and the union
    /// values must rebuild without duplicates.
    pub fn verify_union_with_values(
        acc1_value: &Vec<u8>,
        acc2_value: &Vec<u8>,
        union_values: &[i64],
        intersection_values: &[i64],
        proof: &UnionProof,
    ) -> (r: bool)
        ensures
            r == ({
                &&& batch_ok(Seq::<i64>::empty(), intersection_values@)
                &&& acc_of_elems(default_setup_secret(), intersection_values@)
                    == proof.intersection_acc_value@
                &&& inter_pair_check_of(
                    acc1_value@,
                    acc2_value@,
                    proof.intersection_acc_value@,
                    proof.intersection_proof.witness_a@,
                    proof.intersection_proof.witness_b@,
                    proof.intersection_proof.witness_coprime_a@,
                    proof.intersection_proof.witness_coprime_b@,
                )
                &&& batch_ok(Seq::<i64>::empty(), union_values@)
            }),
    {
        let mut recomputed = DynamicAccumulator::new();
        match recomputed.add_batch(intersection_values) {
            Ok(_) => {},
            Err(_) => {
                return false;
            },
        }
        if !bytes_eq(recomputed.acc_value(), &proof.intersection_acc_value) {
            return false;
        }
        let is_intersection_valid = Self::verify_intersection(
            acc1_value,
            acc2_value,
            &proof.intersection_acc_value,
            &proof.intersection_proof,
        );
        if !is_intersection_valid {
            return false;
        }
        let mut union_rebuilt = DynamicAccumulator::new();
        match union_rebuilt.add_batch(union_values) {
            Ok(_) => {},
            Err(_) => {
                return false;
            },
        }
        true
    }
}

} // verus!
