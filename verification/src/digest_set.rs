//! A multiset of field digests and its characteristic polynomial.
//!
//! Each entry pairs an encoded scalar with a multiplicity; expanding the set
//! multiplies the linear factors `X - d`, one per occurrence, into the monic
//! polynomial whose roots are the digests.
use vstd::prelude::*;

use crate::field::{fr_digest, fr_digest_of, fr_from_u64, fr_of_u64, fr_ok};
use crate::poly::{poly_from_roots, poly_wf, pv, roots_poly_of, scalar_clone};

verus! {

/// The digests of a pair sequence, each repeated by its multiplicity.
pub open spec fn repeat_pairs(ps: Seq<(Seq<u8>, u32)>) -> Seq<Seq<u8>>
    decreases ps.len(),
{
    if ps.len() == 0 {
        Seq::empty()
    } else {
        repeat_pairs(ps.drop_last()) + Seq::new(ps.last().1 as nat, |k: int| ps.last().0)
    }
}

/// A multiset of encoded field digests.
pub struct DigestSet {
    inner: Vec<(Vec<u8>, u32)>,
}

impl DigestSet {
    #[verifier::type_invariant]
    spec fn wf(self) -> bool {
        forall|i: int|
            0 <= i < self.inner@.len() ==> fr_ok(#[trigger] self.inner@[i].0@)
                && self.inner@[i].0@.len() == 32
    }

    /// The digest and multiplicity pairs the set holds.
    pub closed spec fn pairs(self) -> Seq<(Seq<u8>, u32)> {
        Seq::new(self.inner@.len(), |i: int| (self.inner@[i].0@, self.inner@[i].1))
    }

    /// Builds the set from application elements with multiplicities, digesting
    /// each element into the field.
    pub fn new(input: &Vec<(i64, u32)>) -> (r: Self)
        ensures
            r.pairs() == Seq::new(
                input@.len(),
                |i: int| (fr_digest_of(input@[i].0), input@[i].1),
            ),
    {
        let mut inner: Vec<(Vec<u8>, u32)> = Vec::new();
        let mut i: usize = 0;
        while i < input.len()
            invariant
                0 <= i <= input@.len(),
                inner@.len() == i,
                forall|k: int|
                    0 <= k < i ==> (#[trigger] inner@[k]).0@ == fr_digest_of(input@[k].0)
                        && inner@[k].1 == input@[k].1,
                forall|k: int|
                    0 <= k < i ==> fr_ok((#[trigger] inner@[k]).0@) && inner@[k].0@.len() == 32,
            decreases input@.len() - i,
        {
            let (e, c) = input[i];
            inner.push((fr_digest(e), c));
            i += 1;
        }
        let r = DigestSet { inner };
        proof {
            assert(r.pairs() =~= Seq::new(
                input@.len(),
                |i: int| (fr_digest_of(input@[i].0), input@[i].1),
            ));
        }
        r
    }

    /// Builds the set from raw small field values with multiplicities.
    pub fn from_u64_counts(input: &Vec<(u64, u32)>) -> (r: Self)
        ensures
            r.pairs() == Seq::new(input@.len(), |i: int| (fr_of_u64(input@[i].0), input@[i].1)),
    {
        let mut inner: Vec<(Vec<u8>, u32)> = Vec::new();
        let mut i: usize = 0;
        while i < input.len()
            invariant
                0 <= i <= input@.len(),
                inner@.len() == i,
                forall|k: int|
                    0 <= k < i ==> (#[trigger] inner@[k]).0@ == fr_of_u64(input@[k].0)
                        && inner@[k].1 == input@[k].1,
                forall|k: int|
                    0 <= k < i ==> fr_ok((#[trigger] inner@[k]).0@) && inner@[k].0@.len() == 32,
            decreases input@.len() - i,
        {
            let (x, c) = input[i];
            inner.push((fr_from_u64(x), c));
            i += 1;
        }
        let r = DigestSet { inner };
        proof {
            assert(r.pairs() =~= Seq::new(
                input@.len(),
                |i: int| (fr_of_u64(input@[i].0), input@[i].1),
            ));
        }
        r
    }

    /// The monic polynomial whose roots are the set's digests, one root per
    /// occurrence.
    pub fn expand_to_poly(&self) -> (r: Vec<Vec<u8>>)
        ensures
            pv(r@) == roots_poly_of(repeat_pairs(self.pairs())),
            poly_wf(pv(r@)),
    {
        proof {
            use_type_invariant(self);
        }
        let mut roots: Vec<Vec<u8>> = Vec::new();
        let mut i: usize = 0;
        proof {
            assert(pv(roots@) =~= repeat_pairs(self.pairs().take(0)));
        }
        while i < self.inner.len()
            invariant
                self.wf(),
                0 <= i <= self.inner@.len(),
                pv(roots@) == repeat_pairs(self.pairs().take(i as int)),
                poly_wf(pv(roots@)),
            decreases self.inner@.len() - i,
        {
            let c = self.inner[i].1;
            let mut j: u32 = 0;
            while j < c
                invariant
                    self.wf(),
                    0 <= i < self.inner@.len(),
                    0 <= j <= c,
                    c == self.inner@[i as int].1,
                    pv(roots@) == repeat_pairs(self.pairs().take(i as int)) + Seq::new(
                        j as nat,
                        |k: int| self.pairs()[i as int].0,
                    ),
                    poly_wf(pv(roots@)),
                decreases c - j,
            {
                let ghost before = pv(roots@);
                assert(fr_ok(self.inner@[i as int].0@));
                roots.push(scalar_clone(&self.inner[i].0));
                proof {
                    assert(pv(roots@) =~= before.push(self.pairs()[i as int].0));
                    assert(pv(roots@) =~= repeat_pairs(self.pairs().take(i as int)) + Seq::new(
                        (j + 1) as nat,
                        |k: int| self.pairs()[i as int].0,
                    ));
                    assert(poly_wf(pv(roots@)));
                }
                j += 1;
            }
            proof {
                assert(self.pairs().take(i + 1).drop_last() =~= self.pairs().take(i as int));
                assert(self.pairs().take(i + 1).last() == self.pairs()[i as int]);
                assert(pv(roots@) =~= repeat_pairs(self.pairs().take(i + 1)));
            }
            i += 1;
        }
        proof {
            assert(self.pairs().take(self.inner@.len() as int) =~= self.pairs());
        }
        poly_from_roots(&roots)
    }
}

} // verus!
