//! The scalar-field and curve layer of the accumulator.
//!
//! Field elements of the BLS12-381 scalar field and points of its G1 and G2
//! groups are carried as their canonical byte encodings (32 bytes for a
//! scalar, 96 and 192 bytes for an uncompressed point).  Every operation on
//! them is an outside call; each wrapper names its result, so that the
//! verified code above can speak of the encodings it passes around.
use vstd::prelude::*;

use ark_bls12_381::{Bls12_381, Fr, G1Affine, G2Affine};
use ark_ec::{AffineCurve, PairingEngine, ProjectiveCurve};
use ark_ff::{Field, PrimeField};
use ark_serialize::{CanonicalDeserialize, CanonicalSerialize};
use sha2::Digest;

verus! {

/// Holds of a byte sequence that canonically encodes a scalar-field element.
pub uninterp spec fn fr_ok(b: Seq<u8>) -> bool;

/// The canonical encoding of the scalar-field element with the given value.
pub uninterp spec fn fr_of_u64(x: u64) -> Seq<u8>;

/// The encoding of the sum of the two encoded elements.
pub uninterp spec fn fr_add_of(a: Seq<u8>, b: Seq<u8>) -> Seq<u8>;

/// The encoding of the difference of the two encoded elements.
pub uninterp spec fn fr_sub_of(a: Seq<u8>, b: Seq<u8>) -> Seq<u8>;

/// The encoding of the product of the two encoded elements.
pub uninterp spec fn fr_mul_of(a: Seq<u8>, b: Seq<u8>) -> Seq<u8>;

/// The encoding of the additive inverse of the encoded element.
pub uninterp spec fn fr_neg_of(a: Seq<u8>) -> Seq<u8>;

/// The encoding of the multiplicative inverse of the encoded element.
pub uninterp spec fn fr_inv_of(a: Seq<u8>) -> Seq<u8>;

/// The field digest of an application element: SHA-256 of its little-endian
/// bytes, reduced into the scalar field, canonically encoded.
pub uninterp spec fn fr_digest_of(e: i64) -> Seq<u8>;

/// Holds of a byte sequence that ark's uncompressed G1 reader accepts: the
/// bytes decode to a prime-subgroup point.  The reader tolerates either
/// state of the sign-flag bit, so two byte strings that differ only there
/// both satisfy this and decode to the same point.
pub uninterp spec fn g1_ok(b: Seq<u8>) -> bool;

/// Holds of the one byte sequence that ark's uncompressed G1 writer itself
/// produces for a point: the canonical encoding.  Unlike `g1_ok`, at most
/// one byte string per point satisfies this, which is what lets the scalar
/// operations below promise byte-level round trips.
pub uninterp spec fn g1_canon(b: Seq<u8>) -> bool;

/// The uncompressed encoding of the G1 generator raised to the encoded scalar.
pub uninterp spec fn g1_gen_pow_of(k: Seq<u8>) -> Seq<u8>;

/// The uncompressed encoding of the encoded G1 point raised to the encoded scalar.
pub uninterp spec fn g1_mul_of(p: Seq<u8>, k: Seq<u8>) -> Seq<u8>;

/// The uncompressed encoding of the G2 generator raised to the encoded scalar.
pub uninterp spec fn g2_gen_pow_of(k: Seq<u8>) -> Seq<u8>;

/// The SHA-256 digest of a byte sequence.
pub uninterp spec fn sha256_of(data: Seq<u8>) -> Seq<u8>;

/// The outcome of the pairing equation `e(scaled, g2) == e(base, g2^(s-h(e)))`,
/// where `s` is the encoded setup scalar and `h` the field digest.
pub uninterp spec fn update_pair_check_of(s: Seq<u8>, base: Seq<u8>, scaled: Seq<u8>, e: i64) -> bool;

/// The outcome of the non-membership pairing equation
/// `e(acc, g2b) * e(g1a, g2^(s-h(e))) == e(g1, g2)`.
pub uninterp spec fn nonmem_pair_check_of(s: Seq<u8>, acc: Seq<u8>, g1a: Seq<u8>, g2b: Seq<u8>, e: i64) -> bool;

/// The outcome of the pairing equation `e(p, g2) == e(q, r)`, for G1
/// encodings `p`, `q` and a G2 encoding `r`.
pub uninterp spec fn pair_vs_gen_of(p: Seq<u8>, q: Seq<u8>, r: Seq<u8>) -> bool;

/// The outcome of the pairing equation `e(ca, wa) * e(cb, wb) == e(g1, g2)`.
pub uninterp spec fn pair_product_of(ca: Seq<u8>, wa: Seq<u8>, cb: Seq<u8>, wb: Seq<u8>) -> bool;

/// The three intersection pairing equations: `e(acc1, g2) == e(acci, wa)`,
/// `e(acc2, g2) == e(acci, wb)` and `e(ca, wa) * e(cb, wb) == e(g1, g2)`.
pub open spec fn inter_pair_check_of(
    acc1: Seq<u8>,
    acc2: Seq<u8>,
    acci: Seq<u8>,
    wa: Seq<u8>,
    wb: Seq<u8>,
    ca: Seq<u8>,
    cb: Seq<u8>,
) -> bool {
    &&& pair_vs_gen_of(acc1, acci, wa)
    &&& pair_vs_gen_of(acc2, acci, wb)
    &&& pair_product_of(ca, wa, cb, wb)
}

/// Whether the four encoded G1 points satisfy `a + b == c + d` in the group.
pub uninterp spec fn g1_sum_eq_of(a: Seq<u8>, b: Seq<u8>, c: Seq<u8>, d: Seq<u8>) -> bool;

/// Relies on ark_ff's `Fr::from` and ark_serialize's canonical encoding: the
/// encoding of the field element with the given value.  Distinct arguments
/// give distinct elements, as the field modulus exceeds `u64::MAX`, and
/// distinct elements have distinct canonical encodings.
#[verifier::external_body]
pub(crate) fn fr_from_u64(x: u64) -> (r: Vec<u8>)
    ensures
        r@ == fr_of_u64(x),
        fr_ok(r@),
        r@.len() == 32,
        forall|y: u64| y != x ==> fr_of_u64(y) != r@,
{
    let f = ark_bls12_381::Fr::from(x);
    let mut out = Vec::new();
    f.serialize(&mut out).unwrap();
    out
}

/// Relies on ark_ff field addition on the BLS12-381 scalar field: decodes the
/// two elements, adds them, and re-encodes the sum.
#[verifier::external_body]
pub(crate) fn fr_add(a: &Vec<u8>, b: &Vec<u8>) -> (r: Vec<u8>)
    requires
        fr_ok(a@),
        fr_ok(b@),
    ensures
        r@ == fr_add_of(a@, b@),
        fr_ok(r@),
        r@.len() == 32,
{
    let x = ark_bls12_381::Fr::deserialize(&a[..]).unwrap();
    let y = ark_bls12_381::Fr::deserialize(&b[..]).unwrap();
    let mut out = Vec::new();
    (x + y).serialize(&mut out).unwrap();
    out
}

/// Relies on ark_ff field subtraction on the BLS12-381 scalar field.
#[verifier::external_body]
pub(crate) fn fr_sub(a: &Vec<u8>, b: &Vec<u8>) -> (r: Vec<u8>)
    requires
        fr_ok(a@),
        fr_ok(b@),
    ensures
        r@ == fr_sub_of(a@, b@),
        fr_ok(r@),
        r@.len() == 32,
{
    let x = ark_bls12_381::Fr::deserialize(&a[..]).unwrap();
    let y = ark_bls12_381::Fr::deserialize(&b[..]).unwrap();
    let mut out = Vec::new();
    (x - y).serialize(&mut out).unwrap();
    out
}

/// Relies on ark_ff field multiplication on the BLS12-381 scalar field.
#[verifier::external_body]
pub(crate) fn fr_mul(a: &Vec<u8>, b: &Vec<u8>) -> (r: Vec<u8>)
    requires
        fr_ok(a@),
        fr_ok(b@),
    ensures
        r@ == fr_mul_of(a@, b@),
        fr_ok(r@),
        r@.len() == 32,
{
    let x = ark_bls12_381::Fr::deserialize(&a[..]).unwrap();
    let y = ark_bls12_381::Fr::deserialize(&b[..]).unwrap();
    let mut out = Vec::new();
    (x * y).serialize(&mut out).unwrap();
    out
}

/// Relies on ark_ff field negation on the BLS12-381 scalar field.
#[verifier::external_body]
pub(crate) fn fr_neg(a: &Vec<u8>) -> (r: Vec<u8>)
    requires
        fr_ok(a@),
    ensures
        r@ == fr_neg_of(a@),
        fr_ok(r@),
        r@.len() == 32,
{
    let x = ark_bls12_381::Fr::deserialize(&a[..]).unwrap();
    let mut out = Vec::new();
    (-x).serialize(&mut out).unwrap();
    out
}

/// Relies on ark_ff's `Field::inverse`: the inverse exists exactly for the
/// nonzero element, and multiplying an element by its inverse gives one.
#[verifier::external_body]
pub(crate) fn fr_inv(a: &Vec<u8>) -> (r: Option<Vec<u8>>)
    requires
        fr_ok(a@),
    ensures
        r is Some <==> a@ != fr_of_u64(0),
        r is Some ==> r->Some_0@ == fr_inv_of(a@) && fr_ok(r->Some_0@) && r->Some_0@.len() == 32,
        r is Some ==> fr_mul_of(a@, fr_inv_of(a@)) == fr_of_u64(1),
{
    let x = ark_bls12_381::Fr::deserialize(&a[..]).unwrap();
    match x.inverse() {
        Some(y) => {
            let mut out = Vec::new();
            y.serialize(&mut out).unwrap();
            Some(out)
        }
        None => None,
    }
}

/// Relies on sha2's SHA-256 and ark_ff's `from_le_bytes_mod_order`: hashes the
/// element's little-endian bytes and reduces the digest into the scalar field.
#[verifier::external_body]
pub(crate) fn fr_digest(e: i64) -> (r: Vec<u8>)
    ensures
        r@ == fr_digest_of(e),
        fr_ok(r@),
        r@.len() == 32,
{
    let d = sha2::Sha256::digest(&e.to_le_bytes());
    let f = ark_bls12_381::Fr::from_le_bytes_mod_order(&d);
    let mut out = Vec::new();
    f.serialize(&mut out).unwrap();
    out
}

/// Relies on ark_ec scalar multiplication of the G1 generator and
/// ark_serialize's uncompressed encoding; the result is the writer's own
/// (canonical) encoding.
#[verifier::external_body]
pub(crate) fn g1_gen_mul(k: &Vec<u8>) -> (r: Vec<u8>)
    requires
        fr_ok(k@),
    ensures
        r@ == g1_gen_pow_of(k@),
        g1_ok(r@),
        g1_canon(r@),
        r@.len() == 96,
{
    let s = ark_bls12_381::Fr::deserialize(&k[..]).unwrap();
    let p = ark_bls12_381::G1Affine::prime_subgroup_generator()
        .mul(s.into_repr())
        .into_affine();
    let mut out = Vec::new();
    p.serialize_uncompressed(&mut out).unwrap();
    out
}

/// Relies on ark_ec scalar multiplication of the G2 generator and
/// ark_serialize's uncompressed encoding.
#[verifier::external_body]
pub(crate) fn g2_gen_mul(k: &Vec<u8>) -> (r: Vec<u8>)
    requires
        fr_ok(k@),
    ensures
        r@ == g2_gen_pow_of(k@),
        r@.len() == 192,
{
    let s = ark_bls12_381::Fr::deserialize(&k[..]).unwrap();
    let p = ark_bls12_381::G2Affine::prime_subgroup_generator()
        .mul(s.into_repr())
        .into_affine();
    let mut out = Vec::new();
    p.serialize_uncompressed(&mut out).unwrap();
    out
}

/// Relies on ark_ec scalar multiplication in G1, on a canonically encoded
/// point.  The result is again a canonical encoding, and because G1 has
/// prime order, scaling by a nonzero scalar is undone by scaling by its
/// inverse — byte-exactly, which is why the input must be canonical: the
/// reader also accepts sign-flag variants that re-serialize differently.
#[verifier::external_body]
pub(crate) fn g1_mul(p: &Vec<u8>, k: &Vec<u8>) -> (r: Vec<u8>)
    requires
        g1_canon(p@),
        fr_ok(k@),
    ensures
        r@ == g1_mul_of(p@, k@),
        g1_ok(r@),
        g1_canon(r@),
        r@.len() == 96,
        k@ != fr_of_u64(0) ==> g1_mul_of(r@, fr_inv_of(k@)) == p@,
{
    let a = ark_bls12_381::G1Affine::deserialize_uncompressed(&p[..]).unwrap();
    let s = ark_bls12_381::Fr::deserialize(&k[..]).unwrap();
    let q = a.into_projective().mul(s.into_repr()).into_affine();
    let mut out = Vec::new();
    q.serialize_uncompressed(&mut out).unwrap();
    out
}

/// Relies on sha2's SHA-256.
#[verifier::external_body]
pub(crate) fn sha256(data: &Vec<u8>) -> (r: Vec<u8>)
    ensures
        r@ == sha256_of(data@),
        r@.len() == 32,
{
    let d = sha2::Sha256::digest(&data[..]);
    d.to_vec()
}

/// Relies on ark_ec's pairing on BLS12-381: evaluates
/// `e(scaled, g2) == e(base, g2^(s-h(e)))` and reports the outcome.  Byte
/// sequences that do not decode as points make the check fail.  The pairing
/// is bilinear, so the check passes when `scaled` is `base` raised to
/// `s-h(e)`, and when `base` is `scaled` raised to that scalar's inverse:
/// both sides then evaluate to the same pairing value.
#[verifier::external_body]
pub(crate) fn update_pair_check(s: &Vec<u8>, base: &Vec<u8>, scaled: &Vec<u8>, e: i64) -> (r: bool)
    requires
        fr_ok(s@),
    ensures
        r == update_pair_check_of(s@, base@, scaled@, e),
        g1_ok(base@) && scaled@ == g1_mul_of(base@, fr_sub_of(s@, fr_digest_of(e))) ==> r,
        g1_ok(scaled@) && fr_sub_of(s@, fr_digest_of(e)) != fr_of_u64(0) && base@ == g1_mul_of(
            scaled@,
            fr_inv_of(fr_sub_of(s@, fr_digest_of(e))),
        ) ==> r,
{
    let fs = Fr::deserialize(&s[..]).unwrap();
    let Ok(pb) = G1Affine::deserialize_uncompressed(&base[..]) else { return false };
    let Ok(ps) = G1Affine::deserialize_uncompressed(&scaled[..]) else { return false };
    let d = Fr::from_le_bytes_mod_order(&sha2::Sha256::digest(&e.to_le_bytes()));
    let g2 = G2Affine::prime_subgroup_generator();
    let g2e = g2.mul((fs - d).into_repr()).into_affine();
    Bls12_381::pairing(ps, g2) == Bls12_381::pairing(pb, g2e)
}

/// Relies on ark_ec's pairing on BLS12-381: evaluates
/// `e(acc, g2b) * e(g1a, g2^(s-h(e))) == e(g1, g2)` and reports the outcome.
/// Byte sequences that do not decode as points make the check fail.
#[verifier::external_body]
pub(crate) fn nonmem_pair_check(s: &Vec<u8>, acc: &Vec<u8>, g1a: &Vec<u8>, g2b: &Vec<u8>, e: i64) -> (r: bool)
    requires
        fr_ok(s@),
    ensures
        r == nonmem_pair_check_of(s@, acc@, g1a@, g2b@, e),
{
    let fs = Fr::deserialize(&s[..]).unwrap();
    let Ok(pa) = G1Affine::deserialize_uncompressed(&acc[..]) else { return false };
    let Ok(pga) = G1Affine::deserialize_uncompressed(&g1a[..]) else { return false };
    let Ok(pgb) = G2Affine::deserialize_uncompressed(&g2b[..]) else { return false };
    let d = Fr::from_le_bytes_mod_order(&sha2::Sha256::digest(&e.to_le_bytes()));
    let g2 = G2Affine::prime_subgroup_generator();
    let g2e = g2.mul((fs - d).into_repr()).into_affine();
    let lhs = Bls12_381::pairing(pa, pgb) * Bls12_381::pairing(pga, g2e);
    lhs == Bls12_381::pairing(G1Affine::prime_subgroup_generator(), g2)
}

/// Relies on ark_ec's pairing on BLS12-381: evaluates
/// `e(p, g2) == e(q, r)` and reports the outcome.  Byte sequences that do
/// not decode as points make the check fail.
#[verifier::external_body]
pub(crate) fn pair_vs_gen(p: &Vec<u8>, q: &Vec<u8>, r: &Vec<u8>) -> (out: bool)
    ensures
        out == pair_vs_gen_of(p@, q@, r@),
{
    let Ok(pp) = G1Affine::deserialize_uncompressed(&p[..]) else { return false };
    let Ok(qq) = G1Affine::deserialize_uncompressed(&q[..]) else { return false };
    let Ok(rr) = G2Affine::deserialize_uncompressed(&r[..]) else { return false };
    Bls12_381::pairing(pp, G2Affine::prime_subgroup_generator()) == Bls12_381::pairing(qq, rr)
}

/// Relies on ark_ec's pairing on BLS12-381: evaluates
/// `e(ca, wa) * e(cb, wb) == e(g1, g2)` and reports the outcome.  Byte
/// sequences that do not decode as points make the check fail.
#[verifier::external_body]
pub(crate) fn pair_product_check(ca: &Vec<u8>, wa: &Vec<u8>, cb: &Vec<u8>, wb: &Vec<u8>) -> (out: bool)
    ensures
        out == pair_product_of(ca@, wa@, cb@, wb@),
{
    let Ok(a) = G1Affine::deserialize_uncompressed(&ca[..]) else { return false };
    let Ok(x) = G2Affine::deserialize_uncompressed(&wa[..]) else { return false };
    let Ok(b) = G1Affine::deserialize_uncompressed(&cb[..]) else { return false };
    let Ok(y) = G2Affine::deserialize_uncompressed(&wb[..]) else { return false };
    let rhs = Bls12_381::pairing(G1Affine::prime_subgroup_generator(), G2Affine::prime_subgroup_generator());
    Bls12_381::pairing(a, x) * Bls12_381::pairing(b, y) == rhs
}

/// Relies on ark_ec point addition in G1: whether `a + b == c + d` holds of
/// the four decoded points.  Byte sequences that do not decode as points make
/// the check fail.
#[verifier::external_body]
pub(crate) fn g1_sum_check(a: &Vec<u8>, b: &Vec<u8>, c: &Vec<u8>, d: &Vec<u8>) -> (r: bool)
    ensures
        r == g1_sum_eq_of(a@, b@, c@, d@),
{
    let Ok(pa) = G1Affine::deserialize_uncompressed(&a[..]) else { return false };
    let Ok(pb) = G1Affine::deserialize_uncompressed(&b[..]) else { return false };
    let Ok(pc) = G1Affine::deserialize_uncompressed(&c[..]) else { return false };
    let Ok(pd) = G1Affine::deserialize_uncompressed(&d[..]) else { return false };
    pa.into_projective() + pb.into_projective() == pc.into_projective() + pd.into_projective()
}

/// The canonical encoding of the scalar with the given small value.
pub fn scalar_from_u64(x: u64) -> (r: Vec<u8>)
    ensures
        r@ == fr_of_u64(x),
{
    fr_from_u64(x)
}

/// The canonical encoding of the negation of the scalar with the given small
/// value.
pub fn scalar_neg_from_u64(x: u64) -> (r: Vec<u8>)
    ensures
        r@ == fr_neg_of(fr_of_u64(x)),
{
    fr_neg(&fr_from_u64(x))
}

/// Whether ark's uncompressed G1 reader accepts the bytes.
/// Relies on ark_serialize's `deserialize_uncompressed`: it reads the two
/// coordinates, checks prime-subgroup membership, and tolerates either
/// state of the sign-flag bit — it does not re-check the curve equation,
/// and it accepts the flag-variant encodings beside the canonical one.
#[verifier::external_body]
pub(crate) fn g1_check(b: &Vec<u8>) -> (r: bool)
    ensures
        r == g1_ok(b@),
{
    ark_bls12_381::G1Affine::deserialize_uncompressed(&b[..]).is_ok()
}

} // verus!
