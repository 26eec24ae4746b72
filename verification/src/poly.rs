//! Dense univariate polynomials over the accumulator's scalar field.
//!
//! A polynomial is a vector of canonically encoded field elements, lowest
//! degree first.  The field itself is outside code (see `field`), so every
//! contract here pins the result as the exact composition of the named field
//! operations that the body performs: multiplication, division with
//! remainder, extended GCD, evaluation and the product of linear factors.
use vstd::prelude::*;

use crate::field::{
    fr_add, fr_add_of, fr_from_u64, fr_inv, fr_inv_of, fr_mul, fr_mul_of, fr_neg, fr_neg_of,
    fr_of_u64, fr_ok, fr_sub, fr_sub_of,
};

verus! {

/// The coefficient sequences of a vector of encoded coefficients.
pub open spec fn pv(p: Seq<Vec<u8>>) -> Seq<Seq<u8>> {
    Seq::new(p.len(), |i: int| p[i]@)
}

/// The encoding of the zero scalar.
pub open spec fn frz() -> Seq<u8> {
    fr_of_u64(0)
}

/// Every coefficient is a canonical 32-byte scalar encoding.
pub open spec fn poly_wf(p: Seq<Seq<u8>>) -> bool {
    forall|i: int| 0 <= i < p.len() ==> fr_ok(#[trigger] p[i]) && p[i].len() == 32
}

/// No trailing zero coefficient; the empty sequence is the zero polynomial.
pub open spec fn poly_trimmed(p: Seq<Seq<u8>>) -> bool {
    p.len() == 0 || p[p.len() - 1] != frz()
}

/// The coefficient at `k`, reading absent positions as zero.
pub open spec fn pad_at(p: Seq<Seq<u8>>, k: int) -> Seq<u8> {
    if 0 <= k < p.len() {
        p[k]
    } else {
        frz()
    }
}

/// Pointwise difference, up to the longer of the two lengths.
pub open spec fn poly_sub_of(a: Seq<Seq<u8>>, b: Seq<Seq<u8>>) -> Seq<Seq<u8>> {
    Seq::new(
        if a.len() >= b.len() {
            a.len()
        } else {
            b.len()
        },
        |k: int| fr_sub_of(pad_at(a, k), pad_at(b, k)),
    )
}

/// The sequence with its trailing zero coefficients removed.
pub open spec fn trim_of(p: Seq<Seq<u8>>) -> Seq<Seq<u8>>
    decreases p.len(),
{
    if p.len() == 0 {
        p
    } else if p[p.len() - 1] == frz() {
        trim_of(p.drop_last())
    } else {
        p
    }
}

pub proof fn lemma_trim(p: Seq<Seq<u8>>)
    ensures
        trim_of(p).len() <= p.len(),
        poly_trimmed(trim_of(p)),
        poly_wf(p) ==> poly_wf(trim_of(p)),
    decreases p.len(),
{
    if p.len() > 0 && p[p.len() - 1] == frz() {
        lemma_trim(p.drop_last());
        assert(forall|i: int| 0 <= i < p.drop_last().len() ==> p.drop_last()[i] == p[i]);
    }
}

/// `n` zero coefficients.
pub open spec fn zeros_of(n: int) -> Seq<Seq<u8>> {
    Seq::new(
        if n >= 0 {
            n as nat
        } else {
            0
        },
        |k: int| frz(),
    )
}

/// The state of the product accumulation after the first `j` updates of row
/// `i`: each update `j` adds `a[i] * b[j]` into cell `i + j`.
pub open spec fn pm_row(
    a: Seq<Seq<u8>>,
    b: Seq<Seq<u8>>,
    i: int,
    j: int,
    acc: Seq<Seq<u8>>,
) -> Seq<Seq<u8>>
    decreases j,
{
    if j <= 0 {
        acc
    } else {
        let prev = pm_row(a, b, i, j - 1, acc);
        prev.update(i + (j - 1), fr_add_of(prev[i + (j - 1)], fr_mul_of(a[i], b[j - 1])))
    }
}

/// The state of the product accumulation after the first `i` rows.
pub open spec fn pm_rows(a: Seq<Seq<u8>>, b: Seq<Seq<u8>>, i: int) -> Seq<Seq<u8>>
    decreases i,
{
    if i <= 0 {
        zeros_of(a.len() + b.len() - 1)
    } else {
        pm_row(a, b, i - 1, b.len() as int, pm_rows(a, b, i - 1))
    }
}

/// The product of the two polynomials, as the row-by-row accumulation of
/// `a[i] * b[j]` into cell `i + j`.  Empty when either factor is empty, or
/// when the result could not be held in a vector on this machine.
pub open spec fn poly_mul_of(a: Seq<Seq<u8>>, b: Seq<Seq<u8>>) -> Seq<Seq<u8>> {
    if a.len() == 0 || b.len() == 0 || a.len() + b.len() > usize::MAX {
        Seq::empty()
    } else {
        pm_rows(a, b, a.len() as int)
    }
}

/// The monic linear polynomial `X - d`.
pub open spec fn linear_of(d: Seq<u8>) -> Seq<Seq<u8>> {
    seq![fr_neg_of(d), fr_of_u64(1)]
}

/// The product of the linear factors `X - ds[0]`, ..., taken left to right.
pub open spec fn roots_poly_of(ds: Seq<Seq<u8>>) -> Seq<Seq<u8>>
    decreases ds.len(),
{
    if ds.len() == 0 {
        seq![fr_of_u64(1)]
    } else {
        poly_mul_of(roots_poly_of(ds.drop_last()), linear_of(ds.last()))
    }
}

/// Horner evaluation restricted to the coefficients at positions `k` and above.
pub open spec fn horner_of(p: Seq<Seq<u8>>, x: Seq<u8>, k: int) -> Seq<u8>
    decreases p.len() - k,
{
    if k < 0 || k >= p.len() {
        frz()
    } else {
        fr_add_of(fr_mul_of(horner_of(p, x, k + 1), x), p[k])
    }
}

/// The value of the polynomial at `x`, by Horner's rule.
pub open spec fn poly_eval_of(p: Seq<Seq<u8>>, x: Seq<u8>) -> Seq<u8> {
    horner_of(p, x, 0)
}

/// Every coefficient multiplied by `c`.
pub open spec fn poly_scale_of(p: Seq<Seq<u8>>, c: Seq<u8>) -> Seq<Seq<u8>> {
    Seq::new(p.len(), |k: int| fr_mul_of(p[k], c))
}

/// One elimination row of the synthetic division: the first `j` updates that
/// subtract `f * b[j]` from cell `k + j` of the remainder.
pub open spec fn dm_row(
    rem: Seq<Seq<u8>>,
    b: Seq<Seq<u8>>,
    f: Seq<u8>,
    k: int,
    j: int,
) -> Seq<Seq<u8>>
    decreases j,
{
    if j <= 0 {
        rem
    } else {
        let prev = dm_row(rem, b, f, k, j - 1);
        prev.update(k + (j - 1), fr_sub_of(prev[k + (j - 1)], fr_mul_of(f, b[j - 1])))
    }
}

/// The remainder and quotient after the first `t` outer steps of the
/// synthetic division; step `t` eliminates position `a.len() - b.len() + 1 - t`.
pub open spec fn dm_state(a: Seq<Seq<u8>>, b: Seq<Seq<u8>>, li: Seq<u8>, t: int) -> (Seq<Seq<u8>>,
    Seq<Seq<u8>>)
    decreases t,
{
    if t <= 0 {
        (a, zeros_of(a.len() - b.len() + 1))
    } else {
        let prev = dm_state(a, b, li, t - 1);
        let k = a.len() - b.len() + 1 - t;
        let f = fr_mul_of(prev.0[b.len() - 1 + k], li);
        (dm_row(prev.0, b, f, k, b.len() as int), prev.1.update(k, f))
    }
}

/// Quotient and remainder of the division of `a` by `b` (`b` trimmed,
/// nonzero), by synthetic division with the inverse of `b`'s leading
/// coefficient; the remainder keeps the positions below `b`'s degree, trimmed.
pub open spec fn divmod_of(a: Seq<Seq<u8>>, b: Seq<Seq<u8>>) -> (Seq<Seq<u8>>, Seq<Seq<u8>>) {
    if a.len() < b.len() {
        (Seq::empty(), trim_of(a))
    } else {
        let li = fr_inv_of(b[b.len() - 1]);
        let fin = dm_state(a, b, li, a.len() - b.len() + 1);
        (fin.1, trim_of(fin.0.take(b.len() - 1)))
    }
}

proof fn lemma_dm_row_len(rem: Seq<Seq<u8>>, b: Seq<Seq<u8>>, f: Seq<u8>, k: int, j: int)
    requires
        0 <= k,
        j <= b.len(),
        k + b.len() <= rem.len(),
    ensures
        dm_row(rem, b, f, k, j).len() == rem.len(),
    decreases j,
{
    if j > 0 {
        lemma_dm_row_len(rem, b, f, k, j - 1);
        let prev = dm_row(rem, b, f, k, j - 1);
        assert(prev.update(k + (j - 1), fr_sub_of(prev[k + (j - 1)], fr_mul_of(f, b[j - 1]))).len()
            == prev.len());
    }
}

proof fn lemma_dm_state_len(a: Seq<Seq<u8>>, b: Seq<Seq<u8>>, li: Seq<u8>, t: int)
    requires
        a.len() >= b.len(),
        b.len() >= 1,
        t <= a.len() - b.len() + 1,
    ensures
        dm_state(a, b, li, t).0.len() == a.len(),
        dm_state(a, b, li, t).1.len() == a.len() - b.len() + 1,
    decreases t,
{
    if t > 0 {
        lemma_dm_state_len(a, b, li, t - 1);
        let prev = dm_state(a, b, li, t - 1);
        let k = a.len() - b.len() + 1 - t;
        let f = fr_mul_of(prev.0[b.len() - 1 + k], li);
        lemma_dm_row_len(prev.0, b, f, k, b.len() as int);
    }
}

/// The remainder of a division has fewer coefficients than the divisor.
pub proof fn lemma_divmod_rem_len(a: Seq<Seq<u8>>, b: Seq<Seq<u8>>)
    requires
        b.len() >= 1,
    ensures
        divmod_of(a, b).1.len() < b.len(),
        poly_trimmed(divmod_of(a, b).1),
{
    if a.len() < b.len() {
        lemma_trim(a);
    } else {
        let li = fr_inv_of(b[b.len() - 1]);
        let fin = dm_state(a, b, li, a.len() - b.len() + 1);
        lemma_dm_state_len(a, b, li, a.len() - b.len() + 1);
        lemma_trim(fin.0.take(b.len() - 1));
    }
}

/// The extended-GCD state step: runs the Euclidean recursion on the pair of
/// remainders while carrying the two Bezout coefficient pairs, and returns
/// the final `(g, u, v)`.
pub open spec fn xgcd_state(
    r0: Seq<Seq<u8>>,
    r1: Seq<Seq<u8>>,
    s0: Seq<Seq<u8>>,
    s1: Seq<Seq<u8>>,
    t0: Seq<Seq<u8>>,
    t1: Seq<Seq<u8>>,
    fuel: nat,
) -> (Seq<Seq<u8>>, Seq<Seq<u8>>, Seq<Seq<u8>>)
    decreases fuel,
{
    if r1.len() == 0 || fuel == 0 {
        (r0, s0, t0)
    } else {
        let q = divmod_of(r0, r1).0;
        let r2 = divmod_of(r0, r1).1;
        xgcd_state(
            r1,
            r2,
            s1,
            poly_sub_of(s0, poly_mul_of(q, s1)),
            t1,
            poly_sub_of(t0, poly_mul_of(q, t1)),
            (fuel - 1) as nat,
        )
    }
}

/// The extended GCD of the two (trimmed) polynomials: `(g, u, v)` as computed
/// by the Euclidean recursion seeded with `u = 1, v = 0` on `a`.
pub open spec fn xgcd_of(a: Seq<Seq<u8>>, b: Seq<Seq<u8>>) -> (Seq<Seq<u8>>, Seq<Seq<u8>>, Seq<
    Seq<u8>,
>) {
    xgcd_state(a, b, seq![fr_of_u64(1)], Seq::empty(), Seq::empty(), seq![fr_of_u64(1)], b.len())
}

/// Reports whether the two byte vectors hold the same bytes.
pub(crate) fn bytes_eq(a: &Vec<u8>, b: &Vec<u8>) -> (r: bool)
    ensures
        r == (a@ == b@),
{
    if a.len() != b.len() {
        assert(a@ != b@);
        return false;
    }
    let n = a.len();
    let mut i: usize = 0;
    while i < n
        invariant
            n == a.len() == b.len(),
            0 <= i <= n,
            forall|k: int| 0 <= k < i ==> a@[k] == b@[k],
        decreases n - i,
    {
        if a[i] != b[i] {
            assert(a@ != b@);
            return false;
        }
        i += 1;
    }
    proof {
        assert(a@ =~= b@);
    }
    true
}

/// Copies one coefficient.
pub(crate) fn scalar_clone(c: &Vec<u8>) -> (r: Vec<u8>)
    ensures
        r@ == c@,
{
    let mut out: Vec<u8> = Vec::new();
    out.extend_from_slice(c.as_slice());
    assert(out@ =~= c@);
    out
}

/// Copies a coefficient vector.
pub(crate) fn poly_clone(p: &Vec<Vec<u8>>) -> (r: Vec<Vec<u8>>)
    ensures
        pv(r@) == pv(p@),
        r@.len() == p@.len(),
{
    let mut out: Vec<Vec<u8>> = Vec::new();
    let mut i: usize = 0;
    while i < p.len()
        invariant
            0 <= i <= p.len(),
            out@.len() == i,
            forall|k: int| 0 <= k < i ==> out@[k]@ == #[trigger] p@[k]@,
        decreases p.len() - i,
    {
        out.push(scalar_clone(&p[i]));
        i += 1;
    }
    proof {
        assert(pv(out@) =~= pv(p@));
    }
    out
}

/// Removes trailing zero coefficients.
pub(crate) fn poly_trim(p: &mut Vec<Vec<u8>>)
    ensures
        pv(final(p)@) == trim_of(pv(old(p)@)),
{
    let zero = fr_from_u64(0);
    loop
        invariant
            zero@ == frz(),
            trim_of(pv(p@)) == trim_of(pv(old(p)@)),
        ensures
            pv(p@) == trim_of(pv(old(p)@)),
        decreases p.len(),
    {
        let n = p.len();
        if n == 0 {
            assert(trim_of(pv(p@)) == pv(p@));
            break;
        }
        if bytes_eq(&p[n - 1], &zero) {
            assert(pv(p@)[n - 1] == frz());
            let ghost before = pv(p@);
            let _ = p.pop();
            proof {
                assert(pv(p@) =~= before.drop_last());
            }
        } else {
            assert(pv(p@)[n - 1] != frz());
            assert(trim_of(pv(p@)) == pv(p@));
            break;
        }
    }
}

/// Pointwise difference of two coefficient vectors.
pub(crate) fn poly_sub(a: &Vec<Vec<u8>>, b: &Vec<Vec<u8>>) -> (r: Vec<Vec<u8>>)
    requires
        poly_wf(pv(a@)),
        poly_wf(pv(b@)),
    ensures
        pv(r@) == poly_sub_of(pv(a@), pv(b@)),
        poly_wf(pv(r@)),
{
    let ghost av = pv(a@);
    let ghost bv = pv(b@);
    let zero = fr_from_u64(0);
    let n = if a.len() >= b.len() {
        a.len()
    } else {
        b.len()
    };
    let mut out: Vec<Vec<u8>> = Vec::new();
    let mut k: usize = 0;
    while k < n
        invariant
            av == pv(a@),
            bv == pv(b@),
            n == (if a.len() >= b.len() {
                a.len()
            } else {
                b.len()
            }),
            0 <= k <= n,
            poly_wf(av),
            poly_wf(bv),
            zero@ == frz(),
            fr_ok(zero@),
            out@.len() == k,
            forall|m: int| 0 <= m < k ==> #[trigger] out@[m]@ == fr_sub_of(pad_at(av, m), pad_at(bv, m)),
            forall|m: int| 0 <= m < k ==> fr_ok(#[trigger] out@[m]@) && out@[m]@.len() == 32,
        decreases n - k,
    {
        let ak = if k < a.len() {
            assert(fr_ok(av[k as int]));
            &a[k]
        } else {
            &zero
        };
        let bk = if k < b.len() {
            assert(fr_ok(bv[k as int]));
            &b[k]
        } else {
            &zero
        };
        assert(ak@ == pad_at(av, k as int));
        assert(bk@ == pad_at(bv, k as int));
        let c = fr_sub(ak, bk);
        out.push(c);
        k += 1;
    }
    proof {
        assert(pv(out@) =~= poly_sub_of(av, bv));
        assert(poly_wf(pv(out@)));
    }
    out
}

/// Product of two coefficient vectors.
pub(crate) fn poly_mul(a: &Vec<Vec<u8>>, b: &Vec<Vec<u8>>) -> (r: Vec<Vec<u8>>)
    requires
        poly_wf(pv(a@)),
        poly_wf(pv(b@)),
    ensures
        pv(r@) == poly_mul_of(pv(a@), pv(b@)),
        poly_wf(pv(r@)),
{
    let ghost av = pv(a@);
    let ghost bv = pv(b@);
    if a.len() == 0 || b.len() == 0 || a.len() > usize::MAX - b.len() {
        let out: Vec<Vec<u8>> = Vec::new();
        proof {
            assert(pv(out@) =~= poly_mul_of(av, bv));
        }
        return out;
    }
    let mut out: Vec<Vec<u8>> = Vec::new();
    let total = a.len() - 1 + b.len();
    while out.len() < total
        invariant
            total == a.len() + b.len() - 1,
            out@.len() <= total,
            forall|m: int| 0 <= m < out@.len() ==> #[trigger] out@[m]@ == frz(),
            forall|m: int| 0 <= m < out@.len() ==> fr_ok(#[trigger] out@[m]@) && out@[m]@.len() == 32,
        decreases total - out.len(),
    {
        out.push(fr_from_u64(0));
    }
    proof {
        assert(pv(out@) =~= zeros_of(total as int));
        assert(pv(out@) =~= pm_rows(av, bv, 0));
    }
    let mut i: usize = 0;
    while i < a.len()
        invariant
            a.len() >= 1,
            b.len() >= 1,
            a.len() + b.len() - 1 <= usize::MAX,
            av == pv(a@),
            bv == pv(b@),
            poly_wf(av),
            poly_wf(bv),
            0 <= i <= a.len(),
            out@.len() == a.len() + b.len() - 1,
            pv(out@) == pm_rows(av, bv, i as int),
            poly_wf(pv(out@)),
        decreases a.len() - i,
    {
        let mut j: usize = 0;
        while j < b.len()
            invariant
                a.len() >= 1,
                b.len() >= 1,
                a.len() + b.len() - 1 <= usize::MAX,
                av == pv(a@),
                bv == pv(b@),
                poly_wf(av),
                poly_wf(bv),
                0 <= i < a.len(),
                0 <= j <= b.len(),
                out@.len() == a.len() + b.len() - 1,
                pv(out@) == pm_row(av, bv, i as int, j as int, pm_rows(av, bv, i as int)),
                poly_wf(pv(out@)),
            decreases b.len() - j,
        {
            let ghost before = pv(out@);
            assert(fr_ok(av[i as int]) && fr_ok(bv[j as int]));
            assert(fr_ok(before[i + j]));
            let prod = fr_mul(&a[i], &b[j]);
            let cell = fr_add(&out[i + j], &prod);
            out[i + j] = cell;
            proof {
                assert(pv(out@) =~= before.update(
                    i + j,
                    fr_add_of(before[i + j], fr_mul_of(av[i as int], bv[j as int])),
                ));
                assert(pv(out@) == pm_row(
                    av,
                    bv,
                    i as int,
                    j + 1 as int,
                    pm_rows(av, bv, i as int),
                ));
            }
            j += 1;
        }
        proof {
            assert(pv(out@) == pm_rows(av, bv, i + 1 as int));
        }
        i += 1;
    }
    out
}

/// The monic polynomial whose roots are the given scalars, built by
/// multiplying the linear factors left to right.
pub(crate) fn poly_from_roots(ds: &Vec<Vec<u8>>) -> (r: Vec<Vec<u8>>)
    requires
        poly_wf(pv(ds@)),
    ensures
        pv(r@) == roots_poly_of(pv(ds@)),
        poly_wf(pv(r@)),
{
    let ghost dv = pv(ds@);
    let mut out: Vec<Vec<u8>> = Vec::new();
    out.push(fr_from_u64(1));
    proof {
        assert(pv(out@) =~= roots_poly_of(dv.take(0)));
    }
    let mut i: usize = 0;
    while i < ds.len()
        invariant
            dv == pv(ds@),
            0 <= i <= ds.len(),
            poly_wf(dv),
            pv(out@) == roots_poly_of(dv.take(i as int)),
            poly_wf(pv(out@)),
        decreases ds.len() - i,
    {
        let mut lin: Vec<Vec<u8>> = Vec::new();
        assert(fr_ok(dv[i as int]));
        lin.push(fr_neg(&ds[i]));
        lin.push(fr_from_u64(1));
        proof {
            assert(pv(lin@) =~= linear_of(dv[i as int]));
        }
        let next = poly_mul(&out, &lin);
        out = next;
        proof {
            assert(dv.take(i + 1 as int).drop_last() =~= dv.take(i as int));
            assert(dv.take(i + 1 as int).last() == dv[i as int]);
        }
        i += 1;
    }
    proof {
        assert(dv.take(ds.len() as int) =~= dv);
    }
    out
}

/// The value of the polynomial at `x`, by Horner's rule.
pub(crate) fn poly_eval(p: &Vec<Vec<u8>>, x: &Vec<u8>) -> (r: Vec<u8>)
    requires
        poly_wf(pv(p@)),
        fr_ok(x@),
    ensures
        r@ == poly_eval_of(pv(p@), x@),
        fr_ok(r@),
        r@.len() == 32,
{
    let ghost pw = pv(p@);
    let mut acc = fr_from_u64(0);
    let mut k = p.len();
    while k > 0
        invariant
            pw == pv(p@),
            0 <= k <= p.len(),
            poly_wf(pw),
            fr_ok(x@),
            acc@ == horner_of(pw, x@, k as int),
            fr_ok(acc@),
            acc@.len() == 32,
        decreases k,
    {
        k -= 1;
        let m = fr_mul(&acc, x);
        assert(fr_ok(pw[k as int]));
        acc = fr_add(&m, &p[k]);
    }
    acc
}

/// Every coefficient multiplied by `c`.
pub(crate) fn poly_scale(p: &Vec<Vec<u8>>, c: &Vec<u8>) -> (r: Vec<Vec<u8>>)
    requires
        poly_wf(pv(p@)),
        fr_ok(c@),
    ensures
        pv(r@) == poly_scale_of(pv(p@), c@),
        poly_wf(pv(r@)),
{
    let ghost pw = pv(p@);
    let mut out: Vec<Vec<u8>> = Vec::new();
    let mut k: usize = 0;
    while k < p.len()
        invariant
            pw == pv(p@),
            0 <= k <= p.len(),
            poly_wf(pw),
            fr_ok(c@),
            out@.len() == k,
            forall|m: int| 0 <= m < k ==> #[trigger] out@[m]@ == fr_mul_of(pw[m], c@),
            forall|m: int| 0 <= m < k ==> fr_ok(#[trigger] out@[m]@) && out@[m]@.len() == 32,
        decreases p.len() - k,
    {
        assert(fr_ok(pw[k as int]));
        out.push(fr_mul(&p[k], c));
        k += 1;
    }
    proof {
        assert(pv(out@) =~= poly_scale_of(pw, c@));
        assert(poly_wf(pv(out@)));
    }
    out
}

/// Division with remainder by a trimmed, nonzero divisor.
pub(crate) fn poly_divmod(a: &Vec<Vec<u8>>, b: &Vec<Vec<u8>>) -> (r: (Vec<Vec<u8>>, Vec<Vec<u8>>))
    requires
        poly_wf(pv(a@)),
        poly_wf(pv(b@)),
        poly_trimmed(pv(b@)),
        b.len() >= 1,
    ensures
        pv(r.0@) == divmod_of(pv(a@), pv(b@)).0,
        pv(r.1@) == divmod_of(pv(a@), pv(b@)).1,
        poly_wf(pv(r.0@)),
        poly_wf(pv(r.1@)),
        poly_trimmed(pv(r.1@)),
        r.1@.len() < b@.len(),
{
    let ghost av = pv(a@);
    let ghost bv = pv(b@);
    let m = b.len();
    if a.len() < m {
        let q: Vec<Vec<u8>> = Vec::new();
        let mut rem = poly_clone(a);
        poly_trim(&mut rem);
        proof {
            assert(pv(q@) =~= divmod_of(av, bv).0);
            lemma_trim(av);
            assert(pv(rem@).len() <= rem@.len());
            assert(pv(rem@).len() == rem@.len());
        }
        return (q, rem);
    }
    assert(fr_ok(bv[m - 1]));
    let inv_opt = fr_inv(&b[m - 1]);
    let li = match inv_opt {
        Some(v) => v,
        None => {
            proof {
                assert(bv[m - 1] != frz());
                assert(false);
            }
            Vec::new()
        },
    };
    let n = a.len();
    let mut rem = poly_clone(a);
    let mut q: Vec<Vec<u8>> = Vec::new();
    let qlen = n - m + 1;
    while q.len() < qlen
        invariant
            qlen == n - m + 1,
            q@.len() <= qlen,
            forall|w: int| 0 <= w < q@.len() ==> #[trigger] q@[w]@ == frz(),
            forall|w: int| 0 <= w < q@.len() ==> fr_ok(#[trigger] q@[w]@) && q@[w]@.len() == 32,
        decreases qlen - q.len(),
    {
        q.push(fr_from_u64(0));
    }
    proof {
        assert(pv(q@) =~= zeros_of(qlen as int));
        assert(pv(rem@) =~= dm_state(av, bv, li@, 0).0);
        assert(pv(q@) =~= dm_state(av, bv, li@, 0).1);
    }
    let mut t: usize = 0;
    while t < qlen
        invariant
            av == pv(a@),
            bv == pv(b@),
            n == a.len(),
            m == b.len(),
            m >= 1,
            n >= m,
            qlen == n - m + 1,
            0 <= t <= qlen,
            poly_wf(av),
            poly_wf(bv),
            fr_ok(li@),
            li@ == fr_inv_of(bv[m - 1]),
            rem@.len() == n,
            q@.len() == qlen,
            pv(rem@) == dm_state(av, bv, li@, t as int).0,
            pv(q@) == dm_state(av, bv, li@, t as int).1,
            poly_wf(pv(rem@)),
            poly_wf(pv(q@)),
        decreases qlen - t,
    {
        proof {
            lemma_dm_state_len(av, bv, li@, t as int);
            lemma_dm_state_len(av, bv, li@, t + 1 as int);
        }
        let k = n - m - t;
        assert(fr_ok(pv(rem@)[m - 1 + k]));
        let f = fr_mul(&rem[m - 1 + k], &li);
        let ghost fv = f@;
        let ghost qbefore = pv(q@);
        let fq = scalar_clone(&f);
        q[k] = fq;
        proof {
            assert(pv(q@) =~= qbefore.update(k as int, fv));
        }
        let mut j: usize = 0;
        while j < m
            invariant
                av == pv(a@),
                bv == pv(b@),
                n == a.len(),
                m == b.len(),
                m >= 1,
                n >= m,
                0 <= t < qlen,
                qlen == n - m + 1,
                k == n - m - t,
                0 <= j <= m,
                poly_wf(av),
                poly_wf(bv),
                fr_ok(fv),
                f@ == fv,
                fv.len() == 32,
                fv == fr_mul_of(dm_state(av, bv, li@, t as int).0[m - 1 + k], li@),
                rem@.len() == n,
                pv(rem@) == dm_row(dm_state(av, bv, li@, t as int).0, bv, fv, k as int, j as int),
                poly_wf(pv(rem@)),
            decreases m - j,
        {
            proof {
                lemma_dm_state_len(av, bv, li@, t as int);
                lemma_dm_row_len(dm_state(av, bv, li@, t as int).0, bv, fv, k as int, j as int);
                lemma_dm_row_len(dm_state(av, bv, li@, t as int).0, bv, fv, k as int, j + 1 as int);
            }
            let ghost before = pv(rem@);
            assert(fr_ok(bv[j as int]));
            assert(fr_ok(before[k + j]));
            let prod = fr_mul(&f, &b[j]);
            let cell = fr_sub(&rem[k + j], &prod);
            rem[k + j] = cell;
            proof {
                assert(pv(rem@) =~= before.update(
                    k + j,
                    fr_sub_of(before[k + j], fr_mul_of(fv, bv[j as int])),
                ));
            }
            j += 1;
        }
        proof {
            assert(pv(rem@) == dm_state(av, bv, li@, t + 1 as int).0);
            assert(pv(q@) == dm_state(av, bv, li@, t + 1 as int).1);
        }
        t += 1;
    }
    proof {
        lemma_dm_state_len(av, bv, li@, qlen as int);
    }
    let ghost remfull = pv(rem@);
    rem.truncate(m - 1);
    proof {
        assert(pv(rem@) =~= remfull.take(m - 1));
        lemma_trim(pv(rem@));
    }
    poly_trim(&mut rem);
    proof {
        lemma_trim(remfull.take(m - 1));
        assert(pv(rem@).len() == rem@.len());
    }
    (q, rem)
}

/// Extended GCD of two trimmed polynomials: returns `(g, u, v)` with the
/// Bezout coefficients computed alongside the Euclidean recursion.
pub(crate) fn poly_xgcd(a: &Vec<Vec<u8>>, b: &Vec<Vec<u8>>) -> (r: (Vec<Vec<u8>>, Vec<Vec<u8>>,
    Vec<Vec<u8>>))
    requires
        poly_wf(pv(a@)),
        poly_wf(pv(b@)),
        poly_trimmed(pv(a@)),
        poly_trimmed(pv(b@)),
    ensures
        pv(r.0@) == xgcd_of(pv(a@), pv(b@)).0,
        pv(r.1@) == xgcd_of(pv(a@), pv(b@)).1,
        pv(r.2@) == xgcd_of(pv(a@), pv(b@)).2,
        poly_wf(pv(r.0@)),
        poly_wf(pv(r.1@)),
        poly_wf(pv(r.2@)),
{
    let ghost av = pv(a@);
    let ghost bv = pv(b@);
    let mut r0 = poly_clone(a);
    let mut r1 = poly_clone(b);
    let mut s0: Vec<Vec<u8>> = Vec::new();
    s0.push(fr_from_u64(1));
    let mut s1: Vec<Vec<u8>> = Vec::new();
    let mut t0: Vec<Vec<u8>> = Vec::new();
    let mut t1: Vec<Vec<u8>> = Vec::new();
    t1.push(fr_from_u64(1));
    let ghost mut fuel: nat = b@.len();
    proof {
        assert(pv(s0@) =~= seq![fr_of_u64(1)]);
        assert(pv(t1@) =~= seq![fr_of_u64(1)]);
        assert(pv(s1@) =~= Seq::<Seq<u8>>::empty());
        assert(pv(t0@) =~= Seq::<Seq<u8>>::empty());
        assert(r1@.len() == pv(r1@).len());
    }
    while r1.len() > 0
        invariant
            poly_wf(pv(r0@)),
            poly_wf(pv(r1@)),
            poly_wf(pv(s0@)),
            poly_wf(pv(s1@)),
            poly_wf(pv(t0@)),
            poly_wf(pv(t1@)),
            poly_trimmed(pv(r1@)),
            r1@.len() == pv(r1@).len(),
            fuel >= r1@.len(),
            xgcd_state(pv(r0@), pv(r1@), pv(s0@), pv(s1@), pv(t0@), pv(t1@), fuel) == xgcd_of(
                av,
                bv,
            ),
        decreases r1.len(),
    {
        let ghost or0 = pv(r0@);
        let ghost or1 = pv(r1@);
        let ghost os0 = pv(s0@);
        let ghost os1 = pv(s1@);
        let ghost ot0 = pv(t0@);
        let ghost ot1 = pv(t1@);
        proof {
            lemma_divmod_rem_len(or0, or1);
        }
        let qr = poly_divmod(&r0, &r1);
        let q = qr.0;
        let r2 = qr.1;
        let s2 = poly_sub(&s0, &poly_mul(&q, &s1));
        let t2 = poly_sub(&t0, &poly_mul(&q, &t1));
        r0 = r1;
        r1 = r2;
        s0 = s1;
        s1 = s2;
        t0 = t1;
        t1 = t2;
        proof {
            assert(or1.len() > 0);
            assert(divmod_of(or0, or1).1.len() < or1.len());
            assert(xgcd_state(or0, or1, os0, os1, ot0, ot1, fuel) == xgcd_state(
                or1,
                divmod_of(or0, or1).1,
                os1,
                poly_sub_of(os0, poly_mul_of(divmod_of(or0, or1).0, os1)),
                ot1,
                poly_sub_of(ot0, poly_mul_of(divmod_of(or0, or1).0, ot1)),
                (fuel - 1) as nat,
            ));
            assert(pv(r0@) == or1);
            assert(pv(r1@) == divmod_of(or0, or1).1);
            assert(pv(s1@) == poly_sub_of(os0, poly_mul_of(divmod_of(or0, or1).0, os1)));
            assert(pv(t1@) == poly_sub_of(ot0, poly_mul_of(divmod_of(or0, or1).0, ot1)));
            fuel = (fuel - 1) as nat;
        }
    }
    (r0, s0, t0)
}

} // verus!
