//! Sumcheck for the sum of the products of two vectors.
//!
//! A round sends the quadratic polynomial that the sum becomes when the first variable is left
//! open, receives a challenge, and folds both vectors by it. The first variable tells the halves
//! of a vector apart.

use crate::field::{Algebra, Ring};
use crate::math::{lemma_pow2_base, lemma_pow2_step};
use crate::ring::{lemma_minus_minus, lemma_minus_plus, lemma_zero_times};
use crate::sumcheck::vectors::{
    all_canonical, dot, lemma_dot_append, lemma_dot_canonical, lemma_dot_plus_left,
    lemma_dot_plus_right, lemma_dot_scale_left, lemma_dot_scale_right, lemma_vplus_diff, lifted,
    products, total, vminus, vplus, vscale,
};
use vstd::arithmetic::power2::pow2;
use vstd::prelude::*;

verus! {

/// A polynomial by its coefficients, the constant one first.
#[derive(Debug)]
pub struct DensePolynomial<R> {
    pub coeffs: Vec<R>,
}

/// The value of a polynomial.
pub open spec fn poly_eval<R: Ring>(coeffs: Seq<R>, x: R) -> R
    decreases coeffs.len(),
{
    if coeffs.len() == 0 {
        R::ring_zero()
    } else {
        coeffs.first().plus(x.times(poly_eval(coeffs.drop_first(), x)))
    }
}

impl<R: Ring> DensePolynomial<R> {
    pub fn new(coeffs: Vec<R>) -> (r: Self)
        ensures
            r.coeffs@ == coeffs@,
    {
        DensePolynomial { coeffs }
    }

    pub fn evaluate(&self, x: R) -> (r: R)
        ensures
            r == poly_eval(self.coeffs@, x),
    {
        let ghost c = self.coeffs@;
        let mut acc = R::zero();
        let mut k: usize = self.coeffs.len();
        assert(c.skip(k as int).len() == 0);
        while k > 0
            invariant
                k <= c.len(),
                c == self.coeffs@,
                acc == poly_eval(c.skip(k as int), x),
            decreases k,
        {
            k -= 1;
            proof {
                assert(c.skip(k as int).first() == c[k as int]);
                assert(c.skip(k as int).drop_first() =~= c.skip(k + 1));
            }
            acc = self.coeffs[k].add(x.mul(acc));
        }
        assert(c.skip(0) =~= c);
        acc
    }
}

/// The first half of a vector.
pub open spec fn lower<R>(x: Seq<R>) -> Seq<R> {
    x.take(x.len() as int / 2)
}

/// The second half of a vector.
pub open spec fn upper<R>(x: Seq<R>) -> Seq<R> {
    x.subrange(x.len() as int / 2, x.len() as int / 2 * 2)
}

/// The change from the first half to the second.
pub open spec fn diff<R: Ring>(x: Seq<R>) -> Seq<R> {
    vminus(upper(x), lower(x))
}

/// The vector with its first variable set to `r`.
pub open spec fn fold<R: Ring>(x: Seq<R>, r: R) -> Seq<R> {
    vplus(vscale(r, diff(x)), lower(x))
}

/// The polynomial of a round with its outer coefficients given: the linear one follows from the
/// claimed sum.
pub open spec fn with_linear<R: Ring>(c0: R, c2: R, sum: R) -> Seq<R> {
    seq![c0, sum.minus(c0.plus(c0)).minus(c2), c2]
}

/// The polynomial of a round.
pub open spec fn round_poly<R: Ring>(x: Seq<R>, y: Seq<R>, sum: R) -> Seq<R> {
    with_linear(dot(lower(x), lower(y)), dot(diff(x), diff(y)), sum)
}

/// Both vectors have the same length, a power of two.
pub open spec fn same_pow2_len(n: int, m: int) -> bool {
    n == m && exists|k: nat| #[trigger] pow2(k) == n
}

/// A round's polynomial takes values at 0 and 1 that add up to the claimed sum.
pub proof fn law_round_poly_sums<R: Ring>(x: Seq<R>, y: Seq<R>, sum: R)
    requires
        sum.canonical(),
    ensures
        poly_eval(round_poly(x, y, sum), R::ring_zero()).plus(
            poly_eval(round_poly(x, y, sum), R::ring_one()),
        ) == sum,
{
    let c0 = dot(lower(x), lower(y));
    let c2 = dot(diff(x), diff(y));
    lemma_dot_canonical(lower(x), lower(y));
    lemma_dot_canonical(diff(x), diff(y));
    lemma_with_linear(c0, c2, sum, R::ring_zero());
    lemma_with_linear(c0, c2, sum, R::ring_one());
    let two_c0 = c0.plus(c0);
    let c1 = sum.minus(two_c0).minus(c2);
    R::law_closed(sum, two_c0, 0);
    R::law_closed(c1, c2, 0);
    R::law_closed(c0, c1.plus(c2), 0);
    // p(0) = c0
    lemma_zero_times(c1.plus(R::ring_zero().times(c2)));
    R::law_plus_zero(c0);
    // p(1) = c0 + (c1 + c2)
    R::law_times_one(c2);
    R::law_times_commutes(R::ring_one(), c2);
    R::law_times_one(c1.plus(c2));
    R::law_times_commutes(R::ring_one(), c1.plus(c2));
    // c0 + (c0 + (c1 + c2)) = (c0 + c0) + (c1 + c2)
    R::law_plus_associates(c0, c0, c1.plus(c2));
    lemma_minus_plus(sum.minus(two_c0), c2);
    lemma_minus_plus(sum, two_c0);
}

/// The value of a quadratic polynomial.
proof fn lemma_with_linear<R: Ring>(c0: R, c2: R, sum: R, r: R)
    requires
        c2.canonical(),
    ensures
        ({
            let c1 = sum.minus(c0.plus(c0)).minus(c2);
            poly_eval(with_linear(c0, c2, sum), r) == c0.plus(r.times(c1.plus(r.times(c2))))
        }),
{
    let p = with_linear(c0, c2, sum);
    let p1 = p.drop_first();
    let p2 = p1.drop_first();
    let p3 = p2.drop_first();
    assert(p3.len() == 0);
    R::law_times_zero(r);
    R::law_plus_zero(c2);
    assert(poly_eval(p3, r) == R::ring_zero());
    assert(poly_eval(p2, r) == c2);
    assert(poly_eval(p1, r) == p1[0].plus(r.times(c2)));
}

/// Where the claimed sum is the inner product, a round's polynomial at the challenge is the inner
/// product of the folded vectors.
pub proof fn law_round_poly_folds<R: Ring>(x: Seq<R>, y: Seq<R>, r: R)
    requires
        x.len() == y.len(),
        x.len() % 2 == 0,
        all_canonical(x),
        all_canonical(y),
    ensures
        poly_eval(round_poly(x, y, dot(x, y)), r) == dot(fold(x, r), fold(y, r)),
{
    let (x0, x1, dx) = (lower(x), upper(x), diff(x));
    let (y0, y1, dy) = (lower(y), upper(y), diff(y));
    let c0 = dot(x0, y0);
    let c2 = dot(dx, dy);
    let m = dot(dx, y0).plus(dot(x0, dy));
    lemma_dot_canonical(x0, y0);
    lemma_dot_canonical(dx, dy);
    lemma_with_linear(c0, c2, dot(x, y), r);
    // The sum is c0 + ((c0 + m) + c2), so the linear coefficient is m.
    assert(x =~= x0 + x1 && y =~= y0 + y1);
    lemma_dot_append(x0, y0, x1, y1);
    assert(all_canonical(x1) && all_canonical(y1));
    lemma_vplus_diff(x0, x1);
    lemma_vplus_diff(y0, y1);
    lemma_dot_plus_left(x0, dx, y1);
    lemma_dot_plus_right(x0, y0, dy);
    lemma_dot_plus_right(dx, y0, dy);
    lemma_cross_terms(c0, dot(x0, dy), dot(dx, y0), c2);
    assert(dot(x1, y1) == c0.plus(m).plus(c2));
    R::law_closed(dot(dx, y0), dot(x0, dy), 0);
    lemma_linear_coefficient(c0, m, c2);
    // The folded inner product is c0 + r (m + r c2).
    lemma_dot_plus_left(vscale(r, dx), x0, fold(y, r));
    lemma_dot_plus_right(vscale(r, dx), vscale(r, dy), y0);
    lemma_dot_plus_right(x0, vscale(r, dy), y0);
    lemma_dot_scale_left(r, dx, vscale(r, dy));
    lemma_dot_scale_right(r, dx, dy);
    lemma_dot_scale_left(r, dx, y0);
    lemma_dot_scale_right(r, x0, dy);
    lemma_folded_terms(c0, dot(dx, y0), dot(x0, dy), c2, r);
}

/// `(c0 + p) + (q + c2) = (c0 + (q + p)) + c2`.
proof fn lemma_cross_terms<R: Ring>(c0: R, p: R, q: R, c2: R)
    ensures
        c0.plus(p).plus(q.plus(c2)) == c0.plus(q.plus(p)).plus(c2),
{
    R::law_plus_associates(c0.plus(p), q, c2);
    R::law_plus_associates(c0, p, q);
    R::law_plus_commutes(p, q);
}

/// `(c0 + ((c0 + m) + c2)) - (c0 + c0) - c2 = m`.
proof fn lemma_linear_coefficient<R: Ring>(c0: R, m: R, c2: R)
    requires
        m.canonical(),
    ensures
        c0.plus(c0.plus(m).plus(c2)).minus(c0.plus(c0)).minus(c2) == m,
{
    let s = c0.plus(c0.plus(m).plus(c2));
    R::law_plus_associates(c0, c0.plus(m), c2);
    R::law_plus_associates(c0, c0, m);
    // s = ((c0 + c0) + m) + c2
    lemma_minus_minus(s, c0.plus(c0), c2);
    R::law_plus_commutes(c0.plus(c0), m);
    R::law_plus_associates(m, c0.plus(c0), c2);
    lemma_minus_plus(m, c0.plus(c0).plus(c2));
}

/// `(r (r c2) + r q) + (r p + c0) = c0 + r ((q + p) + r c2)`.
proof fn lemma_folded_terms<R: Ring>(c0: R, q: R, p: R, c2: R, r: R)
    ensures
        r.times(r.times(c2)).plus(r.times(q)).plus(r.times(p).plus(c0)) == c0.plus(
            r.times(q.plus(p).plus(r.times(c2))),
        ),
{
    let rc = r.times(c2);
    R::law_distributes(r, q, p);
    R::law_distributes(r, q.plus(p), rc);
    // left = ((r rc + r q) + r p) + c0
    R::law_plus_associates(r.times(rc).plus(r.times(q)), r.times(p), c0);
    R::law_plus_associates(r.times(rc), r.times(q), r.times(p));
    R::law_plus_commutes(r.times(rc), r.times(q).plus(r.times(p)));
    R::law_plus_commutes(r.times(q.plus(p).plus(rc)), c0);
}

/// The terms of the outer coefficients for one pair of positions.
pub fn sumcheck_quadratic<F: Ring, EF: Algebra<F>>(x: (F, F), y: (EF, EF)) -> (r: (EF, EF))
    ensures
        r.0 == y.0.times(EF::lift(x.0)),
        r.1 == y.1.minus(y.0).times(EF::lift(x.1).minus(EF::lift(x.0))),
{
    proof {
        EF::law_lift(x.1, x.0);
    }
    let constant = y.0.mul_base(x.0);
    let quadratic = y.1.sub(y.0).mul_base(x.1.sub(x.0));
    (constant, quadratic)
}

/// The polynomial of a round of the product sumcheck.
pub fn compute_product_sumcheck_polynomial<F: Ring, EF: Algebra<F>>(
    pol_0: &[F],
    pol_1: &[EF],
    sum: EF,
) -> (r: DensePolynomial<EF>)
    requires
        same_pow2_len(pol_0@.len() as int, pol_1@.len() as int),
    ensures
        r.coeffs@ == round_poly(lifted::<F, EF>(pol_0@), pol_1@, sum),
{
    let ghost x = lifted::<F, EF>(pol_0@);
    let ghost y = pol_1@;
    let half: usize = pol_0.len() / 2;
    let ghost p0 = products(lower(x), lower(y));
    let ghost p2 = products(diff(x), diff(y));
    let mut c0 = EF::zero();
    let mut c2 = EF::zero();
    let mut i: usize = 0;
    assert(p0.take(0).len() == 0 && p2.take(0).len() == 0);
    while i < half
        invariant
            i <= half,
            half == pol_0@.len() / 2,
            pol_0@.len() == pol_1@.len(),
            half + half <= pol_0.len(),
            x == lifted::<F, EF>(pol_0@),
            y == pol_1@,
            p0 == products(lower(x), lower(y)),
            p2 == products(diff(x), diff(y)),
            c0 == total(p0.take(i as int)),
            c2 == total(p2.take(i as int)),
        decreases half - i,
    {
        let (b0, b2) = sumcheck_quadratic::<F, EF>(
            (pol_0[i], pol_0[i + half]),
            (pol_1[i], pol_1[i + half]),
        );
        c0 = c0.add(b0);
        c2 = c2.add(b2);
        proof {
            assert(p0.take(i + 1).drop_last() =~= p0.take(i as int));
            assert(p2.take(i + 1).drop_last() =~= p2.take(i as int));
            assert(p0.take(i + 1).last() == p0[i as int]);
            assert(p2.take(i + 1).last() == p2[i as int]);
            assert(diff(x)[i as int] == x[i + half].minus(x[i as int]));
            assert(diff(y)[i as int] == y[i + half].minus(y[i as int]));
        }
        i += 1;
    }
    assert(p0.take(half as int) =~= p0 && p2.take(half as int) =~= p2);
    let c1 = sum.sub(c0.double()).sub(c2);
    let coeffs = vec![c0, c1, c2];
    assert(coeffs@ =~= round_poly(x, y, sum));
    DensePolynomial::new(coeffs)
}

/// The polynomial of a round of the product sumcheck, on two vectors over the same ring.
pub fn product_sumcheck_polynomial<EF: Ring>(pol_0: &[EF], pol_1: &[EF], sum: EF) -> (r:
    DensePolynomial<EF>)
    requires
        same_pow2_len(pol_0@.len() as int, pol_1@.len() as int),
    ensures
        r.coeffs@ == round_poly(pol_0@, pol_1@, sum),
{
    let ghost x = pol_0@;
    let ghost y = pol_1@;
    let half: usize = pol_0.len() / 2;
    let ghost p0 = products(lower(x), lower(y));
    let ghost p2 = products(diff(x), diff(y));
    let mut c0 = EF::zero();
    let mut c2 = EF::zero();
    let mut i: usize = 0;
    assert(p0.take(0).len() == 0 && p2.take(0).len() == 0);
    while i < half
        invariant
            i <= half,
            half == pol_0@.len() / 2,
            pol_0@.len() == pol_1@.len(),
            half + half <= pol_0.len(),
            x == pol_0@,
            y == pol_1@,
            p0 == products(lower(x), lower(y)),
            p2 == products(diff(x), diff(y)),
            c0 == total(p0.take(i as int)),
            c2 == total(p2.take(i as int)),
        decreases half - i,
    {
        c0 = c0.add(pol_1[i].mul(pol_0[i]));
        c2 = c2.add(pol_1[i + half].sub(pol_1[i]).mul(pol_0[i + half].sub(pol_0[i])));
        proof {
            assert(p0.take(i + 1).drop_last() =~= p0.take(i as int));
            assert(p2.take(i + 1).drop_last() =~= p2.take(i as int));
            assert(p0.take(i + 1).last() == p0[i as int]);
            assert(p2.take(i + 1).last() == p2[i as int]);
            assert(diff(x)[i as int] == x[i + half].minus(x[i as int]));
            assert(diff(y)[i as int] == y[i + half].minus(y[i as int]));
        }
        i += 1;
    }
    assert(p0.take(half as int) =~= p0 && p2.take(half as int) =~= p2);
    let c1 = sum.sub(c0.double()).sub(c2);
    let coeffs = vec![c0, c1, c2];
    assert(coeffs@ =~= round_poly(x, y, sum));
    DensePolynomial::new(coeffs)
}

/// Folds a vector over the base ring.
pub fn fold_base<F: Ring, EF: Algebra<F>>(evals: &[F], r: EF) -> (out: Vec<EF>)
    ensures
        out@ == fold(lifted::<F, EF>(evals@), r),
{
    let ghost x = lifted::<F, EF>(evals@);
    let half: usize = evals.len() / 2;
    let mut out: Vec<EF> = Vec::new();
    let mut i: usize = 0;
    while i < half
        invariant
            i <= half,
            half == evals@.len() / 2,
            half + half <= evals.len(),
            x == lifted::<F, EF>(evals@),
            out@.len() == i,
            forall|j: int| 0 <= j < i ==> #[trigger] out@[j] == fold(x, r)[j],
        decreases half - i,
    {
        let lo = EF::from_base(evals[i]);
        let hi = EF::from_base(evals[i + half]);
        out.push(r.mul(hi.sub(lo)).add(lo));
        i += 1;
    }
    assert(out@ =~= fold(x, r));
    out
}

/// Folds a vector.
pub fn fold_ext<EF: Ring>(data: &[EF], r: EF) -> (out: Vec<EF>)
    ensures
        out@ == fold(data@, r),
{
    let half: usize = data.len() / 2;
    let mut out: Vec<EF> = Vec::new();
    let mut i: usize = 0;
    while i < half
        invariant
            i <= half,
            half == data@.len() / 2,
            half + half <= data.len(),
            out@.len() == i,
            forall|j: int| 0 <= j < i ==> #[trigger] out@[j] == fold(data@, r)[j],
        decreases half - i,
    {
        out.push(r.mul(data[i + half].sub(data[i])).add(data[i]));
        i += 1;
    }
    assert(out@ =~= fold(data@, r));
    out
}

pub proof fn lemma_half_pow2(n: int)
    requires
        exists|k: nat| #[trigger] pow2(k) == n,
        n >= 2,
    ensures
        exists|k: nat| #[trigger] pow2(k) == n / 2,
        n % 2 == 0,
{
    let k = choose|k: nat| #[trigger] pow2(k) == n;
    lemma_pow2_base();
    if k > 0 {
        lemma_pow2_step((k - 1) as nat);
        assert(pow2((k - 1) as nat) == n / 2);
    }
}

/// Folds both vectors by the challenge of the last round and gives the polynomial of the next.
pub fn fold_and_compute_product_sumcheck_polynomial<F: Ring, EF: Algebra<F>>(
    pol_0: &[F],
    pol_1: &[EF],
    prev_folding_factor: EF,
    sum: EF,
) -> (r: (DensePolynomial<EF>, Vec<EF>, Vec<EF>))
    requires
        same_pow2_len(pol_0@.len() as int, pol_1@.len() as int),
        pol_0@.len() >= 2,
    ensures
        r.1@ == fold(lifted::<F, EF>(pol_0@), prev_folding_factor),
        r.2@ == fold(pol_1@, prev_folding_factor),
        r.0.coeffs@ == round_poly(r.1@, r.2@, sum),
{
    let folded_0 = fold_base::<F, EF>(pol_0, prev_folding_factor);
    let folded_1 = fold_ext(pol_1, prev_folding_factor);
    proof {
        lemma_half_pow2(pol_0@.len() as int);
    }
    let poly = product_sumcheck_polynomial(folded_0.as_slice(), folded_1.as_slice(), sum);
    (poly, folded_0, folded_1)
}

} // verus!
