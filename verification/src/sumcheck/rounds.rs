//! Many rounds of the product sumcheck.
//!
//! The challenges come from a transcript that has absorbed the polynomials sent so far. A
//! [`SumcheckSingle`] takes them one by one; [`run_product_sumcheck`] takes all of them at once.

use crate::field::{Algebra, Ring};
use crate::math::{lemma_pow2_base, lemma_pow2_step};
use crate::sumcheck::product::{
    compute_product_sumcheck_polynomial, fold, fold_and_compute_product_sumcheck_polynomial,
    fold_base, fold_ext, law_round_poly_folds, law_round_poly_sums, lemma_half_pow2, poly_eval,
    product_sumcheck_polynomial, round_poly, same_pow2_len, DensePolynomial,
};
use crate::sumcheck::vectors::{all_canonical, dot, lifted};
use vstd::arithmetic::power2::pow2;
use vstd::prelude::*;

verus! {

/// The computation whose values the sumcheck sums: the product of two columns.
#[derive(Clone, Copy, Debug)]
pub struct ProductComputation;

impl ProductComputation {
    pub fn degree(&self) -> (r: usize)
        ensures
            r == 2,
    {
        2
    }

    pub fn eval_extension<EF: Ring>(&self, point: &[EF]) -> (r: EF)
        requires
            point@.len() >= 2,
        ensures
            r == point@[0].times(point@[1]),
    {
        point[0].mul(point[1])
    }
}

/// A vector after the challenges `cs`.
pub open spec fn folded_by<R: Ring>(x: Seq<R>, cs: Seq<R>) -> Seq<R>
    decreases cs.len(),
{
    if cs.len() == 0 {
        x
    } else {
        fold(folded_by(x, cs.drop_last()), cs.last())
    }
}

/// The claimed sum after the challenges `cs`.
pub open spec fn sum_after<R: Ring>(x: Seq<R>, y: Seq<R>, sum: R, cs: Seq<R>) -> R
    decreases cs.len(), 0int,
{
    if cs.len() == 0 {
        sum
    } else {
        poly_eval(poly_after(x, y, sum, cs.drop_last()), cs.last())
    }
}

/// The polynomial sent after the challenges `cs`.
pub open spec fn poly_after<R: Ring>(x: Seq<R>, y: Seq<R>, sum: R, cs: Seq<R>) -> Seq<R>
    decreases cs.len(), 1int,
{
    round_poly(folded_by(x, cs), folded_by(y, cs), sum_after(x, y, sum, cs))
}

/// `polys` are the polynomials sent in the rounds whose challenges are `cs`.
pub open spec fn sent_polys<R: Ring>(
    x: Seq<R>,
    y: Seq<R>,
    sum: R,
    cs: Seq<R>,
    polys: Seq<DensePolynomial<R>>,
) -> bool {
    &&& polys.len() == cs.len()
    &&& forall|k: int|
        0 <= k < cs.len() ==> (#[trigger] polys[k]).coeffs@ == poly_after(x, y, sum, cs.take(k))
}

/// There are enough variables for `n` rounds on vectors of length `len`.
pub open spec fn enough_variables(len: int, n: int) -> bool {
    exists|k: nat| #[trigger] pow2(k) == len && k >= n
}

pub proof fn lemma_folded_len<R: Ring>(x: Seq<R>, cs: Seq<R>)
    requires
        enough_variables(x.len() as int, cs.len() as int),
    ensures
        exists|k: nat| #[trigger]
            pow2(k) == folded_by(x, cs).len() && pow2(k + cs.len()) == x.len(),
    decreases cs.len(),
{
    let k = choose|k: nat| #[trigger] pow2(k) == x.len() && k >= cs.len();
    if cs.len() == 0 {
        assert(pow2(k) == folded_by(x, cs).len() && pow2(k + cs.len()) == x.len());
    } else {
        let init = cs.drop_last();
        assert(pow2(k) == x.len() && k >= init.len());
        lemma_folded_len(x, init);
        let j = choose|j: nat| #[trigger]
            pow2(j) == folded_by(x, init).len() && pow2(j + init.len()) == x.len();
        crate::math::lemma_pow2_injective(j + init.len(), k);
        let i = (j - 1) as nat;
        lemma_pow2_step(i);
        assert(pow2(i) == folded_by(x, cs).len());
        assert(i + cs.len() == j + init.len());
        assert(pow2(i) == folded_by(x, cs).len() && pow2(i + cs.len()) == x.len());
    }
}

/// A folded vector that has a variable left has even length.
pub proof fn lemma_round_possible<R: Ring>(x: Seq<R>, cs: Seq<R>, n: int)
    requires
        enough_variables(x.len() as int, n),
        cs.len() < n,
    ensures
        exists|k: nat| #[trigger] pow2(k) == folded_by(x, cs).len(),
        folded_by(x, cs).len() >= 2,
        folded_by(x, cs).len() % 2 == 0,
{
    let k = choose|k: nat| #[trigger] pow2(k) == x.len() && k >= n;
    assert(pow2(k) == x.len() && k >= cs.len());
    lemma_folded_len(x, cs);
    let j = choose|j: nat| #[trigger]
        pow2(j) == folded_by(x, cs).len() && pow2(j + cs.len()) == x.len();
    crate::math::lemma_pow2_injective(j + cs.len(), k);
    lemma_pow2_base();
    lemma_pow2_step((j - 1) as nat);
}

proof fn lemma_folded_same_len<R: Ring>(x: Seq<R>, y: Seq<R>, cs: Seq<R>)
    requires
        x.len() == y.len(),
    ensures
        folded_by(x, cs).len() == folded_by(y, cs).len(),
    decreases cs.len(),
{
    if cs.len() > 0 {
        lemma_folded_same_len(x, y, cs.drop_last());
    }
}

pub proof fn lemma_fold_canonical<R: Ring>(x: Seq<R>, r: R)
    ensures
        all_canonical(fold(x, r)),
{
    assert forall|i: int| 0 <= i < fold(x, r).len() implies (#[trigger] fold(
        x,
        r,
    )[i]).canonical() by {
        let d = crate::sumcheck::product::diff(x)[i];
        R::law_closed(r.times(d), crate::sumcheck::product::lower(x)[i], 0);
    }
}

proof fn lemma_folded_canonical<R: Ring>(x: Seq<R>, cs: Seq<R>)
    requires
        all_canonical(x),
    ensures
        all_canonical(folded_by(x, cs)),
{
    if cs.len() > 0 {
        lemma_fold_canonical(folded_by(x, cs.drop_last()), cs.last());
    }
}

/// Where the first claimed sum is the inner product of the vectors, every later one is the inner
/// product of the folded vectors.
pub proof fn law_sum_is_inner_product<R: Ring>(x: Seq<R>, y: Seq<R>, cs: Seq<R>)
    requires
        x.len() == y.len(),
        all_canonical(x),
        all_canonical(y),
        enough_variables(x.len() as int, cs.len() as int),
    ensures
        sum_after(x, y, dot(x, y), cs) == dot(folded_by(x, cs), folded_by(y, cs)),
    decreases cs.len(),
{
    if cs.len() > 0 {
        let init = cs.drop_last();
        let k = choose|k: nat| #[trigger] pow2(k) == x.len() && k >= cs.len();
        assert(pow2(k) == x.len() && k >= init.len());
        law_sum_is_inner_product(x, y, init);
        lemma_round_possible(x, init, cs.len() as int);
        lemma_folded_same_len(x, y, init);
        lemma_folded_canonical(x, init);
        lemma_folded_canonical(y, init);
        law_round_poly_folds(folded_by(x, init), folded_by(y, init), cs.last());
    }
}

/// Challenges taken one by one give what they give all at once: after the challenges `cs`, the
/// polynomial to send is that of the folded vectors and the current sum, and the challenge `r` then
/// folds the vectors and evaluates the polynomial.
pub proof fn law_next_round<R: Ring>(x: Seq<R>, y: Seq<R>, sum: R, cs: Seq<R>, r: R)
    ensures
        poly_after(x, y, sum, cs) == round_poly(
            folded_by(x, cs),
            folded_by(y, cs),
            sum_after(x, y, sum, cs),
        ),
        folded_by(x, cs.push(r)) == fold(folded_by(x, cs), r),
        folded_by(y, cs.push(r)) == fold(folded_by(y, cs), r),
        sum_after(x, y, sum, cs.push(r)) == poly_eval(poly_after(x, y, sum, cs), r),
{
    assert(cs.push(r).drop_last() =~= cs);
}

/// In every round the values of the polynomial at 0 and 1 add up to the sum claimed before it.
pub proof fn law_round_checks<R: Ring>(x: Seq<R>, y: Seq<R>, sum: R, cs: Seq<R>)
    requires
        sum.canonical(),
    ensures
        poly_eval(poly_after(x, y, sum, cs), R::ring_zero()).plus(
            poly_eval(poly_after(x, y, sum, cs), R::ring_one()),
        ) == sum_after(x, y, sum, cs),
{
    let s = sum_after(x, y, sum, cs);
    if cs.len() > 0 {
        let p = poly_after(x, y, sum, cs.drop_last());
        R::law_closed(p.first(), cs.last().times(poly_eval(p.drop_first(), cs.last())), 0);
    }
    law_round_poly_sums(folded_by(x, cs), folded_by(y, cs), s);
}

/// The prover's side of a product sumcheck between two rounds.
#[derive(Debug)]
pub struct SumcheckSingle<EF> {
    pub evals: Vec<EF>,
    pub weights: Vec<EF>,
    pub sum: EF,
}

impl<EF: Ring> SumcheckSingle<EF> {
    /// Both vectors have the same length, a power of two.
    pub open spec fn wf(self) -> bool {
        same_pow2_len(self.evals@.len() as int, self.weights@.len() as int)
    }

    /// The polynomial to send in the next round.
    pub fn round_polynomial(&self) -> (r: DensePolynomial<EF>)
        requires
            self.wf(),
        ensures
            r.coeffs@ == round_poly(self.evals@, self.weights@, self.sum),
    {
        product_sumcheck_polynomial(self.evals.as_slice(), self.weights.as_slice(), self.sum)
    }

    /// Takes the challenge of the round in which `poly` was sent.
    pub fn receive(&mut self, poly: &DensePolynomial<EF>, r: EF)
        requires
            old(self).wf(),
            old(self).evals@.len() >= 2,
        ensures
            final(self).wf(),
            final(self).evals@ == fold(old(self).evals@, r),
            final(self).weights@ == fold(old(self).weights@, r),
            final(self).sum == poly_eval(poly.coeffs@, r),
    {
        proof {
            lemma_half_pow2(self.evals@.len() as int);
        }
        self.sum = poly.evaluate(r);
        self.evals = fold_ext(self.evals.as_slice(), r);
        self.weights = fold_ext(self.weights.as_slice(), r);
    }

    /// Runs one round for each challenge and returns the polynomials sent.
    pub fn run(&mut self, challenges: &[EF]) -> (r: Vec<DensePolynomial<EF>>)
        requires
            old(self).wf(),
            enough_variables(old(self).evals@.len() as int, challenges@.len() as int),
        ensures
            final(self).wf(),
            final(self).evals@ == folded_by(old(self).evals@, challenges@),
            final(self).weights@ == folded_by(old(self).weights@, challenges@),
            final(self).sum == sum_after(
                old(self).evals@,
                old(self).weights@,
                old(self).sum,
                challenges@,
            ),
            sent_polys(
                old(self).evals@,
                old(self).weights@,
                old(self).sum,
                challenges@,
                r@,
            ),
    {
        let ghost x = self.evals@;
        let ghost y = self.weights@;
        let ghost s = self.sum;
        let ghost cs = challenges@;
        let mut polys: Vec<DensePolynomial<EF>> = Vec::new();
        let mut k: usize = 0;
        assert(cs.take(0).len() == 0);
        while k < challenges.len()
            invariant
                k <= cs.len(),
                cs == challenges@,
                self.wf(),
                x.len() == y.len(),
                enough_variables(x.len() as int, cs.len() as int),
                self.evals@ == folded_by(x, cs.take(k as int)),
                self.weights@ == folded_by(y, cs.take(k as int)),
                self.sum == sum_after(x, y, s, cs.take(k as int)),
                polys@.len() == k,
                forall|j: int|
                    0 <= j < k ==> (#[trigger] polys@[j]).coeffs@ == poly_after(
                        x,
                        y,
                        s,
                        cs.take(j),
                    ),
            decreases cs.len() - k,
        {
            let poly = self.round_polynomial();
            let r = challenges[k];
            proof {
                lemma_round_possible(x, cs.take(k as int), cs.len() as int);
                assert(cs.take(k + 1).drop_last() =~= cs.take(k as int));
                assert(cs.take(k + 1).last() == r);
            }
            self.receive(&poly, r);
            polys.push(poly);
            k += 1;
        }
        assert(cs.take(cs.len() as int) =~= cs);
        polys
    }
}

/// Takes the first challenge of a product sumcheck whose first vector is over the base ring, in
/// answer to `poly`.
pub fn receive_first<F: Ring, EF: Algebra<F>>(
    pol_a: &[F],
    pol_b: &[EF],
    poly: &DensePolynomial<EF>,
    r: EF,
) -> (out: SumcheckSingle<EF>)
    requires
        same_pow2_len(pol_a@.len() as int, pol_b@.len() as int),
        pol_a@.len() >= 2,
    ensures
        out.wf(),
        out.evals@ == fold(lifted::<F, EF>(pol_a@), r),
        out.weights@ == fold(pol_b@, r),
        out.sum == poly_eval(poly.coeffs@, r),
{
    proof {
        lemma_half_pow2(pol_a@.len() as int);
    }
    let evals = fold_base::<F, EF>(pol_a, r);
    let weights = fold_ext(pol_b, r);
    SumcheckSingle { evals, weights, sum: poly.evaluate(r) }
}

/// Runs a product sumcheck whose first vector is over the base ring: one round for each
/// challenge. Returns the polynomials sent and the state after the last round.
pub fn run_product_sumcheck<F: Ring, EF: Algebra<F>>(
    pol_a: &[F],
    pol_b: &[EF],
    sum: EF,
    challenges: &[EF],
) -> (r: (Vec<DensePolynomial<EF>>, SumcheckSingle<EF>))
    requires
        pol_a@.len() == pol_b@.len(),
        challenges@.len() >= 1,
        enough_variables(pol_a@.len() as int, challenges@.len() as int),
    ensures
        r.1.wf(),
        r.1.evals@ == folded_by(lifted::<F, EF>(pol_a@), challenges@),
        r.1.weights@ == folded_by(pol_b@, challenges@),
        r.1.sum == sum_after(lifted::<F, EF>(pol_a@), pol_b@, sum, challenges@),
        sent_polys(lifted::<F, EF>(pol_a@), pol_b@, sum, challenges@, r.0@),
{
    proof {
        let k = choose|k: nat| #[trigger] pow2(k) == pol_a@.len() && k >= challenges@.len();
        assert(pow2(k) == pol_a@.len());
    }
    let first = compute_product_sumcheck_polynomial::<F, EF>(pol_a, pol_b, sum);
    finish_product_sumcheck(first, pol_a, pol_b, Ghost(sum), challenges)
}

/// Runs a product sumcheck whose first polynomial is known.
pub(crate) fn finish_product_sumcheck<F: Ring, EF: Algebra<F>>(
    first: DensePolynomial<EF>,
    pol_a: &[F],
    pol_b: &[EF],
    Ghost(sum): Ghost<EF>,
    challenges: &[EF],
) -> (r: (Vec<DensePolynomial<EF>>, SumcheckSingle<EF>))
    requires
        pol_a@.len() == pol_b@.len(),
        challenges@.len() >= 1,
        enough_variables(pol_a@.len() as int, challenges@.len() as int),
        first.coeffs@ == round_poly(lifted::<F, EF>(pol_a@), pol_b@, sum),
    ensures
        r.1.wf(),
        r.1.evals@ == folded_by(lifted::<F, EF>(pol_a@), challenges@),
        r.1.weights@ == folded_by(pol_b@, challenges@),
        r.1.sum == sum_after(lifted::<F, EF>(pol_a@), pol_b@, sum, challenges@),
        sent_polys(lifted::<F, EF>(pol_a@), pol_b@, sum, challenges@, r.0@),
{
    let ghost x = lifted::<F, EF>(pol_a@);
    let ghost y = pol_b@;
    let ghost cs = challenges@;
    let mut polys: Vec<DensePolynomial<EF>> = Vec::new();
    let r1 = challenges[0];
    proof {
        let k = choose|k: nat| #[trigger] pow2(k) == pol_a@.len() && k >= cs.len();
        assert(pow2(k) == pol_a@.len());
        lemma_round_possible(x, cs.take(0), cs.len() as int);
        assert(cs.take(0).len() == 0);
        assert(cs.take(1).drop_last() =~= cs.take(0));
        assert(cs.take(1).last() == r1);
        assert(folded_by(x, cs.take(0)) == x && folded_by(y, cs.take(0)) == y);
        assert(folded_by(x, cs.take(1)) == fold(x, r1));
        assert(folded_by(y, cs.take(1)) == fold(y, r1));
        assert(sum_after(x, y, sum, cs.take(0)) == sum);
        assert(poly_after(x, y, sum, cs.take(0)) == round_poly(x, y, sum));
        assert(sum_after(x, y, sum, cs.take(1)) == poly_eval(round_poly(x, y, sum), r1));
    }
    if challenges.len() == 1 {
        assert(cs.take(1) =~= cs);
        let state = receive_first::<F, EF>(pol_a, pol_b, &first, r1);
        polys.push(first);
        return (polys, state);
    }
    let first_sum = first.evaluate(r1);
    polys.push(first);
    let r2 = challenges[1];
    let (second, evals, weights) = fold_and_compute_product_sumcheck_polynomial::<F, EF>(
        pol_a,
        pol_b,
        r1,
        first_sum,
    );
    proof {
        lemma_half_pow2(pol_a@.len() as int);
        lemma_round_possible(x, cs.take(1), cs.len() as int);
        assert(cs.take(2).drop_last() =~= cs.take(1));
        assert(cs.take(2).last() == r2);
    }
    let mut state = SumcheckSingle { evals, weights, sum: first_sum };
    state.receive(&second, r2);
    polys.push(second);
    let mut k: usize = 2;
    while k < challenges.len()
        invariant
            2 <= k <= cs.len(),
            cs == challenges@,
            state.wf(),
            x.len() == y.len(),
            enough_variables(x.len() as int, cs.len() as int),
            state.evals@ == folded_by(x, cs.take(k as int)),
            state.weights@ == folded_by(y, cs.take(k as int)),
            state.sum == sum_after(x, y, sum, cs.take(k as int)),
            polys@.len() == k,
            forall|j: int|
                0 <= j < k ==> (#[trigger] polys@[j]).coeffs@ == poly_after(x, y, sum, cs.take(j)),
        decreases cs.len() - k,
    {
        let poly = state.round_polynomial();
        let r = challenges[k];
        proof {
            lemma_round_possible(x, cs.take(k as int), cs.len() as int);
            assert(cs.take(k + 1).drop_last() =~= cs.take(k as int));
            assert(cs.take(k + 1).last() == r);
        }
        state.receive(&poly, r);
        polys.push(poly);
        k += 1;
    }
    assert(cs.take(cs.len() as int) =~= cs);
    (polys, state)
}

} // verus!
