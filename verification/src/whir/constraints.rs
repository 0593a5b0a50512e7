//! Equality constraints added to a running sumcheck, and the rounds that start it.

use crate::field::{Algebra, Ring};
use crate::poly::{eq_table, eval_eq, lemma_eq_table_len, mle_eval};
use crate::sumcheck::product::{
    compute_product_sumcheck_polynomial, round_poly, DensePolynomial,
};
use crate::sumcheck::rounds::{
    enough_variables, finish_product_sumcheck, folded_by, sent_polys, sum_after, SumcheckSingle,
};
use crate::sumcheck::vectors::{
    all_canonical, dot, lemma_dot_canonical, lemma_dot_plus_right, lemma_dot_scale_right, lifted, products, total,
    vplus, vscale,
};
use crate::whir::statement::{
    combinable, combine_statement, combine_statement_with_round0, combined_sum, combined_weights,
    lemma_combined_len, terms_of, SparseStatement,
};
use vstd::arithmetic::power2::pow2;
use vstd::prelude::*;

verus! {

/// The coordinates of points.
pub open spec fn point_views<EF>(points: Seq<Vec<EF>>) -> Seq<Seq<EF>> {
    Seq::new(points.len(), |i: int| points[i]@)
}

/// The images in an algebra of points over the base ring.
pub open spec fn lifted_points<F: Ring, EF: Algebra<F>>(points: Seq<Vec<F>>) -> Seq<Seq<EF>> {
    Seq::new(points.len(), |i: int| lifted::<F, EF>(points[i]@))
}

/// Weights with the equality tables of the first `m` points added, each times its scalar.
pub open spec fn with_equalities<R: Ring>(
    weights: Seq<R>,
    points: Seq<Seq<R>>,
    scalars: Seq<R>,
    m: nat,
) -> Seq<R>
    decreases m,
{
    if m == 0 {
        weights
    } else {
        vplus(
            with_equalities(weights, points, scalars, (m - 1) as nat),
            vscale(scalars[m - 1], eq_table(points[m - 1])),
        )
    }
}

pub proof fn lemma_with_equalities_len<R: Ring>(
    weights: Seq<R>,
    points: Seq<Seq<R>>,
    scalars: Seq<R>,
    m: nat,
)
    ensures
        with_equalities(weights, points, scalars, m).len() == weights.len(),
    decreases m,
{
    if m > 0 {
        lemma_with_equalities_len(weights, points, scalars, (m - 1) as nat);
    }
}

pub proof fn lemma_with_equalities_canonical<R: Ring>(
    weights: Seq<R>,
    points: Seq<Seq<R>>,
    scalars: Seq<R>,
    m: nat,
)
    requires
        all_canonical(weights),
    ensures
        all_canonical(with_equalities(weights, points, scalars, m)),
{
    let w = with_equalities(weights, points, scalars, m);
    assert forall|i: int| 0 <= i < w.len() implies (#[trigger] w[i]).canonical() by {
        if m > 0 {
            R::law_closed(
                with_equalities(weights, points, scalars, (m - 1) as nat)[i],
                vscale(scalars[m - 1], eq_table(points[m - 1]))[i],
                0,
            );
        }
    }
}

/// Adds `scalar` times the equality table of a point.
fn add_equality<R: Ring>(weights: &mut Vec<R>, point: &[R], scalar: R)
    requires
        old(weights)@.len() == pow2(point@.len()),
    ensures
        final(weights)@ == vplus(old(weights)@, vscale(scalar, eq_table(point@))),
{
    proof {
        lemma_eq_table_len(point@);
        assert(weights.len() == weights@.len());
    }
    let table = eval_eq(point, scalar);
    let ghost before = weights@;
    let ghost target = vplus(before, vscale(scalar, eq_table(point@)));
    let n: usize = weights.len();
    let mut i: usize = 0;
    while i < n
        invariant
            i <= n,
            n == weights@.len(),
            before.len() == n,
            table@.len() == n,
            table@ == vscale(scalar, eq_table(point@)),
            target == vplus(before, table@),
            forall|j: int|
                0 <= j < n ==> #[trigger] weights@[j] == if j < i {
                    target[j]
                } else {
                    before[j]
                },
        decreases n - i,
    {
        let v = weights[i].add(table[i]);
        weights.set(i, v);
        i += 1;
    }
    assert(weights@ =~= target);
}

/// The sum of the evaluations, each times its scalar.
pub(crate) fn weighted_sum<R: Ring>(scalars: &[R], evaluations: &[R]) -> (r: R)
    requires
        scalars@.len() == evaluations@.len(),
    ensures
        r == dot(evaluations@, scalars@),
{
    let ghost terms = products(evaluations@, scalars@);
    let mut acc = R::zero();
    let mut i: usize = 0;
    assert(terms.take(0).len() == 0);
    while i < scalars.len()
        invariant
            i <= scalars@.len(),
            scalars@.len() == evaluations@.len(),
            terms == products(evaluations@, scalars@),
            acc == total(terms.take(i as int)),
        decreases scalars@.len() - i,
    {
        acc = acc.add(scalars[i].mul(evaluations[i]));
        assert(terms.take(i + 1).drop_last() =~= terms.take(i as int));
        assert(terms.take(i + 1).last() == terms[i as int]);
        i += 1;
    }
    assert(terms.take(i as int) =~= terms);
    acc
}

impl<EF: Ring> SumcheckSingle<EF> {
    /// Adds the claims that the polynomial takes the given values at the given points, each times
    /// its scalar.
    pub fn add_new_equality(
        &mut self,
        points: &[Vec<EF>],
        evaluations: &[EF],
        combination_randomness: &[EF],
    )
        requires
            combination_randomness@.len() == points@.len(),
            evaluations@.len() == points@.len(),
            forall|i: int|
                0 <= i < points@.len() ==> pow2((#[trigger] points@[i])@.len()) == old(
                    self,
                ).weights@.len(),
        ensures
            final(self).evals == old(self).evals,
            final(self).weights@ == with_equalities(
                old(self).weights@,
                point_views(points@),
                combination_randomness@,
                points@.len(),
            ),
            final(self).sum == old(self).sum.plus(dot(evaluations@, combination_randomness@)),
    {
        let ghost before = self.weights@;
        let mut i: usize = 0;
        while i < points.len()
            invariant
                i <= points@.len(),
                combination_randomness@.len() == points@.len(),
                self.evals == old(self).evals,
                self.sum == old(self).sum,
                self.weights@.len() == before.len(),
                forall|j: int|
                    0 <= j < points@.len() ==> pow2((#[trigger] points@[j])@.len())
                        == before.len(),
                self.weights@ == with_equalities(
                    before,
                    point_views(points@),
                    combination_randomness@,
                    i as nat,
                ),
            decreases points@.len() - i,
        {
            assert(pow2(points@[i as int]@.len()) == before.len());
            add_equality(&mut self.weights, points[i].as_slice(), combination_randomness[i]);
            i += 1;
        }
        self.sum = self.sum.add(weighted_sum(combination_randomness, evaluations));
    }

    /// The same for points over the base ring.
    pub fn add_new_base_equality<F: Ring>(
        &mut self,
        points: &[Vec<F>],
        evaluations: &[EF],
        combination_randomness: &[EF],
    ) where EF: Algebra<F>
        requires
            combination_randomness@.len() == points@.len(),
            evaluations@.len() == points@.len(),
            forall|i: int|
                0 <= i < points@.len() ==> pow2((#[trigger] points@[i])@.len()) == old(
                    self,
                ).weights@.len(),
        ensures
            final(self).evals == old(self).evals,
            final(self).weights@ == with_equalities(
                old(self).weights@,
                lifted_points::<F, EF>(points@),
                combination_randomness@,
                points@.len(),
            ),
            final(self).sum == old(self).sum.plus(dot(evaluations@, combination_randomness@)),
    {
        let ghost before = self.weights@;
        let mut i: usize = 0;
        while i < points.len()
            invariant
                i <= points@.len(),
                combination_randomness@.len() == points@.len(),
                self.evals == old(self).evals,
                self.sum == old(self).sum,
                self.weights@.len() == before.len(),
                forall|j: int|
                    0 <= j < points@.len() ==> pow2((#[trigger] points@[j])@.len())
                        == before.len(),
                self.weights@ == with_equalities(
                    before,
                    lifted_points::<F, EF>(points@),
                    combination_randomness@,
                    i as nat,
                ),
            decreases points@.len() - i,
        {
            assert(pow2(points@[i as int]@.len()) == before.len());
            let point = lift_point::<F, EF>(points[i].as_slice());
            add_equality(&mut self.weights, point.as_slice(), combination_randomness[i]);
            i += 1;
        }
        self.sum = self.sum.add(weighted_sum(combination_randomness, evaluations));
    }

    /// Combines statements on a polynomial and runs one sumcheck round for each challenge. Returns
    /// the polynomials sent and the state after the last round.
    pub fn run_initial_sumcheck_rounds<F: Ring>(
        evals: &[F],
        statement: &[SparseStatement<EF>],
        next_tables: &[Vec<EF>],
        combination_randomness: EF,
        challenges: &[EF],
    ) -> (r: (Vec<DensePolynomial<EF>>, Self)) where EF: Algebra<F>
        requires
            statement@.len() > 0,
            combinable(
                statement@,
                next_tables@,
                statement@[0].total_num_variables as nat,
            ),
            evals@.len() == pow2(statement@[0].total_num_variables as nat),
            1 <= challenges@.len() <= statement@[0].total_num_variables,
        ensures
            ({
                let x = lifted::<F, EF>(evals@);
                let terms = terms_of(statement@, next_tables@, statement@.len());
                let w = combined_weights(terms, combination_randomness, evals@.len());
                let s = combined_sum(terms, combination_randomness);
                &&& r.1.wf()
                &&& r.1.evals@ == folded_by(x, challenges@)
                &&& r.1.weights@ == folded_by(w, challenges@)
                &&& r.1.sum == sum_after(x, w, s, challenges@)
                &&& sent_polys(x, w, s, challenges@, r.0@)
            }),
    {
        let ghost n = statement@[0].total_num_variables as nat;
        proof {
            assert(pow2(n) == evals@.len() && n >= challenges@.len());
            assert(enough_variables(evals@.len() as int, challenges@.len() as int));
            lemma_combined_len(
                terms_of(statement@, next_tables@, statement@.len()),
                combination_randomness,
                evals@.len(),
            );
        }
        let (weights, sum, first) = initial_polynomial::<F, EF>(
            evals,
            statement,
            next_tables,
            combination_randomness,
        );
        finish_product_sumcheck::<F, EF>(
            first,
            evals,
            weights.as_slice(),
            Ghost(sum),
            challenges,
        )
    }
}

/// Combines statements on a polynomial into weights and a claimed sum, and gives the polynomial to
/// send in the first round.
pub fn initial_polynomial<F: Ring, EF: Algebra<F>>(
    evals: &[F],
    statement: &[SparseStatement<EF>],
    next_tables: &[Vec<EF>],
    combination_randomness: EF,
) -> (r: (Vec<EF>, EF, DensePolynomial<EF>))
    requires
        statement@.len() > 0,
        combinable(statement@, next_tables@, statement@[0].total_num_variables as nat),
        evals@.len() == pow2(statement@[0].total_num_variables as nat),
        statement@[0].total_num_variables >= 1,
    ensures
        ({
            let terms = terms_of(statement@, next_tables@, statement@.len());
            &&& r.0@ == combined_weights(terms, combination_randomness, evals@.len())
            &&& r.0@.len() == evals@.len()
            &&& r.1 == combined_sum(terms, combination_randomness)
            &&& r.2.coeffs@ == round_poly(lifted::<F, EF>(evals@), r.0@, r.1)
        }),
{
    proof {
        lemma_combined_len(
            terms_of(statement@, next_tables@, statement@.len()),
            combination_randomness,
            evals@.len(),
        );
    }
    match combine_statement_with_round0::<F, EF>(
        statement,
        next_tables,
        combination_randomness,
        evals,
    ) {
        Some(fused) => fused,
        None => {
            let (weights, sum) = combine_statement(statement, next_tables, combination_randomness);
            let first = compute_product_sumcheck_polynomial::<F, EF>(
                evals,
                weights.as_slice(),
                sum,
            );
            (weights, sum, first)
        },
    }
}

pub(crate) fn lift_point<F: Ring, EF: Algebra<F>>(point: &[F]) -> (r: Vec<EF>)
    ensures
        r@ == lifted::<F, EF>(point@),
{
    let mut out: Vec<EF> = Vec::new();
    let mut i: usize = 0;
    while i < point.len()
        invariant
            i <= point@.len(),
            out@.len() == i,
            forall|j: int| 0 <= j < i ==> #[trigger] out@[j] == EF::lift(point@[j]),
        decreases point@.len() - i,
    {
        out.push(EF::from_base(point[i]));
        i += 1;
    }
    assert(out@ =~= lifted::<F, EF>(point@));
    out
}

/// Adding true claims keeps the claimed sum true: where it was the inner product of the
/// polynomial with the weights, it still is.
pub proof fn law_true_equalities_keep_sum<R: Ring>(
    f: Seq<R>,
    weights: Seq<R>,
    points: Seq<Seq<R>>,
    evaluations: Seq<R>,
    scalars: Seq<R>,
)
    requires
        f.len() == weights.len(),
        points.len() == scalars.len(),
        evaluations.len() == scalars.len(),
        forall|i: int|
            0 <= i < points.len() ==> pow2((#[trigger] points[i]).len()) == f.len(),
        forall|i: int|
            0 <= i < points.len() ==> #[trigger] evaluations[i] == mle_eval(f, points[i]),
    ensures
        dot(f, with_equalities(weights, points, scalars, points.len())) == dot(f, weights).plus(
            dot(evaluations, scalars),
        ),
{
    lemma_equalities_sum(f, weights, points, evaluations, scalars, points.len());
    assert(evaluations.take(points.len() as int) =~= evaluations);
    assert(scalars.take(points.len() as int) =~= scalars);
}

proof fn lemma_equalities_sum<R: Ring>(
    f: Seq<R>,
    weights: Seq<R>,
    points: Seq<Seq<R>>,
    evaluations: Seq<R>,
    scalars: Seq<R>,
    m: nat,
)
    requires
        f.len() == weights.len(),
        points.len() == scalars.len(),
        evaluations.len() == scalars.len(),
        m <= points.len(),
        forall|i: int|
            0 <= i < points.len() ==> pow2((#[trigger] points[i]).len()) == f.len(),
        forall|i: int|
            0 <= i < points.len() ==> #[trigger] evaluations[i] == mle_eval(f, points[i]),
    ensures
        dot(f, with_equalities(weights, points, scalars, m)) == dot(f, weights).plus(
            dot(evaluations.take(m as int), scalars.take(m as int)),
        ),
    decreases m,
{
    let sum = dot(f, weights);
    if m == 0 {
        let t = products(evaluations.take(0), scalars.take(0));
        assert(t.len() == 0);
        lemma_dot_canonical(f, weights);
        R::law_plus_zero(sum);
    } else {
        let p = (m - 1) as nat;
        lemma_equalities_sum(f, weights, points, evaluations, scalars, p);
        lemma_with_equalities_len(weights, points, scalars, p);
        let prev = with_equalities(weights, points, scalars, p);
        let (point, c) = (points[m - 1], scalars[m - 1]);
        assert(pow2(point.len()) == f.len());
        lemma_eq_table_len(point);
        lemma_dot_plus_right(f, prev, vscale(c, eq_table(point)));
        lemma_dot_scale_right(c, f, eq_table(point));
        assert(evaluations[m - 1] == mle_eval(f, point));
        let t = products(evaluations.take(m as int), scalars.take(m as int));
        let t0 = products(evaluations.take(p as int), scalars.take(p as int));
        assert(t.drop_last() =~= t0);
        assert(t.last() == c.times(evaluations[m - 1]));
        R::law_plus_associates(sum, total(t0), t.last());
    }
}

} // verus!
