//! What the polynomials and vectors of a sumcheck round consist of.

use crate::field::{residue, Algebra, KoalaBear, Ring};
use crate::ring::lemma_zero_plus;
use crate::sumcheck::delayed::{coordinate, reduced};
use crate::sumcheck::factored::FactoredWeights;
use crate::sumcheck::product::{
    diff, fold, lower, poly_eval, round_poly, upper, DensePolynomial,
};
use crate::sumcheck::rounds::{
    enough_variables, folded_by, law_round_checks, law_sum_is_inner_product, poly_after,
    sent_polys, sum_after,
};
use crate::sumcheck::vectors::{
    all_canonical, dot, lemma_total_append, lemma_total_scale, lifted, total, vscale,
};
use vstd::prelude::*;

verus! {

/// The value of a polynomial is the sum of its coefficients, each times its power of the argument.
pub proof fn law_poly_eval<R: Ring>(coeffs: Seq<R>, x: R, c: Seq<R>, terms: Seq<R>)
    requires
        c.len() > 0,
        c.len() >= coeffs.len(),
        c[0] == R::ring_one(),
        forall|k: int| 0 < k < c.len() ==> #[trigger] c[k] == c[k - 1].times(x),
        terms.len() == coeffs.len(),
        forall|i: int| 0 <= i < coeffs.len() ==> #[trigger] terms[i] == c[i].times(coeffs[i]),
        forall|i: int| 0 <= i < coeffs.len() ==> (#[trigger] coeffs[i]).canonical(),
    ensures
        poly_eval(coeffs, x) == total(terms),
    decreases coeffs.len(),
{
    if coeffs.len() > 0 {
        let rest = coeffs.drop_first();
        let inner = Seq::new(rest.len(), |i: int| c[i].times(rest[i]));
        assert forall|i: int| 0 <= i < rest.len() implies (#[trigger] rest[i]).canonical() by {
            assert(rest[i] == coeffs[i + 1]);
        }
        law_poly_eval(rest, x, c, inner);
        let tail = terms.drop_first();
        assert forall|i: int| 0 <= i < tail.len() implies tail[i] == vscale(x, inner)[i] by {
            assert(tail[i] == terms[i + 1]);
            assert(terms[i + 1] == c[i + 1].times(coeffs[i + 1]));
            assert(c[i + 1] == c[i].times(x));
            R::law_times_commutes(c[i], x);
            R::law_times_associates(x, c[i], coeffs[i + 1]);
        }
        assert(tail =~= vscale(x, inner));
        lemma_total_scale(x, inner);
        let head = seq![terms[0]];
        assert(terms =~= head + tail);
        lemma_total_append(head, tail);
        assert(terms[0] == c[0].times(coeffs[0]));
        R::law_times_one(coeffs[0]);
        R::law_times_commutes(R::ring_one(), coeffs[0]);
        assert(total(head) == R::ring_zero().plus(head.last())) by {
            reveal_with_fuel(total, 2);
        }
        lemma_zero_plus(coeffs[0]);
    }
}

/// Folding takes a vector to half its length: entry `i` moves from the lower half's to the upper
/// half's along the line through both.
pub proof fn law_fold<R: Ring>(x: Seq<R>, r: R, i: int)
    requires
        x.len() % 2 == 0,
        0 <= i < x.len() as int / 2,
    ensures
        fold(x, r).len() == x.len() as int / 2,
        fold(x, r)[i] == x[i].plus(r.times(x[x.len() as int / 2 + i].minus(x[i]))),
{
    let h = x.len() as int / 2;
    assert(upper(x)[i] == x[h + i]);
    assert(lower(x)[i] == x[i]);
    R::law_plus_commutes(r.times(x[h + i].minus(x[i])), x[i]);
}

/// The polynomial of a round: its constant coefficient is the inner product of the lower halves,
/// its quadratic one that of the differences of the halves, and the linear one makes the values at
/// zero and one sum up to the claim.
pub proof fn law_round_coefficients<R: Ring>(
    x: Seq<R>,
    y: Seq<R>,
    sum: R,
    dx: Seq<R>,
    dy: Seq<R>,
)
    requires
        x.len() == y.len(),
        x.len() % 2 == 0,
        dx.len() == x.len() as int / 2,
        dy.len() == x.len() as int / 2,
        forall|i: int|
            0 <= i < dx.len() ==> #[trigger] dx[i] == x[x.len() as int / 2 + i].minus(x[i]),
        forall|i: int|
            0 <= i < dy.len() ==> #[trigger] dy[i] == y[y.len() as int / 2 + i].minus(y[i]),
    ensures
        ({
            let p = round_poly(x, y, sum);
            let h = x.len() as int / 2;
            &&& p.len() == 3
            &&& p[0] == dot(x.take(h), y.take(h))
            &&& p[2] == dot(dx, dy)
            &&& p[1] == sum.minus(p[0].plus(p[0])).minus(p[2])
        }),
{
    let h = x.len() as int / 2;
    assert(diff(x) =~= dx);
    assert(diff(y) =~= dy);
}

/// Before the first round nothing is folded and the claim stands.
pub proof fn law_no_rounds<R: Ring>(x: Seq<R>, y: Seq<R>, sum: R)
    ensures
        folded_by(x, Seq::empty()) == x,
        sum_after(x, y, sum, Seq::empty()) == sum,
{
}

/// What is sent in the rounds of a sumcheck checks: the first polynomial sums up to the claim, each
/// other one to the value of the one before it at its challenge, and the value of the last at its
/// challenge is the inner product of the folded vectors.
pub proof fn law_sent_polynomials<R: Ring>(
    x: Seq<R>,
    y: Seq<R>,
    cs: Seq<R>,
    polys: Seq<DensePolynomial<R>>,
    k: int,
)
    requires
        x.len() == y.len(),
        all_canonical(x),
        all_canonical(y),
        enough_variables(x.len() as int, cs.len() as int),
        sent_polys(x, y, dot(x, y), cs, polys),
        0 <= k < cs.len(),
    ensures
        polys.len() == cs.len(),
        poly_eval(polys[k].coeffs@, R::ring_zero()).plus(
            poly_eval(polys[k].coeffs@, R::ring_one()),
        ) == (if k == 0 {
            dot(x, y)
        } else {
            poly_eval(polys[k - 1].coeffs@, cs[k - 1])
        }),
        poly_eval(polys[cs.len() - 1].coeffs@, cs[cs.len() - 1]) == dot(
            folded_by(x, cs),
            folded_by(y, cs),
        ),
{
    crate::sumcheck::vectors::lemma_dot_canonical(x, y);
    law_round_checks(x, y, dot(x, y), cs.take(k));
    if k > 0 {
        assert(cs.take(k).drop_last() =~= cs.take(k - 1));
        assert(cs.take(k).last() == cs[k - 1]);
        assert(polys[k - 1].coeffs@ == poly_after(x, y, dot(x, y), cs.take(k - 1)));
    } else {
        assert(cs.take(0).len() == 0);
    }
    law_sum_is_inner_product(x, y, cs);
    let n = cs.len() - 1;
    assert(cs.drop_last() =~= cs.take(n));
    assert(polys[n].coeffs@ == poly_after(x, y, dot(x, y), cs.take(n)));
}

/// What a sum of products of Montgomery forms is reduced to, times `2^64`, is congruent to the sum.
pub proof fn law_reduced(acc: int)
    ensures
        (reduced(acc).value * 0x1_0000_0000_0000_0000) % 2_130_706_433 == acc % 2_130_706_433,
        reduced(acc).value < 2_130_706_433,
{
    let p = 2_130_706_433int;
    let a = residue(acc);
    let i = 1_606_320_385int;
    let v = reduced(acc).value as int;
    let r2 = 0x1_0000_0000_0000_0000int;
    vstd::arithmetic::div_mod::lemma_fundamental_div_mod(a * i, p);
    vstd::arithmetic::div_mod::lemma_fundamental_div_mod(acc, p);
    let q = (a * i) / p;
    let c = 13_906_834_176_474_087_423int;
    assert(i * r2 == p * c + 1);
    assert(v == a * i - p * q);
    let k = c * a - q * r2;
    assert(v * r2 == p * k + a) by (nonlinear_arith)
        requires
            v == a * i - p * q,
            i * r2 == p * c + 1,
            k == c * a - q * r2,
    ;
    vstd::arithmetic::div_mod::lemma_fundamental_div_mod_converse(v * r2, p, k, a);
}

/// The weights that a factored form stands for: in row `j`, place `i`, the products of the entries
/// of its two pairs of factors, and the correction.
pub proof fn law_materialized<EF: Ring>(f: FactoredWeights<EF>, j: int, i: int)
    requires
        f.wf(),
        0 <= j < f.eq_top_a@.len(),
        0 <= i < f.eq_bot_a@.len(),
    ensures
        f.n_top() == f.eq_top_a@.len(),
        f.n_bot() == f.eq_bot_a@.len(),
        f.materialized().len() == f.eq_top_a@.len() * f.eq_bot_a@.len(),
        ({
            let at = j * f.eq_bot_a@.len() + i;
            &&& 0 <= at < f.materialized().len()
            &&& f.materialized()[at] == f.eq_top_a@[j].times(f.eq_bot_a@[i]).plus(
                f.eq_top_b@[j].times(f.eq_bot_b@[i]),
            ).plus(f.corrections@[at])
        }),
{
    let n = f.eq_bot_a@.len() as int;
    let t = f.eq_top_a@.len() as int;
    let at = j * n + i;
    vstd::arithmetic::div_mod::lemma_fundamental_div_mod_converse(at, n, j, i);
    assert(0 <= at < t * n) by (nonlinear_arith)
        requires
            at == j * n + i,
            0 <= j < t,
            0 <= i < n,
    ;
}

/// A coordinate of a vector of extension elements is made of that coordinate of each.
pub proof fn law_coordinate<const DIM: usize>(v: Seq<[KoalaBear; DIM]>, j: int, i: int)
    requires
        0 <= j < DIM,
        0 <= i < v.len(),
    ensures
        coordinate(v, j).len() == v.len(),
        coordinate(v, j)[i] == v[i]@[j],
{
}

/// A vector lifted to an extension has the image of every entry.
pub proof fn law_lifted<F: Ring, EF: Algebra<F>>(s: Seq<F>, i: int)
    requires
        0 <= i < s.len(),
    ensures
        lifted::<F, EF>(s).len() == s.len(),
        lifted::<F, EF>(s)[i] == EF::lift(s[i]),
{
}

} // verus!
