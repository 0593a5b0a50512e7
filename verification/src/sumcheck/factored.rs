//! Product sumcheck with weights given by factors.
//!
//! The weight at position `j * n_bot + t` is `top_a[j] * bot_a[t] + top_b[j] * bot_b[t]` plus a
//! correction. The first round works on the factors, so that the weights never have to be
//! written out in full.

use crate::field::{Algebra, Ring};
use crate::math::lemma_pow2_base;
use crate::ring::{
    lemma_minus_of_sums, lemma_plus_times, lemma_swap_inner, lemma_times_minus, lemma_zero_times,
};
use crate::sumcheck::product::{
    fold, fold_base, fold_ext, lemma_half_pow2, poly_eval, product_sumcheck_polynomial, round_poly,
    upper, with_linear, DensePolynomial,
};
use crate::sumcheck::rounds::{
    enough_variables, folded_by, lemma_round_possible, poly_after, sent_polys, sum_after, SumcheckSingle,
};
use crate::sumcheck::vectors::{
    dot, lemma_dot_append, lemma_dot_plus_left, lemma_dot_plus_right, lemma_dot_scale_left,
    lemma_dot_scale_right, lemma_total_plus, lifted, products, total, vminus, vplus, vscale,
};
use vstd::arithmetic::power2::pow2;
use vstd::prelude::*;

verus! {

/// Weights by their factors.
#[derive(Debug)]
pub struct FactoredWeights<EF> {
    pub eq_top_a: Vec<EF>,
    pub eq_top_b: Vec<EF>,
    pub eq_bot_a: Vec<EF>,
    pub eq_bot_b: Vec<EF>,
    pub corrections: Vec<EF>,
}

/// Row `j` of a vector that is cut into rows of `n` elements.
pub open spec fn row<R>(x: Seq<R>, j: int, n: int) -> Seq<R> {
    x.subrange(j * n, (j + 1) * n)
}

/// A row of weights.
pub open spec fn weight_row<R: Ring>(
    top_a: R,
    top_b: R,
    bot_a: Seq<R>,
    bot_b: Seq<R>,
    corrections: Seq<R>,
) -> Seq<R> {
    vplus(vplus(vscale(top_a, bot_a), vscale(top_b, bot_b)), corrections)
}

impl<EF: Ring> FactoredWeights<EF> {
    pub open spec fn n_top(self) -> int {
        self.eq_top_a@.len() as int
    }

    pub open spec fn n_bot(self) -> int {
        self.eq_bot_a@.len() as int
    }

    /// The factors fit together.
    pub open spec fn wf(self) -> bool {
        &&& self.eq_top_b@.len() == self.n_top()
        &&& self.eq_bot_b@.len() == self.n_bot()
        &&& self.corrections@.len() == self.n_top() * self.n_bot()
        &&& self.n_bot() > 0
    }

    /// The weights written out.
    pub open spec fn materialized(self) -> Seq<EF> {
        Seq::new(
            (self.n_top() * self.n_bot()) as nat,
            |i: int|
                self.eq_top_a@[i / self.n_bot()].times(self.eq_bot_a@[i % self.n_bot()]).plus(
                    self.eq_top_b@[i / self.n_bot()].times(self.eq_bot_b@[i % self.n_bot()]),
                ).plus(self.corrections@[i]),
        )
    }

    /// The weights' row `j`, by its factors.
    pub open spec fn factored_row(self, j: int) -> Seq<EF> {
        weight_row(
            self.eq_top_a@[j],
            self.eq_top_b@[j],
            self.eq_bot_a@,
            self.eq_bot_b@,
            row(self.corrections@, j, self.n_bot()),
        )
    }

    pub proof fn lemma_materialized_row(self, j: int)
        requires
            self.wf(),
            0 <= j < self.n_top(),
        ensures
            row(self.materialized(), j, self.n_bot()) == self.factored_row(j),
            0 <= j * self.n_bot(),
            (j + 1) * self.n_bot() <= self.n_top() * self.n_bot(),
    {
        let n = self.n_bot();
        lemma_row_bounds(j, self.n_top(), n);
        assert(row(self.materialized(), j, n) =~= self.factored_row(j)) by {
            assert forall|t: int| 0 <= t < n implies row(self.materialized(), j, n)[t]
                == self.factored_row(j)[t] by {
                lemma_position(j, t, n);
            }
        }
    }
}

proof fn lemma_row_bounds(j: int, m: int, n: int)
    requires
        0 <= j < m,
        n > 0,
    ensures
        0 <= j * n,
        (j + 1) * n == j * n + n,
        (j + 1) * n <= m * n,
{
    assert(0 <= j * n && (j + 1) * n == j * n + n && (j + 1) * n <= m * n) by (nonlinear_arith)
        requires
            0 <= j < m,
            n > 0,
    ;
}

proof fn lemma_position(j: int, t: int, n: int)
    requires
        0 <= j,
        0 <= t < n,
    ensures
        (j * n + t) / n == j,
        (j * n + t) % n == t,
{
    vstd::arithmetic::div_mod::lemma_fundamental_div_mod_converse(j * n + t, n, j, t);
}

/// The inner product of a row with a factored row.
proof fn lemma_dot_weight_row<R: Ring>(
    x: Seq<R>,
    top_a: R,
    top_b: R,
    bot_a: Seq<R>,
    bot_b: Seq<R>,
    corr: Seq<R>,
)
    requires
        x.len() == bot_a.len(),
        bot_a.len() == bot_b.len(),
        bot_b.len() == corr.len(),
    ensures
        dot(x, weight_row(top_a, top_b, bot_a, bot_b, corr)) == top_a.times(dot(x, bot_a)).plus(
            top_b.times(dot(x, bot_b)),
        ).plus(dot(x, corr)),
{
    lemma_dot_plus_right(x, vplus(vscale(top_a, bot_a), vscale(top_b, bot_b)), corr);
    lemma_dot_plus_right(x, vscale(top_a, bot_a), vscale(top_b, bot_b));
    lemma_dot_scale_right(top_a, x, bot_a);
    lemma_dot_scale_right(top_b, x, bot_b);
}

/// What the accumulators stand for: for each bottom position, the sums over the rows of the
/// elements weighted by the top factors, and of the corrections times the elements.
pub struct Accumulated<R> {
    pub a: Seq<R>,
    pub b: Seq<R>,
    pub c: Seq<R>,
}

/// The inner product that accumulators stand for.
pub open spec fn combined<R: Ring>(acc: Accumulated<R>, bot_a: Seq<R>, bot_b: Seq<R>) -> R {
    dot(acc.a, bot_a).plus(dot(acc.b, bot_b)).plus(total(acc.c))
}

pub open spec fn accumulate<R: Ring>(
    acc: Accumulated<R>,
    x: Seq<R>,
    top_a: R,
    top_b: R,
    corr: Seq<R>,
) -> Accumulated<R> {
    Accumulated {
        a: vplus(acc.a, vscale(top_a, x)),
        b: vplus(acc.b, vscale(top_b, x)),
        c: vplus(acc.c, products(x, corr)),
    }
}

/// Accumulating a row adds its inner product with its weights.
proof fn lemma_accumulate<R: Ring>(
    acc: Accumulated<R>,
    x: Seq<R>,
    top_a: R,
    top_b: R,
    corr: Seq<R>,
    bot_a: Seq<R>,
    bot_b: Seq<R>,
)
    requires
        x.len() == bot_a.len(),
        acc.a.len() == x.len(),
        acc.b.len() == x.len(),
        acc.c.len() == x.len(),
        bot_b.len() == x.len(),
        corr.len() == x.len(),
    ensures
        combined(accumulate(acc, x, top_a, top_b, corr), bot_a, bot_b) == combined(
            acc,
            bot_a,
            bot_b,
        ).plus(dot(x, weight_row(top_a, top_b, bot_a, bot_b, corr))),
{
    lemma_dot_weight_row(x, top_a, top_b, bot_a, bot_b, corr);
    lemma_dot_plus_left(acc.a, vscale(top_a, x), bot_a);
    lemma_dot_scale_left(top_a, x, bot_a);
    lemma_dot_plus_left(acc.b, vscale(top_b, x), bot_b);
    lemma_dot_scale_left(top_b, x, bot_b);
    lemma_total_plus(acc.c, products(x, corr));
    let (pa, qa) = (dot(acc.a, bot_a), top_a.times(dot(x, bot_a)));
    let (pb, qb) = (dot(acc.b, bot_b), top_b.times(dot(x, bot_b)));
    let (pc, qc) = (total(acc.c), dot(x, corr));
    lemma_swap_inner(pa, qa, pb, qb);
    lemma_swap_inner(pa.plus(pb), qa.plus(qb), pc, qc);
}

/// The rows' inner products with the rows of the weights, over the first `m` rows.
proof fn lemma_dot_rows<R: Ring>(x: Seq<R>, w: Seq<R>, m: int, n: int)
    requires
        x.len() == w.len(),
        0 <= m,
        n > 0,
        (m + 1) * n <= x.len(),
    ensures
        dot(x.take((m + 1) * n), w.take((m + 1) * n)) == dot(x.take(m * n), w.take(m * n)).plus(
            dot(row(x, m, n), row(w, m, n)),
        ),
{
    lemma_row_bounds(m, m + 1, n);
    let k = m * n;
    assert(x.take((m + 1) * n) =~= x.take(k) + row(x, m, n));
    assert(w.take((m + 1) * n) =~= w.take(k) + row(w, m, n));
    lemma_dot_append(x.take(k), w.take(k), row(x, m, n), row(w, m, n));
}

/// The number of positions in the rows of the first half.
pub open spec fn half_len(n_top: int, n_bot: int) -> int {
    n_top / 2 * n_bot
}

/// The first `h` elements.
pub open spec fn lower_at<R>(x: Seq<R>, h: int) -> Seq<R> {
    x.take(h)
}

/// The change from the first `h` elements to the next `h`.
pub open spec fn diff_at<R: Ring>(x: Seq<R>, h: int) -> Seq<R> {
    vminus(x.subrange(h, 2 * h), x.take(h))
}

/// The two parts of `h` elements each, folded.
pub open spec fn fold_at<R: Ring>(x: Seq<R>, h: int, r: R) -> Seq<R> {
    vplus(vscale(r, diff_at(x, h)), lower_at(x, h))
}

/// With at least two top factors the first round on the factors is the first round on the
/// weights written out: the same polynomial, and the same folded vectors.
pub proof fn law_factored_round_is_plain<R: Ring>(
    x: Seq<R>,
    w: Seq<R>,
    n_top: int,
    n_bot: int,
    sum: R,
    r: R,
)
    requires
        x.len() == n_top * n_bot,
        w.len() == n_top * n_bot,
        n_bot > 0,
        n_top >= 2,
        n_top % 2 == 0,
    ensures
        ({
            let h = half_len(n_top, n_bot);
            &&& with_linear(
                dot(lower_at(x, h), lower_at(w, h)),
                dot(diff_at(x, h), diff_at(w, h)),
                sum,
            ) == round_poly(x, w, sum)
            &&& fold_at(x, h, r) == fold(x, r)
            &&& fold_at(w, h, r) == fold(w, r)
        }),
{
    let h = half_len(n_top, n_bot);
    assert(n_top * n_bot == 2 * h) by (nonlinear_arith)
        requires
            n_top == 2 * (n_top / 2),
            h == n_top / 2 * n_bot,
    ;
    assert(x.subrange(h, 2 * h) =~= upper(x));
    assert(w.subrange(h, 2 * h) =~= upper(w));
}

/// The difference of two factored rows.
proof fn lemma_row_difference<R: Ring>(
    a_lo: R,
    b_lo: R,
    c_lo: Seq<R>,
    a_hi: R,
    b_hi: R,
    c_hi: Seq<R>,
    bot_a: Seq<R>,
    bot_b: Seq<R>,
)
    requires
        bot_a.len() == bot_b.len(),
        c_lo.len() == bot_a.len(),
        c_hi.len() == bot_a.len(),
    ensures
        vminus(
            weight_row(a_hi, b_hi, bot_a, bot_b, c_hi),
            weight_row(a_lo, b_lo, bot_a, bot_b, c_lo),
        ) == weight_row(a_hi.minus(a_lo), b_hi.minus(b_lo), bot_a, bot_b, vminus(c_hi, c_lo)),
{
    let left = vminus(
        weight_row(a_hi, b_hi, bot_a, bot_b, c_hi),
        weight_row(a_lo, b_lo, bot_a, bot_b, c_lo),
    );
    let right = weight_row(
        a_hi.minus(a_lo),
        b_hi.minus(b_lo),
        bot_a,
        bot_b,
        vminus(c_hi, c_lo),
    );
    assert forall|t: int| 0 <= t < bot_a.len() implies left[t] == right[t] by {
        let (ha, la) = (a_hi.times(bot_a[t]), a_lo.times(bot_a[t]));
        let (hb, lb) = (b_hi.times(bot_b[t]), b_lo.times(bot_b[t]));
        lemma_minus_of_sums(ha.plus(hb), c_hi[t], la.plus(lb), c_lo[t]);
        lemma_minus_of_sums(ha, hb, la, lb);
        lemma_times_minus(bot_a[t], a_hi, a_lo);
        lemma_times_minus(bot_b[t], b_hi, b_lo);
    }
    assert(left =~= right);
}

/// A row folded by its factors is the fold of the two rows.
proof fn lemma_row_fold<R: Ring>(
    a_lo: R,
    b_lo: R,
    c_lo: R,
    a_hi: R,
    b_hi: R,
    c_hi: R,
    bot_a: R,
    bot_b: R,
    r: R,
)
    ensures
        ({
            let w_hi = a_hi.times(bot_a).plus(b_hi.times(bot_b)).plus(c_hi);
            let w_lo = a_lo.times(bot_a).plus(b_lo.times(bot_b)).plus(c_lo);
            let a = r.times(a_hi.minus(a_lo)).plus(a_lo);
            let b = r.times(b_hi.minus(b_lo)).plus(b_lo);
            let c = r.times(c_hi.minus(c_lo)).plus(c_lo);
            a.times(bot_a).plus(b.times(bot_b)).plus(c) == r.times(w_hi.minus(w_lo)).plus(w_lo)
        }),
{
    let (ha, la) = (a_hi.times(bot_a), a_lo.times(bot_a));
    let (hb, lb) = (b_hi.times(bot_b), b_lo.times(bot_b));
    let da = a_hi.minus(a_lo);
    let db = b_hi.minus(b_lo);
    let dc = c_hi.minus(c_lo);
    // (r da + a_lo) bot_a = r (ha - la) + la
    lemma_plus_times(r.times(da), a_lo, bot_a);
    R::law_times_associates(r, da, bot_a);
    lemma_times_minus(bot_a, a_hi, a_lo);
    lemma_plus_times(r.times(db), b_lo, bot_b);
    R::law_times_associates(r, db, bot_b);
    lemma_times_minus(bot_b, b_hi, b_lo);
    let ra = r.times(ha.minus(la));
    let rb = r.times(hb.minus(lb));
    let rc = r.times(dc);
    // (ra + la) + (rb + lb) = (ra + rb) + (la + lb)
    lemma_swap_inner(ra, la, rb, lb);
    lemma_swap_inner(ra.plus(rb), la.plus(lb), rc, c_lo);
    // ra + rb + rc = r (w_hi - w_lo)
    R::law_distributes(r, ha.minus(la), hb.minus(lb));
    R::law_distributes(r, ha.minus(la).plus(hb.minus(lb)), dc);
    lemma_minus_of_sums(ha.plus(hb), c_hi, la.plus(lb), c_lo);
    lemma_minus_of_sums(ha, hb, la, lb);
}

/// Adds `scale * x` to an accumulator.
fn add_scaled<F: Ring, EF: Algebra<F>>(acc: &mut Vec<EF>, scale: EF, x: &Vec<F>)
    requires
        old(acc)@.len() == x@.len(),
    ensures
        final(acc)@ == vplus(old(acc)@, vscale(scale, lifted::<F, EF>(x@))),
{
    let mut t: usize = 0;
    let ghost target = vplus(acc@, vscale(scale, lifted::<F, EF>(x@)));
    while t < x.len()
        invariant
            t <= x@.len(),
            acc@.len() == x@.len(),
            old(acc)@.len() == x@.len(),
            target == vplus(old(acc)@, vscale(scale, lifted::<F, EF>(x@))),
            forall|i: int|
                0 <= i < x@.len() ==> #[trigger] acc@[i] == if i < t {
                    target[i]
                } else {
                    old(acc)@[i]
                },
        decreases x@.len() - t,
    {
        let v = acc[t].add(scale.mul_base(x[t]));
        acc.set(t, v);
        t += 1;
    }
    assert(acc@ =~= target);
}

/// Adds the products of `x` and `corr` to an accumulator.
fn add_products<F: Ring, EF: Algebra<F>>(acc: &mut Vec<EF>, x: &Vec<F>, corr: &Vec<EF>)
    requires
        old(acc)@.len() == x@.len(),
        corr@.len() == x@.len(),
    ensures
        final(acc)@ == vplus(old(acc)@, products(lifted::<F, EF>(x@), corr@)),
{
    let mut t: usize = 0;
    let ghost target = vplus(acc@, products(lifted::<F, EF>(x@), corr@));
    while t < x.len()
        invariant
            t <= x@.len(),
            acc@.len() == x@.len(),
            old(acc)@.len() == x@.len(),
            corr@.len() == x@.len(),
            target == vplus(old(acc)@, products(lifted::<F, EF>(x@), corr@)),
            forall|i: int|
                0 <= i < x@.len() ==> #[trigger] acc@[i] == if i < t {
                    target[i]
                } else {
                    old(acc)@[i]
                },
        decreases x@.len() - t,
    {
        let v = acc[t].add(corr[t].mul_base(x[t]));
        acc.set(t, v);
        t += 1;
    }
    assert(acc@ =~= target);
}

/// Copies row `j`.
fn copy_row<R: Ring>(x: &[R], j: usize, n: usize) -> (r: Vec<R>)
    requires
        j * n + n <= x@.len(),
    ensures
        r@ == row(x@, j as int, n as int),
{
    let len: usize = x.len();
    assert((j + 1) * n == j * n + n) by (nonlinear_arith);
    assert(0 <= j * n) by (nonlinear_arith);
    let start: usize = j * n;
    let mut out: Vec<R> = Vec::new();
    let mut t: usize = 0;
    while t < n
        invariant
            t <= n,
            len == x.len(),
            start == j * n,
            start + n <= len,
            (j + 1) * n == j * n + n,
            out@.len() == t,
            forall|i: int| 0 <= i < t ==> #[trigger] out@[i] == x@[start + i],
        decreases n - t,
    {
        out.push(x[start + t]);
        t += 1;
    }
    assert(out@ =~= row(x@, j as int, n as int));
    out
}

/// The differences of two rows.
fn row_difference<R: Ring>(hi: &Vec<R>, lo: &Vec<R>) -> (r: Vec<R>)
    requires
        hi@.len() == lo@.len(),
    ensures
        r@ == vminus(hi@, lo@),
{
    let mut out: Vec<R> = Vec::new();
    let mut t: usize = 0;
    while t < hi.len()
        invariant
            t <= hi@.len(),
            hi@.len() == lo@.len(),
            out@.len() == t,
            forall|i: int| 0 <= i < t ==> #[trigger] out@[i] == hi@[i].minus(lo@[i]),
        decreases hi@.len() - t,
    {
        out.push(hi[t].sub(lo[t]));
        t += 1;
    }
    assert(out@ =~= vminus(hi@, lo@));
    out
}

/// The inner product that accumulators stand for.
fn combine<EF: Ring>(
    acc_a: &Vec<EF>,
    acc_b: &Vec<EF>,
    acc_c: &Vec<EF>,
    bot_a: &Vec<EF>,
    bot_b: &Vec<EF>,
) -> (r: EF)
    requires
        acc_a@.len() == bot_a@.len(),
        acc_b@.len() == bot_a@.len(),
        acc_c@.len() == bot_a@.len(),
        bot_b@.len() == bot_a@.len(),
    ensures
        r == combined(
            (Accumulated { a: acc_a@, b: acc_b@, c: acc_c@ }),
            bot_a@,
            bot_b@,
        ),
{
    let ghost pa = products(acc_a@, bot_a@);
    let ghost pb = products(acc_b@, bot_b@);
    let ghost terms = vplus(vplus(pa, pb), acc_c@);
    let mut sum = EF::zero();
    let mut t: usize = 0;
    assert(terms.take(0).len() == 0);
    while t < bot_a.len()
        invariant
            t <= bot_a@.len(),
            acc_a@.len() == bot_a@.len(),
            acc_b@.len() == bot_a@.len(),
            acc_c@.len() == bot_a@.len(),
            bot_b@.len() == bot_a@.len(),
            pa == products(acc_a@, bot_a@),
            pb == products(acc_b@, bot_b@),
            terms == vplus(vplus(pa, pb), acc_c@),
            sum == total(terms.take(t as int)),
        decreases bot_a@.len() - t,
    {
        let a = bot_a[t].mul(acc_a[t]);
        let b = bot_b[t].mul(acc_b[t]);
        sum = sum.add(a.add(b).add(acc_c[t]));
        proof {
            assert(terms.take(t + 1).drop_last() =~= terms.take(t as int));
            assert(terms.take(t + 1).last() == terms[t as int]);
        }
        t += 1;
    }
    proof {
        assert(terms.take(t as int) =~= terms);
        lemma_total_plus(vplus(pa, pb), acc_c@);
        lemma_total_plus(pa, pb);
    }
    sum
}

fn zero_vec<R: Ring>(n: usize) -> (r: Vec<R>)
    ensures
        r@ == Seq::new(n as nat, |i: int| R::ring_zero()),
{
    let mut out: Vec<R> = Vec::new();
    let mut i: usize = 0;
    while i < n
        invariant
            i <= n,
            out@.len() == i,
            forall|j: int| 0 <= j < i ==> #[trigger] out@[j] == R::ring_zero(),
        decreases n - i,
    {
        out.push(R::zero());
        i += 1;
    }
    assert(out@ =~= Seq::new(n as nat, |i: int| R::ring_zero()));
    out
}

/// Accumulators at zero stand for zero.
proof fn lemma_zero_accumulated<R: Ring>(n: nat, bot_a: Seq<R>, bot_b: Seq<R>)
    ensures
        ({
            let z = Seq::new(n, |i: int| R::ring_zero());
            combined(Accumulated { a: z, b: z, c: z }, bot_a, bot_b) == R::ring_zero()
        }),
{
    let z = Seq::new(n, |i: int| R::ring_zero());
    assert forall|i: int| 0 <= i < n implies #[trigger] products(z, bot_a)[i]
        == R::ring_zero() by {
        lemma_zero_times(bot_a[i]);
    }
    assert forall|i: int| 0 <= i < n implies #[trigger] products(z, bot_b)[i]
        == R::ring_zero() by {
        lemma_zero_times(bot_b[i]);
    }
    crate::sumcheck::vectors::lemma_total_zeros(products(z, bot_a));
    crate::sumcheck::vectors::lemma_total_zeros(products(z, bot_b));
    crate::sumcheck::vectors::lemma_total_zeros(z);
    R::law_closed(R::ring_zero(), R::ring_zero(), 0);
    R::law_plus_zero(R::ring_zero());
}

/// The outer coefficients of the first round's polynomial, from the factors of the weights.
fn compute_factored_round_poly_base<F: Ring, EF: Algebra<F>>(
    evals: &[F],
    factored: &FactoredWeights<EF>,
) -> (r: (EF, EF))
    requires
        factored.wf(),
        evals@.len() == factored.n_top() * factored.n_bot(),
    ensures
        ({
            let h = half_len(factored.n_top(), factored.n_bot());
            let x = lifted::<F, EF>(evals@);
            let w = factored.materialized();
            &&& r.0 == dot(lower_at(x, h), lower_at(w, h))
            &&& r.1 == dot(diff_at(x, h), diff_at(w, h))
        }),
{
    let n_top: usize = factored.eq_top_a.len();
    let n_bot: usize = factored.eq_bot_a.len();
    let half_top: usize = n_top / 2;
    let n: usize = evals.len();
    let ghost x = lifted::<F, EF>(evals@);
    let ghost w = factored.materialized();
    let ghost h = half_len(n_top as int, n_bot as int);
    let ghost (bot_a, bot_b) = (factored.eq_bot_a@, factored.eq_bot_b@);
    let ghost (dx, dw) = (diff_at(x, h), diff_at(w, h));
    proof {
        assert(2 * h <= n && 0 <= h) by (nonlinear_arith)
            requires
                h == n_top as int / 2 * n_bot,
                n == n_top * n_bot,
        ;
    }
    let mut c0_a = zero_vec::<EF>(n_bot);
    let mut c0_b = zero_vec::<EF>(n_bot);
    let mut c0_c = zero_vec::<EF>(n_bot);
    let mut c2_a = zero_vec::<EF>(n_bot);
    let mut c2_b = zero_vec::<EF>(n_bot);
    let mut c2_c = zero_vec::<EF>(n_bot);
    proof {
        lemma_zero_accumulated(n_bot as nat, bot_a, bot_b);
        assert(x.take(0 * n_bot).len() == 0 && dx.take(0 * n_bot).len() == 0);
        assert(products(x.take(0 * n_bot), w.take(0 * n_bot)).len() == 0);
        assert(products(dx.take(0 * n_bot), dw.take(0 * n_bot)).len() == 0);
    }
    let mut j: usize = 0;
    while j < half_top
        invariant
            j <= half_top,
            factored.wf(),
            n_top == factored.n_top(),
            n_bot == factored.n_bot(),
            half_top == n_top / 2,
            n == evals.len(),
            n == evals@.len(),
            n == n_top * n_bot,
            h == half_top * n_bot,
            0 <= h,
            2 * h <= n,
            x == lifted::<F, EF>(evals@),
            w == factored.materialized(),
            dx == diff_at(x, h),
            dw == diff_at(w, h),
            bot_a == factored.eq_bot_a@,
            bot_b == factored.eq_bot_b@,
            c0_a@.len() == n_bot,
            c0_b@.len() == n_bot,
            c0_c@.len() == n_bot,
            c2_a@.len() == n_bot,
            c2_b@.len() == n_bot,
            c2_c@.len() == n_bot,
            combined((Accumulated { a: c0_a@, b: c0_b@, c: c0_c@ }), bot_a, bot_b) == dot(
                x.take(j * n_bot),
                w.take(j * n_bot),
            ),
            combined((Accumulated { a: c2_a@, b: c2_b@, c: c2_c@ }), bot_a, bot_b) == dot(
                dx.take(j * n_bot),
                dw.take(j * n_bot),
            ),
        decreases half_top - j,
    {
        proof {
            lemma_row_bounds(j as int, half_top as int, n_bot as int);
            lemma_row_bounds(j + half_top, n_top as int, n_bot as int);
            assert((j + half_top) * n_bot == j * n_bot + h) by (nonlinear_arith)
                requires
                    h == half_top * n_bot,
            ;
            factored.lemma_materialized_row(j as int);
            factored.lemma_materialized_row(j + half_top);
        }
        let a_lo = factored.eq_top_a[j];
        let a_hi = factored.eq_top_a[j + half_top];
        let b_lo = factored.eq_top_b[j];
        let b_hi = factored.eq_top_b[j + half_top];
        let e_lo = copy_row(evals, j, n_bot);
        let e_hi = copy_row(evals, j + half_top, n_bot);
        let corr_lo = copy_row(factored.corrections.as_slice(), j, n_bot);
        let corr_hi = copy_row(factored.corrections.as_slice(), j + half_top, n_bot);
        let e_diff = row_difference(&e_hi, &e_lo);
        let corr_diff = row_difference(&corr_hi, &corr_lo);
        let ghost acc0 = Accumulated { a: c0_a@, b: c0_b@, c: c0_c@ };
        let ghost acc2 = Accumulated { a: c2_a@, b: c2_b@, c: c2_c@ };
        let a_diff = a_hi.sub(a_lo);
        let b_diff = b_hi.sub(b_lo);
        add_scaled::<F, EF>(&mut c0_a, a_lo, &e_lo);
        add_scaled::<F, EF>(&mut c0_b, b_lo, &e_lo);
        add_products::<F, EF>(&mut c0_c, &e_lo, &corr_lo);
        add_scaled::<F, EF>(&mut c2_a, a_diff, &e_diff);
        add_scaled::<F, EF>(&mut c2_b, b_diff, &e_diff);
        add_products::<F, EF>(&mut c2_c, &e_diff, &corr_diff);
        proof {
            let (ji, jh, nb) = (j as int, j + half_top, n_bot as int);
            let xl = lifted::<F, EF>(e_lo@);
            let xd = lifted::<F, EF>(e_diff@);
            assert(xl =~= row(x, ji, nb));
            assert(lifted::<F, EF>(e_hi@) =~= row(x, jh, nb));
            assert(xd =~= vminus(row(x, jh, nb), row(x, ji, nb))) by {
                assert forall|t: int| 0 <= t < nb implies xd[t] == vminus(
                    row(x, jh, nb),
                    row(x, ji, nb),
                )[t] by {
                    EF::law_lift(e_hi@[t], e_lo@[t]);
                    assert(lifted::<F, EF>(e_hi@)[t] == row(x, jh, nb)[t]);
                    assert(xl[t] == row(x, ji, nb)[t]);
                }
            }
            lemma_accumulate(acc0, xl, a_lo, b_lo, corr_lo@, bot_a, bot_b);
            lemma_dot_rows(x, w, ji, nb);
            lemma_accumulate(acc2, xd, a_diff, b_diff, corr_diff@, bot_a, bot_b);
            lemma_dot_rows(dx, dw, ji, nb);
            assert(row(dx, ji, nb) =~= xd);
            lemma_row_difference(
                a_lo,
                b_lo,
                corr_lo@,
                a_hi,
                b_hi,
                corr_hi@,
                bot_a,
                bot_b,
            );
            assert(row(dw, ji, nb) =~= vminus(row(w, jh, nb), row(w, ji, nb)));
        }
        j += 1;
    }
    let c0 = combine(&c0_a, &c0_b, &c0_c, &factored.eq_bot_a, &factored.eq_bot_b);
    let c2 = combine(&c2_a, &c2_b, &c2_c, &factored.eq_bot_a, &factored.eq_bot_b);
    assert(dx.take(h) =~= dx && dw.take(h) =~= dw);
    (c0, c2)
}

/// The folded weights, from the factors.
fn materialize_and_fold_factored<EF: Ring>(factored: &FactoredWeights<EF>, r: EF) -> (out: Vec<EF>)
    requires
        factored.wf(),
        factored.n_top() * factored.n_bot() <= usize::MAX,
    ensures
        out@ == fold_at(
            factored.materialized(),
            half_len(factored.n_top(), factored.n_bot()),
            r,
        ),
{
    let n_top: usize = factored.eq_top_a.len();
    let n_bot: usize = factored.eq_bot_a.len();
    let half_top: usize = n_top / 2;
    let ghost w = factored.materialized();
    let ghost h = half_len(n_top as int, n_bot as int);
    let ghost target = fold_at(w, h, r);
    proof {
        assert(2 * h <= n_top * n_bot && 0 <= h) by (nonlinear_arith)
            requires
                h == n_top as int / 2 * n_bot,
        ;
    }
    let mut out: Vec<EF> = Vec::new();
    let mut j: usize = 0;
    while j < half_top
        invariant
            j <= half_top,
            factored.wf(),
            n_top == factored.n_top(),
            n_bot == factored.n_bot(),
            n_top * n_bot <= usize::MAX,
            half_top == n_top / 2,
            h == half_top * n_bot,
            2 * h <= n_top * n_bot,
            w == factored.materialized(),
            target == fold_at(w, h, r),
            out@.len() == j * n_bot,
            forall|i: int| 0 <= i < j * n_bot ==> #[trigger] out@[i] == target[i],
        decreases half_top - j,
    {
        proof {
            lemma_row_bounds(j as int, half_top as int, n_bot as int);
            lemma_row_bounds(j + half_top, n_top as int, n_bot as int);
            assert((j + half_top) * n_bot == j * n_bot + h) by (nonlinear_arith)
                requires
                    h == half_top * n_bot,
            ;
        }
        let lo_start: usize = j * n_bot;
        let hi_start: usize = (j + half_top) * n_bot;
        let a_lo = factored.eq_top_a[j];
        let a_hi = factored.eq_top_a[j + half_top];
        let b_lo = factored.eq_top_b[j];
        let b_hi = factored.eq_top_b[j + half_top];
        let a_folded = r.mul(a_hi.sub(a_lo)).add(a_lo);
        let b_folded = r.mul(b_hi.sub(b_lo)).add(b_lo);
        let mut t: usize = 0;
        while t < n_bot
            invariant
                t <= n_bot,
                j < half_top,
                factored.wf(),
                n_top == factored.n_top(),
                n_bot == factored.n_bot(),
                half_top == n_top / 2,
                h == half_top * n_bot,
                2 * h <= n_top * n_bot,
                n_top * n_bot <= usize::MAX,
                w == factored.materialized(),
                target == fold_at(w, h, r),
                lo_start == j * n_bot,
                hi_start == lo_start + h,
                hi_start == (j + half_top) * n_bot,
                lo_start + n_bot <= h,
                a_lo == factored.eq_top_a@[j as int],
                a_hi == factored.eq_top_a@[j + half_top],
                b_lo == factored.eq_top_b@[j as int],
                b_hi == factored.eq_top_b@[j + half_top],
                a_folded == r.times(a_hi.minus(a_lo)).plus(a_lo),
                b_folded == r.times(b_hi.minus(b_lo)).plus(b_lo),
                out@.len() == lo_start + t,
                forall|i: int| 0 <= i < lo_start + t ==> #[trigger] out@[i] == target[i],
            decreases n_bot - t,
        {
            let w_factored = a_folded.mul(factored.eq_bot_a[t]).add(
                b_folded.mul(factored.eq_bot_b[t]),
            );
            let c_lo = factored.corrections[lo_start + t];
            let c_hi = factored.corrections[hi_start + t];
            let c_folded = r.mul(c_hi.sub(c_lo)).add(c_lo);
            out.push(w_factored.add(c_folded));
            proof {
                let i = lo_start + t;
                lemma_position(j as int, t as int, n_bot as int);
                lemma_position(j + half_top, t as int, n_bot as int);
                lemma_row_fold(
                    a_lo,
                    b_lo,
                    c_lo,
                    a_hi,
                    b_hi,
                    c_hi,
                    factored.eq_bot_a@[t as int],
                    factored.eq_bot_b@[t as int],
                    r,
                );
                assert(w.subrange(h, 2 * h)[i] == w[h + i]);
                assert(target[i] == r.times(w[h + i].minus(w[i])).plus(w[i]));
            }
            t += 1;
        }
        j += 1;
    }
    assert(out@ =~= target);
    out
}

/// The polynomial to send in the first round.
pub fn factored_round_polynomial<F: Ring, EF: Algebra<F>>(
    evals: &[F],
    factored: &FactoredWeights<EF>,
    sum: EF,
) -> (r: DensePolynomial<EF>)
    requires
        factored.wf(),
        evals@.len() == factored.n_top() * factored.n_bot(),
    ensures
        ({
            let x = lifted::<F, EF>(evals@);
            let w = factored.materialized();
            let h = half_len(factored.n_top(), factored.n_bot());
            r.coeffs@ == with_linear(
                dot(lower_at(x, h), lower_at(w, h)),
                dot(diff_at(x, h), diff_at(w, h)),
                sum,
            )
        }),
{
    let (c0, c2) = compute_factored_round_poly_base::<F, EF>(evals, factored);
    let c1 = sum.sub(c0.double()).sub(c2);
    let coeffs = vec![c0, c1, c2];
    assert(coeffs@ =~= with_linear(c0, c2, sum));
    DensePolynomial::new(coeffs)
}

/// Takes the first challenge, in answer to `poly`: from here on the weights are one vector.
pub fn receive_first_factored<F: Ring, EF: Algebra<F>>(
    evals: &[F],
    factored: &FactoredWeights<EF>,
    poly: &DensePolynomial<EF>,
    r: EF,
) -> (out: SumcheckSingle<EF>)
    requires
        factored.wf(),
        evals@.len() == factored.n_top() * factored.n_bot(),
    ensures
        out.evals@ == fold(lifted::<F, EF>(evals@), r),
        out.weights@ == fold_at(
            factored.materialized(),
            half_len(factored.n_top(), factored.n_bot()),
            r,
        ),
        out.sum == poly_eval(poly.coeffs@, r),
{
    let len: usize = evals.len();
    assert(factored.n_top() * factored.n_bot() <= len);
    let weights = materialize_and_fold_factored(factored, r);
    let evals = fold_base::<F, EF>(evals, r);
    SumcheckSingle { evals, weights, sum: poly.evaluate(r) }
}

/// Runs a product sumcheck with factored weights: one round for each challenge. The vectors are
/// left as they were before the last challenge where there are exactly three.
pub fn run_product_sumcheck_factored<F: Ring, EF: Algebra<F>>(
    evals: &[F],
    factored: &FactoredWeights<EF>,
    sum: EF,
    challenges: &[EF],
) -> (r: (Vec<DensePolynomial<EF>>, SumcheckSingle<EF>))
    requires
        factored.wf(),
        evals@.len() == factored.n_top() * factored.n_bot(),
        exists|k: nat| #[trigger] pow2(k) == factored.n_top(),
        exists|k: nat| #[trigger] pow2(k) == factored.n_bot(),
        challenges@.len() >= 1,
        challenges@.len() >= 2 ==> factored.n_top() >= 2,
        enough_variables(evals@.len() as int, challenges@.len() as int),
    ensures
        r.0@.len() == challenges@.len(),
        ({
            let x = lifted::<F, EF>(evals@);
            let w = factored.materialized();
            let h = half_len(factored.n_top(), factored.n_bot());
            let cs = challenges@;
            let c0 = dot(lower_at(x, h), lower_at(w, h));
            let c2 = dot(diff_at(x, h), diff_at(w, h));
            &&& cs.len() == 1 ==> {
                &&& r.0@[0].coeffs@ == with_linear(c0, c2, sum)
                &&& r.1.sum == poly_eval(with_linear(c0, c2, sum), cs[0])
                &&& r.1.evals@ == fold(x, cs[0])
                &&& r.1.weights@ == fold_at(w, h, cs[0])
            }
            &&& cs.len() >= 2 ==> {
                let done = if cs.len() == 3 {
                    cs.take(2)
                } else {
                    cs
                };
                &&& sent_polys(x, w, sum, cs, r.0@)
                &&& r.1.sum == sum_after(x, w, sum, cs)
                &&& r.1.evals@ == folded_by(x, done)
                &&& r.1.weights@ == folded_by(w, done)
            }
        }),
{
    let ghost x = lifted::<F, EF>(evals@);
    let ghost w = factored.materialized();
    let ghost cs = challenges@;
    let ghost h = half_len(factored.n_top(), factored.n_bot());
    let mut polys: Vec<DensePolynomial<EF>> = Vec::new();
    let first = factored_round_polynomial::<F, EF>(evals, factored, sum);
    let r1 = challenges[0];
    let folded = receive_first_factored::<F, EF>(evals, factored, &first, r1);
    polys.push(first);
    if challenges.len() == 1 {
        return (polys, folded);
    }
    let SumcheckSingle { evals: evals_folded, weights: weights_folded, sum: first_sum } = folded;
    proof {
        lemma_half_pow2(factored.n_top());
        law_factored_round_is_plain(x, w, factored.n_top(), factored.n_bot(), sum, r1);
        let k = choose|k: nat| #[trigger] pow2(k) == evals@.len() && k >= cs.len();
        lemma_pow2_base();
        crate::math::lemma_pow2_monotone(2, k);
        lemma_half_pow2(evals@.len() as int);
        assert(evals_folded@.len() == weights_folded@.len());
        lemma_half_pow2(evals@.len() as int / 2);
        assert(cs.take(0).len() == 0);
        assert(cs.take(1).drop_last() =~= cs.take(0) && cs.take(1).last() == r1);
        assert(folded_by(x, cs.take(0)) == x && folded_by(w, cs.take(0)) == w);
        assert(folded_by(x, cs.take(1)) == fold(x, r1));
        assert(folded_by(w, cs.take(1)) == fold(w, r1));
        assert(sum_after(x, w, sum, cs.take(0)) == sum);
        assert(poly_after(x, w, sum, cs.take(0)) == round_poly(x, w, sum));
        assert(sum_after(x, w, sum, cs.take(1)) == first_sum);
    }
    let second = product_sumcheck_polynomial(
        evals_folded.as_slice(),
        weights_folded.as_slice(),
        first_sum,
    );
    let r2 = challenges[1];
    let second_sum = second.evaluate(r2);
    polys.push(second);
    let evals_2 = fold_ext(evals_folded.as_slice(), r2);
    let weights_2 = fold_ext(weights_folded.as_slice(), r2);
    proof {
        assert(cs.take(2).drop_last() =~= cs.take(1) && cs.take(2).last() == r2);
        assert(folded_by(x, cs.take(2)) == evals_2@);
        assert(folded_by(w, cs.take(2)) == weights_2@);
        assert(poly_after(x, w, sum, cs.take(1)) == second.coeffs@);
        assert(sum_after(x, w, sum, cs.take(2)) == second_sum);
    }
    let mut state = SumcheckSingle { evals: evals_2, weights: weights_2, sum: second_sum };
    if challenges.len() == 2 {
        assert(cs.take(2) =~= cs);
        return (polys, state);
    }
    let third = state.round_polynomial();
    let r3 = challenges[2];
    let third_sum = third.evaluate(r3);
    proof {
        assert(cs.take(3).drop_last() =~= cs.take(2) && cs.take(3).last() == r3);
        assert(poly_after(x, w, sum, cs.take(2)) == third.coeffs@);
        assert(sum_after(x, w, sum, cs.take(3)) == third_sum);
    }
    if challenges.len() == 3 {
        state.sum = third_sum;
        polys.push(third);
        assert(cs.take(3) =~= cs);
        return (polys, state);
    }
    proof {
        lemma_round_possible(x, cs.take(2), cs.len() as int);
    }
    state.receive(&third, r3);
    polys.push(third);
    let mut k: usize = 3;
    while k < challenges.len()
        invariant
            3 <= k <= cs.len(),
            cs == challenges@,
            state.wf(),
            x.len() == w.len(),
            enough_variables(x.len() as int, cs.len() as int),
            state.evals@ == folded_by(x, cs.take(k as int)),
            state.weights@ == folded_by(w, cs.take(k as int)),
            state.sum == sum_after(x, w, sum, cs.take(k as int)),
            polys@.len() == k,
            forall|j: int|
                0 <= j < k ==> (#[trigger] polys@[j]).coeffs@ == poly_after(x, w, sum, cs.take(j)),
        decreases cs.len() - k,
    {
        let poly = state.round_polynomial();
        let r = challenges[k];
        proof {
            lemma_round_possible(x, cs.take(k as int), cs.len() as int);
            assert(cs.take(k + 1).drop_last() =~= cs.take(k as int));
            assert(cs.take(k + 1).last() == r);
        }
        state.receive(&poly, r);
        polys.push(poly);
        k += 1;
    }
    assert(cs.take(cs.len() as int) =~= cs);
    (polys, state)
}

} // verus!
