//! Statements on a committed polynomial, and their random combination into one weighted sum.
//!
//! A statement claims values of the polynomial's blocks: with `n` variables in all and a point in
//! `m` of them, the block with selector `s` is the part of length `2^m` at `s * 2^m`.

use crate::field::{Algebra, Ring};
use crate::math::{lemma_pow2_monotone, pow2_usize};
use crate::poly::{eq_table, eval_eq, lemma_eq_table_len, mle_eval, power};
use crate::ring::{
    lemma_minus_of_sums, lemma_minus_plus, lemma_times_minus, lemma_zero_plus, lemma_zero_times,
};
use crate::sumcheck::product::{diff, lower, round_poly, upper, DensePolynomial};
use crate::sumcheck::vectors::{
    all_canonical, dot, lemma_dot_canonical, lemma_dot_plus_right, lemma_dot_scale_right,
    lemma_dot_supported, lemma_total_zeros, lifted, products, total, vminus, vplus, vscale,
};
use vstd::arithmetic::power2::{lemma_pow2_adds, pow2};
use vstd::prelude::*;

verus! {

/// A value claimed of one block.
#[derive(Clone, Copy, Debug)]
pub struct SparseValue<EF> {
    pub selector: usize,
    pub value: EF,
}

/// Claims about the blocks of a polynomial at one point.
#[derive(Debug)]
pub struct SparseStatement<EF> {
    pub total_num_variables: usize,
    pub point: Vec<EF>,
    pub values: Vec<SparseValue<EF>>,
    /// Whether the blocks are weighted by the successor table of the point in place of its
    /// equality table.
    pub is_next: bool,
}

/// The contents of a [`SparseStatement`].
pub struct StatementView<EF> {
    pub total_num_variables: int,
    pub point: Seq<EF>,
    pub values: Seq<SparseValue<EF>>,
    pub is_next: bool,
}

impl<EF> View for SparseStatement<EF> {
    type V = StatementView<EF>;

    open spec fn view(&self) -> StatementView<EF> {
        StatementView {
            total_num_variables: self.total_num_variables as int,
            point: self.point@,
            values: self.values@,
            is_next: self.is_next,
        }
    }
}

impl<EF: Ring> SparseStatement<EF> {
    /// Claims about blocks at a point.
    pub fn new(total_num_variables: usize, point: Vec<EF>, values: Vec<SparseValue<EF>>) -> (r: Self)
        ensures
            r@ == (StatementView {
                total_num_variables: total_num_variables as int,
                point: point@,
                values: values@,
                is_next: false,
            }),
    {
        SparseStatement { total_num_variables, point, values, is_next: false }
    }

    /// Claims about the successors of blocks at a point.
    pub fn new_next(total_num_variables: usize, point: Vec<EF>, values: Vec<SparseValue<EF>>) -> (r:
        Self)
        ensures
            r@ == (StatementView {
                total_num_variables: total_num_variables as int,
                point: point@,
                values: values@,
                is_next: true,
            }),
    {
        SparseStatement { total_num_variables, point, values, is_next: true }
    }

    /// A claim about the single value at an index.
    pub fn unique_value(total_num_variables: usize, index: usize, value: EF) -> (r: Self)
        ensures
            r@ == (StatementView {
                total_num_variables: total_num_variables as int,
                point: Seq::empty(),
                values: seq![SparseValue { selector: index, value }],
                is_next: false,
            }),
    {
        let values = vec![SparseValue { selector: index, value }];
        assert(values@ =~= seq![SparseValue { selector: index, value }]);
        let point: Vec<EF> = Vec::new();
        assert(point@ =~= Seq::<EF>::empty());
        SparseStatement { total_num_variables, point, values, is_next: false }
    }

    /// A claim about the whole polynomial.
    pub fn dense(point: Vec<EF>, value: EF) -> (r: Self)
        ensures
            r.total_num_variables == point@.len(),
            r.point@ == point@,
            r.values@ == seq![SparseValue { selector: 0, value }],
            !r.is_next,
    {
        let values = vec![SparseValue { selector: 0, value }];
        assert(values@ =~= seq![SparseValue { selector: 0, value }]);
        SparseStatement { total_num_variables: point.len(), point, values, is_next: false }
    }

    pub open spec fn inner(self) -> nat {
        self.point@.len()
    }

    /// The number of variables of a block.
    pub fn inner_num_variables(&self) -> (r: usize)
        ensures
            r == self.inner(),
    {
        self.point.len()
    }

    /// The number of variables that select a block.
    pub fn selector_num_variables(&self) -> (r: usize)
        requires
            self.inner() <= self.total_num_variables,
        ensures
            r == self.total_num_variables - self.inner(),
    {
        self.total_num_variables - self.point.len()
    }

    /// The statement speaks of blocks of a polynomial in `n` variables. A statement of more than
    /// one value names each block once.
    pub open spec fn valid_for(self, n: nat) -> bool {
        &&& self.total_num_variables == n
        &&& self.inner() <= n
        &&& self.values@.len() > 0
        &&& forall|k: int|
            0 <= k < self.values@.len() ==> (#[trigger] self.values@[k]).selector < pow2(
                (n - self.inner()) as nat,
            )
        &&& forall|i: int, j: int|
            0 <= i < j < self.values@.len() ==> (#[trigger] self.values@[i]).selector != (
            #[trigger] self.values@[j]).selector
    }

    /// The statement is one value of the whole polynomial.
    pub open spec fn full_domain(self) -> bool {
        &&& !self.is_next
        &&& self.values@.len() == 1
        &&& self.values@[0].selector == 0
        &&& self.inner() == self.total_num_variables
    }

    fn is_full_domain(&self) -> (r: bool)
        ensures
            r == self.full_domain(),
    {
        !self.is_next && self.values.len() == 1 && self.values[0].selector == 0
            && self.point.len() == self.total_num_variables
    }
}

/// One weighted block: its selector, the weights in it, and the value claimed.
pub struct Term<R> {
    pub selector: int,
    pub table: Seq<R>,
    pub value: R,
}

/// A vector of length `n` that holds `v` from `start` on and is zero elsewhere.
pub open spec fn placed_at<R: Ring>(start: int, v: Seq<R>, n: nat) -> Seq<R> {
    Seq::new(
        n,
        |i: int|
            if start <= i < start + v.len() {
                v[i - start]
            } else {
                R::ring_zero()
            },
    )
}

impl<R: Ring> Term<R> {
    /// The weights of the block, in a vector of length `n`.
    pub open spec fn weights(self, n: nat) -> Seq<R> {
        placed_at(self.selector * self.table.len(), self.table, n)
    }
}

/// The weights in the blocks of a statement.
pub open spec fn block_table<EF: Ring>(s: SparseStatement<EF>, next_table: Seq<EF>) -> Seq<EF> {
    if s.is_next {
        next_table
    } else {
        eq_table(s.point@)
    }
}

/// The terms of a statement.
pub open spec fn statement_terms<EF: Ring>(s: SparseStatement<EF>, next_table: Seq<EF>) -> Seq<
    Term<EF>,
> {
    Seq::new(
        s.values@.len(),
        |k: int|
            Term {
                selector: s.values@[k].selector as int,
                table: block_table(s, next_table),
                value: s.values@[k].value,
            },
    )
}

/// The terms of the first `m` statements.
pub open spec fn terms_of<EF: Ring>(
    statements: Seq<SparseStatement<EF>>,
    next_tables: Seq<Vec<EF>>,
    m: nat,
) -> Seq<Term<EF>>
    decreases m,
{
    if m == 0 {
        Seq::empty()
    } else {
        terms_of(statements, next_tables, (m - 1) as nat) + statement_terms(
            statements[m - 1],
            next_tables[m - 1]@,
        )
    }
}

/// The terms' weights, each times its power of `gamma`.
pub open spec fn combined_weights<R: Ring>(terms: Seq<Term<R>>, gamma: R, n: nat) -> Seq<R>
    decreases terms.len(),
{
    if terms.len() == 0 {
        Seq::new(n, |i: int| R::ring_zero())
    } else {
        vplus(
            combined_weights(terms.drop_last(), gamma, n),
            vscale(power(gamma, (terms.len() - 1) as nat), terms.last().weights(n)),
        )
    }
}

/// The terms' values, each times its power of `gamma`.
pub open spec fn combined_sum<R: Ring>(terms: Seq<Term<R>>, gamma: R) -> R
    decreases terms.len(),
{
    if terms.len() == 0 {
        R::ring_zero()
    } else {
        combined_sum(terms.drop_last(), gamma).plus(
            terms.last().value.times(power(gamma, (terms.len() - 1) as nat)),
        )
    }
}

/// Statements that can be combined: they speak of the same polynomial, and each successor
/// statement comes with its table.
pub open spec fn combinable<EF: Ring>(
    statements: Seq<SparseStatement<EF>>,
    next_tables: Seq<Vec<EF>>,
    n: nat,
) -> bool {
    &&& next_tables.len() == statements.len()
    &&& pow2(n) <= usize::MAX
    &&& forall|i: int| 0 <= i < statements.len() ==> (#[trigger] statements[i]).valid_for(n)
    &&& forall|i: int|
        0 <= i < statements.len() && (#[trigger] statements[i]).is_next ==> next_tables[i]@.len()
            == pow2(statements[i].inner())
}

/// Where a block of a valid statement lies.
proof fn lemma_block_bounds<EF: Ring>(s: SparseStatement<EF>, n: nat, k: int)
    requires
        s.valid_for(n),
        0 <= k < s.values@.len(),
    ensures
        0 <= s.values@[k].selector * pow2(s.inner()),
        s.values@[k].selector * pow2(s.inner()) + pow2(s.inner()) <= pow2(n),
        pow2(s.inner()) <= pow2(n),
{
    let e = (n - s.inner()) as nat;
    lemma_pow2_adds(e, s.inner());
    lemma_pow2_monotone(s.inner(), n);
    let (sel, b, q) = (s.values@[k].selector as int, pow2(s.inner()) as int, pow2(e) as int);
    assert(0 <= sel * b && sel * b + b <= q * b) by (nonlinear_arith)
        requires
            0 <= sel < q,
            0 <= b,
    ;
}

/// Adds `scalar` times a table to the part of the weights that starts at `start`.
fn add_region<R: Ring>(weights: &mut Vec<R>, start: usize, table: &Vec<R>, scalar: R)
    requires
        start + table@.len() <= old(weights)@.len(),
        all_canonical(old(weights)@),
    ensures
        final(weights)@ == vplus(
            old(weights)@,
            vscale(scalar, placed_at(start as int, table@, old(weights)@.len())),
        ),
        all_canonical(final(weights)@),
{
    let ghost before = weights@;
    let ghost n = weights@.len();
    let total_len: usize = weights.len();
    let ghost target = vplus(before, vscale(scalar, placed_at(start as int, table@, n)));
    proof {
        assert forall|i: int| 0 <= i < n implies (#[trigger] target[i]).canonical() && (!(start
            <= i < start + table@.len()) ==> target[i] == before[i]) by {
            let p = placed_at(start as int, table@, n)[i];
            R::law_closed(before[i], scalar.times(p), 0);
            if !(start <= i < start + table@.len()) {
                R::law_times_zero(scalar);
                R::law_plus_zero(before[i]);
            }
        }
    }
    let mut t: usize = 0;
    while t < table.len()
        invariant
            t <= table@.len(),
            start + table@.len() <= total_len,
            total_len == weights.len(),
            n == weights@.len(),
            before.len() == n,
            target == vplus(before, vscale(scalar, placed_at(start as int, table@, n))),
            forall|i: int|
                0 <= i < n ==> #[trigger] weights@[i] == if start <= i < start + t {
                    target[i]
                } else {
                    before[i]
                },
        decreases table@.len() - t,
    {
        let v = weights[start + t].add(table[t].mul(scalar));
        proof {
            R::law_times_commutes(table@[t as int], scalar);
            assert(v == target[start + t]);
        }
        weights.set(start + t, v);
        t += 1;
    }
    assert(weights@ =~= target);
}

/// The table of a statement's blocks.
fn statement_table<EF: Ring>(s: &SparseStatement<EF>, next_table: &Vec<EF>, Ghost(n): Ghost<nat>) -> (r: Vec<EF>)
    requires
        s.valid_for(n),
        pow2(n) <= usize::MAX,
        s.is_next ==> next_table@.len() == pow2(s.inner()),
    ensures
        r@ == block_table(*s, next_table@),
        r@.len() == pow2(s.inner()),
{
    proof {
        lemma_pow2_monotone(s.inner(), n);
        lemma_eq_table_len(s.point@);
    }
    if s.is_next {
        let mut out: Vec<EF> = Vec::new();
        let mut i: usize = 0;
        while i < next_table.len()
            invariant
                i <= next_table@.len(),
                out@ == next_table@.take(i as int),
            decreases next_table@.len() - i,
        {
            out.push(next_table[i]);
            assert(next_table@.take(i + 1) =~= next_table@.take(i as int).push(
                next_table@[i as int],
            ));
            i += 1;
        }
        assert(next_table@.take(i as int) =~= next_table@);
        out
    } else {
        let table = eval_eq(s.point.as_slice(), EF::one());
        proof {
            let e = eq_table(s.point@);
            assert forall|i: int| 0 <= i < e.len() implies #[trigger] table@[i] == e[i] by {
                EF::law_times_commutes(EF::ring_one(), e[i]);
                EF::law_times_one(e[i]);
            }
            assert(table@ =~= e);
        }
        table
    }
}

/// Combines statements: the weights of all their blocks, each times its power of `gamma`, and the
/// values they claim, weighted alike. `next_tables` holds at each successor statement's place the
/// successor table of its point.
pub fn combine_statement<EF: Ring>(
    statements: &[SparseStatement<EF>],
    next_tables: &[Vec<EF>],
    gamma: EF,
) -> (r: (Vec<EF>, EF))
    requires
        statements@.len() > 0,
        combinable(statements@, next_tables@, statements@[0].total_num_variables as nat),
    ensures
        ({
            let terms = terms_of(statements@, next_tables@, statements@.len());
            let n = statements@[0].total_num_variables as nat;
            &&& r.0@ == combined_weights(terms, gamma, pow2(n))
            &&& r.1 == combined_sum(terms, gamma)
        }),
{
    let ghost n = statements@[0].total_num_variables as nat;
    let ghost size = pow2(n);
    let num_variables: usize = statements[0].total_num_variables;
    let out_len: usize = pow2_usize(num_variables);
    let mut weights = zeros::<EF>(out_len);
    let mut sum = EF::zero();
    let mut gamma_pow = EF::one();
    let mut m: usize = 0;
    proof {
        EF::law_closed(EF::ring_zero(), EF::ring_zero(), 0);
        EF::law_closed(EF::ring_one(), EF::ring_one(), 0);
        assert(weights@ =~= combined_weights(Seq::<Term<EF>>::empty(), gamma, size));
    }
    while m < statements.len()
        invariant
            m <= statements@.len(),
            combinable(statements@, next_tables@, n),
            size == pow2(n),
            weights@.len() == size,
            all_canonical(weights@),
            weights@ == combined_weights(
                terms_of(statements@, next_tables@, m as nat),
                gamma,
                size,
            ),
            sum == combined_sum(terms_of(statements@, next_tables@, m as nat), gamma),
            gamma_pow == power(gamma, terms_of(statements@, next_tables@, m as nat).len()),
        decreases statements@.len() - m,
    {
        let smt = &statements[m];
        let table = statement_table(smt, &next_tables[m], Ghost(n));
        let ghost base = terms_of(statements@, next_tables@, m as nat);
        let ghost own = statement_terms(*smt, next_tables@[m as int]@);
        let mut k: usize = 0;
        assert(base + own.take(0) =~= base);
        while k < smt.values.len()
            invariant
                k <= smt.values@.len(),
                smt.valid_for(n),
                size == pow2(n),
                pow2(n) <= usize::MAX,
                table@.len() == pow2(smt.inner()),
                own == statement_terms(*smt, next_tables@[m as int]@),
                table@ == block_table(*smt, next_tables@[m as int]@),
                weights@.len() == size,
                all_canonical(weights@),
                weights@ == combined_weights(base + own.take(k as int), gamma, size),
                sum == combined_sum(base + own.take(k as int), gamma),
                gamma_pow == power(gamma, (base + own.take(k as int)).len()),
            decreases smt.values@.len() - k,
        {
            let evaluation = smt.values[k];
            proof {
                lemma_block_bounds(*smt, n, k as int);
                let ts = base + own.take(k + 1);
                assert(ts.drop_last() =~= base + own.take(k as int));
                assert(ts.last() == own[k as int]);
            }
            let start: usize = evaluation.selector * table.len();
            add_region(&mut weights, start, &table, gamma_pow);
            sum = sum.add(evaluation.value.mul(gamma_pow));
            gamma_pow = gamma_pow.mul(gamma);
            k += 1;
        }
        proof {
            assert(own.take(k as int) =~= own);
        }
        m += 1;
    }
    (weights, sum)
}

fn zeros<R: Ring>(n: usize) -> (r: Vec<R>)
    ensures
        r@ == Seq::new(n as nat, |i: int| R::ring_zero()),
{
    let mut out: Vec<R> = Vec::new();
    let mut i: usize = 0;
    while i < n
        invariant
            i <= n,
            out@.len() == i,
            forall|j: int| 0 <= j < i ==> #[trigger] out@[j] == R::ring_zero(),
        decreases n - i,
    {
        out.push(R::zero());
        i += 1;
    }
    assert(out@ =~= Seq::new(n as nat, |i: int| R::ring_zero()));
    out
}

/// A vector of length `n` that is `v` at `j` and zero elsewhere.
spec fn unit_at<R: Ring>(j: int, v: R, n: nat) -> Seq<R> {
    placed_at(j, seq![v], n)
}

proof fn lemma_dot_unit<R: Ring>(x: Seq<R>, j: int, v: R)
    requires
        0 <= j < x.len(),
    ensures
        dot(x, unit_at(j, v, x.len())) == v.times(x[j]),
{
    let u = unit_at(j, v, x.len());
    lemma_dot_supported(x, u, j, j + 1);
    let t = products(x.subrange(j, j + 1), u.subrange(j, j + 1));
    assert(t.drop_last().len() == 0);
    assert(t.last() == v.times(x[j]));
    assert(total(t) == total(t.drop_last()).plus(t.last()));
    R::law_closed(v, x[j], 0);
    lemma_zero_plus(v.times(x[j]));
}

proof fn lemma_dot_zeros<R: Ring>(x: Seq<R>)
    ensures
        dot(x, Seq::new(x.len(), |i: int| R::ring_zero())) == R::ring_zero(),
{
    let z = Seq::new(x.len(), |i: int| R::ring_zero());
    assert forall|i: int| 0 <= i < x.len() implies #[trigger] products(x, z)[i]
        == R::ring_zero() by {
        lemma_zero_times(x[i]);
    }
    lemma_total_zeros(products(x, z));
}

/// The outer coefficients of a unit vector in the lower half.
proof fn lemma_unit_low<R: Ring>(e: Seq<R>, j: int, v: R)
    requires
        e.len() % 2 == 0,
        0 <= j < e.len() / 2,
        v.canonical(),
    ensures
        ({
            let h = e.len() as int / 2;
            let u = unit_at(j, v, e.len());
            &&& dot(lower(e), lower(u)) == v.times(e[j])
            &&& dot(diff(e), diff(u)) == R::ring_zero().minus(v.times(e[j + h].minus(e[j])))
        }),
{
    let h = e.len() as int / 2;
    let u = unit_at(j, v, e.len());
    let z = R::ring_zero();
    R::law_closed(z, z, 0);
    assert(lower(u) =~= unit_at(j, v, h as nat));
    lemma_dot_unit(lower(e), j, v);
    let w = z.minus(v);
    assert(diff(u) =~= unit_at(j, w, h as nat)) by {
        assert forall|i: int| 0 <= i < h implies diff(u)[i] == unit_at(j, w, h as nat)[i] by {
            crate::ring::lemma_minus_self(z);
        }
    }
    lemma_dot_unit(diff(e), j, w);
    let d = e[j + h].minus(e[j]);
    assert(diff(e)[j] == d);
    lemma_times_minus(d, z, v);
    lemma_zero_times(d);
}

/// The outer coefficients of a unit vector in the upper half.
proof fn lemma_unit_high<R: Ring>(e: Seq<R>, j: int, v: R)
    requires
        e.len() % 2 == 0,
        e.len() / 2 <= j < e.len(),
        v.canonical(),
    ensures
        ({
            let h = e.len() as int / 2;
            let u = unit_at(j, v, e.len());
            &&& dot(lower(e), lower(u)) == R::ring_zero()
            &&& dot(diff(e), diff(u)) == v.times(e[j].minus(e[j - h]))
        }),
{
    let h = e.len() as int / 2;
    let u = unit_at(j, v, e.len());
    let z = R::ring_zero();
    R::law_closed(z, z, 0);
    assert(lower(u) =~= Seq::new(h as nat, |i: int| z));
    lemma_dot_zeros(lower(e));
    assert(diff(u) =~= unit_at(j - h, v, h as nat)) by {
        assert forall|i: int| 0 <= i < h implies diff(u)[i] == unit_at(j - h, v, h as nat)[i] by {
            lemma_minus_plus(v, z);
            R::law_plus_zero(v);
            crate::ring::lemma_minus_self(z);
        }
    }
    lemma_dot_unit(diff(e), j - h, v);
    assert(diff(e)[j - h] == e[j].minus(e[j - h]));
}

/// Placing one more element adds a unit vector.
proof fn lemma_placed_step<R: Ring>(start: int, v: Seq<R>, k: int, n: nat)
    requires
        0 <= k < v.len(),
        0 <= start,
        start + v.len() <= n,
        all_canonical(v),
    ensures
        placed_at(start, v.take(k + 1), n) == vplus(
            placed_at(start, v.take(k), n),
            unit_at(start + k, v[k], n),
        ),
{
    let z = R::ring_zero();
    R::law_closed(z, z, 0);
    let left = placed_at(start, v.take(k + 1), n);
    let right = vplus(placed_at(start, v.take(k), n), unit_at(start + k, v[k], n));
    assert forall|i: int| 0 <= i < n implies left[i] == right[i] by {
        if start <= i < start + k {
            assert(v[i - start].canonical());
            lemma_zero_plus(v[i - start]);
        } else if i == start + k {
            lemma_zero_plus(v[k]);
        } else {
            lemma_zero_plus(z);
        }
    }
    assert(left =~= right);
}

/// The outer coefficients are additive in the weights.
proof fn lemma_coefficients_add<R: Ring>(e: Seq<R>, a: Seq<R>, b: Seq<R>)
    requires
        e.len() == a.len(),
        a.len() == b.len(),
        e.len() % 2 == 0,
    ensures
        dot(lower(e), lower(vplus(a, b))) == dot(lower(e), lower(a)).plus(
            dot(lower(e), lower(b)),
        ),
        dot(diff(e), diff(vplus(a, b))) == dot(diff(e), diff(a)).plus(dot(diff(e), diff(b))),
{
    assert(lower(vplus(a, b)) =~= vplus(lower(a), lower(b)));
    lemma_dot_plus_right(lower(e), lower(a), lower(b));
    let (d, da, db) = (diff(vplus(a, b)), diff(a), diff(b));
    let h = e.len() as int / 2;
    assert forall|i: int| 0 <= i < h implies d[i] == vplus(da, db)[i] by {
        lemma_minus_of_sums(a[i + h], b[i + h], a[i], b[i]);
    }
    assert(d =~= vplus(da, db));
    lemma_dot_plus_right(diff(e), da, db);
}

/// Corrects the outer coefficients of a round polynomial for a change of the weights in a region.
fn sumcheck_correction_for_region<F: Ring, EF: Algebra<F>>(
    new_weights: &Vec<EF>,
    old_weights: &Vec<EF>,
    evals: &[F],
    region_start: usize,
    half: usize,
    coeffs: &mut Vec<EF>,
)
    requires
        new_weights@.len() == old_weights@.len(),
        evals@.len() == 2 * half,
        region_start + new_weights@.len() <= evals.len(),
        old(coeffs)@.len() == 3,
    ensures
        ({
            let e = lifted::<F, EF>(evals@);
            let change = placed_at(
                region_start as int,
                vminus(new_weights@, old_weights@),
                evals@.len(),
            );
            &&& final(coeffs)@.len() == 3
            &&& final(coeffs)@[0] == old(coeffs)@[0].plus(dot(lower(e), lower(change)))
            &&& final(coeffs)@[1] == old(coeffs)@[1]
            &&& final(coeffs)@[2] == old(coeffs)@[2].plus(dot(diff(e), diff(change)))
        }),
{
    let ghost e = lifted::<F, EF>(evals@);
    let ghost n = evals@.len();
    let len: usize = evals.len();
    let ghost d = vminus(new_weights@, old_weights@);
    let ghost start = region_start as int;
    let mut c0_acc = EF::zero();
    let mut c2_acc = EF::zero();
    let mut k: usize = 0;
    proof {
        let none = placed_at(start, d.take(0), n);
        let z = EF::ring_zero();
        assert(lower(none) =~= Seq::new(half as nat, |i: int| z));
        lemma_dot_zeros(lower(e));
        crate::ring::lemma_minus_self(z);
        assert(diff(none) =~= Seq::new(half as nat, |i: int| z));
        lemma_dot_zeros(diff(e));
        assert forall|i: int| 0 <= i < d.len() implies (#[trigger] d[i]).canonical() by {
            EF::law_closed(new_weights@[i], old_weights@[i], 0);
        }
    }
    while k < new_weights.len()
        invariant
            k <= new_weights@.len(),
            new_weights@.len() == old_weights@.len(),
            len == evals.len(),
            n == evals@.len(),
            n == 2 * half,
            start == region_start,
            region_start + new_weights@.len() <= len,
            e == lifted::<F, EF>(evals@),
            d == vminus(new_weights@, old_weights@),
            all_canonical(d),
            c0_acc == dot(lower(e), lower(placed_at(start, d.take(k as int), n))),
            c2_acc == dot(diff(e), diff(placed_at(start, d.take(k as int), n))),
        decreases new_weights@.len() - k,
    {
        let j: usize = region_start + k;
        let delta = new_weights[k].sub(old_weights[k]);
        proof {
            lemma_placed_step(start, d, k as int, n);
            lemma_coefficients_add(
                e,
                placed_at(start, d.take(k as int), n),
                unit_at(j as int, delta, n),
            );
            lemma_dot_canonical(lower(e), lower(placed_at(start, d.take(k as int), n)));
        }
        if j < half {
            let e_lo = evals[j];
            let e_hi = evals[j + half];
            proof {
                lemma_unit_low(e, j as int, delta);
                EF::law_lift(e_hi, e_lo);
                let vd = delta.times(EF::lift(e_hi.minus(e_lo)));
                // c2 - vd = c2 + (0 - vd)
                EF::law_minus(c2_acc, vd);
                EF::law_minus(EF::ring_zero(), vd);
                EF::law_closed(vd, vd, 0);
                lemma_zero_plus(vd.negate());
            }
            c0_acc = c0_acc.add(delta.mul_base(e_lo));
            c2_acc = c2_acc.sub(delta.mul_base(e_hi.sub(e_lo)));
        } else {
            let paired: usize = j - half;
            let e_lo = evals[paired];
            let e_hi = evals[j];
            proof {
                lemma_unit_high(e, j as int, delta);
                EF::law_lift(e_hi, e_lo);
                EF::law_plus_zero(c0_acc);
            }
            c2_acc = c2_acc.add(delta.mul_base(e_hi.sub(e_lo)));
        }
        k += 1;
    }
    assert(d.take(k as int) =~= d);
    let c0 = coeffs[0].add(c0_acc);
    let c2 = coeffs[2].add(c2_acc);
    coeffs.set(0, c0);
    coeffs.set(2, c2);
}

fn copy_region<R: Ring>(v: &Vec<R>, start: usize, len: usize) -> (r: Vec<R>)
    requires
        start + len <= v@.len(),
    ensures
        r@ == v@.subrange(start as int, start + len),
{
    let total_len: usize = v.len();
    let mut out: Vec<R> = Vec::new();
    let mut i: usize = 0;
    while i < len
        invariant
            i <= len,
            total_len == v.len(),
            start + len <= total_len,
            out@.len() == i,
            forall|j: int| 0 <= j < i ==> #[trigger] out@[j] == v@[start + j],
        decreases len - i,
    {
        out.push(v[start + i]);
        i += 1;
    }
    assert(out@ =~= v@.subrange(start as int, start + len));
    out
}

/// A vector changed in a region is the vector plus the change.
proof fn lemma_region_change<R: Ring>(before: Seq<R>, after: Seq<R>, start: int, len: int)
    requires
        before.len() == after.len(),
        0 <= start,
        0 <= len,
        start + len <= before.len(),
        all_canonical(before),
        all_canonical(after),
        forall|i: int|
            0 <= i < before.len() && !(start <= i < start + len) ==> #[trigger] after[i]
                == before[i],
    ensures
        after == vplus(
            before,
            placed_at(
                start,
                vminus(
                    after.subrange(start, start + len),
                    before.subrange(start, start + len),
                ),
                before.len(),
            ),
        ),
{
    let change = vminus(
        after.subrange(start, start + len),
        before.subrange(start, start + len),
    );
    let right = vplus(before, placed_at(start, change, before.len()));
    assert forall|i: int| 0 <= i < before.len() implies after[i] == right[i] by {
        assert(before[i].canonical() && after[i].canonical());
        if start <= i < start + len {
            assert(change[i - start] == after[i].minus(before[i]));
            lemma_minus_plus(after[i], before[i]);
        } else {
            lemma_zero_plus(before[i]);
        }
    }
    assert(after =~= right);
}

/// What holds between two steps of the fused combination: the outer coefficients are those of
/// the weights so far.
spec fn coefficients_of<R: Ring>(e: Seq<R>, w: Seq<R>, coeffs: Seq<R>) -> bool {
    &&& coeffs.len() == 3
    &&& coeffs[0] == dot(lower(e), lower(w))
    &&& coeffs[2] == dot(diff(e), diff(w))
}

/// Adds `scalar` times a table to a region of the weights and corrects the outer coefficients.
fn add_region_corrected<F: Ring, EF: Algebra<F>>(
    weights: &mut Vec<EF>,
    start: usize,
    table: &Vec<EF>,
    scalar: EF,
    evals: &[F],
    coeffs: &mut Vec<EF>,
)
    requires
        start + table@.len() <= old(weights)@.len(),
        all_canonical(old(weights)@),
        evals@.len() == old(weights)@.len(),
        evals@.len() % 2 == 0,
        coefficients_of(lifted::<F, EF>(evals@), old(weights)@, old(coeffs)@),
    ensures
        final(weights)@ == vplus(
            old(weights)@,
            vscale(scalar, placed_at(start as int, table@, old(weights)@.len())),
        ),
        all_canonical(final(weights)@),
        coefficients_of(lifted::<F, EF>(evals@), final(weights)@, final(coeffs)@),
{
    let ghost before = weights@;
    let len: usize = table.len();
    let half: usize = evals.len() / 2;
    let old_weights = copy_region(weights, start, len);
    add_region(weights, start, table, scalar);
    let new_weights = copy_region(weights, start, len);
    sumcheck_correction_for_region::<F, EF>(
        &new_weights,
        &old_weights,
        evals,
        start,
        half,
        coeffs,
    );
    proof {
        let e = lifted::<F, EF>(evals@);
        assert forall|i: int|
            0 <= i < before.len() && !(start <= i < start + len) implies #[trigger] weights@[i]
            == before[i] by {
            EF::law_times_zero(scalar);
            assert(before[i].canonical());
            EF::law_plus_zero(before[i]);
        }
        lemma_region_change(before, weights@, start as int, len as int);
        lemma_coefficients_add(
            e,
            before,
            placed_at(start as int, vminus(new_weights@, old_weights@), before.len()),
        );
    }
}

/// Whether the combination can be fused with the first round of the sumcheck: the first two
/// statements are values of the whole polynomial.
pub open spec fn fusible<EF: Ring>(statements: Seq<SparseStatement<EF>>) -> bool {
    &&& statements.len() >= 2
    &&& statements[0].full_domain()
    &&& statements[1].full_domain()
}

/// Combines statements and gives the polynomial of the first sumcheck round in the same pass, by
/// correcting its outer coefficients with every block added. `None` where the first two
/// statements are not values of the whole polynomial.
pub fn combine_statement_with_round0<F: Ring, EF: Algebra<F>>(
    statements: &[SparseStatement<EF>],
    next_tables: &[Vec<EF>],
    gamma: EF,
    evals: &[F],
) -> (r: Option<(Vec<EF>, EF, DensePolynomial<EF>)>)
    requires
        statements@.len() > 0,
        combinable(statements@, next_tables@, statements@[0].total_num_variables as nat),
        evals@.len() == pow2(statements@[0].total_num_variables as nat),
        statements@[0].total_num_variables > 0,
    ensures
        r is Some <==> statements@.len() >= 2 && forall|i: int|
            0 <= i < 2 ==> !(#[trigger] statements@[i]).is_next && statements@[i].values@.len() == 1
                && statements@[i].values@[0].selector == 0 && statements@[i].point@.len()
                == statements@[i].total_num_variables,
        match r {
            None => !fusible(statements@),
            Some((weights, sum, poly)) => {
                let terms = terms_of(statements@, next_tables@, statements@.len());
                &&& fusible(statements@)
                &&& weights@ == combined_weights(terms, gamma, evals@.len())
                &&& sum == combined_sum(terms, gamma)
                &&& poly.coeffs@ == round_poly(lifted::<F, EF>(evals@), weights@, sum)
            },
        },
{
    if !statements[0].is_full_domain() {
        return None;
    }
    if statements.len() < 2 || !statements[1].is_full_domain() {
        return None;
    }
    let ghost n = statements@[0].total_num_variables as nat;
    let ghost size = pow2(n);
    let ghost e = lifted::<F, EF>(evals@);
    proof {
        crate::math::lemma_pow2_step((n - 1) as nat);
    }
    let mut weights = zeros::<EF>(evals.len());
    let mut coeffs: Vec<EF> = Vec::new();
    coeffs.push(EF::zero());
    coeffs.push(EF::zero());
    coeffs.push(EF::zero());
    let mut sum = EF::zero();
    let mut gamma_pow = EF::one();
    let mut m: usize = 0;
    proof {
        let z = EF::ring_zero();
        EF::law_closed(z, z, 0);
        assert(weights@ =~= combined_weights(Seq::<Term<EF>>::empty(), gamma, size));
        let h = size as int / 2;
        assert(lower(weights@) =~= Seq::new(h as nat, |i: int| z));
        lemma_dot_zeros(lower(e));
        crate::ring::lemma_minus_self(z);
        assert(diff(weights@) =~= Seq::new(h as nat, |i: int| z));
        lemma_dot_zeros(diff(e));
    }
    while m < statements.len()
        invariant
            m <= statements@.len(),
            combinable(statements@, next_tables@, n),
            size == pow2(n),
            size % 2 == 0,
            evals@.len() == size,
            e == lifted::<F, EF>(evals@),
            weights@.len() == size,
            all_canonical(weights@),
            weights@ == combined_weights(
                terms_of(statements@, next_tables@, m as nat),
                gamma,
                size,
            ),
            sum == combined_sum(terms_of(statements@, next_tables@, m as nat), gamma),
            gamma_pow == power(gamma, terms_of(statements@, next_tables@, m as nat).len()),
            coefficients_of(e, weights@, coeffs@),
        decreases statements@.len() - m,
    {
        let smt = &statements[m];
        let table = statement_table(smt, &next_tables[m], Ghost(n));
        let ghost base = terms_of(statements@, next_tables@, m as nat);
        let ghost own = statement_terms(*smt, next_tables@[m as int]@);
        let mut k: usize = 0;
        assert(base + own.take(0) =~= base);
        while k < smt.values.len()
            invariant
                k <= smt.values@.len(),
                smt.valid_for(n),
                size == pow2(n),
                size % 2 == 0,
                pow2(n) <= usize::MAX,
                evals@.len() == size,
                e == lifted::<F, EF>(evals@),
                table@.len() == pow2(smt.inner()),
                own == statement_terms(*smt, next_tables@[m as int]@),
                table@ == block_table(*smt, next_tables@[m as int]@),
                weights@.len() == size,
                all_canonical(weights@),
                weights@ == combined_weights(base + own.take(k as int), gamma, size),
                sum == combined_sum(base + own.take(k as int), gamma),
                gamma_pow == power(gamma, (base + own.take(k as int)).len()),
                coefficients_of(e, weights@, coeffs@),
            decreases smt.values@.len() - k,
        {
            let evaluation = smt.values[k];
            proof {
                lemma_block_bounds(*smt, n, k as int);
                let ts = base + own.take(k + 1);
                assert(ts.drop_last() =~= base + own.take(k as int));
                assert(ts.last() == own[k as int]);
            }
            let start: usize = evaluation.selector * table.len();
            add_region_corrected::<F, EF>(
                &mut weights,
                start,
                &table,
                gamma_pow,
                evals,
                &mut coeffs,
            );
            sum = sum.add(evaluation.value.mul(gamma_pow));
            gamma_pow = gamma_pow.mul(gamma);
            k += 1;
        }
        proof {
            assert(own.take(k as int) =~= own);
        }
        m += 1;
    }
    let c1 = sum.sub(coeffs[0].double()).sub(coeffs[2]);
    coeffs.set(1, c1);
    assert(coeffs@ =~= round_poly(e, weights@, sum));
    Some((weights, sum, DensePolynomial::new(coeffs)))
}

/// A term's value is the weighted sum of its block of `f`.
pub open spec fn term_holds<R: Ring>(f: Seq<R>, t: Term<R>) -> bool {
    let start = t.selector * t.table.len();
    &&& 0 <= start
    &&& start + t.table.len() <= f.len()
    &&& t.value == dot(f.subrange(start, start + t.table.len()), t.table)
}

/// A statement holds of `f`: each value is that of its block at the point, or for a successor
/// statement the block's sum weighted by the successor table.
pub open spec fn statement_holds<EF: Ring>(
    f: Seq<EF>,
    s: SparseStatement<EF>,
    next_table: Seq<EF>,
) -> bool {
    forall|k: int|
        0 <= k < s.values@.len() ==> {
            let b = pow2(s.inner()) as int;
            let block = f.subrange(
                (#[trigger] s.values@[k]).selector * b,
                s.values@[k].selector * b + b,
            );
            s.values@[k].value == if s.is_next {
                dot(block, next_table)
            } else {
                mle_eval(block, s.point@)
            }
        }
}

/// Where every term holds of `f`, the combined weights' inner product with `f` is the combined
/// sum.
pub proof fn law_combined_terms<R: Ring>(f: Seq<R>, terms: Seq<Term<R>>, gamma: R)
    requires
        forall|k: int| 0 <= k < terms.len() ==> term_holds(f, #[trigger] terms[k]),
    ensures
        dot(f, combined_weights(terms, gamma, f.len())) == combined_sum(terms, gamma),
    decreases terms.len(),
{
    let n = f.len();
    lemma_combined_len(terms, gamma, n);
    if terms.len() == 0 {
        lemma_dot_zeros(f);
    } else {
        let init = terms.drop_last();
        let t = terms.last();
        let g = power(gamma, (terms.len() - 1) as nat);
        assert forall|k: int| 0 <= k < init.len() implies term_holds(f, #[trigger] init[k]) by {
            assert(init[k] == terms[k]);
        }
        law_combined_terms(f, init, gamma);
        lemma_combined_len(init, gamma, n);
        let w = t.weights(n);
        let start = t.selector * t.table.len();
        assert(term_holds(f, terms[terms.len() - 1]));
        lemma_dot_supported(f, w, start, start + t.table.len());
        assert(w.subrange(start, start + t.table.len()) =~= t.table);
        lemma_dot_plus_right(f, combined_weights(init, gamma, n), vscale(g, w));
        lemma_dot_scale_right(g, f, w);
        R::law_times_commutes(g, t.value);
    }
}

pub proof fn lemma_combined_len<R: Ring>(terms: Seq<Term<R>>, gamma: R, n: nat)
    ensures
        combined_weights(terms, gamma, n).len() == n,
    decreases terms.len(),
{
    if terms.len() > 0 {
        lemma_combined_len(terms.drop_last(), gamma, n);
    }
}

pub proof fn lemma_combined_canonical<R: Ring>(terms: Seq<Term<R>>, gamma: R, n: nat)
    ensures
        all_canonical(combined_weights(terms, gamma, n)),
{
    let w = combined_weights(terms, gamma, n);
    assert forall|i: int| 0 <= i < w.len() implies (#[trigger] w[i]).canonical() by {
        R::law_closed(R::ring_zero(), R::ring_zero(), 0);
        if terms.len() > 0 {
            let g = power(gamma, (terms.len() - 1) as nat);
            R::law_closed(
                combined_weights(terms.drop_last(), gamma, n)[i],
                vscale(g, terms.last().weights(n))[i],
                0,
            );
        }
    }
}

/// The terms of true statements hold.
pub proof fn lemma_terms_hold<EF: Ring>(
    f: Seq<EF>,
    statements: Seq<SparseStatement<EF>>,
    next_tables: Seq<Vec<EF>>,
    n: nat,
    m: nat,
)
    requires
        combinable(statements, next_tables, n),
        f.len() == pow2(n),
        m <= statements.len(),
        forall|i: int|
            0 <= i < statements.len() ==> statement_holds(
                f,
                #[trigger] statements[i],
                next_tables[i]@,
            ),
    ensures
        forall|k: int|
            0 <= k < terms_of(statements, next_tables, m).len() ==> term_holds(
                f,
                #[trigger] terms_of(statements, next_tables, m)[k],
            ),
    decreases m,
{
    if m > 0 {
        let p = (m - 1) as nat;
        lemma_terms_hold(f, statements, next_tables, n, p);
        let base = terms_of(statements, next_tables, p);
        let s = statements[m - 1];
        let own = statement_terms(s, next_tables[m - 1]@);
        assert forall|k: int| 0 <= k < (base + own).len() implies term_holds(
            f,
            #[trigger] (base + own)[k],
        ) by {
            if k < base.len() {
                assert(term_holds(f, base[k]));
            } else {
                let j = k - base.len();
                lemma_block_bounds(s, n, j);
                lemma_eq_table_len(s.point@);
                assert(statement_holds(f, s, next_tables[m - 1]@));
                assert((base + own)[k] == own[j]);
                assert(own[j].table.len() == pow2(s.inner()));
                assert(own[j].selector == s.values@[j].selector);
            }
        }
    }
}

/// The combination of true statements is true: the inner product of the polynomial with the
/// combined weights is the combined sum, whatever the challenge.
pub proof fn law_true_statements_combine<EF: Ring>(
    f: Seq<EF>,
    statements: Seq<SparseStatement<EF>>,
    next_tables: Seq<Vec<EF>>,
    gamma: EF,
    n: nat,
)
    requires
        combinable(statements, next_tables, n),
        f.len() == pow2(n),
        forall|i: int|
            0 <= i < statements.len() ==> statement_holds(
                f,
                #[trigger] statements[i],
                next_tables[i]@,
            ),
    ensures
        ({
            let terms = terms_of(statements, next_tables, statements.len());
            dot(f, combined_weights(terms, gamma, pow2(n))) == combined_sum(terms, gamma)
        }),
{
    lemma_terms_hold(f, statements, next_tables, n, statements.len());
    law_combined_terms(f, terms_of(statements, next_tables, statements.len()), gamma);
}

} // verus!
