//! The prover's side of the opening protocol, between two messages of the transcript.
//!
//! What the transcript hands back (challenges, sampled points, queried indices) and what a
//! transform gives (the next matrix, the generator of a domain) are arguments; everything decided
//! from them is here.

use crate::field::{Algebra, KoalaBear, Ring};
use crate::math::{is_pow2, lemma_pow2_monotone, log2_exact, log2_strict_usize, pow2_usize};
use crate::poly::{
    eq_table, expand_from_univariate, lemma_eq_table_len, mle_eval, power, powers, powers_of,
    univariate_point,
};
use crate::sumcheck::product::DensePolynomial;
use crate::sumcheck::rounds::{
    enough_variables, folded_by, law_sum_is_inner_product, sent_polys, sum_after, SumcheckSingle,
};
use crate::sumcheck::vectors::{all_canonical, dot, lifted};
use crate::whir::commit::{ood_answers_ext, ood_answers_of, MerkleData, Witness};
use crate::whir::config::WhirConfig;
use crate::whir::constraints::{
    law_true_equalities_keep_sum, lemma_with_equalities_canonical, lemma_with_equalities_len,
    lifted_points, point_views, with_equalities,
};
use crate::whir::merkle::{commits_to, padded, DftOutput, DIGEST_ELEMS};
use crate::whir::queries::{
    answers_fit, answers_of, committed_values, compute_stir_queries, domain_points,
    law_opened_values, leaf_values, open_merkle_tree_at_challenges, paired_value,
    stir_evaluations, univariate_points, Answer, Openings,
};
use crate::whir::statement::{
    combinable, combined_sum, combined_weights, law_combined_terms, lemma_combined_canonical,
    lemma_combined_len, lemma_terms_hold, statement_holds, statement_terms, term_holds, terms_of,
    SparseStatement, SparseValue, Term,
};
use vstd::arithmetic::power2::pow2;
use vstd::prelude::*;

verus! {

/// What a prover carries from round to round.
#[derive(Debug)]
pub struct RoundState<EF> {
    pub domain_size: usize,
    pub next_domain_gen: KoalaBear,
    pub sumcheck_prover: SumcheckSingle<EF>,
    pub commitment_merkle_prover_data_b: Option<MerkleData>,
    pub merkle_prover_data: MerkleData,
    pub randomness_vec: Vec<EF>,
}

/// The sizes of a round that is not the last.
#[derive(Clone, Copy, Debug)]
pub struct RoundShape {
    /// Variables left after the folds so far.
    pub num_variables: usize,
    /// Variables folded in the next round: the new matrix has that many column variables.
    pub folding_factor_next: usize,
    pub new_domain_size: usize,
    pub log_inv_rate: usize,
    /// The order of the next domain's generator is two to this power.
    pub generator_log: usize,
    /// The number of leaves that can be queried.
    pub query_domain_size: usize,
}

/// What a prover does next.
#[derive(Clone, Copy, Debug)]
pub enum ProverStep {
    /// A round that commits to the folded polynomial.
    Round(RoundShape),
    /// The final round: it sends the folded polynomial, answers queries into a domain of this
    /// size, and runs this many sumcheck rounds.
    FinalRound { query_domain_size: usize, sumcheck_rounds: usize },
    Done,
}

/// The terms of out-of-domain claims.
pub open spec fn ood_terms<EF: Ring>(points: Seq<EF>, answers: Seq<EF>, n: nat) -> Seq<Term<EF>> {
    Seq::new(
        points.len(),
        |i: int|
            Term {
                selector: 0,
                table: eq_table(univariate_point(points[i], n)),
                value: answers[i],
            },
    )
}

/// Statements that begin with out-of-domain claims have the terms of the claims first.
proof fn lemma_terms_with_ood<EF: Ring>(
    all: Seq<SparseStatement<EF>>,
    all_tables: Seq<Vec<EF>>,
    points: Seq<EF>,
    answers: Seq<EF>,
    statements: Seq<SparseStatement<EF>>,
    next_tables: Seq<Vec<EF>>,
    n: nat,
    m: nat,
)
    requires
        points.len() == answers.len(),
        all.len() == points.len() + statements.len(),
        all_tables.len() == all.len(),
        next_tables.len() == statements.len(),
        m <= all.len(),
        forall|i: int|
            0 <= i < points.len() ==> ({
                let s = #[trigger] all[i];
                &&& s.point@ == univariate_point(points[i], n)
                &&& s.values@ == seq![SparseValue { selector: 0, value: answers[i] }]
                &&& !s.is_next
            }),
        forall|i: int|
            points.len() <= i < all.len() ==> #[trigger] all[i] == statements[i - points.len()],
        forall|i: int|
            points.len() <= i < all.len() ==> #[trigger] all_tables[i] == next_tables[i
                - points.len()],
    ensures
        terms_of(all, all_tables, m) == if m <= points.len() {
            ood_terms(points, answers, n).take(m as int)
        } else {
            ood_terms(points, answers, n) + terms_of(
                statements,
                next_tables,
                (m - points.len()) as nat,
            )
        },
    decreases m,
{
    let ood = ood_terms(points, answers, n);
    let k = points.len();
    if m == 0 {
        assert(ood.take(0) =~= Seq::<Term<EF>>::empty());
    } else {
        let p = (m - 1) as nat;
        lemma_terms_with_ood(
            all,
            all_tables,
            points,
            answers,
            statements,
            next_tables,
            n,
            p,
        );
        let own = statement_terms(all[m - 1], all_tables[m - 1]@);
        if m <= k {
            assert(own =~= seq![ood[m - 1]]);
            assert(ood.take(m as int) =~= ood.take(p as int) + own);
        } else {
            assert(all[m - 1] == statements[m - 1 - k]);
            assert(all_tables[m - 1] == next_tables[m - 1 - k]);
            if p == k {
                assert(ood.take(p as int) =~= ood);
                assert(terms_of(statements, next_tables, 0) =~= Seq::<Term<EF>>::empty());
                assert(terms_of(statements, next_tables, 1) =~= own);
            } else {
                let before = terms_of(statements, next_tables, (p - k) as nat);
                assert((ood + before) + own =~= ood + (before + own));
            }
        }
    }
}

/// The statements with the out-of-domain claims of a commitment before them.
pub fn with_ood_statements<EF: Ring>(
    prover: &WhirConfig,
    ood_points: &Vec<EF>,
    ood_answers: &Vec<EF>,
    statement: Vec<SparseStatement<EF>>,
    next_tables: Vec<Vec<EF>>,
) -> (r: (Vec<SparseStatement<EF>>, Vec<Vec<EF>>))
    requires
        ood_points@.len() == ood_answers@.len(),
        combinable(statement@, next_tables@, prover.num_variables as nat),
        pow2(prover.num_variables as nat) <= usize::MAX,
    ensures
        r.0@.len() == ood_points@.len() + statement@.len(),
        combinable(r.0@, r.1@, prover.num_variables as nat),
        r.0@.len() > 0 ==> r.0@[0].total_num_variables == prover.num_variables,
        terms_of(r.0@, r.1@, r.0@.len()) == ood_terms(
            ood_points@,
            ood_answers@,
            prover.num_variables as nat,
        ) + terms_of(statement@, next_tables@, statement@.len()),
{
    let ghost n = prover.num_variables as nat;
    let ghost points = ood_points@;
    let ghost answers = ood_answers@;
    let ghost given = statement@;
    let ghost given_tables = next_tables@;
    let mut all: Vec<SparseStatement<EF>> = Vec::new();
    let mut all_tables: Vec<Vec<EF>> = Vec::new();
    let mut i: usize = 0;
    while i < ood_points.len()
        invariant
            i <= points.len(),
            points == ood_points@,
            answers == ood_answers@,
            points.len() == answers.len(),
            n == prover.num_variables,
            all@.len() == i,
            all_tables@.len() == i,
            forall|j: int|
                0 <= j < i ==> ({
                    let s = #[trigger] all@[j];
                    &&& s.point@ == univariate_point(points[j], n)
                    &&& s.values@ == seq![SparseValue { selector: 0, value: answers[j] }]
                    &&& !s.is_next
                    &&& s.total_num_variables == n
                }),
        decreases points.len() - i,
    {
        let point = expand_from_univariate(ood_points[i], prover.num_variables);
        all.push(SparseStatement::dense(point, ood_answers[i]));
        all_tables.push(Vec::new());
        i += 1;
    }
    let mut rest = statement;
    let mut rest_tables = next_tables;
    all.append(&mut rest);
    all_tables.append(&mut rest_tables);
    proof {
        let k = points.len();
        vstd::arithmetic::power2::lemma2_to64();
        assert forall|j: int| 0 <= j < all@.len() implies (#[trigger] all@[j]).valid_for(n) by {
            if j < k {
                assert(all@[j].values@.len() == 1);
                assert((n - all@[j].inner()) as nat == 0);
            } else {
                assert(all@[j] == given[j - k]);
            }
        }
        assert forall|j: int|
            0 <= j < all@.len() && (#[trigger] all@[j]).is_next implies all_tables@[j]@.len()
            == pow2(all@[j].inner()) by {
            assert(all@[j] == given[j - k]);
            assert(all_tables@[j] == given_tables[j - k]);
        }
        lemma_terms_with_ood(
            all@,
            all_tables@,
            points,
            answers,
            given,
            given_tables,
            n,
            all@.len(),
        );
        let ood = ood_terms(points, answers, n);
        if given.len() == 0 {
            assert(ood.take(k as int) =~= ood);
            assert(ood + terms_of(given, given_tables, 0) =~= ood);
        }
        if all@.len() > 0 {
            assert(all@[0].valid_for(n));
        }
        assert(combinable(all@, all_tables@, n));
    }
    (all, all_tables)
}

/// A copy of a slice's last `n` elements.
fn last_elements<R: Ring>(v: &Vec<R>, n: usize) -> (r: Vec<R>)
    requires
        n <= v@.len(),
    ensures
        r@ == v@.skip(v@.len() - n),
{
    let start: usize = v.len() - n;
    let mut out: Vec<R> = Vec::new();
    let mut i: usize = start;
    while i < v.len()
        invariant
            start <= i <= v@.len(),
            out@.len() == i - start,
            forall|j: int| 0 <= j < i - start ==> #[trigger] out@[j] == v@[start + j],
        decreases v@.len() - i,
    {
        out.push(v[i]);
        i += 1;
    }
    assert(out@ =~= v@.skip(start as int));
    out
}

fn extend_from<R: Ring>(v: &mut Vec<R>, more: &[R])
    ensures
        final(v)@ == old(v)@ + more@,
{
    let mut i: usize = 0;
    assert(v@ =~= old(v)@ + more@.take(0));
    while i < more.len()
        invariant
            i <= more@.len(),
            v@ == old(v)@ + more@.take(i as int),
        decreases more@.len() - i,
    {
        v.push(more[i]);
        assert(v@ =~= old(v)@ + more@.take(i + 1));
        i += 1;
    }
    assert(more@.take(i as int) =~= more@);
}

/// The sizes fit for round `round_index` on a domain of this size: what is folded fits into the
/// polynomial, and the reduced domain holds what is left.
pub open spec fn round_fits(config: WhirConfig, round_index: int, domain_size: int) -> bool {
    let log_domain = log2_exact(domain_size);
    let factor = config.folding_factor;
    &&& is_pow2(domain_size)
    &&& factor.at(round_index) <= log_domain
    &&& round_index < config.round_parameters@.len() ==> {
        let reduction = config.round_parameters@[round_index].rs_reduction;
        &&& factor.total(round_index) <= config.num_variables
        &&& config.num_variables - factor.total(round_index) + reduction <= log_domain
        &&& factor.at(round_index + 1) + reduction <= log_domain
    }
}

/// The sizes of round `round_index` on a domain of this size.
pub open spec fn is_round_shape(
    config: WhirConfig,
    round_index: int,
    domain_size: int,
    shape: RoundShape,
) -> bool {
    let log_domain = log2_exact(domain_size);
    let reduction = config.round_parameters@[round_index].rs_reduction;
    &&& shape.num_variables == config.num_variables - config.folding_factor.total(round_index)
    &&& shape.folding_factor_next == config.folding_factor.at(round_index + 1)
    &&& shape.new_domain_size == pow2((log_domain - reduction) as nat)
    &&& shape.log_inv_rate == log_domain - reduction - shape.num_variables
    &&& shape.generator_log == log_domain - reduction - shape.folding_factor_next
    &&& shape.query_domain_size == pow2(
        (log_domain - config.folding_factor.at(round_index)) as nat,
    )
}

impl WhirConfig {
    /// The size of the domain committed to at the start.
    pub fn starting_domain_size(&self) -> (r: usize)
        requires
            pow2((self.num_variables + self.starting_log_inv_rate) as nat) <= usize::MAX,
            self.num_variables + self.starting_log_inv_rate <= usize::MAX,
        ensures
            r == pow2((self.num_variables + self.starting_log_inv_rate) as nat),
    {
        pow2_usize(self.num_variables + self.starting_log_inv_rate)
    }

    /// The sizes of round `round_index`.
    pub fn round_shape(&self, round_index: usize, domain_size: usize) -> (r: RoundShape)
        requires
            round_index < self.round_parameters@.len(),
            round_fits(*self, round_index as int, domain_size as int),
        ensures
            is_round_shape(*self, round_index as int, domain_size as int, r),
    {
        let total_folded: usize = match self.folding_factor.total_number(round_index) {
            Some(n) => n,
            None => 0,
        };
        let num_variables: usize = self.num_variables - total_folded;
        let log_size: usize = log2_strict_usize(domain_size);
        let reduction: usize = self.round_parameters[round_index].rs_reduction;
        let n_rounds: usize = self.n_rounds();
        assert(round_index < n_rounds);
        let folding_factor_next: usize = self.folding_factor.at_round(round_index + 1);
        let folding_factor: usize = self.folding_factor.at_round(round_index);
        proof {
            lemma_pow2_monotone((log_size - reduction) as nat, log_size as nat);
            lemma_pow2_monotone((log_size - folding_factor) as nat, log_size as nat);
        }
        RoundShape {
            num_variables,
            folding_factor_next,
            new_domain_size: pow2_usize(log_size - reduction),
            log_inv_rate: log_size - reduction - num_variables,
            generator_log: log_size - reduction - folding_factor_next,
            query_domain_size: pow2_usize(log_size - folding_factor),
        }
    }

    /// The number of leaves that can be queried in the final round.
    pub fn final_query_domain_size(&self, domain_size: usize) -> (r:
        usize)
        requires
            is_pow2(domain_size as int),
            self.folding_factor.at(self.round_parameters@.len() as int) <= log2_exact(domain_size as int),
        ensures
            r == pow2(
                (log2_exact(domain_size as int) - self.folding_factor.at(
                    self.round_parameters@.len() as int,
                )) as nat,
            ),
    {
        let log_size: usize = log2_strict_usize(domain_size);
        let folded: usize = self.folding_factor.at_round(self.n_rounds());
        proof {
            lemma_pow2_monotone((log_size - folded) as nat, log_size as nat);
        }
        pow2_usize(log_size - folded)
    }
}

impl WhirConfig {
    /// The step at `round_index`: a round for each of the rounds' parameters, then the final one.
    pub fn next_step(&self, round_index: usize, domain_size: usize) -> (r: ProverStep)
        requires
            round_index <= self.round_parameters@.len() ==> round_fits(
                *self,
                round_index as int,
                domain_size as int,
            ),
        ensures
            match r {
                ProverStep::Round(shape) => {
                    &&& round_index < self.round_parameters@.len()
                    &&& is_round_shape(*self, round_index as int, domain_size as int, shape)
                },
                ProverStep::FinalRound { query_domain_size, sumcheck_rounds } => {
                    &&& round_index == self.round_parameters@.len()
                    &&& query_domain_size == pow2(
                        (log2_exact(domain_size as int) - self.folding_factor.at(
                            round_index as int,
                        )) as nat,
                    )
                    &&& sumcheck_rounds == self.final_sumcheck_rounds
                },
                ProverStep::Done => round_index > self.round_parameters@.len(),
            },
    {
        if round_index < self.n_rounds() {
            ProverStep::Round(self.round_shape(round_index, domain_size))
        } else if round_index == self.n_rounds() {
            ProverStep::FinalRound {
                query_domain_size: self.final_query_domain_size(domain_size),
                sumcheck_rounds: self.final_sumcheck_rounds,
            }
        } else {
            ProverStep::Done
        }
    }
}

/// The scalars of the claims of a round: consecutive powers of the challenge, from `skip` on.
pub open spec fn powers_from<R: Ring>(gen: R, skip: nat, n: nat) -> Seq<R> {
    Seq::new(n, |i: int| power(gen, (skip + i) as nat))
}

fn powers_skipping<R: Ring>(gen: R, skip: usize, n: usize) -> (r: Vec<R>)
    requires
        skip + n <= usize::MAX,
    ensures
        r@ == powers_from(gen, skip as nat, n as nat),
{
    let all = powers(gen, skip + n);
    let mut out: Vec<R> = Vec::new();
    let mut i: usize = 0;
    while i < n
        invariant
            i <= n,
            all@.len() == skip + n,
            skip + n <= usize::MAX,
            forall|j: int| 0 <= j < all@.len() ==> #[trigger] all@[j] == power(gen, j as nat),
            out@.len() == i,
            forall|j: int| 0 <= j < i ==> #[trigger] out@[j] == power(gen, (skip + j) as nat),
        decreases n - i,
    {
        out.push(all[skip + i]);
        i += 1;
    }
    assert(out@ =~= powers_from(gen, skip as nat, n as nat));
    out
}

/// The weights after the claims of a round: those at out-of-domain points, then those at queried
/// points.
pub open spec fn round_weights<EF: Algebra<KoalaBear>>(
    weights: Seq<EF>,
    ood_points: Seq<EF>,
    domain_gen: KoalaBear,
    indexes: Seq<usize>,
    gen: EF,
    n: nat,
) -> Seq<EF> {
    let k = ood_points.len();
    with_equalities(
        with_equalities(weights, univariate_points(ood_points, n), powers_of(gen, k), k),
        lifted_all::<KoalaBear, EF>(domain_points(domain_gen, indexes, n)),
        powers_from(gen, k, indexes.len()),
        indexes.len(),
    )
}

/// The images of points in an algebra.
pub open spec fn lifted_all<F: Ring, EF: Algebra<F>>(points: Seq<Seq<F>>) -> Seq<Seq<EF>> {
    Seq::new(points.len(), |i: int| lifted::<F, EF>(points[i]))
}

/// The claimed sum after the claims of a round.
pub open spec fn round_sum<EF: Ring>(
    sum: EF,
    ood_answers: Seq<EF>,
    stir_evaluations: Seq<EF>,
    gen: EF,
) -> EF {
    let k = ood_answers.len();
    sum.plus(dot(ood_answers, powers_of(gen, k))).plus(
        dot(stir_evaluations, powers_from(gen, k, stir_evaluations.len())),
    )
}

/// What a prover sends in a round that is not the last.
#[derive(Debug)]
pub struct RoundMessages<EF> {
    pub root: [KoalaBear; DIGEST_ELEMS],
    pub ood_answers: Vec<EF>,
    pub openings: Openings,
    /// The openings of the commitment's second part, where it has one.
    pub openings_b: Option<Openings>,
    pub polynomials: Vec<DensePolynomial<EF>>,
}

/// The number of values in a leaf.
pub open spec fn leaf_width(data: MerkleData) -> int {
    match data {
        MerkleData::Base(t) => t.full_leaf_base_width as int,
        MerkleData::Extension(t) => t.full_leaf_base_width as int / 5,
    }
}

/// The number of variables of a leaf, taken as a polynomial.
fn leaf_variables(data: &MerkleData) -> (r: usize)
    requires
        is_pow2(leaf_width(*data)),
    ensures
        r == log2_exact(leaf_width(*data)),
{
    match data {
        MerkleData::Base(t) => log2_strict_usize(t.full_leaf_base_width),
        MerkleData::Extension(t) => log2_strict_usize(t.full_leaf_base_width / 5),
    }
}

/// The trees can be opened at the queried indices, and their leaves are polynomials in the
/// variables folded: the first part's in `folding_factor` of them, the second's in at most as many.
pub open spec fn queries_fit(
    data_a: MerkleData,
    data_b: Option<MerkleData>,
    indexes: Seq<usize>,
    folding_factor: int,
) -> bool {
    &&& leaf_width(data_a) == pow2(folding_factor as nat)
    &&& forall|i: int| 0 <= i < indexes.len() ==> data_a.openable((#[trigger] indexes[i]) as int)
    &&& data_b matches Some(b) ==> {
        &&& is_pow2(leaf_width(b))
        &&& log2_exact(leaf_width(b)) <= folding_factor
        &&& forall|i: int| 0 <= i < indexes.len() ==> b.openable((#[trigger] indexes[i]) as int)
    }
}

/// The number of challenges at which leaves are evaluated: one more where there is a second part.
pub open spec fn folds_counted(data_b: Option<MerkleData>, folding_factor: int) -> int {
    if data_b is Some {
        folding_factor + 1
    } else {
        folding_factor
    }
}

/// The values at `r` of the committed rows at the queried indices.
pub open spec fn queried_values<EF: Algebra<KoalaBear>>(
    data_a: MerkleData,
    data_b: Option<MerkleData>,
    indexes: Seq<usize>,
    basis: Seq<EF>,
    r: Seq<EF>,
) -> Seq<EF> {
    Seq::new(
        indexes.len(),
        |i: int|
            {
                let a = committed_values(data_a, indexes[i] as int, basis);
                match data_b {
                    None => mle_eval(a, r),
                    Some(b) => paired_value(
                        a,
                        committed_values(b, indexes[i] as int, basis),
                        log2_exact(leaf_width(b)) as int,
                        r,
                    ),
                }
            },
    )
}

/// The openings are those of the state's trees.
pub open spec fn openings_of(
    data_a: MerkleData,
    data_b: Option<MerkleData>,
    indexes: Seq<usize>,
    openings: Openings,
    openings_b: Option<Openings>,
) -> bool {
    &&& openings.of_tree(data_a, indexes, indexes.len() as int)
    &&& match (data_b, openings_b) {
        (None, None) => true,
        (Some(b), Some(o)) => o.of_tree(b, indexes, indexes.len() as int),
        _ => false,
    }
}

/// The answers of an opened tree are the values committed to, as many as a leaf holds.
proof fn lemma_answers_committed<EF: Algebra<KoalaBear>>(
    data: MerkleData,
    indexes: Seq<usize>,
    openings: Openings,
    answers: Seq<Answer<EF>>,
    basis: Seq<EF>,
    i: int,
)
    requires
        openings.of_tree(data, indexes, indexes.len() as int),
        0 <= i < indexes.len(),
        data.openable(indexes[i] as int),
        answers.len() == indexes.len(),
        forall|j: int|
            0 <= j < answers.len() ==> (#[trigger] answers[j]).values() == leaf_values(
                openings.answers@[j],
                basis,
            ),
    ensures
        answers[i].values() == committed_values(data, indexes[i] as int, basis),
        answers[i].values().len() == leaf_width(data),
{
    let index = indexes[i] as int;
    let leaf = openings.answers@[i];
    let siblings = if data is Base {
        openings.base_paths@[i].sibling_hashes@
    } else {
        openings.ext_paths@[i].sibling_hashes@
    };
    assert(answers[i].values() == leaf_values(leaf, basis));
    if data is Base {
        assert(openings.base_paths@[i].leaf_index == indexes[i]);
    } else {
        assert(openings.ext_paths@[i].leaf_index == indexes[i]);
    }
    law_opened_values(data, index, leaf, siblings, basis);
    data.tree().leaf.lemma_row_bounds(index);
    let row = data.tree().leaf.row_spec(index);
    assert(row.len() == data.tree().leaf.width);
    assert(padded(row, data.tree().full_leaf_base_width as int).len()
        == data.tree().full_leaf_base_width);
}

impl RoundShape {
    /// Commits to the matrix of the folded polynomial. Returns the tree and its root.
    pub fn commit_folded(&self, folded_matrix: DftOutput) -> (r: (
        MerkleData,
        [KoalaBear; DIGEST_ELEMS],
    ))
        requires
            folded_matrix.wf(),
            folded_matrix.n_rows() > 0,
            folded_matrix.n_cols() == pow2(self.folding_factor_next as nat),
            20 * pow2(self.folding_factor_next as nat) <= usize::MAX,
        ensures
            r.0 is Base <==> folded_matrix is Base,
            commits_to(
                r.0.tree(),
                folded_matrix,
                pow2(self.folding_factor_next as nat) as int,
            ),
            r.1@ == r.0.tree().tree.root_spec(),
    {
        let full: usize = pow2_usize(self.folding_factor_next);
        MerkleData::build(folded_matrix, full, full)
    }
}

impl<EF: Algebra<KoalaBear>> RoundState<EF> {
    /// Starts the protocol: combines the out-of-domain claims of the commitment with the
    /// statements, and runs one sumcheck round for each challenge. Returns the polynomials sent
    /// and the state before the first round.
    pub fn initialize_first_round_state<F: Ring>(
        prover: &WhirConfig,
        statement: Vec<SparseStatement<EF>>,
        next_tables: Vec<Vec<EF>>,
        witness: Witness<EF>,
        polynomial: &[F],
        combination_randomness: EF,
        challenges: &[EF],
        next_domain_gen: KoalaBear,
    ) -> (r: (Vec<DensePolynomial<EF>>, Self)) where EF: Algebra<F>
        requires
            witness.ood_points@.len() == witness.ood_answers@.len(),
            combinable(statement@, next_tables@, prover.num_variables as nat),
            witness.ood_points@.len() + statement@.len() > 0,
            polynomial@.len() == pow2(prover.num_variables as nat),
            1 <= challenges@.len() <= prover.num_variables,
            challenges@.len() == prover.folding_factor.first,
            pow2((prover.num_variables + prover.starting_log_inv_rate) as nat) <= usize::MAX,
            prover.num_variables + prover.starting_log_inv_rate <= usize::MAX,
        ensures
            ({
                let n = prover.num_variables as nat;
                let x = lifted::<F, EF>(polynomial@);
                let terms = ood_terms(witness.ood_points@, witness.ood_answers@, n) + terms_of(
                    statement@,
                    next_tables@,
                    statement@.len(),
                );
                let w = combined_weights(terms, combination_randomness, pow2(n));
                let s = combined_sum(terms, combination_randomness);
                let state = r.1;
                &&& state.domain_size == pow2(
                    (prover.num_variables + prover.starting_log_inv_rate) as nat,
                )
                &&& state.next_domain_gen == next_domain_gen
                &&& state.merkle_prover_data == witness.prover_data
                &&& state.commitment_merkle_prover_data_b is None
                &&& state.randomness_vec@ == challenges@
                &&& state.sumcheck_prover.wf()
                &&& state.sumcheck_prover.evals@ == folded_by(x, challenges@)
                &&& state.sumcheck_prover.weights@ == folded_by(w, challenges@)
                &&& state.sumcheck_prover.sum == sum_after(x, w, s, challenges@)
                &&& sent_polys(x, w, s, challenges@, r.0@)
            }),
    {
        let (all, all_tables) = with_ood_statements(
            prover,
            &witness.ood_points,
            &witness.ood_answers,
            statement,
            next_tables,
        );
        proof {
            lemma_pow2_monotone(
                prover.num_variables as nat,
                (prover.num_variables + prover.starting_log_inv_rate) as nat,
            );
        }
        let (polys, sumcheck_prover) = SumcheckSingle::<EF>::run_initial_sumcheck_rounds::<F>(
            polynomial,
            all.as_slice(),
            all_tables.as_slice(),
            combination_randomness,
            challenges,
        );
        (
            polys,
            RoundState::start(
                prover,
                witness.prover_data,
                sumcheck_prover,
                challenges,
                next_domain_gen,
            ),
        )
    }

    /// The state before the first round, from the sumcheck after its first challenges.
    pub fn start(
        prover: &WhirConfig,
        prover_data: MerkleData,
        sumcheck_prover: SumcheckSingle<EF>,
        challenges: &[EF],
        next_domain_gen: KoalaBear,
    ) -> (r: Self)
        requires
            pow2((prover.num_variables + prover.starting_log_inv_rate) as nat) <= usize::MAX,
            prover.num_variables + prover.starting_log_inv_rate <= usize::MAX,
        ensures
            r.domain_size == pow2((prover.num_variables + prover.starting_log_inv_rate) as nat),
            r.next_domain_gen == next_domain_gen,
            r.sumcheck_prover == sumcheck_prover,
            r.commitment_merkle_prover_data_b is None,
            r.merkle_prover_data == prover_data,
            r.randomness_vec@ == challenges@,
    {
        let mut randomness_vec: Vec<EF> = Vec::new();
        extend_from(&mut randomness_vec, challenges);
        assert(randomness_vec@ =~= challenges@);
        RoundState {
            domain_size: prover.starting_domain_size(),
            next_domain_gen,
            sumcheck_prover,
            commitment_merkle_prover_data_b: None,
            merkle_prover_data: prover_data,
            randomness_vec,
        }
    }

    /// The last challenges, as many as were folded in the last round.
    pub fn folding_randomness(&self, folding_factor: usize) -> (r: Vec<EF>)
        requires
            folding_factor <= self.randomness_vec@.len(),
        ensures
            r@ == self.randomness_vec@.skip(self.randomness_vec@.len() - folding_factor),
    {
        last_elements(&self.randomness_vec, folding_factor)
    }

    /// Adds the claims of a round to the sumcheck: the values at the out-of-domain points and at
    /// the queried points, weighted by the powers of one challenge.
    pub fn add_round_claims(
        &mut self,
        num_variables: usize,
        ood_points: &[EF],
        ood_answers: &[EF],
        stir_challenges_indexes: &[usize],
        stir_evaluations: &[EF],
        combination_randomness_gen: EF,
    )
        requires
            ood_points@.len() == ood_answers@.len(),
            stir_challenges_indexes@.len() == stir_evaluations@.len(),
            ood_points.len() + stir_evaluations.len() <= usize::MAX,
            old(self).sumcheck_prover.weights@.len() == pow2(num_variables as nat),
        ensures
            final(self).sumcheck_prover.evals == old(self).sumcheck_prover.evals,
            final(self).sumcheck_prover.weights@ == round_weights(
                old(self).sumcheck_prover.weights@,
                ood_points@,
                old(self).next_domain_gen,
                stir_challenges_indexes@,
                combination_randomness_gen,
                num_variables as nat,
            ),
            final(self).sumcheck_prover.sum == round_sum(
                old(self).sumcheck_prover.sum,
                ood_answers@,
                stir_evaluations@,
                combination_randomness_gen,
            ),
            final(self).domain_size == old(self).domain_size,
            final(self).next_domain_gen == old(self).next_domain_gen,
            final(self).commitment_merkle_prover_data_b == old(
                self,
            ).commitment_merkle_prover_data_b,
            final(self).merkle_prover_data == old(self).merkle_prover_data,
            final(self).randomness_vec == old(self).randomness_vec,
    {
        let ghost n = num_variables as nat;
        let ghost w0 = self.sumcheck_prover.weights@;
        let (ood_challenges, stir_challenges) = compute_stir_queries::<KoalaBear, EF>(
            self.next_domain_gen,
            num_variables,
            ood_points,
            stir_challenges_indexes,
        );
        let k: usize = ood_points.len();
        let ood_scalars = powers(combination_randomness_gen, k);
        let stir_scalars = powers_skipping(
            combination_randomness_gen,
            k,
            stir_evaluations.len(),
        );
        proof {
            assert(point_views(ood_challenges@) =~= univariate_points(ood_points@, n));
            assert(lifted_points::<KoalaBear, EF>(stir_challenges@) =~= lifted_all::<
                KoalaBear,
                EF,
            >(domain_points(self.next_domain_gen, stir_challenges_indexes@, n)));
            lemma_with_equalities_len(
                w0,
                univariate_points(ood_points@, n),
                ood_scalars@,
                k as nat,
            );
            assert forall|i: int| 0 <= i < ood_challenges@.len() implies pow2(
                (#[trigger] ood_challenges@[i])@.len(),
            ) == w0.len() by {
                assert(ood_challenges@[i]@ == univariate_points(ood_points@, n)[i]);
            }
            assert forall|i: int| 0 <= i < stir_challenges@.len() implies pow2(
                (#[trigger] stir_challenges@[i])@.len(),
            ) == w0.len() by {
                assert(stir_challenges@[i]@ == domain_points(
                    self.next_domain_gen,
                    stir_challenges_indexes@,
                    n,
                )[i]);
            }
        }
        self.sumcheck_prover.add_new_equality(
            ood_challenges.as_slice(),
            ood_answers,
            ood_scalars.as_slice(),
        );
        self.sumcheck_prover.add_new_base_equality::<KoalaBear>(
            stir_challenges.as_slice(),
            stir_evaluations,
            stir_scalars.as_slice(),
        );
    }

    /// Opens the trees of the state at the queried indices.
    pub fn open_queries(&self, stir_challenges_indexes: &[usize], folding_factor: usize) -> (r: (
        Openings,
        Option<Openings>,
    ))
        requires
            queries_fit(
                self.merkle_prover_data,
                self.commitment_merkle_prover_data_b,
                stir_challenges_indexes@,
                folding_factor as int,
            ),
        ensures
            openings_of(
                self.merkle_prover_data,
                self.commitment_merkle_prover_data_b,
                stir_challenges_indexes@,
                r.0,
                r.1,
            ),
    {
        let openings = open_merkle_tree_at_challenges(
            &self.merkle_prover_data,
            stir_challenges_indexes,
        );
        let openings_b = match &self.commitment_merkle_prover_data_b {
            None => None,
            Some(b) => Some(open_merkle_tree_at_challenges(b, stir_challenges_indexes)),
        };
        (openings, openings_b)
    }

    /// The values of the opened leaves at the last challenges, given the basis in which elements of
    /// the extension are listed.
    pub fn query_evaluations(
        &self,
        stir_challenges_indexes: &[usize],
        openings: &Openings,
        openings_b: &Option<Openings>,
        basis: &[EF; 5],
        folding_factor: usize,
    ) -> (r: Vec<EF>)
        requires
            queries_fit(
                self.merkle_prover_data,
                self.commitment_merkle_prover_data_b,
                stir_challenges_indexes@,
                folding_factor as int,
            ),
            openings_of(
                self.merkle_prover_data,
                self.commitment_merkle_prover_data_b,
                stir_challenges_indexes@,
                *openings,
                *openings_b,
            ),
            folds_counted(self.commitment_merkle_prover_data_b, folding_factor as int)
                <= self.randomness_vec@.len(),
        ensures
            r@ == queried_values(
                self.merkle_prover_data,
                self.commitment_merkle_prover_data_b,
                stir_challenges_indexes@,
                basis@,
                self.randomness_vec@.skip(
                    self.randomness_vec@.len() - folds_counted(
                        self.commitment_merkle_prover_data_b,
                        folding_factor as int,
                    ),
                ),
            ),
    {
        let ghost indexes = stir_challenges_indexes@;
        let ghost data_a = self.merkle_prover_data;
        let ghost data_b = self.commitment_merkle_prover_data_b;
        let answers_a = answers_of(&openings.answers, basis);
        assert forall|i: int| 0 <= i < indexes.len() implies (#[trigger] answers_a@[i]).values()
            == committed_values(data_a, indexes[i] as int, basis@)
            && answers_a@[i].values().len() == leaf_width(data_a) by {
            lemma_answers_committed(data_a, indexes, *openings, answers_a@, basis@, i);
        }
        let randomness_len: usize = self.randomness_vec.len();
        assert(folds_counted(data_b, folding_factor as int) <= randomness_len);
        match (&self.commitment_merkle_prover_data_b, openings_b) {
            (Some(b), Some(o)) => {
                let folding = self.folding_randomness(folding_factor + 1);
                let list = answers_of(&o.answers, basis);
                let vars_b: usize = leaf_variables(b);
                assert forall|i: int| 0 <= i < indexes.len() implies (#[trigger] list@[i]).values()
                    == committed_values(*b, indexes[i] as int, basis@)
                    && list@[i].values().len() == leaf_width(*b) by {
                    lemma_answers_committed(*b, indexes, *o, list@, basis@, i);
                }
                assert(leaf_width(*b) == pow2(vars_b as nat));
                let answers_b = Some((list, vars_b));
                assert(answers_fit(answers_a@, answers_b, folding_factor + 1));
                let r = stir_evaluations(&answers_a, &answers_b, folding.as_slice());
                assert(r@ =~= queried_values(data_a, data_b, indexes, basis@, folding@));
                r
            },
            _ => {
                let folding = self.folding_randomness(folding_factor);
                let r = stir_evaluations(&answers_a, &None, folding.as_slice());
                assert(r@ =~= queried_values(data_a, data_b, indexes, basis@, folding@));
                r
            },
        }
    }

    /// Moves on to the next round, on a new domain and with a new tree.
    pub fn advance(
        &mut self,
        challenges: &[EF],
        new_domain_size: usize,
        next_domain_gen: KoalaBear,
        prover_data: MerkleData,
    )
        ensures
            final(self).sumcheck_prover == old(self).sumcheck_prover,
            final(self).randomness_vec@ == old(self).randomness_vec@ + challenges@,
            final(self).domain_size == new_domain_size,
            final(self).next_domain_gen == next_domain_gen,
            final(self).merkle_prover_data == prover_data,
            final(self).commitment_merkle_prover_data_b is None,
    {
        extend_from(&mut self.randomness_vec, challenges);
        self.domain_size = new_domain_size;
        self.next_domain_gen = next_domain_gen;
        self.merkle_prover_data = prover_data;
        self.commitment_merkle_prover_data_b = None;
    }

    /// A round that is not the last. Commits to the folded polynomial, whose matrix is given,
    /// evaluates it at the out-of-domain points, opens the trees of the round before at the queried
    /// indices and evaluates the leaves at the folding randomness, adds these claims to the
    /// sumcheck, and runs it for the next fold, one round for each challenge. Returns what is sent.
    pub fn round(
        &mut self,
        shape: &RoundShape,
        folding_factor: usize,
        folded_matrix: DftOutput,
        ood_points: &[EF],
        stir_challenges_indexes: &[usize],
        basis: &[EF; 5],
        combination_randomness_gen: EF,
        challenges: &[EF],
        next_domain_gen: KoalaBear,
    ) -> (r: RoundMessages<EF>)
        requires
            old(self).sumcheck_prover.wf(),
            old(self).sumcheck_prover.evals@.len() == pow2(shape.num_variables as nat),
            folded_matrix.wf(),
            folded_matrix.n_rows() > 0,
            folded_matrix.n_cols() == pow2(shape.folding_factor_next as nat),
            20 * pow2(shape.folding_factor_next as nat) <= usize::MAX,
            queries_fit(
                old(self).merkle_prover_data,
                old(self).commitment_merkle_prover_data_b,
                stir_challenges_indexes@,
                folding_factor as int,
            ),
            folds_counted(old(self).commitment_merkle_prover_data_b, folding_factor as int)
                <= old(self).randomness_vec@.len(),
            ood_points.len() + stir_challenges_indexes.len() <= usize::MAX,
            challenges@.len() == shape.folding_factor_next,
            shape.folding_factor_next <= shape.num_variables,
        ensures
            ({
                let before = old(self);
                let data_a = before.merkle_prover_data;
                let data_b = before.commitment_merkle_prover_data_b;
                let f = before.sumcheck_prover.evals@;
                let n = shape.num_variables as nat;
                let count = folds_counted(data_b, folding_factor as int);
                let folding = before.randomness_vec@.skip(before.randomness_vec@.len() - count);
                let w = round_weights(
                    before.sumcheck_prover.weights@,
                    ood_points@,
                    before.next_domain_gen,
                    stir_challenges_indexes@,
                    combination_randomness_gen,
                    n,
                );
                let s = round_sum(
                    before.sumcheck_prover.sum,
                    ood_answers_of(f, ood_points@, n),
                    queried_values(data_a, data_b, stir_challenges_indexes@, basis@, folding),
                    combination_randomness_gen,
                );
                let after = final(self).sumcheck_prover;
                &&& r.ood_answers@ == ood_answers_of(f, ood_points@, n)
                &&& openings_of(
                    data_a,
                    data_b,
                    stir_challenges_indexes@,
                    r.openings,
                    r.openings_b,
                )
                &&& after.wf()
                &&& after.evals@ == folded_by(f, challenges@)
                &&& after.weights@ == folded_by(w, challenges@)
                &&& after.sum == sum_after(f, w, s, challenges@)
                &&& sent_polys(f, w, s, challenges@, r.polynomials@)
            }),
            ({
                let data = final(self).merkle_prover_data;
                &&& data is Base <==> folded_matrix is Base
                &&& commits_to(
                    data.tree(),
                    folded_matrix,
                    pow2(shape.folding_factor_next as nat) as int,
                )
                &&& r.root@ == data.tree().tree.root_spec()
            }),
            final(self).randomness_vec@ == old(self).randomness_vec@ + challenges@,
            final(self).domain_size == shape.new_domain_size,
            final(self).next_domain_gen == next_domain_gen,
            final(self).commitment_merkle_prover_data_b is None,
    {
        let ghost n = shape.num_variables as nat;
        let ghost w0 = self.sumcheck_prover.weights@;
        let (prover_data, root) = shape.commit_folded(folded_matrix);
        let ood_answers = ood_answers_ext(
            self.sumcheck_prover.evals.as_slice(),
            ood_points,
            shape.num_variables,
        );
        let (openings, openings_b) = self.open_queries(stir_challenges_indexes, folding_factor);
        let evaluations = self.query_evaluations(
            stir_challenges_indexes,
            &openings,
            &openings_b,
            basis,
            folding_factor,
        );
        self.add_round_claims(
            shape.num_variables,
            ood_points,
            ood_answers.as_slice(),
            stir_challenges_indexes,
            evaluations.as_slice(),
            combination_randomness_gen,
        );
        proof {
            let k = ood_points@.len();
            lemma_with_equalities_len(
                w0,
                univariate_points(ood_points@, n),
                powers_of(combination_randomness_gen, k),
                k,
            );
            lemma_with_equalities_len(
                with_equalities(
                    w0,
                    univariate_points(ood_points@, n),
                    powers_of(combination_randomness_gen, k),
                    k,
                ),
                lifted_all::<KoalaBear, EF>(
                    domain_points(self.next_domain_gen, stir_challenges_indexes@, n),
                ),
                powers_from(combination_randomness_gen, k, stir_challenges_indexes@.len()),
                stir_challenges_indexes@.len(),
            );
            assert(pow2(n) == self.sumcheck_prover.evals@.len() && n >= challenges@.len());
        }
        let polynomials = self.sumcheck_prover.run(challenges);
        self.advance(challenges, shape.new_domain_size, next_domain_gen, prover_data);
        RoundMessages { root, ood_answers, openings, openings_b, polynomials }
    }

    /// The final round: opens the tree at the queried indices, and runs the final sumcheck, one
    /// round for each challenge. Returns the openings and the polynomials sent.
    pub fn final_round(&mut self, final_challenge_indexes: &[usize], challenges: &[EF]) -> (r: (
        Openings,
        Vec<DensePolynomial<EF>>,
    ))
        requires
            old(self).sumcheck_prover.wf(),
            enough_variables(
                old(self).sumcheck_prover.evals@.len() as int,
                challenges@.len() as int,
            ),
            forall|i: int|
                0 <= i < final_challenge_indexes@.len() ==> old(self).merkle_prover_data.openable(
                    (#[trigger] final_challenge_indexes@[i]) as int,
                ),
        ensures
            r.0.of_tree(
                old(self).merkle_prover_data,
                final_challenge_indexes@,
                final_challenge_indexes@.len() as int,
            ),
            ({
                let before = old(self).sumcheck_prover;
                let after = final(self).sumcheck_prover;
                &&& after.wf()
                &&& after.evals@ == folded_by(before.evals@, challenges@)
                &&& after.weights@ == folded_by(before.weights@, challenges@)
                &&& after.sum == sum_after(
                    before.evals@,
                    before.weights@,
                    before.sum,
                    challenges@,
                )
                &&& sent_polys(before.evals@, before.weights@, before.sum, challenges@, r.1@)
            }),
            final(self).randomness_vec@ == old(self).randomness_vec@ + challenges@,
            final(self).domain_size == old(self).domain_size,
            final(self).next_domain_gen == old(self).next_domain_gen,
            final(self).merkle_prover_data == old(self).merkle_prover_data,
            final(self).commitment_merkle_prover_data_b == old(
                self,
            ).commitment_merkle_prover_data_b,
    {
        let openings = open_merkle_tree_at_challenges(
            &self.merkle_prover_data,
            final_challenge_indexes,
        );
        let polys = self.sumcheck_prover.run(challenges);
        extend_from(&mut self.randomness_vec, challenges);
        (openings, polys)
    }
}

/// The claims of a round keep the claimed sum true: where it was the inner product of the folded
/// polynomial with the weights, and the values claimed are those of the polynomial, it still is.
pub proof fn law_round_claims_keep_sum<EF: Algebra<KoalaBear>>(
    f: Seq<EF>,
    weights: Seq<EF>,
    ood_points: Seq<EF>,
    ood_answers: Seq<EF>,
    domain_gen: KoalaBear,
    indexes: Seq<usize>,
    stir_evaluations: Seq<EF>,
    gen: EF,
    n: nat,
)
    requires
        f.len() == pow2(n),
        weights.len() == f.len(),
        ood_answers.len() == ood_points.len(),
        stir_evaluations.len() == indexes.len(),
        forall|i: int|
            0 <= i < ood_points.len() ==> #[trigger] ood_answers[i] == mle_eval(
                f,
                univariate_point(ood_points[i], n),
            ),
        forall|i: int|
            0 <= i < indexes.len() ==> #[trigger] stir_evaluations[i] == mle_eval(
                f,
                lifted_all::<KoalaBear, EF>(domain_points(domain_gen, indexes, n))[i],
            ),
    ensures
        round_sum(dot(f, weights), ood_answers, stir_evaluations, gen) == dot(
            f,
            round_weights(weights, ood_points, domain_gen, indexes, gen, n),
        ),
{
    let k = ood_points.len();
    let points = univariate_points(ood_points, n);
    let queried = lifted_all::<KoalaBear, EF>(domain_points(domain_gen, indexes, n));
    let middle = with_equalities(weights, points, powers_of(gen, k), k);
    lemma_with_equalities_len(weights, points, powers_of(gen, k), k);
    law_true_equalities_keep_sum(f, weights, points, ood_answers, powers_of(gen, k));
    law_true_equalities_keep_sum(
        f,
        middle,
        queried,
        stir_evaluations,
        powers_from(gen, k, indexes.len()),
    );
}

/// A prover that starts from true claims goes on with a true one: where the statements hold of the
/// polynomial and the out-of-domain answers are its values, the sum claimed after the challenges
/// `cs` is the inner product of the folded polynomial with the folded weights.
pub proof fn law_true_claims_start<EF: Ring>(
    f: Seq<EF>,
    ood_points: Seq<EF>,
    statements: Seq<SparseStatement<EF>>,
    next_tables: Seq<Vec<EF>>,
    gamma: EF,
    cs: Seq<EF>,
    n: nat,
)
    requires
        f.len() == pow2(n),
        all_canonical(f),
        combinable(statements, next_tables, n),
        forall|i: int|
            0 <= i < statements.len() ==> statement_holds(
                f,
                #[trigger] statements[i],
                next_tables[i]@,
            ),
        cs.len() <= n,
    ensures
        ({
            let terms = ood_terms(ood_points, ood_answers_of(f, ood_points, n), n) + terms_of(
                statements,
                next_tables,
                statements.len(),
            );
            let w = combined_weights(terms, gamma, pow2(n));
            sum_after(f, w, combined_sum(terms, gamma), cs) == dot(
                folded_by(f, cs),
                folded_by(w, cs),
            )
        }),
{
    let answers = ood_answers_of(f, ood_points, n);
    let ood = ood_terms(ood_points, answers, n);
    let rest = terms_of(statements, next_tables, statements.len());
    let terms = ood + rest;
    lemma_terms_hold(f, statements, next_tables, n, statements.len());
    assert forall|k: int| 0 <= k < terms.len() implies term_holds(f, #[trigger] terms[k]) by {
        if k < ood.len() {
            let point = univariate_point(ood_points[k], n);
            lemma_eq_table_len(point);
            assert(terms[k] == ood[k]);
            assert(0 * terms[k].table.len() == 0) by (nonlinear_arith);
            assert(f.subrange(0, f.len() as int) =~= f);
        } else {
            assert(terms[k] == rest[k - ood.len()]);
        }
    }
    law_combined_terms(f, terms, gamma);
    lemma_combined_len(terms, gamma, pow2(n));
    lemma_combined_canonical(terms, gamma, pow2(n));
    assert(pow2(n) == f.len() && n >= cs.len());
    law_sum_is_inner_product(f, combined_weights(terms, gamma, pow2(n)), cs);
}

/// A round keeps the claim true: where the sum claimed before it is the inner product of the folded
/// polynomial with the weights, and the values of the queried leaves are the polynomial's at the
/// queried points, the sum claimed after the challenges `cs` is the inner product of what is folded
/// further.
pub proof fn law_true_claims_continue<EF: Algebra<KoalaBear>>(
    f: Seq<EF>,
    weights: Seq<EF>,
    ood_points: Seq<EF>,
    domain_gen: KoalaBear,
    indexes: Seq<usize>,
    stir_evaluations: Seq<EF>,
    gen: EF,
    cs: Seq<EF>,
    n: nat,
)
    requires
        f.len() == pow2(n),
        weights.len() == f.len(),
        all_canonical(f),
        all_canonical(weights),
        stir_evaluations.len() == indexes.len(),
        forall|i: int|
            0 <= i < indexes.len() ==> #[trigger] stir_evaluations[i] == mle_eval(
                f,
                lifted_all::<KoalaBear, EF>(domain_points(domain_gen, indexes, n))[i],
            ),
        cs.len() <= n,
    ensures
        ({
            let w = round_weights(weights, ood_points, domain_gen, indexes, gen, n);
            let s = round_sum(
                dot(f, weights),
                ood_answers_of(f, ood_points, n),
                stir_evaluations,
                gen,
            );
            sum_after(f, w, s, cs) == dot(folded_by(f, cs), folded_by(w, cs))
        }),
{
    let k = ood_points.len();
    let points = univariate_points(ood_points, n);
    let queried = lifted_all::<KoalaBear, EF>(domain_points(domain_gen, indexes, n));
    let middle = with_equalities(weights, points, powers_of(gen, k), k);
    let scalars = powers_from(gen, k, indexes.len());
    law_round_claims_keep_sum(
        f,
        weights,
        ood_points,
        ood_answers_of(f, ood_points, n),
        domain_gen,
        indexes,
        stir_evaluations,
        gen,
        n,
    );
    lemma_with_equalities_len(weights, points, powers_of(gen, k), k);
    lemma_with_equalities_len(middle, queried, scalars, indexes.len());
    lemma_with_equalities_canonical(weights, points, powers_of(gen, k), k);
    lemma_with_equalities_canonical(middle, queried, scalars, indexes.len());
    assert(pow2(n) == f.len() && n >= cs.len());
    law_sum_is_inner_product(
        f,
        round_weights(weights, ood_points, domain_gen, indexes, gen, n),
        cs,
    );
}

} // verus!
