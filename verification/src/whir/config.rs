//! Parameters of the opening protocol.

use crate::field::Ring;
use crate::math::{lemma_pow2_base, lemma_pow2_step};
use crate::whir::statement::SparseStatement;
use vstd::arithmetic::power2::pow2;
use vstd::prelude::*;

verus! {

/// How many variables are folded per round: `first` in the first round, `rest` in every other.
#[derive(Clone, Copy, Debug)]
pub struct FoldingFactor {
    pub first: usize,
    pub rest: usize,
}

impl FoldingFactor {
    pub open spec fn at(self, round: int) -> int {
        if round == 0 {
            self.first as int
        } else {
            self.rest as int
        }
    }

    pub open spec fn total(self, round: int) -> int {
        self.first + self.rest * round
    }

    /// The number of variables folded in a round.
    pub fn at_round(&self, round: usize) -> (r: usize)
        ensures
            r == self.at(round as int),
            round == 0 ==> r == self.first,
            round > 0 ==> r == self.rest,
    {
        if round == 0 {
            self.first
        } else {
            self.rest
        }
    }

    /// The number of variables folded up to and with a round, where it can be represented.
    pub fn total_number(&self, round: usize) -> (r: Option<usize>)
        ensures
            match r {
                Some(n) => n == self.total(round as int),
                None => self.total(round as int) > usize::MAX,
            },
            r matches Some(n) ==> n == self.first + self.rest * round,
    {
        match self.rest.checked_mul(round) {
            None => {
                None
            },
            Some(m) => self.first.checked_add(m),
        }
    }
}

/// The variables folded in the rounds before `n`.
pub open spec fn folded_before(factor: FoldingFactor, n: nat) -> int
    decreases n,
{
    if n == 0 {
        0
    } else {
        folded_before(factor, (n - 1) as nat) + factor.at(n - 1)
    }
}

/// The total of a round counts what is folded in it and in all rounds before it. So with valid
/// parameters the challenges of all rounds and of the final sumcheck make one point with as many
/// coordinates as there are variables.
pub proof fn law_total_counts_folds(factor: FoldingFactor, round: nat)
    ensures
        folded_before(factor, round + 1) == factor.total(round as int),
    decreases round,
{
    if round == 0 {
        assert(folded_before(factor, 0) == 0);
        assert(factor.rest * 0 == 0) by (nonlinear_arith);
    } else {
        law_total_counts_folds(factor, (round - 1) as nat);
        let (r, k) = (factor.rest as int, round as int);
        assert(r * k == r * (k - 1) + r) by (nonlinear_arith);
    }
}

/// Parameters of one round.
#[derive(Clone, Copy, Debug)]
pub struct RoundConfig {
    pub ood_samples: usize,
    pub query_pow_bits: usize,
    pub num_queries: usize,
    pub folding_pow_bits: usize,
    /// The base-two logarithm of the factor by which the domain shrinks.
    pub rs_reduction: usize,
}

/// Parameters of the protocol.
#[derive(Debug)]
pub struct WhirConfig {
    pub num_variables: usize,
    pub folding_factor: FoldingFactor,
    pub round_parameters: Vec<RoundConfig>,
    pub starting_log_inv_rate: usize,
    pub starting_folding_pow_bits: usize,
    pub commitment_ood_samples: usize,
    pub final_sumcheck_rounds: usize,
    pub final_queries: usize,
    pub final_query_pow_bits: usize,
}

/// Whether `v` is less than `2^k`.
fn below_pow2(v: usize, k: usize) -> (r: bool)
    ensures
        r == (v < pow2(k as nat)),
{
    let mut left: usize = v;
    let mut i: usize = 0;
    proof {
        lemma_pow2_base();
    }
    while i < k && left > 0
        invariant
            i <= k,
            left * pow2(i as nat) <= v < (left + 1) * pow2(i as nat),
        decreases k - i,
    {
        proof {
            lemma_pow2_step(i as nat);
            let (l, p) = (left as int, pow2(i as nat) as int);
            assert((l / 2) * (2 * p) <= l * p && (l + 1) * p <= (l / 2 + 1) * (2 * p))
                by (nonlinear_arith)
                requires
                    2 * (l / 2) <= l,
                    l + 1 <= 2 * (l / 2) + 2,
                    p >= 0,
            ;
        }
        left = left / 2;
        i += 1;
    }
    proof {
        let (l, p) = (left as int, pow2(i as nat) as int);
        if left == 0 {
            crate::math::lemma_pow2_monotone(i as nat, k as nat);
            assert((l + 1) * p == p) by (nonlinear_arith)
                requires
                    l == 0,
            ;
        } else {
            assert(l * p >= p) by (nonlinear_arith)
                requires
                    l >= 1,
                    p >= 0,
            ;
        }
    }
    left == 0
}

/// The statement speaks of blocks of the polynomial: it has values, and every selector names a
/// block.
pub open spec fn statement_fits<EF: Ring>(s: SparseStatement<EF>, n: nat) -> bool {
    &&& s.total_num_variables == n
    &&& s.inner() <= n
    &&& s.values@.len() > 0
    &&& forall|k: int|
        0 <= k < s.values@.len() ==> (#[trigger] s.values@[k]).selector < pow2(
            (n - s.inner()) as nat,
        )
}

impl WhirConfig {
    pub fn n_rounds(&self) -> (r: usize)
        ensures
            r == self.round_parameters@.len(),
    {
        self.round_parameters.len()
    }

    /// Every variable is folded in a round or in the final sumcheck.
    pub open spec fn parameters_valid(self) -> bool {
        self.num_variables == self.folding_factor.total(self.round_parameters@.len() as int)
            + self.final_sumcheck_rounds
    }

    pub fn validate_parameters(&self) -> (r: bool)
        ensures
            r == self.parameters_valid(),
            r <==> self.num_variables == self.folding_factor.first + self.folding_factor.rest
                * self.round_parameters@.len() + self.final_sumcheck_rounds,
    {
        match self.folding_factor.total_number(self.n_rounds()) {
            None => false,
            Some(n) => match n.checked_add(self.final_sumcheck_rounds) {
                None => false,
                Some(m) => self.num_variables == m,
            },
        }
    }

    pub fn validate_statement<EF: Ring>(&self, statement: &[SparseStatement<EF>]) -> (r: bool)
        ensures
            r <==> forall|i: int|
                0 <= i < statement@.len() ==> statement_fits(
                    #[trigger] statement@[i],
                    self.num_variables as nat,
                ),
            r ==> forall|i: int|
                #![trigger statement@[i]]
                0 <= i < statement@.len() ==> statement@[i].total_num_variables
                    == self.num_variables && statement@[i].point@.len() <= self.num_variables
                    && statement@[i].values@.len() > 0,
            r ==> forall|i: int, k: int|
                0 <= i < statement@.len() && 0 <= k < statement@[i].values@.len() ==> (
                #[trigger] statement@[i].values@[k]).selector < pow2(
                    (self.num_variables - statement@[i].point@.len()) as nat,
                ),
    {
        let mut i: usize = 0;
        while i < statement.len()
            invariant
                i <= statement@.len(),
                forall|j: int|
                    0 <= j < i ==> statement_fits(
                        #[trigger] statement@[j],
                        self.num_variables as nat,
                    ),
            decreases statement@.len() - i,
        {
            let e = &statement[i];
            let ghost n = self.num_variables as nat;
            if e.total_num_variables != self.num_variables || e.values.len() == 0
                || e.inner_num_variables() > self.num_variables {
                assert(!statement_fits(statement@[i as int], n));
                return false;
            }
            let k: usize = e.selector_num_variables();
            let mut v: usize = 0;
            while v < e.values.len()
                invariant
                    v <= e.values@.len(),
                    e.total_num_variables == self.num_variables,
                    k == self.num_variables - e.inner(),
                    n == self.num_variables,
                    i < statement@.len(),
                    *e == statement@[i as int],
                    forall|j: int|
                        0 <= j < v ==> (#[trigger] e.values@[j]).selector < pow2(
                            (n - e.inner()) as nat,
                        ),
                decreases e.values@.len() - v,
            {
                if !below_pow2(e.values[v].selector, k) {
                    assert(!(e.values@[v as int].selector < pow2((n - e.inner()) as nat)));
                    assert(!statement_fits(statement@[i as int], n));
                    return false;
                }
                v += 1;
            }
            i += 1;
        }
        true
    }

    /// The out-of-domain points and answers match, and the polynomial has the right number of
    /// variables.
    pub fn validate_witness(&self, n_points: usize, n_answers: usize, n_vars: usize) -> (r: bool)
        ensures
            r <==> n_points == n_answers && n_vars == self.num_variables,
    {
        n_points == n_answers && n_vars == self.num_variables
    }
}

} // verus!
