//! Commitments to polynomials: the shape of the committed matrix, the tree over its rows, and the
//! out-of-domain answers.

use crate::field::{Algebra, KoalaBear, Ring};
use crate::math::{
    is_log2_ceil, lemma_log2_ceil_unique, lemma_log2_of_pow2, lemma_pow2_monotone, pow2_usize,
};
use crate::poly::{evaluate, evaluate_ext, expand_from_univariate, mle_eval, univariate_point};
use crate::sumcheck::vectors::lifted;
use crate::symmetric::merkle::sibling;
use crate::whir::config::WhirConfig;
use crate::whir::merkle::{
    commits_to, is_opening, law_opening_verifies, leaf_elements, merkle_commit, merkle_open_base,
    merkle_open_extension, padded, DftOutput, OpenedLeaf, RoundMerkleTree, DIGEST_ELEMS,
};
use vstd::arithmetic::power2::{lemma_pow2_adds, pow2};
use vstd::prelude::*;

verus! {

/// A tree over a committed matrix, with the kind of its entries.
#[derive(Debug)]
pub enum MerkleData {
    Base(RoundMerkleTree),
    Extension(RoundMerkleTree),
}

impl MerkleData {
    pub open spec fn tree(self) -> RoundMerkleTree {
        match self {
            MerkleData::Base(t) => t,
            MerkleData::Extension(t) => t,
        }
    }

    /// The tree can be opened at an index.
    pub open spec fn openable(self, index: int) -> bool {
        &&& self.tree().wf()
        &&& 0 <= index < self.tree().leaf.rows()
        &&& forall|k: nat|
            #[trigger] is_log2_ceil(
                self.tree().leaf.rows(),
                k,
            ) ==> self.tree().tree.has_siblings(index, k as int)
        &&& self is Extension ==> self.tree().full_leaf_base_width % 5 == 0
    }

    /// Commits to the rows of a matrix. Returns the tree and its root.
    pub fn build(matrix: DftOutput, full_n_cols: usize, effective_n_cols: usize) -> (r: (
        Self,
        [KoalaBear; DIGEST_ELEMS],
    ))
        requires
            matrix.wf(),
            matrix.n_rows() > 0,
            effective_n_cols <= matrix.n_cols() <= full_n_cols,
            20 * full_n_cols <= usize::MAX,
        ensures
            r.0 is Base <==> matrix is Base,
            commits_to(r.0.tree(), matrix, full_n_cols as int),
            r.1@ == r.0.tree().tree.root_spec(),
    {
        let is_base = match &matrix {
            DftOutput::Base(_) => true,
            DftOutput::Extension(_) => false,
        };
        let (root, prover_data) = merkle_commit(matrix, full_n_cols, effective_n_cols);
        if is_base {
            (MerkleData::Base(prover_data), root)
        } else {
            (MerkleData::Extension(prover_data), root)
        }
    }

    /// The leaf at an index and the siblings along its path.
    pub fn open(&self, index: usize) -> (r: (OpenedLeaf, Vec<[KoalaBear; DIGEST_ELEMS]>))
        requires
            self.openable(index as int),
        ensures
            r.0 is Base <==> *self is Base,
            is_opening(self.tree(), index as int, leaf_elements(r.0), r.1@),
    {
        match self {
            MerkleData::Base(prover_data) => {
                let (leaf, siblings) = merkle_open_base(prover_data, index);
                (OpenedLeaf::Base(leaf), siblings)
            },
            MerkleData::Extension(prover_data) => {
                let (leaf, siblings) = merkle_open_extension(prover_data, index);
                (OpenedLeaf::Extension(leaf), siblings)
            },
        }
    }
}

/// Every row of a committed matrix of `2^h` rows can be opened.
pub proof fn law_committed_rows_open(
    data: MerkleData,
    matrix: DftOutput,
    full_n_cols: int,
    h: nat,
    index: int,
)
    requires
        commits_to(data.tree(), matrix, full_n_cols),
        data is Base <==> matrix is Base,
        data.tree().leaf.rows() == pow2(h),
        0 <= index < pow2(h),
    ensures
        data.openable(index),
{
    let tree = data.tree();
    let leaf = padded(tree.leaf.row_spec(index), tree.full_leaf_base_width as int);
    let siblings = Seq::new(h, |i: int| tree.tree.digest_layers@[i]@[sibling(index, i)]);
    lemma_log2_of_pow2(h);
    law_opening_verifies(tree, matrix, full_n_cols, h, index, leaf, siblings);
    assert forall|k: nat| #[trigger] is_log2_ceil(tree.leaf.rows(), k) implies tree.tree.has_siblings(
        index,
        k as int,
    ) by {
        lemma_log2_ceil_unique(tree.leaf.rows(), h, k);
    }
    if data is Extension {
        assert(tree.full_leaf_base_width == full_n_cols * 5);
    }
}

/// The shape of a committed matrix: columns in full, columns that hold data, and columns that
/// are transformed.
#[derive(Clone, Copy, Debug)]
pub struct CommitShape {
    pub n_blocks: usize,
    pub effective_n_cols: usize,
    pub dft_n_cols: usize,
}

/// `a` divided by `b`, rounded up.
pub open spec fn ceil_div(a: int, b: int) -> int {
    (a + b - 1) / b
}

/// The numbers of columns for a polynomial in `n` variables whose first `folded` select a column,
/// and which is zero from `len` on: columns in full, columns that hold data, and columns that are
/// transformed, `width` at a time.
pub open spec fn commit_shape_of(n: int, folded: int, len: int, width: int) -> (int, int, int) {
    let n_blocks = pow2(folded as nat) as int;
    let effective = ceil_div(len, pow2((n - folded) as nat) as int);
    let aligned = ceil_div(effective, width) * width;
    (
        n_blocks,
        effective,
        if aligned <= n_blocks {
            aligned
        } else {
            n_blocks
        },
    )
}

impl CommitShape {
    pub open spec fn is_of(self, n: int, folded: int, len: int, width: int) -> bool {
        let s = commit_shape_of(n, folded, len, width);
        &&& self.n_blocks == s.0
        &&& self.effective_n_cols == s.1
        &&& self.dft_n_cols == s.2
    }
}

/// The shape of the matrix committed to. Columns are transformed `packing_width` at a time.
pub fn commit_shape(
    num_variables: usize,
    folding_factor_0: usize,
    actual_data_len: usize,
    packing_width: usize,
) -> (r: CommitShape)
    requires
        folding_factor_0 <= num_variables,
        pow2(num_variables as nat) <= usize::MAX,
        actual_data_len <= pow2(num_variables as nat),
        packing_width > 0,
        pow2(folding_factor_0 as nat) + packing_width <= usize::MAX,
    ensures
        r.is_of(
            num_variables as int,
            folding_factor_0 as int,
            actual_data_len as int,
            packing_width as int,
        ),
        r.effective_n_cols <= r.dft_n_cols <= r.n_blocks,
        actual_data_len > 0 ==> r.effective_n_cols > 0,
{
    let ghost first = folding_factor_0 as nat;
    let ghost n = num_variables as nat;
    proof {
        lemma_pow2_monotone(first, n);
        lemma_pow2_monotone((n - first) as nat, n);
        lemma_pow2_adds(first, (n - first) as nat);
        vstd::arithmetic::power2::lemma_pow2_pos((n - first) as nat);
    }
    let n_blocks: usize = pow2_usize(folding_factor_0);
    let block_len: usize = pow2_usize(num_variables - folding_factor_0);
    let effective_n_cols: usize = div_ceil(actual_data_len, block_len);
    proof {
        let (a, b, q) = (actual_data_len as int, block_len as int, n_blocks as int);
        vstd::arithmetic::div_mod::lemma_div_is_ordered(a + b - 1, q * b + b - 1, b);
        vstd::arithmetic::div_mod::lemma_fundamental_div_mod_converse(
            q * b + b - 1,
            b,
            q,
            b - 1,
        );
        if a > 0 {
            law_effective_blocks_cover(a, b, 0);
            vstd::arithmetic::div_mod::lemma_div_pos_is_pos(0, b);
        }
    }
    let groups: usize = div_ceil(effective_n_cols, packing_width);
    proof {
        let (a, w) = (effective_n_cols as int, packing_width as int);
        vstd::arithmetic::div_mod::lemma_fundamental_div_mod(a + w - 1, w);
        vstd::arithmetic::div_mod::lemma_mod_bound(a + w - 1, w);
        assert(a <= groups * w <= a + w - 1) by (nonlinear_arith)
            requires
                a + w - 1 == w * groups + (a + w - 1) % w,
                0 <= (a + w - 1) % w < w,
        ;
    }
    let aligned: usize = groups * packing_width;
    let dft_n_cols: usize = if aligned <= n_blocks {
        aligned
    } else {
        n_blocks
    };
    CommitShape { n_blocks, effective_n_cols, dft_n_cols }
}

/// What a prover keeps of a commitment.
#[derive(Debug)]
pub struct Witness<EF> {
    pub prover_data: MerkleData,
    pub ood_points: Vec<EF>,
    pub ood_answers: Vec<EF>,
}

/// The answers at univariate points: the values of the polynomial at the points that they stand
/// for.
pub open spec fn ood_answers_of<EF: Ring>(f: Seq<EF>, points: Seq<EF>, n: nat) -> Seq<EF> {
    Seq::new(points.len(), |i: int| mle_eval(f, univariate_point(points[i], n)))
}

/// The values of a polynomial in `n` variables at univariate points.
pub fn ood_answers<F: Ring, EF: Algebra<F>>(
    polynomial: &[F],
    points: &[EF],
    n: usize,
) -> (r: Vec<EF>)
    requires
        polynomial@.len() == pow2(n as nat),
    ensures
        r@ == ood_answers_of(lifted::<F, EF>(polynomial@), points@, n as nat),
{
    let mut answers: Vec<EF> = Vec::new();
    let mut i: usize = 0;
    let ghost f = lifted::<F, EF>(polynomial@);
    while i < points.len()
        invariant
            i <= points@.len(),
            polynomial@.len() == pow2(n as nat),
            f == lifted::<F, EF>(polynomial@),
            answers@.len() == i,
            forall|j: int|
                0 <= j < i ==> #[trigger] answers@[j] == mle_eval(
                    f,
                    univariate_point(points@[j], n as nat),
                ),
        decreases points@.len() - i,
    {
        let point = expand_from_univariate(points[i], n);
        answers.push(evaluate::<F, EF>(polynomial, point.as_slice()));
        i += 1;
    }
    assert(answers@ =~= ood_answers_of(f, points@, n as nat));
    answers
}

/// The values at univariate points of a polynomial over the points' own ring.
pub fn ood_answers_ext<R: Ring>(polynomial: &[R], points: &[R], n: usize) -> (r: Vec<R>)
    requires
        polynomial@.len() == pow2(n as nat),
    ensures
        r@ == ood_answers_of(polynomial@, points@, n as nat),
{
    let mut answers: Vec<R> = Vec::new();
    let mut i: usize = 0;
    while i < points.len()
        invariant
            i <= points@.len(),
            polynomial@.len() == pow2(n as nat),
            answers@.len() == i,
            forall|j: int|
                0 <= j < i ==> #[trigger] answers@[j] == mle_eval(
                    polynomial@,
                    univariate_point(points@[j], n as nat),
                ),
        decreases points@.len() - i,
    {
        let point = expand_from_univariate(points[i], n);
        answers.push(evaluate_ext(polynomial, point.as_slice()));
        i += 1;
    }
    assert(answers@ =~= ood_answers_of(polynomial@, points@, n as nat));
    answers
}

impl WhirConfig {
    /// The shape of the matrix committed to, for a polynomial that is zero from
    /// `actual_data_len` on.
    pub fn commit_shape(&self, actual_data_len: usize, packing_width: usize) -> (r: CommitShape)
        requires
            self.folding_factor.first <= self.num_variables,
            pow2(self.num_variables as nat) <= usize::MAX,
            actual_data_len <= pow2(self.num_variables as nat),
            packing_width > 0,
            pow2(self.folding_factor.first as nat) + packing_width <= usize::MAX,
        ensures
            r.is_of(
                self.num_variables as int,
                self.folding_factor.first as int,
                actual_data_len as int,
                packing_width as int,
            ),
            r.effective_n_cols <= r.dft_n_cols <= r.n_blocks,
    {
        commit_shape(
            self.num_variables,
            self.folding_factor.at_round(0),
            actual_data_len,
            packing_width,
        )
    }

    /// Commits to the rows of a transformed matrix of this shape. Returns the tree and its root.
    pub fn commit_matrix(&self, folded_matrix: DftOutput, shape: &CommitShape) -> (r: (
        MerkleData,
        [KoalaBear; DIGEST_ELEMS],
    ))
        requires
            folded_matrix.wf(),
            folded_matrix.n_rows() > 0,
            folded_matrix.n_cols() == shape.dft_n_cols,
            shape.effective_n_cols <= shape.dft_n_cols <= shape.n_blocks,
            20 * shape.n_blocks <= usize::MAX,
        ensures
            r.0 is Base <==> folded_matrix is Base,
            commits_to(r.0.tree(), folded_matrix, shape.n_blocks as int),
            r.1@ == r.0.tree().tree.root_spec(),
    {
        MerkleData::build(folded_matrix, shape.n_blocks, shape.effective_n_cols)
    }

    /// Completes a commitment: answers the out-of-domain points, which are drawn once the root of
    /// `prover_data` is known.
    pub fn answer_ood<F: Ring, EF: Algebra<F>>(
        &self,
        prover_data: MerkleData,
        polynomial: &[F],
        ood_points: Vec<EF>,
    ) -> (r: Witness<EF>)
        requires
            polynomial@.len() == pow2(self.num_variables as nat),
            ood_points@.len() == self.commitment_ood_samples,
        ensures
            r.prover_data == prover_data,
            r.ood_points@ == ood_points@,
            r.ood_answers@ == ood_answers_of(
                lifted::<F, EF>(polynomial@),
                ood_points@,
                self.num_variables as nat,
            ),
    {
        let ood_answers = ood_answers::<F, EF>(
            polynomial,
            ood_points.as_slice(),
            self.num_variables,
        );
        Witness { prover_data, ood_points, ood_answers }
    }

    /// Commits to a polynomial that is zero from `actual_data_len` on, whose transformed matrix is
    /// given, and answers the out-of-domain points. Returns the root and what the prover keeps.
    pub fn commit<F: Ring, EF: Algebra<F>>(
        &self,
        folded_matrix: DftOutput,
        polynomial: &[F],
        actual_data_len: usize,
        packing_width: usize,
        ood_points: Vec<EF>,
    ) -> (r: ([KoalaBear; DIGEST_ELEMS], Witness<EF>))
        requires
            self.folding_factor.first <= self.num_variables,
            polynomial@.len() == pow2(self.num_variables as nat),
            actual_data_len <= polynomial@.len(),
            packing_width > 0,
            pow2(self.folding_factor.first as nat) + packing_width <= usize::MAX,
            20 * pow2(self.folding_factor.first as nat) <= usize::MAX,
            folded_matrix.wf(),
            folded_matrix.n_rows() > 0,
            folded_matrix.n_cols() == commit_shape_of(
                self.num_variables as int,
                self.folding_factor.first as int,
                actual_data_len as int,
                packing_width as int,
            ).2,
            ood_points@.len() == self.commitment_ood_samples,
        ensures
            ({
                let data = r.1.prover_data;
                &&& data is Base <==> folded_matrix is Base
                &&& commits_to(
                    data.tree(),
                    folded_matrix,
                    pow2(self.folding_factor.first as nat) as int,
                )
                &&& r.0@ == data.tree().tree.root_spec()
            }),
            r.1.ood_points@ == ood_points@,
            r.1.ood_answers@ == ood_answers_of(
                lifted::<F, EF>(polynomial@),
                ood_points@,
                self.num_variables as nat,
            ),
    {
        assert(polynomial.len() == polynomial@.len());
        let shape = self.commit_shape(actual_data_len, packing_width);
        let (prover_data, root) = self.commit_matrix(folded_matrix, &shape);
        (root, self.answer_ood::<F, EF>(prover_data, polynomial, ood_points))
    }
}

/// `a` divided by `b`, rounded up.
fn div_ceil(a: usize, b: usize) -> (r: usize)
    requires
        b > 0,
    ensures
        r == ceil_div(a as int, b as int),
{
    let q: usize = a / b;
    let rest: usize = a % b;
    proof {
        vstd::arithmetic::div_mod::lemma_fundamental_div_mod(a as int, b as int);
        let (ai, bi) = (a as int, b as int);
        assert(bi * q == q * bi) by (nonlinear_arith);
        if rest == 0 {
            vstd::arithmetic::div_mod::lemma_fundamental_div_mod_converse(
                ai + bi - 1,
                bi,
                q as int,
                bi - 1,
            );
        } else {
            assert(bi * (q + 1) == bi * q + bi) by (nonlinear_arith);
            vstd::arithmetic::div_mod::lemma_fundamental_div_mod_converse(
                ai + bi - 1,
                bi,
                q + 1,
                rest - 1,
            );
            assert(bi * q + rest == ai);
            assert(q < ai || bi == 1) by (nonlinear_arith)
                requires
                    bi * q + rest == ai,
                    bi >= 1,
                    rest >= 1,
                    q >= 0,
            ;
        }
    }
    if rest == 0 {
        q
    } else {
        q + 1
    }
}

/// The data of a polynomial that is zero from `len` on lies in its first blocks, as many as the
/// shape counts: a position of the data lies in a block before the last of these.
pub proof fn law_effective_blocks_cover(len: int, block_len: int, position: int)
    requires
        block_len > 0,
        0 <= position < len,
    ensures
        position / block_len < ceil_div(len, block_len),
{
    vstd::arithmetic::div_mod::lemma_div_is_ordered(
        position + block_len,
        len + block_len - 1,
        block_len,
    );
    vstd::arithmetic::div_mod::lemma_div_plus_one(position, block_len);
}

} // verus!
