//! What is committed to, answered out of the domain, and read at a query.

use crate::field::{Algebra, KoalaBear, Ring};
use crate::poly::mle_eval;
use crate::poly_laws::law_univariate_point;
use crate::sumcheck::vectors::{dot, lifted};
use crate::whir::commit::{
    ceil_div, commit_shape_of, ood_answers_of, CommitShape, MerkleData,
};
use crate::whir::open::{leaf_width, queried_values};
use crate::whir::queries::{
    committed_values, law_paired_value_is_stacked, stir_values, zero_extended, Answer,
};
use crate::math::{is_pow2, log2_exact};
use vstd::arithmetic::power2::pow2;
use vstd::prelude::*;

verus! {

/// The columns of a committed matrix: one for each block, as many of them used as it takes to hold
/// the data, and that number rounded up to a multiple of the width, but no more than there are.
pub proof fn law_commit_shape(n: int, folded: int, len: int, width: int, block: int)
    requires
        0 <= folded <= n,
        len >= 0,
        width > 0,
        block == pow2((n - folded) as nat),
    ensures
        ({
            let (n_blocks, effective, used) = commit_shape_of(n, folded, len, width);
            &&& n_blocks == pow2(folded as nat)
            &&& effective * block >= len
            &&& effective > 0 ==> (effective - 1) * block < len
            &&& len == 0 ==> effective == 0
            &&& used == n_blocks || used % width == 0 && effective <= used < effective + width
            &&& used <= n_blocks
            &&& used == n_blocks ==> n_blocks < effective + width
        }),
{
    vstd::arithmetic::power2::lemma_pow2_pos((n - folded) as nat);
    let e = ceil_div(len, block);
    lemma_ceil_div(len, block);
    lemma_ceil_div(e, width);
    let q = ceil_div(e, width);
    vstd::arithmetic::div_mod::lemma_mod_multiples_basic(q, width);
    assert((q - 1) * width == q * width - width) by (nonlinear_arith);
    if e == 0 {
        assert(q * width < width) by (nonlinear_arith)
            requires
                q == 0,
                width > 0,
        ;
    }
}

proof fn lemma_ceil_div(a: int, b: int)
    requires
        a >= 0,
        b > 0,
    ensures
        0 <= ceil_div(a, b),
        ceil_div(a, b) * b >= a,
        ceil_div(a, b) > 0 ==> (ceil_div(a, b) - 1) * b < a,
        a == 0 ==> ceil_div(a, b) == 0,
{
    let n = a + b - 1;
    let q = n / b;
    vstd::arithmetic::div_mod::lemma_fundamental_div_mod(n, b);
    vstd::arithmetic::div_mod::lemma_div_pos_is_pos(n, b);
    let r = n % b;
    assert(q * b >= a && (q - 1) * b < a) by (nonlinear_arith)
        requires
            a + b - 1 == b * q + r,
            0 <= r < b,
    ;
    if a == 0 {
        vstd::arithmetic::div_mod::lemma_basic_div(n, b);
    }
}

/// An out-of-domain answer is the polynomial's value at the sample's point, which ends with the
/// sample and has in each coordinate the square of the next.
pub proof fn law_ood_answers<EF: Ring>(
    f: Seq<EF>,
    samples: Seq<EF>,
    n: nat,
    point: Seq<EF>,
    i: int,
)
    requires
        n > 0,
        0 <= i < samples.len(),
        samples[i].canonical(),
        point.len() == n,
        point[n - 1] == samples[i],
        forall|j: int| 0 <= j < n - 1 ==> #[trigger] point[j] == point[j + 1].times(point[j + 1]),
    ensures
        ood_answers_of(f, samples, n).len() == samples.len(),
        ood_answers_of(f, samples, n)[i] == mle_eval(f, point),
{
    law_univariate_point(samples[i], n, point);
}

/// What stands at a row of a commitment to base elements: the row's elements, then zeros.
pub proof fn law_committed_base<EF: Algebra<KoalaBear>>(
    data: MerkleData,
    index: int,
    basis: Seq<EF>,
    k: int,
)
    requires
        data is Base,
        data.tree().leaf.wf(),
        0 <= index < data.tree().leaf.rows(),
        data.tree().leaf.width <= data.tree().full_leaf_base_width,
        0 <= k < data.tree().full_leaf_base_width,
    ensures
        committed_values(data, index, basis).len() == data.tree().full_leaf_base_width,
        committed_values(data, index, basis)[k] == EF::lift(
            if k < data.tree().leaf.width {
                data.tree().leaf.values@[index * data.tree().leaf.width + k]
            } else {
                KoalaBear::ring_zero()
            },
        ),
{
    data.tree().leaf.lemma_row_bounds(index);
}

/// What stands at a row of a commitment to extension elements: each is the combination of a basis
/// with five of the row's elements, and zeros stand behind the row.
pub proof fn law_committed_extension<EF: Algebra<KoalaBear>>(
    data: MerkleData,
    index: int,
    basis: Seq<EF>,
    k: int,
    coordinates: Seq<KoalaBear>,
)
    requires
        data is Extension,
        data.tree().leaf.wf(),
        0 <= index < data.tree().leaf.rows(),
        data.tree().leaf.width <= data.tree().full_leaf_base_width,
        0 <= k,
        5 * k + 5 <= data.tree().full_leaf_base_width,
        coordinates.len() == 5,
        forall|j: int|
            0 <= j < 5 ==> #[trigger] coordinates[j] == (if 5 * k + j < data.tree().leaf.width {
                data.tree().leaf.values@[index * data.tree().leaf.width + 5 * k + j]
            } else {
                KoalaBear::ring_zero()
            }),
    ensures
        committed_values(data, index, basis).len() == data.tree().full_leaf_base_width as int / 5,
        committed_values(data, index, basis)[k] == dot(
            lifted::<KoalaBear, EF>(coordinates),
            basis,
        ),
{
    data.tree().leaf.lemma_row_bounds(index);
    let row = crate::whir::merkle::padded(
        data.tree().leaf.row_spec(index),
        data.tree().full_leaf_base_width as int,
    );
    assert forall|j: int| 0 <= j < 5 implies row.subrange(5 * k, 5 * k + 5)[j] == coordinates[j] by {
        assert(row.subrange(5 * k, 5 * k + 5)[j] == row[5 * k + j]);
    }
    assert(row.subrange(5 * k, 5 * k + 5) =~= coordinates);
}

/// The value of a query to one commitment is that of the committed row at the folding point.
pub proof fn law_queried_value<EF: Algebra<KoalaBear>>(
    data: MerkleData,
    indexes: Seq<usize>,
    basis: Seq<EF>,
    r: Seq<EF>,
    i: int,
)
    requires
        0 <= i < indexes.len(),
    ensures
        queried_values(data, None, indexes, basis, r).len() == indexes.len(),
        queried_values(data, None, indexes, basis, r)[i] == mle_eval(
            committed_values(data, indexes[i] as int, basis),
            r,
        ),
{
}

/// The value of a query to two commitments is that of one vector: the second row, with zeros behind
/// it up to the length of the first, and then the first.
pub proof fn law_queried_pair<EF: Algebra<KoalaBear>>(
    a: MerkleData,
    b: MerkleData,
    indexes: Seq<usize>,
    basis: Seq<EF>,
    r: Seq<EF>,
    i: int,
    vector: Seq<EF>,
)
    requires
        0 <= i < indexes.len(),
        is_pow2(leaf_width(b)),
        log2_exact(leaf_width(b)) < r.len(),
        committed_values(a, indexes[i] as int, basis).len() == pow2((r.len() - 1) as nat),
        committed_values(b, indexes[i] as int, basis).len() == leaf_width(b),
        ({
            let rows_a = committed_values(a, indexes[i] as int, basis);
            let rows_b = committed_values(b, indexes[i] as int, basis);
            let n = rows_a.len();
            &&& vector.len() == 2 * n
            &&& forall|j: int|
                0 <= j < n ==> #[trigger] vector[j] == (if j < rows_b.len() {
                    rows_b[j]
                } else {
                    EF::ring_zero()
                })
            &&& forall|j: int| n <= j < 2 * n ==> #[trigger] vector[j] == rows_a[j - n]
        }),
    ensures
        queried_values(a, Some(b), indexes, basis, r)[i] == mle_eval(vector, r),
{
    let rows_a = committed_values(a, indexes[i] as int, basis);
    let rows_b = committed_values(b, indexes[i] as int, basis);
    let k = choose|k: nat| #[trigger] pow2(k) == leaf_width(b);
    assert(pow2(log2_exact(leaf_width(b))) == leaf_width(b));
    law_paired_value_is_stacked(rows_a, rows_b, log2_exact(leaf_width(b)), r);
    assert(vector =~= zero_extended(rows_b, rows_a.len()) + rows_a);
}

/// The values that answers give at a point, for one list of answers: each is that of the answer's
/// elements.
pub proof fn law_stir_value<EF: Algebra<KoalaBear>>(
    answers: Seq<Answer<EF>>,
    r: Seq<EF>,
    i: int,
    vector: Seq<EF>,
)
    requires
        0 <= i < answers.len(),
        match answers[i] {
            Answer::Base(v) => vector.len() == v@.len() && forall|j: int|
                0 <= j < v@.len() ==> #[trigger] vector[j] == EF::lift(v@[j]),
            Answer::Extension(v) => vector == v@,
        },
    ensures
        stir_values(answers, None, r).len() == answers.len(),
        stir_values(answers, None, r)[i] == mle_eval(vector, r),
{
    assert(vector =~= answers[i].values());
}

/// The shape of a commitment lists the three numbers of columns.
pub proof fn law_shape_fields(
    shape: CommitShape,
    n: int,
    folded: int,
    len: int,
    width: int,
)
    requires
        shape.is_of(n, folded, len, width),
    ensures
        shape.n_blocks == commit_shape_of(n, folded, len, width).0,
        shape.effective_n_cols == commit_shape_of(n, folded, len, width).1,
        shape.dft_n_cols == commit_shape_of(n, folded, len, width).2,
{
}

/// For two lists of answers, each value is that of one vector: the second answer's elements, zeros up
/// to the length of the first, and the first answer's elements.
pub proof fn law_stir_pair<EF: Algebra<KoalaBear>>(
    answers: Seq<Answer<EF>>,
    others: Vec<Answer<EF>>,
    vars: usize,
    r: Seq<EF>,
    i: int,
    vector: Seq<EF>,
)
    requires
        0 <= i < answers.len(),
        i < others@.len(),
        vars < r.len(),
        answers[i].values().len() == pow2((r.len() - 1) as nat),
        others@[i].values().len() == pow2(vars as nat),
        vector.len() == 2 * answers[i].values().len(),
        forall|j: int|
            0 <= j < answers[i].values().len() ==> #[trigger] vector[j] == (if j
                < others@[i].values().len() {
                others@[i].values()[j]
            } else {
                EF::ring_zero()
            }),
        forall|j: int|
            answers[i].values().len() <= j < vector.len() ==> #[trigger] vector[j]
                == answers[i].values()[j - answers[i].values().len()],
    ensures
        stir_values(answers, Some((others, vars)), r).len() == answers.len(),
        stir_values(answers, Some((others, vars)), r)[i] == mle_eval(vector, r),
{
    let a = answers[i].values();
    let b = others@[i].values();
    law_paired_value_is_stacked(a, b, vars as nat, r);
    assert(vector =~= zero_extended(b, a.len()) + a);
}

} // verus!
