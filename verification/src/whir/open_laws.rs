//! The coefficients that the claims of a round enter the sum and the weights with.

use crate::field::{Algebra, KoalaBear, Ring};
use crate::poly::{eq_table, lemma_eq_table_len, lemma_power_canonical, power, powers_of};
use crate::poly_laws::{law_dot_in_one, law_dot_of_zeros, law_powers, law_univariate_point};
use crate::sumcheck::vectors::{all_canonical, dot, lemma_total_append, lifted, total};
use crate::whir::constraints::{lifted_points, point_views, with_equalities};
use crate::math::log2_exact;
use crate::symmetric::merkle::{digests, path_root};
use crate::whir::commit::MerkleData;
use crate::whir::config::WhirConfig;
use crate::whir::merkle::{
    commits_to, flattened, law_opening_verifies, leaf_digest, Blake3Join, DftOutput, OpenedLeaf,
    DIGEST_ELEMS,
};
use crate::whir::merkle_laws::law_flattened;
use crate::whir::open::{
    folds_counted, is_round_shape, leaf_width, lifted_all, ood_terms, powers_from, round_fits,
    round_sum, round_weights, RoundShape,
};
use crate::whir::queries::{domain_points, univariate_points, Openings};
use vstd::arithmetic::power2::pow2;
use vstd::prelude::*;

verus! {

/// The powers of an element from a given one on.
pub proof fn law_powers_from<R: Ring>(gen: R, skip: nat, n: nat, c: Seq<R>, i: int)
    requires
        c.len() >= skip + n,
        0 <= i < n,
        c[0] == R::ring_one(),
        forall|k: int| 0 < k < c.len() ==> #[trigger] c[k] == c[k - 1].times(gen),
    ensures
        powers_from(gen, skip, n).len() == n,
        powers_from(gen, skip, n)[i] == c[skip + i],
{
    law_powers(gen, c, skip + i);
}

/// In the claimed sum of a round the answer to the `i`th query is taken `gen^(k + i)` times, with
/// `k` out-of-domain answers before it: an answer that differs by `delta` makes the sum differ by
/// that power times `delta`.
pub proof fn law_round_sum_of_query<EF: Ring>(
    sum: EF,
    ood_answers: Seq<EF>,
    stir_evaluations: Seq<EF>,
    gen: EF,
    c: Seq<EF>,
    i: int,
    delta: EF,
)
    requires
        c.len() >= ood_answers.len() + stir_evaluations.len(),
        c[0] == EF::ring_one(),
        forall|k: int| 0 < k < c.len() ==> #[trigger] c[k] == c[k - 1].times(gen),
        0 <= i < stir_evaluations.len(),
    ensures
        round_sum(
            sum,
            ood_answers,
            stir_evaluations.update(i, stir_evaluations[i].plus(delta)),
            gen,
        ) == round_sum(sum, ood_answers, stir_evaluations, gen).plus(
            c[ood_answers.len() + i].times(delta),
        ),
{
    let k = ood_answers.len();
    let y = powers_from(gen, k, stir_evaluations.len());
    law_powers_from(gen, k, stir_evaluations.len(), c, i);
    law_dot_in_one(stir_evaluations, y, i, delta);
    EF::law_plus_associates(
        sum.plus(dot(ood_answers, powers_of(gen, k))),
        dot(stir_evaluations, y),
        y[i].times(delta),
    );
}

/// In the claimed sum of a round the `i`th out-of-domain answer is taken `gen^i` times.
pub proof fn law_round_sum_of_ood<EF: Ring>(
    sum: EF,
    ood_answers: Seq<EF>,
    stir_evaluations: Seq<EF>,
    gen: EF,
    c: Seq<EF>,
    i: int,
    delta: EF,
)
    requires
        c.len() >= ood_answers.len(),
        c[0] == EF::ring_one(),
        forall|k: int| 0 < k < c.len() ==> #[trigger] c[k] == c[k - 1].times(gen),
        0 <= i < ood_answers.len(),
    ensures
        round_sum(
            sum,
            ood_answers.update(i, ood_answers[i].plus(delta)),
            stir_evaluations,
            gen,
        ) == round_sum(sum, ood_answers, stir_evaluations, gen).plus(c[i].times(delta)),
{
    let y = powers_of(gen, ood_answers.len());
    law_powers(gen, c, i);
    law_dot_in_one(ood_answers, y, i, delta);
    let d = dot(ood_answers, y);
    let e = dot(
        stir_evaluations,
        powers_from(gen, ood_answers.len(), stir_evaluations.len()),
    );
    let t = y[i].times(delta);
    EF::law_plus_associates(sum, d, t);
    EF::law_plus_associates(sum.plus(d), t, e);
    EF::law_plus_commutes(t, e);
    EF::law_plus_associates(sum.plus(d), e, t);
}

/// A round whose answers are all zero, or that has none, leaves the sum as it was.
pub proof fn law_round_sum_of_zeros<EF: Ring>(
    sum: EF,
    ood_answers: Seq<EF>,
    stir_evaluations: Seq<EF>,
    gen: EF,
)
    requires
        sum.canonical(),
        forall|i: int|
            0 <= i < ood_answers.len() ==> #[trigger] ood_answers[i] == EF::ring_zero(),
        forall|i: int|
            0 <= i < stir_evaluations.len() ==> #[trigger] stir_evaluations[i] == EF::ring_zero(),
    ensures
        round_sum(sum, ood_answers, stir_evaluations, gen) == sum,
{
    let k = ood_answers.len();
    law_dot_of_zeros(ood_answers, powers_of(gen, k));
    law_dot_of_zeros(stir_evaluations, powers_from(gen, k, stir_evaluations.len()));
    EF::law_plus_zero(sum);
}

/// The weights with equalities added, at one vertex.
proof fn lemma_with_equalities_at<R: Ring>(
    weights: Seq<R>,
    points: Seq<Seq<R>>,
    scalars: Seq<R>,
    m: nat,
    terms: Seq<R>,
    x: int,
)
    requires
        m <= points.len(),
        m <= scalars.len(),
        m <= terms.len(),
        0 <= x < weights.len(),
        weights[x].canonical(),
        forall|i: int|
            0 <= i < points.len() ==> pow2((#[trigger] points[i]).len()) == weights.len(),
        forall|i: int|
            0 <= i < m ==> #[trigger] terms[i] == scalars[i].times(eq_table(points[i])[x]),
    ensures
        with_equalities(weights, points, scalars, m).len() == weights.len(),
        with_equalities(weights, points, scalars, m)[x] == weights[x].plus(
            total(terms.take(m as int)),
        ),
    decreases m,
{
    if m == 0 {
        assert(terms.take(0).len() == 0);
        R::law_plus_zero(weights[x]);
    } else {
        let p = (m - 1) as nat;
        lemma_with_equalities_at(weights, points, scalars, p, terms, x);
        lemma_eq_table_len(points[p as int]);
        assert(terms.take(m as int).drop_last() =~= terms.take(p as int));
        assert(terms[p as int] == scalars[p as int].times(eq_table(points[p as int])[x]));
        R::law_plus_associates(weights[x], total(terms.take(p as int)), terms[p as int]);
    }
}

/// The weights of a round, at each vertex: those before it plus, for claim `j`, `gen^j` times the
/// equality polynomial of the claim's point, the out-of-domain claims first and then the queries.
/// The point of an out-of-domain claim ends with the sample, that of a query with the queried
/// element of the domain, and each coordinate is the square of the next.
pub proof fn law_round_weights<EF: Algebra<KoalaBear>>(
    weights: Seq<EF>,
    ood_points: Seq<EF>,
    domain_gen: KoalaBear,
    indexes: Seq<usize>,
    gen: EF,
    n: nat,
    c: Seq<EF>,
    domain: Seq<KoalaBear>,
    base: Seq<Seq<KoalaBear>>,
    points: Seq<Seq<EF>>,
    terms: Seq<EF>,
    x: int,
)
    requires
        n > 0,
        weights.len() == pow2(n),
        all_canonical(weights),
        all_canonical(ood_points),
        c.len() >= points.len(),
        c.len() > 0,
        c[0] == EF::ring_one(),
        forall|k: int| 0 < k < c.len() ==> #[trigger] c[k] == c[k - 1].times(gen),
        domain.len() > 0,
        domain[0] == KoalaBear::ring_one(),
        forall|k: int| 0 < k < domain.len() ==> #[trigger] domain[k] == domain[k - 1].times(domain_gen),
        base.len() == indexes.len(),
        forall|i: int|
            0 <= i < indexes.len() ==> {
                &&& (#[trigger] base[i]).len() == n
                &&& indexes[i] < domain.len()
                &&& base[i][n - 1] == domain[indexes[i] as int]
                &&& forall|j: int|
                    0 <= j < n - 1 ==> #[trigger] base[i][j] == base[i][j + 1].times(base[i][j + 1])
            },
        points.len() == ood_points.len() + indexes.len(),
        forall|i: int|
            0 <= i < ood_points.len() ==> {
                &&& (#[trigger] points[i]).len() == n
                &&& points[i][n - 1] == ood_points[i]
                &&& forall|j: int|
                    0 <= j < n - 1 ==> #[trigger] points[i][j] == points[i][j + 1].times(
                        points[i][j + 1],
                    )
            },
        forall|i: int|
            ood_points.len() <= i < points.len() ==> {
                &&& (#[trigger] points[i]).len() == n
                &&& forall|j: int|
                    0 <= j < n ==> #[trigger] points[i][j] == EF::lift(
                        base[i - ood_points.len()][j],
                    )
            },
        terms.len() == points.len(),
        0 <= x < weights.len(),
        forall|i: int|
            0 <= i < points.len() ==> #[trigger] terms[i] == c[i].times(eq_table(points[i])[x]),
    ensures
        round_weights(weights, ood_points, domain_gen, indexes, gen, n).len() == weights.len(),
        round_weights(weights, ood_points, domain_gen, indexes, gen, n)[x] == weights[x].plus(
            total(terms),
        ),
{
    let k = ood_points.len();
    let m = indexes.len();
    let ood = univariate_points(ood_points, n);
    let queried = lifted_all::<KoalaBear, EF>(domain_points(domain_gen, indexes, n));
    let first = powers_of(gen, k);
    let then = powers_from(gen, k, m);
    let t0 = terms.take(k as int);
    let t1 = terms.skip(k as int);
    assert forall|i: int| 0 <= i < k implies #[trigger] ood[i] == points[i] && first[i] == c[i] by {
        assert(ood_points[i].canonical());
        law_univariate_point(ood_points[i], n, points[i]);
        law_powers(gen, c, i);
    }
    assert forall|i: int| 0 <= i < m implies #[trigger] queried[i] == points[k + i] && then[i]
        == c[k + i] by {
        let e = indexes[i] as nat;
        assert(base[i].len() == n);
        law_powers(domain_gen, domain, e as int);
        lemma_power_canonical(domain_gen, e);
        law_univariate_point(power(domain_gen, e), n, base[i]);
        assert(points[k + i].len() == n);
        assert(queried[i] =~= lifted::<KoalaBear, EF>(base[i]));
        assert(points[k + i] =~= lifted::<KoalaBear, EF>(base[i])) by {
            assert forall|j: int| 0 <= j < n implies points[k + i][j] == EF::lift(base[i][j]) by {
                assert(base[k + i - k] == base[i]);
            }
        }
        law_powers_from(gen, k, m, c, i);
    }
    assert forall|i: int| 0 <= i < k implies #[trigger] t0[i] == first[i].times(
        eq_table(ood[i])[x],
    ) by {
        assert(ood[i] == points[i]);
        assert(t0[i] == terms[i]);
    }
    assert forall|i: int| 0 <= i < m implies #[trigger] t1[i] == then[i].times(
        eq_table(queried[i])[x],
    ) by {
        assert(queried[i] == points[k + i]);
        assert(t1[i] == terms[k + i]);
    }
    assert forall|i: int| 0 <= i < ood.len() implies pow2((#[trigger] ood[i]).len())
        == weights.len() by {
        assert(ood[i] == points[i]);
    }
    lemma_with_equalities_at(weights, ood, first, k, t0, x);
    let middle = with_equalities(weights, ood, first, k);
    assert(middle[x].canonical()) by {
        EF::law_closed(weights[x], total(t0.take(k as int)), 0);
    }
    assert forall|i: int| 0 <= i < queried.len() implies pow2((#[trigger] queried[i]).len())
        == middle.len() by {
        assert(queried[i] == points[k + i]);
    }
    lemma_with_equalities_at(middle, queried, then, m, t1, x);
    assert(t0.take(k as int) =~= t0);
    assert(t1.take(m as int) =~= t1);
    assert(terms =~= t0 + t1);
    lemma_total_append(t0, t1);
    EF::law_plus_associates(weights[x], total(t0), total(t1));
}

/// An out-of-domain claim is one on the whole polynomial: its weights are the equality polynomial of
/// the sample's point, and its value is the answer.
pub proof fn law_ood_terms<EF: Ring>(
    samples: Seq<EF>,
    answers: Seq<EF>,
    n: nat,
    point: Seq<EF>,
    i: int,
)
    requires
        n > 0,
        0 <= i < samples.len(),
        samples[i].canonical(),
        point.len() == n,
        point[n - 1] == samples[i],
        forall|j: int| 0 <= j < n - 1 ==> #[trigger] point[j] == point[j + 1].times(point[j + 1]),
    ensures
        ood_terms(samples, answers, n).len() == samples.len(),
        ood_terms(samples, answers, n)[i].selector == 0,
        ood_terms(samples, answers, n)[i].table == eq_table(point),
        ood_terms(samples, answers, n)[i].value == answers[i],
{
    law_univariate_point(samples[i], n, point);
}

/// The sizes of a round over a domain of `2^log` elements: the polynomial has lost the variables
/// folded so far, the first time `first` of them and then `rest` each time, the domain shrinks by the
/// round's reduction, and the leaves queried are as many as the domain has elements over those of
/// one fold.
pub proof fn law_round_shape(
    config: WhirConfig,
    round: int,
    domain_size: int,
    log: nat,
    shape: RoundShape,
)
    requires
        0 <= round < config.round_parameters@.len(),
        domain_size == pow2(log),
        round_fits(config, round, domain_size),
        is_round_shape(config, round, domain_size, shape),
    ensures
        shape.num_variables == config.num_variables - config.folding_factor.first
            - config.folding_factor.rest * round,
        shape.folding_factor_next == config.folding_factor.rest,
        shape.new_domain_size * pow2(config.round_parameters@[round].rs_reduction as nat)
            == domain_size,
        shape.query_domain_size * pow2(
            (if round == 0 {
                config.folding_factor.first
            } else {
                config.folding_factor.rest
            }) as nat,
        ) == domain_size,
        pow2((shape.log_inv_rate + shape.num_variables) as nat) == shape.new_domain_size,
        pow2((shape.generator_log + shape.folding_factor_next) as nat) == shape.new_domain_size,
{
    let l = log2_exact(domain_size);
    assert(pow2(l) == domain_size) by {
        assert(pow2(log) == domain_size);
    }
    let reduction = config.round_parameters@[round].rs_reduction as nat;
    let fold = config.folding_factor.at(round) as nat;
    vstd::arithmetic::power2::lemma_pow2_adds((l - reduction) as nat, reduction);
    vstd::arithmetic::power2::lemma_pow2_adds((l - fold) as nat, fold);
}

/// What is opened at queries verifies: answer `i` is the row of the committed matrix at the queried
/// index, with zeros behind it, and its path leads to the root.
pub proof fn law_openings_verify(
    data: MerkleData,
    matrix: DftOutput,
    full_n_cols: int,
    h: nat,
    indexes: Seq<usize>,
    openings: Openings,
    i: int,
    k: int,
)
    requires
        commits_to(data.tree(), matrix, full_n_cols),
        data.tree().leaf.rows() == pow2(h),
        data.tree().leaf.width <= data.tree().full_leaf_base_width,
        openings.of_tree(data, indexes, indexes.len() as int),
        data is Base,
        0 <= i < indexes.len(),
        indexes[i] < pow2(h),
        0 <= k < data.tree().leaf.width,
    ensures
        openings.answers@.len() == indexes.len(),
        ({
            let path = openings.base_paths@[i];
            &&& path.leaf_index == indexes[i]
            &&& openings.answers@[i] matches OpenedLeaf::Base(leaf) && leaf@ == path.leaf_data@
            &&& path.leaf_data@[k] == data.tree().leaf.values@[indexes[i] * data.tree().leaf.width
                + k]
            &&& path_root::<KoalaBear, Blake3Join, DIGEST_ELEMS>(
                Blake3Join,
                leaf_digest(path.leaf_data@),
                indexes[i] as int,
                digests(path.sibling_hashes@),
            ) == data.tree().tree.root_spec()
        }),
{
    let path = openings.base_paths@[i];
    data.tree().leaf.lemma_row_bounds(indexes[i] as int);
    law_opening_verifies(
        data.tree(),
        matrix,
        full_n_cols,
        h,
        indexes[i] as int,
        path.leaf_data@,
        path.sibling_hashes@,
    );
    assert(path.leaf_data@[k] == data.tree().leaf.row_spec(indexes[i] as int)[k]);
}

/// The same of a commitment to extension elements, whose rows are opened five coordinates to an
/// element.
pub proof fn law_extension_openings_verify(
    data: MerkleData,
    matrix: DftOutput,
    full_n_cols: int,
    h: nat,
    indexes: Seq<usize>,
    openings: Openings,
    i: int,
    k: int,
    c: int,
)
    requires
        commits_to(data.tree(), matrix, full_n_cols),
        data.tree().leaf.rows() == pow2(h),
        data.tree().leaf.width <= data.tree().full_leaf_base_width,
        openings.of_tree(data, indexes, indexes.len() as int),
        data is Extension,
        0 <= i < indexes.len(),
        indexes[i] < pow2(h),
        0 <= k < openings.ext_paths@[i].leaf_data@.len(),
        0 <= c < 5,
        5 * k + c < data.tree().leaf.width,
    ensures
        openings.answers@.len() == indexes.len(),
        ({
            let path = openings.ext_paths@[i];
            &&& path.leaf_index == indexes[i]
            &&& openings.answers@[i] matches OpenedLeaf::Extension(leaf) && leaf@
                == path.leaf_data@
            &&& path.leaf_data@[k]@[c] == data.tree().leaf.values@[indexes[i]
                * data.tree().leaf.width + 5 * k + c]
            &&& path_root::<KoalaBear, Blake3Join, DIGEST_ELEMS>(
                Blake3Join,
                leaf_digest(flattened(path.leaf_data@)),
                indexes[i] as int,
                digests(path.sibling_hashes@),
            ) == data.tree().tree.root_spec()
        }),
{
    let path = openings.ext_paths@[i];
    data.tree().leaf.lemma_row_bounds(indexes[i] as int);
    law_opening_verifies(
        data.tree(),
        matrix,
        full_n_cols,
        h,
        indexes[i] as int,
        flattened(path.leaf_data@),
        path.sibling_hashes@,
    );
    law_flattened(path.leaf_data@, k, c);
    assert(flattened(path.leaf_data@)[5 * k + c] == data.tree().leaf.row_spec(
        indexes[i] as int,
    )[5 * k + c]);
}

/// Lists of points, entry by entry: the views of vectors, lifted or not, and the points of samples.
pub proof fn law_point_lists<F: Ring, EF: Algebra<F>>(
    points: Seq<Vec<EF>>,
    base: Seq<Vec<F>>,
    plain: Seq<Seq<F>>,
    i: int,
    j: int,
)
    ensures
        point_views(points).len() == points.len(),
        0 <= i < points.len() ==> point_views(points)[i] == points[i]@,
        lifted_points::<F, EF>(base).len() == base.len(),
        0 <= i < base.len() ==> lifted_points::<F, EF>(base)[i].len() == base[i]@.len(),
        0 <= i < base.len() && 0 <= j < base[i]@.len() ==> lifted_points::<F, EF>(base)[i][j]
            == EF::lift(base[i]@[j]),
        lifted_all::<F, EF>(plain).len() == plain.len(),
        0 <= i < plain.len() && 0 <= j < plain[i].len() ==> lifted_all::<F, EF>(plain)[i][j]
            == EF::lift(plain[i][j]),
{
}

/// The weights with equalities added, at each vertex: those before plus the equality polynomials of
/// the points, each times its scalar.
pub proof fn law_equalities_add<R: Ring>(
    weights: Seq<R>,
    points: Seq<Seq<R>>,
    scalars: Seq<R>,
    terms: Seq<R>,
    x: int,
)
    requires
        scalars.len() == points.len(),
        terms.len() == points.len(),
        0 <= x < weights.len(),
        weights[x].canonical(),
        forall|i: int|
            0 <= i < points.len() ==> pow2((#[trigger] points[i]).len()) == weights.len(),
        forall|i: int|
            0 <= i < points.len() ==> #[trigger] terms[i] == scalars[i].times(
                eq_table(points[i])[x],
            ),
    ensures
        with_equalities(weights, points, scalars, points.len()).len() == weights.len(),
        with_equalities(weights, points, scalars, points.len())[x] == weights[x].plus(total(terms)),
{
    lemma_with_equalities_at(weights, points, scalars, points.len(), terms, x);
    assert(terms.take(points.len() as int) =~= terms);
}

/// The points of queries, of a round's sample or of an element of the domain, end with the element
/// and have in each coordinate the square of the next.
pub proof fn law_query_points<R: Ring>(
    samples: Seq<R>,
    gen: R,
    indexes: Seq<usize>,
    n: nat,
    domain: Seq<R>,
    i: int,
    j: int,
)
    requires
        n > 0,
        all_canonical(samples),
        domain.len() > 0,
        domain[0] == R::ring_one(),
        forall|k: int| 0 < k < domain.len() ==> #[trigger] domain[k] == domain[k - 1].times(gen),
        0 <= j < n,
    ensures
        univariate_points(samples, n).len() == samples.len(),
        0 <= i < samples.len() ==> ({
            let p = univariate_points(samples, n)[i];
            p.len() == n && (j == n - 1 ==> p[j] == samples[i]) && (j < n - 1 ==> p[j] == p[j
                + 1].times(p[j + 1]))
        }),
        domain_points(gen, indexes, n).len() == indexes.len(),
        0 <= i < indexes.len() && indexes[i] < domain.len() ==> ({
            let p = domain_points(gen, indexes, n)[i];
            p.len() == n && (j == n - 1 ==> p[j] == domain[indexes[i] as int]) && (j < n - 1
                ==> p[j] == p[j + 1].times(p[j + 1]))
        }),
{
    if 0 <= i < samples.len() {
        assert(samples[i].canonical());
        law_univariate_point(samples[i], n, univariate_points(samples, n)[i]);
    }
    if 0 <= i < indexes.len() && indexes[i] < domain.len() {
        let e = indexes[i] as nat;
        law_powers(gen, domain, e as int);
        lemma_power_canonical(gen, e);
        law_univariate_point(power(gen, e), n, domain_points(gen, indexes, n)[i]);
    }
}

/// The point that leaves are evaluated at has a coordinate for each variable of a leaf of the first
/// commitment, and where there are two commitments one more that tells them apart.
pub proof fn law_folds_counted(b: MerkleData, folding_factor: int)
    ensures
        folds_counted(None, folding_factor) == folding_factor,
        folds_counted(Some(b), folding_factor) == folding_factor + 1,
        b is Base ==> leaf_width(b) == b.tree().full_leaf_base_width,
        b is Extension ==> leaf_width(b) == b.tree().full_leaf_base_width as int / 5,
        b matches MerkleData::Base(t) ==> b.tree() == t,
        b matches MerkleData::Extension(t) ==> b.tree() == t,
{
}

} // verus!
