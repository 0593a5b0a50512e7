//! Queries into committed matrices: the points they stand for, the openings, and the values of
//! the opened leaves.

use crate::field::{Algebra, KoalaBear, Ring};
use crate::poly::{
    eq_table, evaluate, evaluate_ext, exp_u64, expand_from_univariate, lemma_eq_table_len,
    mle_eval, power, univariate_point,
};
use crate::sumcheck::vectors::{
    dot, lemma_dot_append, lemma_dot_canonical, lemma_dot_scale_right, lemma_total_zeros, lifted,
    products, vscale,
};
use crate::whir::commit::MerkleData;
use crate::whir::constraints::{lift_point, weighted_sum};
use crate::whir::merkle::{
    flattened, is_opening, leaf_elements, padded, OpenedLeaf, DIGEST_ELEMS,
};
use vstd::arithmetic::power2::pow2;
use vstd::prelude::*;

verus! {

/// A leaf with its authentication path.
#[derive(Debug)]
pub struct MerklePath<T> {
    pub leaf_data: Vec<T>,
    pub sibling_hashes: Vec<[KoalaBear; DIGEST_ELEMS]>,
    pub leaf_index: usize,
}

/// The openings of a tree at the queried indices: the leaves, and their paths by the kind of the
/// leaves.
#[derive(Debug)]
pub struct Openings {
    pub answers: Vec<OpenedLeaf>,
    pub base_paths: Vec<MerklePath<KoalaBear>>,
    pub ext_paths: Vec<MerklePath<[KoalaBear; 5]>>,
}

impl Openings {
    /// These are the openings of a tree at the first `m` of the indices.
    pub open spec fn of_tree(self, tree: MerkleData, indexes: Seq<usize>, m: int) -> bool {
        &&& self.answers@.len() == m
        &&& tree is Base ==> {
            &&& self.ext_paths@.len() == 0
            &&& self.base_paths@.len() == m
            &&& forall|i: int|
                0 <= i < m ==> {
                    let path = #[trigger] self.base_paths@[i];
                    &&& path.leaf_index == indexes[i]
                    &&& self.answers@[i] matches OpenedLeaf::Base(leaf) && leaf@ == path.leaf_data@
                    &&& is_opening(
                        tree.tree(),
                        indexes[i] as int,
                        path.leaf_data@,
                        path.sibling_hashes@,
                    )
                }
        }
        &&& tree is Extension ==> {
            &&& self.base_paths@.len() == 0
            &&& self.ext_paths@.len() == m
            &&& forall|i: int|
                0 <= i < m ==> {
                    let path = #[trigger] self.ext_paths@[i];
                    &&& path.leaf_index == indexes[i]
                    &&& self.answers@[i] matches OpenedLeaf::Extension(leaf) && leaf@
                        == path.leaf_data@
                    &&& is_opening(
                        tree.tree(),
                        indexes[i] as int,
                        flattened(path.leaf_data@),
                        path.sibling_hashes@,
                    )
                }
        }
    }
}

fn copy_vec<T: Copy>(v: &Vec<T>) -> (r: Vec<T>)
    ensures
        r@ == v@,
{
    let mut out: Vec<T> = Vec::new();
    let mut i: usize = 0;
    while i < v.len()
        invariant
            i <= v@.len(),
            out@ == v@.take(i as int),
        decreases v@.len() - i,
    {
        out.push(v[i]);
        assert(v@.take(i + 1) =~= v@.take(i as int).push(v@[i as int]));
        i += 1;
    }
    assert(v@.take(i as int) =~= v@);
    out
}

/// Opens a tree at every queried index.
pub fn open_merkle_tree_at_challenges(merkle_tree: &MerkleData, stir_challenges_indexes: &[usize]) -> (r:
    Openings)
    requires
        forall|i: int|
            0 <= i < stir_challenges_indexes@.len() ==> merkle_tree.openable(
                (#[trigger] stir_challenges_indexes@[i]) as int,
            ),
    ensures
        r.of_tree(
            *merkle_tree,
            stir_challenges_indexes@,
            stir_challenges_indexes@.len() as int,
        ),
{
    let mut openings = Openings {
        answers: Vec::new(),
        base_paths: Vec::new(),
        ext_paths: Vec::new(),
    };
    let mut i: usize = 0;
    while i < stir_challenges_indexes.len()
        invariant
            i <= stir_challenges_indexes@.len(),
            forall|i: int|
                0 <= i < stir_challenges_indexes@.len() ==> merkle_tree.openable(
                    (#[trigger] stir_challenges_indexes@[i]) as int,
                ),
            openings.of_tree(*merkle_tree, stir_challenges_indexes@, i as int),
        decreases stir_challenges_indexes@.len() - i,
    {
        let challenge: usize = stir_challenges_indexes[i];
        let (answer, sibling_hashes) = merkle_tree.open(challenge);
        match &answer {
            OpenedLeaf::Base(leaf) => {
                let leaf_data = copy_vec(leaf);
                openings.base_paths.push(
                    MerklePath { leaf_data, sibling_hashes, leaf_index: challenge },
                );
            },
            OpenedLeaf::Extension(leaf) => {
                let leaf_data = copy_vec(leaf);
                openings.ext_paths.push(
                    MerklePath { leaf_data, sibling_hashes, leaf_index: challenge },
                );
            },
        }
        openings.answers.push(answer);
        i += 1;
    }
    openings
}

/// The points that univariate values stand for.
pub open spec fn univariate_points<R: Ring>(values: Seq<R>, n: nat) -> Seq<Seq<R>> {
    Seq::new(values.len(), |i: int| univariate_point(values[i], n))
}

/// The points that queried indices of a domain with this generator stand for.
pub open spec fn domain_points<R: Ring>(gen: R, indexes: Seq<usize>, n: nat) -> Seq<Seq<R>> {
    Seq::new(indexes.len(), |i: int| univariate_point(power(gen, indexes[i] as nat), n))
}

/// The points of the out-of-domain samples and of the queries.
pub fn compute_stir_queries<F: Ring, EF: Ring>(
    domain_gen: F,
    num_variables: usize,
    ood_points: &[EF],
    stir_challenges_indexes: &[usize],
) -> (r: (Vec<Vec<EF>>, Vec<Vec<F>>))
    ensures
        r.0@.len() == ood_points@.len(),
        forall|i: int|
            0 <= i < ood_points@.len() ==> (#[trigger] r.0@[i])@ == univariate_points(
                ood_points@,
                num_variables as nat,
            )[i],
        r.1@.len() == stir_challenges_indexes@.len(),
        forall|i: int|
            0 <= i < stir_challenges_indexes@.len() ==> (#[trigger] r.1@[i])@ == domain_points(
                domain_gen,
                stir_challenges_indexes@,
                num_variables as nat,
            )[i],
{
    let mut ood_challenges: Vec<Vec<EF>> = Vec::new();
    let mut i: usize = 0;
    while i < ood_points.len()
        invariant
            i <= ood_points@.len(),
            ood_challenges@.len() == i,
            forall|j: int|
                0 <= j < i ==> (#[trigger] ood_challenges@[j])@ == univariate_point(
                    ood_points@[j],
                    num_variables as nat,
                ),
        decreases ood_points@.len() - i,
    {
        ood_challenges.push(expand_from_univariate(ood_points[i], num_variables));
        i += 1;
    }
    let mut stir_challenges: Vec<Vec<F>> = Vec::new();
    i = 0;
    while i < stir_challenges_indexes.len()
        invariant
            i <= stir_challenges_indexes@.len(),
            stir_challenges@.len() == i,
            forall|j: int|
                0 <= j < i ==> (#[trigger] stir_challenges@[j])@ == univariate_point(
                    power(domain_gen, stir_challenges_indexes@[j] as nat),
                    num_variables as nat,
                ),
        decreases stir_challenges_indexes@.len() - i,
    {
        let element = exp_u64(domain_gen, stir_challenges_indexes[i] as u64);
        stir_challenges.push(expand_from_univariate(element, num_variables));
        i += 1;
    }
    (ood_challenges, stir_challenges)
}

/// An opened leaf as a polynomial: over the base field, or over the extension.
#[derive(Debug)]
pub enum Answer<EF> {
    Base(Vec<KoalaBear>),
    Extension(Vec<EF>),
}

impl<EF: Algebra<KoalaBear>> Answer<EF> {
    /// The values of the polynomial.
    pub open spec fn values(self) -> Seq<EF> {
        match self {
            Answer::Base(v) => lifted::<KoalaBear, EF>(v@),
            Answer::Extension(v) => v@,
        }
    }

    /// The value at a point.
    pub fn evaluate(&self, point: &[EF]) -> (r: EF)
        requires
            self.values().len() == pow2(point@.len()),
        ensures
            r == mle_eval(self.values(), point@),
    {
        match self {
            Answer::Base(v) => evaluate::<KoalaBear, EF>(v.as_slice(), point),
            Answer::Extension(v) => evaluate_ext(v.as_slice(), point),
        }
    }
}

/// The element of an extension with these coordinates in a basis.
pub open spec fn in_basis<EF: Algebra<KoalaBear>>(
    coordinates: Seq<KoalaBear>,
    basis: Seq<EF>,
) -> EF {
    dot(lifted::<KoalaBear, EF>(coordinates), basis)
}

/// The values in an opened leaf: its elements, or the elements whose coordinates it lists.
pub open spec fn leaf_values<EF: Algebra<KoalaBear>>(leaf: OpenedLeaf, basis: Seq<EF>) -> Seq<EF> {
    match leaf {
        OpenedLeaf::Base(v) => lifted::<KoalaBear, EF>(v@),
        OpenedLeaf::Extension(v) => Seq::new(v@.len(), |i: int| in_basis(v@[i]@, basis)),
    }
}

/// The values committed to at an index: those of the padded row.
pub open spec fn committed_values<EF: Algebra<KoalaBear>>(
    data: MerkleData,
    index: int,
    basis: Seq<EF>,
) -> Seq<EF> {
    let row = padded(data.tree().leaf.row_spec(index), data.tree().full_leaf_base_width as int);
    match data {
        MerkleData::Base(_) => lifted::<KoalaBear, EF>(row),
        MerkleData::Extension(_) => Seq::new(
            row.len() / 5,
            |i: int| in_basis(row.subrange(5 * i, 5 * i + 5), basis),
        ),
    }
}

/// An opened leaf holds the values committed to.
pub proof fn law_opened_values<EF: Algebra<KoalaBear>>(
    data: MerkleData,
    index: int,
    leaf: OpenedLeaf,
    siblings: Seq<[KoalaBear; DIGEST_ELEMS]>,
    basis: Seq<EF>,
)
    requires
        is_opening(data.tree(), index, leaf_elements(leaf), siblings),
        leaf is Base <==> data is Base,
    ensures
        leaf_values(leaf, basis) == committed_values(data, index, basis),
{
    let row = leaf_elements(leaf);
    if let OpenedLeaf::Extension(v) = leaf {
        assert forall|i: int| 0 <= i < v@.len() implies #[trigger] v@[i]@ == row.subrange(
            5 * i,
            5 * i + 5,
        ) by {
            let part = row.subrange(5 * i, 5 * i + 5);
            assert forall|j: int| 0 <= j < 5 implies #[trigger] part[j] == v@[i]@[j] by {
                assert(part[j] == flattened(v@)[5 * i + j]);
                assert((5 * i + j) / 5 == i && (5 * i + j) % 5 == j);
            }
            assert(v@[i]@ =~= part);
        }
    }
    assert(leaf_values(leaf, basis) =~= committed_values(data, index, basis));
}

impl<EF: Algebra<KoalaBear>> Answer<EF> {
    /// The polynomial of an opened leaf, given the basis in which extension elements are listed.
    pub fn of_leaf(leaf: &OpenedLeaf, basis: &[EF; 5]) -> (r: Self)
        ensures
            r.values() == leaf_values(*leaf, basis@),
    {
        match leaf {
            OpenedLeaf::Base(v) => Answer::Base(copy_vec(v)),
            OpenedLeaf::Extension(v) => {
                let mut out: Vec<EF> = Vec::new();
                let mut i: usize = 0;
                while i < v.len()
                    invariant
                        i <= v@.len(),
                        out@.len() == i,
                        forall|j: int| 0 <= j < i ==> #[trigger] out@[j] == in_basis(v@[j]@, basis@),
                    decreases v@.len() - i,
                {
                    let c = v[i];
                    let coordinates = lift_point::<KoalaBear, EF>(c.as_slice());
                    out.push(weighted_sum(basis.as_slice(), coordinates.as_slice()));
                    i += 1;
                }
                assert(out@ =~= leaf_values(*leaf, basis@));
                Answer::Extension(out)
            },
        }
    }
}

/// The polynomials of opened leaves.
pub fn answers_of<EF: Algebra<KoalaBear>>(leaves: &Vec<OpenedLeaf>, basis: &[EF; 5]) -> (r: Vec<
    Answer<EF>,
>)
    ensures
        r@.len() == leaves@.len(),
        forall|i: int|
            0 <= i < leaves@.len() ==> (#[trigger] r@[i]).values() == leaf_values(
                leaves@[i],
                basis@,
            ),
{
    let mut out: Vec<Answer<EF>> = Vec::new();
    let mut i: usize = 0;
    while i < leaves.len()
        invariant
            i <= leaves@.len(),
            out@.len() == i,
            forall|j: int|
                0 <= j < i ==> (#[trigger] out@[j]).values() == leaf_values(leaves@[j], basis@),
        decreases leaves@.len() - i,
    {
        out.push(Answer::of_leaf(&leaves[i], basis));
        i += 1;
    }
    out
}

/// The product of `1 - x` over the elements.
pub open spec fn complements<R: Ring>(s: Seq<R>) -> R
    decreases s.len(),
{
    if s.len() == 0 {
        R::ring_one()
    } else {
        R::ring_one().minus(s.first()).times(complements(s.drop_first()))
    }
}

/// The value at `r` of two leaves of one index, the first selected by the first coordinate and the
/// second, with `vars_b` variables, by the complements of the coordinates it lacks.
pub open spec fn paired_value<R: Ring>(a: Seq<R>, b: Seq<R>, vars_b: int, r: Seq<R>) -> R {
    let lead = r.len() - vars_b;
    mle_eval(a, r.skip(1)).times(r[0]).plus(
        mle_eval(b, r.skip(lead)).times(complements(r.take(lead))),
    )
}

/// The values of the answers at the folding randomness.
pub open spec fn stir_values<EF: Algebra<KoalaBear>>(
    answers_a: Seq<Answer<EF>>,
    answers_b: Option<(Vec<Answer<EF>>, usize)>,
    r: Seq<EF>,
) -> Seq<EF> {
    Seq::new(
        answers_a.len(),
        |i: int|
            match answers_b {
                None => mle_eval(answers_a[i].values(), r),
                Some((b, vars_b)) => paired_value(
                    answers_a[i].values(),
                    b@[i].values(),
                    vars_b as int,
                    r,
                ),
            },
    )
}

/// The answers are polynomials in as many variables as the randomness has coordinates; where there
/// is a second part, the first part's have one less and the second's their own number.
pub open spec fn answers_fit<EF: Algebra<KoalaBear>>(
    answers_a: Seq<Answer<EF>>,
    answers_b: Option<(Vec<Answer<EF>>, usize)>,
    n: int,
) -> bool {
    match answers_b {
        None => forall|i: int|
            0 <= i < answers_a.len() ==> (#[trigger] answers_a[i]).values().len() == pow2(
                n as nat,
            ),
        Some((b, vars_b)) => {
            &&& vars_b < n
            &&& b@.len() == answers_a.len()
            &&& forall|i: int|
                0 <= i < answers_a.len() ==> (#[trigger] answers_a[i]).values().len() == pow2(
                    (n - 1) as nat,
                )
            &&& forall|i: int|
                0 <= i < b@.len() ==> (#[trigger] b@[i]).values().len() == pow2(vars_b as nat)
        },
    }
}

/// A copy of the coordinates from `start` on.
fn coordinates_from<R: Ring>(r: &[R], start: usize) -> (out: Vec<R>)
    requires
        start <= r@.len(),
    ensures
        out@ == r@.skip(start as int),
{
    let mut out: Vec<R> = Vec::new();
    let mut i: usize = start;
    while i < r.len()
        invariant
            start <= i <= r@.len(),
            out@.len() == i - start,
            forall|j: int| 0 <= j < i - start ==> #[trigger] out@[j] == r@[start + j],
        decreases r@.len() - i,
    {
        out.push(r[i]);
        i += 1;
    }
    assert(out@ =~= r@.skip(start as int));
    out
}

fn product_of_complements<R: Ring>(r: &[R], lead: usize) -> (out: R)
    requires
        lead <= r@.len(),
    ensures
        out == complements(r@.take(lead as int)),
{
    let ghost s = r@.take(lead as int);
    let mut acc = R::one();
    let mut i: usize = lead;
    assert(s.skip(lead as int).len() == 0);
    while i > 0
        invariant
            i <= lead <= r@.len(),
            s == r@.take(lead as int),
            acc == complements(s.skip(i as int)),
        decreases i,
    {
        i -= 1;
        proof {
            let t = s.skip(i as int);
            assert(t.first() == s[i as int]);
            assert(t.drop_first() =~= s.skip(i + 1));
        }
        acc = R::one().sub(r[i]).mul(acc);
    }
    assert(s.skip(0) =~= s);
    acc
}

/// The values of the answers at the folding randomness. Where the commitment has a second part,
/// its answers are combined with the first's.
pub fn stir_evaluations<EF: Algebra<KoalaBear>>(
    answers_a: &Vec<Answer<EF>>,
    answers_b: &Option<(Vec<Answer<EF>>, usize)>,
    folding_randomness: &[EF],
) -> (r: Vec<EF>)
    requires
        answers_fit(answers_a@, *answers_b, folding_randomness@.len() as int),
    ensures
        r@ == stir_values(answers_a@, *answers_b, folding_randomness@),
{
    let mut out: Vec<EF> = Vec::new();
    match answers_b {
        None => {
            let mut i: usize = 0;
            while i < answers_a.len()
                invariant
                    i <= answers_a@.len(),
                    forall|i: int|
                        0 <= i < answers_a@.len() ==> (#[trigger] answers_a@[i]).values().len()
                            == pow2(folding_randomness@.len()),
                    out@.len() == i,
                    forall|j: int|
                        0 <= j < i ==> #[trigger] out@[j] == mle_eval(
                            answers_a@[j].values(),
                            folding_randomness@,
                        ),
                decreases answers_a@.len() - i,
            {
                out.push(answers_a[i].evaluate(folding_randomness));
                i += 1;
            }
        },
        Some((b, vars_b)) => {
            let vars_b: usize = *vars_b;
            let lead: usize = folding_randomness.len() - vars_b;
            let point_a = coordinates_from(folding_randomness, 1);
            let point_b = coordinates_from(folding_randomness, lead);
            let scale_a = folding_randomness[0];
            let scale_b = product_of_complements(folding_randomness, lead);
            let mut i: usize = 0;
            while i < answers_a.len()
                invariant
                    i <= answers_a@.len(),
                    b@.len() == answers_a@.len(),
                    vars_b < folding_randomness@.len(),
                    lead == folding_randomness@.len() - vars_b,
                    forall|i: int|
                        0 <= i < answers_a@.len() ==> (#[trigger] answers_a@[i]).values().len()
                            == pow2((folding_randomness@.len() - 1) as nat),
                    forall|i: int|
                        0 <= i < b@.len() ==> (#[trigger] b@[i]).values().len() == pow2(
                            vars_b as nat,
                        ),
                    point_a@ == folding_randomness@.skip(1),
                    point_b@ == folding_randomness@.skip(lead as int),
                    scale_a == folding_randomness@[0],
                    scale_b == complements(folding_randomness@.take(lead as int)),
                    out@.len() == i,
                    forall|j: int|
                        0 <= j < i ==> #[trigger] out@[j] == paired_value(
                            answers_a@[j].values(),
                            b@[j].values(),
                            vars_b as int,
                            folding_randomness@,
                        ),
                decreases answers_a@.len() - i,
            {
                let eval_a = answers_a[i].evaluate(point_a.as_slice());
                assert(b@[i as int].values().len() == pow2(vars_b as nat));
                let eval_b = b[i].evaluate(point_b.as_slice());
                out.push(eval_a.mul(scale_a).add(eval_b.mul(scale_b)));
                i += 1;
            }
        },
    }
    assert(out@ =~= stir_values(answers_a@, *answers_b, folding_randomness@));
    out
}

/// A vector followed by zeros up to length `n`.
pub open spec fn zero_extended<R: Ring>(b: Seq<R>, n: nat) -> Seq<R> {
    Seq::new(
        n,
        |i: int|
            if i < b.len() {
                b[i]
            } else {
                R::ring_zero()
            },
    )
}

/// The value of two halves.
pub proof fn lemma_halves_value<R: Ring>(lo: Seq<R>, hi: Seq<R>, point: Seq<R>)
    requires
        point.len() > 0,
        lo.len() == pow2((point.len() - 1) as nat),
        hi.len() == lo.len(),
    ensures
        mle_eval(lo + hi, point) == R::ring_one().minus(point.first()).times(
            mle_eval(lo, point.drop_first()),
        ).plus(point.first().times(mle_eval(hi, point.drop_first()))),
{
    let rest = eq_table(point.drop_first());
    lemma_eq_table_len(point.drop_first());
    let (p, q) = (point.first(), R::ring_one().minus(point.first()));
    lemma_dot_append(lo, vscale(q, rest), hi, vscale(p, rest));
    lemma_dot_scale_right(q, lo, rest);
    lemma_dot_scale_right(p, hi, rest);
}

/// The value of a vector followed by zeros.
proof fn lemma_zero_extended_value<R: Ring>(b: Seq<R>, vars_b: nat, point: Seq<R>)
    requires
        vars_b <= point.len(),
        b.len() == pow2(vars_b),
    ensures
        mle_eval(zero_extended(b, pow2(point.len())), point) == complements(
            point.take(point.len() - vars_b),
        ).times(mle_eval(b, point.skip(point.len() - vars_b))),
    decreases point.len() - vars_b,
{
    let lead = point.len() - vars_b;
    let whole = zero_extended(b, pow2(point.len()));
    if lead == 0 {
        assert(whole =~= b);
        assert(point.skip(0) =~= point);
        let v = mle_eval(b, point);
        lemma_dot_canonical(b, eq_table(point));
        R::law_times_commutes(R::ring_one(), v);
        R::law_times_one(v);
    } else {
        let rest = point.drop_first();
        let half = pow2(rest.len());
        crate::math::lemma_pow2_step(rest.len());
        crate::math::lemma_pow2_monotone(vars_b, rest.len());
        let lo = zero_extended(b, half);
        let hi = Seq::new(half, |i: int| R::ring_zero());
        assert(whole =~= lo + hi);
        lemma_halves_value(lo, hi, point);
        lemma_zero_extended_value(b, vars_b, rest);
        // The upper half is zero.
        lemma_eq_table_len(rest);
        assert forall|i: int| 0 <= i < half implies #[trigger] products(hi, eq_table(rest))[i]
            == R::ring_zero() by {
            R::law_times_zero(eq_table(rest)[i]);
        }
        lemma_total_zeros(products(hi, eq_table(rest)));
        R::law_times_zero(point.first());
        let q = R::ring_one().minus(point.first());
        let v = mle_eval(lo, rest);
        R::law_closed(q, v, 0);
        R::law_plus_zero(q.times(v));
        // Regroup.
        let s = point.take(lead);
        assert(s.first() == point.first());
        assert(s.drop_first() =~= rest.take(lead - 1));
        assert(rest.skip(lead - 1) =~= point.skip(lead));
        R::law_times_associates(q, complements(rest.take(lead - 1)), mle_eval(b, point.skip(lead)));
    }
}

/// The combined value of two leaves is the value of the polynomial whose upper half is the first
/// and whose lower half is the second followed by zeros.
pub proof fn law_paired_value_is_stacked<R: Ring>(a: Seq<R>, b: Seq<R>, vars_b: nat, r: Seq<R>)
    requires
        vars_b < r.len(),
        a.len() == pow2((r.len() - 1) as nat),
        b.len() == pow2(vars_b),
    ensures
        paired_value(a, b, vars_b as int, r) == mle_eval(zero_extended(b, a.len()) + a, r),
{
    let rest = r.drop_first();
    let lead = r.len() - vars_b;
    crate::math::lemma_pow2_monotone(vars_b, rest.len());
    let lo = zero_extended(b, a.len());
    lemma_halves_value(lo, a, r);
    lemma_zero_extended_value(b, vars_b, rest);
    assert(r.skip(1) =~= rest);
    let s = r.take(lead);
    assert(s.first() == r[0]);
    assert(s.drop_first() =~= rest.take(lead - 1));
    assert(rest.skip(lead - 1) =~= r.skip(lead));
    let q = R::ring_one().minus(r[0]);
    let c = complements(rest.take(lead - 1));
    let vb = mle_eval(b, r.skip(lead));
    let va = mle_eval(a, rest);
    R::law_times_associates(q, c, vb);
    R::law_times_commutes(q.times(c), vb);
    R::law_times_commutes(r[0], va);
    R::law_plus_commutes(vb.times(q.times(c)), va.times(r[0]));
}

} // verus!
