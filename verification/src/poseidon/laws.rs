//! The states that the permutation and its trace pass through.

use crate::field::Ring;
use crate::poseidon::permutation::{
    cubes, first_cubed, mat_vec, PoseidonConstants, POSEIDON_WIDTH,
};
use crate::poseidon::trace_gen::{
    longest, row_inputs, zero_filled, TraceConstants, TraceLayout, TraceShape,
};
use crate::poseidon::witness_gen::row_of;
use crate::sumcheck::vectors::{dot, vplus};
use vstd::prelude::*;

verus! {

/// The permutation passes through one state a round. In a round the constants are added, the
/// elements of the sum are cubed, all of them in the first and the last rounds and only the first
/// one in the rounds between, and what comes out is multiplied by the matrix.
pub proof fn law_permutation<R: Ring>(
    c: PoseidonConstants<R>,
    states: Seq<Seq<R>>,
    sums: Seq<Seq<R>>,
    powers: Seq<Seq<R>>,
    r: nat,
)
    requires
        states.len() == c.initial@.len() + c.partial@.len() + c.last@.len() + 1,
        sums.len() == states.len() - 1,
        powers.len() == states.len() - 1,
        forall|k: int| 0 <= k < states.len() ==> (#[trigger] states[k]).len() == 16,
        forall|k: int| 0 <= k < sums.len() ==> (#[trigger] sums[k]).len() == 16,
        forall|k: int| 0 <= k < powers.len() ==> (#[trigger] powers[k]).len() == 16,
        forall|k: int, j: int|
            0 <= k < c.initial@.len() && 0 <= j < 16 ==> #[trigger] sums[k][j]
                == states[k][j].plus(c.initial@[k]@[j]),
        forall|k: int, j: int|
            0 <= k - c.initial@.len() < c.partial@.len() && 0 <= j < 16 ==> #[trigger] sums[k][j]
                == states[k][j].plus(c.partial@[k - c.initial@.len()]@[j]),
        forall|k: int, j: int|
            0 <= k - c.initial@.len() - c.partial@.len() < c.last@.len() && 0 <= j < 16
                ==> #[trigger] sums[k][j] == states[k][j].plus(
                c.last@[k - c.initial@.len() - c.partial@.len()]@[j],
            ),
        forall|k: int, j: int|
            0 <= k < powers.len() && 0 <= j < 16 ==> #[trigger] powers[k][j] == (if j > 0
                && c.initial@.len() <= k < c.initial@.len() + c.partial@.len() {
                sums[k][j]
            } else {
                sums[k][j].times(sums[k][j]).times(sums[k][j])
            }),
        forall|k: int, i: int|
            0 < k < states.len() && 0 <= i < 16 ==> #[trigger] states[k][i] == dot(
                powers[k - 1],
                c.mds@[i]@,
            ),
        r < states.len(),
    ensures
        c.after_rounds(states[0], r) == states[r as int],
        c.permuted(states[0]) == states.last(),
{
    lemma_states(c, states, sums, powers, r);
    lemma_states(c, states, sums, powers, (states.len() - 1) as nat);
}

proof fn lemma_states<R: Ring>(
    c: PoseidonConstants<R>,
    states: Seq<Seq<R>>,
    sums: Seq<Seq<R>>,
    powers: Seq<Seq<R>>,
    r: nat,
)
    requires
        states.len() == c.initial@.len() + c.partial@.len() + c.last@.len() + 1,
        sums.len() == states.len() - 1,
        powers.len() == states.len() - 1,
        forall|k: int| 0 <= k < states.len() ==> (#[trigger] states[k]).len() == 16,
        forall|k: int| 0 <= k < sums.len() ==> (#[trigger] sums[k]).len() == 16,
        forall|k: int| 0 <= k < powers.len() ==> (#[trigger] powers[k]).len() == 16,
        forall|k: int, j: int|
            0 <= k < c.initial@.len() && 0 <= j < 16 ==> #[trigger] sums[k][j]
                == states[k][j].plus(c.initial@[k]@[j]),
        forall|k: int, j: int|
            0 <= k - c.initial@.len() < c.partial@.len() && 0 <= j < 16 ==> #[trigger] sums[k][j]
                == states[k][j].plus(c.partial@[k - c.initial@.len()]@[j]),
        forall|k: int, j: int|
            0 <= k - c.initial@.len() - c.partial@.len() < c.last@.len() && 0 <= j < 16
                ==> #[trigger] sums[k][j] == states[k][j].plus(
                c.last@[k - c.initial@.len() - c.partial@.len()]@[j],
            ),
        forall|k: int, j: int|
            0 <= k < powers.len() && 0 <= j < 16 ==> #[trigger] powers[k][j] == (if j > 0
                && c.initial@.len() <= k < c.initial@.len() + c.partial@.len() {
                sums[k][j]
            } else {
                sums[k][j].times(sums[k][j]).times(sums[k][j])
            }),
        forall|k: int, i: int|
            0 < k < states.len() && 0 <= i < 16 ==> #[trigger] states[k][i] == dot(
                powers[k - 1],
                c.mds@[i]@,
            ),
        r < states.len(),
    ensures
        c.after_rounds(states[0], r) == states[r as int],
    decreases r,
{
    if r > 0 {
        let p = r - 1;
        lemma_states(c, states, sums, powers, p as nat);
        let (s, u, v) = (states[p], sums[p], powers[p]);
        assert(s.len() == 16 && u.len() == 16 && v.len() == 16 && states[r as int].len() == 16);
        assert(u =~= vplus(s, c.of_round(p))) by {
            assert forall|j: int| 0 <= j < 16 implies u[j] == s[j].plus(c.of_round(p)[j]) by {
                assert(sums[p][j] == u[j]);
            }
        }
        if c.is_full(p) {
            assert(v =~= cubes(u)) by {
                assert forall|j: int| 0 <= j < 16 implies v[j] == cubes(u)[j] by {
                    assert(powers[p][j] == v[j]);
                }
            }
        } else {
            assert(v =~= first_cubed(u)) by {
                assert forall|j: int| 0 <= j < 16 implies v[j] == first_cubed(u)[j] by {
                    assert(powers[p][j] == v[j]);
                }
            }
        }
        let out = mat_vec(c.mds@, v);
        assert(states[r as int] =~= out) by {
            assert forall|i: int| 0 <= i < 16 implies states[r as int][i] == out[i] by {
                assert(states[r as int][i] == dot(powers[p], c.mds@[i]@));
            }
        }
    }
}

/// `t` is what cubing `s` with constants added leads to.
pub open spec fn cubed_sum<R: Ring>(s: Seq<R>, k: Seq<R>, t: Seq<R>) -> bool {
    t.len() == 16 && forall|j: int|
        0 <= j < 16 ==> #[trigger] t[j] == s[j].plus(k[j]).times(s[j].plus(k[j])).times(
            s[j].plus(k[j]),
        )
}

/// `t` is a matrix times `s`.
pub open spec fn product_of<R: Ring>(m: [[R; POSEIDON_WIDTH]; POSEIDON_WIDTH], s: Seq<R>, t: Seq<R>) -> bool {
    t.len() == 16 && forall|i: int| 0 <= i < 16 ==> #[trigger] t[i] == dot(s, m@[i]@)
}

/// The states that one permutation passes through in a trace. Two full rounds lie between one
/// state of the beginning and the next, but that the last of them is left before the matrix; two
/// also between one state of the ending and the next.
pub struct TraceStates<R> {
    pub beginning: Seq<Seq<R>>,
    /// For each pair of rounds at the beginning: the first cubed, multiplied, and the second cubed.
    pub beginning_steps: Seq<(Seq<R>, Seq<R>, Seq<R>)>,
    pub partial: Seq<Seq<R>>,
    pub ending: Seq<Seq<R>>,
    pub ending_steps: Seq<(Seq<R>, Seq<R>, Seq<R>)>,
}

/// The states follow from each other by the rounds.
pub open spec fn states_follow<R: Ring>(
    c: TraceConstants<R>,
    shape: TraceShape,
    input: Seq<R>,
    t: TraceStates<R>,
) -> bool {
    &&& t.beginning.len() == shape.n_beginning + 1
    &&& t.beginning_steps.len() == shape.n_beginning
    &&& t.beginning[0] == input
    &&& forall|i: int|
        0 <= i < shape.n_beginning ==> {
            let (a, b, d) = #[trigger] t.beginning_steps[i];
            &&& cubed_sum(t.beginning[i], c.initial@[2 * i]@, a)
            &&& product_of(c.mds, a, b)
            &&& cubed_sum(b, c.initial@[2 * i + 1]@, d)
            &&& i < shape.n_beginning - 1 ==> product_of(c.mds, d, t.beginning[i + 1])
            &&& i == shape.n_beginning - 1 ==> t.beginning[i + 1] == d
        }
    &&& t.partial.len() == shape.n_partial + 1
    &&& t.partial[0].len() == 16
    &&& forall|i: int|
        0 <= i < 16 ==> #[trigger] t.partial[0][i] == dot(t.beginning.last(), c.fused@[i]@).plus(
            c.bias@[i],
        )
    &&& forall|r: int| 0 < r <= shape.n_partial ==> (#[trigger] t.partial[r]).len() == 16
    &&& forall|r: int, i: int|
        0 < r <= shape.n_partial && 0 <= i < 16 ==> #[trigger] t.partial[r][i] == {
            let before = t.partial[r - 1];
            let cube = before[0].times(before[0]).times(before[0]);
            let first = if r < shape.n_partial {
                cube.plus(c.scalars@[r - 1])
            } else {
                cube
            };
            if i == 0 {
                dot(before.update(0, first), c.first_rows@[r - 1]@)
            } else {
                before[i].plus(first.times(c.columns@[r - 1]@[i - 1]))
            }
        }
    &&& t.ending.len() == shape.n_ending + 2
    &&& t.ending_steps.len() == shape.n_ending + 1
    &&& t.ending[0] == t.partial.last()
    &&& forall|i: int|
        0 <= i <= shape.n_ending ==> {
            let (a, b, d) = #[trigger] t.ending_steps[i];
            &&& cubed_sum(t.ending[i], c.last@[2 * i]@, a)
            &&& product_of(c.mds, a, b)
            &&& cubed_sum(b, c.last@[2 * i + 1]@, d)
            &&& product_of(c.mds, d, t.ending[i + 1])
        }
}

proof fn lemma_cubed_sum<R: Ring>(c: TraceConstants<R>, s: Seq<R>, k: Seq<R>, t: Seq<R>)
    requires
        s.len() == 16,
        cubed_sum(s, k, t),
    ensures
        c.nonlinear(s, k) == t,
{
    assert(c.nonlinear(s, k) =~= t);
}

proof fn lemma_product<R: Ring>(c: TraceConstants<R>, s: Seq<R>, t: Seq<R>)
    requires
        product_of(c.mds, s, t),
    ensures
        mat_vec(c.mds@, s) == t,
{
    assert(mat_vec(c.mds@, s) =~= t);
}

proof fn lemma_beginning<R: Ring>(
    c: TraceConstants<R>,
    shape: TraceShape,
    input: Seq<R>,
    t: TraceStates<R>,
    i: nat,
)
    requires
        input.len() == 16,
        states_follow(c, shape, input, t),
        i <= shape.n_beginning,
    ensures
        t.beginning[i as int].len() == 16,
        c.after_beginning(shape, input, i) == t.beginning[i as int],
    decreases i,
{
    if i > 0 {
        let p = i - 1;
        lemma_beginning(c, shape, input, t, p as nat);
        let (a, b, d) = t.beginning_steps[p];
        lemma_cubed_sum(c, t.beginning[p], c.initial@[2 * p]@, a);
        lemma_product(c, a, b);
        lemma_cubed_sum(c, b, c.initial@[2 * p + 1]@, d);
        if i < shape.n_beginning {
            lemma_product(c, d, t.beginning[i as int]);
        }
        assert(2 * i - 2 == 2 * p && 2 * i - 1 == 2 * p + 1);
    }
}

proof fn lemma_partial<R: Ring>(
    c: TraceConstants<R>,
    shape: TraceShape,
    input: Seq<R>,
    t: TraceStates<R>,
    r: nat,
)
    requires
        input.len() == 16,
        states_follow(c, shape, input, t),
        r <= shape.n_partial,
    ensures
        t.partial[r as int].len() == 16,
        c.after_partial(shape, input, r) == t.partial[r as int],
    decreases r,
{
    if r == 0 {
        lemma_beginning(c, shape, input, t, shape.n_beginning as nat);
        let s = t.beginning.last();
        assert forall|i: int| 0 <= i < 16 implies c.transition(s)[i] == t.partial[0][i] by {
            assert(t.partial[0][i] == dot(s, c.fused@[i]@).plus(c.bias@[i]));
        }
        assert(c.transition(s) =~= t.partial[0]);
    } else {
        let p = r - 1;
        lemma_partial(c, shape, input, t, p as nat);
        let before = t.partial[p];
        let s = c.partial_nonlinear(shape, before, p);
        let first = s[0];
        assert(s =~= before.update(0, first));
        assert forall|i: int| 0 <= i < 16 implies c.sparse(s, p)[i] == t.partial[r as int][i] by {
            assert(t.partial[r as int][i] == t.partial[r as int][i]);
        }
        assert(t.partial[r as int].len() == 16);
        assert(c.sparse(s, p) =~= t.partial[r as int]);
    }
}

proof fn lemma_ending<R: Ring>(
    c: TraceConstants<R>,
    shape: TraceShape,
    input: Seq<R>,
    t: TraceStates<R>,
    i: nat,
)
    requires
        input.len() == 16,
        states_follow(c, shape, input, t),
        i <= shape.n_ending + 1,
    ensures
        t.ending[i as int].len() == 16,
        c.after_ending(shape, input, i) == t.ending[i as int],
    decreases i,
{
    if i == 0 {
        lemma_partial(c, shape, input, t, shape.n_partial as nat);
    } else {
        let p = i - 1;
        lemma_ending(c, shape, input, t, p as nat);
        let (a, b, d) = t.ending_steps[p];
        lemma_cubed_sum(c, t.ending[p], c.last@[2 * p]@, a);
        lemma_product(c, a, b);
        lemma_cubed_sum(c, b, c.last@[2 * p + 1]@, d);
        lemma_product(c, d, t.ending[i as int]);
        assert(2 * i - 2 == 2 * p && 2 * i - 1 == 2 * p + 1);
    }
}

/// The cells of a row of the trace hold the states: those of the beginning and of the ending, the
/// cubes of the partial rounds, and the sums of the last state and the input.
pub proof fn law_trace_cells<R: Ring>(
    layout: TraceLayout,
    c: TraceConstants<R>,
    input: Seq<R>,
    t: TraceStates<R>,
    n: int,
    i: int,
    j: int,
)
    requires
        input.len() == 16,
        layout.fits(n),
        states_follow(c, layout.shape, input, t),
        0 <= j < 16,
    ensures
        0 <= i < layout.shape.n_beginning ==> layout.cell(c, input, layout.beginning + 16 * i + j)
            == Some(t.beginning[i + 1][j]),
        0 <= i < layout.shape.n_partial ==> layout.cell(c, input, layout.partial + i) == Some(
            t.partial[i][0].times(t.partial[i][0]).times(t.partial[i][0]),
        ),
        0 <= i < layout.shape.n_ending ==> layout.cell(c, input, layout.ending + 16 * i + j)
            == Some(t.ending[i + 1][j]),
        j < 8 ==> layout.cell(c, input, layout.outputs + j) == Some(
            t.ending.last()[j].plus(input[j]),
        ),
        layout.cell(c, input, layout.inputs + j) is None,
{
    let sh = layout.shape;
    assert((16 * i + j) / 16 == i && (16 * i + j) % 16 == j);
    if 0 <= i < sh.n_beginning {
        lemma_beginning(c, sh, input, t, (i + 1) as nat);
    }
    if 0 <= i < sh.n_partial {
        lemma_partial(c, sh, input, t, i as nat);
    }
    if 0 <= i < sh.n_ending {
        lemma_ending(c, sh, input, t, (i + 1) as nat);
    }
    lemma_ending(c, sh, input, t, (sh.n_ending + 1) as nat);
}

/// A row of a table of columns holds the row's element of each.
pub proof fn law_rows<R: Ring>(columns: Seq<Vec<R>>, inputs: int, row: int, j: int)
    requires
        0 <= j < columns.len(),
    ensures
        row_of(columns, row).len() == columns.len(),
        row_of(columns, row)[j] == columns[j]@[row],
        0 <= inputs && inputs + 16 <= columns.len() && j < 16 ==> row_inputs(
            columns,
            inputs,
            row,
        ).len() == 16 && row_inputs(columns, inputs, row)[j] == columns[inputs + j]@[row],
{
}

/// The length that columns are filled up to is that of the longest: no column is longer, and one is
/// as long. What is filled in is zero.
pub proof fn law_filled_up<R: Ring>(trace: Seq<Vec<R>>, m: nat, c: int, n: nat, i: int)
    requires
        m <= trace.len(),
        0 <= c < m,
    ensures
        trace[c]@.len() <= longest(trace, m),
        exists|k: int| 0 <= k < m && (#[trigger] trace[k])@.len() == longest(trace, m),
        zero_filled(trace[c]@, n).len() == n,
        0 <= i < n && i < trace[c]@.len() ==> zero_filled(trace[c]@, n)[i] == trace[c]@[i],
        trace[c]@.len() <= i < n ==> zero_filled(trace[c]@, n)[i] == R::ring_zero(),
    decreases m,
{
    let p = (m - 1) as nat;
    if c < p {
        law_filled_up(trace, p, c, n, i);
    } else if p > 0 {
        law_filled_up(trace, p, 0, n, i);
    }
    assert(trace[p as int]@.len() <= longest(trace, m));
    if longest(trace, m) == trace[p as int]@.len() {
        assert(trace[p as int]@.len() == longest(trace, m));
    } else {
        let k = choose|k: int| 0 <= k < p && (#[trigger] trace[k])@.len() == longest(trace, p);
        assert(trace[k]@.len() == longest(trace, m));
    }
}

} // verus!
