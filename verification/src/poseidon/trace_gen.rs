//! The trace of the permutation with sparse partial rounds: the states that its columns hold.

use crate::field::Ring;
use crate::poseidon::permutation::{
    add_constants, apply_matrix, cube, cube_all, cubes, first_cubed, mat_vec, row_product,
    POSEIDON_WIDTH,
};
use crate::sumcheck::vectors::{
    dot, lemma_dot_plus_right, lemma_dot_scale_right, lemma_total_zeros, products, total, vplus,
    vscale,
};
use vstd::prelude::*;

verus! {

/// Elements of a digest.
pub const POSEIDON_OUTPUT: usize = 8;

/// Constants of the permutation in the form of its trace. The last initial full round goes
/// without its linear layer, which is part of the fused matrix.
#[derive(Debug)]
pub struct TraceConstants<R> {
    pub initial: Vec<[R; POSEIDON_WIDTH]>,
    pub last: Vec<[R; POSEIDON_WIDTH]>,
    pub mds: [[R; POSEIDON_WIDTH]; POSEIDON_WIDTH],
    /// The matrix of the transition to the partial rounds.
    pub fused: [[R; POSEIDON_WIDTH]; POSEIDON_WIDTH],
    pub bias: [R; POSEIDON_WIDTH],
    /// The first row of every partial round's sparse matrix.
    pub first_rows: Vec<[R; POSEIDON_WIDTH]>,
    /// The rest of the first column of every partial round's sparse matrix.
    pub columns: Vec<[R; 15]>,
    /// The constants between partial rounds.
    pub scalars: Vec<R>,
}

/// How many states of each kind a trace holds: one behind each pair of full rounds, and one
/// element for each partial round.
#[derive(Clone, Copy, Debug)]
pub struct TraceShape {
    pub n_beginning: usize,
    pub n_partial: usize,
    pub n_ending: usize,
}

/// What the trace of one permutation holds.
#[derive(Debug)]
pub struct PermTrace<R> {
    pub beginning: Vec<[R; POSEIDON_WIDTH]>,
    pub partial: Vec<R>,
    pub ending: Vec<[R; POSEIDON_WIDTH]>,
    pub outputs: [R; POSEIDON_OUTPUT],
}

impl<R: Ring> TraceConstants<R> {
    /// There are constants for every round of the shape.
    pub open spec fn cover(self, shape: TraceShape) -> bool {
        &&& shape.n_beginning >= 1
        &&& self.initial@.len() >= 2 * shape.n_beginning
        &&& self.last@.len() >= 2 * shape.n_ending + 2
        &&& self.first_rows@.len() >= shape.n_partial
        &&& self.columns@.len() >= shape.n_partial
        &&& self.scalars@.len() + 1 >= shape.n_partial
    }

    /// Constants added, then cubed.
    pub open spec fn nonlinear(self, s: Seq<R>, c: Seq<R>) -> Seq<R> {
        cubes(vplus(s, c))
    }

    /// A full round.
    pub open spec fn full(self, s: Seq<R>, c: Seq<R>) -> Seq<R> {
        mat_vec(self.mds@, self.nonlinear(s, c))
    }

    /// The state behind the first `i` pairs of initial full rounds. Behind the last pair the linear
    /// layer is left out.
    pub open spec fn after_beginning(self, shape: TraceShape, input: Seq<R>, i: nat) -> Seq<R>
        decreases i,
    {
        if i == 0 {
            input
        } else {
            let middle = self.full(
                self.after_beginning(shape, input, (i - 1) as nat),
                self.initial@[2 * i - 2]@,
            );
            if i < shape.n_beginning {
                self.full(middle, self.initial@[2 * i - 1]@)
            } else {
                self.nonlinear(middle, self.initial@[2 * i - 1]@)
            }
        }
    }

    /// The state that enters the partial rounds.
    pub open spec fn transition(self, s: Seq<R>) -> Seq<R> {
        vplus(mat_vec(self.fused@, s), self.bias@)
    }

    /// The state of partial round `r` before its linear layer.
    pub open spec fn partial_nonlinear(self, shape: TraceShape, s: Seq<R>, r: int) -> Seq<R> {
        let t = first_cubed(s);
        if r < shape.n_partial - 1 {
            t.update(0, t[0].plus(self.scalars@[r]))
        } else {
            t
        }
    }

    /// The sparse linear layer of partial round `r`.
    pub open spec fn sparse(self, s: Seq<R>, r: int) -> Seq<R> {
        Seq::new(
            16,
            |i: int|
                if i == 0 {
                    dot(s, self.first_rows@[r]@)
                } else {
                    s[i].plus(s[0].times(self.columns@[r]@[i - 1]))
                },
        )
    }

    /// The state behind the first `r` partial rounds.
    pub open spec fn after_partial(self, shape: TraceShape, input: Seq<R>, r: nat) -> Seq<R>
        decreases r,
    {
        if r == 0 {
            self.transition(self.after_beginning(shape, input, shape.n_beginning as nat))
        } else {
            self.sparse(
                self.partial_nonlinear(
                    shape,
                    self.after_partial(shape, input, (r - 1) as nat),
                    r - 1,
                ),
                r - 1,
            )
        }
    }

    /// The state behind the first `i` pairs of final full rounds.
    pub open spec fn after_ending(self, shape: TraceShape, input: Seq<R>, i: nat) -> Seq<R>
        decreases i,
    {
        if i == 0 {
            self.after_partial(shape, input, shape.n_partial as nat)
        } else {
            self.full(
                self.full(
                    self.after_ending(shape, input, (i - 1) as nat),
                    self.last@[2 * i - 2]@,
                ),
                self.last@[2 * i - 1]@,
            )
        }
    }

    /// The outputs: the state behind the last two full rounds plus the input, its first half.
    pub open spec fn output(self, shape: TraceShape, input: Seq<R>, i: int) -> R {
        self.after_ending(shape, input, (shape.n_ending + 1) as nat)[i].plus(input[i])
    }

    /// This is the trace of the permutation of `input`.
    pub open spec fn is_trace(
        self,
        shape: TraceShape,
        input: Seq<R>,
        trace: PermTrace<R>,
    ) -> bool {
        &&& trace.beginning@.len() == shape.n_beginning
        &&& forall|i: int|
            0 <= i < shape.n_beginning ==> (#[trigger] trace.beginning@[i])@
                == self.after_beginning(shape, input, (i + 1) as nat)
        &&& trace.partial@.len() == shape.n_partial
        &&& forall|r: int|
            0 <= r < shape.n_partial ==> #[trigger] trace.partial@[r] == first_cubed(
                self.after_partial(shape, input, r as nat),
            )[0]
        &&& trace.ending@.len() == shape.n_ending
        &&& forall|i: int|
            0 <= i < shape.n_ending ==> (#[trigger] trace.ending@[i])@ == self.after_ending(
                shape,
                input,
                (i + 1) as nat,
            )
        &&& forall|i: int|
            0 <= i < 8 ==> #[trigger] trace.outputs@[i] == self.output(shape, input, i)
    }

    /// Two full rounds.
    fn generate_2_full_round(
        &self,
        state: &mut [R; POSEIDON_WIDTH],
        round_constants_1: &[R; POSEIDON_WIDTH],
        round_constants_2: &[R; POSEIDON_WIDTH],
    )
        ensures
            final(state)@ == self.full(
                self.full(old(state)@, round_constants_1@),
                round_constants_2@,
            ),
    {
        self.generate_2_full_round_no_final_mds(state, round_constants_1, round_constants_2);
        apply_matrix(&self.mds, state);
    }

    /// Two full rounds without the last linear layer.
    fn generate_2_full_round_no_final_mds(
        &self,
        state: &mut [R; POSEIDON_WIDTH],
        round_constants_1: &[R; POSEIDON_WIDTH],
        round_constants_2: &[R; POSEIDON_WIDTH],
    )
        ensures
            final(state)@ == self.nonlinear(
                self.full(old(state)@, round_constants_1@),
                round_constants_2@,
            ),
    {
        add_constants(state, round_constants_1);
        cube_all(state);
        apply_matrix(&self.mds, state);
        add_constants(state, round_constants_2);
        cube_all(state);
    }

    /// The sparse linear layer of partial round `r`.
    fn apply_sparse(&self, state: &mut [R; POSEIDON_WIDTH], r: usize)
        requires
            r < self.first_rows@.len(),
            r < self.columns@.len(),
        ensures
            final(state)@ == self.sparse(old(state)@, r as int),
    {
        let before = *state;
        let old_s0 = state[0];
        let new_s0 = row_product(state, &self.first_rows[r]);
        state[0] = new_s0;
        let mut i: usize = 1;
        while i < 16
            invariant
                1 <= i <= 16,
                r < self.columns@.len(),
                old_s0 == before@[0],
                state@[0] == new_s0,
                forall|k: int|
                    1 <= k < 16 ==> #[trigger] state@[k] == if k < i {
                        before@[k].plus(old_s0.times(self.columns@[r as int]@[k - 1]))
                    } else {
                        before@[k]
                    },
            decreases 16 - i,
        {
            let v = state[i].add(old_s0.mul(self.columns[r][i - 1]));
            state[i] = v;
            i += 1;
        }
        assert(state@ =~= self.sparse(before@, r as int));
    }

    /// Generates the trace of one permutation.
    pub fn generate_trace_rows_for_perm(
        &self,
        shape: &TraceShape,
        inputs: [R; POSEIDON_WIDTH],
    ) -> (r: PermTrace<R>)
        requires
            self.cover(*shape),
        ensures
            self.is_trace(*shape, inputs@, r),
    {
        let ghost input = inputs@;
        let ghost sh = *shape;
        let mut state = inputs;
        let n_initial: usize = shape.n_beginning;
        let n_constants: usize = self.initial.len();
        let n_last: usize = self.last.len();
        let mut beginning: Vec<[R; POSEIDON_WIDTH]> = Vec::new();
        let mut i: usize = 0;
        while i < n_initial - 1
            invariant
                i <= n_initial - 1,
                n_initial == sh.n_beginning,
                n_constants == self.initial.len(),
                self.cover(sh),
                state@ == self.after_beginning(sh, input, i as nat),
                beginning@.len() == i,
                forall|k: int|
                    0 <= k < i ==> (#[trigger] beginning@[k])@ == self.after_beginning(
                        sh,
                        input,
                        (k + 1) as nat,
                    ),
            decreases n_initial - 1 - i,
        {
            self.generate_2_full_round(
                &mut state,
                &self.initial[2 * i],
                &self.initial[2 * i + 1],
            );
            assert(state@ == self.after_beginning(sh, input, (i + 1) as nat));
            beginning.push(state);
            i += 1;
        }
        self.generate_2_full_round_no_final_mds(
            &mut state,
            &self.initial[2 * i],
            &self.initial[2 * i + 1],
        );
        assert(state@ == self.after_beginning(sh, input, n_initial as nat));
        beginning.push(state);
        apply_matrix(&self.fused, &mut state);
        add_constants(&mut state, &self.bias);
        let mut partial: Vec<R> = Vec::new();
        let n_partial: usize = shape.n_partial;
        let mut round: usize = 0;
        while round < n_partial
            invariant
                round <= n_partial,
                n_partial == sh.n_partial,
                self.cover(sh),
                state@ == self.after_partial(sh, input, round as nat),
                partial@.len() == round,
                forall|k: int|
                    0 <= k < round ==> #[trigger] partial@[k] == first_cubed(
                        self.after_partial(sh, input, k as nat),
                    )[0],
            decreases n_partial - round,
        {
            let ghost before = state@;
            let cubed = cube(state[0]);
            state[0] = cubed;
            assert(state@ =~= first_cubed(before));
            partial.push(cubed);
            if round < n_partial - 1 {
                let v = state[0].add(self.scalars[round]);
                state[0] = v;
            }
            assert(state@ =~= self.partial_nonlinear(sh, before, round as int));
            self.apply_sparse(&mut state, round);
            round += 1;
        }
        let mut ending: Vec<[R; POSEIDON_WIDTH]> = Vec::new();
        let n_ending: usize = shape.n_ending;
        let mut e: usize = 0;
        while e < n_ending
            invariant
                e <= n_ending,
                n_ending == sh.n_ending,
                n_last == self.last.len(),
                self.cover(sh),
                state@ == self.after_ending(sh, input, e as nat),
                ending@.len() == e,
                forall|k: int|
                    0 <= k < e ==> (#[trigger] ending@[k])@ == self.after_ending(
                        sh,
                        input,
                        (k + 1) as nat,
                    ),
            decreases n_ending - e,
        {
            self.generate_2_full_round(&mut state, &self.last[2 * e], &self.last[2 * e + 1]);
            assert(state@ == self.after_ending(sh, input, (e + 1) as nat));
            ending.push(state);
            e += 1;
        }
        self.generate_2_full_round(
            &mut state,
            &self.last[2 * n_ending],
            &self.last[2 * n_ending + 1],
        );
        assert(state@ == self.after_ending(sh, input, (n_ending + 1) as nat));
        let mut outputs = [R::zero(); POSEIDON_OUTPUT];
        let mut o: usize = 0;
        while o < 8
            invariant
                o <= 8,
                state@ == self.after_ending(sh, input, (sh.n_ending + 1) as nat),
                input == inputs@,
                forall|k: int| 0 <= k < o ==> #[trigger] outputs@[k] == self.output(sh, input, k),
            decreases 8 - o,
        {
            outputs[o] = state[o].add(inputs[o]);
            o += 1;
        }
        PermTrace { beginning, partial, ending, outputs }
    }
}

/// Where the parts of a permutation's trace stand: the first column of each.
#[derive(Clone, Copy, Debug)]
pub struct TraceLayout {
    pub shape: TraceShape,
    pub inputs: usize,
    pub beginning: usize,
    pub partial: usize,
    pub ending: usize,
    pub outputs: usize,
}

/// Two ranges of columns have none in common.
pub open spec fn ranges_apart(a: int, a_len: int, b: int, b_len: int) -> bool {
    a + a_len <= b || b + b_len <= a
}

impl TraceLayout {
    pub open spec fn beginning_len(self) -> int {
        16 * self.shape.n_beginning
    }

    pub open spec fn ending_len(self) -> int {
        16 * self.shape.n_ending
    }

    /// The parts stand side by side among `n` columns.
    pub open spec fn fits(self, n: int) -> bool {
        let (i, b, p, e, o) = (
            self.inputs as int,
            self.beginning as int,
            self.partial as int,
            self.ending as int,
            self.outputs as int,
        );
        let (bl, pl, el) = (
            self.beginning_len(),
            self.shape.n_partial as int,
            self.ending_len(),
        );
        &&& i + 16 <= n
        &&& b + bl <= n
        &&& p + pl <= n
        &&& e + el <= n
        &&& o + 8 <= n
        &&& ranges_apart(i, 16, b, bl)
        &&& ranges_apart(i, 16, p, pl)
        &&& ranges_apart(i, 16, e, el)
        &&& ranges_apart(i, 16, o, 8)
        &&& ranges_apart(b, bl, p, pl)
        &&& ranges_apart(b, bl, e, el)
        &&& ranges_apart(b, bl, o, 8)
        &&& ranges_apart(p, pl, e, el)
        &&& ranges_apart(p, pl, o, 8)
        &&& ranges_apart(e, el, o, 8)
    }

    /// What column `col` holds for the permutation of `input`; nothing where the column is not
    /// part of the trace or holds an input.
    pub open spec fn cell<R: Ring>(
        self,
        c: TraceConstants<R>,
        input: Seq<R>,
        col: int,
    ) -> Option<R> {
        let sh = self.shape;
        if self.beginning <= col < self.beginning + self.beginning_len() {
            let k = col - self.beginning;
            Some(c.after_beginning(sh, input, (k / 16 + 1) as nat)[k % 16])
        } else if self.partial <= col < self.partial + sh.n_partial {
            Some(first_cubed(c.after_partial(sh, input, (col - self.partial) as nat))[0])
        } else if self.ending <= col < self.ending + self.ending_len() {
            let k = col - self.ending;
            Some(c.after_ending(sh, input, (k / 16 + 1) as nat)[k % 16])
        } else if self.outputs <= col < self.outputs + 8 {
            Some(c.output(sh, input, col - self.outputs))
        } else {
            None
        }
    }
}

/// The length of the longest column.
pub open spec fn longest<R>(trace: Seq<Vec<R>>, m: nat) -> nat
    decreases m,
{
    if m == 0 {
        0
    } else {
        let before = longest(trace, (m - 1) as nat);
        if trace[m - 1]@.len() > before {
            trace[m - 1]@.len()
        } else {
            before
        }
    }
}

/// A column filled up with zeros.
pub open spec fn zero_filled<R: Ring>(col: Seq<R>, n: nat) -> Seq<R> {
    Seq::new(
        n,
        |i: int|
            if i < col.len() {
                col[i]
            } else {
                R::ring_zero()
            },
    )
}

/// The inputs of the permutation in a row.
pub open spec fn row_inputs<R: Ring>(trace: Seq<Vec<R>>, inputs: int, row: int) -> Seq<R> {
    Seq::new(16, |j: int| trace[inputs + j]@[row])
}

fn write_cell<R: Ring>(trace: &mut Vec<Vec<R>>, col: usize, row: usize, v: R)
    requires
        col < old(trace)@.len(),
        row < old(trace)@[col as int]@.len(),
    ensures
        final(trace)@.len() == old(trace)@.len(),
        forall|c: int|
            0 <= c < old(trace)@.len() ==> (#[trigger] final(trace)@[c])@ == if c == col {
                old(trace)@[c]@.update(row as int, v)
            } else {
                old(trace)@[c]@
            },
{
    trace[col].set(row, v);
}

/// Writes states into consecutive columns of a row.
fn write_states<R: Ring>(
    trace: &mut Vec<Vec<R>>,
    start: usize,
    states: &Vec<[R; POSEIDON_WIDTH]>,
    row: usize,
)
    requires
        start + 16 * states@.len() <= old(trace)@.len(),
        forall|c: int| 0 <= c < old(trace)@.len() ==> row < (#[trigger] old(trace)@[c])@.len(),
    ensures
        final(trace)@.len() == old(trace)@.len(),
        forall|c: int|
            0 <= c < old(trace)@.len() ==> (#[trigger] final(trace)@[c])@ == if start <= c < start
                + 16 * states@.len() {
                old(trace)@[c]@.update(
                    row as int,
                    states@[(c - start) / 16]@[(c - start) % 16],
                )
            } else {
                old(trace)@[c]@
            },
{
    let n_cols: usize = trace.len();
    let n: usize = 16 * states.len();
    let ghost before = trace@;
    let mut k: usize = 0;
    while k < n
        invariant
            k <= n,
            n == 16 * states@.len(),
            start + n <= n_cols,
            n_cols == trace.len(),
            before == old(trace)@,
            trace@.len() == before.len(),
            forall|c: int| 0 <= c < before.len() ==> row < (#[trigger] before[c])@.len(),
            forall|c: int|
                0 <= c < before.len() ==> (#[trigger] trace@[c])@ == if start <= c < start + k {
                    before[c]@.update(
                        row as int,
                        states@[(c - start) / 16]@[(c - start) % 16],
                    )
                } else {
                    before[c]@
                },
        decreases n - k,
    {
        assert(row < before[start + k]@.len());
        assert(trace@[start + k]@ == before[start + k]@);
        write_cell(trace, start + k, row, states[k / 16][k % 16]);
        k += 1;
    }
}

/// Writes elements into consecutive columns of a row.
fn write_elements<R: Ring>(trace: &mut Vec<Vec<R>>, start: usize, elements: &[R], row: usize)
    requires
        start + elements@.len() <= old(trace)@.len(),
        forall|c: int| 0 <= c < old(trace)@.len() ==> row < (#[trigger] old(trace)@[c])@.len(),
    ensures
        final(trace)@.len() == old(trace)@.len(),
        forall|c: int|
            0 <= c < old(trace)@.len() ==> (#[trigger] final(trace)@[c])@ == if start <= c < start
                + elements@.len() {
                old(trace)@[c]@.update(row as int, elements@[c - start])
            } else {
                old(trace)@[c]@
            },
{
    let n_cols: usize = trace.len();
    let n: usize = elements.len();
    let ghost before = trace@;
    let mut k: usize = 0;
    while k < n
        invariant
            k <= n,
            n == elements@.len(),
            start + n <= n_cols,
            n_cols == trace.len(),
            before == old(trace)@,
            trace@.len() == before.len(),
            forall|c: int| 0 <= c < before.len() ==> row < (#[trigger] before[c])@.len(),
            forall|c: int|
                0 <= c < before.len() ==> (#[trigger] trace@[c])@ == if start <= c < start + k {
                    before[c]@.update(row as int, elements@[c - start])
                } else {
                    before[c]@
                },
        decreases n - k,
    {
        assert(row < before[start + k]@.len());
        assert(trace@[start + k]@ == before[start + k]@);
        write_cell(trace, start + k, row, elements[k]);
        k += 1;
    }
}

/// Fills the trace of one row from its inputs.
fn fill_row<R: Ring>(
    trace: &mut Vec<Vec<R>>,
    layout: &TraceLayout,
    constants: &TraceConstants<R>,
    row: usize,
)
    requires
        layout.fits(old(trace)@.len() as int),
        constants.cover(layout.shape),
        forall|c: int| 0 <= c < old(trace)@.len() ==> row < (#[trigger] old(trace)@[c])@.len(),
    ensures
        final(trace)@.len() == old(trace)@.len(),
        forall|c: int|
            0 <= c < old(trace)@.len() ==> (#[trigger] final(trace)@[c])@ == match layout.cell(
                *constants,
                row_inputs(old(trace)@, layout.inputs as int, row as int),
                c,
            ) {
                Some(v) => old(trace)@[c]@.update(row as int, v),
                None => old(trace)@[c]@,
            },
{
    let n_cols: usize = trace.len();
    let ghost before = trace@;
    let mut inputs = [R::zero(); POSEIDON_WIDTH];
    let mut j: usize = 0;
    while j < 16
        invariant
            j <= 16,
            layout.inputs + 16 <= n_cols,
            n_cols == trace.len(),
            before == trace@,
            forall|c: int| 0 <= c < before.len() ==> row < (#[trigger] before[c])@.len(),
            forall|k: int|
                0 <= k < j ==> #[trigger] inputs@[k] == before[layout.inputs + k]@[row as int],
        decreases 16 - j,
    {
        assert(row < before[layout.inputs + j]@.len());
        inputs[j] = trace[layout.inputs + j][row];
        j += 1;
    }
    let ghost input = row_inputs(before, layout.inputs as int, row as int);
    assert(inputs@ =~= input);
    let perm = constants.generate_trace_rows_for_perm(&layout.shape, inputs);
    write_states(trace, layout.beginning, &perm.beginning, row);
    write_elements(trace, layout.partial, perm.partial.as_slice(), row);
    write_states(trace, layout.ending, &perm.ending, row);
    write_elements(trace, layout.outputs, perm.outputs.as_slice(), row);
    proof {
        assert forall|c: int| 0 <= c < before.len() implies (#[trigger] trace@[c])@ == match layout.cell(
            *constants,
            input,
            c,
        ) {
            Some(v) => before[c]@.update(row as int, v),
            None => before[c]@,
        } by {
            let (kb, ke) = (c - layout.beginning, c - layout.ending);
            if 0 <= kb < layout.beginning_len() {
                assert(perm.beginning@[kb / 16]@ == constants.after_beginning(
                    layout.shape,
                    input,
                    (kb / 16 + 1) as nat,
                ));
            } else if 0 <= ke < layout.ending_len() {
                assert(perm.ending@[ke / 16]@ == constants.after_ending(
                    layout.shape,
                    input,
                    (ke / 16 + 1) as nat,
                ));
            } else if layout.partial <= c < layout.partial + layout.shape.n_partial {
                assert(perm.partial@[c - layout.partial] == first_cubed(
                    constants.after_partial(
                        layout.shape,
                        input,
                        (c - layout.partial) as nat,
                    ),
                )[0]);
            } else if layout.outputs <= c < layout.outputs + 8 {
                assert(perm.outputs@[c - layout.outputs] == constants.output(
                    layout.shape,
                    input,
                    c - layout.outputs,
                ));
            }
        }
    }
}

/// Fills the trace of permutations, one per row: brings all columns to the length of the longest
/// with zeros, then fills every row from its inputs.
pub fn fill_trace_poseidon_16<R: Ring>(
    trace: &mut Vec<Vec<R>>,
    layout: &TraceLayout,
    constants: &TraceConstants<R>,
)
    requires
        layout.fits(old(trace)@.len() as int),
        constants.cover(layout.shape),
    ensures
        ({
            let before = old(trace)@;
            let n = longest(before, before.len());
            let padded = |c: int| zero_filled(before[c]@, n);
            &&& final(trace)@.len() == before.len()
            &&& forall|c: int| 0 <= c < before.len() ==> (#[trigger] final(trace)@[c])@.len() == n
            &&& forall|c: int, q: int|
                0 <= c < before.len() && 0 <= q < n ==> #[trigger] final(trace)@[c]@[q]
                    == match layout.cell(
                    *constants,
                    Seq::new(16, |j: int| padded(layout.inputs + j)[q]),
                    c,
                ) {
                    Some(v) => v,
                    None => padded(c)[q],
                }
        }),
{
    let ghost before = trace@;
    let n_cols: usize = trace.len();
    let mut n: usize = 0;
    let mut c: usize = 0;
    while c < n_cols
        invariant
            c <= n_cols,
            n_cols == trace@.len(),
            before == trace@,
            n == longest(before, c as nat),
            forall|k: int| 0 <= k < c ==> (#[trigger] before[k])@.len() <= n,
        decreases n_cols - c,
    {
        if trace[c].len() > n {
            n = trace[c].len();
        }
        c += 1;
    }
    c = 0;
    while c < n_cols
        invariant
            c <= n_cols,
            n_cols == trace@.len(),
            before.len() == n_cols,
            forall|k: int| 0 <= k < n_cols ==> (#[trigger] before[k])@.len() <= n,
            forall|k: int|
                0 <= k < n_cols ==> (#[trigger] trace@[k])@ == if k < c {
                    zero_filled(before[k]@, n as nat)
                } else {
                    before[k]@
                },
        decreases n_cols - c,
    {
        assert(before[c as int]@.len() <= n);
        assert(trace@[c as int]@ == before[c as int]@);
        pad_column(&mut trace[c], n);
        c += 1;
    }
    let ghost start = trace@;
    let ghost padded = |c: int| zero_filled(before[c]@, n as nat);
    let mut row: usize = 0;
    while row < n
        invariant
            row <= n,
            start.len() == before.len(),
            trace@.len() == start.len(),
            layout.fits(start.len() as int),
            constants.cover(layout.shape),
            padded == (|c: int| zero_filled(before[c]@, n as nat)),
            forall|k: int| 0 <= k < start.len() ==> (#[trigger] start[k])@ == padded(k),
            forall|k: int| 0 <= k < start.len() ==> (#[trigger] trace@[k])@.len() == n,
            forall|k: int, q: int|
                0 <= k < start.len() && 0 <= q < n ==> #[trigger] trace@[k]@[q] == match (
                if q < row {
                    layout.cell(
                        *constants,
                        Seq::new(16, |j: int| padded(layout.inputs + j)[q]),
                        k,
                    )
                } else {
                    None
                }) {
                    Some(v) => v,
                    None => padded(k)[q],
                },
        decreases n - row,
    {
        let ghost prev = trace@;
        proof {
            assert(row_inputs(prev, layout.inputs as int, row as int) =~= Seq::new(
                16,
                |j: int| padded(layout.inputs + j)[row as int],
            ));
        }
        fill_row(trace, layout, constants, row);
        proof {
            assert forall|k: int, q: int| 0 <= k < start.len() && 0 <= q < n implies #[trigger]
                trace@[k]@[q] == match (if q < row + 1 {
                layout.cell(
                    *constants,
                    Seq::new(16, |j: int| padded(layout.inputs + j)[q]),
                    k,
                )
            } else {
                None
            }) {
                Some(v) => v,
                None => padded(k)[q],
            } by {
                assert(prev[k]@.len() == n);
                let old_cell = prev[k]@[q];
                if q == row {
                    assert(old_cell == padded(k)[q]);
                }
            }
        }
        row += 1;
    }
}

fn pad_column<R: Ring>(col: &mut Vec<R>, n: usize)
    requires
        old(col)@.len() <= n,
    ensures
        final(col)@ == zero_filled(old(col)@, n as nat),
{
    let ghost before = col@;
    assert(col@ =~= zero_filled(before, before.len()));
    while col.len() < n
        invariant
            before.len() <= col@.len() <= n,
            col@ == zero_filled(before, col@.len()),
        decreases n - col@.len(),
    {
        col.push(R::zero());
        assert(col@ =~= zero_filled(before, col@.len()));
    }
}

/// The first `m` rows of a matrix, each times its scalar, added up.
pub open spec fn combined_rows<R: Ring>(
    scalars: Seq<R>,
    rows: Seq<[R; POSEIDON_WIDTH]>,
    m: nat,
) -> Seq<R>
    decreases m,
{
    if m == 0 {
        Seq::new(16, |i: int| R::ring_zero())
    } else {
        vplus(
            combined_rows(scalars, rows, (m - 1) as nat),
            vscale(scalars[m - 1], rows[m - 1]@),
        )
    }
}

/// `product` is the product of two matrices: its rows are the combinations of the second's rows.
pub open spec fn is_mat_product<R: Ring>(
    product: Seq<[R; POSEIDON_WIDTH]>,
    a: Seq<[R; POSEIDON_WIDTH]>,
    b: Seq<[R; POSEIDON_WIDTH]>,
) -> bool {
    &&& product.len() == a.len()
    &&& forall|i: int|
        0 <= i < product.len() ==> (#[trigger] product[i])@ == combined_rows(a[i]@, b, 16)
}

proof fn lemma_combined_len<R: Ring>(scalars: Seq<R>, rows: Seq<[R; POSEIDON_WIDTH]>, m: nat)
    ensures
        combined_rows(scalars, rows, m).len() == 16,
    decreases m,
{
    if m > 0 {
        lemma_combined_len(scalars, rows, (m - 1) as nat);
    }
}

proof fn lemma_combined_product<R: Ring>(
    s: Seq<R>,
    scalars: Seq<R>,
    rows: Seq<[R; POSEIDON_WIDTH]>,
    m: nat,
)
    requires
        s.len() == 16,
        scalars.len() == 16,
        rows.len() == 16,
        m <= 16,
    ensures
        dot(s, combined_rows(scalars, rows, m)) == dot(
            mat_vec(rows, s).take(m as int),
            scalars.take(m as int),
        ),
    decreases m,
{
    let image = mat_vec(rows, s);
    if m == 0 {
        let z = combined_rows(scalars, rows, 0);
        assert forall|i: int| 0 <= i < 16 implies #[trigger] products(s, z)[i]
            == R::ring_zero() by {
            crate::ring::lemma_zero_times(s[i]);
        }
        lemma_total_zeros(products(s, z));
        assert(products(image.take(0), scalars.take(0)).len() == 0);
    } else {
        let p = (m - 1) as nat;
        lemma_combined_product(s, scalars, rows, p);
        lemma_combined_len(scalars, rows, p);
        let (c, r) = (scalars[m - 1], rows[m - 1]@);
        lemma_dot_plus_right(s, combined_rows(scalars, rows, p), vscale(c, r));
        lemma_dot_scale_right(c, s, r);
        let t = products(image.take(m as int), scalars.take(m as int));
        assert(t.drop_last() =~= products(image.take(p as int), scalars.take(p as int)));
        assert(t.last() == c.times(image[m - 1]));
        assert(total(t) == total(t.drop_last()).plus(t.last()));
    }
}

/// Where the fused matrix is the product of another with the linear layer's, and the bias that
/// matrix's image of constants, the transition is what it stands for: the linear layer that the
/// last initial round left out, the constants, then the other matrix.
pub proof fn law_fused_transition<R: Ring>(
    c: TraceConstants<R>,
    m_i: Seq<[R; POSEIDON_WIDTH]>,
    first_constants: Seq<R>,
    s: Seq<R>,
)
    requires
        s.len() == 16,
        m_i.len() == 16,
        first_constants.len() == 16,
        is_mat_product(c.fused@, m_i, c.mds@),
        c.bias@ == mat_vec(m_i, first_constants),
    ensures
        c.transition(s) == mat_vec(m_i, vplus(mat_vec(c.mds@, s), first_constants)),
{
    let image = mat_vec(c.mds@, s);
    let right = mat_vec(m_i, vplus(image, first_constants));
    assert forall|i: int| 0 <= i < 16 implies c.transition(s)[i] == right[i] by {
        let a = m_i[i]@;
        lemma_combined_product(s, a, c.mds@, 16);
        assert(image.take(16) =~= image && a.take(16) =~= a);
        assert(c.fused@[i]@ == combined_rows(a, c.mds@, 16));
        crate::sumcheck::vectors::lemma_dot_plus_left(image, first_constants, a);
    }
    assert(c.transition(s) =~= right);
}

} // verus!
