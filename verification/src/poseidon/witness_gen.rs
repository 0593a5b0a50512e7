//! The layered witness of many permutations: the inputs of every round, column by column.

use crate::field::Ring;
use crate::math::is_pow2;
use crate::poseidon::permutation::{add_constants, PoseidonConstants, POSEIDON_WIDTH};
use crate::sumcheck::vectors::vplus;
use vstd::prelude::*;

verus! {

/// The input layer and one layer behind each round.
pub const POSEIDON_16_N_GKR_LAYERS: usize = 29;

pub const POSEIDON_16_N_GKR_COLS: usize = 464;

/// The first column of the last layer.
pub const OUTPUT_LAYER_START: usize = 448;

/// The state of one permutation at layer `l`: what enters round `l` with its constants added, and
/// behind the last round the permuted state.
pub open spec fn gkr_layer<R: Ring>(c: PoseidonConstants<R>, input: Seq<R>, l: nat) -> Seq<R>
    decreases l,
{
    if l == 0 {
        vplus(input, c.of_round(0))
    } else {
        let linear = c.layers(gkr_layer(c, input, (l - 1) as nat), l - 1);
        if l < c.n_rounds() {
            vplus(linear, c.of_round(l as int))
        } else {
            linear
        }
    }
}

/// A row of the given columns.
pub open spec fn row_of<R>(columns: Seq<Vec<R>>, row: int) -> Seq<R> {
    Seq::new(columns.len(), |j: int| columns[j]@[row])
}

/// Every layer holds the state after its rounds, with the next constants added; the last holds
/// the permuted state.
pub proof fn law_layers_follow_permutation<R: Ring>(
    c: PoseidonConstants<R>,
    input: Seq<R>,
    l: nat,
)
    requires
        l <= c.n_rounds(),
        c.n_rounds() > 0,
    ensures
        gkr_layer(c, input, l) == if l < c.n_rounds() {
            vplus(c.after_rounds(input, l), c.of_round(l as int))
        } else {
            c.permuted(input)
        },
    decreases l,
{
    if l > 0 {
        law_layers_follow_permutation(c, input, (l - 1) as nat);
    }
}

fn read_row<R: Ring>(columns: &[Vec<R>], row: usize) -> (r: [R; POSEIDON_WIDTH])
    requires
        columns@.len() == 16,
        forall|j: int| 0 <= j < 16 ==> row < (#[trigger] columns@[j])@.len(),
    ensures
        r@ == row_of(columns@, row as int),
{
    let mut state = [R::zero(); POSEIDON_WIDTH];
    let mut j: usize = 0;
    while j < 16
        invariant
            j <= 16,
            columns@.len() == 16,
            forall|j: int| 0 <= j < 16 ==> row < (#[trigger] columns@[j])@.len(),
            forall|k: int| 0 <= k < j ==> #[trigger] state@[k] == columns@[k]@[row as int],
        decreases 16 - j,
    {
        assert(row < columns@[j as int]@.len());
        state[j] = columns[j][row];
        j += 1;
    }
    assert(state@ =~= row_of(columns@, row as int));
    state
}

/// The cell of layer `l` and element `j` belongs into column `16 l + j`.
spec fn cells_of<R: Ring>(c: PoseidonConstants<R>, input: Seq<R>, n: int) -> Seq<R> {
    Seq::new(n as nat, |k: int| gkr_layer(c, input, (k / 16) as nat)[k % 16])
}

fn push_state<R: Ring>(cells: &mut Vec<R>, state: &[R; POSEIDON_WIDTH])
    ensures
        final(cells)@ == old(cells)@ + state@,
{
    let mut j: usize = 0;
    assert(cells@ =~= old(cells)@ + state@.take(0));
    while j < 16
        invariant
            j <= 16,
            cells@ == old(cells)@ + state@.take(j as int),
        decreases 16 - j,
    {
        cells.push(state[j]);
        assert(cells@ =~= old(cells)@ + state@.take(j + 1));
        j += 1;
    }
    assert(state@.take(16) =~= state@);
}

/// All layers of one permutation.
fn row_cells<R: Ring>(constants: &PoseidonConstants<R>, input: [R; POSEIDON_WIDTH]) -> (r: Vec<R>)
    requires
        constants.n_rounds() == 28,
    ensures
        r@ == cells_of(*constants, input@, 464),
{
    let mut state = input;
    let n_initial: usize = constants.initial.len();
    let n_partial: usize = constants.partial.len();
    let first = constants.round_constants(0);
    add_constants(&mut state, &first);
    let mut cells: Vec<R> = Vec::new();
    push_state(&mut cells, &state);
    assert(cells@ =~= cells_of(*constants, input@, 16));
    let mut round: usize = 0;
    while round < 28
        invariant
            round <= 28,
            constants.n_rounds() == 28,
            n_initial == constants.initial@.len(),
            n_partial == constants.partial@.len(),
            state@ == gkr_layer(*constants, input@, round as nat),
            cells@ == cells_of(*constants, input@, 16 * round + 16),
        decreases 28 - round,
    {
        let is_full_round = round < n_initial || round >= n_initial + n_partial;
        if is_full_round {
            constants.full_layers(&mut state, Ghost(round as int));
        } else {
            constants.partial_layers(&mut state, Ghost(round as int));
        }
        if round < 27 {
            let next = constants.round_constants(round + 1);
            add_constants(&mut state, &next);
        }
        assert(state@ == gkr_layer(*constants, input@, (round + 1) as nat));
        let ghost before = cells@;
        push_state(&mut cells, &state);
        proof {
            let whole = cells_of(*constants, input@, 16 * (round + 1) + 16);
            assert forall|k: int| 0 <= k < whole.len() implies cells@[k] == whole[k] by {
                if k < before.len() {
                    assert(before[k] == cells_of(*constants, input@, 16 * round + 16)[k]);
                } else {
                    assert(k / 16 == round + 1);
                    assert(cells@[k] == state@[k - before.len()]);
                    assert(k % 16 == k - before.len());
                }
            }
            assert(cells@ =~= whole);
        }
        round += 1;
    }
    cells
}

/// Generates the witness of permutations whose inputs are the rows of sixteen columns: column
/// `16 l + j` holds element `j` of every permutation at layer `l`.
pub fn generate_gkr_witness<R: Ring>(
    input_columns: &[Vec<R>],
    constants: &PoseidonConstants<R>,
) -> (r: Vec<Vec<R>>)
    requires
        input_columns@.len() == 16,
        constants.n_rounds() == 28,
        is_pow2(input_columns@[0]@.len() as int),
        input_columns@[0]@.len() > 1,
        forall|j: int|
            0 <= j < 16 ==> (#[trigger] input_columns@[j])@.len() == input_columns@[0]@.len(),
    ensures
        r@.len() == POSEIDON_16_N_GKR_COLS,
        forall|k: int| 0 <= k < 464 ==> (#[trigger] r@[k])@.len() == input_columns@[0]@.len(),
        forall|l: int, j: int, row: int|
            0 <= l < POSEIDON_16_N_GKR_LAYERS && 0 <= j < 16 && 0 <= row
                < input_columns@[0]@.len() ==> r@[16 * l + j]@[row] == #[trigger] gkr_layer(
                *constants,
                row_of(input_columns@, row),
                l as nat,
            )[j],
{
    let n_rows: usize = input_columns[0].len();
    let mut layers: Vec<Vec<R>> = Vec::new();
    let mut k: usize = 0;
    while k < 464
        invariant
            k <= 464,
            layers@.len() == k,
            forall|i: int| 0 <= i < k ==> (#[trigger] layers@[i])@.len() == 0,
        decreases 464 - k,
    {
        layers.push(Vec::new());
        k += 1;
    }
    let mut row: usize = 0;
    while row < n_rows
        invariant
            row <= n_rows,
            n_rows == input_columns@[0]@.len(),
            input_columns@.len() == 16,
            constants.n_rounds() == 28,
            forall|j: int| 0 <= j < 16 ==> (#[trigger] input_columns@[j])@.len() == n_rows,
            layers@.len() == 464,
            forall|i: int| 0 <= i < 464 ==> (#[trigger] layers@[i])@.len() == row,
            forall|i: int, q: int|
                0 <= i < 464 && 0 <= q < row ==> #[trigger] layers@[i]@[q] == cells_of(
                    *constants,
                    row_of(input_columns@, q),
                    464,
                )[i],
        decreases n_rows - row,
    {
        let input = read_row(input_columns, row);
        let cells = row_cells(constants, input);
        k = 0;
        while k < 464
            invariant
                k <= 464,
                layers@.len() == 464,
                cells@.len() == 464,
                cells@ == cells_of(*constants, row_of(input_columns@, row as int), 464),
                forall|i: int|
                    0 <= i < 464 ==> (#[trigger] layers@[i])@.len() == if i < k {
                        row + 1
                    } else {
                        row as int
                    },
                forall|i: int, q: int|
                    0 <= i < 464 && 0 <= q < row ==> #[trigger] layers@[i]@[q] == cells_of(
                        *constants,
                        row_of(input_columns@, q),
                        464,
                    )[i],
                forall|i: int| 0 <= i < k ==> (#[trigger] layers@[i])@[row as int] == cells@[i],
            decreases 464 - k,
        {
            layers[k].push(cells[k]);
            k += 1;
        }
        row += 1;
    }
    proof {
        assert forall|l: int, j: int, q: int|
            0 <= l < 29 && 0 <= j < 16 && 0 <= q < n_rows implies layers@[16 * l + j]@[q]
            == #[trigger] gkr_layer(*constants, row_of(input_columns@, q), l as nat)[j] by {
            let i = 16 * l + j;
            assert(layers@[i]@[q] == cells_of(*constants, row_of(input_columns@, q), 464)[i]);
            assert(i / 16 == l && i % 16 == j);
        }
    }
    layers
}

/// The first half of every permutation's output plus its input.
pub fn compressed_outputs_from_gkr_witness<R: Ring>(
    gkr_witness: &[Vec<R>],
    input_columns: &[Vec<R>],
) -> (r: Vec<Vec<R>>)
    requires
        input_columns@.len() >= 8,
        gkr_witness@.len() >= OUTPUT_LAYER_START + 8,
        forall|i: int|
            0 <= i < 8 ==> (#[trigger] input_columns@[i])@.len() >= input_columns@[0]@.len(),
        forall|i: int|
            OUTPUT_LAYER_START <= i < OUTPUT_LAYER_START + 8 ==> (
            #[trigger] gkr_witness@[i])@.len() >= input_columns@[0]@.len(),
    ensures
        r@.len() == 8,
        forall|i: int| 0 <= i < 8 ==> (#[trigger] r@[i])@.len() == input_columns@[0]@.len(),
        forall|i: int, row: int|
            0 <= i < 8 && 0 <= row < input_columns@[0]@.len() ==> #[trigger] r@[i]@[row]
                == gkr_witness@[OUTPUT_LAYER_START + i]@[row].plus(input_columns@[i]@[row]),
{
    let n_rows: usize = input_columns[0].len();
    let mut outputs: Vec<Vec<R>> = Vec::new();
    let mut i: usize = 0;
    while i < 8
        invariant
            i <= 8,
            n_rows == input_columns@[0]@.len(),
            input_columns@.len() >= 8,
            gkr_witness@.len() >= OUTPUT_LAYER_START + 8,
            forall|i: int| 0 <= i < 8 ==> (#[trigger] input_columns@[i])@.len() >= n_rows,
            forall|i: int|
                OUTPUT_LAYER_START <= i < OUTPUT_LAYER_START + 8 ==> (
                #[trigger] gkr_witness@[i])@.len() >= n_rows,
            outputs@.len() == i,
            forall|k: int| 0 <= k < i ==> (#[trigger] outputs@[k])@.len() == n_rows,
            forall|k: int, row: int|
                0 <= k < i && 0 <= row < n_rows ==> #[trigger] outputs@[k]@[row]
                    == gkr_witness@[OUTPUT_LAYER_START + k]@[row].plus(input_columns@[k]@[row]),
        decreases 8 - i,
    {
        let out_col = &gkr_witness[OUTPUT_LAYER_START + i];
        let in_col = &input_columns[i];
        let mut col: Vec<R> = Vec::new();
        let mut row: usize = 0;
        while row < n_rows
            invariant
                row <= n_rows,
                out_col@.len() >= n_rows,
                in_col@.len() >= n_rows,
                col@.len() == row,
                forall|q: int| 0 <= q < row ==> #[trigger] col@[q] == out_col@[q].plus(in_col@[q]),
            decreases n_rows - row,
        {
            col.push(out_col[row].add(in_col[row]));
            row += 1;
        }
        outputs.push(col);
        i += 1;
    }
    outputs
}

/// The outputs taken from a witness are the first half of the permuted inputs plus the inputs.
pub proof fn law_witness_outputs_compress<R: Ring>(
    c: PoseidonConstants<R>,
    columns: Seq<Vec<R>>,
    witness: Seq<Vec<R>>,
    row: int,
    i: int,
)
    requires
        c.n_rounds() == 28,
        columns.len() == 16,
        0 <= i < 8,
        forall|l: int, j: int|
            0 <= l < POSEIDON_16_N_GKR_LAYERS && 0 <= j < 16 ==> witness[16 * l + j]@[row]
                == #[trigger] gkr_layer(c, row_of(columns, row), l as nat)[j],
    ensures
        witness[OUTPUT_LAYER_START + i]@[row].plus(columns[i]@[row]) == vplus(
            c.permuted(row_of(columns, row)),
            row_of(columns, row),
        )[i],
{
    let input = row_of(columns, row);
    law_layers_follow_permutation(c, input, 28);
    assert(witness[16 * 28 + i]@[row] == gkr_layer(c, input, 28)[i]);
    assert(c.permuted(input).len() == 16);
}

} // verus!
