//! The constrained Blake3 precompile table: its bus, its padding, its execution and the
//! constraints of its rows.

use crate::blake3_hash::{blake3_compress, compress_spec};
use crate::field::{kb, KoalaBear, Ring};
use crate::memory::{
    accepts_all, get_slice, set_slice, slice_read, stopped_at_refusal, stored_all, MemoryAccess,
    MemoryLookup, RunnerError,
};
use crate::tables::constrained_air::{
    bool_constraint, bool_expr, constraints_per_g, g_function_outputs, g_outputs,
    quarter_round_constraints, quarter_round_function_constraints, rotation_constraints,
    selected,
};
use crate::tables::constrained_cols::{
    col_qr, col_qr_indices, diag_qr, diag_qr_indices, down_columns, g_col, g_column,
    output_state_col, output_state_column, COL_FLAG_ACTIVE, COL_G_START, COL_IS_COLUMN_QR,
    COL_IS_FIRST_ROW, COL_IS_LAST_ROW, COL_LEFT_ADDR, COL_OUTPUT_STATE_START, COL_RESULT_ADDR,
    COL_RIGHT_ADDR, COL_V_INDEX_LEFT, COL_V_PRECOMPILE_DATA, G_MX_ADDR, G_MX_VALUE, G_MY_ADDR,
    G_MY_VALUE, G_XOR2_ADDRS, G_XOR2_BYTES, G_XOR4_ADDRS, G_XOR4_BYTES, G_XOR6_ADDRS, G_XOR6_BYTES,
    G_XOR8_ADDRS, G_XOR8_BYTES, N_COMMITTED_COLS, N_ROT_COLS, N_TOTAL_COLS,
};
use crate::tables::constrained_trace::{
    first_undefined, generate_compression_trace, holds_digest, trace_inputs, DIGEST_LEN,
};
use crate::tables::table_trait::{
    bus_interaction, interactions, lookup_views, memory_interaction, memory_push, Bus, BusData,
    BusDirection, BusInteraction, BusMultiplicity, BusView, ColIndex, InteractionView,
    LookupIntoMemory, LookupView, Table, TableT, TableTrace,
};
use crate::wrappers::ToUsize;
use vstd::prelude::*;

verus! {

pub const CONSTRAINED_BLAKE3_PRECOMPILE_DATA: usize = 7;

pub const CONSTRAINED_BLAKE3_NAME: &'static str = "blake3_compress_constrained";

/// Field elements of half a digest.
pub const HALF_DIGEST_LEN: usize = 4;

/// Where the byte-XOR table starts in memory; zero while there is none.
#[derive(Clone, Copy, PartialEq, Eq, Structural, Debug)]
pub struct XorTableBase {
    pub addr: usize,
}

/// Records where the byte-XOR table starts.
pub fn set_xor_table_base(base: &mut XorTableBase, addr: usize)
    ensures
        final(base).addr == addr,
{
    base.addr = addr;
}

/// The arguments a Blake3 precompile call fixes at compile time.
#[derive(Clone, Copy, PartialEq, Eq, Structural, Debug)]
pub enum PrecompileCompTimeArgs {
    Blake3Compress {
        /// Only the first half of the digest is written.
        half_output: bool,
        /// The address of the first half of the left operand, where it is fixed.
        hardcoded_offset_left: Option<usize>,
    },
}

/// The address of the first half of the left operand.
pub open spec fn left_first(args: PrecompileCompTimeArgs, a: int) -> int {
    match args {
        PrecompileCompTimeArgs::Blake3Compress { hardcoded_offset_left, .. } => match hardcoded_offset_left {
            Some(o) => o as int,
            None => a,
        },
    }
}

/// The address of the second half of the left operand.
pub open spec fn left_second(args: PrecompileCompTimeArgs, a: int) -> int {
    match args {
        PrecompileCompTimeArgs::Blake3Compress { hardcoded_offset_left, .. } => match hardcoded_offset_left {
            Some(_) => a,
            None => a + HALF_DIGEST_LEN,
        },
    }
}

pub open spec fn half_output(args: PrecompileCompTimeArgs) -> bool {
    match args {
        PrecompileCompTimeArgs::Blake3Compress { half_output, .. } => half_output,
    }
}

/// The addresses of a call leave room for the operands and the result.
pub open spec fn addresses_fit(args: PrecompileCompTimeArgs, a: int, b: int, res: int) -> bool {
    left_first(args, a) + 8 <= usize::MAX && left_second(args, a) + 8 <= usize::MAX && b + 8
        <= usize::MAX && res + 8 <= usize::MAX && a + 4 <= usize::MAX
}

/// Memory holds `len` cells from `addr` on.
pub open spec fn holds<M: MemoryAccess>(memory: M, addr: int, len: int) -> bool {
    forall|i: int| 0 <= i < len ==> #[trigger] memory.lookup(addr + i) is Some
}

/// The cells from `addr` on.
pub open spec fn cells<M: MemoryAccess>(memory: M, addr: int, len: int) -> Seq<KoalaBear> {
    Seq::new(len as nat, |i: int| memory.lookup(addr + i)->0)
}

/// Memory holds both operands of a call.
pub open spec fn operands_defined<M: MemoryAccess>(
    memory: M,
    args: PrecompileCompTimeArgs,
    a: int,
    b: int,
) -> bool {
    holds(memory, left_first(args, a), 4) && holds(memory, left_second(args, a), 4) && holds(
        memory,
        b,
        8,
    )
}

/// The left operand of a call.
pub open spec fn left_operand<M: MemoryAccess>(
    memory: M,
    args: PrecompileCompTimeArgs,
    a: int,
) -> Seq<KoalaBear> {
    cells(memory, left_first(args, a), 4) + cells(memory, left_second(args, a), 4)
}

/// The digest, or its first half.
pub open spec fn output_part(output: Seq<KoalaBear>, half: bool) -> Seq<KoalaBear> {
    if half {
        output.take(4)
    } else {
        output
    }
}

/// What a call writes.
pub open spec fn call_output<M: MemoryAccess>(
    memory: M,
    args: PrecompileCompTimeArgs,
    a: int,
    b: int,
) -> Seq<KoalaBear> {
    output_part(
        compress_spec(left_operand(memory, args, a), cells(memory, b, 8)),
        half_output(args),
    )
}

/// Memory after a call: the output stands at `res`, and the other cells stay.
pub open spec fn written<M: MemoryAccess>(
    before: M,
    after: M,
    res: int,
    output: Seq<KoalaBear>,
) -> bool {
    &&& forall|j: int| 0 <= j < output.len() ==> #[trigger] after.lookup(res + j) == Some(output[j])
    &&& forall|addr: int|
        !(res <= addr < res + output.len()) && before.lookup(addr) is Some
            ==> #[trigger] after.lookup(addr) == before.lookup(addr)
}

/// The operands of a call, read from memory, and its digest.
pub(crate) struct CallOperands {
    pub(crate) left: [KoalaBear; 8],
    pub(crate) right: [KoalaBear; 8],
    pub(crate) output: [KoalaBear; 8],
}

impl CallOperands {
    pub(crate) open spec fn read_from<M: MemoryAccess>(
        self,
        memory: M,
        args: PrecompileCompTimeArgs,
        a: int,
        b: int,
    ) -> bool {
        &&& self.left@ == left_operand(memory, args, a)
        &&& self.right@ == cells(memory, b, 8)
        &&& self.output@ == compress_spec(self.left@, self.right@)
    }
}

/// The first address at which a read of `len` cells finds nothing, `e` being it.
pub open spec fn first_gap<M: MemoryAccess>(memory: M, addr: int, len: int, e: RunnerError) -> bool {
    match e {
        RunnerError::UndefinedMemory(x) => {
            &&& addr <= x < addr + len
            &&& memory.lookup(x as int) is None
            &&& holds(memory, addr, x - addr)
        },
    }
}

/// The error of a call whose operands are not all in memory: the first cell that is missing, the
/// halves of the left operand being read before the right one.
pub open spec fn operand_error<M: MemoryAccess>(
    memory: M,
    args: PrecompileCompTimeArgs,
    a: int,
    b: int,
    e: RunnerError,
) -> bool {
    if !holds(memory, left_first(args, a), 4) {
        first_gap(memory, left_first(args, a), 4, e)
    } else if !holds(memory, left_second(args, a), 4) {
        first_gap(memory, left_second(args, a), 4, e)
    } else {
        first_gap(memory, b, 8, e)
    }
}

proof fn lemma_slice_read<M: MemoryAccess>(
    memory: M,
    addr: int,
    len: int,
    r: Result<Vec<KoalaBear>, RunnerError>,
)
    requires
        slice_read(memory, addr, len, r),
        0 <= len,
    ensures
        r is Ok <==> holds(memory, addr, len),
        r is Ok ==> r->Ok_0@ == cells(memory, addr, len),
        r is Err ==> first_gap(memory, addr, len, r->Err_0),
{
    match r {
        Ok(v) => {
            assert forall|i: int| 0 <= i < len implies #[trigger] memory.lookup(addr + i)
                == Some(v@[i]) by {}
            assert(v@ =~= cells(memory, addr, len));
        },
        Err(RunnerError::UndefinedMemory(x)) => {
            assert(memory.lookup(addr + (x - addr)) is None);
        },
    }
}

/// Reads the operands of a call and hashes them.
pub(crate) fn read_operands<M: MemoryAccess>(
    memory: &M,
    args: PrecompileCompTimeArgs,
    arg_a: usize,
    arg_b: usize,
) -> (r: Result<CallOperands, RunnerError>)
    requires
        left_first(args, arg_a as int) + 8 <= usize::MAX,
        left_second(args, arg_a as int) + 8 <= usize::MAX,
        arg_b + 8 <= usize::MAX,
        arg_a + 4 <= usize::MAX,
    ensures
        r is Ok <==> operands_defined(*memory, args, arg_a as int, arg_b as int),
        match r {
            Ok(call) => call.read_from(*memory, args, arg_a as int, arg_b as int),
            Err(e) => operand_error(*memory, args, arg_a as int, arg_b as int, e),
        },
{
    let PrecompileCompTimeArgs::Blake3Compress { half_output: _, hardcoded_offset_left } = args;
    let first_addr: usize = match hardcoded_offset_left {
        Some(o) => o,
        None => arg_a,
    };
    let second_addr: usize = match hardcoded_offset_left {
        Some(_) => arg_a,
        None => arg_a + HALF_DIGEST_LEN,
    };
    let first_read = get_slice(memory, first_addr, HALF_DIGEST_LEN);
    proof {
        lemma_slice_read(*memory, first_addr as int, 4, first_read);
    }
    let first = match first_read {
        Ok(v) => v,
        Err(e) => {
            return Err(e);
        },
    };
    let second_read = get_slice(memory, second_addr, HALF_DIGEST_LEN);
    proof {
        lemma_slice_read(*memory, second_addr as int, 4, second_read);
    }
    let second = match second_read {
        Ok(v) => v,
        Err(e) => {
            return Err(e);
        },
    };
    let right_read = get_slice(memory, arg_b, DIGEST_LEN);
    proof {
        lemma_slice_read(*memory, arg_b as int, 8, right_read);
    }
    let right_cells = match right_read {
        Ok(v) => v,
        Err(e) => {
            return Err(e);
        },
    };
    let mut left = [KoalaBear::zero(); 8];
    let mut right = [KoalaBear::zero(); 8];
    let mut i: usize = 0;
    while i < 4
        invariant
            i <= 4,
            first@.len() == 4,
            second@.len() == 4,
            right_cells@.len() == 8,
            forall|j: int| 0 <= j < i ==> #[trigger] left@[j] == first@[j],
            forall|j: int| 4 <= j < 4 + i ==> #[trigger] left@[j] == second@[j - 4],
            forall|j: int| 0 <= j < i ==> #[trigger] right@[j] == right_cells@[j],
            forall|j: int| 4 <= j < 4 + i ==> #[trigger] right@[j] == right_cells@[j],
        decreases 4 - i,
    {
        left[i] = first[i];
        left[HALF_DIGEST_LEN + i] = second[i];
        right[i] = right_cells[i];
        right[HALF_DIGEST_LEN + i] = right_cells[HALF_DIGEST_LEN + i];
        i += 1;
    }
    assert(left@ =~= left_operand(*memory, args, arg_a as int));
    assert(right@ =~= cells(*memory, arg_b as int, 8));
    let output = blake3_compress(&left, &right);
    Ok(CallOperands { left, right, output })
}

/// Writes the digest of a call, or its first half.
pub(crate) fn write_output<M: MemoryAccess>(
    memory: &mut M,
    res_addr: usize,
    output: &[KoalaBear; 8],
    half: bool,
) -> (r: Result<(), RunnerError>)
    requires
        res_addr + 8 <= usize::MAX,
    ensures
        r is Ok <==> accepts_all::<M>(
            old(memory).contents(),
            res_addr as int,
            output_part(output@, half),
        ),
        r is Ok ==> {
            &&& final(memory).contents() == stored_all::<M>(
                old(memory).contents(),
                res_addr as int,
                output_part(output@, half),
            )
            &&& written(
                *old(memory),
                *final(memory),
                res_addr as int,
                output_part(output@, half),
            )
        },
        r is Err ==> stopped_at_refusal::<M>(
            old(memory).contents(),
            final(memory).contents(),
            res_addr as int,
            output_part(output@, half),
        ),
{
    if half {
        let first = [output[0], output[1], output[2], output[3]];
        assert(first@ =~= output@.take(4));
        set_slice(memory, res_addr, first.as_slice())
    } else {
        set_slice(memory, res_addr, output.as_slice())
    }
}

/// The constrained table. With `BUS`, its rows also take part in the bus argument.
#[derive(Clone, Copy, Debug)]
pub struct ConstrainedBlake3Precompile<const BUS: bool> {
    pub table: Table,
    pub xor_table_base: usize,
}

/// Offsets of the XOR results and of their lookup addresses.
pub open spec fn xor_offsets(k: int) -> (int, int) {
    if k == 0 {
        (G_XOR2_ADDRS as int, G_XOR2_BYTES as int)
    } else if k == 1 {
        (G_XOR4_ADDRS as int, G_XOR4_BYTES as int)
    } else if k == 2 {
        (G_XOR6_ADDRS as int, G_XOR6_BYTES as int)
    } else {
        (G_XOR8_ADDRS as int, G_XOR8_BYTES as int)
    }
}

/// The columns with the address and the value of a row's lookup `i` into memory. First come two
/// message words for each G-function, then four bytes for each of its four XORs.
pub open spec fn lookup_columns(i: int) -> (int, int) {
    if i < 8 {
        if i % 2 == 0 {
            (g_column(i / 2, G_MX_ADDR as int), g_column(i / 2, G_MX_VALUE as int))
        } else {
            (g_column(i / 2, G_MY_ADDR as int), g_column(i / 2, G_MY_VALUE as int))
        }
    } else {
        let x = i - 8;
        let offsets = xor_offsets((x / 4) % 4);
        (g_column(x / 16, offsets.0 + x % 4), g_column(x / 16, offsets.1 + x % 4))
    }
}

/// A row's lookups into memory. Without a byte-XOR table there are only those of the message.
pub open spec fn n_lookups(xor_table_base: usize) -> nat {
    if xor_table_base == 0 {
        8
    } else {
        72
    }
}

/// The pull by which the execution table calls the precompile.
pub open spec fn precompile_pull() -> InteractionView {
    InteractionView {
        direction: BusDirection::Pull,
        multiplicity: BusMultiplicity::Column(COL_IS_FIRST_ROW),
        domainsep: BusData::Constant(CONSTRAINED_BLAKE3_PRECOMPILE_DATA),
        data: seq![
            BusData::Column(COL_LEFT_ADDR),
            BusData::Column(COL_RIGHT_ADDR),
            BusData::Column(COL_RESULT_ADDR),
        ],
    }
}

/// All interactions of a row: the precompile pull and the lookups.
pub open spec fn table_interactions(xor_table_base: usize) -> Seq<InteractionView> {
    seq![precompile_pull()] + Seq::new(
        n_lookups(xor_table_base),
        |i: int|
            memory_push(
                seq![
                    BusData::Column(lookup_columns(i).0 as usize),
                    BusData::Column(lookup_columns(i).1 as usize),
                ],
            ),
    )
}

/// The bus of the table. The discriminator comes last.
pub open spec fn constrained_bus() -> BusView {
    BusView {
        direction: BusDirection::Pull,
        selector: COL_IS_FIRST_ROW,
        data: seq![
            BusData::Column(COL_LEFT_ADDR),
            BusData::Column(COL_RIGHT_ADDR),
            BusData::Column(COL_RESULT_ADDR),
            BusData::Constant(CONSTRAINED_BLAKE3_PRECOMPILE_DATA),
        ],
    }
}

/// The lookups of a row, one cell each.
pub open spec fn constrained_lookups(xor_table_base: usize) -> Seq<LookupView> {
    Seq::new(
        n_lookups(xor_table_base),
        |i: int|
            LookupView {
                index: lookup_columns(i).0 as usize,
                values: seq![lookup_columns(i).1 as usize],
                address_offset: 0,
                conditional_inactive: Seq::empty(),
                computed_address: None,
            },
    )
}

/// The columns with the address and the value of lookup `i`.
fn lookup_cols(i: usize) -> (r: (ColIndex, ColIndex))
    requires
        i < 72,
    ensures
        r.0 == lookup_columns(i as int).0,
        r.1 == lookup_columns(i as int).1,
{
    if i < 8 {
        let g: usize = i / 2;
        if i % 2 == 0 {
            (g_col(g, G_MX_ADDR), g_col(g, G_MX_VALUE))
        } else {
            (g_col(g, G_MY_ADDR), g_col(g, G_MY_VALUE))
        }
    } else {
        let x: usize = i - 8;
        let g: usize = x / 16;
        let k: usize = (x / 4) % 4;
        let byte: usize = x % 4;
        let (addrs, bytes): (usize, usize) = if k == 0 {
            (G_XOR2_ADDRS, G_XOR2_BYTES)
        } else if k == 1 {
            (G_XOR4_ADDRS, G_XOR4_BYTES)
        } else if k == 2 {
            (G_XOR6_ADDRS, G_XOR6_BYTES)
        } else {
            (G_XOR8_ADDRS, G_XOR8_BYTES)
        };
        (g_col(g, addrs + byte), g_col(g, bytes + byte))
    }
}

/// The cells of a padding row.
pub open spec fn constrained_padding(zero_vec_ptr: int, xor_table_base: int) -> Seq<KoalaBear> {
    Seq::new(
        N_TOTAL_COLS as nat,
        |c: int|
            if c == COL_LEFT_ADDR || c == COL_RIGHT_ADDR || c == COL_RESULT_ADDR || c
                == COL_V_INDEX_LEFT {
                kb(zero_vec_ptr)
            } else if c == COL_V_PRECOMPILE_DATA {
                kb(CONSTRAINED_BLAKE3_PRECOMPILE_DATA as int)
            } else if COL_G_START <= c < COL_OUTPUT_STATE_START {
                let o = (c - COL_G_START) % 72;
                if o == G_MX_ADDR || o == G_MY_ADDR {
                    kb(zero_vec_ptr)
                } else if G_XOR2_ADDRS <= o < G_XOR2_ADDRS + 4 || G_XOR4_ADDRS <= o < G_XOR4_ADDRS
                    + 4 || G_XOR6_ADDRS <= o < G_XOR6_ADDRS + 4 || G_XOR8_ADDRS <= o < G_XOR8_ADDRS
                    + 4 {
                    kb(xor_table_base)
                } else {
                    kb(0)
                }
            } else {
                kb(0)
            },
    )
}

/// What the evaluation of a row hands on: the values declared to the bus argument, the bus check
/// where the table takes part in it, and the constraint expressions.
pub struct RowEvaluation<R> {
    pub bus_selector: R,
    /// The values on the bus: the table's discriminator and the three addresses.
    pub bus_data: [R; 4],
    /// Whether the selector and the data enter the bus argument as a constraint.
    pub on_bus: bool,
    pub constraints: Vec<R>,
}

/// The constraint that output word `w` of G-function `g` stands in its output state column `l`.
/// Words `b`, `c` and `d` stand in different columns after a column and a diagonal
/// quarter-round.
#[verifier::opaque]
pub open spec fn output_constraint<R: Ring>(up: Seq<R>, rot: Seq<R>, g: int, w: int, l: int) -> R {
    let out = if l == 0 {
        g_outputs(up, rot, g)[w].0
    } else {
        g_outputs(up, rot, g)[w].1
    };
    let is_column_qr = up[COL_IS_COLUMN_QR as int];
    let col = if w == 0 {
        col_qr(g).0
    } else if w == 1 {
        col_qr(g).1
    } else if w == 2 {
        col_qr(g).2
    } else {
        col_qr(g).3
    };
    let diag = if w == 0 {
        diag_qr(g).0
    } else if w == 1 {
        diag_qr(g).1
    } else if w == 2 {
        diag_qr(g).2
    } else {
        diag_qr(g).3
    };
    if w == 0 {
        up[output_state_column(col, l)].minus(out)
    } else {
        selected(
            is_column_qr,
            up[output_state_column(col, l)].minus(out),
            up[output_state_column(diag, l)].minus(out),
        )
    }
}

/// The constraints of G-function `g` within a row, those of its rotation columns, and those of
/// the output state.
#[verifier::opaque]
pub open spec fn g_row_constraints<R: Ring>(up: Seq<R>, rot: Seq<R>, g: int, base: R) -> Seq<R> {
    quarter_round_constraints(up, rot, g, base) + rotation_constraints(up, rot, g)
        + Seq::new(8, |i: int| output_constraint(up, rot, g, i / 2, i % 2))
}

pub open spec fn g_rows_constraints<R: Ring>(up: Seq<R>, rot: Seq<R>, k: int, base: R) -> Seq<R>
    decreases k,
{
    if k <= 0 {
        Seq::empty()
    } else {
        g_rows_constraints(up, rot, k - 1, base) + g_row_constraints(up, rot, k - 1, base)
    }
}

/// The constraint that column `i` of those that flow to the next row holds there what this row
/// hands on, unless this is the last row of a compression or a padding row.
#[verifier::opaque]
pub open spec fn down_constraint<R: Ring>(up: Seq<R>, down: Seq<R>, i: int) -> R {
    let source = if i < 32 {
        up[COL_OUTPUT_STATE_START + i]
    } else if i == 32 {
        up[COL_LEFT_ADDR as int]
    } else if i == 33 {
        up[COL_RIGHT_ADDR as int]
    } else {
        up[COL_RESULT_ADDR as int]
    };
    up[COL_FLAG_ACTIVE as int].times(R::ring_one().minus(up[COL_IS_LAST_ROW as int])).times(
        down[i].minus(source),
    )
}

/// All constraints of a row. `up` holds its committed columns, `rot` its rotation columns, and `down`
/// the columns of the next row that flow into it; where there is no next row it is empty.
#[verifier::opaque]
pub open spec fn row_constraints<R: Ring>(
    up: Seq<R>,
    rot: Seq<R>,
    down: Seq<R>,
    base: R,
) -> Seq<R> {
    seq![
        bool_constraint(up[COL_FLAG_ACTIVE as int]),
        bool_constraint(up[COL_IS_FIRST_ROW as int]),
        bool_constraint(up[COL_IS_LAST_ROW as int]),
        bool_constraint(up[COL_IS_COLUMN_QR as int]),
    ] + g_rows_constraints(up, rot, 4, base) + if down.len() == 0 {
        Seq::empty()
    } else {
        Seq::new(35, |i: int| down_constraint(up, down, i))
    }
}

/// A row has four control bits and 41 constraints for each G-function; 35 more link it to the
/// next row.
pub proof fn law_constraint_count<R: Ring>(up: Seq<R>, rot: Seq<R>, down: Seq<R>, base: R)
    ensures
        row_constraints(up, rot, down, base).len() == if down.len() == 0 {
            168
        } else {
            203nat
        },
{
    reveal(row_constraints);
    reveal_with_fuel(g_rows_constraints, 5);
    lemma_g_row_len(up, rot, 0, base);
    lemma_g_row_len(up, rot, 1, base);
    lemma_g_row_len(up, rot, 2, base);
    lemma_g_row_len(up, rot, 3, base);
}

/// The first interaction of a row is the table's bus.
pub proof fn law_bus_comes_first(xor_table_base: usize)
    ensures
        table_interactions(xor_table_base)[0] == bus_interaction(constrained_bus()),
{
    assert(constrained_bus().data.drop_last() =~= precompile_pull().data);
}

pub proof fn lemma_g_row_len<R: Ring>(up: Seq<R>, rot: Seq<R>, g: int, base: R)
    ensures
        g_row_constraints(up, rot, g, base).len() == 41,
{
    reveal(g_row_constraints);
    reveal(quarter_round_constraints);
}

impl<const BUS: bool> TableT for ConstrainedBlake3Precompile<BUS> {
    open spec fn lookups_spec(&self) -> Seq<LookupView> {
        constrained_lookups(self.xor_table_base)
    }

    open spec fn bus_spec(&self) -> BusView {
        constrained_bus()
    }

    open spec fn total_columns(&self) -> int {
        N_TOTAL_COLS as int
    }

    open spec fn padding_cells(
        &self,
        zero_vec_ptr: int,
        null_hash_ptr: int,
        null_blake3_hash_ptr: int,
    ) -> Seq<KoalaBear> {
        constrained_padding(zero_vec_ptr, self.xor_table_base as int)
    }

    open spec fn pads(&self, zero_vec_ptr: int) -> bool {
        true
    }

    open spec fn interactions_spec(&self) -> Seq<InteractionView> {
        table_interactions(self.xor_table_base)
    }

    open spec fn offsets_fit(&self) -> bool {
        true
    }

    open spec fn execution_table(&self) -> bool {
        false
    }

    open spec fn position(&self) -> Table {
        self.table
    }

    open spec fn label(&self) -> Seq<char> {
        CONSTRAINED_BLAKE3_NAME@
    }

    fn name(&self) -> (r: &'static str) {
        CONSTRAINED_BLAKE3_NAME
    }

    /// The table's position: that of the Blake3 table it stands for.
    fn table(&self) -> (r: Table) {
        self.table
    }

    fn lookups(&self) -> (r: Vec<LookupIntoMemory>) {
        let ghost all = constrained_lookups(self.xor_table_base);
        let n: usize = if self.xor_table_base == 0 {
            8
        } else {
            72
        };
        let mut out: Vec<LookupIntoMemory> = Vec::new();
        let mut i: usize = 0;
        while i < n
            invariant
                i <= n <= 72,
                n == n_lookups(self.xor_table_base),
                all == constrained_lookups(self.xor_table_base),
                out@.len() == i,
                forall|j: int| 0 <= j < i ==> (#[trigger] out@[j])@ == all[j],
            decreases n - i,
        {
            let (index, value) = lookup_cols(i);
            let values = vec![value];
            let conditional_inactive: Vec<ColIndex> = Vec::new();
            assert(values@ =~= seq![value]);
            assert(conditional_inactive@ =~= Seq::empty());
            out.push(
                LookupIntoMemory {
                    index,
                    values,
                    address_offset: 0,
                    conditional_inactive,
                    computed_address: None,
                },
            );
            i += 1;
        }
        assert(lookup_views(out@) =~= all);
        out
    }

    fn bus(&self) -> (r: Bus) {
        let data = vec![
            BusData::Column(COL_LEFT_ADDR),
            BusData::Column(COL_RIGHT_ADDR),
            BusData::Column(COL_RESULT_ADDR),
            BusData::Constant(CONSTRAINED_BLAKE3_PRECOMPILE_DATA),
        ];
        assert(data@ =~= constrained_bus().data);
        Bus { direction: BusDirection::Pull, selector: COL_IS_FIRST_ROW, data }
    }

    /// The lookups read their addresses from columns of their own.
    fn bus_interactions(&self) -> (r: Vec<BusInteraction>) {
        let ghost all = table_interactions(self.xor_table_base);
        let mut buses: Vec<BusInteraction> = Vec::new();
        let data = vec![
            BusData::Column(COL_LEFT_ADDR),
            BusData::Column(COL_RIGHT_ADDR),
            BusData::Column(COL_RESULT_ADDR),
        ];
        assert(data@ =~= precompile_pull().data);
        buses.push(
            BusInteraction {
                direction: BusDirection::Pull,
                multiplicity: BusMultiplicity::Column(COL_IS_FIRST_ROW),
                domainsep: BusData::Constant(CONSTRAINED_BLAKE3_PRECOMPILE_DATA),
                data,
            },
        );
        let n: usize = if self.xor_table_base == 0 {
            8
        } else {
            72
        };
        let mut i: usize = 0;
        while i < n
            invariant
                i <= n <= 72,
                n == n_lookups(self.xor_table_base),
                all == table_interactions(self.xor_table_base),
                buses@.len() == 1 + i,
                forall|j: int| 0 <= j < buses@.len() ==> (#[trigger] buses@[j])@ == all[j],
            decreases n - i,
        {
            let (index, value) = lookup_cols(i);
            buses.push(memory_interaction(BusData::Column(index), value));
            i += 1;
        }
        assert(interactions(buses@) =~= all);
        buses
    }

    fn n_columns_total(&self) -> (r: usize) {
        N_TOTAL_COLS
    }

    fn is_execution_table(&self) -> (r: bool) {
        false
    }

    /// A row that stands for no compression. Its operands and its result are the zero vector.
    fn padding_row(
        &self,
        zero_vec_ptr: usize,
        _null_hash_ptr: usize,
        _null_blake3_hash_ptr: usize,
    ) -> (r: Vec<KoalaBear>) {
        let mut row: Vec<KoalaBear> = vec![KoalaBear::zero(); N_TOTAL_COLS];
        row[COL_LEFT_ADDR] = KoalaBear::from_usize(zero_vec_ptr);
        row[COL_RIGHT_ADDR] = KoalaBear::from_usize(zero_vec_ptr);
        row[COL_RESULT_ADDR] = KoalaBear::from_usize(zero_vec_ptr);
        row[COL_V_PRECOMPILE_DATA] = KoalaBear::from_usize(CONSTRAINED_BLAKE3_PRECOMPILE_DATA);
        row[COL_V_INDEX_LEFT] = KoalaBear::from_usize(zero_vec_ptr);
        let ghost all = constrained_padding(zero_vec_ptr as int, self.xor_table_base as int);
        let mut g: usize = 0;
        while g < 4
            invariant
                g <= 4,
                row@.len() == N_TOTAL_COLS,
                all == constrained_padding(zero_vec_ptr as int, self.xor_table_base as int),
                forall|c: int|
                    0 <= c < N_TOTAL_COLS && !(g_column(g as int, 0) <= c < COL_OUTPUT_STATE_START)
                        ==> #[trigger] row@[c] == all[c],
                forall|c: int|
                    g_column(g as int, 0) <= c < COL_OUTPUT_STATE_START ==> #[trigger] row@[c]
                        == kb(0),
            decreases 4 - g,
        {
            let ghost row0 = row@;
            row[g_col(g, G_MX_ADDR)] = KoalaBear::from_usize(zero_vec_ptr);
            row[g_col(g, G_MY_ADDR)] = KoalaBear::from_usize(zero_vec_ptr);
            let base = KoalaBear::from_usize(self.xor_table_base);
            let mut i: usize = 0;
            while i < 4
                invariant
                    g < 4,
                    i <= 4,
                    row@.len() == N_TOTAL_COLS,
                    row0.len() == N_TOTAL_COLS,
                    base == kb(self.xor_table_base as int),
                    forall|c: int|
                        0 <= c < N_TOTAL_COLS ==> #[trigger] row@[c] == {
                            let o = c - g_column(g as int, 0);
                            if o == G_MX_ADDR || o == G_MY_ADDR {
                                kb(zero_vec_ptr as int)
                            } else if G_XOR2_ADDRS <= o < G_XOR2_ADDRS + i || G_XOR4_ADDRS <= o
                                < G_XOR4_ADDRS + i || G_XOR6_ADDRS <= o < G_XOR6_ADDRS + i
                                || G_XOR8_ADDRS <= o < G_XOR8_ADDRS + i {
                                base
                            } else {
                                row0[c]
                            }
                        },
                decreases 4 - i,
            {
                row[g_col(g, G_XOR2_ADDRS + i)] = base;
                row[g_col(g, G_XOR4_ADDRS + i)] = base;
                row[g_col(g, G_XOR6_ADDRS + i)] = base;
                row[g_col(g, G_XOR8_ADDRS + i)] = base;
                i += 1;
            }
            proof {
                assert forall|c: int|
                    g_column(g as int, 0) <= c < g_column(g + 1, 0) implies #[trigger] row@[c]
                    == all[c] by {
                    let o = c - g_column(g as int, 0);
                    assert((c - COL_G_START) % 72 == o);
                }
            }
            g += 1;
        }
        assert(row@ =~= all);
        row
    }
}

impl<const BUS: bool> ConstrainedBlake3Precompile<BUS> {
    /// The table at a position, with the byte-XOR table where `base` says.
    pub fn new(table: Table, base: &XorTableBase) -> (r: Self)
        ensures
            r.table == table,
            r.xor_table_base == base.addr,
    {
        ConstrainedBlake3Precompile { table, xor_table_base: base.addr }
    }

    /// Executes a call: reads the operands, writes the digest, and appends the rows of the
    /// compression to the trace. The rows are generated from memory after the write, with the
    /// left operand read from consecutive addresses.
    pub fn execute<M: MemoryAccess>(
        &self,
        arg_a: KoalaBear,
        arg_b: KoalaBear,
        index_res: KoalaBear,
        args: PrecompileCompTimeArgs,
        memory: &mut M,
        trace: &mut TableTrace,
    ) -> (r: Result<(), RunnerError>)
        requires
            addresses_fit(
                args,
                arg_a.value as int,
                arg_b.value as int,
                index_res.value as int,
            ),
            self.xor_table_base + 65535 <= usize::MAX,
        ensures
            final(trace).columns@.len() == old(trace).columns@.len(),
            final(trace).non_padded_n_rows == old(trace).non_padded_n_rows,
            final(trace).log_n_rows == old(trace).log_n_rows,
            !operands_defined(
                *old(memory),
                args,
                arg_a.value as int,
                arg_b.value as int,
            ) ==> {
                &&& r is Err
                &&& operand_error(
                    *old(memory),
                    args,
                    arg_a.value as int,
                    arg_b.value as int,
                    r->Err_0,
                )
                &&& *final(memory) == *old(memory)
            },
            r is Ok ==> {
                let x = trace_inputs(
                    *final(memory),
                    left_first(args, arg_a.value as int),
                    arg_b.value as int,
                    index_res.value as int,
                    self.xor_table_base as int,
                );
                &&& written(
                    *old(memory),
                    *final(memory),
                    index_res.value as int,
                    call_output(
                        *old(memory),
                        args,
                        arg_a.value as int,
                        arg_b.value as int,
                    ),
                )
                &&& forall|c: int|
                    0 <= c < old(trace).columns@.len() ==> (#[trigger] final(trace).columns@[c])@
                        == old(trace).columns@[c]@ + x.column(c)
            },
            r is Err ==> final(trace).columns@ == old(trace).columns@,
            operands_defined(*old(memory), args, arg_a.value as int, arg_b.value as int) ==> {
                let output = call_output(
                    *old(memory),
                    args,
                    arg_a.value as int,
                    arg_b.value as int,
                );
                if accepts_all::<M>(old(memory).contents(), index_res.value as int, output) {
                    &&& final(memory).contents() == stored_all::<M>(
                        old(memory).contents(),
                        index_res.value as int,
                        output,
                    )
                    &&& written(*old(memory), *final(memory), index_res.value as int, output)
                    &&& r is Ok <==> holds_digest(
                        *final(memory),
                        left_first(args, arg_a.value as int),
                    ) && holds_digest(*final(memory), arg_b.value as int)
                    &&& r matches Err(RunnerError::UndefinedMemory(e)) ==> first_undefined(
                        *final(memory),
                        left_first(args, arg_a.value as int),
                        arg_b.value as int,
                        e as int,
                    )
                } else {
                    &&& r is Err
                    &&& stopped_at_refusal::<M>(
                        old(memory).contents(),
                        final(memory).contents(),
                        index_res.value as int,
                        output,
                    )
                }
            },
    {
        let a: usize = arg_a.to_usize();
        let b: usize = arg_b.to_usize();
        let res: usize = index_res.to_usize();
        let PrecompileCompTimeArgs::Blake3Compress { half_output: half, hardcoded_offset_left } =
            args;
        let left_addr: usize = match hardcoded_offset_left {
            Some(o) => o,
            None => a,
        };
        let call = match read_operands(memory, args, a, b) {
            Ok(call) => call,
            Err(e) => {
                return Err(e);
            },
        };
        match write_output(memory, res, &call.output, half) {
            Ok(()) => {},
            Err(e) => {
                return Err(e);
            },
        }
        match generate_compression_trace(
            left_addr,
            b,
            res,
            memory,
            &mut trace.columns,
            self.xor_table_base,
        ) {
            Ok(_) => Ok(()),
            Err(e) => Err(e),
        }
    }

    pub fn n_columns(&self) -> (r: usize)
        ensures
            r == N_COMMITTED_COLS,
    {
        N_COMMITTED_COLS
    }

    pub fn degree_air(&self) -> (r: usize)
        ensures
            r == 3,
    {
        3
    }

    /// The columns that flow to the next row: 32 of the state and three addresses.
    pub fn n_shift_columns(&self) -> (r: usize)
        ensures
            r == 35,
    {
        35
    }

    pub fn down_column_indexes(&self) -> (r: Vec<usize>)
        ensures
            r@.len() == 35,
            forall|i: int| 0 <= i < 32 ==> r@[i] == i,
            r@[32] == COL_LEFT_ADDR,
            r@[33] == COL_RIGHT_ADDR,
            r@[34] == COL_RESULT_ADDR,
    {
        down_columns()
    }

    /// The number of constraints of a row, with the one of the bus where the table is on it.
    pub fn n_constraints(&self) -> (r: usize)
        ensures
            r == if BUS {
                204
            } else {
                203int
            },
    {
        let n_down: usize = 35;
        let on_bus: usize = if BUS {
            1
        } else {
            0
        };
        on_bus + 4 * constraints_per_g() + 4 + n_down + 32 + 8
    }

    /// Evaluates the constraints on a row of committed columns. `rot` holds its rotation columns,
    /// and `down` is the next row's part that flows from this one, or empty.
    pub fn eval<R: Ring>(&self, up: &[R], rot: &[R], down: &[R]) -> (r: RowEvaluation<R>)
        requires
            up@.len() >= N_COMMITTED_COLS,
            rot@.len() >= N_ROT_COLS,
            down@.len() == 0 || down@.len() >= 35,
        ensures
            r.bus_selector == up@[COL_IS_FIRST_ROW as int],
            r.bus_data@ == seq![
                R::of(CONSTRAINED_BLAKE3_PRECOMPILE_DATA as int),
                up@[COL_LEFT_ADDR as int],
                up@[COL_RIGHT_ADDR as int],
                up@[COL_RESULT_ADDR as int],
            ],
            r.on_bus == BUS,
            r.constraints@ == row_constraints(up@, rot@, down@, R::of(self.xor_table_base as int)),
    {
        let bus_data = [
            R::from_usize(CONSTRAINED_BLAKE3_PRECOMPILE_DATA),
            up[COL_LEFT_ADDR],
            up[COL_RIGHT_ADDR],
            up[COL_RESULT_ADDR],
        ];
        let mut constraints: Vec<R> = Vec::new();
        constraints.push(bool_expr(up[COL_FLAG_ACTIVE]));
        constraints.push(bool_expr(up[COL_IS_FIRST_ROW]));
        constraints.push(bool_expr(up[COL_IS_LAST_ROW]));
        constraints.push(bool_expr(up[COL_IS_COLUMN_QR]));
        let ghost head = constraints@;
        let base = R::from_usize(self.xor_table_base);
        let mut g: usize = 0;
        assert(constraints@ =~= head + g_rows_constraints(up@, rot@, 0, base));
        while g < 4
            invariant
                g <= 4,
                up@.len() >= N_COMMITTED_COLS,
                rot@.len() >= N_ROT_COLS,
                constraints@ == head + g_rows_constraints(up@, rot@, g as int, base),
            decreases 4 - g,
        {
            let ghost before = constraints@;
            self.eval_g(up, rot, g, base, &mut constraints);
            assert(constraints@ =~= head + g_rows_constraints(up@, rot@, g + 1, base));
            g += 1;
        }
        let ghost middle = constraints@;
        if down.len() != 0 {
            let ghost all = Seq::new(35, |i: int| down_constraint(up@, down@, i));
            let active_not_last = up[COL_FLAG_ACTIVE].mul(R::one().sub(up[COL_IS_LAST_ROW]));
            let mut i: usize = 0;
            assert(constraints@ =~= middle + all.take(0));
            while i < 35
                invariant
                    i <= 35,
                    up@.len() >= N_COMMITTED_COLS,
                    down@.len() >= 35,
                    all == Seq::new(35, |i: int| down_constraint(up@, down@, i)),
                    active_not_last == up@[COL_FLAG_ACTIVE as int].times(
                        R::ring_one().minus(up@[COL_IS_LAST_ROW as int]),
                    ),
                    constraints@ == middle + all.take(i as int),
                decreases 35 - i,
            {
                let source: ColIndex = if i < 32 {
                    output_state_col(i / 2, i % 2)
                } else if i == 32 {
                    COL_LEFT_ADDR
                } else if i == 33 {
                    COL_RIGHT_ADDR
                } else {
                    COL_RESULT_ADDR
                };
                constraints.push(active_not_last.mul(down[i].sub(up[source])));
                reveal(down_constraint);
                assert(all.take(i + 1) =~= all.take(i as int).push(all[i as int]));
                assert(constraints@ =~= middle + all.take(i + 1));
                i += 1;
            }
            assert(all.take(35) =~= all);
        }
        assert(head =~= seq![
            bool_constraint(up@[COL_FLAG_ACTIVE as int]),
            bool_constraint(up@[COL_IS_FIRST_ROW as int]),
            bool_constraint(up@[COL_IS_LAST_ROW as int]),
            bool_constraint(up@[COL_IS_COLUMN_QR as int]),
        ]);
        reveal(row_constraints);
        assert(constraints@ =~= row_constraints(up@, rot@, down@, base));
        assert(bus_data@ =~= seq![
            R::of(CONSTRAINED_BLAKE3_PRECOMPILE_DATA as int),
            up@[COL_LEFT_ADDR as int],
            up@[COL_RIGHT_ADDR as int],
            up@[COL_RESULT_ADDR as int],
        ]);
        RowEvaluation { bus_selector: up[COL_IS_FIRST_ROW], bus_data, on_bus: BUS, constraints }
    }

    /// Appends the constraints of G-function `g` within a row.
    fn eval_g<R: Ring>(
        &self,
        up: &[R],
        rot: &[R],
        g: usize,
        base: R,
        constraints: &mut Vec<R>,
    )
        requires
            up@.len() >= N_COMMITTED_COLS,
            rot@.len() >= N_ROT_COLS,
            g < 4,
        ensures
            final(constraints)@ == old(constraints)@ + g_row_constraints(up@, rot@, g as int, base),
    {
        let ghost start = constraints@;
        let (a_w, b_w, c_w, d_w) = col_qr_indices(g);
        let (_a_diag, b_diag, c_diag, d_diag) = diag_qr_indices(g);
        let mut exprs = quarter_round_function_constraints(up, rot, g, base);
        let ghost g_exprs = exprs@;
        constraints.append(&mut exprs);
        let (outputs, mut rot_constraints) = g_function_outputs(up, rot, g);
        let ghost rot_exprs = rot_constraints@;
        constraints.append(&mut rot_constraints);
        let is_column_qr = up[COL_IS_COLUMN_QR];
        reveal(output_constraint);
        reveal(g_row_constraints);
        reveal(g_outputs);
        let ghost before = constraints@;
        let ghost outs = Seq::new(8, |i: int| output_constraint(up@, rot@, g as int, i / 2, i % 2));

        constraints.push(up[output_state_col(a_w, 0)].sub(outputs[0].0));
        constraints.push(up[output_state_col(a_w, 1)].sub(outputs[0].1));
        Self::push_output(up, is_column_qr, outputs[1], b_w, b_diag, constraints);
        Self::push_output(up, is_column_qr, outputs[2], c_w, c_diag, constraints);
        Self::push_output(up, is_column_qr, outputs[3], d_w, d_diag, constraints);
        proof {
            assert(constraints@.len() == before.len() + 8);
            assert(constraints@ =~= before + outs);
            assert(before =~= start + g_exprs + rot_exprs);
            assert(constraints@ =~= start + g_row_constraints(up@, rot@, g as int, base));
        }
    }

    /// Appends the two constraints of an output word that stands in column word `w_col` after a
    /// column quarter-round and in word `w_diag` after a diagonal one.
    fn push_output<R: Ring>(
        up: &[R],
        is_column_qr: R,
        out: (R, R),
        w_col: usize,
        w_diag: usize,
        constraints: &mut Vec<R>,
    )
        requires
            up@.len() >= N_COMMITTED_COLS,
            w_col < 16,
            w_diag < 16,
        ensures
            final(constraints)@ == old(constraints)@.push(
                selected(
                    is_column_qr,
                    up@[output_state_column(w_col as int, 0)].minus(out.0),
                    up@[output_state_column(w_diag as int, 0)].minus(out.0),
                ),
            ).push(
                selected(
                    is_column_qr,
                    up@[output_state_column(w_col as int, 1)].minus(out.1),
                    up@[output_state_column(w_diag as int, 1)].minus(out.1),
                ),
            ),
    {
        let is_diag = R::one().sub(is_column_qr);
        constraints.push(
            is_column_qr.mul(up[output_state_col(w_col, 0)].sub(out.0)).add(
                is_diag.mul(up[output_state_col(w_diag, 0)].sub(out.0)),
            ),
        );
        constraints.push(
            is_column_qr.mul(up[output_state_col(w_col, 1)].sub(out.1)).add(
                is_diag.mul(up[output_state_col(w_diag, 1)].sub(out.1)),
            ),
        );
    }
}

} // verus!
