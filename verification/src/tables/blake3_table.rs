//! The Blake3 precompile table with one row per call.

use crate::blake3_hash::{blake3_compress, compress_spec};
use crate::field::{kb, KoalaBear, Ring};
use crate::memory::{
    accepts_all, stopped_at_refusal, stored_all, MemoryAccess, RunnerError,
};
use crate::ring::{lemma_minus_self, lemma_zero_times};
use crate::tables::constrained_air::{bool_constraint, bool_expr};
use crate::tables::constrained_table::{
    addresses_fit, call_output, cells, half_output, left_first, left_operand, left_second,
    operand_error, operands_defined, read_operands, write_output, written, PrecompileCompTimeArgs,
    HALF_DIGEST_LEN,
};
use crate::tables::constrained_trace::{BLAKE3_PRECOMPILE_DATA, DIGEST_LEN};
use crate::tables::table_trait::{
    default_bus_interactions, default_interactions, lookup_views, Bus, BusData, BusDirection,
    BusInteraction, BusView, ColIndex, InteractionView, LookupIntoMemory, LookupView, Table, TableT,
    TableTrace,
};
use crate::wrappers::ToUsize;
use vstd::prelude::*;

verus! {

pub const BLAKE3_HALF_OUTPUT_SHIFT: usize = 8;

pub const BLAKE3_HARDCODED_LEFT_FLAG_SHIFT: usize = 16;

pub const BLAKE3_HARDCODED_LEFT_OFFSET_SHIFT: usize = 32;

pub const BLAKE3_NAME: &'static str = "blake3_compress";

pub const BLAKE3_HALF_NAME: &'static str = "blake3_compress_half";

pub const BLAKE3_HARDCODED_LEFT_NAME: &'static str = "blake3_compress_hardcoded_left";

pub const BLAKE3_HALF_HARDCODED_LEFT_NAME: &'static str = "blake3_compress_half_hardcoded_left";

pub const ALL_BLAKE3_NAMES: [&'static str; 4] = [
    BLAKE3_NAME,
    BLAKE3_HALF_NAME,
    BLAKE3_HARDCODED_LEFT_NAME,
    BLAKE3_HALF_HARDCODED_LEFT_NAME,
];

pub const BLAKE3_COL_FLAG: ColIndex = 0;

pub const BLAKE3_COL_INDEX_RIGHT: ColIndex = 1;

pub const BLAKE3_COL_INDEX_RES: ColIndex = 2;

pub const BLAKE3_COL_FLAG_HALF_OUTPUT: ColIndex = 3;

pub const BLAKE3_COL_FLAG_HARDCODED_LEFT: ColIndex = 4;

pub const BLAKE3_COL_OFFSET_HARDCODED_LEFT: ColIndex = 5;

pub const BLAKE3_COL_EFFECTIVE_INDEX_LEFT_FIRST: ColIndex = 6;

pub const BLAKE3_COL_EFFECTIVE_INDEX_LEFT_SECOND: ColIndex = 7;

/// The 16 input elements.
pub const BLAKE3_COL_INPUT_START: ColIndex = 8;

/// The eight output elements.
pub const BLAKE3_COL_OUTPUT_START: ColIndex = 24;

pub const BLAKE3_N_COMMITTED_COLS: usize = 32;

/// Virtual columns, not committed, for the bus.
pub const BLAKE3_COL_INDEX_LEFT: ColIndex = 32;

pub const BLAKE3_COL_PRECOMPILE_DATA: ColIndex = 33;

pub const BLAKE3_N_TOTAL_COLS: usize = 34;

/// The table of Blake3 calls. With `BUS`, its rows also take part in the bus argument.
#[derive(Clone, Copy, Debug)]
pub struct Blake3CompressPrecompile<const BUS: bool> {
    pub table: Table,
}

/// The fixed address of the first half of the left operand, or zero.
pub open spec fn hardcoded_offset(args: PrecompileCompTimeArgs) -> int {
    match args {
        PrecompileCompTimeArgs::Blake3Compress { hardcoded_offset_left, .. } => match hardcoded_offset_left {
            Some(o) => o as int,
            None => 0,
        },
    }
}

pub open spec fn is_hardcoded(args: PrecompileCompTimeArgs) -> bool {
    match args {
        PrecompileCompTimeArgs::Blake3Compress { hardcoded_offset_left, .. } => hardcoded_offset_left is Some,
    }
}

/// The value of a bit.
pub open spec fn bit(b: bool) -> int {
    if b {
        1
    } else {
        0
    }
}

/// The bus discriminator of a call: the arguments fixed at compile time, packed into one number.
pub open spec fn blake3_precompile_data(half: bool, hardcoded: bool, offset: int) -> int {
    BLAKE3_PRECOMPILE_DATA + BLAKE3_HALF_OUTPUT_SHIFT * bit(half)
        + BLAKE3_HARDCODED_LEFT_FLAG_SHIFT * bit(hardcoded) + BLAKE3_HARDCODED_LEFT_OFFSET_SHIFT
        * offset
}

/// The bus discriminator of a Poseidon call. A permutation never has half an output.
pub open spec fn poseidon_precompile_data(
    permute: bool,
    half: bool,
    hardcoded: bool,
    offset: int,
) -> int {
    1 + 2 * bit(permute) + 4 * bit(half) + 8 * bit(hardcoded) + 16 * bit(hardcoded) * offset
}

/// The bus discriminator of a call on extension field elements.
pub open spec fn extension_op_precompile_data(
    is_be: bool,
    flag_add: bool,
    flag_mul: bool,
    flag_poly_eq: bool,
    len: int,
) -> int {
    4 * bit(is_be) + 8 * bit(flag_add) + 16 * bit(flag_mul) + 32 * bit(flag_poly_eq) + 64 * len
}

/// The discriminators of the three precompile tables are disjoint.
pub proof fn law_precompile_data_disjoint(
    half: bool,
    hardcoded: bool,
    offset: int,
    permute: bool,
    poseidon_half: bool,
    poseidon_hardcoded: bool,
    poseidon_offset: int,
    is_be: bool,
    flag_add: bool,
    flag_mul: bool,
    flag_poly_eq: bool,
    len: int,
)
    requires
        !(permute && poseidon_half),
    ensures
        blake3_precompile_data(half, hardcoded, offset) != poseidon_precompile_data(
            permute,
            poseidon_half,
            poseidon_hardcoded,
            poseidon_offset,
        ),
        blake3_precompile_data(half, hardcoded, offset) != extension_op_precompile_data(
            is_be,
            flag_add,
            flag_mul,
            flag_poly_eq,
            len,
        ),
        poseidon_precompile_data(permute, poseidon_half, poseidon_hardcoded, poseidon_offset)
            != extension_op_precompile_data(is_be, flag_add, flag_mul, flag_poly_eq, len),
{
    assert(blake3_precompile_data(half, hardcoded, offset) % 8 == 7);
    assert(16 * bit(poseidon_hardcoded) * poseidon_offset == if poseidon_hardcoded {
        16 * poseidon_offset
    } else {
        0
    }) by (nonlinear_arith)
        requires
            bit(poseidon_hardcoded) == if poseidon_hardcoded {
                1int
            } else {
                0
            },
    ;
}

/// The discriminator tells the calls of the Blake3 table apart: it determines both flags and,
/// through them, the fixed offset.
pub proof fn law_blake3_precompile_data_injective(
    half: bool,
    hardcoded: bool,
    offset: int,
    half2: bool,
    hardcoded2: bool,
    offset2: int,
)
    requires
        blake3_precompile_data(half, hardcoded, offset) == blake3_precompile_data(
            half2,
            hardcoded2,
            offset2,
        ),
    ensures
        half == half2,
        hardcoded == hardcoded2,
        offset == offset2,
{
}

/// The cells of the row of a call.
pub open spec fn call_cell(
    left: Seq<KoalaBear>,
    right: Seq<KoalaBear>,
    args: PrecompileCompTimeArgs,
    arg_a: KoalaBear,
    arg_b: KoalaBear,
    index_res: KoalaBear,
    c: int,
) -> KoalaBear {
    if c == BLAKE3_COL_FLAG {
        kb(1)
    } else if c == BLAKE3_COL_INDEX_RIGHT {
        arg_b
    } else if c == BLAKE3_COL_INDEX_RES {
        index_res
    } else if c == BLAKE3_COL_FLAG_HALF_OUTPUT {
        kb(bit(half_output(args)))
    } else if c == BLAKE3_COL_FLAG_HARDCODED_LEFT {
        kb(bit(is_hardcoded(args)))
    } else if c == BLAKE3_COL_OFFSET_HARDCODED_LEFT {
        kb(hardcoded_offset(args))
    } else if c == BLAKE3_COL_EFFECTIVE_INDEX_LEFT_FIRST {
        kb(left_first(args, arg_a.value as int))
    } else if c == BLAKE3_COL_EFFECTIVE_INDEX_LEFT_SECOND {
        kb(left_second(args, arg_a.value as int))
    } else if c < BLAKE3_COL_OUTPUT_START {
        (left + right)[c - BLAKE3_COL_INPUT_START]
    } else if c < BLAKE3_COL_INDEX_LEFT {
        compress_spec(left, right)[c - BLAKE3_COL_OUTPUT_START]
    } else if c == BLAKE3_COL_INDEX_LEFT {
        arg_a
    } else {
        kb(
            blake3_precompile_data(
                half_output(args),
                is_hardcoded(args),
                hardcoded_offset(args),
            ),
        )
    }
}

/// The cells of a padding row: a call on the zero vector that is not active.
pub open spec fn blake3_padding(zero_vec_ptr: int, null_blake3_hash_ptr: int) -> Seq<KoalaBear> {
    let zeros = Seq::new(8, |i: int| kb(0));
    Seq::new(
        BLAKE3_N_TOTAL_COLS as nat,
        |c: int|
            if c == BLAKE3_COL_INDEX_RIGHT || c == BLAKE3_COL_EFFECTIVE_INDEX_LEFT_FIRST || c
                == BLAKE3_COL_INDEX_LEFT {
                kb(zero_vec_ptr)
            } else if c == BLAKE3_COL_INDEX_RES {
                kb(null_blake3_hash_ptr)
            } else if c == BLAKE3_COL_EFFECTIVE_INDEX_LEFT_SECOND {
                kb(zero_vec_ptr + HALF_DIGEST_LEN)
            } else if BLAKE3_COL_OUTPUT_START <= c < BLAKE3_COL_INDEX_LEFT {
                compress_spec(zeros, zeros)[c - BLAKE3_COL_OUTPUT_START]
            } else if c == BLAKE3_COL_PRECOMPILE_DATA {
                kb(BLAKE3_PRECOMPILE_DATA as int)
            } else {
                kb(0)
            },
    )
}

/// The columns `start` to `end - 1`.
pub open spec fn column_range(start: int, end: int) -> Seq<ColIndex> {
    Seq::new((end - start) as nat, |i: int| (start + i) as usize)
}

pub open spec fn blake3_lookup(
    index: ColIndex,
    start: int,
    end: int,
    address_offset: usize,
    conditional_inactive: Seq<ColIndex>,
) -> LookupView {
    LookupView {
        index,
        values: column_range(start, end),
        address_offset,
        conditional_inactive,
        computed_address: None,
    }
}

/// The five lookups of a row: the halves of the left operand, the right operand, and the halves
/// of the output, of which the second is looked up unless only half is written.
pub open spec fn blake3_lookups() -> Seq<LookupView> {
    seq![
        blake3_lookup(BLAKE3_COL_EFFECTIVE_INDEX_LEFT_FIRST, 8, 12, 0, Seq::empty()),
        blake3_lookup(BLAKE3_COL_EFFECTIVE_INDEX_LEFT_SECOND, 12, 16, 0, Seq::empty()),
        blake3_lookup(BLAKE3_COL_INDEX_RIGHT, 16, 24, 0, Seq::empty()),
        blake3_lookup(BLAKE3_COL_INDEX_RES, 24, 28, 0, Seq::empty()),
        blake3_lookup(BLAKE3_COL_INDEX_RES, 28, 32, 4, seq![BLAKE3_COL_FLAG_HALF_OUTPUT]),
    ]
}

pub open spec fn blake3_bus() -> BusView {
    BusView {
        direction: BusDirection::Pull,
        selector: BLAKE3_COL_FLAG,
        data: seq![
            BusData::Column(BLAKE3_COL_PRECOMPILE_DATA),
            BusData::Column(BLAKE3_COL_INDEX_LEFT),
            BusData::Column(BLAKE3_COL_INDEX_RIGHT),
            BusData::Column(BLAKE3_COL_INDEX_RES),
        ],
    }
}

fn range_lookup(
    index: ColIndex,
    start: usize,
    end: usize,
    address_offset: usize,
    conditional_inactive: Vec<ColIndex>,
) -> (r: LookupIntoMemory)
    requires
        start <= end,
    ensures
        r@ == blake3_lookup(
            index,
            start as int,
            end as int,
            address_offset,
            conditional_inactive@,
        ),
{
    let mut values: Vec<ColIndex> = Vec::new();
    let mut c: usize = start;
    while c < end
        invariant
            start <= c <= end,
            values@.len() == c - start,
            forall|i: int| 0 <= i < c - start ==> #[trigger] values@[i] == start + i,
        decreases end - c,
    {
        values.push(c);
        c += 1;
    }
    assert(values@ =~= column_range(start as int, end as int));
    LookupIntoMemory {
        index,
        values,
        address_offset,
        conditional_inactive,
        computed_address: None,
    }
}

impl<const BUS: bool> TableT for Blake3CompressPrecompile<BUS> {
    open spec fn lookups_spec(&self) -> Seq<LookupView> {
        blake3_lookups()
    }

    open spec fn bus_spec(&self) -> BusView {
        blake3_bus()
    }

    open spec fn total_columns(&self) -> int {
        BLAKE3_N_TOTAL_COLS as int
    }

    open spec fn padding_cells(
        &self,
        zero_vec_ptr: int,
        null_hash_ptr: int,
        null_blake3_hash_ptr: int,
    ) -> Seq<KoalaBear> {
        blake3_padding(zero_vec_ptr, null_blake3_hash_ptr)
    }

    open spec fn pads(&self, zero_vec_ptr: int) -> bool {
        zero_vec_ptr + HALF_DIGEST_LEN <= usize::MAX
    }

    open spec fn interactions_spec(&self) -> Seq<InteractionView> {
        default_interactions(blake3_bus(), blake3_lookups())
    }

    open spec fn offsets_fit(&self) -> bool {
        true
    }

    open spec fn execution_table(&self) -> bool {
        false
    }

    open spec fn position(&self) -> Table {
        self.table
    }

    open spec fn label(&self) -> Seq<char> {
        BLAKE3_NAME@
    }

    fn name(&self) -> (r: &'static str) {
        BLAKE3_NAME
    }

    fn table(&self) -> (r: Table) {
        self.table
    }

    fn lookups(&self) -> (r: Vec<LookupIntoMemory>) {
        let mut out: Vec<LookupIntoMemory> = Vec::new();
        let in_start: usize = BLAKE3_COL_INPUT_START;
        let out_start: usize = BLAKE3_COL_OUTPUT_START;
        out.push(
            range_lookup(
                BLAKE3_COL_EFFECTIVE_INDEX_LEFT_FIRST,
                in_start,
                in_start + HALF_DIGEST_LEN,
                0,
                Vec::new(),
            ),
        );
        out.push(
            range_lookup(
                BLAKE3_COL_EFFECTIVE_INDEX_LEFT_SECOND,
                in_start + HALF_DIGEST_LEN,
                in_start + DIGEST_LEN,
                0,
                Vec::new(),
            ),
        );
        out.push(
            range_lookup(
                BLAKE3_COL_INDEX_RIGHT,
                in_start + DIGEST_LEN,
                in_start + DIGEST_LEN * 2,
                0,
                Vec::new(),
            ),
        );
        out.push(
            range_lookup(
                BLAKE3_COL_INDEX_RES,
                out_start,
                out_start + HALF_DIGEST_LEN,
                0,
                Vec::new(),
            ),
        );
        let inactive = vec![BLAKE3_COL_FLAG_HALF_OUTPUT];
        assert(inactive@ =~= seq![BLAKE3_COL_FLAG_HALF_OUTPUT]);
        out.push(
            range_lookup(
                BLAKE3_COL_INDEX_RES,
                out_start + HALF_DIGEST_LEN,
                out_start + DIGEST_LEN,
                HALF_DIGEST_LEN,
                inactive,
            ),
        );
        assert(lookup_views(out@) =~= blake3_lookups());
        out
    }

    fn bus(&self) -> (r: Bus) {
        let data = vec![
            BusData::Column(BLAKE3_COL_PRECOMPILE_DATA),
            BusData::Column(BLAKE3_COL_INDEX_LEFT),
            BusData::Column(BLAKE3_COL_INDEX_RIGHT),
            BusData::Column(BLAKE3_COL_INDEX_RES),
        ];
        assert(data@ =~= blake3_bus().data);
        Bus { direction: BusDirection::Pull, selector: BLAKE3_COL_FLAG, data }
    }

    fn bus_interactions(&self) -> (r: Vec<BusInteraction>) {
        default_bus_interactions(&self.bus(), &self.lookups())
    }

    fn n_columns_total(&self) -> (r: usize) {
        BLAKE3_N_TOTAL_COLS
    }

    fn is_execution_table(&self) -> (r: bool) {
        false
    }

    fn padding_row(
        &self,
        zero_vec_ptr: usize,
        _null_hash_ptr: usize,
        null_blake3_hash_ptr: usize,
    ) -> (r: Vec<KoalaBear>) {
        let mut row: Vec<KoalaBear> = vec![KoalaBear::zero(); BLAKE3_N_TOTAL_COLS];
        row[BLAKE3_COL_INDEX_RIGHT] = KoalaBear::from_usize(zero_vec_ptr);
        row[BLAKE3_COL_INDEX_RES] = KoalaBear::from_usize(null_blake3_hash_ptr);
        row[BLAKE3_COL_EFFECTIVE_INDEX_LEFT_FIRST] = KoalaBear::from_usize(zero_vec_ptr);
        row[BLAKE3_COL_EFFECTIVE_INDEX_LEFT_SECOND] = KoalaBear::from_usize(
            zero_vec_ptr + HALF_DIGEST_LEN,
        );
        row[BLAKE3_COL_INDEX_LEFT] = KoalaBear::from_usize(zero_vec_ptr);
        row[BLAKE3_COL_PRECOMPILE_DATA] = KoalaBear::from_usize(BLAKE3_PRECOMPILE_DATA);
        let zeros = [KoalaBear::zero(); 8];
        let null_output = blake3_compress(&zeros, &zeros);
        assert(zeros@ =~= Seq::new(8, |i: int| kb(0)));
        let ghost row0 = row@;
        let mut i: usize = 0;
        while i < 8
            invariant
                i <= 8,
                row@.len() == BLAKE3_N_TOTAL_COLS,
                row0.len() == BLAKE3_N_TOTAL_COLS,
                forall|c: int|
                    0 <= c < BLAKE3_N_TOTAL_COLS ==> #[trigger] row@[c]
                        == if BLAKE3_COL_OUTPUT_START <= c < BLAKE3_COL_OUTPUT_START + i {
                        null_output@[c - BLAKE3_COL_OUTPUT_START]
                    } else {
                        row0[c]
                    },
            decreases 8 - i,
        {
            row[BLAKE3_COL_OUTPUT_START + i] = null_output[i];
            i += 1;
        }
        assert(row@ =~= blake3_padding(zero_vec_ptr as int, null_blake3_hash_ptr as int));
        row
    }
}

/// What the evaluation of a row hands on.
pub struct CallEvaluation<R> {
    pub bus_selector: R,
    /// The values on the bus: the discriminator and the three addresses.
    pub bus_data: [R; 4],
    /// Whether the selector and the data enter the bus argument as a constraint.
    pub on_bus: bool,
    pub constraints: Vec<R>,
}

/// The discriminator, reconstructed from the flags and the fixed offset.
pub open spec fn reconstructed_data<R: Ring>(up: Seq<R>) -> R {
    let flag_half = up[BLAKE3_COL_FLAG_HALF_OUTPUT as int];
    let flag_left = up[BLAKE3_COL_FLAG_HARDCODED_LEFT as int];
    R::of(BLAKE3_PRECOMPILE_DATA as int).plus(
        flag_half.times(R::of(BLAKE3_HALF_OUTPUT_SHIFT as int)),
    ).plus(flag_left.times(R::of(BLAKE3_HARDCODED_LEFT_FLAG_SHIFT as int))).plus(
        flag_left.times(up[BLAKE3_COL_OFFSET_HARDCODED_LEFT as int]).times(
            R::of(BLAKE3_HARDCODED_LEFT_OFFSET_SHIFT as int),
        ),
    )
}

/// The left address, reconstructed from the address of the second half.
pub open spec fn reconstructed_index<R: Ring>(up: Seq<R>) -> R {
    up[BLAKE3_COL_EFFECTIVE_INDEX_LEFT_SECOND as int].minus(
        R::ring_one().minus(up[BLAKE3_COL_FLAG_HARDCODED_LEFT as int]).times(
            R::of(HALF_DIGEST_LEN as int),
        ),
    )
}

/// The constraints of a row: three bits, and the address of the first half, which is the fixed
/// offset where there is one and the left address otherwise.
pub open spec fn call_constraints<R: Ring>(up: Seq<R>) -> Seq<R> {
    let flag_left = up[BLAKE3_COL_FLAG_HARDCODED_LEFT as int];
    let first = up[BLAKE3_COL_EFFECTIVE_INDEX_LEFT_FIRST as int];
    seq![
        bool_constraint(up[BLAKE3_COL_FLAG as int]),
        bool_constraint(up[BLAKE3_COL_FLAG_HALF_OUTPUT as int]),
        bool_constraint(flag_left),
        flag_left.times(up[BLAKE3_COL_OFFSET_HARDCODED_LEFT as int].minus(first)),
        R::ring_one().minus(flag_left).times(reconstructed_index(up).minus(first)),
    ]
}

impl<const BUS: bool> Blake3CompressPrecompile<BUS> {
    /// Executes a call: reads the operands, writes the digest or its first half, and appends the
    /// row of the call.
    pub fn execute<M: MemoryAccess>(
        &self,
        arg_a: KoalaBear,
        arg_b: KoalaBear,
        index_res: KoalaBear,
        args: PrecompileCompTimeArgs,
        memory: &mut M,
        trace: &mut TableTrace,
    ) -> (r: Result<(), RunnerError>)
        requires
            addresses_fit(
                args,
                arg_a.value as int,
                arg_b.value as int,
                index_res.value as int,
            ),
            blake3_precompile_data(true, true, hardcoded_offset(args)) <= usize::MAX,
            old(trace).columns@.len() >= BLAKE3_N_TOTAL_COLS,
        ensures
            final(trace).columns@.len() == old(trace).columns@.len(),
            final(trace).non_padded_n_rows == old(trace).non_padded_n_rows,
            final(trace).log_n_rows == old(trace).log_n_rows,
            !operands_defined(
                *old(memory),
                args,
                arg_a.value as int,
                arg_b.value as int,
            ) ==> {
                &&& r is Err
                &&& operand_error(
                    *old(memory),
                    args,
                    arg_a.value as int,
                    arg_b.value as int,
                    r->Err_0,
                )
                &&& *final(memory) == *old(memory)
            },
            operands_defined(*old(memory), args, arg_a.value as int, arg_b.value as int) ==> {
                let output = call_output(
                    *old(memory),
                    args,
                    arg_a.value as int,
                    arg_b.value as int,
                );
                if accepts_all::<M>(old(memory).contents(), index_res.value as int, output) {
                    &&& r is Ok
                    &&& final(memory).contents() == stored_all::<M>(
                        old(memory).contents(),
                        index_res.value as int,
                        output,
                    )
                } else {
                    &&& r is Err
                    &&& stopped_at_refusal::<M>(
                        old(memory).contents(),
                        final(memory).contents(),
                        index_res.value as int,
                        output,
                    )
                }
            },
            r is Ok ==> {
                let left = left_operand(*old(memory), args, arg_a.value as int);
                let right = cells(*old(memory), arg_b.value as int, 8);
                &&& written(
                    *old(memory),
                    *final(memory),
                    index_res.value as int,
                    call_output(
                        *old(memory),
                        args,
                        arg_a.value as int,
                        arg_b.value as int,
                    ),
                )
                &&& forall|c: int|
                    0 <= c < old(trace).columns@.len() ==> (#[trigger] final(trace).columns@[c])@
                        == if c < BLAKE3_N_TOTAL_COLS {
                        old(trace).columns@[c]@.push(
                            call_cell(left, right, args, arg_a, arg_b, index_res, c),
                        )
                    } else {
                        old(trace).columns@[c]@
                    }
            },
            r is Err ==> final(trace).columns@ == old(trace).columns@,
    {
        let a: usize = arg_a.to_usize();
        let b: usize = arg_b.to_usize();
        let PrecompileCompTimeArgs::Blake3Compress { half_output: half, hardcoded_offset_left } =
            args;
        let call = match read_operands(memory, args, a, b) {
            Ok(call) => call,
            Err(e) => {
                return Err(e);
            },
        };
        match write_output(memory, index_res.to_usize(), &call.output, half) {
            Ok(()) => {},
            Err(e) => {
                return Err(e);
            },
        }
        let (hardcoded, offset, first_addr, second_addr): (bool, usize, usize, usize) =
            match hardcoded_offset_left {
            Some(o) => (true, o, o, a),
            None => (false, 0, a, a + HALF_DIGEST_LEN),
        };
        let mut row: Vec<KoalaBear> = vec![KoalaBear::zero(); BLAKE3_N_TOTAL_COLS];
        row[BLAKE3_COL_FLAG] = KoalaBear::one();
        row[BLAKE3_COL_INDEX_RIGHT] = arg_b;
        row[BLAKE3_COL_INDEX_RES] = index_res;
        row[BLAKE3_COL_FLAG_HALF_OUTPUT] = KoalaBear::from_bool(half);
        row[BLAKE3_COL_FLAG_HARDCODED_LEFT] = KoalaBear::from_bool(hardcoded);
        row[BLAKE3_COL_OFFSET_HARDCODED_LEFT] = KoalaBear::from_usize(offset);
        row[BLAKE3_COL_EFFECTIVE_INDEX_LEFT_FIRST] = KoalaBear::from_usize(first_addr);
        row[BLAKE3_COL_EFFECTIVE_INDEX_LEFT_SECOND] = KoalaBear::from_usize(second_addr);
        row[BLAKE3_COL_INDEX_LEFT] = arg_a;
        let half_bit: usize = if half {
            1
        } else {
            0
        };
        let hardcoded_bit: usize = if hardcoded {
            1
        } else {
            0
        };
        row[BLAKE3_COL_PRECOMPILE_DATA] = KoalaBear::from_usize(
            BLAKE3_PRECOMPILE_DATA + BLAKE3_HALF_OUTPUT_SHIFT * half_bit
                + BLAKE3_HARDCODED_LEFT_FLAG_SHIFT * hardcoded_bit
                + BLAKE3_HARDCODED_LEFT_OFFSET_SHIFT * offset,
        );
        let ghost row0 = row@;
        let mut i: usize = 0;
        while i < 8
            invariant
                i <= 8,
                row@.len() == BLAKE3_N_TOTAL_COLS,
                row0.len() == BLAKE3_N_TOTAL_COLS,
                forall|c: int|
                    0 <= c < BLAKE3_N_TOTAL_COLS ==> #[trigger] row@[c] == if 8 <= c < 8 + i {
                        call.left@[c - 8]
                    } else if 16 <= c < 16 + i {
                        call.right@[c - 16]
                    } else if 24 <= c < 24 + i {
                        call.output@[c - 24]
                    } else {
                        row0[c]
                    },
            decreases 8 - i,
        {
            row[BLAKE3_COL_INPUT_START + i] = call.left[i];
            row[BLAKE3_COL_INPUT_START + DIGEST_LEN + i] = call.right[i];
            row[BLAKE3_COL_OUTPUT_START + i] = call.output[i];
            i += 1;
        }
        assert forall|c: int| 0 <= c < BLAKE3_N_TOTAL_COLS implies #[trigger] row@[c] == call_cell(
            call.left@,
            call.right@,
            args,
            arg_a,
            arg_b,
            index_res,
            c,
        ) by {}
        let mut c: usize = 0;
        while c < BLAKE3_N_TOTAL_COLS
            invariant
                c <= BLAKE3_N_TOTAL_COLS,
                row@.len() == BLAKE3_N_TOTAL_COLS,
                trace.columns@.len() == old(trace).columns@.len(),
                trace.columns@.len() >= BLAKE3_N_TOTAL_COLS,
                trace.non_padded_n_rows == old(trace).non_padded_n_rows,
                trace.log_n_rows == old(trace).log_n_rows,
                forall|j: int|
                    0 <= j < trace.columns@.len() ==> (#[trigger] trace.columns@[j])@ == if j < c {
                        old(trace).columns@[j]@.push(row@[j])
                    } else {
                        old(trace).columns@[j]@
                    },
            decreases BLAKE3_N_TOTAL_COLS - c,
        {
            trace.columns[c].push(row[c]);
            c += 1;
        }
        Ok(())
    }

    pub fn n_columns(&self) -> (r: usize)
        ensures
            r == BLAKE3_N_COMMITTED_COLS,
    {
        BLAKE3_N_COMMITTED_COLS
    }

    pub fn degree_air(&self) -> (r: usize)
        ensures
            r == 3,
    {
        3
    }

    /// No column flows to the next row.
    pub fn down_column_indexes(&self) -> (r: Vec<usize>)
        ensures
            r@.len() == 0,
    {
        Vec::new()
    }

    pub fn n_constraints(&self) -> (r: usize)
        ensures
            r == if BUS {
                6
            } else {
                5int
            },
    {
        let on_bus: usize = if BUS {
            1
        } else {
            0
        };
        on_bus + 5
    }

    /// Evaluates the constraints on a row.
    pub fn eval<R: Ring>(&self, up: &[R]) -> (r: CallEvaluation<R>)
        requires
            up@.len() >= BLAKE3_N_COMMITTED_COLS,
        ensures
            r.bus_selector == up@[BLAKE3_COL_FLAG as int],
            r.bus_data@ == seq![
                reconstructed_data(up@),
                reconstructed_index(up@),
                up@[BLAKE3_COL_INDEX_RIGHT as int],
                up@[BLAKE3_COL_INDEX_RES as int],
            ],
            r.on_bus == BUS,
            r.constraints@ == call_constraints(up@),
    {
        let flag_active = up[BLAKE3_COL_FLAG];
        let flag_half = up[BLAKE3_COL_FLAG_HALF_OUTPUT];
        let flag_left = up[BLAKE3_COL_FLAG_HARDCODED_LEFT];
        let offset = up[BLAKE3_COL_OFFSET_HARDCODED_LEFT];
        let first = up[BLAKE3_COL_EFFECTIVE_INDEX_LEFT_FIRST];
        let second = up[BLAKE3_COL_EFFECTIVE_INDEX_LEFT_SECOND];
        let data = R::from_usize(BLAKE3_PRECOMPILE_DATA).add(
            flag_half.mul(R::from_usize(BLAKE3_HALF_OUTPUT_SHIFT)),
        ).add(flag_left.mul(R::from_usize(BLAKE3_HARDCODED_LEFT_FLAG_SHIFT))).add(
            flag_left.mul(offset).mul(R::from_usize(BLAKE3_HARDCODED_LEFT_OFFSET_SHIFT)),
        );
        let not_left = R::one().sub(flag_left);
        let index_a = second.sub(not_left.mul(R::from_usize(HALF_DIGEST_LEN)));
        let bus_data = [data, index_a, up[BLAKE3_COL_INDEX_RIGHT], up[BLAKE3_COL_INDEX_RES]];
        let mut constraints: Vec<R> = Vec::new();
        constraints.push(bool_expr(flag_active));
        constraints.push(bool_expr(flag_half));
        constraints.push(bool_expr(flag_left));
        constraints.push(flag_left.mul(offset.sub(first)));
        constraints.push(not_left.mul(index_a.sub(first)));
        assert(constraints@ =~= call_constraints(up@));
        assert(bus_data@ =~= seq![
            reconstructed_data(up@),
            reconstructed_index(up@),
            up@[BLAKE3_COL_INDEX_RIGHT as int],
            up@[BLAKE3_COL_INDEX_RES as int],
        ]);
        CallEvaluation { bus_selector: flag_active, bus_data, on_bus: BUS, constraints }
    }
}

/// The row of a call meets every constraint, and what it puts on the bus is what its virtual
/// columns hold: the discriminator of the call and the left address.
pub proof fn law_call_row_satisfies_constraints(
    left: Seq<KoalaBear>,
    right: Seq<KoalaBear>,
    args: PrecompileCompTimeArgs,
    arg_a: KoalaBear,
    arg_b: KoalaBear,
    index_res: KoalaBear,
    up: Seq<KoalaBear>,
)
    requires
        arg_a.canonical(),
        up.len() == BLAKE3_N_TOTAL_COLS,
        forall|c: int|
            0 <= c < BLAKE3_N_TOTAL_COLS ==> #[trigger] up[c] == call_cell(
                left,
                right,
                args,
                arg_a,
                arg_b,
                index_res,
                c,
            ),
    ensures
        forall|i: int| 0 <= i < 5 ==> #[trigger] call_constraints(up)[i] == KoalaBear::ring_zero(),
        reconstructed_data(up) == up[BLAKE3_COL_PRECOMPILE_DATA as int],
        reconstructed_index(up) == up[BLAKE3_COL_INDEX_LEFT as int],
{
    let a = arg_a.value as int;
    let hardcoded = bit(is_hardcoded(args));
    assert(up[BLAKE3_COL_FLAG as int] == kb(1));
    assert(up[BLAKE3_COL_FLAG_HALF_OUTPUT as int] == kb(bit(half_output(args))));
    assert(up[BLAKE3_COL_FLAG_HARDCODED_LEFT as int] == kb(hardcoded));
    assert(up[BLAKE3_COL_OFFSET_HARDCODED_LEFT as int] == kb(hardcoded_offset(args)));
    assert(up[BLAKE3_COL_EFFECTIVE_INDEX_LEFT_FIRST as int] == kb(left_first(args, a)));
    assert(up[BLAKE3_COL_EFFECTIVE_INDEX_LEFT_SECOND as int] == kb(left_second(args, a)));
    assert(up[BLAKE3_COL_INDEX_LEFT as int] == arg_a);
    assert(arg_a == kb(a)) by {
        vstd::arithmetic::div_mod::lemma_small_mod(
            a as nat,
            crate::field::ORDER_U32 as nat,
        );
    }
    lemma_call_row(
        up,
        bit(half_output(args)),
        hardcoded,
        hardcoded_offset(args),
        left_first(args, a),
        left_second(args, a),
        a,
    );
}

proof fn lemma_call_row<R: Ring>(
    up: Seq<R>,
    half: int,
    hardcoded: int,
    offset: int,
    first: int,
    second: int,
    a: int,
)
    requires
        half == 0 || half == 1,
        hardcoded == 0 || hardcoded == 1,
        hardcoded == 0 ==> offset == 0 && first == a && second == a + 4,
        hardcoded == 1 ==> first == offset && second == a,
        up[BLAKE3_COL_FLAG as int] == R::of(1),
        up[BLAKE3_COL_FLAG_HALF_OUTPUT as int] == R::of(half),
        up[BLAKE3_COL_FLAG_HARDCODED_LEFT as int] == R::of(hardcoded),
        up[BLAKE3_COL_OFFSET_HARDCODED_LEFT as int] == R::of(offset),
        up[BLAKE3_COL_EFFECTIVE_INDEX_LEFT_FIRST as int] == R::of(first),
        up[BLAKE3_COL_EFFECTIVE_INDEX_LEFT_SECOND as int] == R::of(second),
    ensures
        forall|i: int| 0 <= i < 5 ==> #[trigger] call_constraints(up)[i] == R::ring_zero(),
        reconstructed_data(up) == R::of(7 + 8 * half + 16 * hardcoded + 32 * offset),
        reconstructed_index(up) == R::of(a),
{
    R::law_of(half, 8);
    R::law_of(hardcoded, 16);
    R::law_of(hardcoded, offset);
    R::law_of(hardcoded * offset, 32);
    R::law_of(7, half * 8);
    R::law_of(7 + half * 8, hardcoded * 16);
    R::law_of(7 + half * 8 + hardcoded * 16, hardcoded * offset * 32);
    assert(hardcoded * offset == offset) by (nonlinear_arith)
        requires
            hardcoded == 0 ==> offset == 0,
            hardcoded == 0 || hardcoded == 1,
    ;
    R::law_of(1, hardcoded);
    R::law_of(1 - hardcoded, 4);
    R::law_of(second, (1 - hardcoded) * 4);
    let flag = R::of(hardcoded);
    assert(reconstructed_index(up) == R::of(a));
    lemma_bits::<R>(1);
    lemma_bits::<R>(half);
    lemma_bits::<R>(hardcoded);
    lemma_minus_self(R::of(first));
    lemma_zero_times(flag);
    lemma_zero_times(R::of(offset).minus(R::of(first)));
    lemma_zero_times(R::ring_one().minus(flag));
    lemma_zero_times(R::of(a).minus(R::of(first)));
    R::law_of(0, 0);
}

proof fn lemma_bits<R: Ring>(b: int)
    requires
        b == 0 || b == 1,
    ensures
        bool_constraint(R::of(b)) == R::ring_zero(),
{
    R::law_of(b, 1);
    R::law_of(b, b - 1);
    assert(b * (b - 1) == 0) by (nonlinear_arith)
        requires
            b == 0 || b == 1,
    ;
}

} // verus!
