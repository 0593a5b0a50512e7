//! What the table of Blake3 calls guarantees: what its constraints enforce on a row, what a call does
//! to memory, and that the lookups of its row read what memory holds.

use crate::blake3_hash::{compress_spec, lemma_compress_len};
use crate::field::{kb, KoalaBear, Ring, ORDER_U32};
use crate::memory::{MemoryAccess, MemoryLookup};
use crate::tables::blake3_table::{
    blake3_bus, blake3_lookups, call_cell, call_constraints, reconstructed_data,
    reconstructed_index, BLAKE3_COL_EFFECTIVE_INDEX_LEFT_FIRST,
    BLAKE3_COL_EFFECTIVE_INDEX_LEFT_SECOND, BLAKE3_COL_FLAG, BLAKE3_COL_FLAG_HALF_OUTPUT,
    BLAKE3_COL_FLAG_HARDCODED_LEFT, BLAKE3_COL_INDEX_LEFT, BLAKE3_COL_INDEX_RES,
    BLAKE3_COL_INDEX_RIGHT, BLAKE3_COL_OFFSET_HARDCODED_LEFT, BLAKE3_COL_PRECOMPILE_DATA,
    BLAKE3_N_COMMITTED_COLS, BLAKE3_N_TOTAL_COLS,
};
use crate::tables::constrained_soundness::{lemma_congruent, lemma_own_residue};
use crate::tables::constrained_soundness::law_bool_constraint_sound;
use crate::tables::constrained_table::{
    call_output, cells, left_operand, written, PrecompileCompTimeArgs,
};
use crate::tables::table_trait::{BusData, BusDirection};
use vstd::arithmetic::div_mod::lemma_small_mod;
use vstd::prelude::*;

verus! {

/// The constraints of a row enforce a call. Where all of them vanish, the three flags are bits, and
/// the address of the first half of the left operand is the fixed offset where the flag for it is
/// set, and the left address on the bus otherwise; the second half then stands four cells behind.
/// The number on the bus is that of the flags and the offset.
pub proof fn law_call_constraints_sound(up: Seq<KoalaBear>)
    requires
        up.len() >= BLAKE3_N_COMMITTED_COLS,
        forall|c: int| 0 <= c < BLAKE3_N_COMMITTED_COLS ==> (#[trigger] up[c]).canonical(),
        forall|i: int| 0 <= i < 5 ==> #[trigger] call_constraints(up)[i] == KoalaBear::ring_zero(),
    ensures
        call_constraints(up).len() == 5,
        ({
            let active = up[BLAKE3_COL_FLAG as int].value;
            let half = up[BLAKE3_COL_FLAG_HALF_OUTPUT as int].value;
            let fixed = up[BLAKE3_COL_FLAG_HARDCODED_LEFT as int].value;
            let offset = up[BLAKE3_COL_OFFSET_HARDCODED_LEFT as int].value;
            let first = up[BLAKE3_COL_EFFECTIVE_INDEX_LEFT_FIRST as int].value;
            let second = up[BLAKE3_COL_EFFECTIVE_INDEX_LEFT_SECOND as int].value;
            &&& active == 0 || active == 1
            &&& half == 0 || half == 1
            &&& fixed == 0 || fixed == 1
            &&& fixed == 1 ==> first == offset && reconstructed_index(up).value == second
            &&& fixed == 0 ==> reconstructed_index(up).value == first && second as int == (first
                + 4) % (ORDER_U32 as int)
            &&& reconstructed_data(up).value as int == (7 + 8 * half + 16 * fixed + if fixed == 1 {
                32 * offset
            } else {
                0
            }) % (ORDER_U32 as int)
        }),
{
    let cs = call_constraints(up);
    assert(cs[0] == kb(0) && cs[1] == kb(0) && cs[2] == kb(0) && cs[3] == kb(0) && cs[4] == kb(0));
    let active = up[BLAKE3_COL_FLAG as int];
    let half = up[BLAKE3_COL_FLAG_HALF_OUTPUT as int];
    let fixed = up[BLAKE3_COL_FLAG_HARDCODED_LEFT as int];
    let offset = up[BLAKE3_COL_OFFSET_HARDCODED_LEFT as int];
    let first = up[BLAKE3_COL_EFFECTIVE_INDEX_LEFT_FIRST as int];
    let second = up[BLAKE3_COL_EFFECTIVE_INDEX_LEFT_SECOND as int];
    assert(offset.canonical() && first.canonical() && second.canonical());
    law_bool_constraint_sound(active);
    law_bool_constraint_sound(half);
    law_bool_constraint_sound(fixed);
    let (h, x) = (half.value as int, fixed.value as int);
    let (o, f, s) = (offset.value as int, first.value as int, second.value as int);
    lemma_own_residue(half);
    lemma_own_residue(fixed);
    lemma_own_residue(offset);
    lemma_own_residue(first);
    lemma_own_residue(second);
    KoalaBear::law_of(h, 8);
    KoalaBear::law_of(x, 16);
    KoalaBear::law_of(x, o);
    KoalaBear::law_of(x * o, 32);
    KoalaBear::law_of(7, h * 8);
    KoalaBear::law_of(7 + h * 8, x * 16);
    KoalaBear::law_of(7 + h * 8 + x * 16, x * o * 32);
    assert(x * o * 32 == if x == 1 {
        32 * o
    } else {
        0
    }) by (nonlinear_arith)
        requires
            x == 0 || x == 1,
    ;
    KoalaBear::law_of(1, x);
    KoalaBear::law_of(1 - x, 4);
    KoalaBear::law_of(s, (1 - x) * 4);
    KoalaBear::law_of(o, f);
    KoalaBear::law_of(1, o - f);
    KoalaBear::law_of(s - 4, f);
    KoalaBear::law_of(1, s - 4 - f);
    if x == 1 {
        lemma_congruent(o, f);
    } else {
        lemma_congruent(s - 4, f);
        lemma_congruent(s, f + 4);
    }
}

/// What a call puts on the bus: one pull, selected by the flag of the row, of its number, the left
/// address, the right one and that of the result.
pub proof fn law_call_bus()
    ensures
        blake3_bus().direction == BusDirection::Pull,
        blake3_bus().selector == BLAKE3_COL_FLAG,
        blake3_bus().data == seq![
            BusData::Column(BLAKE3_COL_PRECOMPILE_DATA),
            BusData::Column(BLAKE3_COL_INDEX_LEFT),
            BusData::Column(BLAKE3_COL_INDEX_RIGHT),
            BusData::Column(BLAKE3_COL_INDEX_RES),
        ],
{
}

/// What a call does to memory. With the left operand's halves at the fixed address and at `a`, or
/// at `a` and four cells behind, and the right operand at `b`, the digest of both stands at `res`
/// afterwards, or its first half alone, and no other cell has changed.
pub proof fn law_call_memory<M: MemoryAccess>(
    before: M,
    after: M,
    half: bool,
    fixed: Option<usize>,
    a: int,
    b: int,
    res: int,
    first: int,
    second: int,
    left: Seq<KoalaBear>,
    right: Seq<KoalaBear>,
)
    requires
        ({
            let args = PrecompileCompTimeArgs::Blake3Compress {
                half_output: half,
                hardcoded_offset_left: fixed,
            };
            written(before, after, res, call_output(before, args, a, b))
        }),
        fixed matches Some(o) ==> first == o && second == a,
        fixed is None ==> first == a && second == a + 4,
        left.len() == 8,
        right.len() == 8,
        forall|i: int| 0 <= i < 4 ==> #[trigger] left[i] == before.lookup(first + i)->0,
        forall|i: int| 4 <= i < 8 ==> #[trigger] left[i] == before.lookup(second + i - 4)->0,
        forall|i: int| 0 <= i < 8 ==> #[trigger] right[i] == before.lookup(b + i)->0,
    ensures
        forall|j: int|
            0 <= j < 8 && (half ==> j < 4) ==> #[trigger] after.lookup(res + j) == Some(
                compress_spec(left, right)[j],
            ),
        forall|addr: int|
            !(res <= addr < res + 8 && (half ==> addr < res + 4)) && before.lookup(addr) is Some
                ==> #[trigger] after.lookup(addr) == before.lookup(addr),
{
    let args = PrecompileCompTimeArgs::Blake3Compress {
        half_output: half,
        hardcoded_offset_left: fixed,
    };
    assert forall|i: int| 0 <= i < 8 implies #[trigger] left[i] == left_operand(before, args, a)[i] by {
        if i < 4 {
            assert(before.lookup(first + i)->0 == left[i]);
        } else {
            assert(before.lookup(second + (i - 4))->0 == left[i]);
        }
    }
    assert(left =~= left_operand(before, args, a));
    assert(right =~= cells(before, b, 8));
    lemma_compress_len(left, right);
    let output = call_output(before, args, a, b);
    assert forall|j: int| 0 <= j < 8 && (half ==> j < 4) implies #[trigger] after.lookup(res + j)
        == Some(compress_spec(left, right)[j]) by {
        assert(output[j] == compress_spec(left, right)[j]);
    }
}

/// The lookups of the row of a call read what memory holds: where memory holds the operands at the
/// addresses of the call and the output at `res`, every lookup that the row's flags leave active
/// finds its value.
pub proof fn law_call_lookups_hold<M: MemoryAccess>(
    memory: M,
    half: bool,
    fixed: Option<usize>,
    arg_a: KoalaBear,
    arg_b: KoalaBear,
    index_res: KoalaBear,
    first: int,
    second: int,
    left: Seq<KoalaBear>,
    right: Seq<KoalaBear>,
    row: Seq<KoalaBear>,
    k: int,
    i: int,
)
    requires
        left.len() == 8,
        right.len() == 8,
        row.len() == BLAKE3_N_TOTAL_COLS,
        ({
            let args = PrecompileCompTimeArgs::Blake3Compress {
                half_output: half,
                hardcoded_offset_left: fixed,
            };
            forall|c: int|
                0 <= c < BLAKE3_N_TOTAL_COLS ==> #[trigger] row[c] == call_cell(
                    left,
                    right,
                    args,
                    arg_a,
                    arg_b,
                    index_res,
                    c,
                )
        }),
        arg_a.value + 4 < ORDER_U32,
        fixed matches Some(o) ==> o < ORDER_U32,
        fixed matches Some(o) ==> first == o && second == arg_a.value,
        fixed is None ==> first == arg_a.value && second == arg_a.value + 4,
        forall|i: int| 0 <= i < 4 ==> #[trigger] memory.lookup(first + i) == Some(left[i]),
        forall|i: int| 0 <= i < 4 ==> #[trigger] memory.lookup(second + i) == Some(left[4 + i]),
        forall|i: int| 0 <= i < 8 ==> #[trigger] memory.lookup(arg_b.value + i) == Some(right[i]),
        forall|i: int|
            0 <= i < 8 && (half ==> i < 4) ==> #[trigger] memory.lookup(index_res.value + i) == Some(
                compress_spec(left, right)[i],
            ),
        0 <= k < blake3_lookups().len(),
        0 <= i < blake3_lookups()[k].values.len(),
        forall|q: int|
            0 <= q < blake3_lookups()[k].conditional_inactive.len()
                ==> row[#[trigger] blake3_lookups()[k].conditional_inactive[q] as int] == kb(0),
    ensures
        ({
            let l = blake3_lookups()[k];
            memory.lookup(row[l.index as int].value + l.address_offset + i) == Some(
                row[l.values[i] as int],
            )
        }),
{
    let l = blake3_lookups()[k];
    lemma_small_mod(first as nat, ORDER_U32 as nat);
    lemma_small_mod(second as nat, ORDER_U32 as nat);
    lemma_compress_len(left, right);
    if k == 0 {
        assert(memory.lookup(first + i) == Some(left[i]));
    } else if k == 1 {
        assert(memory.lookup(second + i) == Some(left[4 + i]));
    } else if k == 2 {
        assert(memory.lookup(arg_b.value + i) == Some(right[i]));
    } else if k == 3 {
        assert(memory.lookup(index_res.value + i) == Some(compress_spec(left, right)[i]));
    } else {
        assert(row[l.conditional_inactive[0] as int] == kb(0));
        assert(row[BLAKE3_COL_FLAG_HALF_OUTPUT as int] == kb(0));
        assert(!half);
        assert(memory.lookup(index_res.value + (4 + i)) == Some(compress_spec(left, right)[4 + i]));
    }
}

/// Every operand and output cell of a row is read by a lookup, at its place in the operand or the
/// digest: those of a call with half an output apart, none is left to chance.
pub proof fn law_call_lookups_cover(c: int)
    requires
        8 <= c < 32,
    ensures
        exists|k: int, i: int|
            #![trigger blake3_lookups()[k].values[i]]
            {
                let l = blake3_lookups()[k];
                &&& 0 <= k < blake3_lookups().len()
                &&& 0 <= i < l.values.len()
                &&& l.values[i] == c
                &&& l.computed_address is None
                &&& c < 12 ==> l.index == BLAKE3_COL_EFFECTIVE_INDEX_LEFT_FIRST
                    && l.address_offset + i == c - 8
                &&& 12 <= c < 16 ==> l.index == BLAKE3_COL_EFFECTIVE_INDEX_LEFT_SECOND
                    && l.address_offset + i == c - 12
                &&& 16 <= c < 24 ==> l.index == BLAKE3_COL_INDEX_RIGHT && l.address_offset + i == c
                    - 16
                &&& 24 <= c ==> l.index == BLAKE3_COL_INDEX_RES && l.address_offset + i == c - 24
                &&& c < 28 ==> l.conditional_inactive.len() == 0
                &&& 28 <= c ==> l.conditional_inactive == seq![BLAKE3_COL_FLAG_HALF_OUTPUT]
            },
{
    if c < 12 {
        assert(blake3_lookups()[0].values[c - 8] == c);
    } else if c < 16 {
        assert(blake3_lookups()[1].values[c - 12] == c);
    } else if c < 24 {
        assert(blake3_lookups()[2].values[c - 16] == c);
    } else if c < 28 {
        assert(blake3_lookups()[3].values[c - 24] == c);
    } else {
        assert(blake3_lookups()[4].values[c - 28] == c);
    }
}

} // verus!
