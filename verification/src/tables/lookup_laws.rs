//! What the tables put on the bus and read from memory, and what their rows hold.

use crate::blake3_hash::{compress_spec, lemma_compress_len};
use crate::field::{kb, KoalaBear};
use crate::memory::{MemoryAccess, MemoryLookup, RunnerError};
use crate::tables::blake3_table::{blake3_lookups, blake3_padding, call_cell};
use crate::tables::constrained_soundness::lookups_hold;
use crate::tables::constrained_table::{
    constrained_bus, constrained_lookups, constrained_padding, operand_error, operands_defined,
    table_interactions, PrecompileCompTimeArgs, CONSTRAINED_BLAKE3_PRECOMPILE_DATA,
};
use crate::tables::table_trait::{
    default_interactions, interactions, lookup_interactions, lookup_views, lookups_interactions,
    memory_push, BusData, BusDirection, BusInteraction, BusMultiplicity, BusView,
    LookupIntoMemory, LookupView,
};
use vstd::prelude::*;

verus! {

/// Where the interactions of each lookup start among those of all lookups.
pub open spec fn interaction_positions(lookups: Seq<LookupView>, at: Seq<int>) -> bool {
    &&& at.len() == lookups.len() + 1
    &&& at[0] == 0
    &&& forall|i: int|
        0 <= i < lookups.len() ==> at[i + 1] == at[i] + (#[trigger] lookups[i]).values.len()
}

proof fn lemma_interaction_at(lookups: Seq<LookupView>, at: Seq<int>, i: int, k: int)
    requires
        interaction_positions(lookups, at),
    ensures
        lookups_interactions(lookups).len() == at.last(),
        0 <= i < lookups.len() && 0 <= k < lookups[i].values.len() ==> 0 <= at[i] + k < at.last()
            && lookups_interactions(lookups)[at[i] + k] == lookup_interactions(lookups[i])[k],
    decreases lookups.len(),
{
    if lookups.len() > 0 {
        let init = lookups.drop_last();
        let before = at.drop_last();
        let n = lookups.len() - 1;
        assert forall|j: int| 0 <= j < init.len() implies before[j + 1] == before[j] + (
        #[trigger] init[j]).values.len() by {
            assert(init[j] == lookups[j]);
        }
        lemma_interaction_at(init, before, i, k);
        assert(at[n + 1] == at[n] + lookups[n].values.len());
        if 0 <= i < n {
            assert(init[i] == lookups[i]);
        }
    }
}

/// A table puts its bus first: under the table's selector, what the bus lists last separates it
/// from others and the rest is sent. Behind it each value of each lookup is one push onto the memory
/// bus, of the value's address, which is that of the lookup plus its offset plus the place of the
/// value, and of the value.
pub proof fn law_default_interactions(
    bus: BusView,
    lookups: Seq<LookupView>,
    at: Seq<int>,
    i: int,
    k: int,
)
    requires
        interaction_positions(lookups, at),
    ensures
        default_interactions(bus, lookups).len() == 1 + at.last(),
        default_interactions(bus, lookups)[0].direction == bus.direction,
        default_interactions(bus, lookups)[0].multiplicity == BusMultiplicity::Column(bus.selector),
        bus.data.len() > 0 ==> default_interactions(bus, lookups)[0].domainsep
            == bus.data[bus.data.len() - 1] && default_interactions(bus, lookups)[0].data
            == bus.data.take(bus.data.len() - 1),
        0 <= i < lookups.len() && 0 <= k < lookups[i].values.len() ==> ({
            let push = default_interactions(bus, lookups)[1 + at[i] + k];
            &&& push.direction == BusDirection::Push
            &&& push.multiplicity == BusMultiplicity::One
            &&& push.domainsep == BusData::Constant(0)
            &&& lookups[i].computed_address is None && lookups[i].address_offset + k <= usize::MAX
                ==> push.data == seq![
                BusData::ColumnPlusConstant(
                    lookups[i].index,
                    (lookups[i].address_offset + k) as usize,
                ),
                BusData::Column(lookups[i].values[k]),
            ]
            &&& lookups[i].computed_address is Some ==> push.data == seq![
                BusData::Column(lookups[i].values[k]),
            ]
        }),
{
    lemma_interaction_at(lookups, at, i, k);
    assert(bus.data.len() > 0 ==> bus.data.drop_last() =~= bus.data.take(bus.data.len() - 1));
}

/// The lookups of the constrained table, for each of its four G-functions: both message words, and
/// where there is an XOR table the four bytes of each of the four XORs. The interactions with the
/// bus are, behind that of the call, the pushes of the same pairs of columns.
pub proof fn law_constrained_lookups(base: usize, g: int, k: int, b: int)
    requires
        0 <= g < 4,
        0 <= k < 4,
        0 <= b < 4,
    ensures
        constrained_lookups(base).len() == (if base == 0 {
            8int
        } else {
            72int
        }),
        table_interactions(base).len() == constrained_lookups(base).len() + 1,
        ({
            let x = constrained_lookups(base)[2 * g];
            let y = constrained_lookups(base)[2 * g + 1];
            let px = table_interactions(base)[2 * g + 1];
            let py = table_interactions(base)[2 * g + 2];
            &&& x.index == 32 + 72 * g + 65 && x.values == seq![(32 + 72 * g + 60) as usize]
            &&& y.index == 32 + 72 * g + 71 && y.values == seq![(32 + 72 * g + 66) as usize]
            &&& x.address_offset == 0 && x.conditional_inactive.len() == 0
            &&& y.address_offset == 0 && y.conditional_inactive.len() == 0
            &&& x.computed_address is None && y.computed_address is None
            &&& px.data == seq![BusData::Column(x.index), BusData::Column(x.values[0])]
            &&& py.data == seq![BusData::Column(y.index), BusData::Column(y.values[0])]
            &&& px.direction == BusDirection::Push && py.direction == BusDirection::Push
            &&& px.multiplicity == BusMultiplicity::One && py.multiplicity == BusMultiplicity::One
            &&& px.domainsep == BusData::Constant(0) && py.domainsep == BusData::Constant(0)
        }),
        base != 0 ==> ({
            let at = 8 + 16 * g + 4 * k + b;
            let l = constrained_lookups(base)[at];
            let p = table_interactions(base)[at + 1];
            let (addrs, bytes) = if k == 0 {
                (12int, 8int)
            } else if k == 1 {
                (28int, 24int)
            } else if k == 2 {
                (42int, 38int)
            } else {
                (54int, 50int)
            };
            &&& l.index == 32 + 72 * g + addrs + b
            &&& l.values == seq![(32 + 72 * g + bytes + b) as usize]
            &&& l.address_offset == 0 && l.conditional_inactive.len() == 0
            &&& l.computed_address is None
            &&& p.data == seq![BusData::Column(l.index), BusData::Column(l.values[0])]
            &&& p.direction == BusDirection::Push
            &&& p.multiplicity == BusMultiplicity::One
            &&& p.domainsep == BusData::Constant(0)
        }),
{
    let x = 16 * g + 4 * k + b;
    assert(x / 16 == g && (x / 4) % 4 == k && x % 4 == b);
    assert((2 * g) / 2 == g && (2 * g + 1) / 2 == g && (2 * g) % 2 == 0 && (2 * g + 1) % 2 == 1);
}

/// Where the lookups of a row read what memory holds, and memory holds the XOR table from `base` on,
/// every XOR of the row is one: where the address looked up is that of two bytes, the byte that
/// stands beside it is their XOR.
pub proof fn law_lookups_give_xors<M: MemoryAccess>(
    memory: M,
    row: Seq<KoalaBear>,
    base: usize,
    g: int,
    k: int,
    addrs: int,
    bytes: int,
)
    requires
        base != 0,
        base + 65536 < 2_130_706_433,
        forall|x: u32, z: u32|
            x < 256 && z < 256 ==> memory.lookup(base + 256 * x + z) == Some(
                kb(#[trigger] (x ^ z) as int),
            ),
        forall|i: int|
            0 <= i < constrained_lookups(base).len() ==> memory.lookup(
                row[(#[trigger] constrained_lookups(base)[i]).index as int].value as int,
            ) == Some(row[constrained_lookups(base)[i].values[0] as int]),
        0 <= g < 4,
        k == 0 ==> addrs == 12 && bytes == 8,
        k == 1 ==> addrs == 28 && bytes == 24,
        k == 2 ==> addrs == 42 && bytes == 38,
        k == 3 ==> addrs == 54 && bytes == 50,
        0 <= k < 4,
    ensures
        lookups_hold(row, g, base as int, addrs, bytes),
{
    assert forall|i: int, x: u32, z: u32|
        #![trigger crate::tables::constrained_air::g_cell(row, g, addrs + i), x ^ z]
        0 <= i < 4 && x < 256 && z < 256 && crate::tables::constrained_air::g_cell(
            row,
            g,
            addrs + i,
        ) == kb(base + 256 * x + z) implies crate::tables::constrained_air::g_cell(
        row,
        g,
        bytes + i,
    ) == kb((x ^ z) as int) by {
        law_constrained_lookups(base, g, k, i);
        let at = 8 + 16 * g + 4 * k + i;
        let l = constrained_lookups(base)[at];
        let n = base + 256 * x + z;
        assert(row[l.index as int] == kb(n));
        vstd::arithmetic::div_mod::lemma_small_mod(n as nat, 2_130_706_433nat);
        assert(row[l.index as int].value == n);
        assert(memory.lookup(n) == Some(kb((x ^ z) as int)));
    }
}

/// A padding row of the constrained table is no call, and its lookups read memory where zero stands
/// at the zero vector and at the front of the XOR table.
pub proof fn law_constrained_padding_lookups<M: MemoryAccess>(
    memory: M,
    zero_vec_ptr: int,
    base: usize,
    g: int,
    k: int,
    b: int,
)
    requires
        0 <= zero_vec_ptr < 2_130_706_433,
        base < 2_130_706_433,
        memory.lookup(zero_vec_ptr) == Some(kb(0)),
        memory.lookup(base as int) == Some(kb(0)),
        0 <= g < 4,
        0 <= k < 4,
        0 <= b < 4,
    ensures
        ({
            let row = constrained_padding(zero_vec_ptr, base as int);
            let l = constrained_lookups(base);
            &&& row.len() == 361
            &&& forall|c: int| 352 <= c < 356 ==> (#[trigger] row[c]).value == 0
            &&& forall|c: int| 356 <= c < 360 ==> (#[trigger] row[c]).value == zero_vec_ptr
            &&& memory.lookup(row[l[2 * g].index as int].value as int) == Some(
                row[l[2 * g].values[0] as int],
            )
            &&& memory.lookup(row[l[2 * g + 1].index as int].value as int) == Some(
                row[l[2 * g + 1].values[0] as int],
            )
            &&& base != 0 ==> memory.lookup(
                row[l[8 + 16 * g + 4 * k + b].index as int].value as int,
            ) == Some(row[l[8 + 16 * g + 4 * k + b].values[0] as int])
        }),
{
    law_constrained_lookups(base, g, k, b);
    let p = 2_130_706_433nat;
    vstd::arithmetic::div_mod::lemma_small_mod(zero_vec_ptr as nat, p);
    vstd::arithmetic::div_mod::lemma_small_mod(base as nat, p);
    let row = constrained_padding(zero_vec_ptr, base as int);
    assert forall|o: int| 0 <= o < 72 implies #[trigger] row[32 + 72 * g + o] == (if o == 65 || o
        == 71 {
        kb(zero_vec_ptr)
    } else if 12 <= o < 16 || 28 <= o < 32 || 42 <= o < 46 || 54 <= o < 58 {
        kb(base as int)
    } else {
        kb(0)
    }) by {
        assert((72 * g + o) % 72 == o);
    }
    assert(row[32 + 72 * g + 65] == kb(zero_vec_ptr));
    assert(row[32 + 72 * g + 71] == kb(zero_vec_ptr));
    assert(row[32 + 72 * g + 60] == kb(0));
    assert(row[32 + 72 * g + 66] == kb(0));
    let (addrs, bytes) = if k == 0 {
        (12int, 8int)
    } else if k == 1 {
        (28int, 24int)
    } else if k == 2 {
        (42int, 38int)
    } else {
        (54int, 50int)
    };
    assert(row[32 + 72 * g + (addrs + b)] == kb(base as int));
    assert(row[32 + 72 * g + (bytes + b)] == kb(0));
}

/// The cells of a call's row: it is active, names the addresses of the call, the flags and the fixed
/// offset, zero where there is none, and where the halves of the left operand stand. Then come both
/// operands and their digest, the left address and the number that the call has on the bus.
pub proof fn law_call_row(
    left: Seq<KoalaBear>,
    right: Seq<KoalaBear>,
    half: bool,
    fixed: Option<usize>,
    arg_a: KoalaBear,
    arg_b: KoalaBear,
    index_res: KoalaBear,
    row: Seq<KoalaBear>,
    i: int,
)
    requires
        left.len() == 8,
        right.len() == 8,
        row.len() == 34,
        ({
            let args = PrecompileCompTimeArgs::Blake3Compress {
                half_output: half,
                hardcoded_offset_left: fixed,
            };
            forall|c: int|
                0 <= c < 34 ==> #[trigger] row[c] == call_cell(
                    left,
                    right,
                    args,
                    arg_a,
                    arg_b,
                    index_res,
                    c,
                )
        }),
        0 <= i < 8,
    ensures
        row[0] == kb(1),
        row[1] == arg_b,
        row[2] == index_res,
        row[3] == kb(if half {
            1
        } else {
            0
        }),
        row[4] == kb(if fixed is Some {
            1
        } else {
            0
        }),
        fixed is None ==> row[5] == kb(0) && row[6] == kb(arg_a.value as int) && row[7] == kb(
            arg_a.value + 4,
        ),
        fixed matches Some(o) ==> row[5] == kb(o as int) && row[6] == kb(o as int) && row[7] == kb(
            arg_a.value as int,
        ),
        row[8 + i] == left[i],
        row[16 + i] == right[i],
        row[24 + i] == compress_spec(left, right)[i],
        row[32] == arg_a,
        row[33] == kb(
            7 + (if half {
                8int
            } else {
                0
            }) + (match fixed {
                Some(o) => 16 + 32 * o,
                None => 0,
            }),
        ),
{
    lemma_compress_len(left, right);
    assert((left + right)[i] == left[i] && (left + right)[8 + i] == right[i]);
}

/// A padding row of the table of calls is no call, and its lookups read memory where eight zeros
/// stand at the zero vector and the digest of zeros at the other pointer.
pub proof fn law_call_padding_lookups<M: MemoryAccess>(
    memory: M,
    zero_vec_ptr: int,
    null_ptr: int,
    zeros: Seq<KoalaBear>,
    k: int,
    i: int,
)
    requires
        0 <= zero_vec_ptr,
        zero_vec_ptr + 4 < 2_130_706_433,
        0 <= null_ptr < 2_130_706_433,
        zeros.len() == 8,
        forall|j: int| 0 <= j < 8 ==> #[trigger] zeros[j] == kb(0),
        forall|j: int| 0 <= j < 8 ==> #[trigger] memory.lookup(zero_vec_ptr + j) == Some(kb(0)),
        forall|j: int|
            0 <= j < 8 ==> #[trigger] memory.lookup(null_ptr + j) == Some(
                compress_spec(zeros, zeros)[j],
            ),
        0 <= k < blake3_lookups().len(),
        0 <= i < blake3_lookups()[k].values.len(),
    ensures
        ({
            let row = blake3_padding(zero_vec_ptr, null_ptr);
            let l = blake3_lookups()[k];
            &&& row.len() == 34
            &&& row[0].value == 0
            &&& memory.lookup(row[l.index as int].value + l.address_offset + i) == Some(
                row[l.values[i] as int],
            )
        }),
{
    let row = blake3_padding(zero_vec_ptr, null_ptr);
    let own = Seq::new(8, |i: int| kb(0));
    assert(own =~= zeros);
    let p = 2_130_706_433nat;
    vstd::arithmetic::div_mod::lemma_small_mod(zero_vec_ptr as nat, p);
    vstd::arithmetic::div_mod::lemma_small_mod((zero_vec_ptr + 4) as nat, p);
    vstd::arithmetic::div_mod::lemma_small_mod(null_ptr as nat, p);
    let l = blake3_lookups()[k];
    assert(k == 0 || k == 1 || k == 2 || k == 3 || k == 4);
    let at = row[l.index as int].value + l.address_offset + i;
    if k == 1 {
        assert(at == zero_vec_ptr + (4 + i));
    } else if k == 4 {
        assert(at == null_ptr + (4 + i));
    } else if k == 3 {
        assert(at == null_ptr + i);
    } else {
        assert(at == zero_vec_ptr + i);
    }
}

/// A call whose operands are not all in memory reports the first address without a value, in the
/// order in which they are read: the first half of the left operand, the second half, the right
/// one. It finds them complete exactly where all sixteen cells are there.
pub proof fn law_operand_errors<M: MemoryAccess>(
    memory: M,
    half: bool,
    fixed: Option<usize>,
    a: int,
    b: int,
    first: int,
    second: int,
    gap: usize,
)
    requires
        fixed matches Some(o) ==> first == o && second == a,
        fixed is None ==> first == a && second == a + 4,
    ensures
        ({
            let args = PrecompileCompTimeArgs::Blake3Compress {
                half_output: half,
                hardcoded_offset_left: fixed,
            };
            &&& operands_defined(memory, args, a, b) <==> {
                &&& forall|i: int| 0 <= i < 4 ==> #[trigger] memory.lookup(first + i) is Some
                &&& forall|i: int| 0 <= i < 4 ==> #[trigger] memory.lookup(second + i) is Some
                &&& forall|i: int| 0 <= i < 8 ==> #[trigger] memory.lookup(b + i) is Some
            }
            &&& !operands_defined(memory, args, a, b) && operand_error(
                memory,
                args,
                a,
                b,
                RunnerError::UndefinedMemory(gap),
            ) ==> {
                &&& memory.lookup(gap as int) is None
                &&& {
                    ||| first <= gap < first + 4 && forall|i: int|
                        0 <= i < gap - first ==> #[trigger] memory.lookup(first + i) is Some
                    ||| second <= gap < second + 4 && (forall|i: int|
                        0 <= i < 4 ==> #[trigger] memory.lookup(first + i) is Some) && forall|
                        i: int,
                    |
                        0 <= i < gap - second ==> #[trigger] memory.lookup(second + i) is Some
                    ||| b <= gap < b + 8 && (forall|i: int|
                        0 <= i < 4 ==> #[trigger] memory.lookup(first + i) is Some) && (forall|
                        i: int,
                    |
                        0 <= i < 4 ==> #[trigger] memory.lookup(second + i) is Some) && forall|
                        i: int,
                    |
                        0 <= i < gap - b ==> #[trigger] memory.lookup(b + i) is Some
                }
            }
        }),
{
}

/// The contents of lists of interactions and of lookups, entry by entry.
pub proof fn law_table_views(v: Seq<BusInteraction>, l: Seq<LookupIntoMemory>, i: int)
    ensures
        interactions(v).len() == v.len(),
        0 <= i < v.len() ==> interactions(v)[i].direction == v[i].direction
            && interactions(v)[i].multiplicity == v[i].multiplicity && interactions(v)[i].domainsep
            == v[i].domainsep && interactions(v)[i].data == v[i].data@,
        lookup_views(l).len() == l.len(),
        0 <= i < l.len() ==> lookup_views(l)[i].index == l[i].index && lookup_views(l)[i].values
            == l[i].values@ && lookup_views(l)[i].address_offset == l[i].address_offset
            && lookup_views(l)[i].conditional_inactive == l[i].conditional_inactive@
            && lookup_views(l)[i].computed_address == l[i].computed_address,
{
}

/// A push onto the memory bus: once, under the separator of memory.
pub proof fn law_memory_push(data: Seq<BusData>)
    ensures
        memory_push(data).direction == BusDirection::Push,
        memory_push(data).multiplicity == BusMultiplicity::One,
        memory_push(data).domainsep == BusData::Constant(0),
        memory_push(data).data == data,
{
}

/// The constrained table pulls a call from the bus in the first row of a compression: its three
/// addresses, under the number of the call.
pub proof fn law_constrained_call(base: usize)
    ensures
        ({
            let pull = table_interactions(base)[0];
            &&& pull.direction == BusDirection::Pull
            &&& pull.multiplicity == BusMultiplicity::Column(353)
            &&& pull.domainsep == BusData::Constant(CONSTRAINED_BLAKE3_PRECOMPILE_DATA)
            &&& pull.data == seq![
                BusData::Column(356),
                BusData::Column(357),
                BusData::Column(358),
            ]
        }),
        constrained_bus().direction == BusDirection::Pull,
        constrained_bus().selector == 353,
        constrained_bus().data == seq![
            BusData::Column(356),
            BusData::Column(357),
            BusData::Column(358),
            BusData::Constant(CONSTRAINED_BLAKE3_PRECOMPILE_DATA),
        ],
{
}

} // verus!
