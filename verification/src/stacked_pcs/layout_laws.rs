//! What stands where in the stacked polynomial, and how many statements there are.

use crate::field::{KoalaBear, Ring};
use crate::math::log2_exact;
use crate::stacked_pcs::layout::{
    all_lookup_columns, bytecode_slot, equal_heights, heights_valid, larger, lookup_columns,
    stacked_len, statements_of, table_offset, TableCounts,
};
use crate::stacked_pcs::stacking::{dft_layout, heights_of, stacked_data};
use crate::tables::table_trait::{tables_by_height, LookupIntoMemory, Table, TableTrace};
use vstd::arithmetic::power2::pow2;
use vstd::prelude::*;

verus! {

/// The stacked polynomial starts with memory, its accumulator and the accumulator of the bytecode.
/// The last has a slot as long as a column of the highest table where that is longer, filled up with
/// zeros.
pub proof fn law_stacked_front(
    memory: Seq<KoalaBear>,
    memory_acc: Seq<KoalaBear>,
    bytecode_acc: Seq<KoalaBear>,
    traces: Map<Table, TableTrace>,
    n_columns: Seq<usize>,
    log: nat,
    highest: nat,
    i: int,
)
    requires
        memory_acc.len() == memory.len(),
        bytecode_acc.len() == pow2(log),
        tables_by_height(heights_of(traces)).len() > 0,
        highest == tables_by_height(heights_of(traces))[0].1,
    ensures
        ({
            let data = stacked_data(memory, memory_acc, bytecode_acc, traces, n_columns);
            let n = memory.len();
            let slot = pow2(log) as int;
            let slot = if pow2(highest) > slot {
                pow2(highest) as int
            } else {
                slot
            };
            &&& 0 <= i < n ==> data[i] == memory[i] && data[n + i] == memory_acc[i]
            &&& 0 <= i < bytecode_acc.len() ==> data[2 * n + i] == bytecode_acc[i]
            &&& bytecode_acc.len() <= i < slot ==> data[2 * n + i] == KoalaBear::ring_zero()
            &&& data.len() >= 2 * n + slot
        }),
{
    let order = tables_by_height(heights_of(traces));
    let l = log2_exact(bytecode_acc.len() as int);
    assert(pow2(l) == bytecode_acc.len()) by {
        assert(pow2(log) == bytecode_acc.len());
    }
    let slot = bytecode_slot(l as int, order);
    let top = larger(l as int, highest as int);
    if l >= highest {
        crate::math::lemma_pow2_monotone(highest, l);
    } else {
        crate::math::lemma_pow2_monotone(l, highest);
    }
    assert(slot == pow2(top as nat));
}

/// The layout for the transform: row `b * rate + k`, for every `k` below the rate, holds element `b`
/// of each block, block `c` in column `c`.
pub proof fn law_dft_layout(
    polynomial: Seq<KoalaBear>,
    block: int,
    rate: int,
    n_cols: int,
    b: int,
    k: int,
    c: int,
)
    requires
        0 <= b < block,
        0 <= k < rate,
        0 <= c < n_cols,
    ensures
        dft_layout(polynomial, block, rate, n_cols).len() == block * rate * n_cols,
        0 <= (b * rate + k) * n_cols + c < block * rate * n_cols,
        dft_layout(polynomial, block, rate, n_cols)[(b * rate + k) * n_cols + c] == polynomial[c
            * block + b],
{
    let row = b * rate + k;
    let i = row * n_cols + c;
    assert(0 <= row < block * rate) by (nonlinear_arith)
        requires
            row == b * rate + k,
            0 <= b < block,
            0 <= k < rate,
    ;
    let height = block * rate;
    assert(0 <= i < height * n_cols) by (nonlinear_arith)
        requires
            i == row * n_cols + c,
            0 <= row < height,
            0 <= c < n_cols,
    ;
    vstd::arithmetic::div_mod::lemma_fundamental_div_mod_converse(i, n_cols, row, c);
    vstd::arithmetic::div_mod::lemma_fundamental_div_mod_converse(row, rate, b, k);
}

/// The columns that lookups read are those of their addresses, their values and their conditions. An
/// address is in one column, or where it is computed in two.
pub proof fn law_lookup_columns(lookups: Seq<LookupIntoMemory>, m: nat, c: usize)
    requires
        m <= lookups.len(),
    ensures
        all_lookup_columns(lookups, m).contains(c) <==> exists|i: int|
            0 <= i < m && {
                ||| (#[trigger] lookups[i]).values@.contains(c)
                ||| lookups[i].conditional_inactive@.contains(c)
                ||| lookups[i].computed_address is None && lookups[i].index == c
                ||| lookups[i].computed_address matches Some(a) && (a.hi_col == c || a.lo_col == c)
            },
    decreases m,
{
    if m > 0 {
        let p = (m - 1) as nat;
        law_lookup_columns(lookups, p, c);
        let l = lookups[p as int];
        let here = lookup_columns(l@);
        let is_read = {
            ||| l.values@.contains(c)
            ||| l.conditional_inactive@.contains(c)
            ||| l.computed_address is None && l.index == c
            ||| l.computed_address matches Some(a) && (a.hi_col == c || a.lo_col == c)
        };
        assert(here.contains(c) <==> is_read);
        assert(all_lookup_columns(lookups, m).contains(c) <==> all_lookup_columns(
            lookups,
            p,
        ).contains(c) || here.contains(c));
        if is_read {
            assert(lookups[p as int] == l);
        }
    }
}

/// The statements on tables are for each of them its columns, those that flow to the next row, and
/// the different columns that its lookups read.
pub proof fn law_statement_count(tables: Seq<TableCounts>, at: Seq<int>, m: nat)
    requires
        at.len() == tables.len() + 1,
        at[0] == 0,
        forall|i: int|
            0 <= i < tables.len() ==> at[i + 1] == at[i] + (#[trigger] tables[i]).n_columns
                + tables[i].n_down_columns + all_lookup_columns(
                tables[i].lookups@,
                tables[i].lookups@.len(),
            ).len(),
        m <= tables.len(),
    ensures
        statements_of(tables, m) == at[m as int],
    decreases m,
{
    if m > 0 {
        law_statement_count(tables, at, (m - 1) as nat);
        assert(at[m - 1 + 1] == at[m - 1] + tables[m - 1].n_columns + tables[m - 1].n_down_columns
            + all_lookup_columns(tables[m - 1].lookups@, tables[m - 1].lookups@.len()).len());
    }
}

/// The length of the stacked polynomial is where one more table would start: the first table stands
/// behind two memories and the slot of the bytecode accumulator, each other one behind the columns of
/// the one before it.
pub proof fn law_stacked_length(
    log_memory: int,
    log_bytecode: int,
    n_columns: Seq<usize>,
    order: Seq<(Table, usize)>,
    offset: Seq<int>,
    i: int,
)
    requires
        order.len() > 0,
        offset.len() == order.len() + 1,
        offset[0] == 2 * pow2(log_memory as nat) + pow2(
            (if log_bytecode >= order[0].1 {
                log_bytecode
            } else {
                order[0].1 as int
            }) as nat,
        ),
        forall|k: int|
            0 < k <= order.len() ==> #[trigger] offset[k] == offset[k - 1] + n_columns[order[k
                - 1].0 as int] * pow2(order[k - 1].1 as nat),
        0 <= i <= order.len(),
    ensures
        table_offset(log_memory, log_bytecode, n_columns, order, i as nat) == offset[i],
        i == order.len() ==> stacked_len(log_memory, log_bytecode, n_columns, order) == offset[i],
    decreases i,
{
    if i > 0 {
        law_stacked_length(log_memory, log_bytecode, n_columns, order, offset, i - 1);
        assert(offset[i] == offset[i - 1] + n_columns[order[i - 1].0 as int] * pow2(
            order[i - 1].1 as nat,
        ));
    } else {
        assert(larger(log_bytecode, order[0].1 as int) == (if log_bytecode >= order[0].1 {
            log_bytecode
        } else {
            order[0].1 as int
        }));
    }
}

/// Heights are accepted where no table is higher than the execution table, and that is no higher
/// than memory.
pub proof fn law_heights_valid(log_memory: int, heights: Map<Table, usize>, execution: Table)
    ensures
        heights_valid(log_memory, heights, execution) <==> heights[execution] <= log_memory
            && forall|t: Table| #[trigger]
            heights.dom().contains(t) ==> heights[t] <= heights[execution],
{
}

/// Tables of one height, each under its number.
pub proof fn law_equal_heights(n: nat, height: usize, i: int)
    requires
        0 <= i < n <= usize::MAX,
    ensures
        equal_heights(n, height).len() == n,
        equal_heights(n, height)[i].0 == i,
        equal_heights(n, height)[i].1 == height,
{
}

} // verus!
