//! The statements on the stacked polynomial that claims about the columns of tables become.

use crate::field::Ring;
use crate::math::pow2_usize;
use crate::stacked_pcs::layout::{
    larger, lemma_order_nonempty, lemma_parts_fit, lemma_tables_len_grows, stacked_len,
    table_offset, tables_known,
};
use crate::tables::table_trait::{
    entries_in_order, entry_of, in_key_order, same_entries, sort_tables_by_height,
    tables_by_height, Table,
};
use crate::whir::statement::{SparseStatement, SparseValue, StatementView};
use std::collections::BTreeMap;
use vstd::arithmetic::power2::{lemma_pow2_pos, pow2};
use vstd::prelude::*;

verus! {

/// Claims about the columns of a table at one point: values by column, and values of the columns'
/// successors.
#[derive(Debug)]
pub struct ColumnClaims<EF> {
    pub point: Vec<EF>,
    pub eq_values: BTreeMap<usize, EF>,
    pub next_values: BTreeMap<usize, EF>,
}

/// The program counter's column in the execution table, and the values it starts and ends with.
#[derive(Clone, Copy, Debug)]
pub struct PcConditions {
    pub execution: Table,
    pub col_pc: usize,
    pub starting_pc: usize,
    pub ending_pc: usize,
}

/// The values claimed of columns, with the blocks that the columns are.
pub open spec fn block_values<EF>(base: int, values: Map<usize, EF>) -> Seq<SparseValue<EF>> {
    Seq::new(
        in_key_order(values).len(),
        |i: int|
            SparseValue {
                selector: (base + in_key_order(values)[i].0) as usize,
                value: in_key_order(values)[i].1,
            },
    )
}

/// The statements of one group of claims: that on successors, where there are any, then that on
/// values.
pub open spec fn claim_views<EF>(n: int, base: int, c: ColumnClaims<EF>) -> Seq<
    StatementView<EF>,
> {
    let eq = StatementView {
        total_num_variables: n,
        point: c.point@,
        values: block_values(base, c.eq_values@),
        is_next: false,
    };
    let next = StatementView {
        total_num_variables: n,
        point: c.point@,
        values: block_values(base, c.next_values@),
        is_next: true,
    };
    if in_key_order(c.next_values@).len() > 0 {
        seq![next, eq]
    } else {
        seq![eq]
    }
}

/// The statements of the first `m` groups of claims on a table.
pub open spec fn claims_views<EF>(n: int, base: int, claims: Seq<ColumnClaims<EF>>, m: nat) -> Seq<
    StatementView<EF>,
>
    decreases m,
{
    if m == 0 {
        Seq::empty()
    } else {
        claims_views(n, base, claims, (m - 1) as nat) + claim_views(n, base, claims[m - 1])
    }
}

/// The statement on a single value.
pub open spec fn value_view<EF: Ring>(n: int, index: int, value: int) -> StatementView<EF> {
    StatementView {
        total_num_variables: n,
        point: Seq::empty(),
        values: seq![SparseValue { selector: index as usize, value: EF::of(value) }],
        is_next: false,
    }
}

/// The statements on a table that starts at `offset`: for the execution table those on the first
/// and the last program counter, then those of the claims.
pub open spec fn table_views<EF: Ring>(
    n: int,
    offset: int,
    entry: (Table, usize),
    pc: PcConditions,
    claims: Seq<ColumnClaims<EF>>,
) -> Seq<StatementView<EF>> {
    let rows = pow2(entry.1 as nat) as int;
    let counters = if entry.0 == pc.execution {
        seq![
            value_view(n, offset + pc.col_pc * rows, pc.starting_pc as int),
            value_view(n, offset + (pc.col_pc + 1) * rows - 1, pc.ending_pc as int),
        ]
    } else {
        Seq::empty()
    };
    counters + claims_views(n, offset / rows, claims, claims.len())
}

/// The statements on the first `m` tables.
pub open spec fn tables_views<EF: Ring>(
    n: int,
    log_memory: int,
    log_bytecode: int,
    n_columns: Seq<usize>,
    order: Seq<(Table, usize)>,
    pc: PcConditions,
    claims: Map<Table, Vec<ColumnClaims<EF>>>,
    m: nat,
) -> Seq<StatementView<EF>>
    decreases m,
{
    if m == 0 {
        Seq::empty()
    } else {
        let p = (m - 1) as nat;
        tables_views(n, log_memory, log_bytecode, n_columns, order, pc, claims, p) + table_views(
            n,
            table_offset(log_memory, log_bytecode, n_columns, order, p),
            order[m - 1],
            pc,
            claims[order[m - 1].0]@,
        )
    }
}

/// The contents of statements.
pub open spec fn views<EF>(s: Seq<SparseStatement<EF>>) -> Seq<StatementView<EF>> {
    Seq::new(s.len(), |i: int| s[i]@)
}

/// The claims speak of columns that the table has.
pub open spec fn columns_exist<EF>(claims: Seq<ColumnClaims<EF>>, n_columns: int) -> bool {
    &&& forall|i: int, c: usize|
        0 <= i < claims.len() && #[trigger] claims[i].eq_values@.dom().contains(c) ==> c
            < n_columns
    &&& forall|i: int, c: usize|
        0 <= i < claims.len() && #[trigger] claims[i].next_values@.dom().contains(c) ==> c
            < n_columns
}

fn copy_point<EF: Ring>(point: &Vec<EF>) -> (r: Vec<EF>)
    ensures
        r@ == point@,
{
    let mut out: Vec<EF> = Vec::new();
    let mut i: usize = 0;
    while i < point.len()
        invariant
            i <= point@.len(),
            out@ == point@.take(i as int),
        decreases point@.len() - i,
    {
        out.push(point[i]);
        assert(point@.take(i + 1) =~= point@.take(i as int).push(point@[i as int]));
        i += 1;
    }
    assert(point@.take(i as int) =~= point@);
    out
}

/// The values claimed of columns, with the blocks that the columns are.
fn to_block_values<EF: Ring>(base: usize, values: &BTreeMap<usize, EF>, limit: usize) -> (r: Vec<
    SparseValue<EF>,
>)
    requires
        forall|c: usize| #[trigger] values@.dom().contains(c) ==> c < limit,
        base + limit <= usize::MAX,
    ensures
        r@ == block_values(base as int, values@),
{
    let entries = entries_in_order(values);
    let mut out: Vec<SparseValue<EF>> = Vec::new();
    let mut i: usize = 0;
    while i < entries.len()
        invariant
            i <= entries@.len(),
            base + limit <= usize::MAX,
            forall|c: usize| #[trigger] values@.dom().contains(c) ==> c < limit,
            forall|j: int|
                0 <= j < entries@.len() ==> values@.dom().contains((#[trigger] entries@[j]).0),
            forall|j: int|
                0 <= j < entries@.len() ==> in_key_order(values@)[j] == (
                    (#[trigger] entries@[j]).0,
                    *entries@[j].1,
                ),
            out@.len() == i,
            forall|j: int|
                0 <= j < i ==> #[trigger] out@[j] == (SparseValue {
                    selector: (base + in_key_order(values@)[j].0) as usize,
                    value: in_key_order(values@)[j].1,
                }),
        decreases entries@.len() - i,
    {
        let (col, value) = entries[i];
        assert(values@.dom().contains(entries@[i as int].0));
        out.push(SparseValue { selector: base + col, value: *value });
        i += 1;
    }
    assert(out@ =~= block_values(base as int, values@));
    out
}

fn push_statement<EF: Ring>(statements: &mut Vec<SparseStatement<EF>>, s: SparseStatement<EF>)
    ensures
        views(final(statements)@) == views(old(statements)@).push(s@),
{
    statements.push(s);
    assert(views(statements@) =~= views(old(statements)@).push(s@));
}

/// Adds the statements of the claims on a table.
fn push_claims<EF: Ring>(
    statements: &mut Vec<SparseStatement<EF>>,
    stacked_n_vars: usize,
    base: usize,
    claims: &Vec<ColumnClaims<EF>>,
    limit: usize,
)
    requires
        columns_exist(claims@, limit as int),
        base + limit <= usize::MAX,
    ensures
        views(final(statements)@) == views(old(statements)@) + claims_views(
            stacked_n_vars as int,
            base as int,
            claims@,
            claims@.len(),
        ),
{
    let ghost before = views(statements@);
    let mut i: usize = 0;
    assert(before + Seq::<StatementView<EF>>::empty() =~= before);
    while i < claims.len()
        invariant
            i <= claims@.len(),
            columns_exist(claims@, limit as int),
            base + limit <= usize::MAX,
            views(statements@) == before + claims_views(
                stacked_n_vars as int,
                base as int,
                claims@,
                i as nat,
            ),
        decreases claims@.len() - i,
    {
        let c = &claims[i];
        let ghost here = views(statements@);
        assert forall|k: usize| #[trigger] c.eq_values@.dom().contains(k) implies k < limit by {
            assert(claims@[i as int].eq_values@.dom().contains(k));
        }
        assert forall|k: usize| #[trigger] c.next_values@.dom().contains(k) implies k < limit by {
            assert(claims@[i as int].next_values@.dom().contains(k));
        }
        let next_values = to_block_values(base, &c.next_values, limit);
        if next_values.len() > 0 {
            push_statement(
                statements,
                SparseStatement::new_next(stacked_n_vars, copy_point(&c.point), next_values),
            );
        }
        let eq_values = to_block_values(base, &c.eq_values, limit);
        push_statement(
            statements,
            SparseStatement::new(stacked_n_vars, copy_point(&c.point), eq_values),
        );
        proof {
            assert(views(statements@) =~= here + claim_views(
                stacked_n_vars as int,
                base as int,
                *c,
            ));
            assert(views(statements@) =~= before + claims_views(
                stacked_n_vars as int,
                base as int,
                claims@,
                (i + 1) as nat,
            ));
        }
        i += 1;
    }
}

/// The statements on the stacked polynomial: those made before, then for each table, in the order
/// in which they are stacked, those on the program counter and on the table's columns.
pub fn stacked_pcs_global_statements<EF: Ring>(
    stacked_n_vars: usize,
    memory_n_vars: usize,
    bytecode_n_vars: usize,
    previous_statements: Vec<SparseStatement<EF>>,
    tables_heights: &BTreeMap<Table, usize>,
    committed_statements: &BTreeMap<Table, Vec<ColumnClaims<EF>>>,
    n_columns: &[usize],
    pc: PcConditions,
) -> (r: Vec<SparseStatement<EF>>)
    requires
        exists|t: Table| #[trigger] tables_heights@.dom().contains(t),
        committed_statements@.dom() == tables_heights@.dom(),
        tables_known(n_columns@, tables_heights@),
        tables_heights@.dom().contains(pc.execution) ==> pc.col_pc
            < n_columns@[pc.execution as int],
        forall|t: Table| #[trigger]
            committed_statements@.dom().contains(t) ==> columns_exist(
                committed_statements@[t]@,
                n_columns@[t as int] as int,
            ),
        stacked_len(
            memory_n_vars as int,
            bytecode_n_vars as int,
            n_columns@,
            tables_by_height(tables_heights@),
        ) <= usize::MAX,
    ensures
        ({
            let order = tables_by_height(tables_heights@);
            views(r@) == views(previous_statements@) + tables_views(
                stacked_n_vars as int,
                memory_n_vars as int,
                bytecode_n_vars as int,
                n_columns@,
                order,
                pc,
                committed_statements@,
                order.len(),
            )
        }),
{
    let sorted = sort_tables_by_height(tables_heights);
    let ghost order = sorted@;
    let ghost heights = tables_heights@;
    let ghost (lm, lb) = (memory_n_vars as int, bytecode_n_vars as int);
    let ghost whole = stacked_len(lm, lb, n_columns@, order);
    let ghost before = views(previous_statements@);
    let ghost claims = committed_statements@;
    let mut global_statements = previous_statements;
    proof {
        let t = choose|t: Table| #[trigger] heights.dom().contains(t);
        lemma_order_nonempty(order, heights, t);
        lemma_parts_fit(lm, lb, n_columns@, order, usize::MAX as int);
        assert(before + Seq::<StatementView<EF>>::empty() =~= before);
    }
    let max_log: usize = if bytecode_n_vars >= sorted[0].1 {
        bytecode_n_vars
    } else {
        sorted[0].1
    };
    let mut offset: usize = 2 * pow2_usize(memory_n_vars) + pow2_usize(max_log);
    let mut i: usize = 0;
    while i < sorted.len()
        invariant
            i <= sorted@.len(),
            order == sorted@,
            heights == tables_heights@,
            claims == committed_statements@,
            claims.dom() == heights.dom(),
            lm == memory_n_vars,
            lb == bytecode_n_vars,
            tables_known(n_columns@, heights),
            same_entries(order, heights),
            heights.dom().contains(pc.execution) ==> pc.col_pc < n_columns@[pc.execution as int],
            forall|t: Table| #[trigger]
                claims.dom().contains(t) ==> columns_exist(
                    claims[t]@,
                    n_columns@[t as int] as int,
                ),
            whole == stacked_len(lm, lb, n_columns@, order),
            whole <= usize::MAX,
            offset == table_offset(lm, lb, n_columns@, order, i as nat),
            views(global_statements@) == before + tables_views(
                stacked_n_vars as int,
                lm,
                lb,
                n_columns@,
                order,
                pc,
                claims,
                i as nat,
            ),
        decreases sorted@.len() - i,
    {
        let (table, n_vars) = sorted[i];
        let cols: usize = n_columns[table];
        let ghost rows = pow2(n_vars as nat) as int;
        let ghost here = views(global_statements@);
        proof {
            assert(heights.dom().contains(order[i as int].0));
            lemma_tables_len_grows(n_columns@, order, (i + 1) as nat, order.len());
            lemma_tables_len_grows(n_columns@, order, 0, i as nat);
            lemma_pow2_pos(n_vars as nat);
            lemma_pow2_pos(memory_n_vars as nat);
            lemma_pow2_pos(larger(lb, order[0].1 as int) as nat);
            assert(offset + cols * rows <= usize::MAX);
            if cols > 0 {
                assert(rows <= cols * rows) by (nonlinear_arith)
                    requires
                        cols >= 1,
                        rows >= 0,
                ;
            }
        }
        let ghost counters = if table == pc.execution {
            seq![
                value_view::<EF>(
                    stacked_n_vars as int,
                    offset + pc.col_pc * rows,
                    pc.starting_pc as int,
                ),
                value_view::<EF>(
                    stacked_n_vars as int,
                    offset + (pc.col_pc + 1) * rows - 1,
                    pc.ending_pc as int,
                ),
            ]
        } else {
            Seq::empty()
        };
        if table == pc.execution {
            proof {
                assert(0 <= pc.col_pc * rows && pc.col_pc * rows + rows == (pc.col_pc + 1) * rows
                    && (pc.col_pc + 1) * rows <= cols * rows) by (nonlinear_arith)
                    requires
                        0 <= pc.col_pc < cols,
                        rows > 0,
                ;
            }
            let n_rows: usize = pow2_usize(n_vars);
            push_statement(
                &mut global_statements,
                SparseStatement::unique_value(
                    stacked_n_vars,
                    offset + pc.col_pc * n_rows,
                    EF::from_usize(pc.starting_pc),
                ),
            );
            push_statement(
                &mut global_statements,
                SparseStatement::unique_value(
                    stacked_n_vars,
                    offset + (pc.col_pc + 1) * n_rows - 1,
                    EF::from_usize(pc.ending_pc),
                ),
            );
        }
        assert(views(global_statements@) =~= here + counters);
        let base: usize = shifted_down(offset, n_vars);
        match entry_of(committed_statements, table) {
            Some(list) => {
                proof {
                    assert(claims.dom().contains(table));
                    // The block index and the number of columns fit where the table does.
                    let q = offset as int / rows;
                    vstd::arithmetic::div_mod::lemma_fundamental_div_mod(offset as int, rows);
                    assert(q + cols <= offset + cols * rows) by (nonlinear_arith)
                        requires
                            rows >= 1,
                            q >= 0,
                            cols >= 0,
                            rows * q <= offset,
                    ;
                    vstd::arithmetic::div_mod::lemma_div_pos_is_pos(offset as int, rows);
                }
                push_claims(&mut global_statements, stacked_n_vars, base, list, cols);
                proof {
                    assert(views(global_statements@) =~= here + table_views(
                        stacked_n_vars as int,
                        offset as int,
                        order[i as int],
                        pc,
                        claims[table]@,
                    ));
                    assert(views(global_statements@) =~= before + tables_views(
                        stacked_n_vars as int,
                        lm,
                        lb,
                        n_columns@,
                        order,
                        pc,
                        claims,
                        (i + 1) as nat,
                    ));
                }
            },
            None => {},
        }
        if cols > 0 {
            offset = offset + cols * pow2_usize(n_vars);
        } else {
            assert(cols * rows == 0) by (nonlinear_arith)
                requires
                    cols == 0,
            ;
        }
        i += 1;
    }
    global_statements
}

/// Divides by a power of two.
fn shifted_down(n: usize, k: usize) -> (r: usize)
    ensures
        r == n as int / pow2(k as nat) as int,
{
    let mut left: usize = n;
    let mut i: usize = 0;
    proof {
        crate::math::lemma_pow2_base();
        assert(n as int / 1 == n);
    }
    while i < k
        invariant
            i <= k,
            left == n as int / pow2(i as nat) as int,
        decreases k - i,
    {
        proof {
            crate::math::lemma_pow2_step(i as nat);
            let p = pow2(i as nat) as int;
            vstd::arithmetic::div_mod::lemma_div_denominator(n as int, p, 2);
            assert(p * 2 == 2 * p);
        }
        left = left / 2;
        i += 1;
    }
    left
}

} // verus!
