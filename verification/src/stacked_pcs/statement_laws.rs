//! That every claim about a column, and nothing else, is stated of the stacked polynomial.

use crate::field::Ring;
use crate::stacked_pcs::layout::{larger, table_offset};
use crate::stacked_pcs::statements::{
    block_values, claim_views, claims_views, columns_exist, table_views, tables_views, views,
    ColumnClaims, PcConditions,
};
use crate::tables::table_trait::{in_key_order, law_key_order, Table};
use crate::whir::statement::{SparseStatement, SparseValue};
use vstd::arithmetic::power2::{lemma_pow2_pos, pow2};
use vstd::prelude::*;

verus! {

/// The values claimed of columns are a statement's values: for every column the block at `base`
/// plus the column with the value claimed, in the order of the columns, and no other.
pub proof fn law_block_values<EF>(
    base: int,
    values: Map<usize, EF>,
    limit: int,
    b: Seq<SparseValue<EF>>,
    c: usize,
    e: int,
)
    requires
        b == block_values(base, values),
        0 <= base,
        base + limit <= usize::MAX,
        forall|k: usize| #[trigger] values.dom().contains(k) ==> k < limit,
    ensures
        values.dom().contains(c) ==> exists|k: int|
            0 <= k < b.len() && (#[trigger] b[k]).selector == base + c && b[k].value == values[c],
        0 <= e < b.len() ==> b[e].selector >= base && values.dom().contains(
            (b[e].selector - base) as usize,
        ) && b[e].value == values[(b[e].selector - base) as usize],
        0 < e < b.len() ==> b[e - 1].selector < b[e].selector,
        b.len() == 0 <==> values.dom() == Set::<usize>::empty(),
{
    law_key_order(values);
    let s = in_key_order(values);
    if 0 <= e < b.len() {
        assert(values.dom().contains(s[e].0));
        assert(b[e].selector == base + s[e].0);
        if 0 < e {
            assert(values.dom().contains(s[e - 1].0));
            assert(b[e - 1].selector == base + s[e - 1].0);
        }
    }
    if values.dom().contains(c) {
        assert(s.contains((c, values[c])));
        let k = s.index_of((c, values[c]));
        assert(s[k] == (c, values[c]));
        assert(b[k].selector == base + c);
    }
    if b.len() == 0 {
        assert forall|k: usize| !values.dom().contains(k) by {
            if values.dom().contains(k) {
                assert(s.contains((k, values[k])));
            }
        }
        assert(values.dom() =~= Set::<usize>::empty());
    } else {
        assert(values.dom().contains(s[0].0));
    }
}

/// The statements of a group of claims: the last is on its values, the first, where there are
/// successors, on those.
proof fn lemma_group_views<EF>(n: int, base: int, c: ColumnClaims<EF>)
    ensures
        ({
            let v = claim_views(n, base, c);
            &&& v.len() == (if c.next_values@.dom() == Set::<usize>::empty() {
                1int
            } else {
                2int
            })
            &&& v.last().total_num_variables == n
            &&& v.last().point == c.point@
            &&& !v.last().is_next
            &&& v.last().values == block_values(base, c.eq_values@)
            &&& c.next_values@.dom() != Set::<usize>::empty() ==> {
                &&& v[0].total_num_variables == n
                &&& v[0].point == c.point@
                &&& v[0].is_next
                &&& v[0].values == block_values(base, c.next_values@)
            }
        }),
{
    let values = c.next_values@;
    law_key_order(values);
    let s = in_key_order(values);
    if s.len() == 0 {
        assert forall|k: usize| !values.dom().contains(k) by {
            if values.dom().contains(k) {
                assert(s.contains((k, values[k])));
            }
        }
        assert(values.dom() =~= Set::<usize>::empty());
    } else {
        assert(values.dom().contains(s[0].0));
    }
}

/// Where the statements of a group of claims stand among those of a table.
proof fn lemma_group_at<EF>(
    n: int,
    base: int,
    claims: Seq<ColumnClaims<EF>>,
    g: Seq<int>,
    m: nat,
    j: int,
)
    requires
        m <= claims.len(),
        g.len() == claims.len() + 1,
        g[0] == 0,
        forall|k: int|
            0 <= k < claims.len() ==> g[k + 1] == g[k] + (if (#[trigger] claims[k]).next_values@.dom()
                == Set::<usize>::empty() {
                1int
            } else {
                2int
            }),
        0 <= j < m,
    ensures
        claims_views(n, base, claims, m).len() == g[m as int],
        0 <= g[j] < g[j + 1] <= g[m as int],
        claims_views(n, base, claims, m).subrange(g[j], g[j + 1]) == claim_views(
            n,
            base,
            claims[j],
        ),
    decreases m,
{
    let p = (m - 1) as nat;
    let before = claims_views(n, base, claims, p);
    let last = claims[p as int];
    lemma_group_views(n, base, last);
    if p == 0 {
        assert(before =~= Seq::empty());
        assert(claims_views(n, base, claims, m) =~= claim_views(n, base, last));
        assert(claims_views(n, base, claims, m).subrange(g[j], g[j + 1]) =~= claim_views(
            n,
            base,
            last,
        ));
    } else {
        if j < p {
            lemma_group_at(n, base, claims, g, p, j);
            assert(claims_views(n, base, claims, m).subrange(g[j], g[j + 1]) =~= before.subrange(
                g[j],
                g[j + 1],
            ));
        } else {
            lemma_group_at(n, base, claims, g, p, 0);
            assert(claims_views(n, base, claims, m).subrange(g[j], g[j + 1]) =~= claim_views(
                n,
                base,
                last,
            ));
        }
    }
}

/// The statements of a table's claims: there are `g[j]` before those of group `j`. The last of the
/// group's is on its values, at its point; the one before it, where columns' successors are
/// claimed, is on those. Each states of every column claimed that the block at `base` plus the
/// column has the value claimed, in the order of the columns, and of no other.
pub proof fn law_claims_are_stated<EF>(
    n: int,
    base: int,
    claims: Seq<ColumnClaims<EF>>,
    limit: int,
    g: Seq<int>,
    j: int,
    c: usize,
    e: int,
)
    requires
        0 <= base,
        base + limit <= usize::MAX,
        columns_exist(claims, limit),
        g.len() == claims.len() + 1,
        g[0] == 0,
        forall|k: int|
            0 <= k < claims.len() ==> g[k + 1] == g[k] + (if (#[trigger] claims[k]).next_values@.dom()
                == Set::<usize>::empty() {
                1int
            } else {
                2int
            }),
        0 <= j < claims.len(),
    ensures
        claims_views(n, base, claims, claims.len()).len() == g[claims.len() as int],
        0 <= g[j] < g[j + 1] <= g[claims.len() as int],
        ({
            let eq = claims_views(n, base, claims, claims.len())[g[j + 1] - 1];
            let values = claims[j].eq_values@;
            &&& eq.total_num_variables == n
            &&& eq.point == claims[j].point@
            &&& !eq.is_next
            &&& values.dom().contains(c) ==> exists|k: int|
                0 <= k < eq.values.len() && (#[trigger] eq.values[k]).selector == base + c
                    && eq.values[k].value == values[c]
            &&& 0 <= e < eq.values.len() ==> eq.values[e].selector >= base && values.dom().contains(
                (eq.values[e].selector - base) as usize,
            ) && eq.values[e].value == values[(eq.values[e].selector - base) as usize]
            &&& 0 < e < eq.values.len() ==> eq.values[e - 1].selector < eq.values[e].selector
        }),
        claims[j].next_values@.dom() != Set::<usize>::empty() ==> ({
            let next = claims_views(n, base, claims, claims.len())[g[j]];
            let values = claims[j].next_values@;
            &&& next.total_num_variables == n
            &&& next.point == claims[j].point@
            &&& next.is_next
            &&& values.dom().contains(c) ==> exists|k: int|
                0 <= k < next.values.len() && (#[trigger] next.values[k]).selector == base + c
                    && next.values[k].value == values[c]
            &&& 0 <= e < next.values.len() ==> next.values[e].selector >= base && values.dom().contains(
                (next.values[e].selector - base) as usize,
            ) && next.values[e].value == values[(next.values[e].selector - base) as usize]
            &&& 0 < e < next.values.len() ==> next.values[e - 1].selector < next.values[e].selector
        }),
{
    let all = claims_views(n, base, claims, claims.len());
    let here = claim_views(n, base, claims[j]);
    lemma_group_at(n, base, claims, g, claims.len(), j);
    assert forall|k: usize| #[trigger] claims[j].eq_values@.dom().contains(k) implies k < limit by {
        assert(claims[j].eq_values@.dom().contains(k));
    }
    assert forall|k: usize| #[trigger] claims[j].next_values@.dom().contains(k) implies k
        < limit by {
        assert(claims[j].next_values@.dom().contains(k));
    }
    lemma_group_views(n, base, claims[j]);
    assert(all.subrange(g[j], g[j + 1])[0] == all[g[j]]);
    assert(all.subrange(g[j], g[j + 1])[here.len() - 1] == all[g[j + 1] - 1]);
    law_block_values(base, claims[j].eq_values@, limit, all[g[j + 1] - 1].values, c, e);
    if claims[j].next_values@.dom() != Set::<usize>::empty() {
        law_block_values(base, claims[j].next_values@, limit, all[g[j]].values, c, e);
    }
}

/// Where the statements of each group of a table's claims start among those of all groups: a group
/// has one, and one more where successors are claimed. The last entry is their number.
pub open spec fn group_positions<EF>(claims: Seq<ColumnClaims<EF>>, g: Seq<int>) -> bool {
    &&& g.len() == claims.len() + 1
    &&& g[0] == 0
    &&& forall|k: int|
        0 <= k < claims.len() ==> g[k + 1] == g[k] + (if (#[trigger] claims[k]).next_values@.dom()
            == Set::<usize>::empty() {
            1int
        } else {
            2int
        })
}

proof fn lemma_table_at<EF: Ring>(
    n: int,
    log_memory: int,
    log_bytecode: int,
    n_columns: Seq<usize>,
    order: Seq<(Table, usize)>,
    pc: PcConditions,
    claims: Map<Table, Vec<ColumnClaims<EF>>>,
    g: Seq<Seq<int>>,
    at: Seq<int>,
    m: nat,
    i: int,
)
    requires
        m <= order.len(),
        g.len() == order.len(),
        at.len() == order.len() + 1,
        at[0] == 0,
        forall|k: int|
            0 <= k < order.len() ==> group_positions(claims[(#[trigger] order[k]).0]@, g[k]),
        forall|k: int|
            0 <= k < order.len() ==> at[k + 1] == at[k] + g[k].last() + (if (
            #[trigger] order[k]).0 == pc.execution {
                2int
            } else {
                0int
            }),
        0 <= i < m,
    ensures
        tables_views(n, log_memory, log_bytecode, n_columns, order, pc, claims, m).len()
            == at[m as int],
        0 <= at[i] <= at[i + 1] <= at[m as int],
        tables_views(n, log_memory, log_bytecode, n_columns, order, pc, claims, m).subrange(
            at[i],
            at[i + 1],
        ) == table_views(
            n,
            table_offset(log_memory, log_bytecode, n_columns, order, i as nat),
            order[i],
            pc,
            claims[order[i].0]@,
        ),
    decreases m,
{
    let p = (m - 1) as nat;
    let whole = tables_views(n, log_memory, log_bytecode, n_columns, order, pc, claims, m);
    let before = tables_views(n, log_memory, log_bytecode, n_columns, order, pc, claims, p);
    let offset = table_offset(log_memory, log_bytecode, n_columns, order, p);
    let list = claims[order[p as int].0]@;
    let here = table_views(n, offset, order[p as int], pc, list);
    let base = offset / pow2(order[p as int].1 as nat) as int;
    assert(group_positions(list, g[p as int]));
    if list.len() > 0 {
        lemma_group_at(n, base, list, g[p as int], list.len(), 0);
    } else {
        assert(claims_views(n, base, list, list.len()).len() == 0);
    }
    assert(here.len() == at[p as int + 1] - at[p as int]);
    if p == 0 {
        assert(before =~= Seq::empty());
        assert(whole =~= here);
        assert(whole.subrange(at[i], at[i + 1]) =~= here);
    } else if i < p {
        lemma_table_at(
            n,
            log_memory,
            log_bytecode,
            n_columns,
            order,
            pc,
            claims,
            g,
            at,
            p,
            i,
        );
        assert(whole.subrange(at[i], at[i + 1]) =~= before.subrange(at[i], at[i + 1]));
    } else {
        lemma_table_at(
            n,
            log_memory,
            log_bytecode,
            n_columns,
            order,
            pc,
            claims,
            g,
            at,
            p,
            0,
        );
        assert(whole.subrange(at[i], at[i + 1]) =~= here);
    }
}

/// Where a table starts, step by step: the first behind two memories and the slot of the bytecode
/// accumulator, each other one behind the columns of the one before it.
proof fn lemma_offsets(
    log_memory: int,
    log_bytecode: int,
    n_columns: Seq<usize>,
    order: Seq<(Table, usize)>,
    offset: Seq<int>,
    i: int,
)
    requires
        offset.len() == order.len(),
        offset[0] == 2 * pow2(log_memory as nat) + pow2(
            (if log_bytecode >= order[0].1 {
                log_bytecode
            } else {
                order[0].1 as int
            }) as nat,
        ),
        forall|k: int|
            0 < k < order.len() ==> #[trigger] offset[k] == offset[k - 1] + n_columns[order[k
                - 1].0 as int] * pow2(order[k - 1].1 as nat),
        0 <= i < order.len(),
    ensures
        offset[i] == table_offset(log_memory, log_bytecode, n_columns, order, i as nat),
    decreases i,
{
    if i > 0 {
        lemma_offsets(log_memory, log_bytecode, n_columns, order, offset, i - 1);
        assert(offset[i] == offset[i - 1] + n_columns[order[i - 1].0 as int] * pow2(
            order[i - 1].1 as nat,
        ));
    } else {
        assert(larger(log_bytecode, order[0].1 as int) == (if log_bytecode >= order[0].1 {
            log_bytecode
        } else {
            order[0].1 as int
        }));
    }
}

/// Every claim on a column of a table is stated of the stacked polynomial, and there are no other
/// statements. Those of table `i` start at `at[i]`: on the execution table first two, that the
/// program counter's column starts and ends with the values asked, then those of each group of
/// claims. A group's statements are at its point and say of each column claimed, and of no other,
/// that the block `offset[i] / rows + column` has the value claimed: of the successors, where any
/// is claimed, and then of the values.
pub proof fn law_tables_are_stated<EF: Ring>(
    n: int,
    log_memory: int,
    log_bytecode: int,
    n_columns: Seq<usize>,
    order: Seq<(Table, usize)>,
    pc: PcConditions,
    claims: Map<Table, Vec<ColumnClaims<EF>>>,
    offset: Seq<int>,
    g: Seq<Seq<int>>,
    at: Seq<int>,
    i: int,
    j: int,
    c: usize,
    e: int,
)
    requires
        offset.len() == order.len(),
        offset[0] == 2 * pow2(log_memory as nat) + pow2(
            (if log_bytecode >= order[0].1 {
                log_bytecode
            } else {
                order[0].1 as int
            }) as nat,
        ),
        forall|k: int|
            0 < k < order.len() ==> #[trigger] offset[k] == offset[k - 1] + n_columns[order[k
                - 1].0 as int] * pow2(order[k - 1].1 as nat),
        g.len() == order.len(),
        at.len() == order.len() + 1,
        at[0] == 0,
        forall|k: int|
            0 <= k < order.len() ==> group_positions(claims[(#[trigger] order[k]).0]@, g[k]),
        forall|k: int|
            0 <= k < order.len() ==> at[k + 1] == at[k] + g[k].last() + (if (
            #[trigger] order[k]).0 == pc.execution {
                2int
            } else {
                0int
            }),
        0 <= i < order.len(),
        0 <= offset[i],
        offset[i] + n_columns[order[i].0 as int] * pow2(order[i].1 as nat) <= usize::MAX,
        columns_exist(claims[order[i].0]@, n_columns[order[i].0 as int] as int),
        order[i].0 == pc.execution ==> pc.col_pc < n_columns[order[i].0 as int],
    ensures
        ({
            let all = tables_views(
                n,
                log_memory,
                log_bytecode,
                n_columns,
                order,
                pc,
                claims,
                order.len(),
            );
            let rows = pow2(order[i].1 as nat) as int;
            &&& all.len() == at[order.len() as int]
            &&& order[i].0 == pc.execution ==> {
                &&& 0 <= at[i] && at[i] + 1 < all.len()
                &&& all[at[i]].total_num_variables == n
                &&& all[at[i]].point.len() == 0
                &&& !all[at[i]].is_next
                &&& all[at[i]].values.len() == 1
                &&& all[at[i]].values[0].selector == offset[i] + pc.col_pc * rows
                &&& all[at[i]].values[0].value == EF::of(pc.starting_pc as int)
                &&& all[at[i] + 1].total_num_variables == n
                &&& all[at[i] + 1].point.len() == 0
                &&& !all[at[i] + 1].is_next
                &&& all[at[i] + 1].values.len() == 1
                &&& all[at[i] + 1].values[0].selector == offset[i] + pc.col_pc * rows + rows - 1
                &&& all[at[i] + 1].values[0].value == EF::of(pc.ending_pc as int)
            }
        }),
        0 <= j < claims[order[i].0]@.len() ==> ({
            let all = tables_views(
                n,
                log_memory,
                log_bytecode,
                n_columns,
                order,
                pc,
                claims,
                order.len(),
            );
            let base = offset[i] / pow2(order[i].1 as nat) as int;
            let group = claims[order[i].0]@[j];
            let start = at[i + 1] - g[i].last();
            let eq = all[start + g[i][j + 1] - 1];
            let next = all[start + g[i][j]];
            &&& 0 <= start + g[i][j] < start + g[i][j + 1] <= all.len()
            &&& eq.total_num_variables == n
            &&& eq.point == group.point@
            &&& !eq.is_next
            &&& group.eq_values@.dom().contains(c) ==> exists|k: int|
                0 <= k < eq.values.len() && (#[trigger] eq.values[k]).selector == base + c
                    && eq.values[k].value == group.eq_values@[c]
            &&& 0 <= e < eq.values.len() ==> eq.values[e].selector >= base
                && group.eq_values@.dom().contains((eq.values[e].selector - base) as usize)
                && eq.values[e].value == group.eq_values@[(eq.values[e].selector - base) as usize]
            &&& 0 < e < eq.values.len() ==> eq.values[e - 1].selector < eq.values[e].selector
            &&& group.next_values@.dom() != Set::<usize>::empty() ==> {
                &&& next.total_num_variables == n
                &&& next.point == group.point@
                &&& next.is_next
                &&& group.next_values@.dom().contains(c) ==> exists|k: int|
                    0 <= k < next.values.len() && (#[trigger] next.values[k]).selector == base + c
                        && next.values[k].value == group.next_values@[c]
                &&& 0 <= e < next.values.len() ==> next.values[e].selector >= base
                    && group.next_values@.dom().contains((next.values[e].selector - base) as usize)
                    && next.values[e].value == group.next_values@[(next.values[e].selector
                    - base) as usize]
                &&& 0 < e < next.values.len() ==> next.values[e - 1].selector
                    < next.values[e].selector
            }
        }),
{
    let all = tables_views(
        n,
        log_memory,
        log_bytecode,
        n_columns,
        order,
        pc,
        claims,
        order.len(),
    );
    let rows = pow2(order[i].1 as nat) as int;
    let base = offset[i] / rows;
    let cols = n_columns[order[i].0 as int] as int;
    let list = claims[order[i].0]@;
    let here = table_views(n, offset[i], order[i], pc, list);
    lemma_pow2_pos(order[i].1 as nat);
    lemma_offsets(log_memory, log_bytecode, n_columns, order, offset, i);
    lemma_table_at(
        n,
        log_memory,
        log_bytecode,
        n_columns,
        order,
        pc,
        claims,
        g,
        at,
        order.len(),
        i,
    );
    assert(all.subrange(at[i], at[i + 1]) == here);
    let stated = claims_views(n, base, list, list.len());
    let first = if order[i].0 == pc.execution {
        2int
    } else {
        0int
    };
    assert(group_positions(list, g[i]));
    if order[i].0 == pc.execution {
        lemma_counter_rows(offset[i], pc.col_pc as int, cols, rows);
        assert(all[at[i]] == here[0]);
        assert(all[at[i] + 1] == here[1]);
    }
    if 0 <= j < list.len() {
        lemma_base_fits(offset[i], cols, rows);
        law_claims_are_stated(n, base, list, cols, g[i], j, c, e);
        assert(here.len() == first + stated.len());
        assert(here[first + g[i][j]] == stated[g[i][j]]);
        assert(here[first + g[i][j + 1] - 1] == stated[g[i][j + 1] - 1]);
        assert(all[at[i] + first + g[i][j]] == here[first + g[i][j]]);
        assert(all[at[i] + first + g[i][j + 1] - 1] == here[first + g[i][j + 1] - 1]);
        assert(at[i + 1] - g[i].last() == at[i] + first);
    }
}

proof fn lemma_base_fits(offset: int, cols: int, rows: int)
    requires
        0 <= offset,
        0 <= cols,
        0 < rows,
    ensures
        0 <= offset / rows,
        offset / rows + cols <= offset + cols * rows,
{
    let q = offset / rows;
    vstd::arithmetic::div_mod::lemma_fundamental_div_mod(offset, rows);
    vstd::arithmetic::div_mod::lemma_div_pos_is_pos(offset, rows);
    assert(q + cols <= offset + cols * rows) by (nonlinear_arith)
        requires
            rows >= 1,
            q >= 0,
            cols >= 0,
            rows * q <= offset,
    ;
}

proof fn lemma_counter_rows(offset: int, col: int, cols: int, rows: int)
    requires
        0 <= offset,
        0 <= col < cols,
        0 < rows,
    ensures
        0 <= offset + col * rows <= offset + cols * rows,
        (col + 1) * rows == col * rows + rows,
        offset + col * rows + rows <= offset + cols * rows,
{
    assert(0 <= col * rows && (col + 1) * rows == col * rows + rows && (col + 1) * rows <= cols
        * rows) by (nonlinear_arith)
        requires
            0 <= col < cols,
            0 < rows,
    ;
}

/// The contents of statements, entry by entry.
pub proof fn law_statement_views<EF>(s: Seq<SparseStatement<EF>>, i: int)
    requires
        0 <= i < s.len(),
    ensures
        views(s).len() == s.len(),
        views(s)[i].total_num_variables == s[i].total_num_variables,
        views(s)[i].point == s[i].point@,
        views(s)[i].values == s[i].values@,
        views(s)[i].is_next == s[i].is_next,
{
}

} // verus!
