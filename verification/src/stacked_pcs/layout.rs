//! Where the parts of the stacked polynomial stand, and how long it is.

use crate::math::{log2_ceil_of, lemma_pow2_monotone, log2_ceil_usize, pow2_usize};
use crate::tables::table_trait::{
    entry_of, ordered_by_height, same_entries, sort_tables_by_height, tables_by_height, LookupIntoMemory,
    LookupView, Table,
};
use std::collections::BTreeMap;
use vstd::arithmetic::power2::{lemma_pow2_pos, pow2};
use vstd::prelude::*;

verus! {

/// Why a commitment is refused.
#[derive(Clone, Copy, PartialEq, Eq, Structural, Debug)]
pub enum ProofError {
    InvalidProof,
}

/// The field's multiplicative group has a subgroup of two to this power.
pub const TWO_ADICITY: usize = 24;

/// The length of a table: its columns, each of two to its height.
pub open spec fn table_len(n_columns: Seq<usize>, t: (Table, usize)) -> int {
    n_columns[t.0 as int] * pow2(t.1 as nat)
}

/// The length of the first `m` tables.
pub open spec fn tables_len(n_columns: Seq<usize>, order: Seq<(Table, usize)>, m: nat) -> int
    decreases m,
{
    if m == 0 {
        0
    } else {
        tables_len(n_columns, order, (m - 1) as nat) + table_len(n_columns, order[m - 1])
    }
}

pub open spec fn larger(a: int, b: int) -> int {
    if a >= b {
        a
    } else {
        b
    }
}

/// The length of the slot of the bytecode accumulator.
pub open spec fn bytecode_slot(log_bytecode: int, order: Seq<(Table, usize)>) -> int {
    pow2(larger(log_bytecode, order[0].1 as int) as nat) as int
}

/// Where the tables start.
pub open spec fn tables_start(
    log_memory: int,
    log_bytecode: int,
    order: Seq<(Table, usize)>,
) -> int {
    2 * pow2(log_memory as nat) + bytecode_slot(log_bytecode, order)
}

/// Where the `i`th table starts.
pub open spec fn table_offset(
    log_memory: int,
    log_bytecode: int,
    n_columns: Seq<usize>,
    order: Seq<(Table, usize)>,
    i: nat,
) -> int {
    tables_start(log_memory, log_bytecode, order) + tables_len(n_columns, order, i)
}

/// The length of all parts.
pub open spec fn stacked_len(
    log_memory: int,
    log_bytecode: int,
    n_columns: Seq<usize>,
    order: Seq<(Table, usize)>,
) -> int {
    table_offset(log_memory, log_bytecode, n_columns, order, order.len())
}

/// Every table has its number of columns listed.
pub open spec fn tables_known(n_columns: Seq<usize>, heights: Map<Table, usize>) -> bool {
    forall|t: Table| #[trigger] heights.dom().contains(t) ==> t < n_columns.len()
}

pub proof fn lemma_tables_len_grows(
    n_columns: Seq<usize>,
    order: Seq<(Table, usize)>,
    i: nat,
    j: nat,
)
    requires
        i <= j,
    ensures
        0 <= tables_len(n_columns, order, i) <= tables_len(n_columns, order, j),
    decreases j,
{
    if j > 0 {
        let t = order[j - 1];
        assert(0 <= table_len(n_columns, t)) by (nonlinear_arith)
            requires
                table_len(n_columns, t) == n_columns[t.0 as int] * pow2(t.1 as nat),
                n_columns[t.0 as int] >= 0,
                pow2(t.1 as nat) >= 0,
        ;
        if i < j {
            lemma_tables_len_grows(n_columns, order, i, (j - 1) as nat);
        } else {
            lemma_tables_len_grows(n_columns, order, (j - 1) as nat, (j - 1) as nat);
        }
    }
}

/// The powers of two in a layout fit where the whole does.
pub proof fn lemma_parts_fit(
    log_memory: int,
    log_bytecode: int,
    n_columns: Seq<usize>,
    order: Seq<(Table, usize)>,
    limit: int,
)
    requires
        log_memory >= 0,
        log_bytecode >= 0,
        stacked_len(log_memory, log_bytecode, n_columns, order) <= limit,
    ensures
        2 * pow2(log_memory as nat) <= limit,
        bytecode_slot(log_bytecode, order) <= limit,
        pow2(log_bytecode as nat) <= limit,
        pow2(order[0].1 as nat) <= limit,
        tables_start(log_memory, log_bytecode, order) <= limit,
{
    lemma_tables_len_grows(n_columns, order, 0, order.len());
    lemma_pow2_pos(log_memory as nat);
    let slot = larger(log_bytecode, order[0].1 as int);
    lemma_pow2_pos(slot as nat);
    lemma_pow2_monotone(log_bytecode as nat, slot as nat);
    lemma_pow2_monotone(order[0].1 as nat, slot as nat);
}

/// A map with entries has a first one.
pub proof fn lemma_order_nonempty(order: Seq<(Table, usize)>, heights: Map<Table, usize>, t: Table)
    requires
        same_entries(order, heights),
        heights.dom().contains(t),
    ensures
        order.len() > 0,
        order.contains((t, heights[t])),
{
    assert(order.contains((t, heights[t])));
}

/// The number of variables of the stacked polynomial.
pub fn compute_stacked_n_vars(
    log_memory: usize,
    log_bytecode: usize,
    tables_log_heights: &BTreeMap<Table, usize>,
    n_columns: &[usize],
) -> (r: usize)
    requires
        exists|t: Table| #[trigger] tables_log_heights@.dom().contains(t),
        tables_known(n_columns@, tables_log_heights@),
        stacked_len(
            log_memory as int,
            log_bytecode as int,
            n_columns@,
            tables_by_height(tables_log_heights@),
        ) <= usize::MAX,
    ensures
        r == log2_ceil_of(
            stacked_len(
                log_memory as int,
                log_bytecode as int,
                n_columns@,
                tables_by_height(tables_log_heights@),
            ),
        ),
{
    let sorted = sort_tables_by_height(tables_log_heights);
    log2_ceil_usize(
        layout_len(
            log_memory,
            log_bytecode,
            &sorted,
            n_columns,
            Ghost(tables_log_heights@),
        ),
    )
}

/// The length of all parts.
pub(crate) fn layout_len(
    log_memory: usize,
    log_bytecode: usize,
    sorted: &Vec<(Table, usize)>,
    n_columns: &[usize],
    Ghost(heights): Ghost<Map<Table, usize>>,
) -> (r: usize)
    requires
        exists|t: Table| #[trigger] heights.dom().contains(t),
        tables_known(n_columns@, heights),
        same_entries(sorted@, heights),
        stacked_len(log_memory as int, log_bytecode as int, n_columns@, sorted@) <= usize::MAX,
    ensures
        r == stacked_len(log_memory as int, log_bytecode as int, n_columns@, sorted@),
{
    let ghost order = sorted@;
    let ghost whole = stacked_len(log_memory as int, log_bytecode as int, n_columns@, order);
    proof {
        let t = choose|t: Table| #[trigger] heights.dom().contains(t);
        lemma_order_nonempty(order, heights, t);
        lemma_parts_fit(
            log_memory as int,
            log_bytecode as int,
            n_columns@,
            order,
            usize::MAX as int,
        );
        lemma_tables_len_grows(n_columns@, order, 0, order.len());
    }
    let max_log: usize = if log_bytecode >= sorted[0].1 {
        log_bytecode
    } else {
        sorted[0].1
    };
    let mut total: usize = 2 * pow2_usize(log_memory) + pow2_usize(max_log);
    let mut i: usize = 0;
    while i < sorted.len()
        invariant
            i <= sorted@.len(),
            order == sorted@,
            tables_known(n_columns@, heights),
            same_entries(order, heights),
            whole == stacked_len(log_memory as int, log_bytecode as int, n_columns@, order),
            whole <= usize::MAX,
            total == table_offset(
                log_memory as int,
                log_bytecode as int,
                n_columns@,
                order,
                i as nat,
            ),
        decreases sorted@.len() - i,
    {
        let (table, log_n_rows) = sorted[i];
        proof {
            assert(heights.dom().contains(order[i as int].0));
            lemma_tables_len_grows(n_columns@, order, (i + 1) as nat, order.len());
            lemma_tables_len_grows(n_columns@, order, 0, i as nat);
            lemma_pow2_pos(log_n_rows as nat);
            lemma_pow2_pos(log_memory as nat);
            lemma_pow2_pos(larger(log_bytecode as int, order[0].1 as int) as nat);
        }
        let cols: usize = n_columns[table];
        if cols > 0 {
            proof {
                let p = pow2(log_n_rows as nat) as int;
                assert(p <= cols * p) by (nonlinear_arith)
                    requires
                        cols >= 1,
                        p >= 0,
                ;
            }
            total = total + cols * pow2_usize(log_n_rows);
        } else {
            assert(cols * pow2(log_n_rows as nat) == 0) by (nonlinear_arith)
                requires
                    cols == 0,
            ;
        }
        i += 1;
    }
    total
}

/// Memory is at least as large as the execution table, and no table is higher than that.
pub open spec fn heights_valid(
    log_memory: int,
    heights: Map<Table, usize>,
    execution: Table,
) -> bool {
    &&& log_memory >= heights[execution]
    &&& forall|t: Table| #[trigger]
        heights.dom().contains(t) ==> heights[t] <= heights[execution]
}

/// Checks the heights that a commitment is opened with, and gives the number of variables of the
/// stacked polynomial. They are refused where memory is smaller than the execution table, where
/// the execution table is not the highest, and where the polynomial has too many variables for
/// the field. Of the sizes nothing is asked where the heights are refused by themselves.
pub fn stacked_pcs_parse_commitment(
    log_memory: usize,
    log_bytecode: usize,
    tables_heights: &BTreeMap<Table, usize>,
    n_columns: &[usize],
    execution: Table,
    folding_factor_0: usize,
    starting_log_inv_rate: usize,
) -> (r: Result<usize, ProofError>)
    requires
        tables_heights@.dom().contains(execution),
        tables_known(n_columns@, tables_heights@),
        heights_valid(log_memory as int, tables_heights@, execution) ==> {
            &&& starting_log_inv_rate <= TWO_ADICITY + folding_factor_0
            &&& TWO_ADICITY + folding_factor_0 <= usize::MAX
            &&& stacked_len(
                log_memory as int,
                log_bytecode as int,
                n_columns@,
                tables_by_height(tables_heights@),
            ) <= usize::MAX
        },
    ensures
        r == if heights_valid(log_memory as int, tables_heights@, execution) {
            let n_vars = log2_ceil_of(
                stacked_len(
                    log_memory as int,
                    log_bytecode as int,
                    n_columns@,
                    tables_by_height(tables_heights@),
                ),
            );
            if n_vars <= TWO_ADICITY + folding_factor_0 - starting_log_inv_rate {
                Ok::<usize, ProofError>(n_vars as usize)
            } else {
                Err(ProofError::InvalidProof)
            }
        } else {
            Err(ProofError::InvalidProof)
        },
{
    let sorted = sort_tables_by_height(tables_heights);
    let ghost heights = tables_heights@;
    proof {
        lemma_order_nonempty(sorted@, heights, execution);
        lemma_first_is_highest(sorted@, heights);
    }
    let execution_height: usize = match entry_of(tables_heights, execution) {
        Some(h) => *h,
        None => 0,
    };
    if log_memory < execution_height || execution_height < sorted[0].1 {
        proof {
            assert(heights.dom().contains(sorted@[0].0));
        }
        return Err(ProofError::InvalidProof);
    }
    let stacked_n_vars: usize = compute_stacked_n_vars(
        log_memory,
        log_bytecode,
        tables_heights,
        n_columns,
    );
    if stacked_n_vars > TWO_ADICITY + folding_factor_0 - starting_log_inv_rate {
        return Err(ProofError::InvalidProof);
    }
    Ok(stacked_n_vars)
}

/// The first table in the order is the highest.
pub proof fn lemma_first_is_highest(order: Seq<(Table, usize)>, heights: Map<Table, usize>)
    requires
        ordered_by_height(order),
        same_entries(order, heights),
        order.len() > 0,
    ensures
        forall|t: Table| #[trigger] heights.dom().contains(t) ==> heights[t] <= order[0].1,
{
    assert forall|t: Table| #[trigger] heights.dom().contains(t) implies heights[t]
        <= order[0].1 by {
        assert(order.contains((t, heights[t])));
        let i = order.index_of((t, heights[t]));
        assert(order[i] == (t, heights[t]));
        if i > 0 {
            assert(order[0].1 > order[i].1 || order[0].1 == order[i].1 && order[0].0
                < order[i].0);
        }
    }
}

/// The order of `n` tables of one height: that of the tables.
pub open spec fn equal_heights(n: nat, height: usize) -> Seq<(Table, usize)> {
    Seq::new(n, |i: int| (i as usize, height))
}

/// The number of variables of the smallest stacked polynomial: all tables at their least height
/// and the smallest memory.
pub fn min_stacked_n_vars(
    log_bytecode: usize,
    n_columns: &[usize],
    min_log_memory_size: usize,
    min_log_n_rows_per_table: usize,
) -> (r: usize)
    requires
        n_columns@.len() > 0,
        stacked_len(
            min_log_memory_size as int,
            log_bytecode as int,
            n_columns@,
            equal_heights(n_columns@.len(), min_log_n_rows_per_table),
        ) <= usize::MAX,
    ensures
        r == log2_ceil_of(
            stacked_len(
                min_log_memory_size as int,
                log_bytecode as int,
                n_columns@,
                equal_heights(n_columns@.len(), min_log_n_rows_per_table),
            ),
        ),
{
    let n: usize = n_columns.len();
    let ghost order = equal_heights(n as nat, min_log_n_rows_per_table);
    let ghost heights = Map::new(
        |t: Table| t < n,
        |t: Table| min_log_n_rows_per_table,
    );
    let mut sorted: Vec<(Table, usize)> = Vec::new();
    let mut i: usize = 0;
    while i < n
        invariant
            i <= n,
            sorted@.len() == i,
            forall|j: int|
                0 <= j < i ==> #[trigger] sorted@[j] == (j as usize, min_log_n_rows_per_table),
        decreases n - i,
    {
        sorted.push((i, min_log_n_rows_per_table));
        i += 1;
    }
    proof {
        assert(sorted@ =~= order);
        assert(heights.dom().contains(0usize));
        assert forall|t: Table| heights.dom().contains(t) implies order.contains(
            (t, #[trigger] heights[t]),
        ) by {
            assert(order[t as int] == (t, heights[t]));
        }
    }
    log2_ceil_usize(
        layout_len(min_log_memory_size, log_bytecode, &sorted, n_columns, Ghost(heights)),
    )
}

/// The columns that a lookup reads.
pub open spec fn lookup_columns(l: LookupView) -> Set<usize> {
    let address = match l.computed_address {
        Some(ca) => set![ca.hi_col, ca.lo_col],
        None => set![l.index],
    };
    address.union(l.values.to_set()).union(l.conditional_inactive.to_set())
}

/// The columns that the first `m` lookups read.
pub open spec fn all_lookup_columns(lookups: Seq<LookupIntoMemory>, m: nat) -> Set<usize>
    decreases m,
{
    if m == 0 {
        Set::empty()
    } else {
        all_lookup_columns(lookups, (m - 1) as nat).union(lookup_columns(lookups[m - 1]@))
    }
}

/// What is counted of a table.
#[derive(Debug)]
pub struct TableCounts {
    pub n_columns: usize,
    pub n_down_columns: usize,
    pub lookups: Vec<LookupIntoMemory>,
}

impl TableCounts {
    /// The statements on a table: its columns, those that flow to the next row, and each column
    /// that a lookup reads.
    pub open spec fn statements(self) -> int {
        self.n_columns + self.n_down_columns + all_lookup_columns(
            self.lookups@,
            self.lookups@.len(),
        ).len()
    }
}

/// The statements on the first `m` tables.
pub open spec fn statements_of(tables: Seq<TableCounts>, m: nat) -> int
    decreases m,
{
    if m == 0 {
        0
    } else {
        statements_of(tables, (m - 1) as nat) + tables[m - 1].statements()
    }
}

/// `v` lists the elements of `s`, each once.
spec fn lists(v: Seq<usize>, s: Set<usize>) -> bool {
    v.no_duplicates() && v.to_set() == s
}

fn insert_column(cols: &mut Vec<usize>, c: usize, Ghost(s): Ghost<Set<usize>>)
    requires
        lists(old(cols)@, s),
    ensures
        lists(final(cols)@, s.insert(c)),
{
    let mut i: usize = 0;
    while i < cols.len()
        invariant
            i <= cols@.len(),
            lists(cols@, s),
            cols@ == old(cols)@,
            forall|j: int| 0 <= j < i ==> #[trigger] cols@[j] != c,
        decreases cols@.len() - i,
    {
        if cols[i] == c {
            assert(cols@.to_set().contains(c));
            assert(s.insert(c) =~= s);
            return ;
        }
        i += 1;
    }
    let ghost before = cols@;
    cols.push(c);
    proof {
        assert(!before.contains(c));
        assert forall|x: usize| cols@.to_set().contains(x) <==> s.insert(c).contains(x) by {
            if cols@.contains(x) {
                let j = cols@.index_of(x);
                if j < before.len() {
                    assert(before[j] == x);
                    assert(before.to_set().contains(x));
                }
            }
            if s.contains(x) {
                assert(before.to_set().contains(x));
                let j = before.index_of(x);
                assert(cols@[j] == x);
            }
            if x == c {
                assert(cols@[before.len() as int] == c);
            }
        }
        assert(cols@.to_set() =~= s.insert(c));
    }
}

fn insert_columns(cols: &mut Vec<usize>, more: &Vec<usize>, Ghost(s): Ghost<Set<usize>>)
    requires
        lists(old(cols)@, s),
    ensures
        lists(final(cols)@, s.union(more@.to_set())),
{
    let mut i: usize = 0;
    assert(s.union(more@.take(0).to_set()) =~= s);
    while i < more.len()
        invariant
            i <= more@.len(),
            lists(cols@, s.union(more@.take(i as int).to_set())),
        decreases more@.len() - i,
    {
        let ghost t = s.union(more@.take(i as int).to_set());
        insert_column(cols, more[i], Ghost(t));
        proof {
            let (p, q) = (more@.take(i as int), more@.take(i + 1));
            assert forall|x: usize| t.insert(more@[i as int]).contains(x) <==> s.union(
                q.to_set(),
            ).contains(x) by {
                if p.contains(x) {
                    assert(q[p.index_of(x)] == x);
                }
                if q.contains(x) {
                    let j = q.index_of(x);
                    if j < i {
                        assert(p[j] == x);
                    }
                }
                assert(q[i as int] == more@[i as int]);
            }
            assert(t.insert(more@[i as int]) =~= s.union(q.to_set()));
        }
        i += 1;
    }
    assert(more@.take(i as int) =~= more@);
}

/// How many columns lookups read.
fn count_lookup_columns(lookups: &Vec<LookupIntoMemory>) -> (r: usize)
    ensures
        r == all_lookup_columns(lookups@, lookups@.len()).len(),
{
    let mut cols: Vec<usize> = Vec::new();
    let mut i: usize = 0;
    assert(cols@.to_set() =~= Set::<usize>::empty());
    while i < lookups.len()
        invariant
            i <= lookups@.len(),
            lists(cols@, all_lookup_columns(lookups@, i as nat)),
        decreases lookups@.len() - i,
    {
        let lookup = &lookups[i];
        let ghost s0 = all_lookup_columns(lookups@, i as nat);
        let ghost mut s1 = s0;
        match &lookup.computed_address {
            Some(ca) => {
                insert_column(&mut cols, ca.hi_col, Ghost(s0));
                insert_column(&mut cols, ca.lo_col, Ghost(s0.insert(ca.hi_col)));
                proof {
                    s1 = s0.insert(ca.hi_col).insert(ca.lo_col);
                }
            },
            None => {
                insert_column(&mut cols, lookup.index, Ghost(s0));
                proof {
                    s1 = s0.insert(lookup.index);
                }
            },
        }
        insert_columns(&mut cols, &lookup.values, Ghost(s1));
        let ghost s2 = s1.union(lookup.values@.to_set());
        insert_columns(&mut cols, &lookup.conditional_inactive, Ghost(s2));
        assert(s2.union(lookup.conditional_inactive@.to_set()) =~= all_lookup_columns(
            lookups@,
            (i + 1) as nat,
        ));
        i += 1;
    }
    proof {
        cols@.unique_seq_to_set();
    }
    cols.len()
}

/// The number of statements on the stacked polynomial: six on memory, accumulators and the
/// program counter, those on the tables, and those of the bytecode lookup.
pub fn total_whir_statements(tables: &[TableCounts], n_instruction_columns: usize) -> (r: usize)
    requires
        6 + statements_of(tables@, tables@.len()) + 1 + n_instruction_columns <= usize::MAX,
    ensures
        r == 6 + statements_of(tables@, tables@.len()) + 1 + n_instruction_columns,
{
    let mut total: usize = 6;
    let mut i: usize = 0;
    proof {
        lemma_statements_grow(tables@, 0, tables@.len());
    }
    while i < tables.len()
        invariant
            i <= tables@.len(),
            6 + statements_of(tables@, tables@.len()) + 1 + n_instruction_columns <= usize::MAX,
            total == 6 + statements_of(tables@, i as nat),
        decreases tables@.len() - i,
    {
        let table = &tables[i];
        proof {
            lemma_statements_grow(tables@, (i + 1) as nat, tables@.len());
            lemma_statements_grow(tables@, 0, i as nat);
        }
        let lookup_cols: usize = count_lookup_columns(&table.lookups);
        total = total + (table.n_columns + table.n_down_columns + lookup_cols);
        i += 1;
    }
    total + 1 + n_instruction_columns
}

proof fn lemma_statements_grow(tables: Seq<TableCounts>, i: nat, j: nat)
    requires
        i <= j,
    ensures
        0 <= statements_of(tables, i) <= statements_of(tables, j),
    decreases j,
{
    if j > 0 {
        if i < j {
            lemma_statements_grow(tables, i, (j - 1) as nat);
        } else {
            lemma_statements_grow(tables, (j - 1) as nat, (j - 1) as nat);
        }
    }
}

/// The columns of the listed tables.
spec fn columns_total(n_columns: Seq<usize>, tables: Seq<Table>) -> int
    decreases tables.len(),
{
    if tables.len() == 0 {
        0
    } else {
        columns_total(n_columns, tables.drop_last()) + n_columns[tables.last() as int]
    }
}

proof fn lemma_columns_total_remove(n_columns: Seq<usize>, tables: Seq<Table>, p: int)
    requires
        0 <= p < tables.len(),
    ensures
        columns_total(n_columns, tables) == columns_total(n_columns, tables.remove(p))
            + n_columns[tables[p] as int],
    decreases tables.len(),
{
    let rest = tables.remove(p);
    if p == tables.len() - 1 {
        assert(rest =~= tables.drop_last());
    } else {
        lemma_columns_total_remove(n_columns, tables.drop_last(), p);
        assert(rest.drop_last() =~= tables.drop_last().remove(p));
        assert(rest.last() == tables.last());
    }
}

/// The tables `0 .. n` in any order have the columns of the tables in order.
proof fn lemma_columns_total_any_order(n_columns: Seq<usize>, tables: Seq<Table>, n: nat)
    requires
        n <= n_columns.len(),
        n_columns.len() <= usize::MAX,
        tables.no_duplicates(),
        forall|t: Table| #[trigger] tables.contains(t) <==> t < n,
    ensures
        columns_total(n_columns, tables) == columns_total(
            n_columns,
            Seq::new(n, |i: int| i as usize),
        ),
    decreases n,
{
    let ids = Seq::new(n, |i: int| i as usize);
    if n == 0 {
        if tables.len() > 0 {
            assert(tables.contains(tables[0]));
        }
        assert(tables =~= ids);
    } else {
        let last = (n - 1) as usize;
        assert(tables.contains(last));
        let p = tables.index_of(last);
        let rest = tables.remove(p);
        lemma_columns_total_remove(n_columns, tables, p);
        assert forall|i: int, j: int| 0 <= i < rest.len() && 0 <= j < rest.len() && i
            != j implies rest[i] != rest[j] by {
            let (a, b) = (
                if i < p {
                    i
                } else {
                    i + 1
                },
                if j < p {
                    j
                } else {
                    j + 1
                },
            );
            assert(rest[i] == tables[a] && rest[j] == tables[b]);
        }
        assert forall|t: Table| #[trigger] rest.contains(t) <==> t < n - 1 by {
            if rest.contains(t) {
                let i = rest.index_of(t);
                let a = if i < p {
                    i
                } else {
                    i + 1
                };
                assert(tables[a] == t);
                assert(tables.contains(t));
            }
            if t < n - 1 {
                assert(tables.contains(t));
                let a = tables.index_of(t);
                assert(a != p);
                assert(rest[if a < p {
                    a
                } else {
                    a - 1
                }] == t);
            }
        }
        lemma_columns_total_any_order(n_columns, rest, (n - 1) as nat);
        assert(ids.drop_last() =~= Seq::new((n - 1) as nat, |i: int| i as usize));
    }
}

/// The tables of an order.
spec fn tables_in(order: Seq<(Table, usize)>) -> Seq<Table> {
    Seq::new(order.len(), |i: int| order[i].0)
}

proof fn lemma_tables_len_at_least(
    n_columns: Seq<usize>,
    order: Seq<(Table, usize)>,
    m: nat,
    height: nat,
)
    requires
        m <= order.len(),
        forall|k: int| 0 <= k < m ==> (#[trigger] order[k]).1 >= height,
    ensures
        tables_len(n_columns, order, m) >= columns_total(n_columns, tables_in(order).take(m as int))
            * pow2(height),
        (forall|k: int| 0 <= k < m ==> (#[trigger] order[k]).1 == height) ==> tables_len(
            n_columns,
            order,
            m,
        ) == columns_total(n_columns, tables_in(order).take(m as int)) * pow2(height),
    decreases m,
{
    let p = pow2(height) as int;
    let keys = tables_in(order);
    if m == 0 {
        assert(keys.take(0).len() == 0);
        assert(0 * p == 0);
    } else {
        lemma_tables_len_at_least(n_columns, order, (m - 1) as nat, height);
        let t = order[m - 1];
        assert(keys.take(m as int).drop_last() =~= keys.take(m - 1));
        assert(keys.take(m as int).last() == t.0);
        lemma_pow2_monotone(height, t.1 as nat);
        let (a, c, q) = (
            columns_total(n_columns, keys.take(m - 1)),
            n_columns[t.0 as int] as int,
            pow2(t.1 as nat) as int,
        );
        assert((a + c) * p == a * p + c * p) by (nonlinear_arith);
        assert(c * q >= c * p) by (nonlinear_arith)
            requires
                q >= p,
                c >= 0,
        ;
    }
}

/// The smallest stacked polynomial is no larger than any other: none whose tables and memory have
/// at least the least heights has fewer variables.
pub proof fn law_min_stacked_is_least(
    log_bytecode: int,
    n_columns: Seq<usize>,
    min_log_memory: int,
    min_height: usize,
    log_memory: int,
    heights: Map<Table, usize>,
    order: Seq<(Table, usize)>,
)
    requires
        0 < n_columns.len() <= usize::MAX,
        0 <= min_log_memory <= log_memory,
        0 <= log_bytecode,
        forall|t: Table| #[trigger] heights.dom().contains(t) <==> t < n_columns.len(),
        forall|t: Table| #[trigger] heights.dom().contains(t) ==> heights[t] >= min_height,
        ordered_by_height(order),
        same_entries(order, heights),
        stacked_len(log_memory, log_bytecode, n_columns, order) <= usize::MAX,
    ensures
        stacked_len(
            min_log_memory,
            log_bytecode,
            n_columns,
            equal_heights(n_columns.len(), min_height),
        ) <= stacked_len(log_memory, log_bytecode, n_columns, order),
        log2_ceil_of(
            stacked_len(
                min_log_memory,
                log_bytecode,
                n_columns,
                equal_heights(n_columns.len(), min_height),
            ),
        ) <= log2_ceil_of(stacked_len(log_memory, log_bytecode, n_columns, order)),
{
    let n = n_columns.len();
    let least = equal_heights(n, min_height);
    let keys = tables_in(order);
    lemma_order_nonempty(order, heights, 0);
    // The tables of the order are all tables.
    assert forall|t: Table| #[trigger] keys.contains(t) <==> t < n by {
        if keys.contains(t) {
            let i = keys.index_of(t);
            assert(heights.dom().contains(order[i].0));
        }
        if t < n {
            assert(heights.dom().contains(t));
            assert(order.contains((t, heights[t])));
            let i = order.index_of((t, heights[t]));
            assert(order[i] == (t, heights[t]));
            assert(keys[i] == t);
        }
    }
    assert forall|i: int, j: int| 0 <= i < keys.len() && 0 <= j < keys.len() && i != j implies keys[i]
        != keys[j] by {
        if keys[i] == keys[j] {
            assert(heights[order[i].0] == order[i].1 && heights[order[j].0] == order[j].1);
            if i < j {
                assert(order[i].1 > order[j].1 || order[i].1 == order[j].1 && order[i].0
                    < order[j].0);
            } else {
                assert(order[j].1 > order[i].1 || order[j].1 == order[i].1 && order[j].0
                    < order[i].0);
            }
        }
    }
    lemma_columns_total_any_order(n_columns, keys, n);
    assert forall|k: int| 0 <= k < order.len() implies (#[trigger] order[k]).1 >= min_height by {
        assert(heights.dom().contains(order[k].0));
    }
    assert(order[0].1 >= min_height);
    lemma_tables_len_at_least(n_columns, order, order.len(), min_height as nat);
    lemma_tables_len_at_least(n_columns, least, n, min_height as nat);
    assert(keys.take(order.len() as int) =~= keys);
    assert(tables_in(least).take(n as int) =~= Seq::new(n, |i: int| i as usize));
    lemma_pow2_monotone(min_log_memory as nat, log_memory as nat);
    lemma_pow2_monotone(
        larger(log_bytecode, min_height as int) as nat,
        larger(log_bytecode, order[0].1 as int) as nat,
    );
    let small = stacked_len(min_log_memory, log_bytecode, n_columns, least);
    let large = stacked_len(log_memory, log_bytecode, n_columns, order);
    lemma_log2_ceil_monotone(small, large);
}

/// The exponent of a larger number is no smaller.
proof fn lemma_log2_ceil_monotone(small: int, large: int)
    requires
        small <= large <= usize::MAX,
    ensures
        log2_ceil_of(small) <= log2_ceil_of(large),
{
    crate::math::lemma_log2_ceil_exists(small);
    crate::math::lemma_log2_ceil_exists(large);
    let (a, b) = (log2_ceil_of(small), log2_ceil_of(large));
    if a > b {
        lemma_pow2_monotone(b, (a - 1) as nat);
    }
}

} // verus!
