//! Stacking the parts into one polynomial, and laying it out for the transform.

use crate::field::{Algebra, KoalaBear, Ring};
use crate::math::{
    is_log2_ceil, is_pow2, lemma_pow2_monotone, lemma_pow2_step, log2_ceil_of, log2_ceil_usize,
    log2_exact, log2_strict_usize, pow2_usize,
};
use crate::stacked_pcs::layout::{
    bytecode_slot, larger, layout_len, lemma_order_nonempty, lemma_parts_fit,
    lemma_tables_len_grows, stacked_len, table_len, table_offset, tables_len, tables_start,
};
use crate::tables::table_trait::{
    entries_in_order, entry_of, law_height_order_unique, ordered_by_height, same_entries,
    sort_entries, tables_by_height, Table, TableTrace,
};
use crate::whir::commit::{commit_shape_of, ood_answers_of, MerkleData, Witness};
use crate::whir::config::WhirConfig;
use crate::whir::matrix::DenseMatrix;
use crate::whir::merkle::{commits_to, DftOutput, DIGEST_ELEMS};
use crate::whir::queries::zero_extended;
use crate::sumcheck::vectors::lifted;
use std::collections::BTreeMap;
use vstd::arithmetic::power2::{lemma_pow2_adds, lemma_pow2_pos, pow2};
use vstd::prelude::*;

verus! {

/// The heights of the tables.
pub open spec fn heights_of(traces: Map<Table, TableTrace>) -> Map<Table, usize> {
    traces.map_values(|t: TableTrace| t.log_n_rows)
}

/// The first `m` columns of a table, one behind the other.
pub open spec fn columns_of(trace: TableTrace, m: nat) -> Seq<KoalaBear>
    decreases m,
{
    if m == 0 {
        Seq::empty()
    } else {
        columns_of(trace, (m - 1) as nat) + trace.columns@[m - 1]@.take(
            pow2(trace.log_n_rows as nat) as int,
        )
    }
}

/// The first `m` tables, one behind the other.
pub open spec fn tables_data(
    traces: Map<Table, TableTrace>,
    n_columns: Seq<usize>,
    order: Seq<(Table, usize)>,
    m: nat,
) -> Seq<KoalaBear>
    decreases m,
{
    if m == 0 {
        Seq::empty()
    } else {
        let t = order[m - 1].0;
        tables_data(traces, n_columns, order, (m - 1) as nat) + columns_of(
            traces[t],
            n_columns[t as int] as nat,
        )
    }
}

/// All parts, one behind the other.
pub open spec fn stacked_data(
    memory: Seq<KoalaBear>,
    memory_acc: Seq<KoalaBear>,
    bytecode_acc: Seq<KoalaBear>,
    traces: Map<Table, TableTrace>,
    n_columns: Seq<usize>,
) -> Seq<KoalaBear> {
    let order = tables_by_height(heights_of(traces));
    memory + memory_acc + zero_extended(
        bytecode_acc,
        bytecode_slot(log2_exact(bytecode_acc.len() as int) as int, order) as nat,
    ) + tables_data(traces, n_columns, order, order.len())
}

/// Every table has its columns, each with a row for every index up to two to its height.
pub open spec fn traces_complete(traces: Map<Table, TableTrace>, n_columns: Seq<usize>) -> bool {
    &&& forall|t: Table| #[trigger]
        traces.dom().contains(t) ==> t < n_columns.len() && n_columns[t as int]
            <= traces[t].columns@.len()
    &&& forall|t: Table, c: int| #[trigger]
        traces.dom().contains(t) && 0 <= c < n_columns[t as int] ==> (
        #[trigger] traces[t].columns@[c])@.len() >= pow2(traces[t].log_n_rows as nat)
}

/// The layout of a polynomial for the transform: column `c` of the matrix is block `c`, every
/// element repeated as often as the rate asks.
pub open spec fn dft_layout(
    polynomial: Seq<KoalaBear>,
    block: int,
    rate: int,
    n_cols: int,
) -> Seq<KoalaBear> {
    Seq::new(
        (block * rate * n_cols) as nat,
        |i: int| polynomial[i % n_cols * block + i / n_cols / rate],
    )
}

/// A stacked polynomial, ready to be committed to.
#[derive(Debug)]
pub struct StackedPolynomial {
    pub stacked_n_vars: usize,
    /// The polynomial is zero from here on.
    pub actual_data_len: usize,
    pub global_polynomial: Vec<KoalaBear>,
    /// The input of the transform.
    pub dft_matrix: DenseMatrix<KoalaBear>,
}

/// A stacked polynomial with its commitment.
#[derive(Debug)]
pub struct StackedPcsWitness<EF> {
    pub stacked_n_vars: usize,
    pub inner_witness: Witness<EF>,
    pub global_polynomial: Vec<KoalaBear>,
}

fn append_slice(out: &mut Vec<KoalaBear>, more: &[KoalaBear], n: usize)
    requires
        n <= more@.len(),
    ensures
        final(out)@ == old(out)@ + more@.take(n as int),
{
    let mut i: usize = 0;
    assert(out@ =~= old(out)@ + more@.take(0));
    while i < n
        invariant
            i <= n,
            n <= more@.len(),
            out@ == old(out)@ + more@.take(i as int),
        decreases n - i,
    {
        out.push(more[i]);
        assert(out@ =~= old(out)@ + more@.take(i + 1));
        i += 1;
    }
}

fn append_zeros(out: &mut Vec<KoalaBear>, len: usize)
    requires
        old(out)@.len() <= len,
    ensures
        final(out)@ == zero_extended(old(out)@, len as nat),
{
    let ghost before = out@;
    assert(out@ =~= zero_extended(before, before.len()));
    while out.len() < len
        invariant
            before.len() <= out@.len() <= len,
            out@ == zero_extended(before, out@.len()),
        decreases len - out@.len(),
    {
        out.push(KoalaBear::zero());
        assert(out@ =~= zero_extended(before, out@.len()));
    }
}

proof fn lemma_columns_len(trace: TableTrace, m: nat)
    requires
        m <= trace.columns@.len(),
        forall|c: int|
            0 <= c < m ==> (#[trigger] trace.columns@[c])@.len() >= pow2(trace.log_n_rows as nat),
    ensures
        columns_of(trace, m).len() == m * pow2(trace.log_n_rows as nat),
    decreases m,
{
    let p = pow2(trace.log_n_rows as nat) as int;
    if m == 0 {
        assert(0 * p == 0);
    } else {
        lemma_columns_len(trace, (m - 1) as nat);
        assert(m * p == (m - 1) * p + p) by (nonlinear_arith);
        assert(trace.columns@[m - 1]@.take(p).len() == p);
    }
}

proof fn lemma_tables_data_len(
    traces: Map<Table, TableTrace>,
    n_columns: Seq<usize>,
    order: Seq<(Table, usize)>,
    m: nat,
)
    requires
        m <= order.len(),
        traces_complete(traces, n_columns),
        same_entries(order, heights_of(traces)),
    ensures
        tables_data(traces, n_columns, order, m).len() == tables_len(n_columns, order, m),
    decreases m,
{
    if m > 0 {
        lemma_tables_data_len(traces, n_columns, order, (m - 1) as nat);
        let t = order[m - 1].0;
        assert(heights_of(traces).dom().contains(t));
        assert(traces.dom().contains(t));
        assert(heights_of(traces)[t] == order[m - 1].1);
        assert forall|c: int| 0 <= c < n_columns[t as int] implies (
        #[trigger] traces[t].columns@[c])@.len() >= pow2(traces[t].log_n_rows as nat) by {
            assert(traces.dom().contains(t));
        }
        lemma_columns_len(traces[t], n_columns[t as int] as nat);
    }
}

/// The tables of traces with their heights, highest first.
fn sorted_heights(traces: &BTreeMap<Table, TableTrace>) -> (r: Vec<(Table, usize)>)
    ensures
        r@ == tables_by_height(heights_of(traces@)),
        ordered_by_height(r@),
        same_entries(r@, heights_of(traces@)),
{
    let refs = entries_in_order(traces);
    let ghost m = heights_of(traces@);
    let mut entries: Vec<(Table, usize)> = Vec::new();
    let mut e: usize = 0;
    while e < refs.len()
        invariant
            e <= refs@.len(),
            entries@.len() == e,
            forall|j: int|
                0 <= j < e ==> #[trigger] entries@[j] == (refs@[j].0, refs@[j].1.log_n_rows),
        decreases refs@.len() - e,
    {
        entries.push((refs[e].0, refs[e].1.log_n_rows));
        e += 1;
    }
    proof {
        assert forall|i: int, j: int| 0 <= i < j < entries@.len() implies (
        #[trigger] entries@[i]).0 < (#[trigger] entries@[j]).0 by {
            assert(refs@[i].0 < refs@[j].0);
        }
        assert forall|k: Table| m.dom().contains(k) implies entries@.contains(
            (k, #[trigger] m[k]),
        ) by {
            assert(traces@.dom().contains(k));
            let j = refs@.index_of((k, &traces@[k]));
            assert(refs@.contains((k, &traces@[k])));
            assert(entries@[j] == (k, m[k]));
        }
        assert forall|i: int| 0 <= i < entries@.len() implies m.dom().contains(
            (#[trigger] entries@[i]).0,
        ) && m[entries@[i].0] == entries@[i].1 by {
            assert(traces@.dom().contains(refs@[i].0));
        }
    }
    let sorted = sort_entries(&entries);
    proof {
        assert forall|k: Table| m.dom().contains(k) implies sorted@.contains(
            (k, #[trigger] m[k]),
        ) by {
            let j = entries@.index_of((k, m[k]));
            assert(entries@.contains((k, m[k])));
            assert(entries@[j] == (k, m[k]));
        }
        assert forall|j: int| 0 <= j < sorted@.len() implies m.dom().contains(
            (#[trigger] sorted@[j]).0,
        ) && m[sorted@[j].0] == sorted@[j].1 by {
            let k = entries@.index_of(sorted@[j]);
            assert(entries@.contains(sorted@[j]));
            assert(entries@[k] == sorted@[j]);
        }
        law_height_order_unique(sorted@, tables_by_height(m), m);
    }
    sorted
}

/// Lays a polynomial out for the transform.
fn lay_out_for_dft(polynomial: &Vec<KoalaBear>, block: usize, rate: usize, n_cols: usize) -> (r: Vec<
    KoalaBear,
>)
    requires
        block > 0,
        rate > 0,
        n_cols > 0,
        n_cols * block <= polynomial@.len(),
        block * rate * n_cols <= usize::MAX,
    ensures
        r@ == dft_layout(polynomial@, block as int, rate as int, n_cols as int),
{
    let ghost (b, ra, nc) = (block as int, rate as int, n_cols as int);
    let ghost target = dft_layout(polynomial@, b, ra, nc);
    proof {
        assert(b * ra <= b * ra * nc && b <= b * ra) by (nonlinear_arith)
            requires
                b > 0,
                ra > 0,
                nc > 0,
        ;
    }
    let height: usize = block * rate;
    let mut out: Vec<KoalaBear> = Vec::new();
    let mut row: usize = 0;
    while row < height
        invariant
            row <= height,
            height == b * ra,
            b == block,
            ra == rate,
            nc == n_cols,
            b > 0,
            ra > 0,
            nc > 0,
            nc * b <= polynomial@.len(),
            target == dft_layout(polynomial@, b, ra, nc),
            out@.len() == row * nc,
            forall|i: int| 0 <= i < out@.len() ==> #[trigger] out@[i] == target[i],
        decreases height - row,
    {
        let src_row: usize = row / rate;
        proof {
            assert(src_row < b) by (nonlinear_arith)
                requires
                    row < b * ra,
                    src_row == row as int / ra,
                    ra > 0,
            ;
            assert((row + 1) * nc <= b * ra * nc && (row + 1) * nc == row * nc + nc)
                by (nonlinear_arith)
                requires
                    row + 1 <= b * ra,
                    nc > 0,
            ;
        }
        let mut col: usize = 0;
        while col < n_cols
            invariant
                col <= n_cols,
                row < height,
                height == b * ra,
                b == block,
                ra == rate,
                nc == n_cols,
                b > 0,
                ra > 0,
                nc > 0,
                nc * b <= polynomial@.len(),
                src_row == row as int / ra,
                src_row < b,
                row * nc + nc <= b * ra * nc,
                target == dft_layout(polynomial@, b, ra, nc),
                out@.len() == row * nc + col,
                forall|i: int| 0 <= i < out@.len() ==> #[trigger] out@[i] == target[i],
            decreases n_cols - col,
        {
            proof {
                assert(0 <= col * b && col * b + b <= nc * b) by (nonlinear_arith)
                    requires
                        0 <= col < nc,
                        b > 0,
                ;
                vstd::arithmetic::div_mod::lemma_fundamental_div_mod_converse(
                    row * nc + col,
                    nc,
                    row as int,
                    col as int,
                );
                assert(polynomial.len() == polynomial@.len());
            }
            out.push(polynomial[col * block + src_row]);
            col += 1;
        }
        row += 1;
    }
    assert(out@ =~= target);
    out
}

/// Stacks all parts into one polynomial and lays it out for the transform of the commitment.
pub fn stack_polynomials(
    memory: &[KoalaBear],
    memory_acc: &[KoalaBear],
    bytecode_acc: &[KoalaBear],
    traces: &BTreeMap<Table, TableTrace>,
    n_columns: &[usize],
    execution: Table,
    folding_factor_0: usize,
    log_inv_rate: usize,
    packing_width: usize,
) -> (r: StackedPolynomial)
    requires
        memory@.len() == memory_acc@.len(),
        is_pow2(memory@.len() as int),
        is_pow2(bytecode_acc@.len() as int),
        traces_complete(traces@, n_columns@),
        traces@.dom().contains(execution),
        log2_exact(memory@.len() as int) >= traces@[execution].log_n_rows,
        forall|t: Table| #[trigger]
            traces@.dom().contains(t) ==> traces@[t].log_n_rows <= traces@[execution].log_n_rows,
        ({
            let len = stacked_len(
                log2_exact(memory@.len() as int) as int,
                log2_exact(bytecode_acc@.len() as int) as int,
                n_columns@,
                tables_by_height(heights_of(traces@)),
            );
            let n = log2_ceil_of(len);
            &&& len <= usize::MAX
            &&& pow2((n + log_inv_rate) as nat) <= usize::MAX
            &&& pow2(n) + packing_width <= usize::MAX
            &&& folding_factor_0 <= n
        }),
        packing_width > 0,
    ensures
        ({
            let len = stacked_len(
                log2_exact(memory@.len() as int) as int,
                log2_exact(bytecode_acc@.len() as int) as int,
                n_columns@,
                tables_by_height(heights_of(traces@)),
            );
            let data = stacked_data(
                memory@,
                memory_acc@,
                bytecode_acc@,
                traces@,
                n_columns@,
            );
            let shape = commit_shape_of(
                r.stacked_n_vars as int,
                folding_factor_0 as int,
                len,
                packing_width as int,
            );
            &&& r.stacked_n_vars == log2_ceil_of(len)
            &&& r.actual_data_len == len
            &&& data.len() == len
            &&& r.global_polynomial@ == zero_extended(data, pow2(r.stacked_n_vars as nat))
            &&& r.dft_matrix.width == shape.2
            &&& r.dft_matrix.values@ == dft_layout(
                r.global_polynomial@,
                pow2((r.stacked_n_vars - folding_factor_0) as nat) as int,
                pow2(log_inv_rate as nat) as int,
                shape.2,
            )
        }),
{
    let sorted = sorted_heights(traces);
    let ghost order = sorted@;
    let ghost heights = heights_of(traces@);
    let log_memory: usize = log2_strict_usize(memory.len());
    let log_bytecode: usize = log2_strict_usize(bytecode_acc.len());
    let ghost (lm, lb) = (log_memory as int, log_bytecode as int);
    let ghost whole = stacked_len(lm, lb, n_columns@, order);
    proof {
        assert(heights.dom().contains(execution));
        lemma_order_nonempty(order, heights, execution);
        lemma_parts_fit(lm, lb, n_columns@, order, usize::MAX as int);
        assert forall|t: Table| #[trigger] heights.dom().contains(t) implies t < n_columns@.len() by {
            assert(traces@.dom().contains(t));
        }
        lemma_tables_len_grows(n_columns@, order, 0, order.len());
    }
    let total_len: usize = layout_len(
        log_memory,
        log_bytecode,
        &sorted,
        n_columns,
        Ghost(heights),
    );
    let stacked_n_vars: usize = log2_ceil_usize(total_len);
    let max_log: usize = if log_bytecode >= sorted[0].1 {
        log_bytecode
    } else {
        sorted[0].1
    };
    let slot: usize = pow2_usize(max_log);
    let mut data: Vec<KoalaBear> = Vec::new();
    append_slice(&mut data, memory, memory.len());
    append_slice(&mut data, memory_acc, memory_acc.len());
    let mut bytecode: Vec<KoalaBear> = Vec::new();
    append_slice(&mut bytecode, bytecode_acc, bytecode_acc.len());
    proof {
        lemma_pow2_monotone(log_bytecode as nat, max_log as nat);
        assert(bytecode@ =~= bytecode_acc@);
    }
    append_zeros(&mut bytecode, slot);
    append_slice(&mut data, bytecode.as_slice(), slot);
    let ghost head = memory@ + memory_acc@ + zero_extended(bytecode_acc@, slot as nat);
    proof {
        assert(memory@.take(memory@.len() as int) =~= memory@);
        assert(memory_acc@.take(memory_acc@.len() as int) =~= memory_acc@);
        assert(bytecode@.take(slot as int) =~= bytecode@);
        assert(data@ =~= head);
        assert(head + Seq::<KoalaBear>::empty() =~= head);
    }
    let mut i: usize = 0;
    while i < sorted.len()
        invariant
            i <= sorted@.len(),
            order == sorted@,
            heights == heights_of(traces@),
            same_entries(order, heights),
            traces_complete(traces@, n_columns@),
            data@ == head + tables_data(traces@, n_columns@, order, i as nat),
        decreases sorted@.len() - i,
    {
        let (table, log_n_rows) = sorted[i];
        let ghost before = data@;
        proof {
            assert(heights.dom().contains(order[i as int].0));
            assert(traces@.dom().contains(table));
        }
        match entry_of(traces, table) {
            Some(trace) => {
                append_columns(&mut data, trace, n_columns[table]);
                assert(data@ =~= head + tables_data(traces@, n_columns@, order, (i + 1) as nat));
            },
            None => {},
        }
        i += 1;
    }
    proof {
        lemma_tables_data_len(traces@, n_columns@, order, order.len());
        assert(data@ == stacked_data(memory@, memory_acc@, bytecode_acc@, traces@, n_columns@));
        assert(data@.len() == whole);
        assert(is_log2_ceil(whole, stacked_n_vars as nat));
        lemma_pow2_monotone(stacked_n_vars as nat, (stacked_n_vars + log_inv_rate) as nat);
        lemma_pow2_monotone(log_inv_rate as nat, (stacked_n_vars + log_inv_rate) as nat);
        lemma_pow2_monotone(folding_factor_0 as nat, stacked_n_vars as nat);
    }
    let actual_data_len: usize = data.len();
    let poly_len: usize = pow2_usize(stacked_n_vars);
    append_zeros(&mut data, poly_len);
    let shape = crate::whir::commit::commit_shape(
        stacked_n_vars,
        folding_factor_0,
        actual_data_len,
        packing_width,
    );
    let ghost k = (stacked_n_vars - folding_factor_0) as nat;
    proof {
        lemma_pow2_monotone(k, stacked_n_vars as nat);
        lemma_pow2_adds(folding_factor_0 as nat, k);
        lemma_pow2_adds(k, log_inv_rate as nat);
        lemma_pow2_adds(stacked_n_vars as nat, log_inv_rate as nat);
        lemma_pow2_pos(k);
        lemma_pow2_pos(log_inv_rate as nat);
        lemma_pow2_pos(log_memory as nat);
        let (nc, nb, b, ra) = (
            shape.dft_n_cols as int,
            shape.n_blocks as int,
            pow2(k) as int,
            pow2(log_inv_rate as nat) as int,
        );
        assert(nc * b <= nb * b && b * ra * nc <= (nb * b) * ra) by (nonlinear_arith)
            requires
                0 <= nc <= nb,
                b > 0,
                ra > 0,
        ;
    }
    let block: usize = pow2_usize(stacked_n_vars - folding_factor_0);
    let rate: usize = pow2_usize(log_inv_rate);
    let dft = lay_out_for_dft(&data, block, rate, shape.dft_n_cols);
    StackedPolynomial {
        stacked_n_vars,
        actual_data_len,
        global_polynomial: data,
        dft_matrix: DenseMatrix { values: dft, width: shape.dft_n_cols },
    }
}

fn append_columns(out: &mut Vec<KoalaBear>, trace: &TableTrace, n: usize)
    requires
        n <= trace.columns@.len(),
        forall|c: int|
            0 <= c < n ==> (#[trigger] trace.columns@[c])@.len() >= pow2(trace.log_n_rows as nat),
    ensures
        final(out)@ == old(out)@ + columns_of(*trace, n as nat),
{
    let mut c: usize = 0;
    assert(out@ =~= old(out)@ + columns_of(*trace, 0));
    while c < n
        invariant
            c <= n,
            n <= trace.columns@.len(),
            forall|c: int|
                0 <= c < n ==> (#[trigger] trace.columns@[c])@.len() >= pow2(
                    trace.log_n_rows as nat,
                ),
            out@ == old(out)@ + columns_of(*trace, c as nat),
        decreases n - c,
    {
        let col = &trace.columns[c];
        assert(trace.columns@[c as int]@.len() >= pow2(trace.log_n_rows as nat));
        assert(col.len() == col@.len());
        let n_rows: usize = pow2_usize(trace.log_n_rows);
        append_slice(out, col.as_slice(), n_rows);
        assert(out@ =~= old(out)@ + columns_of(*trace, (c + 1) as nat));
        c += 1;
    }
}

/// Completes the commitment to a stacked polynomial: answers the out-of-domain points, which are
/// drawn once the root of `prover_data` is known.
pub fn stacked_witness<EF: Algebra<KoalaBear>>(
    config: &WhirConfig,
    stacked: StackedPolynomial,
    prover_data: MerkleData,
    ood_points: Vec<EF>,
) -> (r: StackedPcsWitness<EF>)
    requires
        config.num_variables == stacked.stacked_n_vars,
        stacked.global_polynomial@.len() == pow2(stacked.stacked_n_vars as nat),
        ood_points@.len() == config.commitment_ood_samples,
    ensures
        r.stacked_n_vars == stacked.stacked_n_vars,
        r.global_polynomial@ == stacked.global_polynomial@,
        r.inner_witness.prover_data == prover_data,
        r.inner_witness.ood_points@ == ood_points@,
        r.inner_witness.ood_answers@ == ood_answers_of(
            lifted::<KoalaBear, EF>(stacked.global_polynomial@),
            ood_points@,
            stacked.stacked_n_vars as nat,
        ),
{
    let inner_witness = config.answer_ood::<KoalaBear, EF>(
        prover_data,
        stacked.global_polynomial.as_slice(),
        ood_points,
    );
    StackedPcsWitness {
        stacked_n_vars: stacked.stacked_n_vars,
        inner_witness,
        global_polynomial: stacked.global_polynomial,
    }
}

/// Commits to a stacked polynomial: `folded_matrix` is the transform of its matrix, and the
/// out-of-domain points are drawn once the root is known. Returns the root and what the prover
/// keeps.
pub fn stack_polynomials_and_commit<EF: Algebra<KoalaBear>>(
    config: &WhirConfig,
    stacked: StackedPolynomial,
    folded_matrix: DftOutput,
    packing_width: usize,
    ood_points: Vec<EF>,
) -> (r: ([KoalaBear; DIGEST_ELEMS], StackedPcsWitness<EF>))
    requires
        config.num_variables == stacked.stacked_n_vars,
        config.folding_factor.first <= config.num_variables,
        stacked.global_polynomial@.len() == pow2(stacked.stacked_n_vars as nat),
        stacked.actual_data_len <= stacked.global_polynomial@.len(),
        packing_width > 0,
        pow2(config.folding_factor.first as nat) + packing_width <= usize::MAX,
        20 * pow2(config.folding_factor.first as nat) <= usize::MAX,
        folded_matrix.wf(),
        folded_matrix.n_rows() > 0,
        folded_matrix.n_cols() == commit_shape_of(
            config.num_variables as int,
            config.folding_factor.first as int,
            stacked.actual_data_len as int,
            packing_width as int,
        ).2,
        ood_points@.len() == config.commitment_ood_samples,
    ensures
        r.1.stacked_n_vars == stacked.stacked_n_vars,
        r.1.global_polynomial@ == stacked.global_polynomial@,
        ({
            let data = r.1.inner_witness.prover_data;
            &&& data is Base <==> folded_matrix is Base
            &&& commits_to(
                data.tree(),
                folded_matrix,
                pow2(config.folding_factor.first as nat) as int,
            )
            &&& r.0@ == data.tree().tree.root_spec()
        }),
        r.1.inner_witness.ood_points@ == ood_points@,
        r.1.inner_witness.ood_answers@ == ood_answers_of(
            lifted::<KoalaBear, EF>(stacked.global_polynomial@),
            ood_points@,
            stacked.stacked_n_vars as nat,
        ),
{
    assert(stacked.global_polynomial.len() == stacked.global_polynomial@.len());
    let shape = config.commit_shape(stacked.actual_data_len, packing_width);
    let (prover_data, root) = config.commit_matrix(folded_matrix, &shape);
    (root, stacked_witness::<EF>(config, stacked, prover_data, ood_points))
}

/// A power of two divides every higher one.
proof fn lemma_pow2_divides(low: nat, high: nat)
    requires
        low <= high,
    ensures
        pow2(high) as int % pow2(low) as int == 0,
{
    let k = (high - low) as nat;
    lemma_pow2_adds(k, low);
    lemma_pow2_pos(low);
    vstd::arithmetic::div_mod::lemma_mod_multiples_basic(pow2(k) as int, pow2(low) as int);
}

/// The length of tables that are at least as high is a multiple of a column's length.
proof fn lemma_tables_len_multiple(
    n_columns: Seq<usize>,
    order: Seq<(Table, usize)>,
    m: nat,
    n: nat,
)
    requires
        forall|k: int| 0 <= k < m ==> (#[trigger] order[k]).1 >= n,
    ensures
        tables_len(n_columns, order, m) % pow2(n) as int == 0,
    decreases m,
{
    let p = pow2(n) as int;
    lemma_pow2_pos(n);
    vstd::arithmetic::div_mod::lemma_small_mod(0, pow2(n));
    if m > 0 {
        lemma_tables_len_multiple(n_columns, order, (m - 1) as nat, n);
        let t = order[m - 1];
        let k = (t.1 - n) as nat;
        lemma_pow2_adds(k, n);
        let (c, q) = (n_columns[t.0 as int] as int, pow2(k) as int);
        assert(table_len(n_columns, t) == (c * q) * p) by (nonlinear_arith)
            requires
                table_len(n_columns, t) == c * (q * p),
        ;
        vstd::arithmetic::div_mod::lemma_mod_multiples_basic(c * q, p);
        vstd::arithmetic::div_mod::lemma_add_mod_noop(
            tables_len(n_columns, order, (m - 1) as nat),
            table_len(n_columns, t),
            p,
        );
    }
}

/// Every table starts at a multiple of its columns' length.
proof fn lemma_offset_multiple(
    log_memory: int,
    log_bytecode: int,
    n_columns: Seq<usize>,
    order: Seq<(Table, usize)>,
    i: int,
)
    requires
        ordered_by_height(order),
        0 <= i < order.len(),
        order[i].1 <= log_memory,
        0 <= log_bytecode,
    ensures
        table_offset(log_memory, log_bytecode, n_columns, order, i as nat) % pow2(
            order[i].1 as nat,
        ) as int == 0,
{
    let n = order[i].1 as nat;
    let p = pow2(n) as int;
    let (two_m, slot, tables) = (
        2 * pow2(log_memory as nat),
        bytecode_slot(log_bytecode, order),
        tables_len(n_columns, order, i as nat),
    );
    assert forall|k: int| 0 <= k < i implies (#[trigger] order[k]).1 >= n by {
        assert(order[k].1 > order[i].1 || order[k].1 == order[i].1 && order[k].0 < order[i].0);
    }
    if i > 0 {
        assert(order[0].1 >= n);
    }
    lemma_tables_len_multiple(n_columns, order, i as nat, n);
    lemma_pow2_step(log_memory as nat);
    lemma_pow2_divides(n, (log_memory + 1) as nat);
    lemma_pow2_divides(n, larger(log_bytecode, order[0].1 as int) as nat);
    lemma_pow2_pos(n);
    vstd::arithmetic::div_mod::lemma_small_mod(0, pow2(n));
    vstd::arithmetic::div_mod::lemma_add_mod_noop(two_m as int, slot, p);
    vstd::arithmetic::div_mod::lemma_add_mod_noop(two_m + slot, tables, p);
}

/// A column in the row of columns of its table.
proof fn lemma_column_within(trace: TableTrace, m: nat, c: int)
    requires
        0 <= c < m <= trace.columns@.len(),
        forall|c: int|
            0 <= c < m ==> (#[trigger] trace.columns@[c])@.len() >= pow2(trace.log_n_rows as nat),
    ensures
        ({
            let p = pow2(trace.log_n_rows as nat) as int;
            &&& 0 <= c * p
            &&& c * p + p <= columns_of(trace, m).len()
            &&& columns_of(trace, m).subrange(c * p, c * p + p) == trace.columns@[c]@.take(p)
        }),
    decreases m,
{
    let p = pow2(trace.log_n_rows as nat) as int;
    let before = columns_of(trace, (m - 1) as nat);
    let last = trace.columns@[m - 1]@.take(p);
    lemma_columns_len(trace, (m - 1) as nat);
    lemma_columns_len(trace, m);
    assert(0 <= c * p) by (nonlinear_arith)
        requires
            0 <= c,
            0 <= p,
    ;
    if c == m - 1 {
        assert((m - 1) * p + p == m * p) by (nonlinear_arith);
        assert(columns_of(trace, m).subrange(c * p, c * p + p) =~= last);
    } else {
        lemma_column_within(trace, (m - 1) as nat, c);
        assert(columns_of(trace, m).subrange(c * p, c * p + p) =~= before.subrange(
            c * p,
            c * p + p,
        ));
    }
}

/// A table in the row of tables.
proof fn lemma_table_within(
    traces: Map<Table, TableTrace>,
    n_columns: Seq<usize>,
    order: Seq<(Table, usize)>,
    m: nat,
    i: int,
)
    requires
        0 <= i < m <= order.len(),
        traces_complete(traces, n_columns),
        same_entries(order, heights_of(traces)),
    ensures
        ({
            let start = tables_len(n_columns, order, i as nat);
            let end = tables_len(n_columns, order, (i + 1) as nat);
            let t = order[i].0;
            &&& 0 <= start <= end <= tables_data(traces, n_columns, order, m).len()
            &&& tables_data(traces, n_columns, order, m).subrange(start, end) == columns_of(
                traces[t],
                n_columns[t as int] as nat,
            )
        }),
    decreases m,
{
    let start = tables_len(n_columns, order, i as nat);
    let end = tables_len(n_columns, order, (i + 1) as nat);
    lemma_tables_len_grows(n_columns, order, i as nat, (i + 1) as nat);
    lemma_tables_len_grows(n_columns, order, (i + 1) as nat, m);
    lemma_tables_data_len(traces, n_columns, order, m);
    lemma_tables_data_len(traces, n_columns, order, (m - 1) as nat);
    let whole = tables_data(traces, n_columns, order, m);
    let before = tables_data(traces, n_columns, order, (m - 1) as nat);
    let t = order[m - 1].0;
    if i == m - 1 {
        assert(whole.subrange(start, end) =~= columns_of(traces[t], n_columns[t as int] as nat));
    } else {
        lemma_table_within(traces, n_columns, order, (m - 1) as nat, i);
        assert(whole.subrange(start, end) =~= before.subrange(start, end));
    }
}

/// The block that a statement on a column selects is the column: with the table's offset a multiple
/// of the column's length, block `offset / length + column` of the stacked polynomial holds the
/// column.
pub proof fn law_column_is_its_block(
    memory: Seq<KoalaBear>,
    memory_acc: Seq<KoalaBear>,
    bytecode_acc: Seq<KoalaBear>,
    traces: Map<Table, TableTrace>,
    n_columns: Seq<usize>,
    i: int,
    c: int,
)
    requires
        is_pow2(memory.len() as int),
        memory_acc.len() == memory.len(),
        is_pow2(bytecode_acc.len() as int),
        traces_complete(traces, n_columns),
        same_entries(tables_by_height(heights_of(traces)), heights_of(traces)),
        ordered_by_height(tables_by_height(heights_of(traces))),
        0 <= i < tables_by_height(heights_of(traces)).len(),
        tables_by_height(heights_of(traces))[i].1 <= log2_exact(memory.len() as int),
        0 <= c < n_columns[tables_by_height(heights_of(traces))[i].0 as int],
    ensures
        ({
            let order = tables_by_height(heights_of(traces));
            let (lm, lb) = (
                log2_exact(memory.len() as int) as int,
                log2_exact(bytecode_acc.len() as int) as int,
            );
            let offset = table_offset(lm, lb, n_columns, order, i as nat);
            let rows = pow2(order[i].1 as nat) as int;
            let data = stacked_data(memory, memory_acc, bytecode_acc, traces, n_columns);
            let block = offset / rows + c;
            &&& 0 <= block * rows
            &&& block * rows + rows <= data.len()
            &&& data.subrange(block * rows, block * rows + rows)
                == traces[order[i].0].columns@[c]@.take(rows)
        }),
{
    let order = tables_by_height(heights_of(traces));
    let (lm, lb) = (
        log2_exact(memory.len() as int) as int,
        log2_exact(bytecode_acc.len() as int) as int,
    );
    let m0 = choose|k: nat| #[trigger] pow2(k) == memory.len();
    assert(pow2(lm as nat) == memory.len());
    let b0 = choose|k: nat| #[trigger] pow2(k) == bytecode_acc.len();
    assert(pow2(lb as nat) == bytecode_acc.len());
    let (t, rows) = (order[i].0, pow2(order[i].1 as nat) as int);
    let offset = table_offset(lm, lb, n_columns, order, i as nat);
    let data = stacked_data(memory, memory_acc, bytecode_acc, traces, n_columns);
    assert(heights_of(traces).dom().contains(t));
    assert(traces.dom().contains(t));
    assert(heights_of(traces)[t] == order[i].1);
    lemma_pow2_pos(order[i].1 as nat);
    lemma_offset_multiple(lm, lb, n_columns, order, i);
    vstd::arithmetic::div_mod::lemma_fundamental_div_mod(offset, rows);
    let q = offset / rows;
    assert((q + c) * rows == offset + c * rows) by (nonlinear_arith)
        requires
            offset == rows * q,
    ;
    assert forall|k: int| 0 <= k < n_columns[t as int] implies (
    #[trigger] traces[t].columns@[k])@.len() >= pow2(traces[t].log_n_rows as nat) by {
        assert(traces.dom().contains(t));
    }
    lemma_table_within(traces, n_columns, order, order.len(), i);
    lemma_column_within(traces[t], n_columns[t as int] as nat, c);
    let start = tables_len(n_columns, order, i as nat);
    let end = tables_len(n_columns, order, (i + 1) as nat);
    let tables = tables_data(traces, n_columns, order, order.len());
    let columns = columns_of(traces[t], n_columns[t as int] as nat);
    let head = tables_start(lm, lb, order);
    let slot = bytecode_slot(lb, order);
    lemma_pow2_pos(larger(lb, order[0].1 as int) as nat);
    assert(data.len() == head + tables.len());
    assert(columns == tables.subrange(start, end));
    assert(data.subrange(offset + c * rows, offset + c * rows + rows) =~= columns.subrange(
        c * rows,
        c * rows + rows,
    ));
}

} // verus!
