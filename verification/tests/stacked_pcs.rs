use lean_multisig::field::{KoalaBear, Ring};
use lean_multisig::poly::{evaluate_ext, expand_from_univariate};
use lean_multisig::stacked_pcs::layout::{
    compute_stacked_n_vars, min_stacked_n_vars, stacked_pcs_parse_commitment,
    total_whir_statements, ProofError, TableCounts,
};
use lean_multisig::stacked_pcs::stacking::{stack_polynomials, stack_polynomials_and_commit};
use lean_multisig::stacked_pcs::statements::{
    stacked_pcs_global_statements, ColumnClaims, PcConditions,
};
use lean_multisig::tables::table_trait::{ComputedAddress, LookupIntoMemory, TableTrace};
use lean_multisig::whir::commit::MerkleData;
use lean_multisig::whir::config::{FoldingFactor, WhirConfig};
use lean_multisig::whir::matrix::DenseMatrix;
use lean_multisig::whir::merkle::DftOutput;
use lean_multisig::whir::statement::SparseStatement;
use std::collections::BTreeMap;

type F = KoalaBear;

fn f(n: u32) -> F {
    F::from_u32(n)
}

fn trace(n_columns: u32, log_n_rows: usize, seed: u32) -> TableTrace {
    let columns = (0..n_columns)
        .map(|c| (0..1u32 << log_n_rows).map(|r| f(seed + 100 * c + r)).collect())
        .collect();
    TableTrace { columns, non_padded_n_rows: 1 << log_n_rows, log_n_rows }
}

// Tables: 0 has one column, 1 is the execution table with two, 2 has three.
fn traces() -> BTreeMap<usize, TableTrace> {
    let mut t = BTreeMap::new();
    t.insert(0, trace(1, 1, 1000));
    t.insert(1, trace(2, 2, 2000));
    t.insert(2, trace(3, 1, 3000));
    t
}

fn heights() -> BTreeMap<usize, usize> {
    traces().iter().map(|(t, tr)| (*t, tr.log_n_rows)).collect()
}

#[test]
fn variables_cover_all_parts() {
    // 2 * 8 + 4 + (2 * 4 + 1 * 2 + 3 * 2) = 36
    assert_eq!(compute_stacked_n_vars(3, 1, &heights(), &[1, 2, 3]), 6);
    // 2 * 4 + 2 + 6 * 2 = 22
    assert_eq!(min_stacked_n_vars(1, &[1, 2, 3], 2, 1), 5);
    assert!(min_stacked_n_vars(1, &[1, 2, 3], 2, 1) <= 6);
}

#[test]
fn commitments_are_refused() {
    let h = heights();
    let cols = [1usize, 2, 3];
    assert_eq!(stacked_pcs_parse_commitment(3, 1, &h, &cols, 1, 2, 1), Ok(6));
    // Memory is smaller than the execution table.
    assert_eq!(
        stacked_pcs_parse_commitment(1, 1, &h, &cols, 1, 2, 1),
        Err(ProofError::InvalidProof)
    );
    // Another table is higher than the execution table.
    assert_eq!(
        stacked_pcs_parse_commitment(3, 1, &h, &cols, 0, 2, 1),
        Err(ProofError::InvalidProof)
    );
    // Too many variables for the field.
    assert_eq!(
        stacked_pcs_parse_commitment(3, 1, &h, &cols, 1, 2, 21),
        Err(ProofError::InvalidProof)
    );
    assert_eq!(stacked_pcs_parse_commitment(3, 1, &h, &cols, 1, 2, 20), Ok(6));
    // Heights without a stacked polynomial are refused before any length is computed.
    let mut high = heights();
    high.insert(1, 70);
    assert_eq!(
        stacked_pcs_parse_commitment(10, 1, &high, &cols, 1, 2, 1),
        Err(ProofError::InvalidProof)
    );
}

#[test]
fn statements_are_counted_once_per_column() {
    let lookup = |index, values: Vec<usize>, inactive: Vec<usize>, computed| LookupIntoMemory {
        index,
        values,
        address_offset: 0,
        conditional_inactive: inactive,
        computed_address: computed,
    };
    let tables = vec![
        TableCounts {
            n_columns: 10,
            n_down_columns: 2,
            lookups: vec![
                lookup(1, vec![2, 3], vec![], None),
                lookup(1, vec![3, 4], vec![7], None),
                lookup(
                    9,
                    vec![2],
                    vec![],
                    Some(ComputedAddress { base: 0, hi_col: 5, hi_coeff: 256, lo_col: 6 }),
                ),
            ],
        },
        TableCounts { n_columns: 3, n_down_columns: 0, lookups: vec![] },
    ];
    // Columns 1 to 7 are looked up.
    assert_eq!(total_whir_statements(&tables, 12), 6 + (10 + 2 + 7) + 3 + 1 + 12);
}

fn stacked() -> (Vec<F>, lean_multisig::stacked_pcs::stacking::StackedPolynomial) {
    let memory: Vec<F> = (0..8).map(|i| f(i + 1)).collect();
    let acc: Vec<F> = (0..8).map(|i| f(i + 50)).collect();
    let bytecode = vec![f(7), f(9)];
    let s = stack_polynomials(&memory, &acc, &bytecode, &traces(), &[1, 2, 3], 1, 2, 1, 3);
    let mut expected = memory;
    expected.extend(acc);
    expected.extend([f(7), f(9), f(0), f(0)]);
    let t = traces();
    for (table, cols) in [(1usize, 2usize), (0, 1), (2, 3)] {
        for c in 0..cols {
            expected.extend(&t[&table].columns[c]);
        }
    }
    assert_eq!(expected.len(), 36);
    expected.resize(64, f(0));
    (expected, s)
}

#[test]
fn parts_are_stacked_in_order() {
    let (expected, s) = stacked();
    assert_eq!(s.stacked_n_vars, 6);
    assert_eq!(s.actual_data_len, 36);
    assert_eq!(s.global_polynomial, expected);
    // Blocks of sixteen: three hold data, which is also the packing width.
    assert_eq!(s.dft_matrix.width, 3);
    assert_eq!(s.dft_matrix.values.len(), 16 * 2 * 3);
    for row in 0..32 {
        for col in 0..3 {
            assert_eq!(s.dft_matrix.values[row * 3 + col], expected[col * 16 + row / 2]);
        }
    }
}

#[test]
fn the_witness_answers_out_of_domain() {
    let (expected, s) = stacked();
    let config = WhirConfig {
        num_variables: 6,
        folding_factor: FoldingFactor { first: 2, rest: 1 },
        round_parameters: vec![],
        starting_log_inv_rate: 1,
        starting_folding_pow_bits: 0,
        commitment_ood_samples: 1,
        final_sumcheck_rounds: 4,
        final_queries: 0,
        final_query_pow_bits: 0,
    };
    let cols = s.dft_matrix.width;
    let transformed = |k: u32| DftOutput::Base(DenseMatrix::new(vec![f(k); 32 * cols], cols));
    let (root, w) = stack_polynomials_and_commit::<F>(&config, s, transformed(1), 1, vec![f(5)]);
    assert_eq!(MerkleData::build(transformed(1), 4, cols).1, root);
    assert_ne!(MerkleData::build(transformed(2), 4, cols).1, root);
    assert_eq!(w.stacked_n_vars, 6);
    let point = expand_from_univariate(f(5), 6);
    assert_eq!(w.inner_witness.ood_answers, vec![evaluate_ext(&expected, &point)]);
}

#[test]
fn statements_select_the_columns() {
    let (poly, _) = stacked();
    let t = traces();
    let claim = |cols: Vec<usize>, next: Vec<usize>, table: usize, point: Vec<F>| ColumnClaims {
        eq_values: cols
            .into_iter()
            .map(|c| (c, evaluate_ext(&t[&table].columns[c], &point)))
            .collect(),
        next_values: next.into_iter().map(|c| (c, f(c as u32))).collect(),
        point,
    };
    let mut claims = BTreeMap::new();
    claims.insert(0, vec![]);
    claims.insert(1, vec![claim(vec![1, 0], vec![1], 1, vec![f(3), f(4)])]);
    claims.insert(2, vec![claim(vec![2], vec![], 2, vec![f(6)])]);
    let previous = vec![SparseStatement::unique_value(6, 0, f(1))];
    let pc = PcConditions { execution: 1, col_pc: 1, starting_pc: 11, ending_pc: 22 };
    let all =
        stacked_pcs_global_statements(6, 3, 1, previous, &heights(), &claims, &[1, 2, 3], pc);
    assert_eq!(all.len(), 6);
    // The execution table starts at 20; its second column at 24.
    assert_eq!(all[1].values[0].selector, 24);
    assert_eq!(all[1].values[0].value, f(11));
    assert_eq!(all[2].values[0].selector, 27);
    assert_eq!(all[2].values[0].value, f(22));
    assert!(all[3].is_next);
    assert_eq!(all[3].values[0].selector, 6);
    assert!(!all[4].is_next);
    assert_eq!(all[4].values.iter().map(|v| v.selector).collect::<Vec<_>>(), vec![5, 6]);
    // Table 2 starts at 30: its third column is block 17 of length two.
    assert_eq!(all[5].values[0].selector, 17);
    for s in &all[4..] {
        for v in &s.values {
            let len = 1 << s.point.len();
            let block = &poly[v.selector * len..(v.selector + 1) * len];
            assert_eq!(v.value, evaluate_ext(block, &s.point));
        }
    }
}
