use lean_multisig::alpha_powers::{AlphaPowers, AlphaPowersMut, AlphaPowersPacked};
use lean_multisig::blake3_hash::blake3_compress;
use lean_multisig::field::{KoalaBear, Ring};
use lean_multisig::memory::{get_slice, set_slice, MemoryAccess, RunnerError, VecMemory};
use lean_multisig::tables::blake3_table::{
    Blake3CompressPrecompile, BLAKE3_COL_FLAG_HALF_OUTPUT, BLAKE3_COL_INDEX_RES,
    BLAKE3_COL_OUTPUT_START, BLAKE3_N_TOTAL_COLS,
};
use lean_multisig::tables::constrained_cols::N_TRACE_COLS;
use lean_multisig::tables::constrained_table::{
    set_xor_table_base, ConstrainedBlake3Precompile, PrecompileCompTimeArgs, XorTableBase,
};
use lean_multisig::tables::constrained_trace::generate_compression_trace;
use lean_multisig::tables::table_trait::{
    memory_lookups_consecutive, sort_tables_by_height, BusData, BusDirection, BusMultiplicity,
    ExtraDataForBuses, TableT, TableTrace,
};
use std::collections::BTreeMap;

type F = KoalaBear;

fn f(n: u32) -> F {
    F::from_u32(n)
}

fn memory() -> VecMemory {
    VecMemory { cells: (0..64).map(|i| f(1000 + i)).collect() }
}

fn cells(m: &VecMemory, at: usize) -> [F; 8] {
    std::array::from_fn(|i| m.cells[at + i])
}

#[test]
fn memory_fails_on_undefined_cells() {
    let mut m = memory();
    assert!(matches!(m.get(64), Err(RunnerError::UndefinedMemory(64))));
    assert!(matches!(get_slice(&m, 62, 4), Err(RunnerError::UndefinedMemory(64))));
    assert_eq!(get_slice(&m, 10, 2).unwrap(), vec![f(1010), f(1011)]);
    assert!(set_slice(&mut m, 66, &[f(1), f(2)]).is_ok());
    assert_eq!(m.cells[65], f(0));
    assert_eq!(m.cells[67], f(2));
}

#[test]
fn a_trace_names_the_first_undefined_cell() {
    let m = memory();
    let mut columns: Vec<Vec<F>> = vec![Vec::new(); N_TRACE_COLS];
    let left = generate_compression_trace(66, 70, 40, &m, &mut columns, 0);
    assert!(matches!(left, Err(RunnerError::UndefinedMemory(66))));
    let right = generate_compression_trace(8, 70, 40, &m, &mut columns, 0);
    assert!(matches!(right, Err(RunnerError::UndefinedMemory(70))));
    let inside = generate_compression_trace(8, 60, 40, &m, &mut columns, 0);
    assert!(matches!(inside, Err(RunnerError::UndefinedMemory(64))));
}

#[test]
fn the_constrained_table_traces_memory_after_the_write() {
    let table = ConstrainedBlake3Precompile::<true> { table: 4, xor_table_base: 0 };
    let args = PrecompileCompTimeArgs::Blake3Compress { half_output: true, hardcoded_offset_left: Some(62) };
    // The fixed half at 62 is not there.
    let mut m = memory();
    let mut rows = TableTrace::new(&table);
    let r = table.execute(f(0), f(8), f(40), args, &mut m, &mut rows);
    assert!(matches!(r, Err(RunnerError::UndefinedMemory(64))));
    assert_eq!(m.cells.len(), 64);
    // It is there at 60, but the trace reads on behind it, up to where the digest is written.
    let args = PrecompileCompTimeArgs::Blake3Compress { half_output: true, hardcoded_offset_left: Some(60) };
    let r = table.execute(f(0), f(8), f(40), args, &mut m, &mut rows);
    assert!(matches!(r, Err(RunnerError::UndefinedMemory(64))));
    assert_ne!(m.cells[40], f(1040));
    assert!(rows.columns.iter().all(|c| c.is_empty()));
    assert!(table.execute(f(0), f(8), f(64), args, &mut m, &mut rows).is_ok());
    assert_eq!((m.cells.len(), rows.columns[0].len()), (68, 14));
}

#[test]
fn a_call_hashes_and_fills_its_row() {
    let table = Blake3CompressPrecompile::<true> { table: 4 };
    assert_eq!(table.table(), 4);
    let mut m = memory();
    let mut trace = TableTrace::new(&table);
    assert_eq!(trace.columns.len(), BLAKE3_N_TOTAL_COLS);
    let expected = blake3_compress(&cells(&m, 8), &cells(&m, 24));
    let args = PrecompileCompTimeArgs::Blake3Compress { half_output: false, hardcoded_offset_left: None };
    assert!(table.execute(f(8), f(24), f(40), args, &mut m, &mut trace).is_ok());
    assert_eq!(cells(&m, 40), expected);
    for i in 0..8 {
        assert_eq!(trace.columns[BLAKE3_COL_OUTPUT_START + i], vec![expected[i]]);
    }
    let row: Vec<F> = trace.columns.iter().map(|c| c[0]).collect();
    let evaluation = table.eval(&row);
    assert_eq!(evaluation.constraints.len() + 1, table.n_constraints());
    assert!(evaluation.constraints.iter().all(|c| *c == f(0)));
    let padding = table.padding_row(3, 0, 9);
    assert!(table.eval(&padding).constraints.iter().all(|c| *c == f(0)));
    assert_eq!(table.name(), "blake3_compress");
    // The bus, and one push for each of the 24 cells.
    let buses = table.bus_interactions();
    assert_eq!(buses.len(), 25);
    assert!(matches!(buses[0].direction, BusDirection::Pull));
    assert!(buses[1..].iter().all(|i| i.is_memory_lookup()));
}

#[test]
fn half_outputs_and_fixed_operands() {
    let table = Blake3CompressPrecompile::<false> { table: 0 };
    let mut m = memory();
    let mut trace = TableTrace::new(&table);
    // The left operand's first half stands at the fixed address, its second at the argument.
    let mut left = cells(&m, 30);
    for i in 0..4 {
        left[4 + i] = m.cells[5 + i];
    }
    let expected = blake3_compress(&left, &cells(&m, 16));
    let args = PrecompileCompTimeArgs::Blake3Compress { half_output: true, hardcoded_offset_left: Some(30) };
    assert!(table.execute(f(5), f(16), f(50), args, &mut m, &mut trace).is_ok());
    assert_eq!(m.cells[50..54], expected[..4]);
    assert_eq!(m.cells[54], f(1054));
    let row: Vec<F> = trace.columns.iter().map(|c| c[0]).collect();
    assert!(table.eval(&row).constraints.iter().all(|c| *c == f(0)));
    // An operand that is not there.
    let err = table.execute(f(60), f(62), f(0), args, &mut m, &mut trace);
    assert!(matches!(err, Err(RunnerError::UndefinedMemory(64))));
}

#[test]
fn constrained_rows_satisfy_the_output_and_control_constraints() {
    let mut base = XorTableBase { addr: 0 };
    set_xor_table_base(&mut base, 4096);
    let table = ConstrainedBlake3Precompile::<false>::new(4, &base);
    assert_eq!(table.table(), 4);
    let mut m = memory();
    let mut trace = TableTrace {
        columns: vec![Vec::new(); N_TRACE_COLS],
        non_padded_n_rows: 0,
        log_n_rows: 0,
    };
    let expected = blake3_compress(&cells(&m, 0), &cells(&m, 8));
    let args = PrecompileCompTimeArgs::Blake3Compress { half_output: false, hardcoded_offset_left: None };
    assert!(table.execute(f(0), f(8), f(48), args, &mut m, &mut trace).is_ok());
    assert_eq!(cells(&m, 48), expected);
    assert_eq!(trace.columns[0].len(), 14);
}

#[test]
fn a_trace_without_operands_changes_nothing() {
    let m = memory();
    let mut columns: Vec<Vec<F>> = vec![Vec::new(); N_TRACE_COLS];
    let r = generate_compression_trace(60, 0, 0, &m, &mut columns, 0);
    assert!(matches!(r, Err(RunnerError::UndefinedMemory(64))));
    assert!(columns.iter().all(|c| c.is_empty()));
}

#[test]
fn tables_are_sorted_highest_first() {
    let mut heights = BTreeMap::new();
    heights.insert(0usize, 3usize);
    heights.insert(1, 5);
    heights.insert(2, 3);
    heights.insert(3, 7);
    assert_eq!(sort_tables_by_height(&heights), vec![(3, 7), (1, 5), (0, 3), (2, 3)]);
}

#[test]
fn lookups_and_buses() {
    let l = memory_lookups_consecutive(2, 10, 3);
    assert_eq!(l.len(), 3);
    assert!(l.iter().all(|i| i.is_memory_lookup()));
    assert!(matches!(l[0].multiplicity, BusMultiplicity::One));
    assert_eq!(BusDirection::Pull.to_field_flag(), f(1).neg());
    assert_eq!(BusDirection::Push.to_field_flag(), f(1));
    assert_eq!(BusData::Column(7).column(), Some(7));
    assert_eq!(BusData::ColumnPlusConstant(7, 2).column(), Some(7));
    assert_eq!(BusData::Constant(7).column(), None);
}

#[test]
fn alpha_powers_are_views_of_the_vector() {
    let mut v = vec![f(1), f(2)];
    assert_eq!(v.alpha_powers().len(), 2);
    v.alpha_powers_mut().push(f(4));
    assert_eq!(v, vec![f(1), f(2), f(4)]);
    let packed: &[[F; 4]] = AlphaPowersPacked::<F, 4>::alpha_powers_packed(&v);
    assert!(packed.is_empty());
    let extra = ExtraDataForBuses::<F, 2>::new(vec![f(3)], f(9), v);
    assert_eq!(extra.alpha_powers().len(), 3);
    assert_eq!(extra.bus_data().1, &f(9));
    assert_eq!(extra.bus_data_packed().0, &vec![[f(3), f(3)]]);
}

#[test]
fn lookups_read_their_columns() {
    let table = Blake3CompressPrecompile::<true> { table: 0 };
    let mut trace = TableTrace::new(&table);
    for (i, c) in trace.columns.iter_mut().enumerate() {
        c.push(f(i as u32));
    }
    let indexes = table.lookup_index_columns(&trace);
    assert_eq!(indexes.len(), 5);
    assert_eq!(indexes[3], &[f(BLAKE3_COL_INDEX_RES as u32)]);
    assert_eq!(indexes[4], &[f(BLAKE3_COL_INDEX_RES as u32)]);
    let values = table.lookup_value_columns(&trace);
    assert_eq!(values[2].len(), 8);
    assert_eq!(values[4][1], &[f(BLAKE3_COL_OUTPUT_START as u32 + 5)]);
    assert_eq!(table.lookup_address_offsets(), vec![0, 0, 0, 0, 4]);
    let inactive = table.lookup_conditional_inactive_columns(&trace);
    assert!(inactive[3].is_empty());
    assert_eq!(inactive[4], vec![&[f(BLAKE3_COL_FLAG_HALF_OUTPUT as u32)][..]]);
}

#[test]
fn the_shifted_columns_are_counted() {
    let table = ConstrainedBlake3Precompile::<true> { table: 0, xor_table_base: 0 };
    assert_eq!(table.n_shift_columns(), 35);
    assert_eq!(table.down_column_indexes().len(), 35);
}
