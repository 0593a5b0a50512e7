use lean_multisig::blake3_hash::blake3_compress;
use lean_multisig::field::{KoalaBear, Ring};
use lean_multisig::memory::VecMemory;
use lean_multisig::tables::constrained_air::{
    constraints_per_g, g_function_constraints, total_constraints_per_row,
};
use lean_multisig::tables::constrained_cols::{
    col_qr_indices, diag_qr_indices, g_col, state_col, COLS_PER_G, COL_FLAG_ACTIVE,
    COL_IS_COLUMN_QR, COL_IS_FIRST_ROW, COL_IS_LAST_ROW, COL_LEFT_ADDR, COL_RESULT_ADDR,
    COL_RIGHT_ADDR, COL_ROT_START, G_ADD1_BYTES, G_ADD2_BYTES, G_ADD3_BYTES, G_ADD4_BYTES,
    G_B_BYTES, G_D_BYTES, G_MX_BYTES, G_MX_VALUE, G_MY_ADDR, G_MY_BYTES, G_MY_VALUE, G_XOR2_ADDRS,
    G_XOR2_BYTES, G_XOR4_ADDRS, G_XOR4_B0_SPLIT, G_XOR4_B2_SPLIT, G_XOR4_B3_SPLIT, G_XOR4_BYTES,
    G_XOR4_SPLIT, G_XOR6_ADDRS, G_XOR6_BYTES, G_XOR8_ADDRS, G_XOR8_BYTES, G_XOR8_SPLIT,
    N_COMMITTED_COLS, N_G_COLS, N_ROT_COLS, N_TOTAL_COLS, N_TRACE_COLS, ROWS_PER_COMPRESSION,
};
use lean_multisig::tables::constrained_table::{
    set_xor_table_base, ConstrainedBlake3Precompile, XorTableBase,
};
use lean_multisig::tables::constrained_trace::generate_compression_trace;
use lean_multisig::tables::table_trait::{
    BusData, BusDirection, BusInteraction, BusMultiplicity, TableT,
};

#[test]
fn test_column_layout() {
    println!("Columns per G-function: {COLS_PER_G}");
    println!("Total G columns (4 G): {N_G_COLS}");
    println!("Total committed columns: {N_COMMITTED_COLS}");
    println!("Total columns (with virtual): {N_TOTAL_COLS}");
    println!();

    let cells_per_compression = N_COMMITTED_COLS * ROWS_PER_COMPRESSION;
    println!("Cells per compression: {cells_per_compression}");

    let n_compressions = 1060;
    let rows = n_compressions * ROWS_PER_COMPRESSION;
    let padded_rows = rows.next_power_of_two();
    let total_cells = N_COMMITTED_COLS * padded_rows;
    println!("For {n_compressions} compressions: {rows} rows (padded {padded_rows})");
    println!("Total cells: {total_cells}");
    println!("Headroom usage: {:.1}%", total_cells as f64 / 9_265_152.0 * 100.0);

    assert!(total_cells < 9_265_152, "Must fit in n_vars=26 headroom");
}

#[test]
fn test_qr_indices() {
    // Column QR: straight
    assert_eq!(col_qr_indices(0), (0, 4, 8, 12));
    assert_eq!(col_qr_indices(1), (1, 5, 9, 13));
    assert_eq!(col_qr_indices(2), (2, 6, 10, 14));
    assert_eq!(col_qr_indices(3), (3, 7, 11, 15));

    // Diagonal QR: rotated
    assert_eq!(diag_qr_indices(0), (0, 5, 10, 15));
    assert_eq!(diag_qr_indices(1), (1, 6, 11, 12));
    assert_eq!(diag_qr_indices(2), (2, 7, 8, 13));
    assert_eq!(diag_qr_indices(3), (3, 4, 9, 14));
}

#[test]
fn test_constraint_count() {
    println!("Constraints per G: {}", constraints_per_g());
    println!("Constraints per row: {}", total_constraints_per_row());
    assert!(constraints_per_g() <= 35, "G constraints should be manageable");
    assert!(total_constraints_per_row() <= 150, "Row constraints should be manageable");
}

#[test]
fn test_actual_constraint_count() {
    let table = ConstrainedBlake3Precompile::<false> { table: 3, xor_table_base: 0 };
    let up = vec![KoalaBear::zero(); table.n_columns()];
    let rot = vec![KoalaBear::zero(); N_ROT_COLS];
    let down = vec![KoalaBear::zero(); table.down_column_indexes().len()];
    let evaluation = table.eval(&up, &rot, &down);
    let actual = evaluation.constraints.len();
    let expected = table.n_constraints();
    println!("Actual constraints from symbolic eval: {actual}");
    println!("n_constraints() returns: {expected}");
    assert_eq!(actual, expected, "MISMATCH between eval and n_constraints!");
}

#[test]
fn test_trace_matches_native() {
    let left = [
        KoalaBear::from_u32(1),
        KoalaBear::from_u32(2),
        KoalaBear::from_u32(3),
        KoalaBear::from_u32(4),
        KoalaBear::from_u32(5),
        KoalaBear::from_u32(6),
        KoalaBear::from_u32(7),
        KoalaBear::from_u32(8),
    ];
    let right = [
        KoalaBear::from_u32(9),
        KoalaBear::from_u32(10),
        KoalaBear::from_u32(11),
        KoalaBear::from_u32(12),
        KoalaBear::from_u32(13),
        KoalaBear::from_u32(14),
        KoalaBear::from_u32(15),
        KoalaBear::from_u32(16),
    ];

    let expected = blake3_compress(&left, &right);

    let mut mem = VecMemory { cells: vec![KoalaBear::zero(); 100] };
    for i in 0..8 {
        mem.cells[i] = left[i];
        mem.cells[8 + i] = right[i];
    }
    let mut columns: Vec<Vec<KoalaBear>> = vec![Vec::new(); N_TOTAL_COLS];
    let output = generate_compression_trace(0, 8, 50, &mem, &mut columns, 0).unwrap();

    // Verify output matches
    for i in 0..8 {
        assert_eq!(
            output[i], expected[i],
            "Output mismatch at index {i}: trace={:?} native={:?}",
            output[i], expected[i]
        );
    }

    // Verify 14 rows were generated
    assert_eq!(columns[COL_FLAG_ACTIVE].len(), ROWS_PER_COMPRESSION);

    // Verify first/last row flags
    assert_eq!(columns[COL_IS_FIRST_ROW][0], KoalaBear::one());
    for r in 1..ROWS_PER_COMPRESSION {
        assert_eq!(columns[COL_IS_FIRST_ROW][r], KoalaBear::zero());
    }
    assert_eq!(columns[COL_IS_LAST_ROW][ROWS_PER_COMPRESSION - 1], KoalaBear::one());
    for r in 0..ROWS_PER_COMPRESSION - 1 {
        assert_eq!(columns[COL_IS_LAST_ROW][r], KoalaBear::zero());
    }

    // Verify column/diagonal QR alternation
    for r in 0..ROWS_PER_COMPRESSION {
        let expected_qr = if r % 2 == 0 { KoalaBear::one() } else { KoalaBear::zero() };
        assert_eq!(columns[COL_IS_COLUMN_QR][r], expected_qr, "QR flag mismatch at row {r}");
    }
}

fn traced_columns(base: usize) -> Vec<Vec<KoalaBear>> {
    let mem = VecMemory { cells: (0..64).map(|i| KoalaBear::from_u32(7919 * i + 3)).collect() };
    let mut columns: Vec<Vec<KoalaBear>> = vec![Vec::new(); N_TRACE_COLS];
    generate_compression_trace(0, 8, 50, &mem, &mut columns, base).unwrap();
    columns
}

/// A cell of the trace, or zero in a column that the generator leaves empty.
fn cell(columns: &[Vec<KoalaBear>], c: usize, row: usize) -> KoalaBear {
    columns[c].get(row).copied().unwrap_or(KoalaBear::zero())
}

/// The constraints of a G-function on the lookup addresses of its first three XORs.
fn on_empty_columns(i: usize) -> bool {
    (6..10).contains(&i) || (14..18).contains(&i) || (19..23).contains(&i)
}

/// Row `row` of the trace: its committed and its rotation columns, and the part of the next row that
/// flows from it.
fn row_of(
    table: &ConstrainedBlake3Precompile<false>,
    columns: &[Vec<KoalaBear>],
    row: usize,
) -> (Vec<KoalaBear>, Vec<KoalaBear>, Vec<KoalaBear>) {
    (
        (0..N_COMMITTED_COLS).map(|c| cell(columns, c, row)).collect(),
        (0..N_ROT_COLS).map(|c| cell(columns, COL_ROT_START + c, row)).collect(),
        table.down_column_indexes().iter().map(|&c| cell(columns, c, row + 1)).collect(),
    )
}

/// Fills in the lookup addresses of the first three XORs from the bytes they are made of.
fn fill_addresses(up: &mut [KoalaBear], base: usize) {
    let addr = |first: KoalaBear, second: KoalaBear| {
        KoalaBear::from_usize(base).add(first.mul(KoalaBear::from_u32(256))).add(second)
    };
    for g in 0..4 {
        for i in 0..4 {
            let at = |o: usize| up[g_col(g, o)];
            let xor2 = addr(at(G_D_BYTES + i), at(G_ADD1_BYTES + i));
            let xor4 = addr(at(G_B_BYTES + i), at(G_ADD2_BYTES + i));
            let xor6 = addr(at(G_XOR2_BYTES + (i + 2) % 4), at(G_ADD3_BYTES + i));
            up[g_col(g, G_XOR2_ADDRS + i)] = xor2;
            up[g_col(g, G_XOR4_ADDRS + i)] = xor4;
            up[g_col(g, G_XOR6_ADDRS + i)] = xor6;
        }
    }
}

#[test]
fn every_row_satisfies_the_constraints() {
    let base = 4096;
    let table = ConstrainedBlake3Precompile::<false> { table: 3, xor_table_base: base };
    let columns = traced_columns(base);
    for row in 0..ROWS_PER_COMPRESSION {
        let (mut up, rot, down) = row_of(&table, &columns, row);
        let evaluation = table.eval(&up, &rot, &down);
        assert_eq!(evaluation.constraints.len(), 203);
        for (j, c) in evaluation.constraints.iter().enumerate() {
            let of_g = (4..168).contains(&j) && (j - 4) % 41 < 31;
            if !of_g || !on_empty_columns((j - 4) % 41) {
                assert_eq!(*c, KoalaBear::zero(), "row {row}, constraint {j}");
            }
        }
        fill_addresses(&mut up, base);
        let filled = table.eval(&up, &rot, &down);
        assert!(filled.constraints.iter().all(|c| *c == KoalaBear::zero()), "row {row}");
    }
}

#[test]
fn the_flag_selects_the_words_of_the_quarter_round() {
    let table = ConstrainedBlake3Precompile::<false> { table: 3, xor_table_base: 4096 };
    let columns = traced_columns(4096);
    for row in [2, 3] {
        let (mut up, rot, _) = row_of(&table, &columns, row);
        let flag = up[COL_IS_COLUMN_QR];
        up[COL_IS_COLUMN_QR] = KoalaBear::one().sub(flag);
        let wrong = table.eval(&up, &rot, &[]).constraints;
        for g in 0..4 {
            // The bytes of d and of b.
            for i in [4, 5, 12, 13] {
                assert_ne!(wrong[4 + 41 * g + i], KoalaBear::zero(), "row {row}, {g}, {i}");
            }
            // The first sum takes b from its bytes.
            assert_eq!(wrong[4 + 41 * g + 2], KoalaBear::zero());
            assert_eq!(wrong[4 + 41 * g + 3], KoalaBear::zero());
        }
    }
}

#[test]
fn constraints_of_a_g_function_hold_on_any_words() {
    let base = 4096u32;
    let words = [0xDEADBEEFu32, 0xFFFFFFFF, 0x80000001, 0x00FF00FF];
    let (mx_value, my_value) = (5u32, 2_130_706_432u32);
    let word_of = |v: u32| ((u64::from(v) << 32) % 2_130_706_433) as u32;
    let (mx, my) = (word_of(mx_value), word_of(my_value));
    let [a, b, c, d] = words;
    let a1 = a.wrapping_add(b).wrapping_add(mx);
    let d1 = (d ^ a1).rotate_right(16);
    let c1 = c.wrapping_add(d1);
    let b1 = (b ^ c1).rotate_right(12);
    let a2 = a1.wrapping_add(b1).wrapping_add(my);
    let d2 = (d1 ^ a2).rotate_right(8);
    let c2 = c1.wrapping_add(d2);

    let g = 2;
    let indices = [7usize, 1, 15, 9];
    let mut up = vec![KoalaBear::zero(); N_COMMITTED_COLS];
    let mut rot = vec![KoalaBear::zero(); N_ROT_COLS];
    for (w, i) in words.iter().zip(indices) {
        up[state_col(i, 0)] = KoalaBear::from_u32(w & 0xFFFF);
        up[state_col(i, 1)] = KoalaBear::from_u32(w >> 16);
    }
    let mut put = |o: usize, v: u32| up[g_col(g, o)] = KoalaBear::from_u32(v);
    for (o, w) in [
        (G_ADD1_BYTES, a1),
        (G_D_BYTES, d),
        (G_XOR2_BYTES, d ^ a1),
        (G_ADD2_BYTES, c1),
        (G_B_BYTES, b),
        (G_XOR4_BYTES, b ^ c1),
        (G_ADD3_BYTES, a2),
        (G_XOR6_BYTES, d1 ^ a2),
        (G_ADD4_BYTES, c2),
        (G_XOR8_BYTES, b1 ^ c2),
        (G_MX_BYTES, mx),
        (G_MY_BYTES, my),
    ] {
        for (i, byte) in w.to_le_bytes().into_iter().enumerate() {
            put(o + i, byte.into());
        }
    }
    for (o, x, y) in [
        (G_XOR2_ADDRS, d, a1),
        (G_XOR4_ADDRS, b, c1),
        (G_XOR6_ADDRS, d1, a2),
        (G_XOR8_ADDRS, b1, c2),
    ] {
        for i in 0..4 {
            put(o + i, base + 256 * u32::from(x.to_le_bytes()[i]) + u32::from(y.to_le_bytes()[i]));
        }
    }
    let xor4 = (b ^ c1).to_le_bytes().map(u32::from);
    let low = u32::from((b1 ^ c2).to_le_bytes()[0]);
    put(G_XOR4_SPLIT, xor4[1] % 16);
    put(G_XOR4_SPLIT + 1, xor4[1] / 16);
    put(G_XOR8_SPLIT, low % 128);
    put(G_XOR8_SPLIT + 1, low / 128);
    put(G_MX_VALUE, mx_value);
    put(G_MY_VALUE, my_value);
    for (o, i) in [(G_XOR4_B0_SPLIT, 0), (G_XOR4_B2_SPLIT, 2), (G_XOR4_B3_SPLIT, 3)] {
        rot[7 * g + o] = KoalaBear::from_u32(xor4[i] % 16);
        rot[7 * g + o + 1] = KoalaBear::from_u32(xor4[i] / 16);
    }
    let constraints = g_function_constraints(
        &up,
        &rot,
        g,
        indices[0],
        indices[1],
        indices[2],
        indices[3],
        KoalaBear::from_u32(base),
    );
    assert_eq!(constraints.len(), constraints_per_g());
    assert!(constraints.iter().all(|c| *c == KoalaBear::zero()));
}

#[test]
fn the_last_addresses_depend_on_the_rotation_columns() {
    let base = 4096;
    let table = ConstrainedBlake3Precompile::<false> { table: 3, xor_table_base: base };
    let columns = traced_columns(base);
    let up: Vec<KoalaBear> = (0..N_COMMITTED_COLS).map(|c| cell(&columns, c, 0)).collect();
    let rot: Vec<KoalaBear> = (0..N_ROT_COLS).map(|c| columns[COL_ROT_START + c][0]).collect();
    let held = table.eval(&up, &rot, &[]).constraints;
    assert_eq!(held.len(), 168);
    for i in 0..4 {
        assert_eq!(held[4 + 23 + i], KoalaBear::zero());
        let mut wrong = up.clone();
        wrong[g_col(0, G_XOR8_ADDRS + i)] = up[g_col(0, G_XOR8_ADDRS + i)].add(KoalaBear::one());
        assert_ne!(table.eval(&wrong, &rot, &[]).constraints[4 + 23 + i], KoalaBear::zero());
    }
}

#[test]
fn padding_rows_satisfy_every_constraint() {
    for base in [0usize, 4096] {
        let table = ConstrainedBlake3Precompile::<false> { table: 3, xor_table_base: base };
        let row = table.padding_row(16, 5, 6);
        assert_eq!(row.len(), N_TOTAL_COLS);
        let rot = vec![KoalaBear::zero(); N_ROT_COLS];
        let down: Vec<KoalaBear> = (0..35).map(|i| KoalaBear::from_u32(100 + i)).collect();
        let evaluation = table.eval(&row[..table.n_columns()], &rot, &down);
        assert_eq!(evaluation.constraints.len(), 203);
        assert!(evaluation.constraints.iter().all(|c| *c == KoalaBear::zero()));
    }
}

fn interactions_of<T: TableT>(table: &T) -> Vec<BusInteraction> {
    table.bus_interactions()
}

#[test]
fn the_constrained_table_has_interactions_of_its_own() {
    let mut base = XorTableBase { addr: 0 };
    let small = ConstrainedBlake3Precompile::<true>::new(3, &base);
    assert_eq!(interactions_of(&small).len(), 9);
    assert_eq!(small.lookups().len(), 8);
    set_xor_table_base(&mut base, 4096);
    let table = ConstrainedBlake3Precompile::<true>::new(3, &base);
    assert_eq!((table.table(), table.xor_table_base), (3, 4096));
    assert_eq!(table.name(), "blake3_compress_constrained");
    assert_eq!(table.n_columns_total(), N_TOTAL_COLS);
    assert!(!table.is_execution_table());
    let buses = interactions_of(&table);
    assert_eq!(buses.len(), 73);
    assert!(matches!(buses[0].direction, BusDirection::Pull));
    assert!(matches!(buses[0].multiplicity, BusMultiplicity::Column(COL_IS_FIRST_ROW)));
    assert!(matches!(
        buses[0].data[..],
        [BusData::Column(COL_LEFT_ADDR), BusData::Column(COL_RIGHT_ADDR), BusData::Column(COL_RESULT_ADDR)]
    ));
    // The second message word of the last G-function, and the last byte of its last XOR.
    for (at, addr, value) in [
        (8, g_col(3, G_MY_ADDR), g_col(3, G_MY_VALUE)),
        (72, g_col(3, G_XOR8_ADDRS + 3), g_col(3, G_XOR8_BYTES + 3)),
    ] {
        assert!(buses[at].is_memory_lookup());
        assert!(matches!(
            buses[at].data[..],
            [BusData::Column(a), BusData::Column(v)] if a == addr && v == value
        ));
        let lookup = &table.lookups()[at - 1];
        assert_eq!((lookup.index, lookup.values.clone()), (addr, vec![value]));
    }
    let bus = table.bus();
    assert!(matches!(bus.direction, BusDirection::Pull));
    assert!(matches!(bus.data[3], BusData::Constant(_)));
}
