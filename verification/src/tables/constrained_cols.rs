//! Column layout of the constrained Blake3 table.
//!
//! A compression takes 14 rows, two half-rounds for each of seven rounds. A row processes four
//! G-functions, which are either a column or a diagonal quarter-round.
//!
//! Message schedule correctness follows from end-to-end Merkle verification: the message word
//! addresses are columns that the prover fills, the memory bus checks the reads, and a wrong
//! message gives an output that fails the Merkle path check.

use crate::tables::table_trait::ColIndex;
use vstd::prelude::*;

verus! {




/// Message word used at position `i` of a round: positions 0 to 7 belong to the column
/// quarter-round, 8 to 15 to the diagonal one.
pub const BLAKE3_SIGMA: [[usize; 16]; 7] = [
    [0, 1, 2, 3, 4, 5, 6, 7, 8, 9, 10, 11, 12, 13, 14, 15],
    [2, 6, 3, 10, 7, 0, 4, 13, 1, 11, 12, 5, 9, 14, 15, 8],
    [3, 4, 10, 12, 13, 2, 7, 14, 6, 5, 9, 0, 11, 15, 8, 1],
    [10, 7, 12, 9, 14, 3, 13, 15, 4, 0, 11, 2, 5, 8, 1, 6],
    [12, 13, 9, 11, 15, 10, 14, 8, 7, 2, 5, 3, 0, 1, 6, 4],
    [9, 14, 11, 5, 8, 12, 15, 1, 13, 3, 0, 10, 2, 6, 4, 7],
    [11, 15, 5, 0, 1, 9, 8, 6, 14, 10, 2, 12, 3, 4, 7, 13],
];

/// Blake3 initialization vector, the first eight words of the SHA-256 one.
pub const BLAKE3_IV: [u32; 8] = [
    0x6A09E667,
    0xBB67AE85,
    0x3C6EF372,
    0xA54FF53A,
    0x510E527F,
    0x9B05688C,
    0x1F83D9AB,
    0x5BE0CD19,
];

/// Two half-rounds for each of seven rounds.
pub const ROWS_PER_COMPRESSION: usize = 14;

pub const ROUNDS_PER_COMPRESSION: usize = 7;

/// State columns, which flow from a row to the next: 16 words of two limbs.
pub const N_STATE_COLS: usize = 32;

pub const COL_STATE_START: ColIndex = 0;

// Offsets of a G-function's columns, relative to its first one.

/// `a' = a + b + mx`, four bytes.
pub const G_ADD1_BYTES: usize = 0;

/// `d`, four bytes.
pub const G_D_BYTES: usize = 4;

/// `d ^ a'`, four bytes.
pub const G_XOR2_BYTES: usize = 8;

/// Lookup addresses of `d ^ a'`.
pub const G_XOR2_ADDRS: usize = 12;

/// `c' = c + d'`, four bytes.
pub const G_ADD2_BYTES: usize = 16;

/// `b`, four bytes.
pub const G_B_BYTES: usize = 20;

/// `b ^ c'`, four bytes.
pub const G_XOR4_BYTES: usize = 24;

/// Lookup addresses of `b ^ c'`.
pub const G_XOR4_ADDRS: usize = 28;

/// Nibbles of byte 1 of `b ^ c'`, for the rotation by 12.
pub const G_XOR4_SPLIT: usize = 32;

/// `a'' = a' + b' + my`, four bytes.
pub const G_ADD3_BYTES: usize = 34;

/// `d' ^ a''`, four bytes.
pub const G_XOR6_BYTES: usize = 38;

/// Lookup addresses of `d' ^ a''`.
pub const G_XOR6_ADDRS: usize = 42;

/// `c'' = c' + d''`, four bytes.
pub const G_ADD4_BYTES: usize = 46;

/// `b' ^ c''`, four bytes.
pub const G_XOR8_BYTES: usize = 50;

/// Lookup addresses of `b' ^ c''`.
pub const G_XOR8_ADDRS: usize = 54;

/// Low seven bits and top bit of byte 0 of `b' ^ c''`, for the rotation by 7.
pub const G_XOR8_SPLIT: usize = 58;

/// Message word `mx`, as the field element in memory.
pub const G_MX_VALUE: usize = 60;

/// `mx`, four bytes.
pub const G_MX_BYTES: usize = 61;

/// Memory address of `mx`.
pub const G_MX_ADDR: usize = 65;

/// Message word `my`, as the field element in memory.
pub const G_MY_VALUE: usize = 66;

/// `my`, four bytes.
pub const G_MY_BYTES: usize = 67;

/// Memory address of `my`.
pub const G_MY_ADDR: usize = 71;

/// Columns of one G-function.
pub const COLS_PER_G: usize = 72;

pub const COL_G_START: ColIndex = 32;

/// Columns of the four G-functions.
pub const N_G_COLS: usize = 288;

/// Output state columns: the state after the four G-functions, 16 words of two limbs. The
/// state columns of the next row hold the same values.
pub const COL_OUTPUT_STATE_START: ColIndex = 320;

pub const N_OUTPUT_STATE_COLS: usize = 32;

/// Control columns.
pub const COL_CTRL_START: ColIndex = 352;

pub const COL_FLAG_ACTIVE: ColIndex = 352;

pub const COL_IS_FIRST_ROW: ColIndex = 353;

pub const COL_IS_LAST_ROW: ColIndex = 354;

pub const COL_IS_COLUMN_QR: ColIndex = 355;

/// Left input address; flows to the next row.
pub const COL_LEFT_ADDR: ColIndex = 356;

/// Right input address; flows to the next row.
pub const COL_RIGHT_ADDR: ColIndex = 357;

/// Output address; flows to the next row.
pub const COL_RESULT_ADDR: ColIndex = 358;

pub const N_CTRL_COLS: usize = 7;

/// Committed columns: state, G-functions, output state and control.
pub const N_COMMITTED_COLS: usize = 359;

/// Virtual columns, not committed, for the bus.
pub const COL_V_INDEX_LEFT: ColIndex = 359;

pub const COL_V_PRECOMPILE_DATA: ColIndex = 360;

/// Committed and virtual columns.
pub const N_TOTAL_COLS: usize = 361;

// The columns that reconstruct the rotations by 12 and by 7 are not among the committed ones. A
// trace keeps them behind all others.

/// Start of the rotation columns.
pub const COL_ROT_START: ColIndex = 361;

/// Rotation columns of one G-function.
pub const ROT_COLS_PER_G: usize = 7;

/// Rotation columns of a row.
pub const N_ROT_COLS: usize = 28;

/// Nibbles of byte 3 of `b ^ c'`.
pub const G_XOR4_B3_SPLIT: usize = 0;

/// Nibbles of byte 0 of `b ^ c'`.
pub const G_XOR4_B0_SPLIT: usize = 2;

/// Nibbles of byte 2 of `b ^ c'`.
pub const G_XOR4_B2_SPLIT: usize = 4;

/// The bit of the rotation by 7 that crosses from the low limb into the high one.
pub const G_CARRY_ROT7: usize = 6;

/// The product of the active flag and the column quarter-round flag.
pub const COL_FLAG_A_COL_QR: ColIndex = 389;

/// All the columns a trace row fills.
pub const N_TRACE_COLS: usize = 390;

/// Column `offset` of G-function `g`.
pub open spec fn g_column(g: int, offset: int) -> int {
    COL_G_START + g * COLS_PER_G + offset
}

/// Rotation column `offset` of G-function `g`.
pub open spec fn rot_column(g: int, offset: int) -> int {
    COL_ROT_START + g * ROT_COLS_PER_G + offset
}

/// State column of limb `limb` of word `word`.
pub open spec fn state_column(word: int, limb: int) -> int {
    COL_STATE_START + word * 2 + limb
}

/// Output state column of limb `limb` of word `word`.
pub open spec fn output_state_column(word: int, limb: int) -> int {
    COL_OUTPUT_STATE_START + word * 2 + limb
}

/// Column `offset` of G-function `g`.
pub fn g_col(g: usize, offset: usize) -> (r: ColIndex)
    requires
        g_column(g as int, offset as int) <= usize::MAX,
    ensures
        r == g_column(g as int, offset as int),
{
    COL_G_START + g * COLS_PER_G + offset
}

/// Rotation column `offset` of G-function `g`.
pub fn rot_col(g: usize, offset: usize) -> (r: ColIndex)
    requires
        rot_column(g as int, offset as int) <= usize::MAX,
    ensures
        r == rot_column(g as int, offset as int),
{
    COL_ROT_START + g * ROT_COLS_PER_G + offset
}

/// State column of limb `limb` (0 is the low one) of word `word`.
pub fn state_col(word: usize, limb: usize) -> (r: ColIndex)
    requires
        state_column(word as int, limb as int) <= usize::MAX,
    ensures
        r == state_column(word as int, limb as int),
{
    COL_STATE_START + word * 2 + limb
}

/// Output state column of limb `limb` (0 is the low one) of word `word`.
pub fn output_state_col(word: usize, limb: usize) -> (r: ColIndex)
    requires
        output_state_column(word as int, limb as int) <= usize::MAX,
    ensures
        r == output_state_column(word as int, limb as int),
{
    COL_OUTPUT_STATE_START + word * 2 + limb
}

/// State words of G-function `g` of a column quarter-round.
pub open spec fn col_qr(g: int) -> (int, int, int, int) {
    (g, g + 4, g + 8, g + 12)
}

/// State words of G-function `g` of a diagonal quarter-round.
pub open spec fn diag_qr(g: int) -> (int, int, int, int) {
    (g, (g + 1) % 4 + 4, (g + 2) % 4 + 8, (g + 3) % 4 + 12)
}

/// State words of G-function `g` of a column quarter-round.
pub fn col_qr_indices(g: usize) -> (r: (usize, usize, usize, usize))
    requires
        g + 12 <= usize::MAX,
    ensures
        (r.0 as int, r.1 as int, r.2 as int, r.3 as int) == col_qr(g as int),
{
    (g, g + 4, g + 8, g + 12)
}

/// State words of G-function `g` of a diagonal quarter-round.
pub fn diag_qr_indices(g: usize) -> (r: (usize, usize, usize, usize))
    requires
        g + 3 <= usize::MAX,
    ensures
        (r.0 as int, r.1 as int, r.2 as int, r.3 as int) == diag_qr(g as int),
{
    (g, (g + 1) % 4 + 4, (g + 2) % 4 + 8, (g + 3) % 4 + 12)
}

/// The columns that flow to the next row: the state, then the three addresses.
pub fn down_columns() -> (r: Vec<usize>)
    ensures
        r@.len() == 35,
        forall|i: int| 0 <= i < 32 ==> r@[i] == COL_STATE_START + i,
        r@[32] == COL_LEFT_ADDR,
        r@[33] == COL_RIGHT_ADDR,
        r@[34] == COL_RESULT_ADDR,
{
    let mut downs: Vec<usize> = Vec::new();
    let mut w: usize = 0;
    while w < 16
        invariant
            w <= 16,
            downs@.len() == 2 * w,
            forall|i: int| 0 <= i < 2 * w ==> downs@[i] == COL_STATE_START + i,
        decreases 16 - w,
    {
        downs.push(state_col(w, 0));
        downs.push(state_col(w, 1));
        w += 1;
    }
    downs.push(COL_LEFT_ADDR);
    downs.push(COL_RIGHT_ADDR);
    downs.push(COL_RESULT_ADDR);
    downs
}

/// Every round uses each of the 16 message words exactly once.
pub proof fn law_sigma_is_permutation(round: int)
    requires
        0 <= round < 7,
    ensures
        forall|i: int| 0 <= i < 16 ==> #[trigger] BLAKE3_SIGMA@[round]@[i] < 16,
        forall|i: int, j: int|
            0 <= i < j < 16 ==> #[trigger] BLAKE3_SIGMA@[round]@[i]
                != #[trigger] BLAKE3_SIGMA@[round]@[j],
{
    if round == 0 {
    } else if round == 1 {
    } else if round == 2 {
    } else if round == 3 {
    } else if round == 4 {
    } else if round == 5 {
    } else {
    }
}

/// Each round permutes the message words of the round before it in the same way.
pub proof fn law_sigma_step(round: int, i: int)
    requires
        0 <= round < 6,
        0 <= i < 16,
    ensures
        BLAKE3_SIGMA@[round + 1]@[i] == BLAKE3_SIGMA@[round]@[BLAKE3_SIGMA@[1]@[i] as int],
{
    if round == 0 {
    } else if round == 1 {
    } else if round == 2 {
    } else if round == 3 {
    } else if round == 4 {
    } else {
    }
}

/// The four G-functions of a quarter-round take the 16 state words apart: no word is used
/// twice, and each G-function takes its words `a`, `b`, `c` and `d` from the first, second,
/// third and last four words.
pub proof fn law_quarter_rounds_partition_state(g: int, h: int)
    requires
        0 <= g < 4,
        0 <= h < 4,
    ensures
        0 <= col_qr(g).0 < 4 <= col_qr(g).1 < 8 <= col_qr(g).2 < 12 <= col_qr(g).3 < 16,
        0 <= diag_qr(g).0 < 4 <= diag_qr(g).1 < 8 <= diag_qr(g).2 < 12 <= diag_qr(g).3 < 16,
        g != h ==> col_qr(g).0 != col_qr(h).0 && col_qr(g).1 != col_qr(h).1 && col_qr(g).2
            != col_qr(h).2 && col_qr(g).3 != col_qr(h).3,
        g != h ==> diag_qr(g).0 != diag_qr(h).0 && diag_qr(g).1 != diag_qr(h).1 && diag_qr(g).2
            != diag_qr(h).2 && diag_qr(g).3 != diag_qr(h).3,
{
}

/// The groups of columns follow one another without overlap.
pub proof fn law_column_groups(w: int, l: int, g: int, h: int, o: int, q: int)
    requires
        0 <= w < 16,
        0 <= l < 2,
        0 <= g < 4,
        0 <= h < 4,
        0 <= o < COLS_PER_G,
        0 <= q < COLS_PER_G,
    ensures
        COL_STATE_START <= state_column(w, l) < COL_G_START,
        COL_G_START <= g_column(g, o) < COL_OUTPUT_STATE_START,
        COL_OUTPUT_STATE_START <= output_state_column(w, l) < COL_CTRL_START,
        COL_CTRL_START + N_CTRL_COLS == N_COMMITTED_COLS,
        N_COMMITTED_COLS == N_STATE_COLS + N_G_COLS + N_OUTPUT_STATE_COLS + N_CTRL_COLS,
        g_column(g, o) == g_column(h, q) ==> g == h && o == q,
        o < ROT_COLS_PER_G ==> COL_ROT_START <= rot_column(g, o) < COL_FLAG_A_COL_QR,
        o < ROT_COLS_PER_G && q < ROT_COLS_PER_G && rot_column(g, o) == rot_column(h, q) ==> g == h
            && o == q,
{
}

} // verus!
