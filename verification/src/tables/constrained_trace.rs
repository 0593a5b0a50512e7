//! Trace generation for the constrained Blake3 table.
//!
//! One compression gives 14 rows: seven rounds of a column and a diagonal quarter-round. The
//! state a row leaves behind is the state the next row starts from.

use crate::field::{kb, monty, KoalaBear, Ring};
use crate::memory::{get_slice, MemoryAccess, MemoryLookup, RunnerError};
use crate::tables::constrained_cols::{
    col_qr, col_qr_indices, diag_qr, diag_qr_indices, g_col, g_column, law_sigma_is_permutation,
    rot_col, rot_column, BLAKE3_IV, BLAKE3_SIGMA, COLS_PER_G, COL_CTRL_START, COL_FLAG_ACTIVE,
    COL_FLAG_A_COL_QR, COL_G_START, COL_IS_COLUMN_QR, COL_IS_FIRST_ROW, COL_IS_LAST_ROW,
    COL_LEFT_ADDR, COL_OUTPUT_STATE_START, COL_RESULT_ADDR, COL_RIGHT_ADDR, COL_ROT_START,
    COL_V_INDEX_LEFT, COL_V_PRECOMPILE_DATA, G_ADD1_BYTES, G_ADD2_BYTES, G_ADD3_BYTES, G_ADD4_BYTES,
    G_B_BYTES, G_CARRY_ROT7, G_D_BYTES, G_MX_ADDR, G_MX_BYTES, G_MX_VALUE, G_MY_ADDR, G_MY_BYTES,
    G_MY_VALUE, G_XOR2_ADDRS, G_XOR2_BYTES, G_XOR4_ADDRS, G_XOR4_B0_SPLIT, G_XOR4_B2_SPLIT,
    G_XOR4_B3_SPLIT, G_XOR4_BYTES, G_XOR4_SPLIT, G_XOR6_ADDRS, G_XOR6_BYTES, G_XOR8_ADDRS,
    G_XOR8_BYTES, G_XOR8_SPLIT, N_TRACE_COLS, ROT_COLS_PER_G, ROUNDS_PER_COMPRESSION,
};
use crate::tables::table_trait::ColIndex;
use crate::tables::g_function::{
    compute_g_function, g_steps, law_word_round_trip, xor_addr, GFunctionTrace, GSteps,
};
use crate::word::{byte, byte_of, law_bytes_of_word, lemma_masks, limb};
use vstd::prelude::*;

verus! {

/// The value on the precompile bus that selects the Blake3 table.
pub const BLAKE3_PRECOMPILE_DATA: usize = 7;

/// Field elements of a digest.
pub const DIGEST_LEN: usize = 8;

/// The state before the first round: the chaining value (the initialization vector), its first
/// four words again, counter 0, block length 64 and the flags of a single root chunk.
pub open spec fn initial_state() -> Seq<u32> {
    BLAKE3_IV@ + BLAKE3_IV@.take(4) + seq![0u32, 0u32, 64u32, 0x0Bu32]
}

/// The state words of G-function `g` of half-round `h`.
pub open spec fn qr_words(h: int, g: int) -> (int, int, int, int) {
    if h % 2 == 0 {
        col_qr(g)
    } else {
        diag_qr(g)
    }
}

/// The message word at position `pos` of half-round `h`.
pub open spec fn msg_index(h: int, pos: int) -> int {
    BLAKE3_SIGMA@[h / 2]@[if h % 2 == 0 { pos } else { 8 + pos }] as int
}

/// G-function `g` of half-round `h` on `state`.
pub open spec fn g_at(state: Seq<u32>, msg: Seq<u32>, h: int, g: int) -> GSteps {
    let w = qr_words(h, g);
    g_steps(
        state[w.0],
        state[w.1],
        state[w.2],
        state[w.3],
        msg[msg_index(h, 2 * g)],
        msg[msg_index(h, 2 * g + 1)],
    )
}

/// `state` after G-function `g` of half-round `h`.
pub open spec fn after_g(state: Seq<u32>, msg: Seq<u32>, h: int, g: int) -> Seq<u32> {
    let w = qr_words(h, g);
    let s = g_at(state, msg, h, g);
    state.update(w.0, s.a2).update(w.1, s.b2).update(w.2, s.c2).update(w.3, s.d2)
}

/// `state` after the first `k` G-functions of half-round `h`.
pub open spec fn after_gs(state: Seq<u32>, msg: Seq<u32>, h: int, k: int) -> Seq<u32>
    decreases k,
{
    if k <= 0 {
        state
    } else {
        after_g(after_gs(state, msg, h, k - 1), msg, h, k - 1)
    }
}

/// The state before half-round `h` of the compression of the message `msg`.
pub open spec fn state_before(msg: Seq<u32>, h: int) -> Seq<u32>
    decreases h,
{
    if h <= 0 {
        initial_state()
    } else {
        after_gs(state_before(msg, h - 1), msg, h - 1, 4)
    }
}

/// Word `i` of the compression's output: the halves of the last state, XORed.
pub open spec fn compressed_word(msg: Seq<u32>, i: int) -> u32 {
    state_before(msg, 14)[i] ^ state_before(msg, 14)[i + 8]
}

/// What a compression reads: the two operands and the addresses.
pub struct TraceInputs {
    pub left: Seq<KoalaBear>,
    pub right: Seq<KoalaBear>,
    pub left_addr: int,
    pub right_addr: int,
    pub result_addr: int,
    pub base: int,
}

impl TraceInputs {
    /// Element `i` of the two operands.
    pub open spec fn element(self, i: int) -> KoalaBear {
        if i < 8 {
            self.left[i]
        } else {
            self.right[i - 8]
        }
    }

    /// The address of element `i`.
    pub open spec fn addr(self, i: int) -> int {
        if i < 8 {
            self.left_addr + i
        } else {
            self.right_addr + i - 8
        }
    }

    /// The 16 message words: the Montgomery forms of the elements.
    pub open spec fn msg(self) -> Seq<u32> {
        Seq::new(16, |i: int| monty(self.element(i)))
    }

    /// What G-function `g` of half-round `h` works on.
    pub open spec fn g_input(self, h: int, g: int) -> GInput {
        let msg = self.msg();
        let st = after_gs(state_before(msg, h), msg, h, g);
        let w = qr_words(h, g);
        let mx = msg_index(h, 2 * g);
        let my = msg_index(h, 2 * g + 1);
        GInput {
            a: st[w.0],
            b: st[w.1],
            c: st[w.2],
            d: st[w.3],
            mx: msg[mx],
            my: msg[my],
            mx_value: self.element(mx),
            my_value: self.element(my),
            mx_addr: self.addr(mx),
            my_addr: self.addr(my),
            base: self.base,
        }
    }

    /// The cell of column `col` in row `h`.
    pub open spec fn cell(self, h: int, col: int) -> KoalaBear {
        let msg = self.msg();
        if col < COL_G_START {
            kb(limb(state_before(msg, h)[col / 2], col % 2) as int)
        } else if col < COL_OUTPUT_STATE_START {
            let i = col - COL_G_START;
            self.g_input(h, i / 72).cell(i % 72)
        } else if col < COL_CTRL_START {
            let i = col - COL_OUTPUT_STATE_START;
            kb(limb(state_before(msg, h + 1)[i / 2], i % 2) as int)
        } else if col == COL_FLAG_ACTIVE {
            kb(1)
        } else if col == COL_IS_FIRST_ROW {
            kb(if h == 0 { 1 } else { 0 })
        } else if col == COL_IS_LAST_ROW {
            kb(if h == 13 { 1 } else { 0 })
        } else if col == COL_IS_COLUMN_QR {
            kb(if h % 2 == 0 { 1 } else { 0 })
        } else if col == COL_LEFT_ADDR {
            kb(self.left_addr)
        } else if col == COL_RIGHT_ADDR {
            kb(self.right_addr)
        } else if col == COL_RESULT_ADDR {
            kb(self.result_addr)
        } else if col == COL_V_INDEX_LEFT {
            kb(self.left_addr)
        } else if col == COL_V_PRECOMPILE_DATA {
            kb(BLAKE3_PRECOMPILE_DATA as int)
        } else if col < COL_FLAG_A_COL_QR {
            let i = col - COL_ROT_START;
            self.g_input(h, i / 7).rot_cell(i % 7)
        } else {
            kb(if h % 2 == 0 { 1 } else { 0 })
        }
    }

    /// The 14 cells a compression adds to column `col`.
    pub open spec fn column(self, col: int) -> Seq<KoalaBear> {
        if is_filled(col) {
            Seq::new(14, |h: int| self.cell(h, col))
        } else {
            Seq::empty()
        }
    }
}

/// What one G-function works on: its words, and the message elements with their addresses.
pub struct GInput {
    pub a: u32,
    pub b: u32,
    pub c: u32,
    pub d: u32,
    pub mx: u32,
    pub my: u32,
    pub mx_value: KoalaBear,
    pub my_value: KoalaBear,
    pub mx_addr: int,
    pub my_addr: int,
    pub base: int,
}

impl GInput {
    pub open spec fn steps(self) -> GSteps {
        g_steps(self.a, self.b, self.c, self.d, self.mx, self.my)
    }

    /// The cell at `offset` among the G-function's columns.
    pub open spec fn cell(self, offset: int) -> KoalaBear {
        let s = self.steps();
        if offset < G_D_BYTES {
            kb(byte_of(s.a1, offset - G_ADD1_BYTES) as int)
        } else if offset < G_XOR2_BYTES {
            kb(byte_of(self.d, offset - G_D_BYTES) as int)
        } else if offset < G_XOR2_ADDRS {
            kb(byte_of(self.d ^ s.a1, offset - G_XOR2_BYTES) as int)
        } else if offset < G_B_BYTES {
            kb(byte_of(s.c1, offset - G_ADD2_BYTES) as int)
        } else if offset < G_XOR4_BYTES {
            kb(byte_of(self.b, offset - G_B_BYTES) as int)
        } else if offset < G_XOR4_ADDRS {
            kb(byte_of(self.b ^ s.c1, offset - G_XOR4_BYTES) as int)
        } else if offset < G_ADD3_BYTES {
            let byte1 = byte_of(self.b ^ s.c1, 1) as int;
            kb(if offset == G_XOR4_SPLIT { byte1 % 16 } else { byte1 / 16 })
        } else if offset < G_XOR6_BYTES {
            kb(byte_of(s.a2, offset - G_ADD3_BYTES) as int)
        } else if offset < G_XOR6_ADDRS {
            kb(byte_of(s.d1 ^ s.a2, offset - G_XOR6_BYTES) as int)
        } else if offset < G_XOR8_BYTES {
            kb(byte_of(s.c2, offset - G_ADD4_BYTES) as int)
        } else if offset < G_XOR8_ADDRS {
            kb(byte_of(s.b1 ^ s.c2, offset - G_XOR8_BYTES) as int)
        } else if offset < G_XOR8_SPLIT {
            kb(xor_addr(s.b1, s.c2, self.base, offset - G_XOR8_ADDRS))
        } else if offset < G_MX_VALUE {
            let byte0 = byte_of(s.b1 ^ s.c2, 0) as int;
            kb(if offset == G_XOR8_SPLIT { byte0 % 128 } else { byte0 / 128 })
        } else if offset == G_MX_VALUE {
            self.mx_value
        } else if offset < G_MX_ADDR {
            kb(byte_of(self.mx, offset - G_MX_BYTES) as int)
        } else if offset == G_MX_ADDR {
            kb(self.mx_addr)
        } else if offset == G_MY_VALUE {
            self.my_value
        } else if offset < G_MY_ADDR {
            kb(byte_of(self.my, offset - G_MY_BYTES) as int)
        } else {
            kb(self.my_addr)
        }
    }

    /// The cell at `offset` among the G-function's rotation columns.
    pub open spec fn rot_cell(self, offset: int) -> KoalaBear {
        let s = self.steps();
        let x = self.b ^ s.c1;
        let y = s.b1 ^ s.c2;
        if offset == G_XOR4_B3_SPLIT {
            kb(byte_of(x, 3) as int % 16)
        } else if offset == G_XOR4_B3_SPLIT + 1 {
            kb(byte_of(x, 3) as int / 16)
        } else if offset == G_XOR4_B0_SPLIT {
            kb(byte_of(x, 0) as int % 16)
        } else if offset == G_XOR4_B0_SPLIT + 1 {
            kb(byte_of(x, 0) as int / 16)
        } else if offset == G_XOR4_B2_SPLIT {
            kb(byte_of(x, 2) as int % 16)
        } else if offset == G_XOR4_B2_SPLIT + 1 {
            kb(byte_of(x, 2) as int / 16)
        } else {
            kb((byte_of(y, 0) / 128 + 2 * byte_of(y, 1) + 512 * byte_of(y, 2)) / 65536)
        }
    }
}

/// Whether a G-function's column at `offset` is one a row fills. The lookup addresses of the
/// first three XORs follow from other columns and have no cells of their own.
pub open spec fn g_offset_filled(offset: int) -> bool {
    !(G_XOR2_ADDRS <= offset < G_ADD2_BYTES || G_XOR4_ADDRS <= offset < G_XOR4_SPLIT
        || G_XOR6_ADDRS <= offset < G_ADD4_BYTES)
}

/// Whether a row fills column `col`.
pub open spec fn is_filled(col: int) -> bool {
    &&& 0 <= col < N_TRACE_COLS
    &&& COL_G_START <= col < COL_OUTPUT_STATE_START ==> g_offset_filled((col - COL_G_START) % 72)
}

/// Whether a row fills column `col`.
fn filled(col: usize) -> (r: bool)
    ensures
        r == is_filled(col as int),
{
    if col >= N_TRACE_COLS {
        false
    } else if COL_G_START <= col && col < COL_OUTPUT_STATE_START {
        let o: usize = (col - COL_G_START) % COLS_PER_G;
        !(G_XOR2_ADDRS <= o && o < G_ADD2_BYTES || G_XOR4_ADDRS <= o && o < G_XOR4_SPLIT
            || G_XOR6_ADDRS <= o && o < G_ADD4_BYTES)
    } else {
        true
    }
}

/// The state before the first round.
pub fn blake3_initial_state() -> (r: [u32; 16])
    ensures
        r@ == initial_state(),
{
    let iv = BLAKE3_IV;
    let r = [
        iv[0],
        iv[1],
        iv[2],
        iv[3],
        iv[4],
        iv[5],
        iv[6],
        iv[7],
        iv[0],
        iv[1],
        iv[2],
        iv[3],
        0,
        0,
        64,
        0x0B,
    ];
    assert(r@ =~= initial_state());
    r
}

/// Puts the four bytes of `val` into the columns from `col_start` on.
fn fill_word_bytes(row: &mut Vec<KoalaBear>, col_start: ColIndex, val: u32)
    requires
        col_start + 4 <= old(row).len(),
    ensures
        final(row)@.len() == old(row)@.len(),
        forall|j: int|
            0 <= j < old(row)@.len() ==> #[trigger] final(row)@[j] == if col_start <= j < col_start + 4 {
                kb(byte_of(val, j - col_start) as int)
            } else {
                old(row)@[j]
            },
{
    row[col_start] = KoalaBear::from_u32(byte(val, 0));
    row[col_start + 1] = KoalaBear::from_u32(byte(val, 1));
    row[col_start + 2] = KoalaBear::from_u32(byte(val, 2));
    row[col_start + 3] = KoalaBear::from_u32(byte(val, 3));
}

/// Puts the addresses of the four byte-XOR lookups of `a_val` and `b_val` into the columns from
/// `addr_col_start` on.
fn fill_xor_addrs(
    row: &mut Vec<KoalaBear>,
    addr_col_start: ColIndex,
    a_val: u32,
    b_val: u32,
    xor_table_base: usize,
)
    requires
        addr_col_start + 4 <= old(row).len(),
        xor_table_base + 65535 <= usize::MAX,
    ensures
        final(row)@.len() == old(row)@.len(),
        forall|j: int|
            0 <= j < old(row)@.len() ==> #[trigger] final(row)@[j] == if addr_col_start <= j
                < addr_col_start + 4 {
                kb(xor_addr(a_val, b_val, xor_table_base as int, j - addr_col_start))
            } else {
                old(row)@[j]
            },
{
    let mut i: usize = 0;
    while i < 4
        invariant
            i <= 4,
            addr_col_start + 4 <= row.len(),
            row@.len() == old(row)@.len(),
            xor_table_base + 65535 <= usize::MAX,
            forall|j: int|
                0 <= j < row@.len() ==> #[trigger] row@[j] == if addr_col_start <= j < addr_col_start
                    + i {
                    kb(xor_addr(a_val, b_val, xor_table_base as int, j - addr_col_start))
                } else {
                    old(row)@[j]
                },
        decreases 4 - i,
    {
        proof {
            law_bytes_of_word(a_val);
            law_bytes_of_word(b_val);
        }
        let a_byte: u32 = byte(a_val, i);
        let b_byte: u32 = byte(b_val, i);
        let addr: usize = xor_table_base + 256 * a_byte as usize + b_byte as usize;
        row[addr_col_start + i] = KoalaBear::from_usize(addr);
        i += 1;
    }
}

/// Puts the two halves of a byte, its remainder and quotient by `modulus`, into two columns.
fn fill_byte_split(row: &mut Vec<KoalaBear>, col: ColIndex, val: u32, modulus: u32)
    requires
        col + 2 <= old(row).len(),
        modulus > 0,
    ensures
        final(row)@ == old(row)@.update(col as int, kb(val as int % modulus as int)).update(
            col + 1,
            kb(val as int / modulus as int),
        ),
{
    row[col] = KoalaBear::from_u32(val % modulus);
    row[col + 1] = KoalaBear::from_u32(val / modulus);
}

/// One message word: its value in memory, its address, and the word its Montgomery form makes.
#[derive(Clone, Copy)]
struct MessageWord {
    value: KoalaBear,
    addr: usize,
    word: u32,
}

/// Fills the columns of G-function `g`, whose input is `x`.
#[verifier::rlimit(60)]
fn fill_g_columns(
    row: &mut Vec<KoalaBear>,
    g: usize,
    b: u32,
    d: u32,
    mx: MessageWord,
    my: MessageWord,
    trace: &GFunctionTrace,
    xor_table_base: usize,
    Ghost(x): Ghost<GInput>,
)
    requires
        g < 4,
        old(row)@.len() == N_TRACE_COLS,
        xor_table_base + 65535 <= usize::MAX,
        trace.is_trace_of(x.a, x.b, x.c, x.d, x.mx, x.my, xor_table_base as int),
        x.b == b && x.d == d && x.base == xor_table_base,
        x.mx == mx.word && x.mx_value == mx.value && x.mx_addr == mx.addr,
        x.my == my.word && x.my_value == my.value && x.my_addr == my.addr,
    ensures
        final(row)@.len() == N_TRACE_COLS,
        forall|o: int|
            0 <= o < COLS_PER_G && g_offset_filled(o) ==> final(row)@[#[trigger] g_column(
                g as int,
                o,
            )] == x.cell(o),
        forall|o: int|
            0 <= o < ROT_COLS_PER_G ==> final(row)@[#[trigger] rot_column(g as int, o)]
                == x.rot_cell(o),
        forall|j: int|
            0 <= j < N_TRACE_COLS && !(g_column(g as int, 0) <= j < g_column(g as int, 72)) && !(
            rot_column(g as int, 0) <= j < rot_column(g as int, 7)) ==> final(row)@[j]
                == old(row)@[j],
{
    let ghost s = x.steps();
    proof {
        law_word_round_trip(s.a1);
        law_word_round_trip(s.c1);
        law_word_round_trip(s.a2);
        law_word_round_trip(s.d1);
        law_word_round_trip(s.c2);
        law_word_round_trip(s.b1);
    }
    let a1: u32 = trace.add1_result.to_u32();
    let c1: u32 = trace.add2_result.to_u32();
    let a2: u32 = trace.add3_result.to_u32();
    let d1: u32 = trace.xor_rot16.result.to_u32();
    let c2: u32 = trace.add4_result.to_u32();
    let b1: u32 = trace.xor_rot12.result.to_u32();
    assert(a1 == s.a1 && c1 == s.c1 && a2 == s.a2 && d1 == s.d1 && c2 == s.c2 && b1 == s.b1);
    let xor4: u32 = b ^ c1;
    let xor8: u32 = b1 ^ c2;
    proof {
        law_bytes_of_word(xor4);
        law_bytes_of_word(xor8);
    }

    fill_word_bytes(row, g_col(g, G_ADD1_BYTES), a1);
    fill_word_bytes(row, g_col(g, G_D_BYTES), d);
    fill_word_bytes(row, g_col(g, G_XOR2_BYTES), d ^ a1);
    fill_word_bytes(row, g_col(g, G_ADD2_BYTES), c1);
    fill_word_bytes(row, g_col(g, G_B_BYTES), b);
    fill_word_bytes(row, g_col(g, G_XOR4_BYTES), xor4);
    fill_byte_split(row, g_col(g, G_XOR4_SPLIT), byte(xor4, 1), 16);
    fill_word_bytes(row, g_col(g, G_ADD3_BYTES), a2);
    fill_word_bytes(row, g_col(g, G_XOR6_BYTES), d1 ^ a2);
    fill_word_bytes(row, g_col(g, G_ADD4_BYTES), c2);
    fill_word_bytes(row, g_col(g, G_XOR8_BYTES), xor8);
    fill_xor_addrs(row, g_col(g, G_XOR8_ADDRS), b1, c2, xor_table_base);
    fill_byte_split(row, g_col(g, G_XOR8_SPLIT), byte(xor8, 0), 128);
    row[g_col(g, G_MX_VALUE)] = mx.value;
    fill_word_bytes(row, g_col(g, G_MX_BYTES), mx.word);
    row[g_col(g, G_MX_ADDR)] = KoalaBear::from_usize(mx.addr);
    row[g_col(g, G_MY_VALUE)] = my.value;
    fill_word_bytes(row, g_col(g, G_MY_BYTES), my.word);
    row[g_col(g, G_MY_ADDR)] = KoalaBear::from_usize(my.addr);

    fill_byte_split(row, rot_col(g, G_XOR4_B3_SPLIT), byte(xor4, 3), 16);
    fill_byte_split(row, rot_col(g, G_XOR4_B0_SPLIT), byte(xor4, 0), 16);
    fill_byte_split(row, rot_col(g, G_XOR4_B2_SPLIT), byte(xor4, 2), 16);
    let low_raw: u32 = byte(xor8, 0) / 128 + byte(xor8, 1) * 2 + byte(xor8, 2) * 512;
    row[rot_col(g, G_CARRY_ROT7)] = KoalaBear::from_u32(low_raw / 65536);
}

/// The G-functions of a quarter-round leave the words of the later ones alone.
pub proof fn lemma_later_words_untouched(state: Seq<u32>, msg: Seq<u32>, h: int, k: int)
    requires
        state.len() == 16,
        0 <= k <= 4,
        0 <= h,
    ensures
        after_gs(state, msg, h, k).len() == 16,
        forall|g: int|
            k <= g < 4 ==> {
                let w = #[trigger] qr_words(h, g);
                let st = after_gs(state, msg, h, k);
                st[w.0] == state[w.0] && st[w.1] == state[w.1] && st[w.2] == state[w.2] && st[w.3]
                    == state[w.3]
            },
    decreases k,
{
    if k > 0 {
        lemma_later_words_untouched(state, msg, h, k - 1);
    }
}

pub proof fn lemma_state_len(msg: Seq<u32>, h: int)
    ensures
        state_before(msg, h).len() == 16,
    decreases h,
{
    if h > 0 {
        lemma_state_len(msg, h - 1);
        lemma_state_len_after(state_before(msg, h - 1), msg, h - 1, 4);
    }
}

proof fn lemma_state_len_after(state: Seq<u32>, msg: Seq<u32>, h: int, k: int)
    requires
        state.len() == 16,
        0 <= h,
        0 <= k <= 4,
    ensures
        after_gs(state, msg, h, k).len() == 16,
    decreases k,
{
    if k > 0 {
        lemma_state_len_after(state, msg, h, k - 1);
    }
}

/// Puts the limbs of the 16 state words into the columns from `col_start` on.
fn fill_state(row: &mut Vec<KoalaBear>, col_start: ColIndex, state: &[u32; 16])
    requires
        col_start + 32 <= old(row).len(),
    ensures
        final(row)@.len() == old(row)@.len(),
        forall|j: int|
            0 <= j < old(row)@.len() ==> #[trigger] final(row)@[j] == if col_start <= j < col_start
                + 32 {
                kb(limb(state@[(j - col_start) / 2], (j - col_start) % 2) as int)
            } else {
                old(row)@[j]
            },
{
    let mut w: usize = 0;
    while w < 16
        invariant
            w <= 16,
            col_start + 32 <= row.len(),
            row@.len() == old(row)@.len(),
            forall|j: int|
                0 <= j < row@.len() ==> #[trigger] row@[j] == if col_start <= j < col_start + 2 * w {
                    kb(limb(state@[(j - col_start) / 2], (j - col_start) % 2) as int)
                } else {
                    old(row)@[j]
                },
        decreases 16 - w,
    {
        proof {
            lemma_masks(state[w as int]);
        }
        row[col_start + 2 * w] = KoalaBear::from_u32(state[w] & 0xFFFF);
        row[col_start + 2 * w + 1] = KoalaBear::from_u32(state[w] >> 16);
        w += 1;
    }
}

/// The compression's inputs as they were read from memory.
struct Operands {
    left: Vec<KoalaBear>,
    right: Vec<KoalaBear>,
    left_addr: usize,
    right_addr: usize,
    words: [u32; 16],
}

impl Operands {
    spec fn hold(self, x: TraceInputs) -> bool {
        &&& self.left@ == x.left
        &&& self.right@ == x.right
        &&& x.left.len() == 8
        &&& x.right.len() == 8
        &&& self.left_addr == x.left_addr
        &&& self.right_addr == x.right_addr
        &&& self.left_addr + 8 <= usize::MAX
        &&& self.right_addr + 8 <= usize::MAX
        &&& self.words@ == x.msg()
    }

    fn message_word(&self, i: usize, Ghost(x): Ghost<TraceInputs>) -> (r: MessageWord)
        requires
            self.hold(x),
            i < 16,
        ensures
            r.value == x.element(i as int),
            r.addr == x.addr(i as int),
            r.word == x.msg()[i as int],
    {
        if i < 8 {
            MessageWord { value: self.left[i], addr: self.left_addr + i, word: self.words[i] }
        } else {
            MessageWord {
                value: self.right[i - 8],
                addr: self.right_addr + (i - 8),
                word: self.words[i],
            }
        }
    }
}

/// Runs half-round `h` on `state` and fills the columns of its G-functions.
#[verifier::rlimit(40)]
fn fill_half_round(
    row: &mut Vec<KoalaBear>,
    state: &mut [u32; 16],
    h: usize,
    operands: &Operands,
    xor_table_base: usize,
    Ghost(x): Ghost<TraceInputs>,
)
    requires
        old(row)@.len() == N_TRACE_COLS,
        h < 14,
        operands.hold(x),
        x.base == xor_table_base,
        xor_table_base + 65535 <= usize::MAX,
        old(state)@ == state_before(x.msg(), h as int),
    ensures
        final(row)@.len() == N_TRACE_COLS,
        final(state)@ == state_before(x.msg(), h + 1),
        forall|j: int|
            COL_G_START <= j < COL_OUTPUT_STATE_START && is_filled(j) ==> final(row)@[j] == x.cell(
                h as int,
                j,
            ),
        forall|j: int|
            COL_ROT_START <= j < COL_FLAG_A_COL_QR ==> final(row)@[j] == x.cell(h as int, j),
        forall|j: int|
            0 <= j < N_TRACE_COLS && !(COL_G_START <= j < COL_OUTPUT_STATE_START) && !(
            COL_ROT_START <= j < COL_FLAG_A_COL_QR) ==> final(row)@[j] == old(row)@[j],
{
    let ghost msg = x.msg();
    let ghost start = state@;
    proof {
        lemma_state_len(msg, h as int);
        law_sigma_is_permutation(h as int / 2);
    }
    let sigma = BLAKE3_SIGMA;
    let is_column_qr: bool = h % 2 == 0;
    let mut g: usize = 0;
    while g < 4
        invariant
            g <= 4,
            h < 14,
            row@.len() == N_TRACE_COLS,
            is_column_qr == (h % 2 == 0),
            sigma@ == BLAKE3_SIGMA@,
            msg == x.msg(),
            start == state_before(msg, h as int),
            operands.hold(x),
            x.base == xor_table_base,
            xor_table_base + 65535 <= usize::MAX,
            state@ == after_gs(start, msg, h as int, g as int),
            forall|i: int| 0 <= i < 16 ==> #[trigger] BLAKE3_SIGMA@[h as int / 2]@[i] < 16,
            forall|j: int|
                COL_G_START <= j < g_column(g as int, 0) && is_filled(j) ==> row@[j] == x.cell(
                    h as int,
                    j,
                ),
            forall|j: int|
                COL_ROT_START <= j < rot_column(g as int, 0) ==> row@[j] == x.cell(h as int, j),
            forall|j: int|
                0 <= j < N_TRACE_COLS && !(COL_G_START <= j < COL_OUTPUT_STATE_START) && !(
                COL_ROT_START <= j < COL_FLAG_A_COL_QR) ==> row@[j] == old(row)@[j],
        decreases 4 - g,
    {
        let (a_idx, b_idx, c_idx, d_idx) = if is_column_qr {
            col_qr_indices(g)
        } else {
            diag_qr_indices(g)
        };
        let first: usize = if is_column_qr {
            2 * g
        } else {
            8 + 2 * g
        };
        let mx_idx: usize = sigma[h / 2][first];
        let my_idx: usize = sigma[h / 2][first + 1];
        assert(mx_idx == msg_index(h as int, 2 * g));
        assert(my_idx == msg_index(h as int, 2 * g + 1));
        let mx = operands.message_word(mx_idx, Ghost(x));
        let my = operands.message_word(my_idx, Ghost(x));
        let a: u32 = state[a_idx];
        let b: u32 = state[b_idx];
        let c: u32 = state[c_idx];
        let d: u32 = state[d_idx];
        let ghost before = state@;
        let ghost row0 = row@;
        let ghost gi = x.g_input(h as int, g as int);
        let (a_out, b_out, c_out, d_out, trace) = compute_g_function(
            a,
            b,
            c,
            d,
            mx.word,
            my.word,
            xor_table_base,
        );
        state[a_idx] = a_out;
        state[b_idx] = b_out;
        state[c_idx] = c_out;
        state[d_idx] = d_out;
        assert(state@ =~= after_g(before, msg, h as int, g as int));
        fill_g_columns(row, g, b, d, mx, my, &trace, xor_table_base, Ghost(gi));
        proof {
            assert forall|j: int|
                COL_G_START <= j < g_column(g + 1, 0) && is_filled(j) implies row@[j] == x.cell(
                h as int,
                j,
            ) by {
                if j >= g_column(g as int, 0) {
                    let o = j - g_column(g as int, 0);
                    assert((j - COL_G_START) / 72 == g && (j - COL_G_START) % 72 == o);
                    assert(row@[g_column(g as int, o)] == gi.cell(o));
                } else {
                    assert(row@[j] == row0[j]);
                }
            }
            assert forall|j: int| COL_ROT_START <= j < rot_column(g + 1, 0) implies row@[j]
                == x.cell(h as int, j) by {
                if j >= rot_column(g as int, 0) {
                    let o = j - rot_column(g as int, 0);
                    assert((j - COL_ROT_START) / 7 == g && (j - COL_ROT_START) % 7 == o);
                    assert(row@[rot_column(g as int, o)] == gi.rot_cell(o));
                } else {
                    assert(row@[j] == row0[j]);
                }
            }
        }
        g += 1;
    }
}

/// Fills the control and virtual columns of row `h`.
fn fill_control(
    row: &mut Vec<KoalaBear>,
    h: usize,
    left_addr: usize,
    right_addr: usize,
    result_addr: usize,
)
    requires
        old(row)@.len() == N_TRACE_COLS,
        h < 14,
    ensures
        final(row)@.len() == N_TRACE_COLS,
        forall|x: TraceInputs, j: int|
            x.left_addr == left_addr && x.right_addr == right_addr && x.result_addr == result_addr
                && (COL_CTRL_START <= j < COL_ROT_START || j == COL_FLAG_A_COL_QR)
                ==> final(row)@[j] == #[trigger] x.cell(h as int, j),
        forall|j: int|
            0 <= j < N_TRACE_COLS && !(COL_CTRL_START <= j < COL_ROT_START) && j
                != COL_FLAG_A_COL_QR ==> final(row)@[j] == old(row)@[j],
{
    let is_column_qr: bool = h % 2 == 0;
    row[COL_FLAG_ACTIVE] = KoalaBear::one();
    row[COL_IS_FIRST_ROW] = KoalaBear::from_bool(h == 0);
    row[COL_IS_LAST_ROW] = KoalaBear::from_bool(h == 13);
    row[COL_IS_COLUMN_QR] = KoalaBear::from_bool(is_column_qr);
    row[COL_LEFT_ADDR] = KoalaBear::from_usize(left_addr);
    row[COL_RIGHT_ADDR] = KoalaBear::from_usize(right_addr);
    row[COL_RESULT_ADDR] = KoalaBear::from_usize(result_addr);
    row[COL_FLAG_A_COL_QR] = KoalaBear::from_bool(is_column_qr);
    row[COL_V_INDEX_LEFT] = KoalaBear::from_usize(left_addr);
    row[COL_V_PRECOMPILE_DATA] = KoalaBear::from_usize(BLAKE3_PRECOMPILE_DATA);
}

/// Appends a row to those of the given columns that it fills.
fn push_row(columns: &mut Vec<Vec<KoalaBear>>, row: &Vec<KoalaBear>)
    requires
        row@.len() == N_TRACE_COLS,
    ensures
        final(columns)@.len() == old(columns)@.len(),
        forall|c: int|
            0 <= c < old(columns)@.len() ==> (#[trigger] final(columns)@[c])@ == if is_filled(c) {
                old(columns)@[c]@.push(row@[c])
            } else {
                old(columns)@[c]@
            },
{
    let mut c: usize = 0;
    while c < N_TRACE_COLS
        invariant
            c <= N_TRACE_COLS,
            row@.len() == N_TRACE_COLS,
            columns@.len() == old(columns)@.len(),
            forall|j: int|
                0 <= j < columns@.len() ==> (#[trigger] columns@[j])@ == if is_filled(j) && j < c {
                    old(columns)@[j]@.push(row@[j])
                } else {
                    old(columns)@[j]@
                },
        decreases N_TRACE_COLS - c,
    {
        if c < columns.len() && filled(c) {
            columns[c].push(row[c]);
        }
        c += 1;
    }
}

/// What a compression of the operands at these addresses reads from memory.
pub open spec fn trace_inputs<M: MemoryAccess>(
    memory: M,
    left_addr: int,
    right_addr: int,
    result_addr: int,
    base: int,
) -> TraceInputs {
    TraceInputs {
        left: Seq::new(8, |i: int| memory.lookup(left_addr + i)->0),
        right: Seq::new(8, |i: int| memory.lookup(right_addr + i)->0),
        left_addr,
        right_addr,
        result_addr,
        base,
    }
}

/// Whether memory holds a digest at `addr`.
pub open spec fn holds_digest<M: MemoryAccess>(memory: M, addr: int) -> bool {
    forall|i: int| 0 <= i < 8 ==> #[trigger] memory.lookup(addr + i) is Some
}

/// `e` is the first address at which no digest element stands in memory, the left operand
/// being read first.
pub open spec fn first_undefined<M: MemoryAccess>(
    memory: M,
    left_addr: int,
    right_addr: int,
    e: int,
) -> bool {
    if holds_digest(memory, left_addr) {
        &&& right_addr <= e < right_addr + 8
        &&& memory.lookup(e) is None
        &&& forall|j: int|
            0 <= j < e - right_addr ==> #[trigger] memory.lookup(right_addr + j) is Some
    } else {
        &&& left_addr <= e < left_addr + 8
        &&& memory.lookup(e) is None
        &&& forall|j: int|
            0 <= j < e - left_addr ==> #[trigger] memory.lookup(left_addr + j) is Some
    }
}

/// How many of the first `h` rows have a cell in column `c`.
spec fn rows_done(c: int, h: int) -> int {
    if is_filled(c) {
        h
    } else {
        0
    }
}

/// Generates the 14 rows of one compression and returns its output digest. Rows are wider than
/// the layout's total: columns beyond those given are left out. When an operand is not in memory
/// the columns stay as they are.
pub fn generate_compression_trace<M: MemoryAccess>(
    left_addr: usize,
    right_addr: usize,
    result_addr: usize,
    memory: &M,
    columns: &mut Vec<Vec<KoalaBear>>,
    xor_table_base: usize,
) -> (r: Result<[KoalaBear; DIGEST_LEN], RunnerError>)
    requires
        left_addr + 8 <= usize::MAX,
        right_addr + 8 <= usize::MAX,
        xor_table_base + 65535 <= usize::MAX,
    ensures
        r is Ok <==> holds_digest(*memory, left_addr as int) && holds_digest(
            *memory,
            right_addr as int,
        ),
        final(columns)@.len() == old(columns)@.len(),
        match r {
            Ok(digest) => {
                let x = trace_inputs(
                    *memory,
                    left_addr as int,
                    right_addr as int,
                    result_addr as int,
                    xor_table_base as int,
                );
                &&& forall|i: int|
                    0 <= i < DIGEST_LEN ==> #[trigger] digest@[i] == kb(
                        compressed_word(x.msg(), i) as int,
                    )
                &&& forall|c: int|
                    0 <= c < old(columns)@.len() ==> (#[trigger] final(columns)@[c])@
                        == old(columns)@[c]@ + x.column(c)
            },
            Err(RunnerError::UndefinedMemory(e)) => {
                &&& first_undefined(*memory, left_addr as int, right_addr as int, e as int)
                &&& final(columns)@ == old(columns)@
            },
        },
{
    let left = match get_slice(memory, left_addr, 8) {
        Ok(v) => v,
        Err(e) => {
            proof {
                assert(memory.lookup(left_addr + (e->UndefinedMemory_0 - left_addr)) is None);
            }
            return Err(e);
        },
    };
    let right = match get_slice(memory, right_addr, 8) {
        Ok(v) => v,
        Err(e) => {
            proof {
                assert(memory.lookup(right_addr + (e->UndefinedMemory_0 - right_addr)) is None);
            }
            return Err(e);
        },
    };
    let ghost x = trace_inputs(
        *memory,
        left_addr as int,
        right_addr as int,
        result_addr as int,
        xor_table_base as int,
    );
    let mut words = [0u32; 16];
    let mut i: usize = 0;
    while i < 8
        invariant
            i <= 8,
            left@.len() == 8,
            right@.len() == 8,
            forall|j: int| 0 <= j < i ==> #[trigger] words@[j] == monty(left@[j]),
            forall|j: int| 8 <= j < 8 + i ==> #[trigger] words@[j] == monty(right@[j - 8]),
        decreases 8 - i,
    {
        words[i] = left[i].to_unique_u32();
        words[i + 8] = right[i].to_unique_u32();
        i += 1;
    }
    proof {
        assert(left@ =~= x.left) by {
            assert forall|j: int| 0 <= j < 8 implies left@[j] == x.left[j] by {
                assert(memory.lookup(left_addr + j) == Some(left@[j]));
            }
        }
        assert(right@ =~= x.right) by {
            assert forall|j: int| 0 <= j < 8 implies right@[j] == x.right[j] by {
                assert(memory.lookup(right_addr + j) == Some(right@[j]));
            }
        }
        assert(words@ =~= x.msg());
    }
    let operands = Operands { left, right, left_addr, right_addr, words };
    let mut state = blake3_initial_state();
    let mut h: usize = 0;
    assert(forall|c: int| 0 <= c < columns@.len() ==> (#[trigger] columns@[c])@ =~= old(
        columns,
    )@[c]@ + x.column(c).take(0));
    while h < 2 * ROUNDS_PER_COMPRESSION
        invariant
            h <= 14,
            operands.hold(x),
            x.base == xor_table_base,
            x.left_addr == left_addr,
            x.right_addr == right_addr,
            x.result_addr == result_addr,
            xor_table_base + 65535 <= usize::MAX,
            state@ == state_before(x.msg(), h as int),
            columns@.len() == old(columns)@.len(),
            forall|c: int|
                0 <= c < columns@.len() ==> (#[trigger] columns@[c])@ == old(columns)@[c]@
                    + x.column(c).take(rows_done(c, h as int)),
        decreases 14 - h,
    {
        let mut row: Vec<KoalaBear> = vec![KoalaBear::zero(); N_TRACE_COLS];
        fill_state(&mut row, 0, &state);
        fill_half_round(&mut row, &mut state, h, &operands, xor_table_base, Ghost(x));
        fill_state(&mut row, COL_OUTPUT_STATE_START, &state);
        fill_control(&mut row, h, left_addr, right_addr, result_addr);
        assert forall|c: int| is_filled(c) implies #[trigger] row@[c] == x.cell(h as int, c) by {}
        let ghost columns0 = columns@;
        push_row(columns, &row);
        proof {
            assert forall|c: int| 0 <= c < columns@.len() implies (#[trigger] columns@[c])@ == old(
                columns,
            )@[c]@ + x.column(c).take(rows_done(c, h + 1)) by {
                assert(columns0[c]@ == old(columns)@[c]@ + x.column(c).take(
                    rows_done(c, h as int),
                ));
                if is_filled(c) {
                    assert(x.column(c).take(h + 1) =~= x.column(c).take(h as int).push(
                        x.cell(h as int, c),
                    ));
                    assert(columns@[c]@ =~= old(columns)@[c]@ + x.column(c).take(h + 1));
                }
            }
        }
        h += 1;
    }
    let mut output = [KoalaBear::zero(); DIGEST_LEN];
    let mut i: usize = 0;
    while i < 8
        invariant
            i <= 8,
            state@ == state_before(x.msg(), 14),
            forall|j: int|
                0 <= j < i ==> #[trigger] output@[j] == kb(compressed_word(x.msg(), j) as int),
        decreases 8 - i,
    {
        let finalized: u32 = state[i] ^ state[i + 8];
        output[i] = KoalaBear::from_u32(finalized);
        i += 1;
    }
    proof {
        assert forall|c: int| 0 <= c < columns@.len() implies (#[trigger] columns@[c])@ == old(
            columns,
        )@[c]@ + x.column(c) by {
            assert(x.column(c).take(rows_done(c, 14)) =~= x.column(c));
        }
        assert forall|i: int| 0 <= i < 8 implies #[trigger] memory.lookup(left_addr + i) is Some by {
            assert(memory.lookup(left_addr + i) == Some(left@[i]));
        }
    }
    Ok(output)
}

} // verus!
