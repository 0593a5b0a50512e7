//! What the constrained Blake3 table guarantees.
//!
//! A G-function's constraints hold where its columns hold what it computes, from any input words. The
//! digest the generator returns is the native one. Every row it produces, of a column or a diagonal
//! quarter-round, satisfies the constraints of its G-functions, of the output state, of the control
//! bits and of the link to the next row, but for the constraints on the lookup addresses of the first
//! three XORs: the generator leaves those columns empty, and where they are filled with the
//! addresses these constraints hold too. A padding row satisfies every constraint, whatever row
//! follows.

use crate::blake3_hash::{
    bytes_to_elements, element_bytes, lemma_block_words, lemma_digest_words, single_block_digest,
};
use crate::field::{kb, monty, residue, KoalaBear, Ring, ORDER_U32};
use crate::ring::{lemma_minus_self, lemma_zero_times};
use crate::tables::constrained_air::{
    add1_carry_hi, add1_carry_lo, add2_carry_hi, add2_carry_lo, add4_carry_hi, add4_carry_lo,
    b1_byte, bool_constraint, bytes_constraint, carry_of, first_sum_constraints, g_cell,
    g_constraints, g_limb, g_outputs, last_addr_constraint, limb_of_bytes, message_constraint,
    quarter_round_constraints, reads_moving_words, rot_cell, rotation_constraints, scaled, selected,
    split_constraint, ternary_constraint, xor4_nibble, xor_addr_constraint, INV_65536, R_CONST,
};
use crate::tables::constrained_cols::{
    col_qr, diag_qr, g_column, output_state_column, state_column, COLS_PER_G, COL_FLAG_ACTIVE,
    COL_G_START, COL_IS_COLUMN_QR, COL_IS_FIRST_ROW, COL_IS_LAST_ROW, COL_LEFT_ADDR,
    COL_OUTPUT_STATE_START, COL_RESULT_ADDR, COL_RIGHT_ADDR, COL_ROT_START, G_ADD1_BYTES,
    G_ADD2_BYTES, G_ADD3_BYTES, G_ADD4_BYTES, G_B_BYTES, G_CARRY_ROT7, G_D_BYTES, G_MX_ADDR,
    G_MX_BYTES, G_MX_VALUE, G_MY_ADDR, G_MY_BYTES, G_MY_VALUE, G_XOR2_ADDRS, G_XOR2_BYTES,
    G_XOR4_ADDRS, G_XOR4_B0_SPLIT, G_XOR4_B2_SPLIT, G_XOR4_B3_SPLIT, G_XOR4_BYTES, G_XOR4_SPLIT,
    G_XOR6_ADDRS, G_XOR6_BYTES, G_XOR8_ADDRS, G_XOR8_BYTES, G_XOR8_SPLIT, N_COMMITTED_COLS,
    N_ROT_COLS, ROT_COLS_PER_G,
};
use crate::tables::constrained_table::{
    constrained_padding, down_constraint, g_row_constraints, g_rows_constraints, law_constraint_count,
    lemma_g_row_len, output_constraint, row_constraints,
};
use crate::tables::constrained_trace::{
    after_gs, compressed_word, g_offset_filled, is_filled, lemma_later_words_untouched,
    lemma_state_len, qr_words, state_before, GInput, TraceInputs,
};
use crate::tables::g_function::{carry_hi, carry_lo, g_steps, law_carry_chain, xor_addr};
use crate::word::{byte_of, law_bytes_of_word, law_rotations, limb, limb_hi, limb_lo, rotr, sum32};
use vstd::prelude::*;

verus! {

/// A limb less its two bytes is zero.
proof fn lemma_bytes_zero<R: Ring>(limb: int, low: int, high: int, modulus: int)
    requires
        limb == low + modulus * high,
    ensures
        R::of(limb).minus(R::of(low)).minus(scaled(R::of(high), modulus)) == R::ring_zero(),
{
    R::law_of(limb, low);
    R::law_of(high, modulus);
    R::law_of(limb - low, high * modulus);
    assert(high * modulus == modulus * high) by (nonlinear_arith);
}

/// Two bytes make up a limb.
proof fn lemma_limb_of_bytes<R: Ring>(low: int, high: int)
    ensures
        limb_of_bytes(R::of(low), R::of(high)) == R::of(low + 256 * high),
{
    R::law_of(high, 256);
    R::law_of(low, high * 256);
}

/// An address less the base and the bytes it is made of is zero.
proof fn lemma_addr_zero<R: Ring>(base: int, first: int, second: int)
    ensures
        R::of(base + 256 * first + second).minus(R::of(base)).minus(scaled(R::of(first), 256)).minus(
            R::of(second),
        ) == R::ring_zero(),
{
    let addr = base + 256 * first + second;
    R::law_of(addr, base);
    R::law_of(first, 256);
    R::law_of(addr - base, first * 256);
    R::law_of(addr - base - first * 256, second);
}

/// Small values meet the constraints on bits and carries.
proof fn lemma_small_constraints<R: Ring>(c: int)
    ensures
        0 <= c <= 2 ==> ternary_constraint(R::of(c)) == R::ring_zero(),
        0 <= c <= 1 ==> bool_constraint(R::of(c)) == R::ring_zero(),
{
    R::law_of(c, 1);
    R::law_of(c, c - 1);
    R::law_of(c, 2);
    R::law_of(c * (c - 1), c - 2);
    if 0 <= c <= 2 {
        assert(c * (c - 1) * (c - 2) == 0) by (nonlinear_arith)
            requires
                0 <= c <= 2,
        ;
    }
    if 0 <= c <= 1 {
        assert(c * (c - 1) == 0) by (nonlinear_arith)
            requires
                0 <= c <= 1,
        ;
    }
}

pub proof fn lemma_sum3<R: Ring>(x: int, y: int, z: int)
    ensures
        R::of(x).plus(R::of(y)).plus(R::of(z)) == R::of(x + y + z),
        R::of(x).plus(R::of(y)) == R::of(x + y),
{
    R::law_of(x, y);
    R::law_of(x + y, z);
}

pub proof fn lemma_sum4<R: Ring>(x: int, y: int, z: int, t: int)
    ensures
        R::of(x).plus(R::of(y)).plus(R::of(z)).plus(R::of(t)) == R::of(x + y + z + t),
{
    lemma_sum3::<R>(x, y, z);
    R::law_of(x + y + z, t);
}

/// The digest the trace generator returns is the one the native compression of the same operands
/// returns.
pub proof fn law_trace_output_is_native_digest(x: TraceInputs)
    requires
        x.left.len() == 8,
        x.right.len() == 8,
    ensures
        bytes_to_elements(single_block_digest(element_bytes(x.left + x.right)), 8) == Seq::new(
            8,
            |i: int| kb(compressed_word(x.msg(), i) as int),
        ),
{
    let s = x.left + x.right;
    let block = element_bytes(s);
    lemma_block_words(s);
    assert(Seq::new(16, |i: int| monty(s[i])) =~= x.msg());
    assert forall|i: int| 0 <= i < 8 implies from_le_word(block, i) == compressed_word(
        x.msg(),
        i,
    ) by {
        lemma_digest_words(block, i);
    }
    assert(bytes_to_elements(single_block_digest(block), 8) =~= Seq::new(
        8,
        |i: int| kb(compressed_word(x.msg(), i) as int),
    )) by {
        assert forall|i: int| 0 <= i < 8 implies bytes_to_elements(
            single_block_digest(block),
            8,
        )[i] == kb(compressed_word(x.msg(), i) as int) by {
            assert(from_le_word(block, i) == compressed_word(x.msg(), i));
        }
    }
}

spec fn from_le_word(block: Seq<u8>, i: int) -> u32 {
    crate::word::from_le(single_block_digest(block).skip(4 * i))
}

/// `up` begins with the committed columns of row `h` of the trace of `x`, in those that the
/// generator fills.
pub open spec fn is_trace_row(x: TraceInputs, h: int, up: Seq<KoalaBear>) -> bool {
    &&& up.len() >= N_COMMITTED_COLS
    &&& forall|c: int|
        is_filled(c) && c < N_COMMITTED_COLS ==> #[trigger] up[c] == x.cell(h, c)
}

/// `rot` begins with the rotation columns of row `h` of the trace of `x`.
pub open spec fn is_rotation_part(x: TraceInputs, h: int, rot: Seq<KoalaBear>) -> bool {
    &&& rot.len() >= N_ROT_COLS
    &&& forall|i: int| 0 <= i < N_ROT_COLS ==> #[trigger] rot[i] == x.cell(h, COL_ROT_START + i)
}

/// The operands are proper field elements.
pub open spec fn operands_canonical(x: TraceInputs) -> bool {
    &&& x.left.len() == 8
    &&& x.right.len() == 8
    &&& forall|i: int| 0 <= i < 8 ==> (#[trigger] x.left[i]).canonical()
    &&& forall|i: int| 0 <= i < 8 ==> (#[trigger] x.right[i]).canonical()
}

/// The field element `value` stands for the message word `word`: the word is congruent to its
/// Montgomery form.
pub open spec fn stands_for(value: KoalaBear, word: u32) -> bool {
    &&& value.canonical()
    &&& residue(value.value * 0x1_0000_0000) == residue(word as int)
}

/// The bytes of a word that `value` stands for meet the message constraint.
proof fn lemma_message(value: KoalaBear, w: u32)
    requires
        stands_for(value, w),
    ensures
        scaled(value, R_CONST as int).minus(kb(byte_of(w, 0) as int)).minus(
            scaled(kb(byte_of(w, 1) as int), 256),
        ).minus(scaled(kb(byte_of(w, 2) as int), 65536)).minus(
            scaled(kb(byte_of(w, 3) as int), 16777216),
        ) == kb(0),
{
    let v = value.value as int;
    let (b0, b1, b2, b3) = (
        byte_of(w, 0) as int,
        byte_of(w, 1) as int,
        byte_of(w, 2) as int,
        byte_of(w, 3) as int,
    );
    law_bytes_of_word(w);
    let n = v * R_CONST - b0 - b1 * 256 - b2 * 65536 - b3 * 16777216;
    lemma_message_sum::<KoalaBear>(v, b0, b1, b2, b3);
    assert(value == kb(v)) by {
        vstd::arithmetic::div_mod::lemma_small_mod(v as nat, ORDER_U32 as nat);
    }
    assert(n == v * 0x1_0000_0000 - w - v * ORDER_U32);
    assert(residue(n) == 0) by {
        let big = v * 0x1_0000_0000;
        let p = ORDER_U32 as int;
        vstd::arithmetic::div_mod::lemma_fundamental_div_mod(big, p);
        vstd::arithmetic::div_mod::lemma_fundamental_div_mod(w as int, p);
        let (q, t) = (big / p, w as int / p);
        assert(n == (q - t - v) * p) by (nonlinear_arith)
            requires
                n == big - w - v * p,
                big == p * q + big % p,
                w == p * t + w as int % p,
                big % p == w as int % p,
        ;
        vstd::arithmetic::div_mod::lemma_mod_multiples_basic(q - t - v, p);
    }
}

pub proof fn lemma_message_sum<R: Ring>(v: int, b0: int, b1: int, b2: int, b3: int)
    ensures
        scaled(R::of(v), R_CONST as int).minus(R::of(b0)).minus(scaled(R::of(b1), 256)).minus(
            scaled(R::of(b2), 65536),
        ).minus(scaled(R::of(b3), 16777216)) == R::of(
            v * R_CONST - b0 - b1 * 256 - b2 * 65536 - b3 * 16777216,
        ),
{
    R::law_of(v, R_CONST as int);
    R::law_of(b1, 256);
    R::law_of(b2, 65536);
    R::law_of(b3, 16777216);
    R::law_of(v * R_CONST, b0);
    R::law_of(v * R_CONST - b0, b1 * 256);
    R::law_of(v * R_CONST - b0 - b1 * 256, b2 * 65536);
    R::law_of(v * R_CONST - b0 - b1 * 256 - b2 * 65536, b3 * 16777216);
}

/// A carry chain gives back its carry.
proof fn lemma_carry(t: int, r: int, c: int)
    requires
        t == r + 65536 * c,
    ensures
        carry_of(kb(t), kb(r)) == kb(c),
{
    let p = ORDER_U32 as int;
    KoalaBear::law_of(t, r);
    KoalaBear::law_of(t - r, INV_65536 as int);
    assert((t - r) * INV_65536 == p * (65535 * c) + c) by (nonlinear_arith)
        requires
            t == r + 65536 * c,
            p == 2_130_706_433,
            INV_65536 == 2_130_673_921,
    ;
    vstd::arithmetic::div_mod::lemma_mod_multiples_vanish(65535 * c, c, p);
}

/// The columns of G-function `g` hold the values that it computes from `y`, in those that the
/// generator fills.
pub open spec fn holds_values(y: GInput, g: int, up: Seq<KoalaBear>, rot: Seq<KoalaBear>) -> bool {
    &&& forall|o: int|
        0 <= o < COLS_PER_G && g_offset_filled(o) ==> #[trigger] g_cell(up, g, o) == y.cell(o)
    &&& forall|o: int|
        0 <= o < ROT_COLS_PER_G ==> #[trigger] rot_cell(rot, g, o) == y.rot_cell(o)
}

/// The state columns of the words `a`, `b`, `c` and `d` hold the limbs of the words of `y`.
pub open spec fn holds_words(
    y: GInput,
    a: int,
    b: int,
    c: int,
    d: int,
    up: Seq<KoalaBear>,
) -> bool {
    &&& up[state_column(a, 0)] == kb(limb_lo(y.a) as int)
    &&& up[state_column(a, 1)] == kb(limb_hi(y.a) as int)
    &&& up[state_column(b, 0)] == kb(limb_lo(y.b) as int)
    &&& up[state_column(b, 1)] == kb(limb_hi(y.b) as int)
    &&& up[state_column(c, 0)] == kb(limb_lo(y.c) as int)
    &&& up[state_column(c, 1)] == kb(limb_hi(y.c) as int)
    &&& up[state_column(d, 0)] == kb(limb_lo(y.d) as int)
    &&& up[state_column(d, 1)] == kb(limb_hi(y.d) as int)
}

/// The address columns of the first three XORs of G-function `g` hold the addresses of their
/// lookups.
pub open spec fn holds_addresses(y: GInput, g: int, up: Seq<KoalaBear>) -> bool {
    let s = y.steps();
    &&& forall|i: int|
        0 <= i < 4 ==> #[trigger] g_cell(up, g, G_XOR2_ADDRS + i) == kb(
            xor_addr(y.d, s.a1, y.base, i),
        )
    &&& forall|i: int|
        0 <= i < 4 ==> #[trigger] g_cell(up, g, G_XOR4_ADDRS + i) == kb(
            xor_addr(y.b, s.c1, y.base, i),
        )
    &&& forall|i: int|
        0 <= i < 4 ==> #[trigger] g_cell(up, g, G_XOR6_ADDRS + i) == kb(
            xor_addr(s.d1, s.a2, y.base, i),
        )
}

/// The columns of a G-function hold the cells of its input.
proof fn lemma_g_cells(x: TraceInputs, h: int, g: int, up: Seq<KoalaBear>)
    requires
        is_trace_row(x, h, up),
        0 <= g < 4,
    ensures
        forall|o: int|
            0 <= o < COLS_PER_G && g_offset_filled(o) ==> #[trigger] g_cell(up, g, o) == x.g_input(
                h,
                g,
            ).cell(o),
{
    assert forall|o: int| 0 <= o < COLS_PER_G && g_offset_filled(o) implies #[trigger] g_cell(
        up,
        g,
        o,
    ) == x.g_input(h, g).cell(o) by {
        let c = g_column(g, o);
        assert((c - COL_G_START) / 72 == g && (c - COL_G_START) % 72 == o);
        assert(is_filled(c));
        assert(up[c] == x.cell(h, c));
    }
}

/// The rotation columns of a G-function hold the cells of its input.
proof fn lemma_rot_cells(x: TraceInputs, h: int, g: int, rot: Seq<KoalaBear>)
    requires
        is_rotation_part(x, h, rot),
        0 <= g < 4,
    ensures
        forall|o: int|
            0 <= o < ROT_COLS_PER_G ==> #[trigger] rot_cell(rot, g, o) == x.g_input(
                h,
                g,
            ).rot_cell(o),
{
    assert forall|o: int| 0 <= o < ROT_COLS_PER_G implies #[trigger] rot_cell(rot, g, o)
        == x.g_input(h, g).rot_cell(o) by {
        let i = g * ROT_COLS_PER_G + o;
        assert(i / 7 == g && i % 7 == o);
        assert(rot[i] == x.cell(h, COL_ROT_START + i));
    }
}

/// The state columns of a G-function's words hold the limbs of its input words.
proof fn lemma_state_cells(x: TraceInputs, h: int, g: int, up: Seq<KoalaBear>)
    requires
        is_trace_row(x, h, up),
        0 <= h < 14,
        0 <= g < 4,
    ensures
        ({
            let w = qr_words(h, g);
            holds_words(x.g_input(h, g), w.0, w.1, w.2, w.3, up)
        }),
{
    let msg = x.msg();
    lemma_state_len(msg, h);
    lemma_later_words_untouched(state_before(msg, h), msg, h, g);
    let w = qr_words(h, g);
    assert forall|v: int, l: int| 0 <= v < 16 && 0 <= l < 2 implies up[#[trigger] state_column(
        v,
        l,
    )] == kb(limb(state_before(msg, h)[v], l) as int) by {
        let c = state_column(v, l);
        assert(c / 2 == v && c % 2 == l);
        assert(is_filled(c));
    }
}

/// Quotients and remainders of a word by its bytes.
proof fn lemma_quotients(x: u32)
    ensures
        ({
            let (b0, b1, b2, b3) = (
                byte_of(x, 0) as int,
                byte_of(x, 1) as int,
                byte_of(x, 2) as int,
                byte_of(x, 3) as int,
            );
            &&& x / 65536 == b2 + 256 * b3
            &&& x % 65536 == b0 + 256 * b1
            &&& x / 256 == b1 + 256 * b2 + 65536 * b3
            &&& x % 256 == b0
            &&& x / 128 == b0 / 128 + 2 * b1 + 512 * b2 + 131072 * b3
            &&& x % 128 == b0 % 128
        }),
{
    law_bytes_of_word(x);
    let (b0, b1, b2, b3) = (
        byte_of(x, 0) as int,
        byte_of(x, 1) as int,
        byte_of(x, 2) as int,
        byte_of(x, 3) as int,
    );
    assert(x == b0 + 256 * (b1 + 256 * b2 + 65536 * b3));
    assert(x == (b0 + 256 * b1) + 65536 * (b2 + 256 * b3));
    assert(x == b0 % 128 + 128 * (b0 / 128 + 2 * b1 + 512 * b2 + 131072 * b3));
}

proof fn lemma_limbs(x: u32, lo: int, hi: int)
    requires
        x == lo + 65536 * hi,
        0 <= lo < 65536,
    ensures
        limb_lo(x) == lo,
        limb_hi(x) == hi,
{
}

/// The limbs of a rotated word, by the bytes of the word.
proof fn lemma_rotated_limbs(x: u32)
    ensures
        limb_lo(rotr(x, 16)) == byte_of(x, 2) + 256 * byte_of(x, 3),
        limb_hi(rotr(x, 16)) == byte_of(x, 0) + 256 * byte_of(x, 1),
        limb_lo(rotr(x, 8)) == byte_of(x, 1) + 256 * byte_of(x, 2),
        limb_hi(rotr(x, 8)) == byte_of(x, 3) + 256 * byte_of(x, 0),
{
    let (r16, r8) = (rotr(x, 16), rotr(x, 8));
    let (b0, b1, b2, b3) = (
        byte_of(x, 0) as int,
        byte_of(x, 1) as int,
        byte_of(x, 2) as int,
        byte_of(x, 3) as int,
    );
    law_rotations(x);
    lemma_quotients(x);
    law_bytes_of_word(x);
    lemma_limbs(r16, b2 + 256 * b3, b0 + 256 * b1);
    lemma_limbs(r8, b1 + 256 * b2, b3 + 256 * b0);
}

/// The limbs of a word rotated by 7, by the bytes of the word and the bit that crosses from the
/// low limb to the high one.
pub proof fn lemma_rotated_limbs_7(x: u32)
    ensures
        ({
            let raw = byte_of(x, 0) / 128 + 2 * byte_of(x, 1) + 512 * byte_of(x, 2);
            &&& limb_lo(rotr(x, 7)) == raw - 65536 * (raw / 65536)
            &&& limb_hi(rotr(x, 7)) == raw / 65536 + 2 * byte_of(x, 3) + 512 * (byte_of(x, 0)
                % 128)
            &&& 0 <= raw / 65536 <= 1
        }),
{
    let r7 = rotr(x, 7);
    let (b0, b1, b2, b3) = (
        byte_of(x, 0) as int,
        byte_of(x, 1) as int,
        byte_of(x, 2) as int,
        byte_of(x, 3) as int,
    );
    law_rotations(x);
    lemma_quotients(x);
    law_bytes_of_word(x);
    let raw = b0 / 128 + 2 * b1 + 512 * b2;
    let q = raw / 65536;
    lemma_limbs(r7, raw % 65536, q + 2 * b3 + 512 * (b0 % 128));
}

/// The constraints of a G-function that read only columns which the generator fills: all but those
/// on the lookup addresses of the first three XORs. Positions in [`g_constraints`].
pub open spec fn on_filled_columns(i: int) -> bool {
    0 <= i < 6 || 10 <= i < 14 || i == 18 || 23 <= i < 31
}

/// The limbs that the byte columns of a G-function make up.
proof fn lemma_limb_cells(i: GInput, g: int, up: Seq<KoalaBear>, rot: Seq<KoalaBear>)
    requires
        holds_values(i, g, up, rot),
    ensures
        ({
            let s = i.steps();
            &&& g_limb(up, g, G_B_BYTES as int, G_B_BYTES + 1) == kb(limb_lo(i.b) as int)
            &&& g_limb(up, g, G_B_BYTES + 2, G_B_BYTES + 3) == kb(limb_hi(i.b) as int)
            &&& g_limb(up, g, G_MX_BYTES as int, G_MX_BYTES + 1) == kb(limb_lo(i.mx) as int)
            &&& g_limb(up, g, G_MX_BYTES + 2, G_MX_BYTES + 3) == kb(limb_hi(i.mx) as int)
            &&& g_limb(up, g, G_ADD1_BYTES as int, G_ADD1_BYTES + 1) == kb(limb_lo(s.a1) as int)
            &&& g_limb(up, g, G_ADD1_BYTES + 2, G_ADD1_BYTES + 3) == kb(limb_hi(s.a1) as int)
            &&& g_limb(up, g, G_ADD2_BYTES as int, G_ADD2_BYTES + 1) == kb(limb_lo(s.c1) as int)
            &&& g_limb(up, g, G_ADD2_BYTES + 2, G_ADD2_BYTES + 3) == kb(limb_hi(s.c1) as int)
            &&& g_limb(up, g, G_ADD3_BYTES as int, G_ADD3_BYTES + 1) == kb(limb_lo(s.a2) as int)
            &&& g_limb(up, g, G_ADD3_BYTES + 2, G_ADD3_BYTES + 3) == kb(limb_hi(s.a2) as int)
            &&& g_limb(up, g, G_ADD4_BYTES as int, G_ADD4_BYTES + 1) == kb(limb_lo(s.c2) as int)
            &&& g_limb(up, g, G_ADD4_BYTES + 2, G_ADD4_BYTES + 3) == kb(limb_hi(s.c2) as int)
            &&& g_limb(up, g, G_XOR2_BYTES + 2, G_XOR2_BYTES + 3) == kb(limb_lo(s.d1) as int)
            &&& g_limb(up, g, G_XOR2_BYTES as int, G_XOR2_BYTES + 1) == kb(limb_hi(s.d1) as int)
            &&& g_limb(up, g, G_XOR6_BYTES + 1, G_XOR6_BYTES + 2) == kb(limb_lo(s.d2) as int)
            &&& g_limb(up, g, G_XOR6_BYTES + 3, G_XOR6_BYTES as int) == kb(limb_hi(s.d2) as int)
        }),
{
    let s = i.steps();
    lemma_steps(i);
    lemma_limbs_of_word(i.b);
    lemma_limbs_of_word(i.mx);
    lemma_limbs_of_word(s.a1);
    lemma_limbs_of_word(s.c1);
    lemma_limbs_of_word(s.a2);
    lemma_limbs_of_word(s.c2);
    lemma_limbs_of_rotation(i.d ^ s.a1);
    lemma_limbs_of_rotation(s.d1 ^ s.a2);
}

pub proof fn lemma_limbs_of_word(w: u32)
    ensures
        limb_of_bytes(kb(byte_of(w, 0) as int), kb(byte_of(w, 1) as int)) == kb(limb_lo(w) as int),
        limb_of_bytes(kb(byte_of(w, 2) as int), kb(byte_of(w, 3) as int)) == kb(limb_hi(w) as int),
{
    law_bytes_of_word(w);
    lemma_limb_of_bytes::<KoalaBear>(byte_of(w, 0) as int, byte_of(w, 1) as int);
    lemma_limb_of_bytes::<KoalaBear>(byte_of(w, 2) as int, byte_of(w, 3) as int);
}

pub proof fn lemma_limbs_of_rotation(w: u32)
    ensures
        limb_of_bytes(kb(byte_of(w, 2) as int), kb(byte_of(w, 3) as int)) == kb(
            limb_lo(rotr(w, 16)) as int,
        ),
        limb_of_bytes(kb(byte_of(w, 0) as int), kb(byte_of(w, 1) as int)) == kb(
            limb_hi(rotr(w, 16)) as int,
        ),
        limb_of_bytes(kb(byte_of(w, 1) as int), kb(byte_of(w, 2) as int)) == kb(
            limb_lo(rotr(w, 8)) as int,
        ),
        limb_of_bytes(kb(byte_of(w, 3) as int), kb(byte_of(w, 0) as int)) == kb(
            limb_hi(rotr(w, 8)) as int,
        ),
{
    lemma_rotated_limbs(w);
    lemma_limb_of_bytes::<KoalaBear>(byte_of(w, 2) as int, byte_of(w, 3) as int);
    lemma_limb_of_bytes::<KoalaBear>(byte_of(w, 0) as int, byte_of(w, 1) as int);
    lemma_limb_of_bytes::<KoalaBear>(byte_of(w, 1) as int, byte_of(w, 2) as int);
    lemma_limb_of_bytes::<KoalaBear>(byte_of(w, 3) as int, byte_of(w, 0) as int);
}

/// The words a G-function computes, by its definition.
proof fn lemma_steps(i: GInput)
    ensures
        ({
            let s = i.steps();
            &&& s.a1 == sum32(i.a + i.b, i.mx as int)
            &&& s.d1 == rotr(i.d ^ s.a1, 16)
            &&& s.c1 == sum32(i.c as int, s.d1 as int)
            &&& s.b1 == rotr(i.b ^ s.c1, 12)
            &&& s.d2 == rotr(s.d1 ^ s.a2, 8)
            &&& s.c2 == sum32(s.c1 as int, s.d2 as int)
            &&& s.b2 == rotr(s.b1 ^ s.c2, 7)
        }),
{
    reveal(g_steps);
}

proof fn lemma_carries_1(
    i: GInput,
    g: int,
    a: int,
    b_lo: KoalaBear,
    b_hi: KoalaBear,
    up: Seq<KoalaBear>,
    rot: Seq<KoalaBear>,
)
    requires
        holds_values(i, g, up, rot),
        up[state_column(a, 0)] == kb(limb_lo(i.a) as int),
        up[state_column(a, 1)] == kb(limb_hi(i.a) as int),
        b_lo == kb(limb_lo(i.b) as int),
        b_hi == kb(limb_hi(i.b) as int),
    ensures
        ternary_constraint(add1_carry_lo(up, g, a, b_lo)) == kb(0),
        ternary_constraint(add1_carry_hi(up, g, a, b_lo, b_hi)) == kb(0),
{
    let s = i.steps();
    lemma_steps(i);
    lemma_limb_cells(i, g, up, rot);
    law_carry_chain(i.a, i.b, i.mx);
    let lo = carry_lo(i.a, i.b, i.mx);
    let hi = carry_hi(i.a, i.b, i.mx);
    lemma_sum3::<KoalaBear>(limb_lo(i.a) as int, limb_lo(i.b) as int, limb_lo(i.mx) as int);
    lemma_sum4::<KoalaBear>(limb_hi(i.a) as int, limb_hi(i.b) as int, limb_hi(i.mx) as int, lo);
    lemma_carry(limb_lo(i.a) + limb_lo(i.b) + limb_lo(i.mx), limb_lo(s.a1) as int, lo);
    assert(add1_carry_lo(up, g, a, b_lo) == kb(lo));
    lemma_carry(limb_hi(i.a) + limb_hi(i.b) + limb_hi(i.mx) + lo, limb_hi(s.a1) as int, hi);
    assert(add1_carry_hi(up, g, a, b_lo, b_hi) == kb(hi));
    lemma_small_constraints::<KoalaBear>(lo);
    lemma_small_constraints::<KoalaBear>(hi);
}

proof fn lemma_carries_2(
    i: GInput,
    g: int,
    c: int,
    up: Seq<KoalaBear>,
    rot: Seq<KoalaBear>,
)
    requires
        holds_values(i, g, up, rot),
        up[state_column(c, 0)] == kb(limb_lo(i.c) as int),
        up[state_column(c, 1)] == kb(limb_hi(i.c) as int),
    ensures
        bool_constraint(add2_carry_lo(up, g, c)) == kb(0),
        bool_constraint(add2_carry_hi(up, g, c)) == kb(0),
{
    let s = i.steps();
    lemma_steps(i);
    lemma_limb_cells(i, g, up, rot);
    law_carry_chain(i.c, s.d1, 0);
    let lo = carry_lo(i.c, s.d1, 0);
    let hi = carry_hi(i.c, s.d1, 0);
    lemma_sum3::<KoalaBear>(limb_lo(i.c) as int, limb_lo(s.d1) as int, 0);
    lemma_sum3::<KoalaBear>(limb_hi(i.c) as int, limb_hi(s.d1) as int, lo);
    lemma_carry(limb_lo(i.c) + limb_lo(s.d1), limb_lo(s.c1) as int, lo);
    assert(add2_carry_lo(up, g, c) == kb(lo));
    lemma_carry(limb_hi(i.c) + limb_hi(s.d1) + lo, limb_hi(s.c1) as int, hi);
    assert(add2_carry_hi(up, g, c) == kb(hi));
    lemma_small_constraints::<KoalaBear>(lo);
    lemma_small_constraints::<KoalaBear>(hi);
}

proof fn lemma_carries_4(i: GInput, g: int, up: Seq<KoalaBear>, rot: Seq<KoalaBear>)
    requires
        holds_values(i, g, up, rot),
    ensures
        bool_constraint(add4_carry_lo(up, g)) == kb(0),
        bool_constraint(add4_carry_hi(up, g)) == kb(0),
{
    let s = i.steps();
    lemma_steps(i);
    lemma_limb_cells(i, g, up, rot);
    law_carry_chain(s.c1, s.d2, 0);
    let lo = carry_lo(s.c1, s.d2, 0);
    let hi = carry_hi(s.c1, s.d2, 0);
    lemma_sum3::<KoalaBear>(limb_lo(s.c1) as int, limb_lo(s.d2) as int, 0);
    lemma_sum3::<KoalaBear>(limb_hi(s.c1) as int, limb_hi(s.d2) as int, lo);
    lemma_carry(limb_lo(s.c1) + limb_lo(s.d2), limb_lo(s.c2) as int, lo);
    assert(add4_carry_lo(up, g) == kb(lo));
    lemma_carry(limb_hi(s.c1) + limb_hi(s.d2) + lo, limb_hi(s.c2) as int, hi);
    assert(add4_carry_hi(up, g) == kb(hi));
    lemma_small_constraints::<KoalaBear>(lo);
    lemma_small_constraints::<KoalaBear>(hi);
}

proof fn lemma_byte_constraints(
    i: GInput,
    g: int,
    a: int,
    b: int,
    c: int,
    d: int,
    up: Seq<KoalaBear>,
    rot: Seq<KoalaBear>,
)
    requires
        holds_values(i, g, up, rot),
        holds_words(i, a, b, c, d, up),
        stands_for(i.mx_value, i.mx),
        stands_for(i.my_value, i.my),
    ensures
        ({
            &&& message_constraint(up, g, G_MX_VALUE as int, G_MX_BYTES as int) == kb(0)
            &&& message_constraint(up, g, G_MY_VALUE as int, G_MY_BYTES as int) == kb(0)
            &&& bytes_constraint(
                up,
                g,
                up[state_column(d, 0)],
                G_D_BYTES as int,
                G_D_BYTES + 1,
            ) == kb(0)
            &&& bytes_constraint(up, g, up[state_column(d, 1)], G_D_BYTES + 2, G_D_BYTES + 3)
                == kb(0)
            &&& bytes_constraint(
                up,
                g,
                up[state_column(b, 0)],
                G_B_BYTES as int,
                G_B_BYTES + 1,
            ) == kb(0)
            &&& bytes_constraint(up, g, up[state_column(b, 1)], G_B_BYTES + 2, G_B_BYTES + 3)
                == kb(0)
            &&& split_constraint(up, g, G_XOR4_BYTES + 1, G_XOR4_SPLIT as int, 16) == kb(0)
            &&& split_constraint(up, g, G_XOR8_BYTES as int, G_XOR8_SPLIT as int, 128) == kb(0)
            &&& bool_constraint(g_cell(up, g, G_XOR8_SPLIT + 1)) == kb(0)
        }),
{
    let s = i.steps();
    let (xor4, xor8) = (i.b ^ s.c1, s.b1 ^ s.c2);
    lemma_message(i.mx_value, i.mx);
    lemma_message(i.my_value, i.my);
    lemma_word_bytes_zero(i.d);
    lemma_word_bytes_zero(i.b);
    let (n1, m0) = (byte_of(xor4, 1) as int, byte_of(xor8, 0) as int);
    lemma_bytes_zero::<KoalaBear>(n1, n1 % 16, n1 / 16, 16);
    lemma_bytes_zero::<KoalaBear>(m0, m0 % 128, m0 / 128, 128);
    law_bytes_of_word(xor8);
    lemma_small_constraints::<KoalaBear>(m0 / 128);
}

proof fn lemma_word_bytes_zero(w: u32)
    ensures
        kb(limb_lo(w) as int).minus(kb(byte_of(w, 0) as int)).minus(
            scaled(kb(byte_of(w, 1) as int), 256),
        ) == kb(0),
        kb(limb_hi(w) as int).minus(kb(byte_of(w, 2) as int)).minus(
            scaled(kb(byte_of(w, 3) as int), 256),
        ) == kb(0),
{
    law_bytes_of_word(w);
    lemma_bytes_zero::<KoalaBear>(
        limb_lo(w) as int,
        byte_of(w, 0) as int,
        byte_of(w, 1) as int,
        256,
    );
    lemma_bytes_zero::<KoalaBear>(
        limb_hi(w) as int,
        byte_of(w, 2) as int,
        byte_of(w, 3) as int,
        256,
    );
}

/// Which constraint stands where in [`g_constraints`].
pub proof fn lemma_constraint_positions<R: Ring>(
    up: Seq<R>,
    rot: Seq<R>,
    g: int,
    a: int,
    b: int,
    c: int,
    d: int,
    base: R,
)
    ensures
        ({
            let cs = g_constraints(up, rot, g, a, b, c, d, base);
            &&& cs.len() == 31
            &&& cs[0] == message_constraint(up, g, G_MX_VALUE as int, G_MX_BYTES as int)
            &&& cs[1] == message_constraint(up, g, G_MY_VALUE as int, G_MY_BYTES as int)
            &&& cs[2] == ternary_constraint(add1_carry_lo(up, g, a, up[state_column(b, 0)]))
            &&& cs[3] == ternary_constraint(
                add1_carry_hi(up, g, a, up[state_column(b, 0)], up[state_column(b, 1)]),
            )
            &&& cs[4] == bytes_constraint(
                up,
                g,
                up[state_column(d, 0)],
                G_D_BYTES as int,
                G_D_BYTES + 1,
            )
            &&& cs[5] == bytes_constraint(
                up,
                g,
                up[state_column(d, 1)],
                G_D_BYTES + 2,
                G_D_BYTES + 3,
            )
            &&& forall|i: int|
                0 <= i < 4 ==> #[trigger] cs[6 + i] == xor_addr_constraint(
                    up,
                    g,
                    base,
                    G_XOR2_ADDRS + i,
                    G_D_BYTES + i,
                    G_ADD1_BYTES + i,
                )
            &&& cs[10] == bool_constraint(add2_carry_lo(up, g, c))
            &&& cs[11] == bool_constraint(add2_carry_hi(up, g, c))
            &&& cs[12] == bytes_constraint(
                up,
                g,
                up[state_column(b, 0)],
                G_B_BYTES as int,
                G_B_BYTES + 1,
            )
            &&& cs[13] == bytes_constraint(
                up,
                g,
                up[state_column(b, 1)],
                G_B_BYTES + 2,
                G_B_BYTES + 3,
            )
            &&& forall|i: int|
                0 <= i < 4 ==> #[trigger] cs[14 + i] == xor_addr_constraint(
                    up,
                    g,
                    base,
                    G_XOR4_ADDRS + i,
                    G_B_BYTES + i,
                    G_ADD2_BYTES + i,
                )
            &&& cs[18] == split_constraint(up, g, G_XOR4_BYTES + 1, G_XOR4_SPLIT as int, 16)
            &&& forall|i: int|
                0 <= i < 4 ==> #[trigger] cs[19 + i] == xor_addr_constraint(
                    up,
                    g,
                    base,
                    G_XOR6_ADDRS + i,
                    G_XOR2_BYTES + (i + 2) % 4,
                    G_ADD3_BYTES + i,
                )
            &&& forall|i: int|
                0 <= i < 4 ==> #[trigger] cs[23 + i] == last_addr_constraint(up, rot, g, base, i)
            &&& cs[27] == split_constraint(up, g, G_XOR8_BYTES as int, G_XOR8_SPLIT as int, 128)
            &&& cs[28] == bool_constraint(g_cell(up, g, G_XOR8_SPLIT + 1))
            &&& cs[29] == bool_constraint(add4_carry_lo(up, g))
            &&& cs[30] == bool_constraint(add4_carry_hi(up, g))
        }),
{
    reveal(g_constraints);
}

proof fn lemma_zero_positions<R: Ring>(
    up: Seq<R>,
    rot: Seq<R>,
    g: int,
    a: int,
    b: int,
    c: int,
    d: int,
    base: R,
)
    requires
        message_constraint(up, g, G_MX_VALUE as int, G_MX_BYTES as int) == R::ring_zero(),
        message_constraint(up, g, G_MY_VALUE as int, G_MY_BYTES as int) == R::ring_zero(),
        ternary_constraint(add1_carry_lo(up, g, a, up[state_column(b, 0)])) == R::ring_zero(),
        ternary_constraint(
            add1_carry_hi(up, g, a, up[state_column(b, 0)], up[state_column(b, 1)]),
        ) == R::ring_zero(),
        bytes_constraint(up, g, up[state_column(d, 0)], G_D_BYTES as int, G_D_BYTES + 1)
            == R::ring_zero(),
        bytes_constraint(up, g, up[state_column(d, 1)], G_D_BYTES + 2, G_D_BYTES + 3)
            == R::ring_zero(),
        bool_constraint(add2_carry_lo(up, g, c)) == R::ring_zero(),
        bool_constraint(add2_carry_hi(up, g, c)) == R::ring_zero(),
        bytes_constraint(up, g, up[state_column(b, 0)], G_B_BYTES as int, G_B_BYTES + 1)
            == R::ring_zero(),
        bytes_constraint(up, g, up[state_column(b, 1)], G_B_BYTES + 2, G_B_BYTES + 3)
            == R::ring_zero(),
        split_constraint(up, g, G_XOR4_BYTES + 1, G_XOR4_SPLIT as int, 16) == R::ring_zero(),
        split_constraint(up, g, G_XOR8_BYTES as int, G_XOR8_SPLIT as int, 128) == R::ring_zero(),
        bool_constraint(g_cell(up, g, G_XOR8_SPLIT + 1)) == R::ring_zero(),
        bool_constraint(add4_carry_lo(up, g)) == R::ring_zero(),
        bool_constraint(add4_carry_hi(up, g)) == R::ring_zero(),
        forall|i: int|
            0 <= i < 4 ==> #[trigger] last_addr_constraint(up, rot, g, base, i)
                == R::ring_zero(),
    ensures
        g_constraints(up, rot, g, a, b, c, d, base).len() == 31,
        forall|i: int|
            on_filled_columns(i) ==> #[trigger] g_constraints(up, rot, g, a, b, c, d, base)[i]
                == R::ring_zero(),
{
    lemma_constraint_positions(up, rot, g, a, b, c, d, base);
    let cs = g_constraints(up, rot, g, a, b, c, d, base);
    assert forall|i: int| on_filled_columns(i) implies #[trigger] cs[i] == R::ring_zero() by {
        if 23 <= i < 27 {
            assert(cs[23 + (i - 23)] == last_addr_constraint(up, rot, g, base, i - 23));
        }
    }
}

/// Where the columns of a G-function hold what it computes from any input words, its constraints
/// on message bytes, carries, operand bytes, splits and the lookup addresses of the last XOR hold.
pub proof fn law_values_satisfy_g_constraints(
    y: GInput,
    g: int,
    a: int,
    b: int,
    c: int,
    d: int,
    up: Seq<KoalaBear>,
    rot: Seq<KoalaBear>,
)
    requires
        holds_values(y, g, up, rot),
        holds_words(y, a, b, c, d, up),
        stands_for(y.mx_value, y.mx),
        stands_for(y.my_value, y.my),
    ensures
        ({
            let cs = g_constraints(up, rot, g, a, b, c, d, kb(y.base));
            &&& cs.len() == 31
            &&& forall|i: int| on_filled_columns(i) ==> #[trigger] cs[i] == KoalaBear::ring_zero()
        }),
{
    lemma_byte_constraints(y, g, a, b, c, d, up, rot);
    lemma_carries_1(y, g, a, up[state_column(b, 0)], up[state_column(b, 1)], up, rot);
    lemma_carries_2(y, g, c, up, rot);
    lemma_carries_4(y, g, up, rot);
    assert forall|i: int| 0 <= i < 4 implies #[trigger] last_addr_constraint(
        up,
        rot,
        g,
        kb(y.base),
        i,
    ) == kb(0) by {
        lemma_last_address(y, g, up, rot, i);
    }
    lemma_zero_positions(up, rot, g, a, b, c, d, kb(y.base));
}

/// Byte `i` of a word rotated by 12 is made up of nibbles of two bytes of the word.
pub proof fn lemma_rotated_bytes_12(x: u32)
    ensures
        forall|i: int|
            0 <= i < 4 ==> #[trigger] byte_of(rotr(x, 12), i) == byte_of(x, (i + 1) % 4) / 16 + 16
                * (byte_of(x, (i + 2) % 4) % 16),
{
    let r = (x >> 12u32) | (x << 20u32);
    assert(r == rotr(x, 12));
    assert(((x >> 12u32) | (x << 20u32)) % 256 == ((x / 256) % 256) / 16 + 16 * (((x / 65536) % 256)
        % 16)) by (bit_vector);
    assert((((x >> 12u32) | (x << 20u32)) / 256) % 256 == ((x / 65536) % 256) / 16 + 16 * ((x
        / 16777216) % 16)) by (bit_vector);
    assert((((x >> 12u32) | (x << 20u32)) / 65536) % 256 == (x / 16777216) / 16 + 16 * ((x % 256)
        % 16)) by (bit_vector);
    assert(((x >> 12u32) | (x << 20u32)) / 16777216 == (x % 256) / 16 + 16 * (((x / 256) % 256)
        % 16)) by (bit_vector);
}

/// The lookup address of byte `i` of the last XOR meets its constraint.
proof fn lemma_last_address(
    y: GInput,
    g: int,
    up: Seq<KoalaBear>,
    rot: Seq<KoalaBear>,
    i: int,
)
    requires
        holds_values(y, g, up, rot),
        0 <= i < 4,
    ensures
        last_addr_constraint(up, rot, g, kb(y.base), i) == kb(0),
{
    let s = y.steps();
    let w = y.b ^ s.c1;
    let (n, m) = (byte_of(w, (i + 1) % 4) as int, byte_of(w, (i + 2) % 4) as int);
    assert(byte_of(s.b1, i) == n / 16 + 16 * (m % 16)) by {
        lemma_steps(y);
        lemma_rotated_bytes_12(w);
    }
    lemma_nibbles(y, g, up, rot, (i + 1) % 4);
    lemma_nibbles(y, g, up, rot, (i + 2) % 4);
    KoalaBear::law_of(m % 16, 16);
    KoalaBear::law_of(n / 16, (m % 16) * 16);
    assert(b1_byte(up, rot, g, i) == kb(byte_of(s.b1, i) as int));
    assert(g_cell(up, g, G_ADD4_BYTES + i) == kb(byte_of(s.c2, i) as int) && g_cell(
        up,
        g,
        G_XOR8_ADDRS + i,
    ) == kb(xor_addr(s.b1, s.c2, y.base, i))) by {
        assert(g_cell(up, g, G_ADD4_BYTES + i) == y.cell(G_ADD4_BYTES + i));
        assert(g_cell(up, g, G_XOR8_ADDRS + i) == y.cell(G_XOR8_ADDRS + i));
    }
    lemma_addr_zero::<KoalaBear>(y.base, byte_of(s.b1, i) as int, byte_of(s.c2, i) as int);
    reveal(last_addr_constraint);
}

/// The split columns hold the nibbles of the bytes of `b ^ c'`.
proof fn lemma_nibbles(
    y: GInput,
    g: int,
    up: Seq<KoalaBear>,
    rot: Seq<KoalaBear>,
    i: int,
)
    requires
        holds_values(y, g, up, rot),
        0 <= i < 4,
    ensures
        ({
            let n = byte_of(y.b ^ y.steps().c1, i) as int;
            &&& xor4_nibble(up, rot, g, i, 0) == kb(n % 16)
            &&& xor4_nibble(up, rot, g, i, 1) == kb(n / 16)
        }),
{
    assert(g_cell(up, g, G_XOR4_SPLIT as int) == y.cell(G_XOR4_SPLIT as int));
    assert(g_cell(up, g, G_XOR4_SPLIT + 1) == y.cell(G_XOR4_SPLIT + 1));
    assert(rot_cell(rot, g, G_XOR4_B0_SPLIT as int) == y.rot_cell(G_XOR4_B0_SPLIT as int));
    assert(rot_cell(rot, g, G_XOR4_B0_SPLIT + 1) == y.rot_cell(G_XOR4_B0_SPLIT + 1));
    assert(rot_cell(rot, g, G_XOR4_B2_SPLIT as int) == y.rot_cell(G_XOR4_B2_SPLIT as int));
    assert(rot_cell(rot, g, G_XOR4_B2_SPLIT + 1) == y.rot_cell(G_XOR4_B2_SPLIT + 1));
    assert(rot_cell(rot, g, G_XOR4_B3_SPLIT as int) == y.rot_cell(G_XOR4_B3_SPLIT as int));
    assert(rot_cell(rot, g, G_XOR4_B3_SPLIT + 1) == y.rot_cell(G_XOR4_B3_SPLIT + 1));
}

/// Where the columns of a G-function hold what it computes from any input words, the addresses of
/// all its byte-XOR lookups among them, every one of its constraints is met.
pub proof fn law_g_function_satisfies_constraints(
    y: GInput,
    g: int,
    a: int,
    b: int,
    c: int,
    d: int,
    up: Seq<KoalaBear>,
    rot: Seq<KoalaBear>,
)
    requires
        holds_values(y, g, up, rot),
        holds_words(y, a, b, c, d, up),
        stands_for(y.mx_value, y.mx),
        stands_for(y.my_value, y.my),
        holds_addresses(y, g, up),
    ensures
        ({
            let cs = g_constraints(up, rot, g, a, b, c, d, kb(y.base));
            &&& cs.len() == 31
            &&& forall|i: int| 0 <= i < 31 ==> #[trigger] cs[i] == KoalaBear::ring_zero()
        }),
{
    let s = y.steps();
    let cs = g_constraints(up, rot, g, a, b, c, d, kb(y.base));
    lemma_steps(y);
    lemma_rotated_bytes(y.d ^ s.a1);
    law_values_satisfy_g_constraints(y, g, a, b, c, d, up, rot);
    lemma_constraint_positions(up, rot, g, a, b, c, d, kb(y.base));
    assert forall|i: int| 0 <= i < 4 implies #[trigger] cs[6 + i] == kb(0) by {
        assert(g_cell(up, g, G_XOR2_ADDRS + i) == kb(xor_addr(y.d, s.a1, y.base, i)));
        assert(g_cell(up, g, G_D_BYTES + i) == kb(byte_of(y.d, i) as int));
        assert(g_cell(up, g, G_ADD1_BYTES + i) == kb(byte_of(s.a1, i) as int));
        lemma_addr_zero::<KoalaBear>(y.base, byte_of(y.d, i) as int, byte_of(s.a1, i) as int);
    }
    assert forall|i: int| 0 <= i < 4 implies #[trigger] cs[14 + i] == kb(0) by {
        assert(g_cell(up, g, G_XOR4_ADDRS + i) == kb(xor_addr(y.b, s.c1, y.base, i)));
        assert(g_cell(up, g, G_B_BYTES + i) == kb(byte_of(y.b, i) as int));
        assert(g_cell(up, g, G_ADD2_BYTES + i) == kb(byte_of(s.c1, i) as int));
        lemma_addr_zero::<KoalaBear>(y.base, byte_of(y.b, i) as int, byte_of(s.c1, i) as int);
    }
    assert forall|i: int| 0 <= i < 4 implies #[trigger] cs[19 + i] == kb(0) by {
        assert(g_cell(up, g, G_XOR6_ADDRS + i) == kb(xor_addr(s.d1, s.a2, y.base, i)));
        let j = (i + 2) % 4;
        assert(g_cell(up, g, G_XOR2_BYTES + j) == kb(byte_of(y.d ^ s.a1, j) as int));
        assert(byte_of(s.d1, i) == byte_of(y.d ^ s.a1, j));
        assert(g_cell(up, g, G_ADD3_BYTES + i) == kb(byte_of(s.a2, i) as int));
        lemma_addr_zero::<KoalaBear>(y.base, byte_of(s.d1, i) as int, byte_of(s.a2, i) as int);
    }
    assert forall|i: int| 0 <= i < 31 implies #[trigger] cs[i] == KoalaBear::ring_zero() by {
        if on_filled_columns(i) {
        } else if i < 10 {
            assert(cs[6 + (i - 6)] == kb(0));
        } else if i < 18 {
            assert(cs[14 + (i - 14)] == kb(0));
        } else {
            assert(cs[19 + (i - 19)] == kb(0));
        }
    }
}

/// A rotation by 16 moves every byte by two places.
pub proof fn lemma_rotated_bytes(x: u32)
    ensures
        forall|i: int| 0 <= i < 4 ==> #[trigger] byte_of(rotr(x, 16), i) == byte_of(x, (i + 2) % 4),
{
    lemma_rotated_limbs(x);
    let r = rotr(x, 16);
    law_bytes_of_word(r);
    law_bytes_of_word(x);
    assert(byte_of(r, 0) == byte_of(x, 2) && byte_of(r, 1) == byte_of(x, 3));
    assert(byte_of(r, 2) == byte_of(x, 0) && byte_of(r, 3) == byte_of(x, 1));
}

/// The output limbs of a G-function's columns are those of the words it computes, and the
/// constraints of its rotation columns hold.
pub proof fn law_g_function_outputs(i: GInput, g: int, up: Seq<KoalaBear>, rot: Seq<KoalaBear>)
    requires
        holds_values(i, g, up, rot),
    ensures
        ({
            let s = i.steps();
            &&& g_outputs(up, rot, g) == seq![
                (kb(limb_lo(s.a2) as int), kb(limb_hi(s.a2) as int)),
                (kb(limb_lo(s.b2) as int), kb(limb_hi(s.b2) as int)),
                (kb(limb_lo(s.c2) as int), kb(limb_hi(s.c2) as int)),
                (kb(limb_lo(s.d2) as int), kb(limb_hi(s.d2) as int)),
            ]
            &&& rotation_constraints(up, rot, g) == seq![
                KoalaBear::ring_zero(),
                KoalaBear::ring_zero(),
            ]
        }),
{
    let s = i.steps();
    let y = s.b1 ^ s.c2;
    reveal(g_outputs);
    lemma_steps(i);
    lemma_limb_cells(i, g, up, rot);
    lemma_rotated_limbs_7(y);
    let (b0, b1, b2, b3) = (
        byte_of(y, 0) as int,
        byte_of(y, 1) as int,
        byte_of(y, 2) as int,
        byte_of(y, 3) as int,
    );
    let raw = b0 / 128 + 2 * b1 + 512 * b2;
    let crossing = rot_cell(rot, g, G_CARRY_ROT7 as int);
    assert(crossing == kb(raw / 65536));
    lemma_small_constraints::<KoalaBear>(raw / 65536);
    let n3 = byte_of(i.b ^ s.c1, 3) as int;
    assert(rot_cell(rot, g, G_XOR4_B3_SPLIT as int) == kb(n3 % 16));
    assert(rot_cell(rot, g, G_XOR4_B3_SPLIT + 1) == kb(n3 / 16));
    assert(g_cell(up, g, G_XOR4_BYTES + 3) == kb(n3));
    lemma_bytes_zero::<KoalaBear>(n3, n3 % 16, n3 / 16, 16);
    lemma_b_output::<KoalaBear>(b0, b1, b2, b3, raw / 65536);
    assert(g_cell(up, g, G_XOR8_SPLIT + 1) == kb(b0 / 128));
    assert(g_cell(up, g, G_XOR8_SPLIT as int) == kb(b0 % 128));
    assert(g_cell(up, g, G_XOR8_BYTES + 1) == kb(b1));
    assert(g_cell(up, g, G_XOR8_BYTES + 2) == kb(b2));
    assert(g_cell(up, g, G_XOR8_BYTES + 3) == kb(b3));
    assert(g_outputs(up, rot, g) =~= seq![
        (kb(limb_lo(s.a2) as int), kb(limb_hi(s.a2) as int)),
        (kb(limb_lo(s.b2) as int), kb(limb_hi(s.b2) as int)),
        (kb(limb_lo(s.c2) as int), kb(limb_hi(s.c2) as int)),
        (kb(limb_lo(s.d2) as int), kb(limb_hi(s.d2) as int)),
    ]);
    assert(rotation_constraints(up, rot, g) =~= seq![KoalaBear::ring_zero(), KoalaBear::ring_zero()]);
}

/// The columns of a row of the generator hold the values of its G-functions.
proof fn lemma_trace_values(
    x: TraceInputs,
    h: int,
    g: int,
    up: Seq<KoalaBear>,
    rot: Seq<KoalaBear>,
)
    requires
        is_trace_row(x, h, up),
        is_rotation_part(x, h, rot),
        0 <= g < 4,
    ensures
        holds_values(x.g_input(h, g), g, up, rot),
{
    lemma_g_cells(x, h, g, up);
    lemma_rot_cells(x, h, g, rot);
}

/// The constraints of one G-function hold on the rows of the generator: those on message bytes,
/// carries, operand bytes, splits and the lookup addresses of the last XOR.
pub proof fn law_trace_satisfies_g_constraints(
    x: TraceInputs,
    h: int,
    g: int,
    up: Seq<KoalaBear>,
    rot: Seq<KoalaBear>,
)
    requires
        operands_canonical(x),
        is_trace_row(x, h, up),
        is_rotation_part(x, h, rot),
        0 <= h < 14,
        0 <= g < 4,
    ensures
        ({
            let w = qr_words(h, g);
            let cs = g_constraints(up, rot, g, w.0, w.1, w.2, w.3, kb(x.base));
            &&& cs.len() == 31
            &&& forall|i: int| on_filled_columns(i) ==> #[trigger] cs[i] == KoalaBear::ring_zero()
        }),
{
    let w = qr_words(h, g);
    lemma_trace_values(x, h, g, up, rot);
    lemma_state_cells(x, h, g, up);
    lemma_message_words(x, h, g);
    law_values_satisfy_g_constraints(x.g_input(h, g), g, w.0, w.1, w.2, w.3, up, rot);
}

/// The constraints of a G-function of a row, where the columns hold what it computes from any
/// input words and the flag says which quarter-round the words belong to: those on the lookup
/// addresses of the first three XORs hold where these addresses stand in their columns, and the
/// others in any case.
pub proof fn law_quarter_round_satisfies_constraints(
    y: GInput,
    g: int,
    is_column_qr: bool,
    up: Seq<KoalaBear>,
    rot: Seq<KoalaBear>,
)
    requires
        up[COL_IS_COLUMN_QR as int] == kb(if is_column_qr { 1 } else { 0 }),
        holds_values(y, g, up, rot),
        ({
            let w = if is_column_qr { col_qr(g) } else { diag_qr(g) };
            holds_words(y, w.0, w.1, w.2, w.3, up)
        }),
        stands_for(y.mx_value, y.mx),
        stands_for(y.my_value, y.my),
    ensures
        ({
            let cs = quarter_round_constraints(up, rot, g, kb(y.base));
            &&& cs.len() == 31
            &&& forall|i: int| on_filled_columns(i) ==> #[trigger] cs[i] == KoalaBear::ring_zero()
            &&& holds_addresses(y, g, up) ==> forall|i: int|
                0 <= i < 31 ==> #[trigger] cs[i] == KoalaBear::ring_zero()
        }),
{
    let w = if is_column_qr {
        col_qr(g)
    } else {
        diag_qr(g)
    };
    let base = kb(y.base);
    let flag: int = if is_column_qr {
        1
    } else {
        0
    };
    let on_row = g_constraints(up, rot, g, w.0, w.1, w.2, w.3, base);
    let cs = quarter_round_constraints(up, rot, g, base);
    law_values_satisfy_g_constraints(y, g, w.0, w.1, w.2, w.3, up, rot);
    lemma_first_sum_of_bytes(y, g, w.0, up, rot);
    assert(cs.len() == 31) by {
        reveal(quarter_round_constraints);
    }
    assert forall|i: int| on_filled_columns(i) implies #[trigger] cs[i]
        == KoalaBear::ring_zero() by {
        assert(on_row[i] == KoalaBear::ring_zero());
        lemma_selected_position(up, rot, g, base, flag, i);
    }
    if holds_addresses(y, g, up) {
        law_g_function_satisfies_constraints(y, g, w.0, w.1, w.2, w.3, up, rot);
        assert forall|i: int| 0 <= i < 31 implies #[trigger] cs[i] == KoalaBear::ring_zero() by {
            assert(on_row[i] == KoalaBear::ring_zero());
            lemma_selected_position(up, rot, g, base, flag, i);
        }
    }
}

/// The first sum holds with `b` taken from its bytes.
proof fn lemma_first_sum_of_bytes(
    y: GInput,
    g: int,
    a: int,
    up: Seq<KoalaBear>,
    rot: Seq<KoalaBear>,
)
    requires
        holds_values(y, g, up, rot),
        up[state_column(a, 0)] == kb(limb_lo(y.a) as int),
        up[state_column(a, 1)] == kb(limb_hi(y.a) as int),
    ensures
        ({
            let cs = first_sum_constraints(
                up,
                g,
                a,
                g_limb(up, g, G_B_BYTES as int, G_B_BYTES + 1),
                g_limb(up, g, G_B_BYTES + 2, G_B_BYTES + 3),
            );
            &&& cs[0] == KoalaBear::ring_zero()
            &&& cs[1] == KoalaBear::ring_zero()
        }),
{
    let b_lo = g_limb(up, g, G_B_BYTES as int, G_B_BYTES + 1);
    let b_hi = g_limb(up, g, G_B_BYTES + 2, G_B_BYTES + 3);
    lemma_limb_cells(y, g, up, rot);
    lemma_carries_1(y, g, a, b_lo, b_hi, up, rot);
}

/// A constraint that holds over the words of the quarter-round that the flag names holds in the row.
proof fn lemma_selected_position<R: Ring>(
    up: Seq<R>,
    rot: Seq<R>,
    g: int,
    base: R,
    flag: int,
    i: int,
)
    requires
        0 <= i < 31,
        flag == 0 || flag == 1,
        up[COL_IS_COLUMN_QR as int] == R::of(flag),
        ({
            let w = if flag == 1 {
                col_qr(g)
            } else {
                diag_qr(g)
            };
            g_constraints(up, rot, g, w.0, w.1, w.2, w.3, base)[i] == R::ring_zero()
        }),
        ({
            let cs = first_sum_constraints(
                up,
                g,
                g,
                g_limb(up, g, G_B_BYTES as int, G_B_BYTES + 1),
                g_limb(up, g, G_B_BYTES + 2, G_B_BYTES + 3),
            );
            &&& cs[0] == R::ring_zero()
            &&& cs[1] == R::ring_zero()
        }),
    ensures
        quarter_round_constraints(up, rot, g, base)[i] == R::ring_zero(),
{
    let (v, u) = (col_qr(g), diag_qr(g));
    reveal(quarter_round_constraints);
    if reads_moving_words(i) {
        lemma_selected_zero(
            flag,
            g_constraints(up, rot, g, v.0, v.1, v.2, v.3, base)[i],
            g_constraints(up, rot, g, u.0, u.1, u.2, u.3, base)[i],
        );
    } else if !(2 <= i < 4) {
        lemma_fixed_positions(up, rot, g, base, i);
    }
}

/// The constraints that read no state words but `a` are the same in both quarter-rounds.
pub proof fn lemma_fixed_positions<R: Ring>(up: Seq<R>, rot: Seq<R>, g: int, base: R, i: int)
    requires
        0 <= i < 31,
        !(2 <= i < 4),
        !reads_moving_words(i),
    ensures
        ({
            let (v, u) = (col_qr(g), diag_qr(g));
            g_constraints(up, rot, g, v.0, v.1, v.2, v.3, base)[i] == g_constraints(
                up,
                rot,
                g,
                u.0,
                u.1,
                u.2,
                u.3,
                base,
            )[i]
        }),
{
    let (v, u) = (col_qr(g), diag_qr(g));
    let on_col = g_constraints(up, rot, g, v.0, v.1, v.2, v.3, base);
    let on_diag = g_constraints(up, rot, g, u.0, u.1, u.2, u.3, base);
    lemma_constraint_positions(up, rot, g, v.0, v.1, v.2, v.3, base);
    lemma_constraint_positions(up, rot, g, u.0, u.1, u.2, u.3, base);
    if 6 <= i < 10 {
        assert(on_col[6 + (i - 6)] == on_diag[6 + (i - 6)]);
    } else if 14 <= i < 18 {
        assert(on_col[14 + (i - 14)] == on_diag[14 + (i - 14)]);
    } else if 19 <= i < 23 {
        assert(on_col[19 + (i - 19)] == on_diag[19 + (i - 19)]);
    } else if 23 <= i < 27 {
        assert(on_col[23 + (i - 23)] == on_diag[23 + (i - 23)]);
    }
}

pub proof fn lemma_b_output<R: Ring>(b0: int, b1: int, b2: int, b3: int, q: int)
    ensures
        R::of(b0 / 128).plus(scaled(R::of(b1), 2)).plus(scaled(R::of(b2), 512)).minus(
            scaled(R::of(q), 65536),
        ) == R::of(b0 / 128 + 2 * b1 + 512 * b2 - 65536 * q),
        R::of(q).plus(scaled(R::of(b3), 2)).plus(scaled(R::of(b0 % 128), 512)) == R::of(
            q + 2 * b3 + 512 * (b0 % 128),
        ),
{
    R::law_of(b1, 2);
    R::law_of(b2, 512);
    R::law_of(q, 65536);
    R::law_of(b3, 2);
    R::law_of(b0 % 128, 512);
    R::law_of(b0 / 128, b1 * 2);
    R::law_of(b0 / 128 + b1 * 2, b2 * 512);
    R::law_of(b0 / 128 + b1 * 2 + b2 * 512, q * 65536);
    R::law_of(q, b3 * 2);
    R::law_of(q + b3 * 2, (b0 % 128) * 512);
}

/// The message cells of a G-function stand for its message words.
proof fn lemma_message_words(x: TraceInputs, h: int, g: int)
    requires
        operands_canonical(x),
        0 <= h < 14,
        0 <= g < 4,
    ensures
        ({
            let i = x.g_input(h, g);
            &&& stands_for(i.mx_value, i.mx)
            &&& stands_for(i.my_value, i.my)
        }),
{
    crate::tables::constrained_cols::law_sigma_is_permutation(h / 2);
    let i = x.g_input(h, g);
    let mx = crate::tables::constrained_trace::msg_index(h, 2 * g);
    let my = crate::tables::constrained_trace::msg_index(h, 2 * g + 1);
    assert(0 <= mx < 16 && 0 <= my < 16);
    assert(i.mx == monty(i.mx_value) && i.my == monty(i.my_value));
    vstd::arithmetic::div_mod::lemma_mod_twice(i.mx_value.value * 0x1_0000_0000, ORDER_U32 as int);
    vstd::arithmetic::div_mod::lemma_mod_twice(i.my_value.value * 0x1_0000_0000, ORDER_U32 as int);
}

/// The output state columns hold the limbs of the words the G-functions compute.
proof fn lemma_output_cells(x: TraceInputs, h: int, g: int, up: Seq<KoalaBear>, l: int)
    requires
        is_trace_row(x, h, up),
        0 <= h < 14,
        0 <= g < 4,
        0 <= l < 2,
    ensures
        ({
            let s = x.g_input(h, g).steps();
            let q = qr_words(h, g);
            &&& up[output_state_column(q.0, l)] == kb(limb(s.a2, l) as int)
            &&& up[output_state_column(q.1, l)] == kb(limb(s.b2, l) as int)
            &&& up[output_state_column(q.2, l)] == kb(limb(s.c2, l) as int)
            &&& up[output_state_column(q.3, l)] == kb(limb(s.d2, l) as int)
        }),
{
    let msg = x.msg();
    lemma_output_word(msg, h, g);
    assert forall|v: int| 0 <= v < 16 implies up[#[trigger] output_state_column(v, l)] == kb(
        limb(state_before(msg, h + 1)[v], l) as int,
    ) by {
        let c = output_state_column(v, l);
        assert((c - COL_OUTPUT_STATE_START) / 2 == v && (c - COL_OUTPUT_STATE_START) % 2 == l);
        assert(is_filled(c));
        assert(up[c] == x.cell(h, c));
    }
}

/// The flag of the quarter-round kind.
proof fn lemma_flag_cell(x: TraceInputs, h: int, up: Seq<KoalaBear>)
    requires
        is_trace_row(x, h, up),
    ensures
        up[COL_IS_COLUMN_QR as int] == kb(if h % 2 == 0 { 1 } else { 0 }),
{
    assert(is_filled(COL_IS_COLUMN_QR as int));
}

/// The output state columns of a row hold what the constraints on them ask for.
pub proof fn law_trace_satisfies_output_constraints(
    x: TraceInputs,
    h: int,
    g: int,
    up: Seq<KoalaBear>,
    rot: Seq<KoalaBear>,
    w: int,
    l: int,
)
    requires
        is_trace_row(x, h, up),
        is_rotation_part(x, h, rot),
        0 <= h < 14,
        0 <= g < 4,
        0 <= w < 4,
        0 <= l < 2,
    ensures
        output_constraint(up, rot, g, w, l) == KoalaBear::ring_zero(),
{
    lemma_trace_values(x, h, g, up, rot);
    law_g_function_outputs(x.g_input(h, g), g, up, rot);
    lemma_output_cells(x, h, g, up, l);
    lemma_flag_cell(x, h, up);
    let flag: int = if h % 2 == 0 {
        1
    } else {
        0
    };
    lemma_output_zero(up, rot, g, w, l, flag);
}

/// Word `w` of G-function `g` of a column quarter-round.
spec fn col_word(g: int, w: int) -> int {
    if w == 0 {
        col_qr(g).0
    } else if w == 1 {
        col_qr(g).1
    } else if w == 2 {
        col_qr(g).2
    } else {
        col_qr(g).3
    }
}

/// Word `w` of G-function `g` of a diagonal quarter-round.
spec fn diag_word(g: int, w: int) -> int {
    if w == 0 {
        diag_qr(g).0
    } else if w == 1 {
        diag_qr(g).1
    } else if w == 2 {
        diag_qr(g).2
    } else {
        diag_qr(g).3
    }
}

/// The output constraint is zero where the selected column holds the output.
proof fn lemma_output_zero<R: Ring>(
    up: Seq<R>,
    rot: Seq<R>,
    g: int,
    w: int,
    l: int,
    flag: int,
)
    requires
        0 <= w < 4,
        flag == 0 || flag == 1,
        up[COL_IS_COLUMN_QR as int] == R::of(flag),
        up[output_state_column(if flag == 1 { col_word(g, w) } else { diag_word(g, w) }, l)]
            == if l == 0 {
            g_outputs(up, rot, g)[w].0
        } else {
            g_outputs(up, rot, g)[w].1
        },
    ensures
        output_constraint(up, rot, g, w, l) == R::ring_zero(),
{
    let out = if l == 0 {
        g_outputs(up, rot, g)[w].0
    } else {
        g_outputs(up, rot, g)[w].1
    };
    let col = up[output_state_column(col_word(g, w), l)];
    let diag = up[output_state_column(diag_word(g, w), l)];
    reveal(output_constraint);
    lemma_minus_self(out);
    lemma_selected_zero(flag, col.minus(out), diag.minus(out));
}

/// A selection is zero where the selected value is.
proof fn lemma_selected_zero<R: Ring>(flag: int, x: R, y: R)
    requires
        flag == 0 || flag == 1,
        flag == 1 ==> x == R::ring_zero(),
        flag == 0 ==> y == R::ring_zero(),
    ensures
        selected(R::of(flag), x, y) == R::ring_zero(),
{
    let (one, zero) = (R::ring_one(), R::ring_zero());
    R::law_of(0, 0);
    R::law_closed(zero, zero, 0);
    lemma_minus_self(one);
    lemma_zero_times(one);
    lemma_zero_times(x);
    lemma_zero_times(y);
    lemma_zero_times(one.minus(zero));
    R::law_plus_zero(zero);
}

/// The words of a G-function stay as it leaves them until the end of the half-round.
pub proof fn lemma_output_word(msg: Seq<u32>, h: int, g: int)
    requires
        0 <= h < 14,
        0 <= g < 4,
    ensures
        ({
            let st = state_before(msg, h);
            let s = crate::tables::constrained_trace::g_at(after_gs(st, msg, h, g), msg, h, g);
            let q = qr_words(h, g);
            let end = state_before(msg, h + 1);
            &&& end[q.0] == s.a2
            &&& end[q.1] == s.b2
            &&& end[q.2] == s.c2
            &&& end[q.3] == s.d2
        }),
{
    let st = state_before(msg, h);
    lemma_state_len(msg, h);
    lemma_later_words_untouched(st, msg, h, 0);
    lemma_later_words_untouched(st, msg, h, 1);
    lemma_later_words_untouched(st, msg, h, 2);
    lemma_later_words_untouched(st, msg, h, 3);
    reveal_with_fuel(after_gs, 5);
}

/// The four control bits of a row are bits.
pub proof fn law_trace_satisfies_control_constraints(x: TraceInputs, h: int, up: Seq<KoalaBear>)
    requires
        is_trace_row(x, h, up),
        0 <= h < 14,
    ensures
        bool_constraint(up[COL_FLAG_ACTIVE as int]) == KoalaBear::ring_zero(),
        bool_constraint(up[COL_IS_FIRST_ROW as int]) == KoalaBear::ring_zero(),
        bool_constraint(up[COL_IS_LAST_ROW as int]) == KoalaBear::ring_zero(),
        bool_constraint(up[COL_IS_COLUMN_QR as int]) == KoalaBear::ring_zero(),
{
    assert(is_filled(COL_FLAG_ACTIVE as int));
    assert(is_filled(COL_IS_FIRST_ROW as int));
    assert(is_filled(COL_IS_LAST_ROW as int));
    assert(is_filled(COL_IS_COLUMN_QR as int));
    lemma_small_constraints::<KoalaBear>(0);
    lemma_small_constraints::<KoalaBear>(1);
}

/// The state and the addresses flow from a row to the next: where `down` holds the down columns
/// of row `h + 1`, or row `h` is the last, the constraints that link the rows hold.
pub proof fn law_trace_satisfies_down_constraints(
    x: TraceInputs,
    h: int,
    up: Seq<KoalaBear>,
    down: Seq<KoalaBear>,
    i: int,
)
    requires
        is_trace_row(x, h, up),
        0 <= h < 14,
        0 <= i < 35,
        down.len() == 35,
        h < 13 ==> forall|j: int|
            0 <= j < 35 ==> #[trigger] down[j] == x.cell(
                h + 1,
                if j < 32 {
                    j
                } else {
                    COL_LEFT_ADDR + j - 32
                },
            ),
    ensures
        down_constraint(up, down, i) == KoalaBear::ring_zero(),
{
    assert(is_filled(COL_FLAG_ACTIVE as int));
    assert(is_filled(COL_IS_LAST_ROW as int));
    assert(is_filled(COL_LEFT_ADDR as int));
    assert(is_filled(COL_RIGHT_ADDR as int));
    assert(is_filled(COL_RESULT_ADDR as int));
    if i < 32 {
        assert(is_filled(COL_OUTPUT_STATE_START + i));
    }
    reveal(down_constraint);
    let active = up[COL_FLAG_ACTIVE as int];
    let not_last = KoalaBear::ring_one().minus(up[COL_IS_LAST_ROW as int]);
    lemma_zero_times(active.times(not_last));
    if h < 13 {
        let d = down[i];
        assert(d == x.cell(
            h + 1,
            if i < 32 {
                i
            } else {
                COL_LEFT_ADDR + i - 32
            },
        ));
        lemma_minus_self(d);
    } else {
        lemma_minus_self(KoalaBear::ring_one());
        lemma_zero_times(active);
        let source = if i < 32 {
            up[COL_OUTPUT_STATE_START + i]
        } else if i == 32 {
            up[COL_LEFT_ADDR as int]
        } else if i == 33 {
            up[COL_RIGHT_ADDR as int]
        } else {
            up[COL_RESULT_ADDR as int]
        };
        lemma_zero_times(down[i].minus(source));
    }
}

/// Where the constraints of a G-function stand among those of a row.
pub proof fn lemma_row_positions<R: Ring>(
    up: Seq<R>,
    rot: Seq<R>,
    down: Seq<R>,
    base: R,
    g: int,
    i: int,
)
    requires
        0 <= g < 4,
        0 <= i < 41,
    ensures
        row_constraints(up, rot, down, base)[4 + 41 * g + i] == g_row_constraints(up, rot, g, base)[i],
        g_row_constraints(up, rot, g, base).len() == 41,
        i < 31 ==> g_row_constraints(up, rot, g, base)[i] == quarter_round_constraints(
            up,
            rot,
            g,
            base,
        )[i],
        31 <= i < 33 ==> g_row_constraints(up, rot, g, base)[i] == rotation_constraints(up, rot, g)[i - 31],
        33 <= i ==> g_row_constraints(up, rot, g, base)[i] == output_constraint(
            up,
            rot,
            g,
            (i - 33) / 2,
            (i - 33) % 2,
        ),
{
    reveal(row_constraints);
    reveal(g_row_constraints);
    reveal_with_fuel(g_rows_constraints, 5);
    lemma_g_row_len(up, rot, 0, base);
    lemma_g_row_len(up, rot, 1, base);
    lemma_g_row_len(up, rot, 2, base);
    lemma_g_row_len(up, rot, 3, base);
    reveal(quarter_round_constraints);
}

/// On every row of the generator the constraints of the table are met. Those on the lookup addresses
/// of the first three XORs of a G-function are, where its address columns hold these addresses: the
/// generator leaves them to other means. Constraint `j` of a row belongs to the control bits, to a
/// G-function, or to the link with the next row.
pub proof fn law_trace_satisfies_row_constraints(
    x: TraceInputs,
    h: int,
    up: Seq<KoalaBear>,
    rot: Seq<KoalaBear>,
    down: Seq<KoalaBear>,
    j: int,
)
    requires
        operands_canonical(x),
        is_trace_row(x, h, up),
        is_rotation_part(x, h, rot),
        0 <= h < 14,
        down.len() == 35,
        h < 13 ==> forall|i: int|
            0 <= i < 35 ==> #[trigger] down[i] == x.cell(
                h + 1,
                if i < 32 {
                    i
                } else {
                    COL_LEFT_ADDR + i - 32
                },
            ),
        0 <= j < 203,
        4 <= j < 168 && (j - 4) % 41 < 31 ==> on_filled_columns((j - 4) % 41) || holds_addresses(
            x.g_input(h, (j - 4) / 41),
            (j - 4) / 41,
            up,
        ),
    ensures
        row_constraints(up, rot, down, kb(x.base))[j] == KoalaBear::ring_zero(),
{
    let base = kb(x.base);
    law_constraint_count(up, rot, down, base);
    if j < 4 {
        law_trace_satisfies_control_constraints(x, h, up);
        lemma_edge_positions(up, rot, down, base, j);
    } else if j < 168 {
        let g = (j - 4) / 41;
        let i = (j - 4) % 41;
        let y = x.g_input(h, g);
        lemma_row_positions(up, rot, down, base, g, i);
        lemma_trace_values(x, h, g, up, rot);
        if i < 31 {
            lemma_state_cells(x, h, g, up);
            lemma_flag_cell(x, h, up);
            lemma_message_words(x, h, g);
            law_quarter_round_satisfies_constraints(y, g, h % 2 == 0, up, rot);
        } else if i < 33 {
            law_g_function_outputs(y, g, up, rot);
        } else {
            law_trace_satisfies_output_constraints(x, h, g, up, rot, (i - 33) / 2, (i - 33) % 2);
        }
    } else {
        law_trace_satisfies_down_constraints(x, h, up, down, j - 168);
        lemma_edge_positions(up, rot, down, base, j);
    }
}

/// Where the control and down constraints stand among those of a row.
pub proof fn lemma_edge_positions<R: Ring>(
    up: Seq<R>,
    rot: Seq<R>,
    down: Seq<R>,
    base: R,
    j: int,
)
    requires
        0 <= j < 4 || 168 <= j < 203,
        j >= 168 ==> down.len() > 0,
    ensures
        j == 0 ==> row_constraints(up, rot, down, base)[j] == bool_constraint(
            up[COL_FLAG_ACTIVE as int],
        ),
        j == 1 ==> row_constraints(up, rot, down, base)[j] == bool_constraint(
            up[COL_IS_FIRST_ROW as int],
        ),
        j == 2 ==> row_constraints(up, rot, down, base)[j] == bool_constraint(
            up[COL_IS_LAST_ROW as int],
        ),
        j == 3 ==> row_constraints(up, rot, down, base)[j] == bool_constraint(
            up[COL_IS_COLUMN_QR as int],
        ),
        j >= 168 ==> row_constraints(up, rot, down, base)[j] == down_constraint(up, down, j - 168),
{
    reveal(row_constraints);
    reveal_with_fuel(g_rows_constraints, 5);
    lemma_g_row_len(up, rot, 0, base);
    lemma_g_row_len(up, rot, 1, base);
    lemma_g_row_len(up, rot, 2, base);
    lemma_g_row_len(up, rot, 3, base);
}

/// `up` begins with the committed columns of a padding row.
pub open spec fn is_padding_row(up: Seq<KoalaBear>, zero_vec_ptr: int, xor_table_base: int) -> bool {
    &&& up.len() >= N_COMMITTED_COLS
    &&& forall|c: int|
        0 <= c < N_COMMITTED_COLS ==> #[trigger] up[c] == constrained_padding(
            zero_vec_ptr,
            xor_table_base,
        )[c]
}

/// The columns of a G-function that hold no address.
spec fn holds_no_address(o: int) -> bool {
    &&& 0 <= o < COLS_PER_G
    &&& !(G_XOR2_ADDRS <= o < G_XOR2_ADDRS + 4)
    &&& !(G_XOR4_ADDRS <= o < G_XOR4_ADDRS + 4)
    &&& !(G_XOR6_ADDRS <= o < G_XOR6_ADDRS + 4)
    &&& !(G_XOR8_ADDRS <= o < G_XOR8_ADDRS + 4)
    &&& o != G_MX_ADDR
    &&& o != G_MY_ADDR
}

/// The cells of a padding row: addresses, and otherwise zeros.
proof fn lemma_padding_cells(up: Seq<KoalaBear>, zero_vec_ptr: int, base: int, g: int)
    requires
        is_padding_row(up, zero_vec_ptr, base),
        0 <= g < 4,
    ensures
        forall|o: int| holds_no_address(o) ==> #[trigger] g_cell(up, g, o) == kb(0),
        forall|i: int| 0 <= i < 4 ==> #[trigger] g_cell(up, g, G_XOR2_ADDRS + i) == kb(base),
        forall|i: int| 0 <= i < 4 ==> #[trigger] g_cell(up, g, G_XOR4_ADDRS + i) == kb(base),
        forall|i: int| 0 <= i < 4 ==> #[trigger] g_cell(up, g, G_XOR6_ADDRS + i) == kb(base),
        forall|i: int| 0 <= i < 4 ==> #[trigger] g_cell(up, g, G_XOR8_ADDRS + i) == kb(base),
        forall|w: int, l: int|
            0 <= w < 16 && 0 <= l < 2 ==> up[#[trigger] state_column(w, l)] == kb(0),
        forall|w: int, l: int|
            0 <= w < 16 && 0 <= l < 2 ==> up[#[trigger] output_state_column(w, l)] == kb(0),
{
    let all = constrained_padding(zero_vec_ptr, base);
    assert forall|o: int| 0 <= o < COLS_PER_G implies #[trigger] g_cell(up, g, o) == all[g_column(
        g,
        o,
    )] && (g_column(g, o) - COL_G_START) % 72 == o by {
        let c = g_column(g, o);
        assert(0 <= c < N_COMMITTED_COLS);
        assert((c - COL_G_START) % 72 == o);
        assert(up[c] == all[c]);
    }
    assert forall|w: int, l: int| 0 <= w < 16 && 0 <= l < 2 implies up[#[trigger] state_column(w, l)]
        == kb(0) by {
        assert(up[state_column(w, l)] == all[state_column(w, l)]);
    }
    assert forall|w: int, l: int| 0 <= w < 16 && 0 <= l < 2 implies up[
        #[trigger] output_state_column(w, l)
    ] == kb(0) by {
        assert(up[output_state_column(w, l)] == all[output_state_column(w, l)]);
    }
}

/// Sums, carries and constraints of zeros are zero.
proof fn lemma_zero_arithmetic()
    ensures
        limb_of_bytes(kb(0), kb(0)) == kb(0),
        kb(0).plus(kb(0)) == kb(0),
        carry_of(kb(0), kb(0)) == kb(0),
        ternary_constraint(kb(0)) == kb(0),
        bool_constraint(kb(0)) == kb(0),
        scaled(kb(0), 16) == kb(0),
        kb(0).minus(kb(0)).minus(scaled(kb(0), 256)) == kb(0),
        kb(0).minus(kb(0)).minus(scaled(kb(0), 16)) == kb(0),
        kb(0).minus(kb(0)).minus(scaled(kb(0), 128)) == kb(0),
{
    lemma_limb_of_bytes::<KoalaBear>(0, 0);
    lemma_sum3::<KoalaBear>(0, 0, 0);
    lemma_carry(0, 0, 0);
    lemma_small_constraints::<KoalaBear>(0);
    KoalaBear::law_of(0, 16);
    lemma_bytes_zero::<KoalaBear>(0, 0, 0, 256);
    lemma_bytes_zero::<KoalaBear>(0, 0, 0, 16);
    lemma_bytes_zero::<KoalaBear>(0, 0, 0, 128);
}

/// The constraints of a G-function hold on a padding row.
proof fn lemma_padding_g(
    up: Seq<KoalaBear>,
    rot: Seq<KoalaBear>,
    zero_vec_ptr: int,
    base: int,
    g: int,
    a: int,
    b: int,
    c: int,
    d: int,
    i: int,
)
    requires
        is_padding_row(up, zero_vec_ptr, base),
        rot.len() >= N_ROT_COLS,
        forall|k: int| 0 <= k < N_ROT_COLS ==> #[trigger] rot[k] == kb(0),
        0 <= g < 4,
        0 <= a < 16,
        0 <= b < 16,
        0 <= c < 16,
        0 <= d < 16,
        0 <= i < 31,
    ensures
        g_constraints(up, rot, g, a, b, c, d, kb(base))[i] == kb(0),
{
    lemma_padding_cells(up, zero_vec_ptr, base, g);
    lemma_zero_arithmetic();
    lemma_constraint_positions(up, rot, g, a, b, c, d, kb(base));
    lemma_addr_zero::<KoalaBear>(base, 0, 0);
    let cs = g_constraints(up, rot, g, a, b, c, d, kb(base));
    if i < 2 {
        lemma_message_sum::<KoalaBear>(0, 0, 0, 0, 0);
    } else if 6 <= i < 10 {
        assert(g_cell(up, g, G_XOR2_ADDRS + (i - 6)) == kb(base));
        assert(holds_no_address(G_D_BYTES + (i - 6)));
        assert(holds_no_address(G_ADD1_BYTES + (i - 6)));
        assert(cs[6 + (i - 6)] == kb(0));
    } else if 14 <= i < 18 {
        assert(g_cell(up, g, G_XOR4_ADDRS + (i - 14)) == kb(base));
        assert(holds_no_address(G_B_BYTES + (i - 14)));
        assert(holds_no_address(G_ADD2_BYTES + (i - 14)));
        assert(cs[14 + (i - 14)] == kb(0));
    } else if 19 <= i < 23 {
        assert(g_cell(up, g, G_XOR6_ADDRS + (i - 19)) == kb(base));
        assert(holds_no_address(G_XOR2_BYTES + (i - 19 + 2) % 4));
        assert(holds_no_address(G_ADD3_BYTES + (i - 19)));
        assert(cs[19 + (i - 19)] == kb(0));
    } else if 23 <= i < 27 {
        reveal(last_addr_constraint);
        assert(g_cell(up, g, G_XOR8_ADDRS + (i - 23)) == kb(base));
        assert(holds_no_address(G_ADD4_BYTES + (i - 23)));
        assert(holds_no_address(G_XOR4_SPLIT as int));
        assert(holds_no_address(G_XOR4_SPLIT + 1));
        assert forall|o: int| 0 <= o < ROT_COLS_PER_G implies #[trigger] rot_cell(rot, g, o) == kb(
            0,
        ) by {
            assert(rot[g * ROT_COLS_PER_G + o] == kb(0));
        }
        assert(b1_byte(up, rot, g, i - 23) == kb(0));
        assert(cs[23 + (i - 23)] == kb(0));
    }
}

/// The constraints of a G-function of a row hold on a padding row.
proof fn lemma_padding_quarter_round(
    up: Seq<KoalaBear>,
    rot: Seq<KoalaBear>,
    zero_vec_ptr: int,
    base: int,
    g: int,
    i: int,
)
    requires
        is_padding_row(up, zero_vec_ptr, base),
        rot.len() >= N_ROT_COLS,
        forall|k: int| 0 <= k < N_ROT_COLS ==> #[trigger] rot[k] == kb(0),
        0 <= g < 4,
        0 <= i < 31,
    ensures
        quarter_round_constraints(up, rot, g, kb(base))[i] == kb(0),
{
    let (v, u) = (col_qr(g), diag_qr(g));
    reveal(quarter_round_constraints);
    if 2 <= i < 4 {
        lemma_padding_cells(up, zero_vec_ptr, base, g);
        lemma_zero_arithmetic();
    } else {
        lemma_padding_g(up, rot, zero_vec_ptr, base, g, v.0, v.1, v.2, v.3, i);
        lemma_padding_g(up, rot, zero_vec_ptr, base, g, u.0, u.1, u.2, u.3, i);
        assert(up[COL_IS_COLUMN_QR as int] == kb(0));
        lemma_selected_zero(0, kb(0), kb(0));
    }
}

/// The outputs of a G-function are zero on a padding row, and its rotation constraints hold.
proof fn lemma_padding_outputs(
    up: Seq<KoalaBear>,
    rot: Seq<KoalaBear>,
    zero_vec_ptr: int,
    base: int,
    g: int,
)
    requires
        is_padding_row(up, zero_vec_ptr, base),
        rot.len() >= N_ROT_COLS,
        forall|k: int| 0 <= k < N_ROT_COLS ==> #[trigger] rot[k] == kb(0),
        0 <= g < 4,
    ensures
        forall|w: int| 0 <= w < 4 ==> #[trigger] g_outputs(up, rot, g)[w] == (kb(0), kb(0)),
        rotation_constraints(up, rot, g)[0] == kb(0),
        rotation_constraints(up, rot, g)[1] == kb(0),
{
    lemma_padding_cells(up, zero_vec_ptr, base, g);
    lemma_zero_arithmetic();
    lemma_b_output::<KoalaBear>(0, 0, 0, 0, 0);
    reveal(g_outputs);
    assert(rot_cell(rot, g, G_CARRY_ROT7 as int) == kb(0));
    assert(rot_cell(rot, g, G_XOR4_B3_SPLIT as int) == kb(0));
    assert(rot_cell(rot, g, G_XOR4_B3_SPLIT + 1) == kb(0));
}

/// A padding row satisfies every constraint of the table, whatever row follows: with the base of
/// the byte-XOR table that the row was made with, and zeros in the rotation columns.
pub proof fn law_padding_satisfies_constraints(
    up: Seq<KoalaBear>,
    rot: Seq<KoalaBear>,
    down: Seq<KoalaBear>,
    zero_vec_ptr: int,
    xor_table_base: int,
)
    requires
        is_padding_row(up, zero_vec_ptr, xor_table_base),
        rot.len() >= N_ROT_COLS,
        forall|k: int| 0 <= k < N_ROT_COLS ==> #[trigger] rot[k] == KoalaBear::ring_zero(),
    ensures
        forall|j: int|
            0 <= j < row_constraints(up, rot, down, kb(xor_table_base)).len()
                ==> #[trigger] row_constraints(up, rot, down, kb(xor_table_base))[j]
                == KoalaBear::ring_zero(),
{
    let base = kb(xor_table_base);
    let all = constrained_padding(zero_vec_ptr, xor_table_base);
    law_constraint_count(up, rot, down, base);
    lemma_zero_arithmetic();
    assert(up[COL_FLAG_ACTIVE as int] == all[COL_FLAG_ACTIVE as int]);
    assert(up[COL_IS_FIRST_ROW as int] == all[COL_IS_FIRST_ROW as int]);
    assert(up[COL_IS_LAST_ROW as int] == all[COL_IS_LAST_ROW as int]);
    assert(up[COL_IS_COLUMN_QR as int] == all[COL_IS_COLUMN_QR as int]);
    assert forall|j: int| 0 <= j < row_constraints(up, rot, down, base).len() implies
        #[trigger] row_constraints(up, rot, down, base)[j] == KoalaBear::ring_zero() by {
        if j < 4 {
            lemma_edge_positions(up, rot, down, base, j);
        } else if j < 168 {
            let g = (j - 4) / 41;
            let i = (j - 4) % 41;
            lemma_row_positions(up, rot, down, base, g, i);
            if i < 31 {
                lemma_padding_quarter_round(up, rot, zero_vec_ptr, xor_table_base, g, i);
            } else {
                lemma_padding_outputs(up, rot, zero_vec_ptr, xor_table_base, g);
                if i >= 33 {
                    let (w, l) = ((i - 33) / 2, (i - 33) % 2);
                    lemma_padding_cells(up, zero_vec_ptr, xor_table_base, g);
                    assert(g_outputs(up, rot, g)[w] == (kb(0), kb(0)));
                    assert(up[output_state_column(diag_word(g, w), l)] == kb(0));
                    lemma_output_zero(up, rot, g, w, l, 0);
                }
            }
        } else {
            lemma_edge_positions(up, rot, down, base, j);
            reveal(down_constraint);
            let not_last = KoalaBear::ring_one().minus(up[COL_IS_LAST_ROW as int]);
            lemma_zero_times(not_last);
            let i = j - 168;
            let source = if i < 32 {
                up[COL_OUTPUT_STATE_START + i]
            } else if i == 32 {
                up[COL_LEFT_ADDR as int]
            } else if i == 33 {
                up[COL_RIGHT_ADDR as int]
            } else {
                up[COL_RESULT_ADDR as int]
            };
            lemma_zero_times(down[i].minus(source));
        }
    }
}

} // verus!
