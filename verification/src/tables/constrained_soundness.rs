//! What the constraints of the constrained Blake3 table enforce.
//!
//! Where every constraint of a row vanishes, its byte columns hold bytes, its nibble columns hold
//! nibbles and its lookups into the byte-XOR table hold, the words of the row are related as the
//! G-function relates them. The sum behind the second message word is the one step that no
//! constraint reads.

use crate::field::{kb, residue, KoalaBear, Ring, ORDER_U32};
use crate::prime::law_no_zero_divisors;
use crate::sumcheck::vectors::all_canonical;
use crate::tables::constrained_air::{
    add1_carry_hi, add1_carry_lo, add2_carry_hi, add2_carry_lo, b1_byte, bool_constraint,
    bytes_constraint, carry_of, g_cell, g_constraints, g_limb, g_outputs, last_addr_constraint,
    message_constraint, quarter_round_constraints, reads_moving_words, rot_cell, scaled, selected,
    split_constraint, ternary_constraint, xor4_nibble, INV_65536, R_CONST,
};
use crate::tables::constrained_cols::{
    col_qr, diag_qr, output_state_column, state_column, COL_FLAG_ACTIVE, COL_IS_COLUMN_QR,
    COL_IS_FIRST_ROW, COL_IS_LAST_ROW, COL_LEFT_ADDR, COL_OUTPUT_STATE_START, COL_RESULT_ADDR,
    COL_RIGHT_ADDR, G_ADD1_BYTES, G_ADD2_BYTES, G_ADD3_BYTES, G_ADD4_BYTES, G_B_BYTES, G_CARRY_ROT7,
    G_D_BYTES,
    G_MX_BYTES, G_MX_VALUE, G_MY_BYTES, G_MY_VALUE, G_XOR2_ADDRS, G_XOR2_BYTES, G_XOR4_ADDRS,
    G_XOR4_B0_SPLIT, G_XOR4_B2_SPLIT, G_XOR4_B3_SPLIT, G_XOR4_BYTES, G_XOR4_SPLIT, G_XOR6_ADDRS,
    G_XOR6_BYTES, G_XOR8_ADDRS, G_XOR8_BYTES, G_XOR8_SPLIT, N_COMMITTED_COLS, N_ROT_COLS,
};
use crate::tables::constrained_laws::{
    lemma_b_output, lemma_constraint_positions, lemma_edge_positions, lemma_fixed_positions,
    lemma_limbs_of_rotation, lemma_limbs_of_word, lemma_message_sum, lemma_rotated_bytes,
    lemma_rotated_bytes_12, lemma_rotated_limbs_7, lemma_row_positions, lemma_sum3, lemma_sum4,
};
use crate::tables::constrained_table::{down_constraint, output_constraint, row_constraints};
use crate::word::{byte_of, law_bytes_of_word, limb_hi, limb_lo, rotr};
use vstd::arithmetic::div_mod::{lemma_mod_multiples_vanish, lemma_small_mod};
use vstd::prelude::*;

verus! {

/// The words that the columns of a G-function hold.
pub struct GRow {
    /// The words of the state.
    pub a: u32,
    pub b: u32,
    pub c: u32,
    pub d: u32,
    /// The words of the byte columns, in the order of the steps.
    pub mx: u32,
    pub my: u32,
    pub a1: u32,
    pub d_bytes: u32,
    pub xor2: u32,
    pub c1: u32,
    pub b_bytes: u32,
    pub xor4: u32,
    pub a2: u32,
    pub xor6: u32,
    pub c2: u32,
    pub xor8: u32,
}

/// Four columns hold the bytes of a word.
pub open spec fn holds_bytes(w: u32, up: Seq<KoalaBear>, g: int, offset: int) -> bool {
    forall|i: int| 0 <= i < 4 ==> #[trigger] g_cell(up, g, offset + i) == kb(byte_of(w, i) as int)
}

/// Two columns hold the limbs of a word of the state.
pub open spec fn holds_limbs(w: u32, up: Seq<KoalaBear>, index: int) -> bool {
    &&& up[state_column(index, 0)] == kb(limb_lo(w) as int)
    &&& up[state_column(index, 1)] == kb(limb_hi(w) as int)
}

/// The lookups of one XOR hold: where the address is that of two bytes, the byte looked up is their
/// XOR.
pub open spec fn lookups_hold(
    up: Seq<KoalaBear>,
    g: int,
    base: int,
    addrs: int,
    bytes: int,
) -> bool {
    forall|i: int, x: u32, z: u32|
        #![trigger g_cell(up, g, addrs + i), x ^ z]
        0 <= i < 4 && x < 256 && z < 256 && g_cell(up, g, addrs + i) == kb(base + 256 * x + z)
            ==> g_cell(up, g, bytes + i) == kb((x ^ z) as int)
}

/// The columns of G-function `g` hold the words of `y`, and what is looked up is the XOR. The split
/// of bytes 0 and 2 of the second XOR, which no constraint reads, is that of these bytes.
pub open spec fn is_g_row(
    y: GRow,
    g: int,
    a: int,
    b: int,
    c: int,
    d: int,
    up: Seq<KoalaBear>,
    rot: Seq<KoalaBear>,
    base: int,
) -> bool {
    &&& all_canonical(up)
    &&& 0 <= g < 4
    &&& up.len() >= N_COMMITTED_COLS
    &&& holds_limbs(y.a, up, a)
    &&& holds_limbs(y.b, up, b)
    &&& holds_limbs(y.c, up, c)
    &&& holds_limbs(y.d, up, d)
    &&& holds_bytes(y.mx, up, g, G_MX_BYTES as int)
    &&& holds_bytes(y.my, up, g, G_MY_BYTES as int)
    &&& holds_bytes(y.a1, up, g, G_ADD1_BYTES as int)
    &&& holds_bytes(y.d_bytes, up, g, G_D_BYTES as int)
    &&& holds_bytes(y.xor2, up, g, G_XOR2_BYTES as int)
    &&& holds_bytes(y.c1, up, g, G_ADD2_BYTES as int)
    &&& holds_bytes(y.b_bytes, up, g, G_B_BYTES as int)
    &&& holds_bytes(y.xor4, up, g, G_XOR4_BYTES as int)
    &&& holds_bytes(y.a2, up, g, G_ADD3_BYTES as int)
    &&& holds_bytes(y.xor6, up, g, G_XOR6_BYTES as int)
    &&& holds_bytes(y.c2, up, g, G_ADD4_BYTES as int)
    &&& holds_bytes(y.xor8, up, g, G_XOR8_BYTES as int)
    &&& lookups_hold(up, g, base, G_XOR2_ADDRS as int, G_XOR2_BYTES as int)
    &&& lookups_hold(up, g, base, G_XOR4_ADDRS as int, G_XOR4_BYTES as int)
    &&& lookups_hold(up, g, base, G_XOR6_ADDRS as int, G_XOR6_BYTES as int)
    &&& lookups_hold(up, g, base, G_XOR8_ADDRS as int, G_XOR8_BYTES as int)
    &&& g_cell(up, g, G_XOR4_SPLIT as int).value < 16
    &&& g_cell(up, g, G_XOR4_SPLIT + 1).value < 16
    &&& g_cell(up, g, G_XOR8_SPLIT as int).value < 128
    &&& rot_cell(rot, g, G_XOR4_B3_SPLIT as int).value < 16
    &&& rot_cell(rot, g, G_XOR4_B3_SPLIT + 1).value < 16
    &&& rot_cell(rot, g, G_XOR4_B0_SPLIT as int) == kb(byte_of(y.xor4, 0) as int % 16)
    &&& rot_cell(rot, g, G_XOR4_B0_SPLIT + 1) == kb(byte_of(y.xor4, 0) as int / 16)
    &&& rot_cell(rot, g, G_XOR4_B2_SPLIT as int) == kb(byte_of(y.xor4, 2) as int % 16)
    &&& rot_cell(rot, g, G_XOR4_B2_SPLIT + 1) == kb(byte_of(y.xor4, 2) as int / 16)
}

/// Congruent numbers give the same element, and small ones are then equal.
pub proof fn lemma_congruent(m: int, n: int)
    requires
        residue(m - n) == 0,
    ensures
        kb(m) == kb(n),
        -(ORDER_U32 as int) < m - n < ORDER_U32 ==> m == n,
{
    let p = ORDER_U32 as int;
    let k = (m - n) / p;
    vstd::arithmetic::div_mod::lemma_fundamental_div_mod(m - n, p);
    assert(m == p * k + n);
    lemma_mod_multiples_vanish(k, n, p);
    if -p < m - n < p {
        assert(k == 0) by (nonlinear_arith)
            requires
                -p < p * k < p,
                p > 0,
        ;
    }
}

/// Different small numbers give different elements.
pub proof fn lemma_small_elements(m: int, n: int)
    requires
        kb(m) == kb(n),
        0 <= m < ORDER_U32,
        0 <= n < ORDER_U32,
    ensures
        m == n,
{
    lemma_small_mod(m as nat, ORDER_U32 as nat);
    lemma_small_mod(n as nat, ORDER_U32 as nat);
}

/// An element is that of its residue.
pub proof fn lemma_own_residue(x: KoalaBear)
    requires
        x.canonical(),
    ensures
        x == kb(x.value as int),
{
    lemma_small_mod(x.value as nat, ORDER_U32 as nat);
}

/// Only bits meet the constraint on bits.
pub proof fn law_bool_constraint_sound(v: KoalaBear)
    requires
        v.canonical(),
        bool_constraint(v) == KoalaBear::ring_zero(),
    ensures
        v == kb(0) || v == kb(1),
{
    lemma_own_residue(v);
    KoalaBear::law_of(v.value as int, 1);
    law_no_zero_divisors(v, v.minus(KoalaBear::ring_one()));
    if v != kb(0) {
        lemma_congruent(v.value as int, 1);
    }
}

/// Only 0, 1 and 2 meet the constraint on the carries of a sum of three.
pub proof fn law_ternary_constraint_sound(v: KoalaBear)
    requires
        v.canonical(),
        ternary_constraint(v) == KoalaBear::ring_zero(),
    ensures
        v == kb(0) || v == kb(1) || v == kb(2),
{
    lemma_own_residue(v);
    KoalaBear::law_of(v.value as int, 1);
    KoalaBear::law_of(v.value as int, 2);
    let first = v.times(v.minus(KoalaBear::ring_one()));
    law_no_zero_divisors(first, v.minus(KoalaBear::of(2)));
    if first == KoalaBear::ring_zero() {
        law_no_zero_divisors(v, v.minus(KoalaBear::ring_one()));
        if v != kb(0) {
            lemma_congruent(v.value as int, 1);
        }
    } else {
        lemma_congruent(v.value as int, 2);
    }
}

/// A carry that is small is the carry of the sum.
proof fn lemma_carry_back(t: int, r: int, c: int)
    requires
        0 <= t < 1000000,
        0 <= r < 1000000,
        0 <= c <= 2,
        carry_of(kb(t), kb(r)) == kb(c),
    ensures
        t == r + 65536 * c,
{
    let p = ORDER_U32 as int;
    let n = (t - r) * INV_65536;
    KoalaBear::law_of(t, r);
    KoalaBear::law_of(t - r, INV_65536 as int);
    lemma_small_mod(c as nat, p as nat);
    assert(residue(n) == c);
    let k = n / p;
    vstd::arithmetic::div_mod::lemma_fundamental_div_mod(n, p);
    // 65536 * INV_65536 is one more than a multiple of the order.
    let m = 65536 * k - 65535 * (t - r);
    assert(t - r - 65536 * c == p * m) by (nonlinear_arith)
        requires
            n == (t - r) * INV_65536,
            n == p * k + c,
            m == 65536 * k - 65535 * (t - r),
            p == 2_130_706_433,
            INV_65536 == 2_130_673_921,
    ;
    assert(m == 0) by (nonlinear_arith)
        requires
            -2000000 < p * m < 2000000,
            p == 2_130_706_433,
    ;
}

/// The limbs of the word that four byte columns hold.
proof fn lemma_limbs_at(w: u32, up: Seq<KoalaBear>, g: int, offset: int)
    requires
        holds_bytes(w, up, g, offset),
    ensures
        g_limb(up, g, offset, offset + 1) == kb(limb_lo(w) as int),
        g_limb(up, g, offset + 2, offset + 3) == kb(limb_hi(w) as int),
        g_limb(up, g, offset + 2, offset + 3) == kb(limb_lo(rotr(w, 16)) as int),
        g_limb(up, g, offset, offset + 1) == kb(limb_hi(rotr(w, 16)) as int),
        g_limb(up, g, offset + 1, offset + 2) == kb(limb_lo(rotr(w, 8)) as int),
        g_limb(up, g, offset + 3, offset) == kb(limb_hi(rotr(w, 8)) as int),
{
    assert(g_cell(up, g, offset + 0) == kb(byte_of(w, 0) as int));
    assert(g_cell(up, g, offset + 1) == kb(byte_of(w, 1) as int));
    assert(g_cell(up, g, offset + 2) == kb(byte_of(w, 2) as int));
    assert(g_cell(up, g, offset + 3) == kb(byte_of(w, 3) as int));
    lemma_limbs_of_word(w);
    lemma_limbs_of_rotation(w);
}

/// A word whose limbs are those of a sum, up to carries, is the sum modulo `2^32`.
proof fn lemma_sum_back(x: u32, y: u32, z: u32, r: u32, lo: int, hi: int)
    requires
        limb_lo(x) + limb_lo(y) + limb_lo(z) == limb_lo(r) + 65536 * lo,
        limb_hi(x) + limb_hi(y) + limb_hi(z) + lo == limb_hi(r) + 65536 * hi,
    ensures
        r == (x + y + z) % 0x1_0000_0000,
{
    let n: int = 0x1_0000_0000;
    assert(x == limb_lo(x) + 65536 * limb_hi(x));
    assert(y == limb_lo(y) + 65536 * limb_hi(y));
    assert(z == limb_lo(z) + 65536 * limb_hi(z));
    assert(r == limb_lo(r) + 65536 * limb_hi(r));
    assert(x + y + z == n * hi + r);
    lemma_mod_multiples_vanish(hi, r as int, n);
    lemma_small_mod(r as nat, n as nat);
}

/// The carries of the first sum make `a'` the sum of three words.
proof fn lemma_first_sum_sound(
    y: GRow,
    g: int,
    a: int,
    b_lo: KoalaBear,
    b_hi: KoalaBear,
    up: Seq<KoalaBear>,
)
    requires
        holds_limbs(y.a, up, a),
        b_lo == kb(limb_lo(y.b) as int),
        b_hi == kb(limb_hi(y.b) as int),
        holds_bytes(y.mx, up, g, G_MX_BYTES as int),
        holds_bytes(y.a1, up, g, G_ADD1_BYTES as int),
        ternary_constraint(add1_carry_lo(up, g, a, b_lo)) == kb(0),
        ternary_constraint(add1_carry_hi(up, g, a, b_lo, b_hi)) == kb(0),
    ensures
        y.a1 == (y.a + y.b + y.mx) % 0x1_0000_0000,
{
    lemma_limbs_at(y.mx, up, g, G_MX_BYTES as int);
    lemma_limbs_at(y.a1, up, g, G_ADD1_BYTES as int);
    let (a_lo, a_hi) = (limb_lo(y.a) as int, limb_hi(y.a) as int);
    let (c_lo, c_hi) = (limb_lo(y.b) as int, limb_hi(y.b) as int);
    let (m_lo, m_hi) = (limb_lo(y.mx) as int, limb_hi(y.mx) as int);
    let carry_lo = add1_carry_lo(up, g, a, b_lo);
    let carry_hi = add1_carry_hi(up, g, a, b_lo, b_hi);
    law_ternary_constraint_sound(carry_lo);
    law_ternary_constraint_sound(carry_hi);
    let lo: int = if carry_lo == kb(0) {
        0
    } else if carry_lo == kb(1) {
        1
    } else {
        2
    };
    let hi: int = if carry_hi == kb(0) {
        0
    } else if carry_hi == kb(1) {
        1
    } else {
        2
    };
    lemma_sum3::<KoalaBear>(a_lo, c_lo, m_lo);
    lemma_sum4::<KoalaBear>(a_hi, c_hi, m_hi, lo);
    lemma_carry_back(a_lo + c_lo + m_lo, limb_lo(y.a1) as int, lo);
    lemma_carry_back(a_hi + c_hi + m_hi + lo, limb_hi(y.a1) as int, hi);
    lemma_sum_back(y.a, y.b, y.mx, y.a1, lo, hi);
}

/// Two carries that are bits make `r` the sum of two words.
proof fn lemma_pair_sum_sound(
    x: u32,
    z: u32,
    r: u32,
    x_lo: KoalaBear,
    x_hi: KoalaBear,
    z_lo: KoalaBear,
    z_hi: KoalaBear,
    r_lo: KoalaBear,
    r_hi: KoalaBear,
)
    requires
        x_lo == kb(limb_lo(x) as int),
        x_hi == kb(limb_hi(x) as int),
        z_lo == kb(limb_lo(z) as int),
        z_hi == kb(limb_hi(z) as int),
        r_lo == kb(limb_lo(r) as int),
        r_hi == kb(limb_hi(r) as int),
        bool_constraint(carry_of(x_lo.plus(z_lo), r_lo)) == kb(0),
        bool_constraint(carry_of(x_hi.plus(z_hi).plus(carry_of(x_lo.plus(z_lo), r_lo)), r_hi)) == kb(
            0,
        ),
    ensures
        r == (x + z) % 0x1_0000_0000,
{
    let carry_lo = carry_of(x_lo.plus(z_lo), r_lo);
    let carry_hi = carry_of(x_hi.plus(z_hi).plus(carry_lo), r_hi);
    law_bool_constraint_sound(carry_lo);
    law_bool_constraint_sound(carry_hi);
    let lo: int = if carry_lo == kb(0) {
        0
    } else {
        1
    };
    let hi: int = if carry_hi == kb(0) {
        0
    } else {
        1
    };
    lemma_sum3::<KoalaBear>(limb_lo(x) as int, limb_lo(z) as int, 0);
    lemma_sum3::<KoalaBear>(limb_hi(x) as int, limb_hi(z) as int, lo);
    lemma_carry_back(limb_lo(x) + limb_lo(z), limb_lo(r) as int, lo);
    lemma_carry_back(limb_hi(x) + limb_hi(z) + lo, limb_hi(r) as int, hi);
    lemma_sum_back(x, z, 0, r, lo, hi);
}

/// Two limbs whose constraint vanishes are made up of the bytes.
proof fn lemma_bytes_sound(w: u32, v: u32, up: Seq<KoalaBear>, g: int, index: int, offset: int)
    requires
        holds_limbs(w, up, index),
        holds_bytes(v, up, g, offset),
        bytes_constraint(up, g, up[state_column(index, 0)], offset, offset + 1) == kb(0),
        bytes_constraint(up, g, up[state_column(index, 1)], offset + 2, offset + 3) == kb(0),
    ensures
        w == v,
{
    law_bytes_of_word(w);
    law_bytes_of_word(v);
    assert(g_cell(up, g, offset + 0) == kb(byte_of(v, 0) as int));
    assert(g_cell(up, g, offset + 1) == kb(byte_of(v, 1) as int));
    assert(g_cell(up, g, offset + 2) == kb(byte_of(v, 2) as int));
    assert(g_cell(up, g, offset + 3) == kb(byte_of(v, 3) as int));
    lemma_split_back(limb_lo(w) as int, byte_of(v, 0) as int, byte_of(v, 1) as int, 256);
    lemma_split_back(limb_hi(w) as int, byte_of(v, 2) as int, byte_of(v, 3) as int, 256);
}

/// A value less its two parts vanishes only where it is made up of them.
proof fn lemma_split_back(whole: int, low: int, high: int, modulus: int)
    requires
        0 <= whole < 1000000,
        0 <= low < 1000,
        0 <= high < 1000,
        0 < modulus <= 256,
        kb(whole).minus(kb(low)).minus(scaled(kb(high), modulus)) == kb(0),
    ensures
        whole == low + modulus * high,
{
    KoalaBear::law_of(whole, low);
    KoalaBear::law_of(high, modulus);
    KoalaBear::law_of(whole - low, high * modulus);
    assert(0 <= high * modulus <= 256000 && high * modulus == modulus * high) by (nonlinear_arith)
        requires
            0 <= high < 1000,
            0 < modulus <= 256,
    ;
    lemma_congruent(whole, low + high * modulus);
}

/// An address whose constraint vanishes is that of the two bytes.
proof fn lemma_address_back(addr: KoalaBear, base: int, first: int, second: int)
    requires
        addr.canonical(),
        addr.minus(kb(base)).minus(scaled(kb(first), 256)).minus(kb(second)) == kb(0),
    ensures
        addr == kb(base + 256 * first + second),
{
    let v = addr.value as int;
    lemma_own_residue(addr);
    KoalaBear::law_of(v, base);
    KoalaBear::law_of(first, 256);
    KoalaBear::law_of(v - base, first * 256);
    KoalaBear::law_of(v - base - first * 256, second);
    lemma_congruent(v, base + 256 * first + second);
}

/// A word whose bytes are the XORs of bytes is the XOR of the words.
proof fn lemma_xor_of_bytes(x: u32, z: u32, r: u32)
    requires
        forall|i: int| 0 <= i < 4 ==> #[trigger] byte_of(r, i) == byte_of(x, i) ^ byte_of(z, i),
    ensures
        r == x ^ z,
{
    assert(byte_of(r, 0) == byte_of(x, 0) ^ byte_of(z, 0));
    assert(byte_of(r, 1) == byte_of(x, 1) ^ byte_of(z, 1));
    assert(byte_of(r, 2) == byte_of(x, 2) ^ byte_of(z, 2));
    assert(byte_of(r, 3) == byte_of(x, 3) ^ byte_of(z, 3));
    assert(r == x ^ z) by (bit_vector)
        requires
            r % 256 == (x % 256) ^ (z % 256),
            (r / 256) % 256 == ((x / 256) % 256) ^ ((z / 256) % 256),
            (r / 65536) % 256 == ((x / 65536) % 256) ^ ((z / 65536) % 256),
            r / 16777216 == (x / 16777216) ^ (z / 16777216),
    ;
}

/// One XOR: where the addresses are those of the bytes of `x` and `z` and the lookups hold, the
/// columns looked up hold the bytes of `x ^ z`.
proof fn lemma_xor_sound(
    x: u32,
    z: u32,
    r: u32,
    up: Seq<KoalaBear>,
    g: int,
    base: int,
    addrs: int,
    bytes: int,
)
    requires
        lookups_hold(up, g, base, addrs, bytes),
        holds_bytes(r, up, g, bytes),
        forall|i: int|
            0 <= i < 4 ==> #[trigger] g_cell(up, g, addrs + i) == kb(
                base + 256 * byte_of(x, i) + byte_of(z, i),
            ),
    ensures
        r == x ^ z,
{
    law_bytes_of_word(x);
    law_bytes_of_word(z);
    law_bytes_of_word(r);
    assert forall|i: int| 0 <= i < 4 implies #[trigger] byte_of(r, i) == byte_of(x, i) ^ byte_of(
        z,
        i,
    ) by {
        let (m, n) = (byte_of(x, i), byte_of(z, i));
        assert(m < 256 && n < 256);
        assert(m ^ n < 256) by (bit_vector)
            requires
                m < 256,
                n < 256,
        ;
        assert(g_cell(up, g, addrs + i) == kb(base + 256 * m + n));
        assert(g_cell(up, g, bytes + i) == kb((m ^ n) as int));
        lemma_small_elements(byte_of(r, i) as int, (m ^ n) as int);
    }
    lemma_xor_of_bytes(x, z, r);
}

/// A message constraint that vanishes makes the bytes those of the Montgomery form of the value.
proof fn lemma_message_sound(w: u32, up: Seq<KoalaBear>, g: int, value: int, bytes: int)
    requires
        holds_bytes(w, up, g, bytes),
        g_cell(up, g, value).canonical(),
        message_constraint(up, g, value, bytes) == kb(0),
    ensures
        (g_cell(up, g, value).value * 0x1_0000_0000) % (ORDER_U32 as int) == w as int % (
        ORDER_U32 as int),
{
    let p = ORDER_U32 as int;
    let v = g_cell(up, g, value).value as int;
    law_bytes_of_word(w);
    assert(g_cell(up, g, bytes + 0) == kb(byte_of(w, 0) as int));
    assert(g_cell(up, g, bytes + 1) == kb(byte_of(w, 1) as int));
    assert(g_cell(up, g, bytes + 2) == kb(byte_of(w, 2) as int));
    assert(g_cell(up, g, bytes + 3) == kb(byte_of(w, 3) as int));
    let (b0, b1, b2, b3) = (
        byte_of(w, 0) as int,
        byte_of(w, 1) as int,
        byte_of(w, 2) as int,
        byte_of(w, 3) as int,
    );
    lemma_own_residue(g_cell(up, g, value));
    lemma_message_sum::<KoalaBear>(v, b0, b1, b2, b3);
    let n = v * R_CONST - b0 - b1 * 256 - b2 * 65536 - b3 * 16777216;
    assert(residue(n) == 0);
    let k = n / p;
    vstd::arithmetic::div_mod::lemma_fundamental_div_mod(n, p);
    assert(v * 0x1_0000_0000 == p * (k + v) + w) by (nonlinear_arith)
        requires
            n == v * R_CONST - w,
            n == p * k,
            p == 2_130_706_433,
            R_CONST == 2_164_260_863,
    ;
    lemma_mod_multiples_vanish(k + v, w as int, p);
}

/// The operand bytes are those of the words of the state.
proof fn lemma_operands_sound(
    y: GRow,
    g: int,
    a: int,
    b: int,
    c: int,
    d: int,
    up: Seq<KoalaBear>,
    rot: Seq<KoalaBear>,
    base: int,
)
    requires
        is_g_row(y, g, a, b, c, d, up, rot, base),
        forall|i: int|
            4 <= i < 31 ==> #[trigger] g_constraints(up, rot, g, a, b, c, d, kb(base))[i] == kb(0),
    ensures
        y.d_bytes == y.d,
        y.b_bytes == y.b,
{
    let cs = g_constraints(up, rot, g, a, b, c, d, kb(base));
    lemma_constraint_positions(up, rot, g, a, b, c, d, kb(base));
    assert(cs[4] == kb(0) && cs[5] == kb(0) && cs[12] == kb(0) && cs[13] == kb(0));
    lemma_bytes_sound(y.d, y.d_bytes, up, g, d, G_D_BYTES as int);
    lemma_bytes_sound(y.b, y.b_bytes, up, g, b, G_B_BYTES as int);
}

/// The first two XORs and the sum between them.
proof fn lemma_first_half_sound(
    y: GRow,
    g: int,
    a: int,
    b: int,
    c: int,
    d: int,
    up: Seq<KoalaBear>,
    rot: Seq<KoalaBear>,
    base: int,
)
    requires
        is_g_row(y, g, a, b, c, d, up, rot, base),
        forall|i: int|
            4 <= i < 31 ==> #[trigger] g_constraints(up, rot, g, a, b, c, d, kb(base))[i] == kb(0),
    ensures
        y.xor2 == y.d ^ y.a1,
        y.c1 == (y.c + rotr(y.xor2, 16)) % 0x1_0000_0000,
        y.xor4 == y.b ^ y.c1,
{
    let cs = g_constraints(up, rot, g, a, b, c, d, kb(base));
    lemma_constraint_positions(up, rot, g, a, b, c, d, kb(base));
    lemma_operands_sound(y, g, a, b, c, d, up, rot, base);
    assert forall|i: int| 0 <= i < 4 implies #[trigger] g_cell(up, g, G_XOR2_ADDRS + i) == kb(
        base + 256 * byte_of(y.d, i) + byte_of(y.a1, i),
    ) by {
        assert(cs[6 + i] == kb(0));
        assert(g_cell(up, g, G_D_BYTES + i) == kb(byte_of(y.d_bytes, i) as int));
        assert(g_cell(up, g, G_ADD1_BYTES + i) == kb(byte_of(y.a1, i) as int));
        lemma_address_back(
            g_cell(up, g, G_XOR2_ADDRS + i),
            base,
            byte_of(y.d, i) as int,
            byte_of(y.a1, i) as int,
        );
    }
    lemma_xor_sound(
        y.d,
        y.a1,
        y.xor2,
        up,
        g,
        base,
        G_XOR2_ADDRS as int,
        G_XOR2_BYTES as int,
    );
    lemma_limbs_at(y.xor2, up, g, G_XOR2_BYTES as int);
    lemma_limbs_at(y.c1, up, g, G_ADD2_BYTES as int);
    assert(cs[10] == kb(0) && cs[11] == kb(0));
    lemma_pair_sum_sound(
        y.c,
        rotr(y.xor2, 16),
        y.c1,
        up[state_column(c, 0)],
        up[state_column(c, 1)],
        g_limb(up, g, G_XOR2_BYTES + 2, G_XOR2_BYTES + 3),
        g_limb(up, g, G_XOR2_BYTES as int, G_XOR2_BYTES + 1),
        g_limb(up, g, G_ADD2_BYTES as int, G_ADD2_BYTES + 1),
        g_limb(up, g, G_ADD2_BYTES + 2, G_ADD2_BYTES + 3),
    );
    assert forall|i: int| 0 <= i < 4 implies #[trigger] g_cell(up, g, G_XOR4_ADDRS + i) == kb(
        base + 256 * byte_of(y.b, i) + byte_of(y.c1, i),
    ) by {
        assert(cs[14 + i] == kb(0));
        assert(g_cell(up, g, G_B_BYTES + i) == kb(byte_of(y.b_bytes, i) as int));
        assert(g_cell(up, g, G_ADD2_BYTES + i) == kb(byte_of(y.c1, i) as int));
        lemma_address_back(
            g_cell(up, g, G_XOR4_ADDRS + i),
            base,
            byte_of(y.b, i) as int,
            byte_of(y.c1, i) as int,
        );
    }
    lemma_xor_sound(
        y.b,
        y.c1,
        y.xor4,
        up,
        g,
        base,
        G_XOR4_ADDRS as int,
        G_XOR4_BYTES as int,
    );
}

/// Two nibbles whose split constraint vanishes are those of the byte.
proof fn lemma_nibble_pair(n: int, lo: KoalaBear, hi: KoalaBear)
    requires
        0 <= n < 256,
        lo.value < 16,
        hi.value < 16,
        kb(n).minus(lo).minus(scaled(hi, 16)) == kb(0),
    ensures
        lo == kb(n % 16),
        hi == kb(n / 16),
{
    lemma_own_residue(lo);
    lemma_own_residue(hi);
    lemma_split_back(n, lo.value as int, hi.value as int, 16);
}

/// The nibble columns hold the nibbles of the second XOR.
proof fn lemma_nibbles_sound(w: u32, up: Seq<KoalaBear>, rot: Seq<KoalaBear>, g: int, i: int)
    requires
        0 <= i < 4,
        holds_bytes(w, up, g, G_XOR4_BYTES as int),
        g_cell(up, g, G_XOR4_SPLIT as int).value < 16,
        g_cell(up, g, G_XOR4_SPLIT + 1).value < 16,
        rot_cell(rot, g, G_XOR4_B3_SPLIT as int).value < 16,
        rot_cell(rot, g, G_XOR4_B3_SPLIT + 1).value < 16,
        rot_cell(rot, g, G_XOR4_B0_SPLIT as int) == kb(byte_of(w, 0) as int % 16),
        rot_cell(rot, g, G_XOR4_B0_SPLIT + 1) == kb(byte_of(w, 0) as int / 16),
        rot_cell(rot, g, G_XOR4_B2_SPLIT as int) == kb(byte_of(w, 2) as int % 16),
        rot_cell(rot, g, G_XOR4_B2_SPLIT + 1) == kb(byte_of(w, 2) as int / 16),
        split_constraint(up, g, G_XOR4_BYTES + 1, G_XOR4_SPLIT as int, 16) == kb(0),
        g_cell(up, g, G_XOR4_BYTES + 3).minus(rot_cell(rot, g, G_XOR4_B3_SPLIT as int)).minus(
            scaled(rot_cell(rot, g, G_XOR4_B3_SPLIT + 1), 16),
        ) == kb(0),
    ensures
        xor4_nibble(up, rot, g, i, 0) == kb(byte_of(w, i) as int % 16),
        xor4_nibble(up, rot, g, i, 1) == kb(byte_of(w, i) as int / 16),
{
    assert(byte_of(w, 1) < 256 && byte_of(w, 3) < 256);
    assert(g_cell(up, g, G_XOR4_BYTES + i) == kb(byte_of(w, i) as int));
    if i == 1 {
        lemma_nibble_pair(
            byte_of(w, 1) as int,
            g_cell(up, g, G_XOR4_SPLIT as int),
            g_cell(up, g, G_XOR4_SPLIT + 1),
        );
    } else if i == 3 {
        lemma_nibble_pair(
            byte_of(w, 3) as int,
            rot_cell(rot, g, G_XOR4_B3_SPLIT as int),
            rot_cell(rot, g, G_XOR4_B3_SPLIT + 1),
        );
    }
}

/// The third XOR.
proof fn lemma_third_xor_sound(
    y: GRow,
    g: int,
    a: int,
    b: int,
    c: int,
    d: int,
    up: Seq<KoalaBear>,
    rot: Seq<KoalaBear>,
    base: int,
)
    requires
        is_g_row(y, g, a, b, c, d, up, rot, base),
        forall|i: int|
            4 <= i < 31 ==> #[trigger] g_constraints(up, rot, g, a, b, c, d, kb(base))[i] == kb(0),
    ensures
        y.xor6 == rotr(y.xor2, 16) ^ y.a2,
{
    let cs = g_constraints(up, rot, g, a, b, c, d, kb(base));
    lemma_constraint_positions(up, rot, g, a, b, c, d, kb(base));
    let d1 = rotr(y.xor2, 16);
    lemma_rotated_bytes(y.xor2);
    assert forall|i: int| 0 <= i < 4 implies #[trigger] g_cell(up, g, G_XOR6_ADDRS + i) == kb(
        base + 256 * byte_of(d1, i) + byte_of(y.a2, i),
    ) by {
        let j = (i + 2) % 4;
        assert(cs[19 + i] == kb(0));
        assert(g_cell(up, g, G_XOR2_BYTES + j) == kb(byte_of(y.xor2, j) as int));
        assert(byte_of(d1, i) == byte_of(y.xor2, j));
        assert(g_cell(up, g, G_ADD3_BYTES + i) == kb(byte_of(y.a2, i) as int));
        lemma_address_back(
            g_cell(up, g, G_XOR6_ADDRS + i),
            base,
            byte_of(d1, i) as int,
            byte_of(y.a2, i) as int,
        );
    }
    lemma_xor_sound(d1, y.a2, y.xor6, up, g, base, G_XOR6_ADDRS as int, G_XOR6_BYTES as int);
}

/// The last sum.
proof fn lemma_last_sum_sound(
    y: GRow,
    g: int,
    a: int,
    b: int,
    c: int,
    d: int,
    up: Seq<KoalaBear>,
    rot: Seq<KoalaBear>,
    base: int,
)
    requires
        is_g_row(y, g, a, b, c, d, up, rot, base),
        forall|i: int|
            4 <= i < 31 ==> #[trigger] g_constraints(up, rot, g, a, b, c, d, kb(base))[i] == kb(0),
    ensures
        y.c2 == (y.c1 + rotr(y.xor6, 8)) % 0x1_0000_0000,
{
    let cs = g_constraints(up, rot, g, a, b, c, d, kb(base));
    lemma_constraint_positions(up, rot, g, a, b, c, d, kb(base));
    lemma_limbs_at(y.xor6, up, g, G_XOR6_BYTES as int);
    lemma_limbs_at(y.c1, up, g, G_ADD2_BYTES as int);
    lemma_limbs_at(y.c2, up, g, G_ADD4_BYTES as int);
    assert(cs[29] == kb(0) && cs[30] == kb(0));
    lemma_pair_sum_sound(
        y.c1,
        rotr(y.xor6, 8),
        y.c2,
        g_limb(up, g, G_ADD2_BYTES as int, G_ADD2_BYTES + 1),
        g_limb(up, g, G_ADD2_BYTES + 2, G_ADD2_BYTES + 3),
        g_limb(up, g, G_XOR6_BYTES + 1, G_XOR6_BYTES + 2),
        g_limb(up, g, G_XOR6_BYTES + 3, G_XOR6_BYTES as int),
        g_limb(up, g, G_ADD4_BYTES as int, G_ADD4_BYTES + 1),
        g_limb(up, g, G_ADD4_BYTES + 2, G_ADD4_BYTES + 3),
    );
}

/// The last XOR.
proof fn lemma_last_xor_sound(
    y: GRow,
    g: int,
    a: int,
    b: int,
    c: int,
    d: int,
    up: Seq<KoalaBear>,
    rot: Seq<KoalaBear>,
    base: int,
)
    requires
        is_g_row(y, g, a, b, c, d, up, rot, base),
        forall|i: int|
            4 <= i < 31 ==> #[trigger] g_constraints(up, rot, g, a, b, c, d, kb(base))[i] == kb(0),
        g_cell(up, g, G_XOR4_BYTES + 3).minus(rot_cell(rot, g, G_XOR4_B3_SPLIT as int)).minus(
            scaled(rot_cell(rot, g, G_XOR4_B3_SPLIT + 1), 16),
        ) == kb(0),
    ensures
        y.xor8 == rotr(y.xor4, 12) ^ y.c2,
{
    let cs = g_constraints(up, rot, g, a, b, c, d, kb(base));
    lemma_constraint_positions(up, rot, g, a, b, c, d, kb(base));
    let b1 = rotr(y.xor4, 12);
    assert(cs[18] == kb(0));
    assert forall|i: int| 0 <= i < 4 implies #[trigger] g_cell(up, g, G_XOR8_ADDRS + i) == kb(
        base + 256 * byte_of(b1, i) + byte_of(y.c2, i),
    ) by {
        assert(cs[23 + i] == kb(0));
        lemma_last_address_sound(y, g, a, b, c, d, up, rot, base, i);
    }
    lemma_xor_sound(b1, y.c2, y.xor8, up, g, base, G_XOR8_ADDRS as int, G_XOR8_BYTES as int);
}

/// The split of the last XOR.
proof fn lemma_last_split_sound(w: u32, up: Seq<KoalaBear>, g: int)
    requires
        holds_bytes(w, up, g, G_XOR8_BYTES as int),
        g_cell(up, g, G_XOR8_SPLIT as int).value < 128,
        g_cell(up, g, G_XOR8_SPLIT + 1).canonical(),
        split_constraint(up, g, G_XOR8_BYTES as int, G_XOR8_SPLIT as int, 128) == kb(0),
        bool_constraint(g_cell(up, g, G_XOR8_SPLIT + 1)) == kb(0),
    ensures
        g_cell(up, g, G_XOR8_SPLIT as int).value == w % 128,
        g_cell(up, g, G_XOR8_SPLIT + 1).value == (w / 128) % 2,
{
    let (lo, hi) = (g_cell(up, g, G_XOR8_SPLIT as int), g_cell(up, g, G_XOR8_SPLIT + 1));
    lemma_own_residue(lo);
    law_bool_constraint_sound(hi);
    lemma_own_residue(hi);
    let n = byte_of(w, 0) as int;
    assert(g_cell(up, g, G_XOR8_BYTES + 0) == kb(n));
    lemma_split_back(n, lo.value as int, hi.value as int, 128);
    assert(n == w % 256);
}

/// The address of byte `i` of the last XOR.
proof fn lemma_last_address_sound(
    y: GRow,
    g: int,
    a: int,
    b: int,
    c: int,
    d: int,
    up: Seq<KoalaBear>,
    rot: Seq<KoalaBear>,
    base: int,
    i: int,
)
    requires
        is_g_row(y, g, a, b, c, d, up, rot, base),
        0 <= i < 4,
        split_constraint(up, g, G_XOR4_BYTES + 1, G_XOR4_SPLIT as int, 16) == kb(0),
        g_cell(up, g, G_XOR4_BYTES + 3).minus(rot_cell(rot, g, G_XOR4_B3_SPLIT as int)).minus(
            scaled(rot_cell(rot, g, G_XOR4_B3_SPLIT + 1), 16),
        ) == kb(0),
        last_addr_constraint(up, rot, g, kb(base), i) == kb(0),
    ensures
        g_cell(up, g, G_XOR8_ADDRS + i) == kb(
            base + 256 * byte_of(rotr(y.xor4, 12), i) + byte_of(y.c2, i),
        ),
{
    let b1 = rotr(y.xor4, 12);
    let n = byte_of(y.xor4, (i + 1) % 4) as int;
    let m = byte_of(y.xor4, (i + 2) % 4) as int;
    lemma_nibbles_sound(y.xor4, up, rot, g, (i + 1) % 4);
    lemma_nibbles_sound(y.xor4, up, rot, g, (i + 2) % 4);
    lemma_rotated_bytes_12(y.xor4);
    KoalaBear::law_of(m % 16, 16);
    KoalaBear::law_of(n / 16, (m % 16) * 16);
    assert(byte_of(b1, i) == n / 16 + 16 * (m % 16));
    assert(b1_byte(up, rot, g, i) == kb(byte_of(b1, i) as int));
    assert(g_cell(up, g, G_ADD4_BYTES + i) == kb(byte_of(y.c2, i) as int));
    reveal(last_addr_constraint);
    lemma_address_back(
        g_cell(up, g, G_XOR8_ADDRS + i),
        base,
        byte_of(b1, i) as int,
        byte_of(y.c2, i) as int,
    );
}

/// The constraints of one G-function enforce its steps: where all of them vanish, with that on byte
/// 3 of the second XOR, the message words are the Montgomery forms of the values read, the sums are
/// those of the words modulo `2^32`, and the XORs and rotations are those of the G-function.
pub proof fn law_g_constraints_sound(
    y: GRow,
    g: int,
    a: int,
    b: int,
    c: int,
    d: int,
    up: Seq<KoalaBear>,
    rot: Seq<KoalaBear>,
    base: int,
)
    requires
        is_g_row(y, g, a, b, c, d, up, rot, base),
        forall|i: int|
            0 <= i < 31 ==> #[trigger] g_constraints(up, rot, g, a, b, c, d, kb(base))[i]
                == KoalaBear::ring_zero(),
        g_cell(up, g, G_XOR4_BYTES + 3).minus(rot_cell(rot, g, G_XOR4_B3_SPLIT as int)).minus(
            scaled(rot_cell(rot, g, G_XOR4_B3_SPLIT + 1), 16),
        ) == KoalaBear::ring_zero(),
    ensures
        (g_cell(up, g, G_MX_VALUE as int).value * 0x1_0000_0000) % (ORDER_U32 as int) == y.mx as int
            % (ORDER_U32 as int),
        (g_cell(up, g, G_MY_VALUE as int).value * 0x1_0000_0000) % (ORDER_U32 as int) == y.my as int
            % (ORDER_U32 as int),
        y.a1 == (y.a + y.b + y.mx) % 0x1_0000_0000,
        y.xor2 == y.d ^ y.a1,
        y.c1 == (y.c + rotr(y.xor2, 16)) % 0x1_0000_0000,
        y.xor4 == y.b ^ y.c1,
        y.xor6 == rotr(y.xor2, 16) ^ y.a2,
        y.c2 == (y.c1 + rotr(y.xor6, 8)) % 0x1_0000_0000,
        y.xor8 == rotr(y.xor4, 12) ^ y.c2,
        y.d_bytes == y.d,
        y.b_bytes == y.b,
        g_cell(up, g, G_XOR8_SPLIT as int).value == y.xor8 % 128,
        g_cell(up, g, G_XOR8_SPLIT + 1).value == (y.xor8 / 128) % 2,
{
    let cs = g_constraints(up, rot, g, a, b, c, d, kb(base));
    lemma_constraint_positions(up, rot, g, a, b, c, d, kb(base));
    assert(cs[0] == kb(0) && cs[1] == kb(0) && cs[2] == kb(0) && cs[3] == kb(0));
    lemma_message_sound(y.mx, up, g, G_MX_VALUE as int, G_MX_BYTES as int);
    lemma_message_sound(y.my, up, g, G_MY_VALUE as int, G_MY_BYTES as int);
    lemma_operands_sound(y, g, a, b, c, d, up, rot, base);
    lemma_first_sum_sound(y, g, a, up[state_column(b, 0)], up[state_column(b, 1)], up);
    lemma_first_half_sound(y, g, a, b, c, d, up, rot, base);
    lemma_third_xor_sound(y, g, a, b, c, d, up, rot, base);
    lemma_last_sum_sound(y, g, a, b, c, d, up, rot, base);
    lemma_last_xor_sound(y, g, a, b, c, d, up, rot, base);
    assert(cs[27] == kb(0) && cs[28] == kb(0));
    lemma_last_split_sound(y.xor8, up, g);
}

/// A selection by a bit is the selected value.
proof fn lemma_selected_value(flag: KoalaBear, x: KoalaBear, y: KoalaBear)
    requires
        x.canonical(),
        y.canonical(),
    ensures
        flag == kb(1) ==> selected(flag, x, y) == x,
        flag == kb(0) ==> selected(flag, x, y) == y,
{
    let (v, w) = (x.value as int, y.value as int);
    lemma_own_residue(x);
    lemma_own_residue(y);
    KoalaBear::law_of(1, 1);
    KoalaBear::law_of(1, 0);
    KoalaBear::law_of(1, v);
    KoalaBear::law_of(0, w);
    KoalaBear::law_of(v, 0);
    KoalaBear::law_of(0, v);
    KoalaBear::law_of(1, w);
    KoalaBear::law_of(0, w);
}

/// The constraints that the flag selects are proper elements.
proof fn lemma_moving_canonical<R: Ring>(
    up: Seq<R>,
    rot: Seq<R>,
    g: int,
    a: int,
    b: int,
    c: int,
    d: int,
    base: R,
    i: int,
)
    requires
        reads_moving_words(i),
    ensures
        g_constraints(up, rot, g, a, b, c, d, base)[i].canonical(),
{
    lemma_constraint_positions(up, rot, g, a, b, c, d, base);
    let (lo, hi) = (add2_carry_lo(up, g, c), add2_carry_hi(up, g, c));
    R::law_closed(lo, lo.minus(R::ring_one()), 0);
    R::law_closed(hi, hi.minus(R::ring_one()), 0);
    lemma_bytes_canonical(up, g, up[state_column(d, 0)], G_D_BYTES as int, G_D_BYTES + 1);
    lemma_bytes_canonical(up, g, up[state_column(d, 1)], G_D_BYTES + 2, G_D_BYTES + 3);
    lemma_bytes_canonical(up, g, up[state_column(b, 0)], G_B_BYTES as int, G_B_BYTES + 1);
    lemma_bytes_canonical(up, g, up[state_column(b, 1)], G_B_BYTES + 2, G_B_BYTES + 3);
}

proof fn lemma_bytes_canonical<R: Ring>(up: Seq<R>, g: int, limb: R, low: int, high: int)
    ensures
        bytes_constraint(up, g, limb, low, high).canonical(),
{
    R::law_closed(limb.minus(g_cell(up, g, low)), scaled(g_cell(up, g, high), 256), 0);
}

/// The constraints of a G-function of a row give those over the words that the flag names.
proof fn lemma_row_gives_g_constraints(
    g: int,
    up: Seq<KoalaBear>,
    rot: Seq<KoalaBear>,
    base: int,
    i: int,
)
    requires
        up[COL_IS_COLUMN_QR as int] == kb(0) || up[COL_IS_COLUMN_QR as int] == kb(1),
        0 <= i < 31,
        !(2 <= i < 4),
        quarter_round_constraints(up, rot, g, kb(base))[i] == kb(0),
    ensures
        ({
            let w = if up[COL_IS_COLUMN_QR as int] == kb(1) {
                col_qr(g)
            } else {
                diag_qr(g)
            };
            g_constraints(up, rot, g, w.0, w.1, w.2, w.3, kb(base))[i] == kb(0)
        }),
{
    let (v, u) = (col_qr(g), diag_qr(g));
    let on_col = g_constraints(up, rot, g, v.0, v.1, v.2, v.3, kb(base));
    let on_diag = g_constraints(up, rot, g, u.0, u.1, u.2, u.3, kb(base));
    reveal(quarter_round_constraints);
    if reads_moving_words(i) {
        lemma_moving_canonical(up, rot, g, v.0, v.1, v.2, v.3, kb(base), i);
        lemma_moving_canonical(up, rot, g, u.0, u.1, u.2, u.3, kb(base), i);
        lemma_selected_value(up[COL_IS_COLUMN_QR as int], on_col[i], on_diag[i]);
    } else {
        lemma_fixed_positions(up, rot, g, kb(base), i);
    }
}

/// The constraints of a G-function of a row enforce its steps on the words of the quarter-round
/// that the flag of the row names.
pub proof fn law_quarter_round_sound(
    y: GRow,
    g: int,
    up: Seq<KoalaBear>,
    rot: Seq<KoalaBear>,
    base: int,
)
    requires
        up[COL_IS_COLUMN_QR as int] == kb(0) || up[COL_IS_COLUMN_QR as int] == kb(1),
        ({
            let w = if up[COL_IS_COLUMN_QR as int] == kb(1) {
                col_qr(g)
            } else {
                diag_qr(g)
            };
            is_g_row(y, g, w.0, w.1, w.2, w.3, up, rot, base)
        }),
        forall|i: int|
            0 <= i < 31 ==> #[trigger] quarter_round_constraints(up, rot, g, kb(base))[i]
                == KoalaBear::ring_zero(),
        g_cell(up, g, G_XOR4_BYTES + 3).minus(rot_cell(rot, g, G_XOR4_B3_SPLIT as int)).minus(
            scaled(rot_cell(rot, g, G_XOR4_B3_SPLIT + 1), 16),
        ) == KoalaBear::ring_zero(),
    ensures
        (g_cell(up, g, G_MX_VALUE as int).value * 0x1_0000_0000) % (ORDER_U32 as int) == y.mx as int
            % (ORDER_U32 as int),
        (g_cell(up, g, G_MY_VALUE as int).value * 0x1_0000_0000) % (ORDER_U32 as int) == y.my as int
            % (ORDER_U32 as int),
        y.a1 == (y.a + y.b + y.mx) % 0x1_0000_0000,
        y.xor2 == y.d ^ y.a1,
        y.c1 == (y.c + rotr(y.xor2, 16)) % 0x1_0000_0000,
        y.xor4 == y.b ^ y.c1,
        y.xor6 == rotr(y.xor2, 16) ^ y.a2,
        y.c2 == (y.c1 + rotr(y.xor6, 8)) % 0x1_0000_0000,
        y.xor8 == rotr(y.xor4, 12) ^ y.c2,
        y.d_bytes == y.d,
        y.b_bytes == y.b,
        g_cell(up, g, G_XOR8_SPLIT as int).value == y.xor8 % 128,
        g_cell(up, g, G_XOR8_SPLIT + 1).value == (y.xor8 / 128) % 2,
{
    let w = if up[COL_IS_COLUMN_QR as int] == kb(1) {
        col_qr(g)
    } else {
        diag_qr(g)
    };
    let (a, b, c, d) = w;
    let row = quarter_round_constraints(up, rot, g, kb(base));
    let cs = g_constraints(up, rot, g, a, b, c, d, kb(base));
    assert forall|i: int| 0 <= i < 31 && !(2 <= i < 4) implies #[trigger] cs[i] == kb(0) by {
        assert(row[i] == kb(0));
        lemma_row_gives_g_constraints(g, up, rot, base, i);
    }
    lemma_operands_sound(y, g, a, b, c, d, up, rot, base);
    assert(row[2] == kb(0) && row[3] == kb(0));
    lemma_row_first_sum(y, g, a, up, rot, base);
    lemma_messages_and_split_sound(y, g, a, b, c, d, up, rot, base);
    lemma_first_half_sound(y, g, a, b, c, d, up, rot, base);
    lemma_third_xor_sound(y, g, a, b, c, d, up, rot, base);
    lemma_last_sum_sound(y, g, a, b, c, d, up, rot, base);
    lemma_last_xor_sound(y, g, a, b, c, d, up, rot, base);
}

/// The first sum of a row, with `b` from its bytes.
proof fn lemma_row_first_sum(
    y: GRow,
    g: int,
    a: int,
    up: Seq<KoalaBear>,
    rot: Seq<KoalaBear>,
    base: int,
)
    requires
        a == g,
        holds_limbs(y.a, up, a),
        holds_bytes(y.b, up, g, G_B_BYTES as int),
        holds_bytes(y.mx, up, g, G_MX_BYTES as int),
        holds_bytes(y.a1, up, g, G_ADD1_BYTES as int),
        quarter_round_constraints(up, rot, g, kb(base))[2] == kb(0),
        quarter_round_constraints(up, rot, g, kb(base))[3] == kb(0),
    ensures
        y.a1 == (y.a + y.b + y.mx) % 0x1_0000_0000,
{
    let b_lo = g_limb(up, g, G_B_BYTES as int, G_B_BYTES + 1);
    let b_hi = g_limb(up, g, G_B_BYTES + 2, G_B_BYTES + 3);
    lemma_limbs_at(y.b, up, g, G_B_BYTES as int);
    assert(ternary_constraint(add1_carry_lo(up, g, a, b_lo)) == kb(0) && ternary_constraint(
        add1_carry_hi(up, g, a, b_lo, b_hi),
    ) == kb(0)) by {
        reveal(quarter_round_constraints);
    }
    lemma_first_sum_sound(y, g, a, b_lo, b_hi, up);
}

/// The message words and the split of the last XOR.
proof fn lemma_messages_and_split_sound(
    y: GRow,
    g: int,
    a: int,
    b: int,
    c: int,
    d: int,
    up: Seq<KoalaBear>,
    rot: Seq<KoalaBear>,
    base: int,
)
    requires
        is_g_row(y, g, a, b, c, d, up, rot, base),
        g_constraints(up, rot, g, a, b, c, d, kb(base))[0] == kb(0),
        g_constraints(up, rot, g, a, b, c, d, kb(base))[1] == kb(0),
        g_constraints(up, rot, g, a, b, c, d, kb(base))[27] == kb(0),
        g_constraints(up, rot, g, a, b, c, d, kb(base))[28] == kb(0),
    ensures
        (g_cell(up, g, G_MX_VALUE as int).value * 0x1_0000_0000) % (ORDER_U32 as int) == y.mx as int
            % (ORDER_U32 as int),
        (g_cell(up, g, G_MY_VALUE as int).value * 0x1_0000_0000) % (ORDER_U32 as int) == y.my as int
            % (ORDER_U32 as int),
        g_cell(up, g, G_XOR8_SPLIT as int).value == y.xor8 % 128,
        g_cell(up, g, G_XOR8_SPLIT + 1).value == (y.xor8 / 128) % 2,
{
    lemma_constraint_positions(up, rot, g, a, b, c, d, kb(base));
    lemma_message_sound(y.mx, up, g, G_MX_VALUE as int, G_MX_BYTES as int);
    lemma_message_sound(y.my, up, g, G_MY_VALUE as int, G_MY_BYTES as int);
    lemma_last_split_sound(y.xor8, up, g);
}

/// Where the limbs of a word are those of the last XOR rotated by 7, up to the bit that crosses, the
/// word is that rotation.
proof fn lemma_last_rotation(x: u32, w: u32, crossing: int, lo: KoalaBear, hi: KoalaBear)
    requires
        crossing == 0 || crossing == 1,
        lo == kb(
            byte_of(x, 0) as int / 128 + 2 * byte_of(x, 1) + 512 * byte_of(x, 2) - 65536 * crossing,
        ),
        hi == kb(crossing + 2 * byte_of(x, 3) + 512 * (byte_of(x, 0) as int % 128)),
        lo == kb(limb_lo(w) as int),
        hi == kb(limb_hi(w) as int),
    ensures
        w == rotr(x, 7),
{
    let raw = byte_of(x, 0) as int / 128 + 2 * byte_of(x, 1) + 512 * byte_of(x, 2);
    let top = crossing + 2 * byte_of(x, 3) + 512 * (byte_of(x, 0) as int % 128);
    assert(byte_of(x, 0) < 256 && byte_of(x, 1) < 256 && byte_of(x, 2) < 256 && byte_of(x, 3) < 256);
    lemma_equal_elements(raw - 65536 * crossing, limb_lo(w) as int);
    lemma_equal_elements(top, limb_hi(w) as int);
    lemma_rotated_limbs_7(x);
    assert(w == limb_lo(w) + 65536 * limb_hi(w));
    assert(rotr(x, 7) == limb_lo(rotr(x, 7)) + 65536 * limb_hi(rotr(x, 7)));
}

/// Numbers of one element that are close are equal.
pub proof fn lemma_equal_elements(m: int, n: int)
    requires
        kb(m) == kb(n),
        -1000000 < m < 1000000,
        -1000000 < n < 1000000,
    ensures
        m == n,
{
    KoalaBear::law_of(m, n);
    assert(residue(m - n) == 0) by {
        let p = ORDER_U32 as int;
        vstd::arithmetic::div_mod::lemma_sub_mod_noop(m, n, p);
        assert(residue(m) == residue(n)) by {
            assert(residue(m) as u32 == residue(n) as u32);
        }
    }
    lemma_congruent(m, n);
}

/// A word of the output state that holds the limbs `lo` and `hi` of a word is that word.
proof fn lemma_output_word_sound(v: u32, w: u32, lo: KoalaBear, hi: KoalaBear)
    requires
        lo == kb(limb_lo(v) as int),
        hi == kb(limb_hi(v) as int),
        lo == kb(limb_lo(w) as int),
        hi == kb(limb_hi(w) as int),
    ensures
        v == w,
{
    lemma_equal_elements(limb_lo(v) as int, limb_lo(w) as int);
    lemma_equal_elements(limb_hi(v) as int, limb_hi(w) as int);
    assert(v == limb_lo(v) + 65536 * limb_hi(v));
    assert(w == limb_lo(w) + 65536 * limb_hi(w));
}

/// An output constraint that vanishes puts the output into the word that the flag names.
proof fn lemma_output_sound(
    up: Seq<KoalaBear>,
    rot: Seq<KoalaBear>,
    g: int,
    w: int,
    l: int,
)
    requires
        all_canonical(up),
        0 <= g < 4,
        up.len() >= N_COMMITTED_COLS,
        up[COL_IS_COLUMN_QR as int] == kb(0) || up[COL_IS_COLUMN_QR as int] == kb(1),
        0 <= w < 4,
        0 <= l < 2,
        output_constraint(up, rot, g, w, l) == kb(0),
    ensures
        ({
            let q = if up[COL_IS_COLUMN_QR as int] == kb(1) {
                col_qr(g)
            } else {
                diag_qr(g)
            };
            let word = if w == 0 {
                q.0
            } else if w == 1 {
                q.1
            } else if w == 2 {
                q.2
            } else {
                q.3
            };
            let out = g_outputs(up, rot, g)[w];
            up[output_state_column(word, l)] == if l == 0 {
                out.0
            } else {
                out.1
            }
        }),
{
    let q = if up[COL_IS_COLUMN_QR as int] == kb(1) {
        col_qr(g)
    } else {
        diag_qr(g)
    };
    let word = if w == 0 {
        q.0
    } else if w == 1 {
        q.1
    } else if w == 2 {
        q.2
    } else {
        q.3
    };
    let out = if l == 0 {
        g_outputs(up, rot, g)[w].0
    } else {
        g_outputs(up, rot, g)[w].1
    };
    let cell = up[output_state_column(word, l)];
    reveal(output_constraint);
    reveal(g_outputs);
    if w > 0 {
        let (v, u) = (col_qr(g), diag_qr(g));
        let col = if w == 1 {
            v.1
        } else if w == 2 {
            v.2
        } else {
            v.3
        };
        let diag = if w == 1 {
            u.1
        } else if w == 2 {
            u.2
        } else {
            u.3
        };
        lemma_selected_value(
            up[COL_IS_COLUMN_QR as int],
            up[output_state_column(col, l)].minus(out),
            up[output_state_column(diag, l)].minus(out),
        );
    }
    assert(cell.minus(out) == kb(0));
    assert(cell.canonical() && out.canonical());
    lemma_own_residue(cell);
    lemma_own_residue(out);
    lemma_congruent(cell.value as int, out.value as int);
}

/// The constraints of a row enforce a half-round. Where those of the control bits and of the
/// G-functions vanish, the control columns hold bits, and for each G-function the steps hold on the
/// words of the quarter-round that the row names, and the output state holds what they give.
pub proof fn law_row_constraints_sound(
    y: GRow,
    out: (u32, u32, u32, u32),
    g: int,
    up: Seq<KoalaBear>,
    rot: Seq<KoalaBear>,
    down: Seq<KoalaBear>,
    base: int,
)
    requires
        forall|j: int|
            0 <= j < 168 ==> #[trigger] row_constraints(up, rot, down, kb(base))[j]
                == KoalaBear::ring_zero(),
        all_canonical(up),
        all_canonical(rot),
        up.len() >= N_COMMITTED_COLS,
        rot.len() >= N_ROT_COLS,
        0 <= g < 4,
        ({
            let w = if up[COL_IS_COLUMN_QR as int].value == 1 {
                col_qr(g)
            } else {
                diag_qr(g)
            };
            &&& is_g_row(y, g, w.0, w.1, w.2, w.3, up, rot, base)
            &&& up[output_state_column(w.0, 0)] == kb(limb_lo(out.0) as int)
            &&& up[output_state_column(w.0, 1)] == kb(limb_hi(out.0) as int)
            &&& up[output_state_column(w.1, 0)] == kb(limb_lo(out.1) as int)
            &&& up[output_state_column(w.1, 1)] == kb(limb_hi(out.1) as int)
            &&& up[output_state_column(w.2, 0)] == kb(limb_lo(out.2) as int)
            &&& up[output_state_column(w.2, 1)] == kb(limb_hi(out.2) as int)
            &&& up[output_state_column(w.3, 0)] == kb(limb_lo(out.3) as int)
            &&& up[output_state_column(w.3, 1)] == kb(limb_hi(out.3) as int)
        }),
    ensures
        up[COL_FLAG_ACTIVE as int].value <= 1,
        up[COL_IS_FIRST_ROW as int].value <= 1,
        up[COL_IS_LAST_ROW as int].value <= 1,
        up[COL_IS_COLUMN_QR as int].value <= 1,
        (g_cell(up, g, G_MX_VALUE as int).value * 0x1_0000_0000) % (ORDER_U32 as int) == y.mx as int
            % (ORDER_U32 as int),
        (g_cell(up, g, G_MY_VALUE as int).value * 0x1_0000_0000) % (ORDER_U32 as int) == y.my as int
            % (ORDER_U32 as int),
        y.a1 == (y.a + y.b + y.mx) % 0x1_0000_0000,
        y.xor2 == y.d ^ y.a1,
        y.c1 == (y.c + rotr(y.xor2, 16)) % 0x1_0000_0000,
        y.xor4 == y.b ^ y.c1,
        y.xor6 == rotr(y.xor2, 16) ^ y.a2,
        y.c2 == (y.c1 + rotr(y.xor6, 8)) % 0x1_0000_0000,
        y.xor8 == rotr(y.xor4, 12) ^ y.c2,
        y.d_bytes == y.d,
        y.b_bytes == y.b,
        g_cell(up, g, G_XOR8_SPLIT as int).value == y.xor8 % 128,
        g_cell(up, g, G_XOR8_SPLIT + 1).value == (y.xor8 / 128) % 2,
        out.0 == y.a2,
        out.1 == rotr(y.xor8, 7),
        out.2 == y.c2,
        out.3 == rotr(y.xor6, 8),
{
    let cs = row_constraints(up, rot, down, kb(base));
    lemma_control_sound(up, rot, down, base);
    assert forall|i: int| 0 <= i < 31 implies #[trigger] quarter_round_constraints(
        up,
        rot,
        g,
        kb(base),
    )[i] == kb(0) by {
        assert(cs[4 + 41 * g + i] == kb(0));
        lemma_row_positions(up, rot, down, kb(base), g, i);
    }
    assert(cs[4 + 41 * g + 31] == kb(0) && cs[4 + 41 * g + 32] == kb(0));
    lemma_row_positions(up, rot, down, kb(base), g, 31);
    lemma_row_positions(up, rot, down, kb(base), g, 32);
    law_quarter_round_sound(y, g, up, rot, base);
    assert forall|w: int, l: int| 0 <= w < 4 && 0 <= l < 2 implies #[trigger] output_constraint(
        up,
        rot,
        g,
        w,
        l,
    ) == kb(0) by {
        let i = 33 + 2 * w + l;
        assert((i - 33) / 2 == w && (i - 33) % 2 == l);
        assert(cs[4 + 41 * g + i] == kb(0));
        lemma_row_positions(up, rot, down, kb(base), g, i);
    }
    lemma_row_outputs(y, out, g, up, rot);
}

/// The control columns hold bits.
proof fn lemma_control_sound(
    up: Seq<KoalaBear>,
    rot: Seq<KoalaBear>,
    down: Seq<KoalaBear>,
    base: int,
)
    requires
        forall|j: int|
            0 <= j < 4 ==> #[trigger] row_constraints(up, rot, down, kb(base))[j] == kb(0),
        all_canonical(up),
        up.len() >= N_COMMITTED_COLS,
    ensures
        up[COL_FLAG_ACTIVE as int] == kb(0) || up[COL_FLAG_ACTIVE as int] == kb(1),
        up[COL_IS_FIRST_ROW as int] == kb(0) || up[COL_IS_FIRST_ROW as int] == kb(1),
        up[COL_IS_LAST_ROW as int] == kb(0) || up[COL_IS_LAST_ROW as int] == kb(1),
        up[COL_IS_COLUMN_QR as int] == kb(0) || up[COL_IS_COLUMN_QR as int] == kb(1),
{
    let cs = row_constraints(up, rot, down, kb(base));
    assert(cs[0] == kb(0) && cs[1] == kb(0) && cs[2] == kb(0) && cs[3] == kb(0));
    lemma_edge_positions(up, rot, down, kb(base), 0);
    lemma_edge_positions(up, rot, down, kb(base), 1);
    lemma_edge_positions(up, rot, down, kb(base), 2);
    lemma_edge_positions(up, rot, down, kb(base), 3);
    law_bool_constraint_sound(up[COL_FLAG_ACTIVE as int]);
    law_bool_constraint_sound(up[COL_IS_FIRST_ROW as int]);
    law_bool_constraint_sound(up[COL_IS_LAST_ROW as int]);
    law_bool_constraint_sound(up[COL_IS_COLUMN_QR as int]);
}

/// The output state holds the words of the G-function.
proof fn lemma_row_outputs(
    y: GRow,
    out: (u32, u32, u32, u32),
    g: int,
    up: Seq<KoalaBear>,
    rot: Seq<KoalaBear>,
)
    requires
        all_canonical(up),
        all_canonical(rot),
        up.len() >= N_COMMITTED_COLS,
        rot.len() >= N_ROT_COLS,
        0 <= g < 4,
        up[COL_IS_COLUMN_QR as int] == kb(0) || up[COL_IS_COLUMN_QR as int] == kb(1),
        holds_bytes(y.a2, up, g, G_ADD3_BYTES as int),
        holds_bytes(y.xor6, up, g, G_XOR6_BYTES as int),
        holds_bytes(y.c2, up, g, G_ADD4_BYTES as int),
        holds_bytes(y.xor8, up, g, G_XOR8_BYTES as int),
        g_cell(up, g, G_XOR8_SPLIT as int).value == y.xor8 % 128,
        g_cell(up, g, G_XOR8_SPLIT + 1).value == (y.xor8 / 128) % 2,
        bool_constraint(rot_cell(rot, g, G_CARRY_ROT7 as int)) == kb(0),
        forall|w: int, l: int|
            0 <= w < 4 && 0 <= l < 2 ==> #[trigger] output_constraint(up, rot, g, w, l) == kb(0),
        ({
            let w = if up[COL_IS_COLUMN_QR as int] == kb(1) {
                col_qr(g)
            } else {
                diag_qr(g)
            };
            &&& up[output_state_column(w.0, 0)] == kb(limb_lo(out.0) as int)
            &&& up[output_state_column(w.0, 1)] == kb(limb_hi(out.0) as int)
            &&& up[output_state_column(w.1, 0)] == kb(limb_lo(out.1) as int)
            &&& up[output_state_column(w.1, 1)] == kb(limb_hi(out.1) as int)
            &&& up[output_state_column(w.2, 0)] == kb(limb_lo(out.2) as int)
            &&& up[output_state_column(w.2, 1)] == kb(limb_hi(out.2) as int)
            &&& up[output_state_column(w.3, 0)] == kb(limb_lo(out.3) as int)
            &&& up[output_state_column(w.3, 1)] == kb(limb_hi(out.3) as int)
        }),
    ensures
        out.0 == y.a2,
        out.1 == rotr(y.xor8, 7),
        out.2 == y.c2,
        out.3 == rotr(y.xor6, 8),
{
    let outputs = g_outputs(up, rot, g);
    lemma_row_output(up, rot, g, 0, out.0);
    lemma_row_output(up, rot, g, 1, out.1);
    lemma_row_output(up, rot, g, 2, out.2);
    lemma_row_output(up, rot, g, 3, out.3);
    lemma_byte_outputs(y, g, up, rot);
    lemma_output_word_sound(out.0, y.a2, outputs[0].0, outputs[0].1);
    lemma_output_word_sound(out.2, y.c2, outputs[2].0, outputs[2].1);
    lemma_output_word_sound(out.3, rotr(y.xor6, 8), outputs[3].0, outputs[3].1);
    lemma_row_b_output(y.xor8, g, up, rot);
    let crossing: int = if rot_cell(rot, g, G_CARRY_ROT7 as int) == kb(0) {
        0
    } else {
        1
    };
    lemma_last_rotation(y.xor8, out.1, crossing, outputs[1].0, outputs[1].1);
}

/// The output limbs that are limbs of byte columns.
proof fn lemma_byte_outputs(y: GRow, g: int, up: Seq<KoalaBear>, rot: Seq<KoalaBear>)
    requires
        holds_bytes(y.a2, up, g, G_ADD3_BYTES as int),
        holds_bytes(y.xor6, up, g, G_XOR6_BYTES as int),
        holds_bytes(y.c2, up, g, G_ADD4_BYTES as int),
    ensures
        g_outputs(up, rot, g)[0] == (kb(limb_lo(y.a2) as int), kb(limb_hi(y.a2) as int)),
        g_outputs(up, rot, g)[2] == (kb(limb_lo(y.c2) as int), kb(limb_hi(y.c2) as int)),
        g_outputs(up, rot, g)[3] == (
            kb(limb_lo(rotr(y.xor6, 8)) as int),
            kb(limb_hi(rotr(y.xor6, 8)) as int),
        ),
{
    lemma_limbs_at(y.a2, up, g, G_ADD3_BYTES as int);
    lemma_limbs_at(y.c2, up, g, G_ADD4_BYTES as int);
    lemma_limbs_at(y.xor6, up, g, G_XOR6_BYTES as int);
    lemma_limb_outputs(up, rot, g);
}

/// The outputs that are made of two bytes for each limb.
proof fn lemma_limb_outputs<R: Ring>(up: Seq<R>, rot: Seq<R>, g: int)
    ensures
        g_outputs(up, rot, g)[0] == (
            g_limb(up, g, G_ADD3_BYTES as int, G_ADD3_BYTES + 1),
            g_limb(up, g, G_ADD3_BYTES + 2, G_ADD3_BYTES + 3),
        ),
        g_outputs(up, rot, g)[2] == (
            g_limb(up, g, G_ADD4_BYTES as int, G_ADD4_BYTES + 1),
            g_limb(up, g, G_ADD4_BYTES + 2, G_ADD4_BYTES + 3),
        ),
        g_outputs(up, rot, g)[3] == (
            g_limb(up, g, G_XOR6_BYTES + 1, G_XOR6_BYTES + 2),
            g_limb(up, g, G_XOR6_BYTES + 3, G_XOR6_BYTES as int),
        ),
{
    reveal(g_outputs);
}

/// The limbs of output word `w` are those of the word that the output state holds.
proof fn lemma_row_output(up: Seq<KoalaBear>, rot: Seq<KoalaBear>, g: int, w: int, v: u32)
    requires
        all_canonical(up),
        up.len() >= N_COMMITTED_COLS,
        0 <= g < 4,
        0 <= w < 4,
        up[COL_IS_COLUMN_QR as int] == kb(0) || up[COL_IS_COLUMN_QR as int] == kb(1),
        forall|w: int, l: int|
            0 <= w < 4 && 0 <= l < 2 ==> #[trigger] output_constraint(up, rot, g, w, l) == kb(0),
        ({
            let q = if up[COL_IS_COLUMN_QR as int] == kb(1) {
                col_qr(g)
            } else {
                diag_qr(g)
            };
            let word = if w == 0 {
                q.0
            } else if w == 1 {
                q.1
            } else if w == 2 {
                q.2
            } else {
                q.3
            };
            &&& up[output_state_column(word, 0)] == kb(limb_lo(v) as int)
            &&& up[output_state_column(word, 1)] == kb(limb_hi(v) as int)
        }),
    ensures
        g_outputs(up, rot, g)[w] == (kb(limb_lo(v) as int), kb(limb_hi(v) as int)),
{
    assert(output_constraint(up, rot, g, w, 0) == kb(0));
    assert(output_constraint(up, rot, g, w, 1) == kb(0));
    lemma_output_sound(up, rot, g, w, 0);
    lemma_output_sound(up, rot, g, w, 1);
}

/// The limbs that the last XOR and the crossing bit give.
proof fn lemma_row_b_output(x: u32, g: int, up: Seq<KoalaBear>, rot: Seq<KoalaBear>)
    requires
        all_canonical(rot),
        rot.len() >= N_ROT_COLS,
        0 <= g < 4,
        holds_bytes(x, up, g, G_XOR8_BYTES as int),
        g_cell(up, g, G_XOR8_SPLIT as int).value == x % 128,
        g_cell(up, g, G_XOR8_SPLIT + 1).value == (x / 128) % 2,
        bool_constraint(rot_cell(rot, g, G_CARRY_ROT7 as int)) == kb(0),
    ensures
        ({
            let crossing: int = if rot_cell(rot, g, G_CARRY_ROT7 as int) == kb(0) {
                0
            } else {
                1
            };
            let out = g_outputs(up, rot, g)[1];
            &&& out.0 == kb(
                byte_of(x, 0) as int / 128 + 2 * byte_of(x, 1) + 512 * byte_of(x, 2) - 65536
                    * crossing,
            )
            &&& out.1 == kb(crossing + 2 * byte_of(x, 3) + 512 * (byte_of(x, 0) as int % 128))
        }),
{
    let cell = rot_cell(rot, g, G_CARRY_ROT7 as int);
    let (lo, hi) = (g_cell(up, g, G_XOR8_SPLIT as int), g_cell(up, g, G_XOR8_SPLIT + 1));
    law_bool_constraint_sound(cell);
    let crossing: int = if cell == kb(0) {
        0
    } else {
        1
    };
    lemma_own_residue(lo);
    lemma_own_residue(hi);
    let (b0, b1, b2, b3) = (
        byte_of(x, 0) as int,
        byte_of(x, 1) as int,
        byte_of(x, 2) as int,
        byte_of(x, 3) as int,
    );
    assert(b0 == x % 256);
    assert(hi == kb(b0 / 128));
    assert(lo == kb(b0 % 128));
    assert(g_cell(up, g, G_XOR8_BYTES + 1) == kb(b1));
    assert(g_cell(up, g, G_XOR8_BYTES + 2) == kb(b2));
    assert(g_cell(up, g, G_XOR8_BYTES + 3) == kb(b3));
    lemma_b_output::<KoalaBear>(b0, b1, b2, b3, crossing);
    reveal(g_outputs);
}

/// The constraints between two rows enforce the flow of the state: behind an active row that is not
/// the last of its compression, the state is what the row puts out, and the addresses are its own.
pub proof fn law_down_constraints_sound(
    up: Seq<KoalaBear>,
    rot: Seq<KoalaBear>,
    down: Seq<KoalaBear>,
    base: KoalaBear,
    i: int,
)
    requires
        down.len() == 35,
        all_canonical(up),
        all_canonical(down),
        up.len() >= N_COMMITTED_COLS,
        0 <= i < 35,
        row_constraints(up, rot, down, base)[168 + i] == KoalaBear::ring_zero(),
        up[COL_FLAG_ACTIVE as int].value == 1,
        up[COL_IS_LAST_ROW as int].value == 0,
    ensures
        i < 32 ==> down[i] == up[COL_OUTPUT_STATE_START + i],
        i == 32 ==> down[i] == up[COL_LEFT_ADDR as int],
        i == 33 ==> down[i] == up[COL_RIGHT_ADDR as int],
        i == 34 ==> down[i] == up[COL_RESULT_ADDR as int],
{
    let source = if i < 32 {
        up[COL_OUTPUT_STATE_START + i]
    } else if i == 32 {
        up[COL_LEFT_ADDR as int]
    } else if i == 33 {
        up[COL_RIGHT_ADDR as int]
    } else {
        up[COL_RESULT_ADDR as int]
    };
    lemma_edge_positions(up, rot, down, base, 168 + i);
    reveal(down_constraint);
    let diff = down[i].minus(source);
    let (v, w) = (down[i].value as int, source.value as int);
    assert(down[i].canonical() && source.canonical());
    lemma_own_residue(down[i]);
    lemma_own_residue(source);
    KoalaBear::law_of(1, 0);
    KoalaBear::law_of(1, 1);
    KoalaBear::law_of(v, w);
    KoalaBear::law_of(1, v - w);
    lemma_congruent(v, w);
}

} // verus!
