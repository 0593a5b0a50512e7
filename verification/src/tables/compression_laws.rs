//! The Blake3 compression that a trace goes through, word by word, and where a trace stands in
//! memory.

use crate::field::{kb, KoalaBear};
use crate::memory::{MemoryAccess, MemoryLookup};
use crate::tables::constrained_cols::BLAKE3_SIGMA;
use crate::tables::constrained_laws::lemma_output_word;
use crate::tables::constrained_trace::{
    compressed_word, initial_state, is_filled, lemma_later_words_untouched, lemma_state_len,
    msg_index, state_before, trace_inputs, TraceInputs,
};
use crate::tables::g_function::{
    carry_hi, carry_lo, g_steps, law_carry_chain, law_word_round_trip, word_limbs, GFunctionTrace,
    GSteps, Word32, XorRotTrace,
};
use crate::word::{byte_of, law_bytes_of_word, law_rotations, rotr, sum32};
use vstd::prelude::*;

verus! {

/// The G-function: sums are taken modulo `2^32`, and a word rotated to the right by `k` is its
/// quotient by `2^k` with the remainder moved to the front.
pub proof fn law_g_function(a: u32, b: u32, c: u32, d: u32, mx: u32, my: u32)
    ensures
        ({
            let s = g_steps(a, b, c, d, mx, my);
            &&& s.a1 == (a + b + mx) % 0x1_0000_0000
            &&& s.d1 == (d ^ s.a1) / 65536 + 65536 * ((d ^ s.a1) % 65536)
            &&& s.c1 == (c + s.d1) % 0x1_0000_0000
            &&& s.b1 == (b ^ s.c1) / 4096 + 1048576 * ((b ^ s.c1) % 4096)
            &&& s.a2 == (s.a1 + s.b1 + my) % 0x1_0000_0000
            &&& s.d2 == (s.d1 ^ s.a2) / 256 + 16777216 * ((s.d1 ^ s.a2) % 256)
            &&& s.c2 == (s.c1 + s.d2) % 0x1_0000_0000
            &&& s.b2 == (s.b1 ^ s.c2) / 128 + 33554432 * ((s.b1 ^ s.c2) % 128)
        }),
{
    reveal(g_steps);
    let s = g_steps(a, b, c, d, mx, my);
    law_rotations(d ^ s.a1);
    law_rotations(b ^ s.c1);
    law_rotations(s.d1 ^ s.a2);
    law_rotations(s.b1 ^ s.c2);
}

/// The compression starts from the eight words of the initialization vector, the first four of them
/// again, a counter of zero, the length of a block and the flags of a root.
pub proof fn law_compression_start(msg: Seq<u32>)
    ensures
        state_before(msg, 0) == seq![
            0x6A09E667u32,
            0xBB67AE85u32,
            0x3C6EF372u32,
            0xA54FF53Au32,
            0x510E527Fu32,
            0x9B05688Cu32,
            0x1F83D9ABu32,
            0x5BE0CD19u32,
            0x6A09E667u32,
            0xBB67AE85u32,
            0x3C6EF372u32,
            0xA54FF53Au32,
            0u32,
            0u32,
            64u32,
            11u32,
        ],
{
    let s = initial_state();
    assert(s.len() == 16);
    assert(state_before(msg, 0) =~= seq![
        0x6A09E667u32,
        0xBB67AE85u32,
        0x3C6EF372u32,
        0xA54FF53Au32,
        0x510E527Fu32,
        0x9B05688Cu32,
        0x1F83D9ABu32,
        0x5BE0CD19u32,
        0x6A09E667u32,
        0xBB67AE85u32,
        0x3C6EF372u32,
        0xA54FF53Au32,
        0u32,
        0u32,
        64u32,
        11u32,
    ]);
}

/// A half-round applies the G-function to four groups of words at once: the columns of the state in
/// an even one, its diagonals in an odd one. Each takes the next two message words of the round's
/// order.
pub proof fn law_half_round(msg: Seq<u32>, h: int, g: int, a: int, b: int, c: int, d: int)
    requires
        0 <= h < 14,
        0 <= g < 4,
        a == g,
        h % 2 == 0 ==> b == g + 4 && c == g + 8 && d == g + 12,
        h % 2 == 1 ==> b == (g + 1) % 4 + 4 && c == (g + 2) % 4 + 8 && d == (g + 3) % 4 + 12,
    ensures
        state_before(msg, h).len() == 16,
        ({
            let s = state_before(msg, h);
            let t = state_before(msg, h + 1);
            let first = 8 * (h % 2) + 2 * g;
            let o = g_steps(
                s[a],
                s[b],
                s[c],
                s[d],
                msg[BLAKE3_SIGMA@[h / 2]@[first] as int],
                msg[BLAKE3_SIGMA@[h / 2]@[first + 1] as int],
            );
            &&& t[a] == o.a2
            &&& t[b] == o.b2
            &&& t[c] == o.c2
            &&& t[d] == o.d2
        }),
{
    let s = state_before(msg, h);
    lemma_state_len(msg, h);
    lemma_output_word(msg, h, g);
    lemma_later_words_untouched(s, msg, h, g);
    assert(crate::tables::constrained_trace::qr_words(h, g) == (a, b, c, d));
}

/// The message words of the first round stand in their own order; each round takes those of the
/// round before it through one fixed permutation.
pub proof fn law_message_order(round: int, i: int)
    requires
        0 <= round < 7,
        0 <= i < 16,
    ensures
        round == 0 ==> BLAKE3_SIGMA@[0]@[i] == i,
        round > 0 ==> BLAKE3_SIGMA@[round]@[i] == BLAKE3_SIGMA@[round - 1]@[seq![
            2int, 6, 3, 10, 7, 0, 4, 13, 1, 11, 12, 5, 9, 14, 15, 8,
        ][i]],
{
    if round > 0 {
        crate::tables::constrained_cols::law_sigma_step(round - 1, i);
        assert(i == 0 || i == 1 || i == 2 || i == 3 || i == 4 || i == 5 || i == 6 || i == 7 || i
            == 8 || i == 9 || i == 10 || i == 11 || i == 12 || i == 13 || i == 14 || i == 15);
    } else {
        assert(i == 0 || i == 1 || i == 2 || i == 3 || i == 4 || i == 5 || i == 6 || i == 7 || i
            == 8 || i == 9 || i == 10 || i == 11 || i == 12 || i == 13 || i == 14 || i == 15);
    }
}

/// A word of the digest is the XOR of two words of the last state, eight apart.
pub proof fn law_compressed_word(msg: Seq<u32>, i: int)
    requires
        0 <= i < 8,
    ensures
        compressed_word(msg, i) == state_before(msg, 14)[i] ^ state_before(msg, 14)[i + 8],
{
}

/// What a trace is made from: message word `i` is the Montgomery form of cell `i` of the left
/// operand, or of cell `i - 8` of the right one.
pub proof fn law_trace_message<M: MemoryAccess>(
    memory: M,
    left_addr: int,
    right_addr: int,
    result_addr: int,
    base: int,
    v: KoalaBear,
    i: int,
)
    requires
        0 <= i < 16,
        memory.lookup(if i < 8 {
            left_addr + i
        } else {
            right_addr + i - 8
        }) == Some(v),
    ensures
        ({
            let x = trace_inputs(memory, left_addr, right_addr, result_addr, base);
            &&& x.msg().len() == 16
            &&& x.msg()[i] == (v.value * 0x1_0000_0000) % 2_130_706_433
        }),
{
    let x = trace_inputs(memory, left_addr, right_addr, result_addr, base);
    assert(x.element(i) == v) by {
        if i >= 8 {
            assert(right_addr + (i - 8) == right_addr + i - 8);
        }
    }
}

/// In row `h` of a trace the columns of G-function `g` name the addresses of its two message words
/// and hold what memory has there.
#[verifier::rlimit(40)]
pub proof fn law_trace_reads_memory<M: MemoryAccess>(
    memory: M,
    left_addr: int,
    right_addr: int,
    result_addr: int,
    base: int,
    h: int,
    g: int,
)
    requires
        0 <= h < 14,
        0 <= g < 4,
        forall|i: int| 0 <= i < 8 ==> #[trigger] memory.lookup(left_addr + i) is Some,
        forall|i: int| 0 <= i < 8 ==> #[trigger] memory.lookup(right_addr + i) is Some,
    ensures
        ({
            let x = trace_inputs(memory, left_addr, right_addr, result_addr, base);
            let first = 8 * (h % 2) + 2 * g;
            let m = BLAKE3_SIGMA@[h / 2]@[first] as int;
            let n = BLAKE3_SIGMA@[h / 2]@[first + 1] as int;
            let (at_m, at_n) = (
                if m < 8 {
                    left_addr + m
                } else {
                    right_addr + m - 8
                },
                if n < 8 {
                    left_addr + n
                } else {
                    right_addr + n - 8
                },
            );
            &&& x.cell(h, 32 + 72 * g + 65) == kb(at_m)
            &&& memory.lookup(at_m) == Some(x.cell(h, 32 + 72 * g + 60))
            &&& x.cell(h, 32 + 72 * g + 71) == kb(at_n)
            &&& memory.lookup(at_n) == Some(x.cell(h, 32 + 72 * g + 66))
        }),
{
    let x = trace_inputs(memory, left_addr, right_addr, result_addr, base);
    let first = 8 * (h % 2) + 2 * g;
    let m = msg_index(h, 2 * g);
    let n = msg_index(h, 2 * g + 1);
    crate::tables::constrained_cols::law_sigma_is_permutation(h / 2);
    assert(m == BLAKE3_SIGMA@[h / 2]@[first] && n == BLAKE3_SIGMA@[h / 2]@[first + 1]);
    assert(0 <= m < 16 && 0 <= n < 16);
    assert forall|o: int| 0 <= o < 72 implies #[trigger] x.cell(h, 32 + 72 * g + o) == x.g_input(
        h,
        g,
    ).cell(o) by {
        assert((72 * g + o) / 72 == g && (72 * g + o) % 72 == o);
    }
    if m < 8 {
        assert(memory.lookup(left_addr + m) is Some);
    } else {
        assert(memory.lookup(right_addr + (m - 8)) is Some);
    }
    if n < 8 {
        assert(memory.lookup(left_addr + n) is Some);
    } else {
        assert(memory.lookup(right_addr + (n - 8)) is Some);
    }
    assert(x.cell(h, 32 + 72 * g + 65) == x.g_input(h, g).cell(65));
    assert(x.cell(h, 32 + 72 * g + 60) == x.g_input(h, g).cell(60));
    assert(x.cell(h, 32 + 72 * g + 71) == x.g_input(h, g).cell(71));
    assert(x.cell(h, 32 + 72 * g + 66) == x.g_input(h, g).cell(66));
}

/// A trace has fourteen rows. Row `h` holds the state before half-round `h` and the state behind it,
/// each word as two limbs; all rows are active, the first, the last and those of columns are marked,
/// and each names the three addresses of the call.
pub proof fn law_trace_rows(x: TraceInputs, h: int, w: int, l: int)
    requires
        0 <= h < 14,
        0 <= w < 16,
        0 <= l < 2,
    ensures
        x.column(2 * w + l).len() == 14,
        x.column(2 * w + l)[h].value == (if l == 0 {
            state_before(x.msg(), h)[w] % 65536
        } else {
            state_before(x.msg(), h)[w] / 65536
        }),
        x.column(320 + 2 * w + l).len() == 14,
        x.column(320 + 2 * w + l)[h].value == (if l == 0 {
            state_before(x.msg(), h + 1)[w] % 65536
        } else {
            state_before(x.msg(), h + 1)[w] / 65536
        }),
        x.column(352)[h] == kb(1),
        x.column(353)[h] == kb(if h == 0 {
            1
        } else {
            0
        }),
        x.column(354)[h] == kb(if h == 13 {
            1
        } else {
            0
        }),
        x.column(355)[h] == kb(1 - h % 2),
        x.column(356)[h] == kb(x.left_addr),
        x.column(357)[h] == kb(x.right_addr),
        x.column(358)[h] == kb(x.result_addr),
        x.column(359)[h] == kb(x.left_addr),
{
    assert(is_filled(2 * w + l) && is_filled(320 + 2 * w + l));
    assert((2 * w + l) / 2 == w && (2 * w + l) % 2 == l);
}

/// The bytes of a word in four cells, the lowest first.
pub open spec fn bytes_make(w: u32, b0: KoalaBear, b1: KoalaBear, b2: KoalaBear, b3: KoalaBear) -> bool {
    &&& b0.value < 256 && b1.value < 256 && b2.value < 256 && b3.value < 256
    &&& w == b0.value + 256 * b1.value + 65536 * b2.value + 16777216 * b3.value
}

proof fn lemma_bytes_make(w: u32)
    ensures
        bytes_make(
            w,
            kb(byte_of(w, 0) as int),
            kb(byte_of(w, 1) as int),
            kb(byte_of(w, 2) as int),
            kb(byte_of(w, 3) as int),
        ),
{
    law_bytes_of_word(w);
}

/// In the columns of a G-function the words it computes stand as bytes, each in four cells: the two
/// sums of `a`, the sums of `c`, the operands `d` and `b`, the four XORs, and both message words.
pub proof fn law_trace_bytes(x: TraceInputs, h: int, g: int, offset: int, w: u32)
    requires
        0 <= h < 14,
        0 <= g < 4,
        ({
            let y = x.g_input(h, g);
            let s = g_steps(y.a, y.b, y.c, y.d, y.mx, y.my);
            ||| offset == 0 && w == s.a1
            ||| offset == 4 && w == y.d
            ||| offset == 8 && w == y.d ^ s.a1
            ||| offset == 16 && w == s.c1
            ||| offset == 20 && w == y.b
            ||| offset == 24 && w == y.b ^ s.c1
            ||| offset == 34 && w == s.a2
            ||| offset == 38 && w == s.d1 ^ s.a2
            ||| offset == 46 && w == s.c2
            ||| offset == 50 && w == s.b1 ^ s.c2
            ||| offset == 61 && w == y.mx
            ||| offset == 67 && w == y.my
        }),
    ensures
        ({
            let at = 32 + 72 * g + offset;
            bytes_make(w, x.cell(h, at), x.cell(h, at + 1), x.cell(h, at + 2), x.cell(h, at + 3))
        }),
{
    let y = x.g_input(h, g);
    assert forall|o: int| 0 <= o < 72 implies #[trigger] x.cell(h, 32 + 72 * g + o) == y.cell(
        o,
    ) by {
        assert((72 * g + o) / 72 == g && (72 * g + o) % 72 == o);
    }
    assert(x.cell(h, 32 + 72 * g + offset) == y.cell(offset));
    assert(x.cell(h, 32 + 72 * g + (offset + 1)) == y.cell(offset + 1));
    assert(x.cell(h, 32 + 72 * g + (offset + 2)) == y.cell(offset + 2));
    assert(x.cell(h, 32 + 72 * g + (offset + 3)) == y.cell(offset + 3));
    lemma_bytes_make(w);
}

/// The trace of an XOR and a rotation: the bytes of both operands and of their XOR, the rotated word
/// as limbs, and the addresses of the bytes' XORs in a table that starts at `base`.
#[verifier::rlimit(40)]
pub proof fn law_xor_trace(t: XorRotTrace, x: u32, y: u32, k: u32, base: int, i: int)
    requires
        t.is_trace_of(x, y, y ^ x, rotr(y ^ x, k), k, base),
        0 <= base,
        base + 65536 < 2_130_706_433,
        0 <= i < 4,
    ensures
        bytes_make(x, t.a_bytes@[0], t.a_bytes@[1], t.a_bytes@[2], t.a_bytes@[3]),
        bytes_make(y, t.b_bytes@[0], t.b_bytes@[1], t.b_bytes@[2], t.b_bytes@[3]),
        bytes_make(y ^ x, t.xor_bytes@[0], t.xor_bytes@[1], t.xor_bytes@[2], t.xor_bytes@[3]),
        t.result.lo.value + 65536 * t.result.hi.value == rotr(y ^ x, k),
        t.xor_addrs@[i].value == base + 256 * t.a_bytes@[i].value + t.b_bytes@[i].value,
{
    lemma_bytes_make(x);
    lemma_bytes_make(y);
    lemma_bytes_make(y ^ x);
    law_bytes_of_word(x);
    law_bytes_of_word(y);
    law_word_round_trip(rotr(y ^ x, k));
    let n = base + 256 * byte_of(x, i) + byte_of(y, i);
    vstd::arithmetic::div_mod::lemma_small_mod(n as nat, 0x1_0000_0000nat);
    vstd::arithmetic::div_mod::lemma_small_mod(n as nat, 2_130_706_433nat);
}

/// The trace of a G-function: its sums as limbs, with the carries out of each limb, and the traces of
/// its four XORs, whose results are the words that the G-function goes on with.
pub proof fn law_g_trace(
    t: GFunctionTrace,
    a: u32,
    b: u32,
    c: u32,
    d: u32,
    mx: u32,
    my: u32,
    base: int,
    s: GSteps,
)
    requires
        t.is_trace_of(a, b, c, d, mx, my, base),
        s == g_steps(a, b, c, d, mx, my),
    ensures
        t.add1_result.lo.value + 65536 * t.add1_result.hi.value == s.a1,
        t.add2_result.lo.value + 65536 * t.add2_result.hi.value == s.c1,
        t.add3_result.lo.value + 65536 * t.add3_result.hi.value == s.a2,
        t.add4_result.lo.value + 65536 * t.add4_result.hi.value == s.c2,
        t.add1_result.lo.value + 65536 * t.add1_carry_lo.value == a % 65536 + b % 65536 + mx
            % 65536,
        t.add1_result.hi.value + 65536 * t.add1_carry_hi.value == a / 65536 + b / 65536 + mx / 65536
            + t.add1_carry_lo.value,
        t.add2_result.lo.value + 65536 * t.add2_carry_lo.value == c % 65536 + s.d1 % 65536,
        t.add2_result.hi.value + 65536 * t.add2_carry_hi.value == c / 65536 + s.d1 / 65536
            + t.add2_carry_lo.value,
        t.add3_result.lo.value + 65536 * t.add3_carry_lo.value == s.a1 % 65536 + s.b1 % 65536 + my
            % 65536,
        t.add3_result.hi.value + 65536 * t.add3_carry_hi.value == s.a1 / 65536 + s.b1 / 65536 + my
            / 65536 + t.add3_carry_lo.value,
        t.add4_result.lo.value + 65536 * t.add4_carry_lo.value == s.c1 % 65536 + s.d2 % 65536,
        t.add4_result.hi.value + 65536 * t.add4_carry_hi.value == s.c1 / 65536 + s.d2 / 65536
            + t.add4_carry_lo.value,
        t.xor_rot16.is_trace_of(s.a1, d, d ^ s.a1, rotr(d ^ s.a1, 16), 16, base),
        t.xor_rot12.is_trace_of(s.c1, b, b ^ s.c1, rotr(b ^ s.c1, 12), 12, base),
        t.xor_rot8.is_trace_of(s.a2, s.d1, s.d1 ^ s.a2, rotr(s.d1 ^ s.a2, 8), 8, base),
        t.xor_rot7.is_trace_of(s.c2, s.b1, s.b1 ^ s.c2, rotr(s.b1 ^ s.c2, 7), 7, base),
{
    lemma_steps_are_sums(a, b, c, d, mx, my);
    lemma_sum_trace(t.add1_result, t.add1_carry_lo, t.add1_carry_hi, a, b, mx);
    lemma_sum_trace(t.add2_result, t.add2_carry_lo, t.add2_carry_hi, c, s.d1, 0);
    lemma_sum_trace(t.add3_result, t.add3_carry_lo, t.add3_carry_hi, s.a1, s.b1, my);
    lemma_sum_trace(t.add4_result, t.add4_carry_lo, t.add4_carry_hi, s.c1, s.d2, 0);
}

proof fn lemma_steps_are_sums(a: u32, b: u32, c: u32, d: u32, mx: u32, my: u32)
    ensures
        ({
            let s = g_steps(a, b, c, d, mx, my);
            &&& s.a1 == sum32(a + b, mx as int)
            &&& s.d1 == rotr(d ^ s.a1, 16)
            &&& s.c1 == sum32(c + s.d1, 0)
            &&& s.b1 == rotr(b ^ s.c1, 12)
            &&& s.a2 == sum32(s.a1 + s.b1, my as int)
            &&& s.d2 == rotr(s.d1 ^ s.a2, 8)
            &&& s.c2 == sum32(s.c1 + s.d2, 0)
            &&& s.b2 == rotr(s.b1 ^ s.c2, 7)
        }),
{
    reveal(g_steps);
}

/// The limbs and the carries of a sum of three words.
proof fn lemma_sum_trace(r: Word32, lo: KoalaBear, hi: KoalaBear, x: u32, y: u32, z: u32)
    requires
        r == word_limbs(sum32(x + y, z as int)),
        lo == kb(carry_lo(x, y, z)),
        hi == kb(carry_hi(x, y, z)),
    ensures
        r.lo.value + 65536 * r.hi.value == sum32(x + y, z as int),
        r.lo.value + 65536 * lo.value == x % 65536 + y % 65536 + z % 65536,
        r.hi.value + 65536 * hi.value == x / 65536 + y / 65536 + z / 65536 + lo.value,
{
    law_word_round_trip(sum32(x + y, z as int));
    law_carry_chain(x, y, z);
}

/// The columns of a trace that hold rows are all but those of the addresses of the first three XORs.
pub proof fn law_trace_columns(x: TraceInputs, col: int)
    ensures
        x.column(col).len() == (if 0 <= col < 390 && !(32 <= col < 320 && {
            let o = (col - 32) % 72;
            12 <= o < 16 || 28 <= o < 32 || 42 <= o < 46
        }) {
            14int
        } else {
            0int
        }),
{
}

/// The columns for the rotation by twelve split bytes 3, 0 and 2 of the second XOR into nibbles, and
/// that for the rotation by seven holds bit 23 of the last XOR, which crosses to the other limb.
#[verifier::rlimit(40)]
pub proof fn law_trace_rotations(x: TraceInputs, h: int, g: int)
    requires
        0 <= h < 14,
        0 <= g < 4,
    ensures
        ({
            let y = x.g_input(h, g);
            let s = g_steps(y.a, y.b, y.c, y.d, y.mx, y.my);
            let v = y.b ^ s.c1;
            let w = s.b1 ^ s.c2;
            let at = 361 + 7 * g;
            &&& x.cell(h, at).value == (v / 16777216) % 16
            &&& x.cell(h, at + 1).value == v / 268435456
            &&& x.cell(h, at + 2).value == v % 16
            &&& x.cell(h, at + 3).value == (v / 16) % 16
            &&& x.cell(h, at + 4).value == (v / 65536) % 16
            &&& x.cell(h, at + 5).value == (v / 1048576) % 16
            &&& x.cell(h, at + 6).value == (w / 8388608) % 2
        }),
{
    let y = x.g_input(h, g);
    let s = g_steps(y.a, y.b, y.c, y.d, y.mx, y.my);
    let v = y.b ^ s.c1;
    let w = s.b1 ^ s.c2;
    assert forall|o: int| 0 <= o < 7 implies #[trigger] x.cell(h, 361 + 7 * g + o) == y.rot_cell(
        o,
    ) by {
        assert((7 * g + o) / 7 == g && (7 * g + o) % 7 == o);
    }
    assert(x.cell(h, 361 + 7 * g + 0) == y.rot_cell(0));
    assert(x.cell(h, 361 + 7 * g + 1) == y.rot_cell(1));
    assert(x.cell(h, 361 + 7 * g + 2) == y.rot_cell(2));
    assert(x.cell(h, 361 + 7 * g + 3) == y.rot_cell(3));
    assert(x.cell(h, 361 + 7 * g + 4) == y.rot_cell(4));
    assert(x.cell(h, 361 + 7 * g + 5) == y.rot_cell(5));
    assert(x.cell(h, 361 + 7 * g + 6) == y.rot_cell(6));
    lemma_nibbles_of(v);
    lemma_crossing_bit(w);
}

#[verifier::rlimit(60)]
proof fn lemma_nibbles_of(v: u32)
    ensures
        byte_of(v, 3) % 16 == (v / 16777216) % 16,
        byte_of(v, 3) / 16 == v / 268435456,
        byte_of(v, 0) % 16 == v % 16,
        byte_of(v, 0) / 16 == (v / 16) % 16,
        byte_of(v, 2) % 16 == (v / 65536) % 16,
        byte_of(v, 2) / 16 == (v / 1048576) % 16,
        byte_of(v, 0) < 256 && byte_of(v, 2) < 256 && byte_of(v, 3) < 256,
{
}

#[verifier::rlimit(60)]
proof fn lemma_crossing_bit(w: u32)
    ensures
        (byte_of(w, 0) / 128 + 2 * byte_of(w, 1) + 512 * byte_of(w, 2)) / 65536 == (w / 8388608) % 2,
{
}

} // verus!
