//! One Blake3 G-function over KoalaBear, with every intermediate value of its trace.
//!
//! A G-function takes four state words `(a, b, c, d)` and two message words `(mx, my)`
//! through four additions modulo `2^32` and four XOR-rotations. A 32-bit word is held as two
//! 16-bit limbs, each a field element.

use crate::field::{kb, KoalaBear, Ring};
use crate::word::{
    byte, byte_of, law_bytes_of_word, lemma_masks, limb_hi, limb_lo, rotate_right, rotr, sum32,
};
use vstd::prelude::*;

verus! {

/// A 32-bit word as two 16-bit limbs: `word = lo + 2^16 * hi`.
#[derive(Clone, Copy, Debug)]
pub struct Word32 {
    pub lo: KoalaBear,
    pub hi: KoalaBear,
}

/// The limbs of `val` as field elements.
pub open spec fn word_limbs(val: u32) -> Word32 {
    Word32 { lo: kb(limb_lo(val) as int), hi: kb(limb_hi(val) as int) }
}

impl Word32 {
    /// Both limbs are 16-bit values.
    pub open spec fn in_range(self) -> bool {
        self.lo.value < 65536 && self.hi.value < 65536
    }

    pub fn from_u32(val: u32) -> (r: Self)
        ensures
            r == word_limbs(val),
            r.in_range(),
    {
        proof {
            lemma_masks(val);
        }
        Word32 { lo: KoalaBear::from_u16((val & 0xFFFF) as u16), hi: KoalaBear::from_u16((val >> 16) as u16) }
    }

    /// The low limb or-ed with the high limb shifted up by 16 bits; for limbs in range this
    /// is the word they make up.
    pub fn to_u32(&self) -> (r: u32)
        ensures
            r == self.lo.value | (self.hi.value << 16),
            self.in_range() ==> r == self.lo.value + 65536 * self.hi.value,
    {
        let lo: u32 = self.lo.as_canonical_u32();
        let hi: u32 = self.hi.as_canonical_u32();
        proof {
            assert(lo < 65536 && hi < 65536 ==> lo | (hi << 16) == lo + 65536 * hi) by (bit_vector);
        }
        lo | (hi << 16)
    }
}

/// Splitting a word into limbs and joining them gives the word back.
pub proof fn law_word_round_trip(val: u32)
    ensures
        word_limbs(val).in_range(),
        word_limbs(val).lo.value + 65536 * word_limbs(val).hi.value == val,
{
}

/// A 16-bit limb as two bytes: `limb = byte0 + 256 * byte1`.
#[derive(Clone, Copy, Debug)]
pub struct ByteDecomp {
    pub byte0: KoalaBear,
    pub byte1: KoalaBear,
}

impl ByteDecomp {
    pub fn from_u16(val: u16) -> (r: Self)
        ensures
            r.byte0 == kb(val as int % 256),
            r.byte1 == kb(val as int / 256),
            r.byte0.value + 256 * r.byte1.value == val,
    {
        assert(val & 0xFF == val % 256 && val >> 8 == val / 256) by (bit_vector);
        ByteDecomp {
            byte0: KoalaBear::from_u32((val & 0xFF) as u32),
            byte1: KoalaBear::from_u32((val >> 8) as u32),
        }
    }
}

/// The trace of one G-function call:
///
/// ```text
/// a = a + b + mx;  d = (d ^ a) >>> 16;
/// c = c + d;       b = (b ^ c) >>> 12;
/// a = a + b + my;  d = (d ^ a) >>> 8;
/// c = c + d;       b = (b ^ c) >>> 7;
/// ```
#[derive(Clone, Debug)]
pub struct GFunctionTrace {
    pub add1_result: Word32,
    pub add1_carry_lo: KoalaBear,
    pub add1_carry_hi: KoalaBear,
    pub xor_rot16: XorRotTrace,
    pub add2_result: Word32,
    pub add2_carry_lo: KoalaBear,
    pub add2_carry_hi: KoalaBear,
    pub xor_rot12: XorRotTrace,
    pub add3_result: Word32,
    pub add3_carry_lo: KoalaBear,
    pub add3_carry_hi: KoalaBear,
    pub xor_rot8: XorRotTrace,
    pub add4_result: Word32,
    pub add4_carry_lo: KoalaBear,
    pub add4_carry_hi: KoalaBear,
    pub xor_rot7: XorRotTrace,
}

/// The trace of one step `result = (a ^ b) >>> r`: the bytes of both operands and of their XOR, and
/// the split columns of the rotation.
#[derive(Clone, Debug)]
pub struct XorRotTrace {
    /// Bytes of operand `a`, the one that was just computed, such as `a'`.
    pub a_bytes: [KoalaBear; 4],
    /// Bytes of operand `b`, the one from the state, such as `d`.
    pub b_bytes: [KoalaBear; 4],
    /// Bytes of the XOR before the rotation.
    pub xor_bytes: [KoalaBear; 4],
    /// The rotated word.
    pub result: Word32,
    /// Addresses of the four byte-XOR lookups.
    pub xor_addrs: [KoalaBear; 4],
    pub split: RotationSplit,
}

/// The extra columns a rotation needs.
#[derive(Clone, Debug)]
pub enum RotationSplit {
    /// `>>>16` swaps the limbs.
    Rot16,
    /// `>>>8` shifts by one byte.
    Rot8,
    /// `>>>12` splits the XOR at bit 12.
    Rot12 { xor_lo_nibble: KoalaBear, xor_lo_bottom: KoalaBear },
    /// `>>>7` splits the XOR at bit 7.
    Rot7 { xor_lo_7bits: KoalaBear, xor_lo_top1: KoalaBear },
}

/// Entries of the byte-XOR table, which holds `a ^ b` at offset `256 * a + b`.
pub const XOR_TABLE_SIZE: usize = 65536;

/// Entries of the byte range-check table, which holds `k` at offset `k`.
pub const RANGE_TABLE_SIZE: usize = 256;

/// The words a G-function passes through, in the order it computes them.
pub struct GSteps {
    pub a1: u32,
    pub d1: u32,
    pub c1: u32,
    pub b1: u32,
    pub a2: u32,
    pub d2: u32,
    pub c2: u32,
    pub b2: u32,
}

/// The Blake3 G-function.
#[verifier::opaque]
pub open spec fn g_steps(a: u32, b: u32, c: u32, d: u32, mx: u32, my: u32) -> GSteps {
    let a1 = sum32(a + b, mx as int);
    let d1 = rotr(d ^ a1, 16);
    let c1 = sum32(c as int, d1 as int);
    let b1 = rotr(b ^ c1, 12);
    let a2 = sum32(a1 + b1, my as int);
    let d2 = rotr(d1 ^ a2, 8);
    let c2 = sum32(c1 as int, d2 as int);
    let b2 = rotr(b1 ^ c2, 7);
    GSteps { a1, d1, c1, b1, a2, d2, c2, b2 }
}

/// The carry out of the low limbs of `x + y + z`.
pub open spec fn carry_lo(x: u32, y: u32, z: u32) -> int {
    (limb_lo(x) + limb_lo(y) + limb_lo(z)) / 65536
}

/// The carry out of the high limbs of `x + y + z`.
pub open spec fn carry_hi(x: u32, y: u32, z: u32) -> int {
    (limb_hi(x) + limb_hi(y) + limb_hi(z) + carry_lo(x, y, z)) / 65536
}

/// The carry chain of an addition modulo `2^32`: each limb of the result and its carry make
/// up the sum of the operands' limbs and the carry below. The carries of a three-word sum are
/// 0, 1 or 2, those of a two-word sum (`z == 0`) 0 or 1.
pub proof fn law_carry_chain(x: u32, y: u32, z: u32)
    ensures
        limb_lo(sum32(x + y, z as int)) + 65536 * carry_lo(x, y, z) == limb_lo(x) + limb_lo(y)
            + limb_lo(z),
        limb_hi(sum32(x + y, z as int)) + 65536 * carry_hi(x, y, z) == limb_hi(x) + limb_hi(y)
            + limb_hi(z) + carry_lo(x, y, z),
        0 <= carry_lo(x, y, z) <= 2,
        0 <= carry_hi(x, y, z) <= 2,
        z == 0 ==> carry_lo(x, y, z) <= 1 && carry_hi(x, y, z) <= 1,
{
    let s = x + y + z;
    let r = sum32(x + y, z as int);
    let lo = limb_lo(x) + limb_lo(y) + limb_lo(z);
    let hi = limb_hi(x) + limb_hi(y) + limb_hi(z);
    assert(s == lo + 65536 * hi);
    assert(r == s % 0x1_0000_0000);
    assert(s / 0x1_0000_0000 == carry_hi(x, y, z));
}

/// The four bytes of `val` as field elements.
pub open spec fn word_bytes(val: u32) -> Seq<KoalaBear> {
    Seq::new(4, |i: int| kb(byte_of(val, i) as int))
}

/// The address at which the byte-XOR table holds the XOR of byte `i` of `x` and of `y`.
pub open spec fn xor_addr(x: u32, y: u32, base: int, i: int) -> int {
    base + 256 * byte_of(x, i) + byte_of(y, i)
}

/// The split columns of a rotation by `rotation` of the XOR result `x`.
pub open spec fn rotation_split(x: u32, rotation: u32) -> RotationSplit {
    if rotation == 16 {
        RotationSplit::Rot16
    } else if rotation == 8 {
        RotationSplit::Rot8
    } else if rotation == 12 {
        RotationSplit::Rot12 {
            xor_lo_nibble: kb(((x / 256) % 16) as int),
            xor_lo_bottom: kb((x % 256) as int),
        }
    } else {
        RotationSplit::Rot7 {
            xor_lo_7bits: kb((x % 128) as int),
            xor_lo_top1: kb(((x / 128) % 2) as int),
        }
    }
}

impl XorRotTrace {
    /// This is the trace of `rotated`, the XOR `xor_result` of `x`, the operand just computed, and
    /// `y`, the one from the state, after a rotation by `rotation`. Lookup addresses are reduced to 32 bits before they enter the field.
    pub open spec fn is_trace_of(
        self,
        x: u32,
        y: u32,
        xor_result: u32,
        rotated: u32,
        rotation: u32,
        base: int,
    ) -> bool {
        &&& self.a_bytes@ == word_bytes(x)
        &&& self.b_bytes@ == word_bytes(y)
        &&& self.xor_bytes@ == word_bytes(xor_result)
        &&& self.result == word_limbs(rotated)
        &&& self.xor_addrs@ == Seq::new(
            4,
            |i: int| kb(xor_addr(x, y, base, i) % 0x1_0000_0000),
        )
        &&& self.split == rotation_split(xor_result, rotation)
    }
}

impl GFunctionTrace {
    /// This is the trace of the G-function on these words.
    pub open spec fn is_trace_of(
        self,
        a: u32,
        b: u32,
        c: u32,
        d: u32,
        mx: u32,
        my: u32,
        base: int,
    ) -> bool {
        let s = g_steps(a, b, c, d, mx, my);
        &&& self.add1_result == word_limbs(s.a1)
        &&& self.add1_carry_lo == kb(carry_lo(a, b, mx))
        &&& self.add1_carry_hi == kb(carry_hi(a, b, mx))
        &&& self.xor_rot16.is_trace_of(s.a1, d, d ^ s.a1, s.d1, 16, base)
        &&& self.add2_result == word_limbs(s.c1)
        &&& self.add2_carry_lo == kb(carry_lo(c, s.d1, 0))
        &&& self.add2_carry_hi == kb(carry_hi(c, s.d1, 0))
        &&& self.xor_rot12.is_trace_of(s.c1, b, b ^ s.c1, s.b1, 12, base)
        &&& self.add3_result == word_limbs(s.a2)
        &&& self.add3_carry_lo == kb(carry_lo(s.a1, s.b1, my))
        &&& self.add3_carry_hi == kb(carry_hi(s.a1, s.b1, my))
        &&& self.xor_rot8.is_trace_of(s.a2, s.d1, s.d1 ^ s.a2, s.d2, 8, base)
        &&& self.add4_result == word_limbs(s.c2)
        &&& self.add4_carry_lo == kb(carry_lo(s.c1, s.d2, 0))
        &&& self.add4_carry_hi == kb(carry_hi(s.c1, s.d2, 0))
        &&& self.xor_rot7.is_trace_of(s.c2, s.b1, s.b1 ^ s.c2, s.b2, 7, base)
    }
}

/// One addition modulo `2^32` with its two carries.
fn add_with_carries(x: u32, y: u32, z: u32) -> (r: (u32, KoalaBear, KoalaBear))
    ensures
        r.0 == sum32(x + y, z as int),
        r.1 == kb(carry_lo(x, y, z)),
        r.2 == kb(carry_hi(x, y, z)),
{
    let sum: u64 = x as u64 + y as u64 + z as u64;
    proof {
        lemma_masks(x);
        lemma_masks(y);
        lemma_masks(z);
        assert(sum & 0xFFFFFFFF == sum % 0x1_0000_0000) by (bit_vector);
    }
    let lo: u64 = (x & 0xFFFF) as u64 + (y & 0xFFFF) as u64 + (z & 0xFFFF) as u64;
    assert(lo >> 16 == lo / 65536) by (bit_vector);
    let c_lo: u64 = lo >> 16;
    let hi: u64 = (x >> 16) as u64 + (y >> 16) as u64 + (z >> 16) as u64 + c_lo;
    assert(hi >> 16 == hi / 65536) by (bit_vector);
    ((sum & 0xFFFFFFFF) as u32, KoalaBear::from_u64(c_lo), KoalaBear::from_u64(hi >> 16))
}

/// Computes one G-function and its full trace.
pub fn compute_g_function(
    a: u32,
    b: u32,
    c: u32,
    d: u32,
    mx: u32,
    my: u32,
    xor_table_base: usize,
) -> (r: (u32, u32, u32, u32, GFunctionTrace))
    requires
        xor_table_base + 65535 <= usize::MAX,
    ensures
        r.0 == g_steps(a, b, c, d, mx, my).a2,
        r.1 == g_steps(a, b, c, d, mx, my).b2,
        r.2 == g_steps(a, b, c, d, mx, my).c2,
        r.3 == g_steps(a, b, c, d, mx, my).d2,
        r.4.is_trace_of(a, b, c, d, mx, my, xor_table_base as int),
{
    proof {
        reveal(g_steps);
    }
    let (a1, add1_carry_lo, add1_carry_hi) = add_with_carries(a, b, mx);
    let xor2: u32 = d ^ a1;
    let d1: u32 = rotate_right(xor2, 16);
    let (c1, add2_carry_lo, add2_carry_hi) = add_with_carries(c, d1, 0);
    let xor4: u32 = b ^ c1;
    let b1: u32 = rotate_right(xor4, 12);
    let (a2, add3_carry_lo, add3_carry_hi) = add_with_carries(a1, b1, my);
    let xor6: u32 = d1 ^ a2;
    let d2: u32 = rotate_right(xor6, 8);
    let (c2, add4_carry_lo, add4_carry_hi) = add_with_carries(c1, d2, 0);
    let xor8: u32 = b1 ^ c2;
    let b2: u32 = rotate_right(xor8, 7);
    let trace = GFunctionTrace {
        add1_result: Word32::from_u32(a1),
        add1_carry_lo,
        add1_carry_hi,
        xor_rot16: build_xor_rot_trace(a1, d, xor2, d1, 16, xor_table_base),
        add2_result: Word32::from_u32(c1),
        add2_carry_lo,
        add2_carry_hi,
        xor_rot12: build_xor_rot_trace(c1, b, xor4, b1, 12, xor_table_base),
        add3_result: Word32::from_u32(a2),
        add3_carry_lo,
        add3_carry_hi,
        xor_rot8: build_xor_rot_trace(a2, d1, xor6, d2, 8, xor_table_base),
        add4_result: Word32::from_u32(c2),
        add4_carry_lo,
        add4_carry_hi,
        xor_rot7: build_xor_rot_trace(c2, b1, xor8, b2, 7, xor_table_base),
    };
    (a2, b2, c2, d2, trace)
}

/// The four bytes of a word as field elements.
fn byte_elements(x: u32) -> (r: [KoalaBear; 4])
    ensures
        r@ == word_bytes(x),
{
    let r = [
        KoalaBear::from_u32(byte(x, 0)),
        KoalaBear::from_u32(byte(x, 1)),
        KoalaBear::from_u32(byte(x, 2)),
        KoalaBear::from_u32(byte(x, 3)),
    ];
    assert(r@ =~= word_bytes(x));
    r
}

/// The trace of one XOR-rotation step of `op_a`, just computed, and `op_b`, from the state.
pub fn build_xor_rot_trace(
    op_a: u32,
    op_b: u32,
    xor_result: u32,
    rotated: u32,
    rotation: u32,
    xor_table_base: usize,
) -> (r: XorRotTrace)
    requires
        rotation == 16 || rotation == 12 || rotation == 8 || rotation == 7,
        xor_table_base + 65535 <= usize::MAX,
    ensures
        r.is_trace_of(op_a, op_b, xor_result, rotated, rotation, xor_table_base as int),
{
    let mut xor_addrs = [KoalaBear::zero(); 4];
    let mut i: usize = 0;
    while i < 4
        invariant
            i <= 4,
            xor_table_base + 65535 <= usize::MAX,
            forall|j: int|
                0 <= j < i ==> #[trigger] xor_addrs@[j] == kb(
                    xor_addr(op_a, op_b, xor_table_base as int, j) % 0x1_0000_0000,
                ),
        decreases 4 - i,
    {
        let a_byte: u32 = byte(op_a, i);
        let b_byte: u32 = byte(op_b, i);
        proof {
            law_bytes_of_word(op_a);
            law_bytes_of_word(op_b);
        }
        let addr: usize = xor_table_base + 256 * a_byte as usize + b_byte as usize;
        xor_addrs[i] = KoalaBear::from_u32((addr as u64 % 0x1_0000_0000) as u32);
        i += 1;
    }
    proof {
        lemma_masks(xor_result);
    }
    let split = if rotation == 16 {
        RotationSplit::Rot16
    } else if rotation == 8 {
        RotationSplit::Rot8
    } else if rotation == 12 {
        RotationSplit::Rot12 {
            xor_lo_nibble: KoalaBear::from_u32((xor_result >> 8) & 0xF),
            xor_lo_bottom: KoalaBear::from_u32(xor_result & 0xFF),
        }
    } else {
        RotationSplit::Rot7 {
            xor_lo_7bits: KoalaBear::from_u32(xor_result & 0x7F),
            xor_lo_top1: KoalaBear::from_u32((xor_result >> 7) & 0x1),
        }
    };
    let r = XorRotTrace {
        a_bytes: byte_elements(op_a),
        b_bytes: byte_elements(op_b),
        xor_bytes: byte_elements(xor_result),
        result: Word32::from_u32(rotated),
        xor_addrs,
        split,
    };
    assert(r.xor_addrs@ =~= Seq::new(
        4,
        |i: int| kb(xor_addr(op_a, op_b, xor_table_base as int, i) % 0x1_0000_0000),
    ));
    r
}

/// The number of committed columns of one G-function's trace: four additions of four columns,
/// and four XOR-rotations of eighteen, two of which have two split columns more.
pub fn g_function_committed_cols() -> (r: usize)
    ensures
        r == 92,
{
    let add_cols: usize = 4;
    let xor_rot_base: usize = 4 + 4 + 4 + 4 + 2;
    let rot12_extra: usize = 2;
    let rot7_extra: usize = 2;
    4 * add_cols + xor_rot_base + (xor_rot_base + rot12_extra) + xor_rot_base + (xor_rot_base + rot7_extra)
}

/// The number of columns of a half-round row: the state, four G-functions and the control
/// columns.
pub fn half_round_committed_cols() -> (r: usize)
    ensures
        r == 404,
{
    let state: usize = 32;
    let control: usize = 4;
    state + 4 * g_function_committed_cols() + control
}

} // verus!
