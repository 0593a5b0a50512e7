//! 32-bit words: bytes, 16-bit limbs, rotations and addition modulo `2^32`.

use vstd::prelude::*;

verus! {

/// Byte `i` of `x`, byte 0 being the least significant.
pub open spec fn byte_of(x: u32, i: int) -> u32 {
    if i == 0 {
        x % 256
    } else if i == 1 {
        (x / 256) % 256
    } else if i == 2 {
        (x / 65536) % 256
    } else {
        x / 16777216
    }
}

/// The four bytes of a word in little-endian order.
pub open spec fn le_bytes(x: u32) -> Seq<u8> {
    Seq::new(4, |i: int| byte_of(x, i) as u8)
}

/// The word whose little-endian bytes are the first four of `b`.
pub open spec fn from_le(b: Seq<u8>) -> u32 {
    (b[0] + 256 * b[1] + 65536 * b[2] + 16777216 * b[3]) as u32
}

/// The low 16 bits.
pub open spec fn limb_lo(x: u32) -> u32 {
    x % 65536
}

/// The high 16 bits.
pub open spec fn limb_hi(x: u32) -> u32 {
    x / 65536
}

/// Limb `l` of a word: 0 is the low one.
pub open spec fn limb(x: u32, l: int) -> u32 {
    if l == 0 {
        limb_lo(x)
    } else {
        limb_hi(x)
    }
}

/// The sum modulo `2^32`.
pub open spec fn sum32(x: int, y: int) -> u32 {
    ((x + y) % 0x1_0000_0000) as u32
}

/// `x` rotated right by `k` bits.
pub open spec fn rotr(x: u32, k: u32) -> u32 {
    (x >> k) | (x << ((32 - k) as u32))
}

pub proof fn lemma_masks(x: u32)
    by (bit_vector)
    ensures
        x & 0xffff == x % 65536,
        x >> 16 == x / 65536,
        x & 0xff == x % 256,
        (x >> 8) & 0xff == (x / 256) % 256,
        (x >> 16) & 0xff == (x / 65536) % 256,
        (x >> 24) & 0xff == x / 16777216,
        x >> 8 == x / 256,
        x >> 4 == x / 16,
        x >> 7 == x / 128,
        x & 0x7f == x % 128,
        x & 0xf == x % 16,
        (x >> 8) & 0xf == (x / 256) % 16,
        (x >> 7) & 1 == (x / 128) % 2,
        x >> 0u32 == x,
{
}

/// A rotation moves the low `k` bits to the top and the others down by `k`.
pub proof fn law_rotations(x: u32)
    ensures
        rotr(x, 16) == x / 65536 + 65536 * (x % 65536),
        rotr(x, 12) == x / 4096 + 1048576 * (x % 4096),
        rotr(x, 8) == x / 256 + 16777216 * (x % 256),
        rotr(x, 7) == x / 128 + 33554432 * (x % 128),
{
    assert((x >> 16u32) | (x << 16u32) == x / 65536 + 65536 * (x % 65536)) by (bit_vector);
    assert((x >> 12u32) | (x << 20u32) == x / 4096 + 1048576 * (x % 4096)) by (bit_vector);
    assert((x >> 8u32) | (x << 24u32) == x / 256 + 16777216 * (x % 256)) by (bit_vector);
    assert((x >> 7u32) | (x << 25u32) == x / 128 + 33554432 * (x % 128)) by (bit_vector);
}

/// The bytes of a word determine it.
pub proof fn law_bytes_of_word(x: u32)
    ensures
        x == byte_of(x, 0) + 256 * byte_of(x, 1) + 65536 * byte_of(x, 2) + 16777216 * byte_of(x, 3),
        from_le(le_bytes(x)) == x,
        limb_lo(x) == byte_of(x, 0) + 256 * byte_of(x, 1),
        limb_hi(x) == byte_of(x, 2) + 256 * byte_of(x, 3),
        x == limb_lo(x) + 65536 * limb_hi(x),
        forall|i: int| 0 <= i < 4 ==> #[trigger] byte_of(x, i) < 256,
{
}

/// Byte `i` of a word.
pub fn byte(x: u32, i: usize) -> (r: u32)
    requires
        i < 4,
    ensures
        r == byte_of(x, i as int),
{
    proof {
        lemma_masks(x);
    }
    if i == 0 {
        x & 0xff
    } else if i == 1 {
        (x >> 8) & 0xff
    } else if i == 2 {
        (x >> 16) & 0xff
    } else {
        (x >> 24) & 0xff
    }
}

pub fn rotate_right(x: u32, k: u32) -> (r: u32)
    requires
        0 < k < 32,
    ensures
        r == rotr(x, k),
{
    (x >> k) | (x << (32 - k))
}

/// Appends the little-endian bytes of `x`.
pub fn push_le_bytes(out: &mut Vec<u8>, x: u32)
    ensures
        final(out)@ == old(out)@ + le_bytes(x),
{
    let ghost start = out@;
    out.push(byte(x, 0) as u8);
    out.push(byte(x, 1) as u8);
    out.push(byte(x, 2) as u8);
    out.push(byte(x, 3) as u8);
    assert(out@ =~= start + le_bytes(x));
}

/// Reads the little-endian word at `at`.
pub fn read_le(bytes: &[u8], at: usize) -> (r: u32)
    requires
        at + 4 <= bytes@.len(),
    ensures
        r == from_le(bytes@.skip(at as int)),
{
    bytes[at] as u32 + 256 * (bytes[at + 1] as u32) + 65536 * (bytes[at + 2] as u32) + 16777216 * (
    bytes[at + 3] as u32)
}

} // verus!
