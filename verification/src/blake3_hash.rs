//! Hashing of field elements with Blake3.
//!
//! Field elements enter a hash as the little-endian bytes of their Montgomery form, which is
//! what the constrained Blake3 table multiplies out and decomposes.

use crate::field::{kb, monty, KoalaBear, Ring};
use crate::tables::constrained_trace::compressed_word;
use crate::word::{byte_of, from_le, le_bytes, push_le_bytes, read_le};
use vstd::prelude::*;

verus! {

/// Field elements of a digest.
pub const DIGEST_LEN_BLAKE3: usize = 8;

/// Field elements of the permutation's state.
pub const WIDTH: usize = 16;

/// The 32-byte digest that [`blake3::hash`] gives for `input`.
pub uninterp spec fn blake3_digest(input: Seq<u8>) -> Seq<u8>;

/// The first `len` bytes that the extendable output of Blake3 gives for `input`.
pub uninterp spec fn blake3_output(input: Seq<u8>, len: int) -> Seq<u8>;

/// The digest of a block of 64 bytes by a single compression: the block is the 16 message words,
/// and the output words are written in little-endian order.
pub open spec fn single_block_digest(block: Seq<u8>) -> Seq<u8> {
    let msg = Seq::new(16, |i: int| from_le(block.skip(4 * i)));
    Seq::new(32, |k: int| byte_of(compressed_word(msg, k / 4), k % 4) as u8)
}

/// Calls [`blake3::hash`]. Its digest is a function of the input bytes alone; on an input of
/// exactly one block it is the output of one root compression of that block, whose words and
/// rounds are those of the constrained table.
#[verifier::external_body]
pub(crate) fn hash_bytes(input: &[u8]) -> (r: [u8; 32])
    ensures
        r@ == blake3_digest(input@),
        input@.len() == 64 ==> r@ == single_block_digest(input@),
{
    *blake3::hash(input).as_bytes()
}

/// Calls [`blake3::Hasher`] on the input and reads `len` bytes from its extendable output, which
/// is a function of the input bytes alone.
#[verifier::external_body]
fn extendable_output(input: &[u8], len: usize) -> (r: Vec<u8>)
    ensures
        r@.len() == len,
        r@ == blake3_output(input@, len as int),
{
    let mut output = vec![0u8; len];
    blake3::Hasher::new().update(input).finalize_xof().fill(&mut output);
    output
}

/// The bytes of a sequence of field elements.
pub open spec fn element_bytes(s: Seq<KoalaBear>) -> Seq<u8>
    decreases s.len(),
{
    if s.len() == 0 {
        Seq::empty()
    } else {
        element_bytes(s.drop_last()) + le_bytes(monty(s.last()))
    }
}

/// The field elements a byte string stands for: each word reduced modulo the field order.
pub open spec fn bytes_to_elements(b: Seq<u8>, n: int) -> Seq<KoalaBear> {
    Seq::new(n as nat, |j: int| kb(from_le(b.skip(4 * j)) as int))
}

/// The digest of `left || right`.
pub open spec fn compress_spec(left: Seq<KoalaBear>, right: Seq<KoalaBear>) -> Seq<KoalaBear> {
    bytes_to_elements(blake3_digest(element_bytes(left + right)), 8)
}

pub proof fn lemma_compress_len(left: Seq<KoalaBear>, right: Seq<KoalaBear>)
    ensures
        compress_spec(left, right).len() == 8,
{
}

/// What stands for a sequence of field elements in a hash: four bytes for each, the little-endian
/// bytes of the residue of `2^32` times the element. Byte `k` of element `j` is at `4 * j + k`.
pub proof fn law_element_bytes(s: Seq<KoalaBear>, j: int)
    requires
        0 <= j < s.len(),
    ensures
        element_bytes(s).len() == 4 * s.len(),
        ({
            let b = element_bytes(s);
            b[4 * j] + 256 * b[4 * j + 1] + 65536 * b[4 * j + 2] + 16777216 * b[4 * j + 3] == (
            s[j].value * 0x1_0000_0000) % 2_130_706_433
        }),
{
    lemma_element_bytes(s);
    let b = element_bytes(s);
    let w = monty(s[j]);
    let four = b.subrange(4 * j, 4 * j + 4);
    assert(four == le_bytes(w));
    assert(b[4 * j] == four[0] && b[4 * j + 1] == four[1] && b[4 * j + 2] == four[2] && b[4 * j + 3]
        == four[3]);
    crate::word::law_bytes_of_word(w);
    assert(four[0] == byte_of(w, 0) && four[1] == byte_of(w, 1) && four[2] == byte_of(w, 2)
        && four[3] == byte_of(w, 3));
}

/// What is hashed determines the elements: two sequences of proper field elements with the same
/// bytes are equal.
pub proof fn law_element_bytes_injective(s: Seq<KoalaBear>, t: Seq<KoalaBear>)
    requires
        forall|i: int| 0 <= i < s.len() ==> (#[trigger] s[i]).canonical(),
        forall|i: int| 0 <= i < t.len() ==> (#[trigger] t[i]).canonical(),
        element_bytes(s) == element_bytes(t),
    ensures
        s == t,
{
    lemma_element_bytes(s);
    lemma_element_bytes(t);
    assert forall|j: int| 0 <= j < s.len() implies s[j] == t[j] by {
        law_element_bytes(s, j);
        law_element_bytes(t, j);
        lemma_montgomery_injective(s[j].value as int, t[j].value as int);
    }
    assert(s =~= t);
}

/// Different residues have different Montgomery forms.
proof fn lemma_montgomery_injective(x: int, y: int)
    requires
        0 <= x < 2_130_706_433,
        0 <= y < 2_130_706_433,
        (x * 0x1_0000_0000) % 2_130_706_433 == (y * 0x1_0000_0000) % 2_130_706_433,
    ensures
        x == y,
{
    let p: int = 2_130_706_433;
    // 1057030144 is the inverse of 2^32.
    let (m, n) = (x * 0x1_0000_0000, y * 0x1_0000_0000);
    vstd::arithmetic::div_mod::lemma_fundamental_div_mod(m, p);
    vstd::arithmetic::div_mod::lemma_fundamental_div_mod(n, p);
    let (q, r) = (m / p, n / p);
    let d = x - y;
    assert(d == p * (1057030144 * (q - r) - 2130706431 * d)) by (nonlinear_arith)
        requires
            m == x * 0x1_0000_0000,
            n == y * 0x1_0000_0000,
            m == p * q + m % p,
            n == p * r + n % p,
            m % p == n % p,
            d == x - y,
            p == 2_130_706_433,
    ;
    let e = 1057030144 * (q - r) - 2130706431 * d;
    assert(e == 0) by (nonlinear_arith)
        requires
            d == p * e,
            -p < d < p,
            p == 2_130_706_433,
    ;
}

/// The elements that a digest stands for: element `j` is the residue of the little-endian word at
/// `4 * j`.
pub proof fn law_bytes_to_elements(b: Seq<u8>, n: int, j: int)
    requires
        0 <= j < n,
        4 * n <= b.len(),
    ensures
        bytes_to_elements(b, n).len() == n,
        bytes_to_elements(b, n)[j].value == (b[4 * j] + 256 * b[4 * j + 1] + 65536 * b[4 * j + 2]
            + 16777216 * b[4 * j + 3]) % 2_130_706_433,
{
    let t = b.skip(4 * j);
    assert(t[0] == b[4 * j] && t[1] == b[4 * j + 1] && t[2] == b[4 * j + 2] && t[3] == b[4 * j + 3]);
}

/// The digest of two digests is that of the 64 bytes of both, the left one's first.
pub proof fn law_compress_hashes_both(
    left: Seq<KoalaBear>,
    right: Seq<KoalaBear>,
    bytes: Seq<u8>,
    j: int,
)
    requires
        left.len() == 8,
        right.len() == 8,
        bytes.len() == 64,
        forall|i: int|
            #![trigger bytes[4 * i]]
            0 <= i < 16 ==> bytes[4 * i] + 256 * bytes[4 * i + 1] + 65536 * bytes[4 * i + 2]
                + 16777216 * bytes[4 * i + 3] == ((if i < 8 {
                left[i]
            } else {
                right[i - 8]
            }).value * 0x1_0000_0000) % 2_130_706_433,
        blake3_digest(bytes).len() == 32,
        0 <= j < 8,
    ensures
        compress_spec(left, right).len() == 8,
        ({
            let d = blake3_digest(bytes);
            compress_spec(left, right)[j].value == (d[4 * j] + 256 * d[4 * j + 1] + 65536 * d[4 * j
                + 2] + 16777216 * d[4 * j + 3]) % 2_130_706_433
        }),
{
    let s = left + right;
    lemma_bytes_are_elements(s, bytes);
    law_bytes_to_elements(blake3_digest(bytes), 8, j);
}

/// Bytes that make up the Montgomery forms of elements are those that are hashed for them.
pub proof fn lemma_bytes_are_elements(s: Seq<KoalaBear>, bytes: Seq<u8>)
    requires
        bytes.len() == 4 * s.len(),
        forall|i: int|
            #![trigger bytes[4 * i]]
            0 <= i < s.len() ==> bytes[4 * i] + 256 * bytes[4 * i + 1] + 65536 * bytes[4 * i + 2]
                + 16777216 * bytes[4 * i + 3] == (s[i].value * 0x1_0000_0000) % 2_130_706_433,
    ensures
        bytes == element_bytes(s),
{
    lemma_element_bytes(s);
    let b = element_bytes(s);
    assert forall|k: int| 0 <= k < b.len() implies bytes[k] == b[k] by {
        let j = k / 4;
        law_element_bytes(s, j);
        lemma_digits_unique(
            bytes[4 * j],
            bytes[4 * j + 1],
            bytes[4 * j + 2],
            bytes[4 * j + 3],
            b[4 * j],
            b[4 * j + 1],
            b[4 * j + 2],
            b[4 * j + 3],
        );
        assert(k == 4 * j || k == 4 * j + 1 || k == 4 * j + 2 || k == 4 * j + 3);
    }
    assert(bytes =~= b);
}

/// The bytes of a number are unique.
#[verifier::rlimit(40)]
proof fn lemma_digits_unique(a0: u8, a1: u8, a2: u8, a3: u8, b0: u8, b1: u8, b2: u8, b3: u8)
    requires
        a0 + 256 * a1 + 65536 * a2 + 16777216 * a3 == b0 + 256 * b1 + 65536 * b2 + 16777216 * b3,
    ensures
        a0 == b0,
        a1 == b1,
        a2 == b2,
        a3 == b3,
{
    assert((a0 + 256 * a1 + 65536 * a2 + 16777216 * a3) % 256 == a0);
    assert((b0 + 256 * b1 + 65536 * b2 + 16777216 * b3) % 256 == b0);
    assert((a1 + 256 * a2 + 65536 * a3) % 256 == a1);
    assert((b1 + 256 * b2 + 65536 * b3) % 256 == b1);
    assert((a2 + 256 * a3) % 256 == a2);
    assert((b2 + 256 * b3) % 256 == b2);
}

pub proof fn lemma_element_bytes(s: Seq<KoalaBear>)
    ensures
        element_bytes(s).len() == 4 * s.len(),
        forall|i: int|
            0 <= i < s.len() ==> element_bytes(s).subrange(4 * i, 4 * i + 4) == le_bytes(
                monty(#[trigger] s[i]),
            ),
    decreases s.len(),
{
    if s.len() > 0 {
        let init = s.drop_last();
        lemma_element_bytes(init);
        assert forall|i: int| 0 <= i < s.len() implies element_bytes(s).subrange(4 * i, 4 * i + 4)
            == le_bytes(monty(#[trigger] s[i])) by {
            if i < init.len() {
                assert(init[i] == s[i]);
                assert(element_bytes(s).subrange(4 * i, 4 * i + 4) =~= element_bytes(init).subrange(
                    4 * i,
                    4 * i + 4,
                ));
            } else {
                assert(element_bytes(s).subrange(4 * i, 4 * i + 4) =~= le_bytes(monty(s[i])));
            }
        }
    }
}

/// Appends the bytes of `elements`.
pub(crate) fn push_elements(out: &mut Vec<u8>, elements: &[KoalaBear])
    ensures
        final(out)@ == old(out)@ + element_bytes(elements@),
{
    let ghost start = out@;
    let ghost s = elements@;
    let mut i: usize = 0;
    assert(s.take(0) =~= Seq::empty());
    assert(out@ =~= start + element_bytes(s.take(0)));
    while i < elements.len()
        invariant
            i <= s.len(),
            s == elements@,
            out@ == start + element_bytes(s.take(i as int)),
        decreases s.len() - i,
    {
        push_le_bytes(out, elements[i].to_unique_u32());
        proof {
            assert(s.take(i + 1).drop_last() =~= s.take(i as int));
            assert(out@ =~= start + element_bytes(s.take(i + 1)));
        }
        i += 1;
    }
    assert(s.take(i as int) =~= s);
}

/// The bytes of a concatenation are those of its parts, one after the other.
pub proof fn lemma_element_bytes_concat(s: Seq<KoalaBear>, t: Seq<KoalaBear>)
    ensures
        element_bytes(s + t) == element_bytes(s) + element_bytes(t),
    decreases t.len(),
{
    if t.len() == 0 {
        assert(s + t =~= s);
        assert(element_bytes(s) =~= element_bytes(s) + element_bytes(t));
    } else {
        lemma_element_bytes_concat(s, t.drop_last());
        assert((s + t).drop_last() =~= s + t.drop_last());
        assert(element_bytes(s + t) =~= element_bytes(s) + element_bytes(t));
    }
}

/// The field elements of a digest.
pub(crate) fn blake3_digest_to_field(hash_bytes: &[u8; 32]) -> (r: [KoalaBear; DIGEST_LEN_BLAKE3])
    ensures
        r@ == bytes_to_elements(hash_bytes@, 8),
{
    let mut r = [KoalaBear::zero(); DIGEST_LEN_BLAKE3];
    let mut j: usize = 0;
    while j < DIGEST_LEN_BLAKE3
        invariant
            j <= 8,
            forall|k: int|
                0 <= k < j ==> #[trigger] r@[k] == kb(from_le(hash_bytes@.skip(4 * k)) as int),
        decreases 8 - j,
    {
        r[j] = KoalaBear::new(read_le(hash_bytes.as_slice(), j * 4));
        j += 1;
    }
    assert(r@ =~= bytes_to_elements(hash_bytes@, 8));
    r
}

/// Hashes two digests into one.
pub fn blake3_compress(left: &[KoalaBear; 8], right: &[KoalaBear; 8]) -> (r: [KoalaBear; 8])
    ensures
        r@ == compress_spec(left@, right@),
        r@ == bytes_to_elements(single_block_digest(element_bytes(left@ + right@)), 8),
{
    let mut buf: Vec<u8> = Vec::new();
    push_elements(&mut buf, left.as_slice());
    push_elements(&mut buf, right.as_slice());
    proof {
        lemma_element_bytes_concat(left@, right@);
        lemma_element_bytes(left@ + right@);
        assert(buf@ =~= element_bytes(left@ + right@));
    }
    let hash = hash_bytes(buf.as_slice());
    blake3_digest_to_field(&hash)
}

/// Hashes sixteen field elements, the first eight being the left operand.
pub fn blake3_compress_from_16(input: [KoalaBear; 16]) -> (r: [KoalaBear; 8])
    ensures
        r@ == compress_spec(input@.take(8), input@.skip(8)),
{
    let mut left = [KoalaBear::zero(); 8];
    let mut right = [KoalaBear::zero(); 8];
    let mut i: usize = 0;
    while i < 8
        invariant
            i <= 8,
            forall|j: int| 0 <= j < i ==> #[trigger] left@[j] == input@[j],
            forall|j: int| 0 <= j < i ==> #[trigger] right@[j] == input@[j + 8],
        decreases 8 - i,
    {
        left[i] = input[i];
        right[i] = input[i + 8];
        i += 1;
    }
    assert(left@ =~= input@.take(8));
    assert(right@ =~= input@.skip(8));
    blake3_compress(&left, &right)
}

/// The 16 message words of a single-block digest of field elements are their Montgomery forms.
pub proof fn lemma_block_words(s: Seq<KoalaBear>)
    requires
        s.len() == 16,
    ensures
        Seq::new(16, |i: int| from_le(element_bytes(s).skip(4 * i))) == Seq::new(
            16,
            |i: int| monty(s[i]),
        ),
{
    lemma_element_bytes(s);
    let bytes = element_bytes(s);
    assert forall|i: int| 0 <= i < 16 implies from_le(bytes.skip(4 * i)) == monty(
        #[trigger] s[i],
    ) by {
        crate::word::law_bytes_of_word(monty(s[i]));
        let four = bytes.subrange(4 * i, 4 * i + 4);
        assert(four == le_bytes(monty(s[i])));
        assert(bytes.skip(4 * i)[0] == four[0]);
        assert(bytes.skip(4 * i)[1] == four[1]);
        assert(bytes.skip(4 * i)[2] == four[2]);
        assert(bytes.skip(4 * i)[3] == four[3]);
    }
    assert(Seq::new(16, |i: int| from_le(bytes.skip(4 * i))) =~= Seq::new(16, |i: int| monty(s[i])));
}

/// Word `i` of the little-endian digest of a block is output word `i` of its compression.
pub proof fn lemma_digest_words(block: Seq<u8>, i: int)
    requires
        0 <= i < 8,
    ensures
        from_le(single_block_digest(block).skip(4 * i)) == compressed_word(
            Seq::new(16, |i: int| from_le(block.skip(4 * i))),
            i,
        ),
{
    let msg = Seq::new(16, |i: int| from_le(block.skip(4 * i)));
    let d = single_block_digest(block);
    let w = compressed_word(msg, i);
    crate::word::law_bytes_of_word(w);
    assert(d.skip(4 * i)[0] == d[4 * i]);
    assert(d.skip(4 * i)[1] == d[4 * i + 1]);
    assert(d.skip(4 * i)[2] == d[4 * i + 2]);
    assert(d.skip(4 * i)[3] == d[4 * i + 3]);
    assert((4 * i) / 4 == i && (4 * i + 1) / 4 == i && (4 * i + 2) / 4 == i && (4 * i + 3) / 4
        == i);
}

/// The sponge permutation of the transcript.
#[derive(Clone, Debug)]
pub struct Blake3Permutation;

/// The state after the permutation: the extendable output on the state's bytes, each word
/// reduced modulo the field order.
pub open spec fn permuted(state: Seq<KoalaBear>) -> Seq<KoalaBear> {
    bytes_to_elements(blake3_output(element_bytes(state), 64), 16)
}

/// The permutation takes sixteen elements to the first sixteen words of the extendable output of
/// Blake3 on their bytes, four for each, those of the residue of `2^32` times the element. Each word
/// is reduced.
pub proof fn law_permutation_is_extendable_output(state: Seq<KoalaBear>, bytes: Seq<u8>, j: int)
    requires
        state.len() == 16,
        bytes.len() == 64,
        forall|i: int|
            #![trigger bytes[4 * i]]
            0 <= i < 16 ==> bytes[4 * i] + 256 * bytes[4 * i + 1] + 65536 * bytes[4 * i + 2]
                + 16777216 * bytes[4 * i + 3] == (state[i].value * 0x1_0000_0000) % 2_130_706_433,
        blake3_output(bytes, 64).len() == 64,
        0 <= j < 16,
    ensures
        permuted(state).len() == 16,
        ({
            let d = blake3_output(bytes, 64);
            permuted(state)[j].value == (d[4 * j] + 256 * d[4 * j + 1] + 65536 * d[4 * j + 2]
                + 16777216 * d[4 * j + 3]) % 2_130_706_433
        }),
{
    lemma_bytes_are_elements(state, bytes);
    law_bytes_to_elements(blake3_output(bytes, 64), 16, j);
}

impl Blake3Permutation {
    pub fn permute_mut(&self, state: &mut [KoalaBear; WIDTH])
        ensures
            final(state)@ == permuted(old(state)@),
    {
        let ghost start = state@;
        let mut buf: Vec<u8> = Vec::new();
        push_elements(&mut buf, state.as_slice());
        assert(buf@ =~= element_bytes(start));
        let output = extendable_output(buf.as_slice(), WIDTH * 4);
        let mut i: usize = 0;
        while i < WIDTH
            invariant
                i <= 16,
                output@.len() == 64,
                forall|k: int|
                    0 <= k < i ==> #[trigger] state@[k] == kb(from_le(output@.skip(4 * k)) as int),
            decreases 16 - i,
        {
            state[i] = KoalaBear::new(read_le(output.as_slice(), i * 4));
            i += 1;
        }
        assert(state@ =~= permuted(start));
    }

    /// Permutes the states that the lanes of a packed state hold, each on its own.
    pub fn permute_lanes_mut<const LANES: usize>(&self, state: &mut [[KoalaBear; LANES]; WIDTH])
        ensures
            forall|l: int|
                0 <= l < LANES ==> #[trigger] lane(final(state)@, l) == permuted(
                    lane(old(state)@, l),
                ),
    {
        let mut l: usize = 0;
        while l < LANES
            invariant
                l <= LANES,
                forall|k: int|
                    0 <= k < l ==> #[trigger] lane(state@, k) == permuted(lane(old(state)@, k)),
                forall|k: int|
                    l <= k < LANES ==> #[trigger] lane(state@, k) == lane(old(state)@, k),
            decreases LANES - l,
        {
            let ghost before = state@;
            let mut scalar = [KoalaBear::zero(); WIDTH];
            let mut i: usize = 0;
            while i < WIDTH
                invariant
                    i <= 16,
                    l < LANES,
                    forall|j: int| 0 <= j < i ==> #[trigger] scalar@[j] == state@[j]@[l as int],
                decreases 16 - i,
            {
                scalar[i] = state[i][l];
                i += 1;
            }
            assert(scalar@ =~= lane(before, l as int));
            self.permute_mut(&mut scalar);
            let mut i: usize = 0;
            while i < WIDTH
                invariant
                    i <= 16,
                    l < LANES,
                    forall|j: int|
                        0 <= j < i ==> (#[trigger] state@[j])@ == before[j]@.update(
                            l as int,
                            scalar@[j],
                        ),
                    forall|j: int| i <= j < 16 ==> #[trigger] state@[j] == before[j],
                decreases 16 - i,
            {
                let mut row = state[i];
                row[l] = scalar[i];
                state[i] = row;
                i += 1;
            }
            assert(lane(state@, l as int) =~= scalar@);
            assert forall|k: int| 0 <= k < LANES && k != l implies #[trigger] lane(state@, k)
                == lane(before, k) by {
                assert(lane(state@, k) =~= lane(before, k));
            }
            l += 1;
        }
    }
}

/// The state that lane `l` of a packed state holds.
pub open spec fn lane<const LANES: usize>(state: Seq<[KoalaBear; LANES]>, l: int) -> Seq<
    KoalaBear,
> {
    Seq::new(state.len(), |i: int| state[i]@[l])
}

/// A lane of packed states is made of the lane's element of each.
pub proof fn law_lane<const LANES: usize>(state: Seq<[KoalaBear; LANES]>, l: int, i: int)
    requires
        0 <= l < LANES,
        0 <= i < state.len(),
    ensures
        lane(state, l).len() == state.len(),
        lane(state, l)[i] == state[i]@[l],
{
}

} // verus!
