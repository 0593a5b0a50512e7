use lean_multisig::blake3_hash::{blake3_compress, blake3_compress_from_16, Blake3Permutation};
use lean_multisig::field::{KoalaBear, Ring};
use lean_multisig::word::{byte, push_le_bytes, read_le, rotate_right};
use lean_multisig::wrappers::ToUsize;

fn f(n: u32) -> KoalaBear {
    KoalaBear::from_u32(n)
}

#[test]
fn field_arithmetic_wraps_at_the_order() {
    let p = KoalaBear::ORDER_U32;
    assert_eq!(f(p), KoalaBear::zero());
    assert_eq!(f(p - 1).add(f(2)), f(1));
    assert_eq!(f(1).sub(f(3)), f(p - 2));
    assert_eq!(f(5).neg(), f(p - 5));
    assert_eq!(f(100_000).mul(f(100_000)), KoalaBear::from_u64(10_000_000_000));
    assert_eq!(KoalaBear::neg_one(), f(p - 1));
    assert_eq!(f(7).double(), f(14));
    assert_eq!(f(7).square(), f(49));
    assert_eq!(KoalaBear::from_bool(true), KoalaBear::one());
    assert_eq!(f(12).to_usize(), 12);
    // 2^32 modulo the order
    assert_eq!(KoalaBear::one().to_unique_u32(), 33_554_430);
}

#[test]
fn words_have_little_endian_bytes() {
    let x: u32 = 0x1234_ABCD;
    assert_eq!(byte(x, 0), 0xCD);
    assert_eq!(byte(x, 3), 0x12);
    assert_eq!(rotate_right(x, 16), 0xABCD_1234);
    let mut bytes = vec![9u8];
    push_le_bytes(&mut bytes, x);
    assert_eq!(bytes, vec![9, 0xCD, 0xAB, 0x34, 0x12]);
    assert_eq!(read_le(&bytes, 1), x);
}

fn montgomery_bytes(elements: &[KoalaBear]) -> Vec<u8> {
    let mut out = Vec::new();
    for e in elements {
        let monty = ((e.as_canonical_u32() as u64) << 32) % KoalaBear::ORDER_U32 as u64;
        out.extend_from_slice(&(monty as u32).to_le_bytes());
    }
    out
}

#[test]
fn compression_hashes_the_montgomery_bytes() {
    let left: [KoalaBear; 8] = std::array::from_fn(|i| f(1000 * i as u32 + 1));
    let right: [KoalaBear; 8] = std::array::from_fn(|i| f(77 * i as u32 + 3));
    let mut bytes = montgomery_bytes(&left);
    bytes.extend(montgomery_bytes(&right));
    let digest = blake3::hash(&bytes);
    let expected: Vec<KoalaBear> = digest
        .as_bytes()
        .chunks(4)
        .map(|c| f(u32::from_le_bytes([c[0], c[1], c[2], c[3]]) % KoalaBear::ORDER_U32))
        .collect();
    let got = blake3_compress(&left, &right);
    assert_eq!(got.to_vec(), expected);
    let both: [KoalaBear; 16] =
        std::array::from_fn(|i| if i < 8 { left[i] } else { right[i - 8] });
    assert_eq!(blake3_compress_from_16(both), got);
    assert_ne!(blake3_compress(&right, &left), got);
}

#[test]
fn permutation_is_the_extendable_output() {
    let state: [KoalaBear; 16] = std::array::from_fn(|i| f(i as u32));
    let mut hasher = blake3::Hasher::new();
    hasher.update(&montgomery_bytes(&state));
    let mut output = [0u8; 64];
    hasher.finalize_xof().fill(&mut output);
    let mut permuted = state;
    Blake3Permutation.permute_mut(&mut permuted);
    for i in 0..16 {
        let c = &output[4 * i..4 * i + 4];
        let word = u32::from_le_bytes([c[0], c[1], c[2], c[3]]);
        assert_eq!(permuted[i], f(word % KoalaBear::ORDER_U32));
    }
    let mut lanes: [[KoalaBear; 2]; 16] = std::array::from_fn(|i| [f(5), state[i]]);
    Blake3Permutation.permute_lanes_mut(&mut lanes);
    for i in 0..16 {
        assert_eq!(lanes[i][1], permuted[i]);
    }
}
