use lean_multisig::field::{KoalaBear, Ring};
use lean_multisig::xor_table::{
    a_byte_mle, b_byte_mle, build_xor_accumulator, xor_fingerprint_mle, xor_result_mle,
};
use rand::rngs::StdRng;
use rand::{RngExt, SeedableRng};

fn f(n: u32) -> KoalaBear {
    KoalaBear::from_u32(n)
}

#[test]
fn test_xor_mle_consistency() {
    let mut rng = StdRng::seed_from_u64(42);

    // Generate random evaluation point (16 coordinates)
    let point: Vec<KoalaBear> = (0..16)
        .map(|_| KoalaBear::from_u32(rng.random::<u32>() % KoalaBear::ORDER_U32))
        .collect();

    // Evaluate MLE by brute force
    let mut brute_force_xor = KoalaBear::zero();
    let mut brute_force_a = KoalaBear::zero();
    let mut brute_force_b = KoalaBear::zero();
    for i in 0..65536u32 {
        let a = i >> 8;
        let b = i & 0xFF;
        let xor_val = a ^ b;

        let mut eq = KoalaBear::one();
        for k in 0..16 {
            let bit = (i >> k) & 1;
            let r_k = point[k as usize];
            if bit == 1 {
                eq = eq.mul(r_k);
            } else {
                eq = eq.mul(KoalaBear::one().sub(r_k));
            }
        }

        brute_force_xor = brute_force_xor.add(eq.mul(f(xor_val)));
        brute_force_a = brute_force_a.add(eq.mul(f(a)));
        brute_force_b = brute_force_b.add(eq.mul(f(b)));
    }

    let analytical_xor = xor_result_mle(&point);
    let analytical_a = a_byte_mle(&point);
    let analytical_b = b_byte_mle(&point);

    assert_eq!(analytical_xor, brute_force_xor, "XOR MLE mismatch");
    assert_eq!(analytical_a, brute_force_a, "a_byte MLE mismatch");
    assert_eq!(analytical_b, brute_force_b, "b_byte MLE mismatch");
}

#[test]
fn columns_at_a_vertex_are_the_bytes() {
    // a = 0b1010_0110, b = 0b0011_0101
    let (a, b) = (0xA6u32, 0x35u32);
    let mut point = Vec::new();
    for k in 0..8 {
        point.push(f((b >> k) & 1));
    }
    for k in 0..8 {
        point.push(f((a >> k) & 1));
    }
    assert_eq!(a_byte_mle(&point), f(a));
    assert_eq!(b_byte_mle(&point), f(b));
    assert_eq!(xor_result_mle(&point), f(a ^ b));
    let alphas = vec![f(2), f(3), f(5), f(7)];
    // 2 * 166 + 3 * 53 + 5 * 147 + 7 * 9
    assert_eq!(xor_fingerprint_mle(&point, &alphas, 9), f(332 + 159 + 735 + 63));
}

#[test]
fn accumulator_counts_lookups_of_bytes() {
    let a0 = vec![f(1), f(1), f(255), f(256)];
    let b0 = vec![f(2), f(2), f(255), f(0)];
    let a1 = vec![f(1)];
    let b1 = vec![f(2)];
    let alone = vec![f(7)];
    let a: Vec<&[KoalaBear]> = vec![&a0, &a1, &alone];
    let b: Vec<&[KoalaBear]> = vec![&b0, &b1];
    let acc = build_xor_accumulator(&a, &b, 65536);
    assert_eq!(acc.len(), 65536);
    assert_eq!(acc[258], f(3));
    assert_eq!(acc[65535], f(1));
    let total: u32 = acc.iter().map(|x| x.as_canonical_u32()).sum();
    assert_eq!(total, 4);
}
