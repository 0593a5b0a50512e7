use lean_multisig::field::{KoalaBear, Ring};
use lean_multisig::poseidon::permutation::{Poseidon16, PoseidonConstants};
use lean_multisig::symmetric::compression::{compress, compress_x2};
use lean_multisig::symmetric::merkle::{compress_layer, merkle_verify, unpack_array, MerkleTree};
use lean_multisig::symmetric::permutation::Compression;
use lean_multisig::symmetric::settings::{
    set_use_blake3_merkle, use_blake3_merkle, MerkleSettings,
};
use lean_multisig::symmetric::sponge::{
    hash_rtl_iter_interleaved_2x, hash_rtl_iter_interleaved_2x_deep,
    hash_rtl_iter_with_initial_state, hash_slice, precompute_zero_suffix_state,
};
use lean_multisig::whir::matrix::DenseMatrix;
use lean_multisig::whir::merkle::WhirMerkleTree;

type F = KoalaBear;

fn f(n: u32) -> F {
    F::from_u32(n)
}

fn permutation() -> Poseidon16<F> {
    let row = |r: u32| -> [F; 16] { std::array::from_fn(|i| f(17 * r + i as u32)) };
    Poseidon16 {
        constants: PoseidonConstants {
            initial: vec![row(1), row(2)],
            partial: vec![row(3)],
            last: vec![row(4)],
            mds: std::array::from_fn(|i| std::array::from_fn(|j| f(((i + j) % 16) as u32 + 1))),
        },
    }
}

fn digest(seed: u32) -> [F; 8] {
    std::array::from_fn(|i| f(seed * 100 + i as u32))
}

#[test]
fn compression_joins_two_chunks() {
    let p = permutation();
    let (a, b) = (digest(1), digest(2));
    let state: [F; 16] = std::array::from_fn(|i| if i < 8 { a[i] } else { b[i - 8] });
    let expected = p.compress(state);
    let joined = compress::<F, Poseidon16<F>, 8, 16>(&p, [a, b]);
    assert_eq!(joined[..], expected[..8]);
    let both = compress_x2::<F, Poseidon16<F>, 8, 16>(&p, [a, b], [b, a]);
    assert_eq!(both[0], joined);
    assert_eq!(both[1], compress::<F, Poseidon16<F>, 8, 16>(&p, [b, a]));
}

#[test]
fn sponge_absorbs_from_the_end() {
    let p = permutation();
    let data: Vec<F> = (0..16).map(f).collect();
    // The first block starts from the length; blocks are absorbed last first, items reversed.
    let mut state = [f(0); 16];
    state[0] = f(16);
    for chunk in data.chunks(8).rev() {
        for (i, x) in chunk.iter().enumerate() {
            state[8 + i] = *x;
        }
        state = p.compress(state);
    }
    let hash = hash_slice::<F, Poseidon16<F>, 16, 8, 8>(&p, &data);
    assert_eq!(hash[..], state[..8]);
}

#[test]
fn interleaved_hashes_agree_with_single_ones() {
    let p = permutation();
    let a: Vec<F> = (0..24).map(f).collect();
    let b: Vec<F> = (100..124).map(f).collect();
    let initial = precompute_zero_suffix_state::<F, Poseidon16<F>, 16, 8, 8>(&p, f(40), 2);
    let one = hash_rtl_iter_with_initial_state::<F, Poseidon16<F>, 16, 8, 8>(&p, &a, &initial);
    let two = hash_rtl_iter_with_initial_state::<F, Poseidon16<F>, 16, 8, 8>(&p, &b, &initial);
    let pair = hash_rtl_iter_interleaved_2x::<F, Poseidon16<F>, 16, 8, 8>(&p, &a, &b, &initial);
    assert_eq!(pair, (one, two));
    let deep = hash_rtl_iter_interleaved_2x_deep::<F, Poseidon16<F>, 16, 8, 8>(&p, &a, &b, &initial);
    assert_eq!(deep, (one, two));
}

#[test]
fn interleaved_hashes_absorb_the_longer_input_to_its_end() {
    let p = permutation();
    let long: Vec<F> = (0..24).map(f).collect();
    let short: Vec<F> = (100..108).map(f).collect();
    let initial = precompute_zero_suffix_state::<F, Poseidon16<F>, 16, 8, 8>(&p, f(40), 2);
    let one = hash_rtl_iter_with_initial_state::<F, Poseidon16<F>, 16, 8, 8>(&p, &long, &initial);
    let two = hash_rtl_iter_with_initial_state::<F, Poseidon16<F>, 16, 8, 8>(&p, &short, &initial);
    for (a, b, expected) in [(&long, &short, (one, two)), (&short, &long, (two, one))] {
        let pair = hash_rtl_iter_interleaved_2x::<F, Poseidon16<F>, 16, 8, 8>(&p, a, b, &initial);
        assert_eq!(pair, expected);
        let deep =
            hash_rtl_iter_interleaved_2x_deep::<F, Poseidon16<F>, 16, 8, 8>(&p, a, b, &initial);
        assert_eq!(deep, expected);
    }
}

#[test]
fn zero_suffix_state_is_that_of_absorbed_zeros() {
    let p = permutation();
    let mut data: Vec<F> = (1..9).map(f).collect();
    data.extend(vec![f(0); 24]);
    let whole = hash_slice::<F, Poseidon16<F>, 16, 8, 8>(&p, &data);
    let initial = precompute_zero_suffix_state::<F, Poseidon16<F>, 16, 8, 8>(&p, f(32), 3);
    let items: Vec<F> = data[..8].iter().rev().copied().collect();
    let short = hash_rtl_iter_with_initial_state::<F, Poseidon16<F>, 16, 8, 8>(&p, &items, &initial);
    assert_eq!(short, whole);
}

#[test]
fn merkle_openings_verify() {
    let p = permutation();
    let leaves: Vec<Vec<F>> = (0..4).map(|i| (0..8).map(|j| f(50 * i + j)).collect()).collect();
    let first: Vec<[F; 8]> =
        leaves.iter().map(|l| hash_slice::<F, Poseidon16<F>, 16, 8, 8>(&p, l)).collect();
    let tree = MerkleTree::<F, 8>::from_first_layer::<Poseidon16<F>, 16>(&p, first.clone());
    let layer = compress_layer::<F, Poseidon16<F>, 8, 16>(&first, &p);
    assert_eq!(layer.len(), 2);
    assert_eq!(tree.root(), compress::<F, Poseidon16<F>, 8, 16>(&p, [layer[0], layer[1]]));
    for index in 0..4 {
        let siblings = tree.open_siblings(index, 2);
        let root = tree.root();
        assert!(merkle_verify::<F, Poseidon16<F>, 8, 16, 8>(
            &p, &root, 2, index, &leaves[index], &siblings
        ));
        assert!(!merkle_verify::<F, Poseidon16<F>, 8, 16, 8>(
            &p, &root, 3, index, &leaves[index], &siblings
        ));
        assert!(!merkle_verify::<F, Poseidon16<F>, 8, 16, 8>(
            &p, &root, 2, index, &leaves[3 - index], &siblings
        ));
    }
}

#[test]
fn sponge_tree_pads_its_leaves() {
    let p = permutation();
    let rows: Vec<F> = (0..32).map(f).collect();
    let tree = WhirMerkleTree::<F, 8>::new::<Poseidon16<F>, 16, 8>(
        &p,
        DenseMatrix::new(rows.clone(), 8),
        32,
        8,
    );
    let (leaf, siblings) = tree.open(2);
    assert_eq!(leaf[..8], rows[16..24]);
    assert_eq!(leaf[8..], vec![f(0); 24][..]);
    let root = tree.root();
    assert!(merkle_verify::<F, Poseidon16<F>, 8, 16, 8>(&p, &root, 2, 2, &leaf, &siblings));
}

#[test]
fn packed_digests_are_unpacked_by_lane() {
    let packed = [[f(1), f(2)], [f(3), f(4)], [f(5), f(6)]];
    assert_eq!(unpack_array(packed), vec![[f(1), f(3), f(5)], [f(2), f(4), f(6)]]);
}

#[test]
fn settings_switch_the_hash() {
    let mut s = MerkleSettings::new();
    assert!(!use_blake3_merkle(&s));
    set_use_blake3_merkle(&mut s, true);
    assert!(use_blake3_merkle(&s));
    set_use_blake3_merkle(&mut s, false);
    assert!(!use_blake3_merkle(&s));
}
