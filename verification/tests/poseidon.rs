use lean_multisig::field::{KoalaBear, Ring};
use lean_multisig::poseidon::permutation::{Poseidon16, PoseidonConstants};
use lean_multisig::poseidon::trace_gen::{
    fill_trace_poseidon_16, TraceConstants, TraceLayout, TraceShape,
};
use lean_multisig::poseidon::witness_gen::{
    compressed_outputs_from_gkr_witness, generate_gkr_witness,
};
use lean_multisig::symmetric::permutation::{Compress2x, Compression};

fn f(n: u32) -> KoalaBear {
    KoalaBear::from_u32(n)
}

fn rows(n: usize, seed: u32) -> Vec<[KoalaBear; 16]> {
    (0..n)
        .map(|r| std::array::from_fn(|i| f(seed + 31 * r as u32 + 7 * i as u32)))
        .collect()
}

fn matrix(seed: u32) -> [[KoalaBear; 16]; 16] {
    std::array::from_fn(|i| std::array::from_fn(|j| f(seed + ((i + 2 * j) % 16) as u32)))
}

fn constants() -> PoseidonConstants<KoalaBear> {
    PoseidonConstants {
        initial: rows(4, 1),
        partial: rows(20, 100),
        last: rows(4, 1000),
        mds: matrix(1),
    }
}

fn times(m: &[[KoalaBear; 16]; 16], s: &[KoalaBear; 16]) -> [KoalaBear; 16] {
    std::array::from_fn(|i| {
        let mut acc = f(0);
        for j in 0..16 {
            acc = acc.add(m[i][j].mul(s[j]));
        }
        acc
    })
}

fn cube(x: KoalaBear) -> KoalaBear {
    x.mul(x).mul(x)
}

fn plus(a: &[KoalaBear; 16], b: &[KoalaBear; 16]) -> [KoalaBear; 16] {
    std::array::from_fn(|i| a[i].add(b[i]))
}

#[test]
fn permutation_follows_its_rounds() {
    let c = constants();
    let input: [KoalaBear; 16] = std::array::from_fn(|i| f(i as u32 * 3 + 1));
    let mut expected = input;
    for r in 0..28 {
        let k = if r < 4 { c.initial[r] } else if r < 24 { c.partial[r - 4] } else { c.last[r - 24] };
        expected = plus(&expected, &k);
        if r < 4 || r >= 24 {
            expected = expected.map(cube);
        } else {
            expected[0] = cube(expected[0]);
        }
        expected = times(&c.mds, &expected);
    }
    let p = Poseidon16 { constants: c };
    let mut state = input;
    p.permute_mut(&mut state);
    assert_eq!(state, expected);
    assert_eq!(p.compress(input), plus(&expected, &input));
    let (mut a, mut b) = (input, expected);
    p.compress_2x(&mut a, &mut b);
    assert_eq!(a, p.compress(input));
    assert_eq!(b, p.compress(expected));
}

#[test]
fn witness_ends_with_the_permuted_rows() {
    let c = constants();
    let columns: Vec<Vec<KoalaBear>> =
        (0..16).map(|j| (0..4).map(|row| f(10 * row + j)).collect()).collect();
    let witness = generate_gkr_witness(&columns, &c);
    assert_eq!(witness.len(), 464);
    assert_eq!(witness[3][2], f(23).add(c.initial[0][3]));
    let outputs = compressed_outputs_from_gkr_witness(&witness, &columns);
    let p = Poseidon16 { constants: c };
    for row in 0..4 {
        let input: [KoalaBear; 16] = std::array::from_fn(|j| columns[j][row]);
        let compressed = p.compress(input);
        for i in 0..8 {
            assert_eq!(outputs[i][row], compressed[i]);
        }
    }
}

#[test]
fn trace_holds_the_states_of_every_row() {
    let shape = TraceShape { n_beginning: 2, n_partial: 3, n_ending: 1 };
    let c = TraceConstants {
        initial: rows(4, 5),
        last: rows(4, 50),
        mds: matrix(2),
        fused: matrix(9),
        bias: rows(1, 77)[0],
        first_rows: rows(3, 300),
        columns: (0..3u32).map(|r| std::array::from_fn(|i| f(r * 4 + i as u32))).collect(),
        scalars: vec![f(11), f(12)],
    };
    // One column beside the trace, then inputs, states, elements, states, outputs.
    let layout = TraceLayout { shape, inputs: 1, beginning: 17, partial: 49, ending: 52, outputs: 68 };
    let mut trace: Vec<Vec<KoalaBear>> = vec![Vec::new(); 76];
    trace[0] = vec![f(8)];
    for j in 0..16 {
        trace[1 + j] = vec![f(j as u32), f(2 * j as u32 + 1)];
    }
    fill_trace_poseidon_16(&mut trace, &layout, &c);
    assert_eq!(trace[0], vec![f(8), f(0)]);
    for row in 0..2 {
        let input: [KoalaBear; 16] = std::array::from_fn(|j| trace[1 + j][row]);
        let full = |s: &[KoalaBear; 16], k: &[KoalaBear; 16]| times(&c.mds, &plus(s, k).map(cube));
        let first = full(&full(&input, &c.initial[0]), &c.initial[1]);
        let second = plus(&full(&first, &c.initial[2]), &c.initial[3]).map(cube);
        let mut s = plus(&times(&c.fused, &second), &c.bias);
        let mut cubes = Vec::new();
        for r in 0..3 {
            s[0] = cube(s[0]);
            cubes.push(s[0]);
            if r < 2 {
                s[0] = s[0].add(c.scalars[r]);
            }
            let old = s;
            s[0] = f(0);
            for j in 0..16 {
                s[0] = s[0].add(c.first_rows[r][j].mul(old[j]));
            }
            for i in 1..16 {
                s[i] = old[i].add(old[0].mul(c.columns[r][i - 1]));
            }
        }
        let ending = full(&full(&s, &c.last[0]), &c.last[1]);
        let end = full(&full(&ending, &c.last[2]), &c.last[3]);
        for j in 0..16 {
            assert_eq!(trace[17 + j][row], first[j]);
            assert_eq!(trace[33 + j][row], second[j]);
            assert_eq!(trace[52 + j][row], ending[j]);
        }
        for r in 0..3 {
            assert_eq!(trace[49 + r][row], cubes[r]);
        }
        for i in 0..8 {
            assert_eq!(trace[68 + i][row], end[i].add(input[i]));
        }
    }
}
