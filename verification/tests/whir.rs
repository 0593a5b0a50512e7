use lean_multisig::field::{KoalaBear, Ring};
use lean_multisig::poly::{evaluate_ext, expand_from_univariate};
use lean_multisig::sumcheck::rounds::{receive_first, SumcheckSingle};
use lean_multisig::whir::commit::{ood_answers, MerkleData, Witness};
use lean_multisig::whir::constraints::initial_polynomial;
use lean_multisig::whir::config::{FoldingFactor, RoundConfig, WhirConfig};
use lean_multisig::whir::matrix::{DenseMatrix, Dimensions};
use lean_multisig::whir::merkle::{
    merkle_commit, merkle_open_base, merkle_verify, DftOutput, OpenedLeaf,
};
use lean_multisig::whir::open::{ProverStep, RoundState};
use lean_multisig::whir::queries::{
    compute_stir_queries, open_merkle_tree_at_challenges, stir_evaluations, Answer,
};
use lean_multisig::whir::statement::{
    combine_statement, combine_statement_with_round0, SparseStatement, SparseValue,
};

type F = KoalaBear;

fn f(n: u32) -> F {
    F::from_u32(n)
}

fn values(n: usize, seed: u32) -> Vec<F> {
    (0..n).map(|i| f(seed * 1009 + 37 * (i * i) as u32 + 11 * i as u32)).collect()
}

fn inner(a: &[F], b: &[F]) -> F {
    let mut acc = f(0);
    for i in 0..a.len() {
        acc = acc.add(a[i].mul(b[i]));
    }
    acc
}

fn statements(poly: &[F]) -> (Vec<SparseStatement<F>>, Vec<Vec<F>>) {
    let (p, q, r) = (values(4, 3), values(4, 4), values(2, 5));
    let next = values(4, 6);
    let block = |s: usize| &poly[4 * s..4 * s + 4];
    let list = vec![
        SparseStatement::dense(p.clone(), evaluate_ext(poly, &p)),
        SparseStatement::dense(q.clone(), evaluate_ext(poly, &q)),
        SparseStatement::new(
            4,
            r.clone(),
            vec![
                SparseValue { selector: 3, value: evaluate_ext(block(3), &r) },
                SparseValue { selector: 1, value: evaluate_ext(block(1), &r) },
            ],
        ),
        SparseStatement::new_next(
            4,
            r.clone(),
            vec![SparseValue { selector: 2, value: inner(block(2), &next) }],
        ),
        SparseStatement::unique_value(4, 13, poly[13]),
    ];
    let tables = vec![vec![], vec![], vec![], next, vec![]];
    (list, tables)
}

#[test]
fn combined_statements_weight_the_polynomial() {
    let poly = values(16, 1);
    let (list, tables) = statements(&poly);
    let gamma = f(17);
    let (weights, sum) = combine_statement(&list, &tables, gamma);
    assert_eq!(inner(&poly, &weights), sum);
    // The last statement is the sixth value: its weight is gamma to the fifth.
    let (without, partial) = combine_statement(&list[..4], &tables[..4], gamma);
    let g5 = f(1_419_857);
    assert_eq!(weights[13], without[13].add(g5));
    assert_eq!(sum, partial.add(poly[13].mul(g5)));
}

#[test]
fn fused_combination_gives_the_first_round() {
    let poly = values(16, 2);
    let (list, tables) = statements(&poly);
    let gamma = f(23);
    let (weights, sum) = combine_statement(&list, &tables, gamma);
    let (fused, fused_sum, first) =
        combine_statement_with_round0::<F, F>(&list, &tables, gamma, &poly).unwrap();
    assert_eq!(fused, weights);
    assert_eq!(fused_sum, sum);
    assert_eq!(first.evaluate(f(0)).add(first.evaluate(f(1))), sum);
    assert_eq!(first.evaluate(f(0)), inner(&poly[..8], &weights[..8]));
    // Not fusible: the second statement is not on the whole polynomial.
    assert!(combine_statement_with_round0::<F, F>(&list[1..], &tables[1..], gamma, &poly).is_none());
    assert!(combine_statement_with_round0::<F, F>(&list[..1], &tables[..1], gamma, &poly).is_none());
}

#[test]
fn initial_rounds_agree_on_both_paths() {
    let poly = values(16, 9);
    let (list, tables) = statements(&poly);
    let cs = values(3, 40);
    for skip in [0usize, 2] {
        let (weights, sum) = combine_statement(&list[skip..], &tables[skip..], f(5));
        let (polys, state) = SumcheckSingle::<F>::run_initial_sumcheck_rounds::<F>(
            &poly,
            &list[skip..],
            &tables[skip..],
            f(5),
            &cs,
        );
        let mut claim = sum;
        for (p, r) in polys.iter().zip(&cs) {
            assert_eq!(p.evaluate(f(0)).add(p.evaluate(f(1))), claim);
            claim = p.evaluate(*r);
        }
        assert_eq!(state.sum, claim);
        assert_eq!(inner(&state.evals, &state.weights), claim);
        assert_eq!(evaluate_ext(&state.weights, &[f(6)]), {
            let mut point = cs.clone();
            point.push(f(6));
            evaluate_ext(&weights, &point)
        });
    }
}

#[test]
fn added_equalities_keep_the_sum() {
    let poly = values(8, 7);
    let weights = values(8, 8);
    let sum = inner(&poly, &weights);
    let mut s = SumcheckSingle { evals: poly.clone(), weights, sum };
    let points = vec![values(3, 1), values(3, 2)];
    let evals: Vec<F> = points.iter().map(|p| evaluate_ext(&poly, p)).collect();
    s.add_new_equality(&points, &evals, &[f(1), f(9)]);
    assert_eq!(inner(&s.evals, &s.weights), s.sum);
    s.add_new_base_equality::<F>(&points, &evals, &[f(81), f(729)]);
    assert_eq!(inner(&s.evals, &s.weights), s.sum);
    s.add_new_equality(&points[..1], &[evals[0].add(f(1))], &[f(2)]);
    assert_eq!(inner(&s.evals, &s.weights).add(f(2)), s.sum);
}

fn config() -> WhirConfig {
    WhirConfig {
        num_variables: 6,
        folding_factor: FoldingFactor { first: 2, rest: 1 },
        round_parameters: vec![RoundConfig {
            ood_samples: 1,
            query_pow_bits: 0,
            num_queries: 2,
            folding_pow_bits: 0,
            rs_reduction: 1,
        }],
        starting_log_inv_rate: 1,
        starting_folding_pow_bits: 0,
        commitment_ood_samples: 1,
        final_sumcheck_rounds: 3,
        final_queries: 1,
        final_query_pow_bits: 0,
    }
}

#[test]
fn parameters_and_statements_are_validated() {
    let c = config();
    assert!(c.validate_parameters());
    let mut d = config();
    d.final_sumcheck_rounds = 2;
    assert!(!d.validate_parameters());
    d.folding_factor.rest = usize::MAX;
    assert!(!d.validate_parameters());
    assert!(c.validate_witness(1, 1, 6));
    assert!(!c.validate_witness(1, 2, 6));
    assert!(!c.validate_witness(1, 1, 5));
    let good = SparseStatement::unique_value(6, 63, f(1));
    assert!(c.validate_statement(&[good]));
    assert!(!c.validate_statement(&[SparseStatement::unique_value(6, 64, f(1))]));
    assert!(!c.validate_statement(&[SparseStatement::unique_value(5, 3, f(1))]));
    assert!(!c.validate_statement(&[SparseStatement::new(6, vec![f(1)], vec![])]));
    let too_many = SparseStatement::new(6, values(7, 1), vec![SparseValue { selector: 0, value: f(1) }]);
    assert!(!c.validate_statement(&[too_many]));
}

#[test]
fn commit_shapes_skip_empty_columns() {
    let c = config();
    // Four blocks of sixteen.
    let s = c.commit_shape(33, 2);
    assert_eq!((s.n_blocks, s.effective_n_cols, s.dft_n_cols), (4, 3, 4));
    let s = c.commit_shape(17, 2);
    assert_eq!((s.effective_n_cols, s.dft_n_cols), (2, 2));
    let s = c.commit_shape(16, 8);
    assert_eq!((s.effective_n_cols, s.dft_n_cols), (1, 4));
}

#[test]
fn steps_follow_the_rounds() {
    let c = config();
    match c.next_step(0, 128) {
        ProverStep::Round(shape) => {
            assert_eq!(shape.num_variables, 4);
            assert_eq!(shape.folding_factor_next, 1);
            assert_eq!(shape.new_domain_size, 64);
            assert_eq!(shape.log_inv_rate, 2);
            assert_eq!(shape.generator_log, 5);
            assert_eq!(shape.query_domain_size, 32);
        }
        _ => panic!("a round"),
    }
    match c.next_step(1, 64) {
        ProverStep::FinalRound { query_domain_size, sumcheck_rounds } => {
            assert_eq!((query_domain_size, sumcheck_rounds), (32, 3));
        }
        _ => panic!("the final round"),
    }
    assert!(matches!(c.next_step(2, 64), ProverStep::Done));
}

fn matrix(rows: usize, width: usize) -> DenseMatrix<F> {
    DenseMatrix::new(values(rows * width, 12), width)
}

#[test]
fn committed_rows_open_and_verify() {
    let (root, tree) = merkle_commit(DftOutput::Base(matrix(8, 3)), 4, 3);
    for index in 0..8 {
        let (leaf, siblings) = merkle_open_base(&tree, index);
        assert_eq!(leaf.len(), 4);
        assert_eq!(leaf[3], f(0));
        assert_eq!(leaf[..3], values(24, 12)[3 * index..3 * index + 3]);
        let dims = Dimensions { width: 4, height: 8 };
        assert!(merkle_verify(root, index, dims, OpenedLeaf::Base(leaf.clone()), &siblings));
        assert!(!merkle_verify(root, index ^ 1, dims, OpenedLeaf::Base(leaf.clone()), &siblings));
        let mut wrong = leaf.clone();
        wrong[0] = wrong[0].add(f(1));
        assert!(!merkle_verify(root, index, dims, OpenedLeaf::Base(wrong), &siblings));
        let dims = Dimensions { width: 4, height: 16 };
        assert!(!merkle_verify(root, index, dims, OpenedLeaf::Base(leaf), &siblings));
    }
}

#[test]
fn queries_are_opened_by_kind() {
    let (base, base_root) = MerkleData::build(DftOutput::Base(matrix(4, 2)), 2, 2);
    let opened = open_merkle_tree_at_challenges(&base, &[3, 0]);
    assert_eq!(opened.answers.len(), 2);
    assert_eq!(opened.base_paths.len(), 2);
    assert!(opened.ext_paths.is_empty());
    assert_eq!(opened.base_paths[0].leaf_index, 3);
    assert_eq!(opened.base_paths[0].leaf_data, values(8, 12)[6..8].to_vec());
    let dims = Dimensions { width: 2, height: 4 };
    for p in opened.base_paths {
        assert!(merkle_verify(base_root, p.leaf_index, dims, OpenedLeaf::Base(p.leaf_data), &p.sibling_hashes));
    }
    let entries: Vec<[F; 5]> = (0..4).map(|i| std::array::from_fn(|j| f(10 * i + j as u32))).collect();
    let (ext, ext_root) = MerkleData::build(DftOutput::Extension(DenseMatrix::new(entries.clone(), 1)), 1, 1);
    let opened = open_merkle_tree_at_challenges(&ext, &[2]);
    assert!(opened.base_paths.is_empty());
    assert_eq!(opened.ext_paths[0].leaf_data, vec![entries[2]]);
    let path = opened.ext_paths.into_iter().next().unwrap();
    let dims = Dimensions { width: 1, height: 4 };
    assert!(merkle_verify(ext_root, 2, dims, OpenedLeaf::Extension(path.leaf_data), &path.sibling_hashes));
}

#[test]
fn query_points_and_answers() {
    let (ood, stir) = compute_stir_queries::<F, F>(f(3), 2, &[f(5)], &[4, 0]);
    assert_eq!(ood, vec![vec![f(25), f(5)]]);
    assert_eq!(stir, vec![vec![f(6561), f(81)], vec![f(1), f(1)]]);
    let r = values(3, 14);
    let a = values(4, 15);
    let b = values(2, 16);
    let plain = stir_evaluations(&vec![Answer::Base(a.clone())], &None, &r[1..]);
    assert_eq!(plain, vec![evaluate_ext(&a, &r[1..])]);
    let paired = stir_evaluations(
        &vec![Answer::<F>::Base(a.clone())],
        &Some((vec![Answer::Extension(b.clone())], 1)),
        &r,
    );
    let mut stacked = b;
    stacked.extend([f(0), f(0)]);
    stacked.extend(a);
    assert_eq!(paired, vec![evaluate_ext(&stacked, &r)]);
}

#[test]
fn a_round_keeps_the_claim_true() {
    let c = config();
    let poly = values(64, 18);
    let (root, witness): (_, Witness<F>) =
        c.commit::<F, F>(DftOutput::Base(matrix(32, 4)), &poly, 64, 1, vec![f(77)]);
    assert_eq!(MerkleData::build(DftOutput::Base(matrix(32, 4)), 4, 4).1, root);
    assert_eq!(witness.ood_answers, vec![evaluate_ext(&poly, &expand_from_univariate(f(77), 6))]);
    assert_eq!(witness.ood_answers, ood_answers::<F, F>(&poly, &[f(77)], 6));
    let point = values(6, 19);
    let statement = vec![SparseStatement::dense(point.clone(), evaluate_ext(&poly, &point))];
    let gen = f(31);
    let cs = values(2, 60);
    let (polys, mut state) = RoundState::<F>::initialize_first_round_state::<F>(
        &c,
        statement,
        vec![vec![]],
        witness,
        &poly,
        f(13),
        &cs,
        gen,
    );
    assert_eq!(polys.len(), 2);
    assert_eq!(state.domain_size, 128);
    assert_eq!(inner(&state.sumcheck_prover.evals, &state.sumcheck_prover.weights), state.sumcheck_prover.sum);
    assert_eq!(state.folding_randomness(1), vec![cs[1]]);

    let shape = match c.next_step(0, state.domain_size) {
        ProverStep::Round(shape) => shape,
        _ => panic!("a round"),
    };
    let folded = state.sumcheck_prover.evals.clone();
    // Leaves that are constant, with the folded polynomial's values at the points of the domain.
    let at = |i: u64| {
        let x = lean_multisig::poly::exp_u64(gen, i);
        evaluate_ext(&folded, &expand_from_univariate(x, 4))
    };
    let rows: Vec<F> = (0..32u64).flat_map(|i| vec![at(i); 4]).collect();
    state.merkle_prover_data = MerkleData::build(DftOutput::Base(DenseMatrix::new(rows, 4)), 4, 4).0;
    let basis = [f(1), f(2), f(3), f(4), f(5)];
    let next = DftOutput::Base(matrix(16, 2));
    let sent = state.round(&shape, 2, next, &[f(41)], &[1, 4], &basis, f(6), &[f(91)], f(2));
    assert_eq!(sent.root, MerkleData::build(DftOutput::Base(matrix(16, 2)), 2, 2).1);
    assert_eq!(sent.ood_answers, vec![evaluate_ext(&folded, &expand_from_univariate(f(41), 4))]);
    assert_eq!(sent.openings.base_paths[1].leaf_data, vec![at(4); 4]);
    assert_eq!(sent.openings.base_paths[1].leaf_index, 4);
    assert!(sent.openings_b.is_none());
    assert_eq!(sent.polynomials.len(), 1);
    assert_eq!(state.domain_size, 64);
    assert_eq!(state.randomness_vec, vec![cs[0], cs[1], f(91)]);
    assert_eq!(inner(&state.sumcheck_prover.evals, &state.sumcheck_prover.weights), state.sumcheck_prover.sum);
    let (openings, last) = state.final_round(&[7], &values(3, 70));
    assert_eq!(openings.base_paths[0].leaf_data, values(32, 12)[14..16].to_vec());
    assert_eq!(last.len(), 3);
    assert_eq!(state.randomness_vec.len(), c.num_variables);
    assert_eq!(state.sumcheck_prover.evals, vec![evaluate_ext(&poly, &state.randomness_vec)]);
}

#[test]
fn leaves_over_the_extension_are_read_in_the_basis() {
    let basis = [f(1), f(7), f(49), f(343), f(2401)];
    let leaf = OpenedLeaf::Extension(vec![[f(1), f(0), f(2), f(0), f(0)], [f(0), f(3), f(0), f(0), f(1)]]);
    match Answer::of_leaf(&leaf, &basis) {
        Answer::Extension(v) => assert_eq!(v, vec![f(99), f(2422)]),
        Answer::Base(_) => panic!("an extension leaf"),
    }
    match Answer::<F>::of_leaf(&OpenedLeaf::Base(vec![f(5)]), &basis) {
        Answer::Base(v) => assert_eq!(v, vec![f(5)]),
        Answer::Extension(_) => panic!("a base leaf"),
    }
}

#[test]
fn challenges_one_by_one_give_the_same_rounds() {
    let poly = values(16, 21);
    let (list, tables) = statements(&poly);
    let cs = values(3, 50);
    for skip in [0usize, 2] {
        let (polys, state) = SumcheckSingle::<F>::run_initial_sumcheck_rounds::<F>(
            &poly,
            &list[skip..],
            &tables[skip..],
            f(8),
            &cs,
        );
        let (weights, _, first) =
            initial_polynomial::<F, F>(&poly, &list[skip..], &tables[skip..], f(8));
        assert_eq!(first.coeffs, polys[0].coeffs);
        let mut step = receive_first::<F, F>(&poly, &weights, &first, cs[0]);
        for k in 1..3 {
            let p = step.round_polynomial();
            assert_eq!(p.coeffs, polys[k].coeffs);
            step.receive(&p, cs[k]);
        }
        assert_eq!(step.evals, state.evals);
        assert_eq!(step.weights, state.weights);
        assert_eq!(step.sum, state.sum);
    }
}
