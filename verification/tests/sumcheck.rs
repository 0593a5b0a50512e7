use lean_multisig::field::{KoalaBear, Ring};
use lean_multisig::poly::{
    eval_eq, evaluate, evaluate_ext, exp_u64, expand_from_univariate, powers,
};
use lean_multisig::sumcheck::delayed::{
    compute_product_sumcheck_polynomial_base_ext_packed, reduce_product_sum,
    reduce_signed_product_sum,
};
use lean_multisig::sumcheck::factored::{
    factored_round_polynomial, receive_first_factored, run_product_sumcheck_factored,
    FactoredWeights,
};
use lean_multisig::sumcheck::product::{
    compute_product_sumcheck_polynomial, fold_and_compute_product_sumcheck_polynomial, fold_base,
    fold_ext, sumcheck_quadratic, DensePolynomial,
};
use lean_multisig::sumcheck::rounds::{run_product_sumcheck, ProductComputation};

fn f(n: u32) -> KoalaBear {
    KoalaBear::from_u32(n)
}

fn values(n: usize, seed: u32) -> Vec<KoalaBear> {
    (0..n).map(|i| f(seed.wrapping_mul(2_654_435_761).wrapping_add(97 * (i * i) as u32) >> 2)).collect()
}

fn inner(a: &[KoalaBear], b: &[KoalaBear]) -> KoalaBear {
    let mut acc = f(0);
    for i in 0..a.len() {
        acc = acc.add(a[i].mul(b[i]));
    }
    acc
}

#[test]
fn polynomials_are_evaluated() {
    let p = DensePolynomial::new(vec![f(1), f(2), f(3)]);
    assert_eq!(p.evaluate(f(10)), f(321));
    assert_eq!(ProductComputation.degree(), 2);
    assert_eq!(ProductComputation.eval_extension(&[f(6), f(7)]), f(42));
    assert_eq!(sumcheck_quadratic::<KoalaBear, KoalaBear>((f(2), f(5)), (f(7), f(9))), (f(14), f(6)));
}

#[test]
fn first_polynomial_has_exact_coefficients() {
    // x = (1, 2, 3, 4), y = (5, 6, 7, 8)
    let x = vec![f(1), f(2), f(3), f(4)];
    let y = vec![f(5), f(6), f(7), f(8)];
    let sum = inner(&x, &y);
    let p = compute_product_sumcheck_polynomial::<KoalaBear, KoalaBear>(&x, &y, sum);
    // c0 = 1*5 + 2*6, c2 = 2*2 + 2*2, c1 = 70 - 2*17 - 8
    assert_eq!(p.coeffs, vec![f(17), f(28), f(8)]);
    assert_eq!(p.evaluate(f(0)).add(p.evaluate(f(1))), sum);
    let (q, xf, yf) =
        fold_and_compute_product_sumcheck_polynomial::<KoalaBear, KoalaBear>(&x, &y, f(3), p.evaluate(f(3)));
    assert_eq!(xf, vec![f(7), f(8)]);
    assert_eq!(yf, vec![f(11), f(12)]);
    assert_eq!(q.evaluate(f(0)).add(q.evaluate(f(1))), p.evaluate(f(3)));
    assert_eq!(fold_base::<KoalaBear, KoalaBear>(&x, f(3)), xf);
    assert_eq!(fold_ext(&y, f(3)), yf);
}

#[test]
fn every_round_keeps_the_sum() {
    let x = values(16, 3);
    let y = values(16, 8);
    let cs = values(4, 21);
    let sum = inner(&x, &y);
    let (polys, state) = run_product_sumcheck::<KoalaBear, KoalaBear>(&x, &y, sum, &cs);
    assert_eq!(polys.len(), 4);
    let mut claim = sum;
    for (p, r) in polys.iter().zip(&cs) {
        assert_eq!(p.evaluate(f(0)).add(p.evaluate(f(1))), claim);
        claim = p.evaluate(*r);
    }
    assert_eq!(state.sum, claim);
    assert_eq!(state.evals, vec![evaluate::<KoalaBear, KoalaBear>(&x, &cs)]);
    assert_eq!(state.weights, vec![evaluate_ext(&y, &cs)]);
    assert_eq!(state.evals[0].mul(state.weights[0]), claim);
}

#[test]
fn one_round_folds_both_vectors() {
    let x = values(4, 1);
    let y = values(4, 2);
    let (polys, state) =
        run_product_sumcheck::<KoalaBear, KoalaBear>(&x, &y, inner(&x, &y), &[f(9)]);
    assert_eq!(polys.len(), 1);
    assert_eq!(state.evals, fold_ext(&x, f(9)));
    assert_eq!(state.weights, fold_ext(&y, f(9)));
}

fn factored() -> (FactoredWeights<KoalaBear>, Vec<KoalaBear>) {
    let (n_top, n_bot) = (4, 8);
    let w = FactoredWeights {
        eq_top_a: values(n_top, 2),
        eq_top_b: values(n_top, 4),
        eq_bot_a: values(n_bot, 6),
        eq_bot_b: values(n_bot, 8),
        corrections: values(n_top * n_bot, 10),
    };
    let mut full = Vec::new();
    for j in 0..n_top {
        for t in 0..n_bot {
            full.push(
                w.eq_top_a[j]
                    .mul(w.eq_bot_a[t])
                    .add(w.eq_top_b[j].mul(w.eq_bot_b[t]))
                    .add(w.corrections[j * n_bot + t]),
            );
        }
    }
    (w, full)
}

#[test]
fn factored_weights_give_the_plain_run() {
    let (w, full) = factored();
    let x = values(32, 33);
    let sum = inner(&x, &full);
    for n in [1usize, 2, 4, 5] {
        let cs = values(n, 50);
        let (polys, state) =
            run_product_sumcheck_factored::<KoalaBear, KoalaBear>(&x, &w, sum, &cs);
        let (plain, plain_state) =
            run_product_sumcheck::<KoalaBear, KoalaBear>(&x, &full, sum, &cs);
        for (a, b) in polys.iter().zip(&plain) {
            assert_eq!(a.coeffs, b.coeffs);
        }
        assert_eq!(polys.len(), plain.len());
        assert_eq!(state.sum, plain_state.sum);
        assert_eq!(state.evals, plain_state.evals);
        assert_eq!(state.weights, plain_state.weights);
    }
}

#[test]
fn factored_rounds_one_by_one() {
    let (w, full) = factored();
    let x = values(32, 35);
    let sum = inner(&x, &full);
    let cs = values(4, 52);
    let (polys, state) = run_product_sumcheck_factored::<KoalaBear, KoalaBear>(&x, &w, sum, &cs);
    let first = factored_round_polynomial::<KoalaBear, KoalaBear>(&x, &w, sum);
    assert_eq!(first.coeffs, polys[0].coeffs);
    let mut step = receive_first_factored::<KoalaBear, KoalaBear>(&x, &w, &first, cs[0]);
    for k in 1..4 {
        let p = step.round_polynomial();
        assert_eq!(p.coeffs, polys[k].coeffs);
        step.receive(&p, cs[k]);
    }
    assert_eq!(step.evals, state.evals);
    assert_eq!(step.weights, state.weights);
    assert_eq!(step.sum, state.sum);
}

#[test]
fn three_factored_rounds_leave_the_last_fold_out() {
    let (w, full) = factored();
    let x = values(32, 34);
    let cs = values(3, 51);
    let sum = inner(&x, &full);
    let (polys, state) = run_product_sumcheck_factored::<KoalaBear, KoalaBear>(&x, &w, sum, &cs);
    let (plain, plain_state) = run_product_sumcheck::<KoalaBear, KoalaBear>(&x, &full, sum, &cs);
    assert_eq!(polys[2].coeffs, plain[2].coeffs);
    assert_eq!(state.sum, plain_state.sum);
    assert_eq!(state.evals.len(), 8);
    assert_eq!(fold_ext(&state.evals, cs[2]), plain_state.evals);
    assert_eq!(fold_ext(&state.weights, cs[2]), plain_state.weights);
}

#[test]
fn delayed_reduction_agrees_in_every_coordinate() {
    let x = values(8, 5);
    let y: Vec<[KoalaBear; 3]> =
        (0..8).map(|i| std::array::from_fn(|j| values(8, 70 + j as u32)[i])).collect();
    let sum: [KoalaBear; 3] = std::array::from_fn(|j| f(j as u32 + 4));
    let p = compute_product_sumcheck_polynomial_base_ext_packed(&x, &y, sum);
    for j in 0..3 {
        let column: Vec<KoalaBear> = y.iter().map(|v| v[j]).collect();
        let q = compute_product_sumcheck_polynomial::<KoalaBear, KoalaBear>(&x, &column, sum[j]);
        let got: Vec<KoalaBear> = p.coeffs.iter().map(|c| c[j]).collect();
        assert_eq!(got, q.coeffs);
    }
    let product = f(6).to_unique_u32() as u128 * f(7).to_unique_u32() as u128;
    assert_eq!(reduce_product_sum(product), f(42));
    assert_eq!(reduce_signed_product_sum(-(product as i128)), f(42).neg());
    assert_eq!(reduce_signed_product_sum(0), f(0));
}

#[test]
fn multilinear_points_and_tables() {
    // The first coordinate belongs to the most significant bit.
    let table = eval_eq(&[f(2), f(3)], f(10));
    // 10 * (1-2)(1-3), 10 * (1-2)*3, 10 * 2*(1-3), 10 * 2*3
    assert_eq!(table, vec![f(20), f(30).neg(), f(40).neg(), f(60)]);
    let v = vec![f(1), f(2), f(3), f(4)];
    // 1 + 2 * 2 + 1 * 3
    assert_eq!(evaluate::<KoalaBear, KoalaBear>(&v, &[f(2), f(3)]), f(8));
    assert_eq!(eval_eq(&[], f(5)), vec![f(5)]);
    assert_eq!(expand_from_univariate(f(3), 3), vec![f(81), f(9), f(3)]);
    assert_eq!(expand_from_univariate(f(3), 0), Vec::<KoalaBear>::new());
    assert_eq!(powers(f(2), 4), vec![f(1), f(2), f(4), f(8)]);
    assert_eq!(exp_u64(f(3), 13), f(1_594_323));
    assert_eq!(exp_u64(f(3), 0), f(1));
}
