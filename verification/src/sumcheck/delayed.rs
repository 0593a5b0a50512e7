//! The round polynomial of a product sumcheck with delayed modular reduction: products of
//! Montgomery forms are summed as integers and reduced once at the end.

use crate::field::{kb, monty, residue, KoalaBear, Ring, ORDER_U32};
use crate::sumcheck::product::{diff, lower, round_poly, same_pow2_len, DensePolynomial};
use crate::sumcheck::vectors::{dot, products, total};
use vstd::prelude::*;

verus! {

/// The residue whose product with `2^64` is one.
pub const INV_R_SQUARED: u128 = 1_606_320_385;

/// The field element that a sum of products of Montgomery forms stands for.
pub open spec fn reduced(acc: int) -> KoalaBear {
    kb(residue(acc) * INV_R_SQUARED)
}

/// The sum stands for a field element: it is congruent to `2^64` times the residue.
spec fn stands_for(acc: int, d: int) -> bool {
    residue(acc - 0x1_0000_0000_0000_0000 * d) == 0
}

proof fn lemma_witness(n: int) -> (k: int)
    requires
        residue(n) == 0,
    ensures
        n == ORDER_U32 * k,
{
    n / (ORDER_U32 as int)
}

proof fn lemma_multiple(n: int, k: int)
    requires
        n == ORDER_U32 * k,
    ensures
        residue(n) == 0,
{
    vstd::arithmetic::div_mod::lemma_mod_multiples_basic(k, ORDER_U32 as int);
    assert(k * ORDER_U32 == ORDER_U32 * k) by (nonlinear_arith);
}

/// Adding a product of two Montgomery forms adds the product of the elements.
proof fn lemma_stands_for_step(acc: int, d: int, mx: int, my: int, x: int, y: int)
    requires
        stands_for(acc, d),
        residue(mx - 0x1_0000_0000 * x) == 0,
        residue(my - 0x1_0000_0000 * y) == 0,
    ensures
        stands_for(acc + my * mx, residue(d + residue(y * x))),
{
    let p = ORDER_U32 as int;
    let k1 = lemma_witness(acc - 0x1_0000_0000_0000_0000 * d);
    let k2 = lemma_witness(mx - 0x1_0000_0000 * x);
    let k3 = lemma_witness(my - 0x1_0000_0000 * y);
    let (rx, ry) = (0x1_0000_0000 * x, 0x1_0000_0000 * y);
    let z = k2 * ry + k3 * rx + p * (k2 * k3);
    assert(my * mx == ry * rx + p * z) by (nonlinear_arith)
        requires
            mx == rx + p * k2,
            my == ry + p * k3,
            z == k2 * ry + k3 * rx + p * (k2 * k3),
    ;
    assert(ry * rx == 0x1_0000_0000_0000_0000 * (y * x)) by (nonlinear_arith)
        requires
            rx == 0x1_0000_0000 * x,
            ry == 0x1_0000_0000 * y,
    ;
    let e = residue(y * x);
    let k4 = y * x / p;
    let k5 = (d + e) / p;
    let d2 = residue(d + e);
    assert(y * x == p * k4 + e);
    assert(d + e == p * k5 + d2);
    let k = k1 + z + 0x1_0000_0000_0000_0000 * (k4 + k5);
    lemma_multiple(acc + my * mx - 0x1_0000_0000_0000_0000 * d2, k);
}

/// What a sum stands for is what it reduces to.
proof fn lemma_reduced(acc: int, d: int)
    requires
        stands_for(acc, d),
        0 <= d < ORDER_U32,
    ensures
        reduced(acc) == (KoalaBear { value: d as u32 }),
{
    let p = ORDER_U32 as int;
    let r2 = 0x1_0000_0000_0000_0000int;
    let i = INV_R_SQUARED as int;
    let k1 = lemma_witness(acc - r2 * d);
    let q = acc / p;
    let a = residue(acc);
    assert(acc == p * q + a);
    let c = 13_906_834_176_474_087_423int;
    assert(r2 * i == 1 + p * c);
    let k = d * c + (k1 - q) * i;
    assert(a * i == p * k + d) by (nonlinear_arith)
        requires
            acc == p * q + a,
            acc == r2 * d + p * k1,
            r2 * i == 1 + p * c,
            k == d * c + (k1 - q) * i,
    ;
    vstd::arithmetic::div_mod::lemma_fundamental_div_mod_converse(a * i, p, k, d);
}

proof fn lemma_monty(x: KoalaBear)
    ensures
        residue(monty(x) - 0x1_0000_0000 * x.value) == 0,
        monty(x) < ORDER_U32,
{
    let p = ORDER_U32 as int;
    let n = x.value * 0x1_0000_0000;
    lemma_multiple(monty(x) - 0x1_0000_0000 * x.value, -(n / p));
}

/// The difference of two Montgomery forms is congruent to that of the difference.
proof fn lemma_monty_difference(x1: KoalaBear, x0: KoalaBear)
    ensures
        residue(monty(x1) - monty(x0) - 0x1_0000_0000 * x1.minus(x0).value) == 0,
{
    let p = ORDER_U32 as int;
    lemma_monty(x1);
    lemma_monty(x0);
    let k1 = lemma_witness(monty(x1) - 0x1_0000_0000 * x1.value);
    let k0 = lemma_witness(monty(x0) - 0x1_0000_0000 * x0.value);
    let n = x1.value - x0.value;
    let k = k1 - k0 + 0x1_0000_0000 * (n / p);
    assert(x1.minus(x0).value == residue(n));
    lemma_multiple(monty(x1) - monty(x0) - 0x1_0000_0000 * x1.minus(x0).value, k);
}

/// Reduces a sum of products of Montgomery forms.
pub fn reduce_product_sum(acc: u128) -> (r: KoalaBear)
    ensures
        r == reduced(acc as int),
{
    let a: u128 = acc % 2_130_706_433;
    assert(a * INV_R_SQUARED < 2_130_706_433 * 2_130_706_433) by (nonlinear_arith)
        requires
            a < 2_130_706_433,
            INV_R_SQUARED < 2_130_706_433,
    ;
    assert(0 <= a * INV_R_SQUARED) by (nonlinear_arith);
    let v: u128 = (a * INV_R_SQUARED) % 2_130_706_433;
    KoalaBear { value: v as u32 }
}

/// Reduces a signed sum of products of differences of Montgomery forms.
pub fn reduce_signed_product_sum(acc: i128) -> (r: KoalaBear)
    requires
        acc > i128::MIN,
    ensures
        r == reduced(acc as int),
{
    if acc >= 0 {
        reduce_product_sum(acc as u128)
    } else {
        let m: u128 = (-acc) as u128;
        let rest: u128 = m % 2_130_706_433;
        let wrapped: u128 = (2_130_706_433 - rest) % 2_130_706_433;
        proof {
            let p = ORDER_U32 as int;
            let q = m as int / p;
            if rest == 0 {
                vstd::arithmetic::div_mod::lemma_fundamental_div_mod_converse(
                    acc as int,
                    p,
                    -q,
                    0,
                );
            } else {
                vstd::arithmetic::div_mod::lemma_fundamental_div_mod_converse(
                    acc as int,
                    p,
                    -q - 1,
                    p - rest,
                );
            }
        }
        reduce_product_sum(wrapped)
    }
}

/// Coordinate `j` of a sequence of vectors.
pub open spec fn coordinate<const DIM: usize>(
    v: Seq<[KoalaBear; DIM]>,
    j: int,
) -> Seq<KoalaBear> {
    Seq::new(v.len(), |i: int| v[i]@[j])
}

/// The outer coefficients for one coordinate.
fn coordinate_sums<const DIM: usize>(
    pol_0: &[KoalaBear],
    pol_1: &[[KoalaBear; DIM]],
    j: usize,
) -> (r: (KoalaBear, KoalaBear))
    requires
        pol_0@.len() == pol_1@.len(),
        j < DIM,
    ensures
        ({
            let x = pol_0@;
            let y = coordinate(pol_1@, j as int);
            &&& r.0 == dot(lower(x), lower(y))
            &&& r.1 == dot(diff(x), diff(y))
        }),
{
    let half: usize = pol_0.len() / 2;
    let n: usize = pol_0.len();
    let ghost x = pol_0@;
    let ghost y = coordinate(pol_1@, j as int);
    let ghost p0 = products(lower(x), lower(y));
    let ghost p2 = products(diff(x), diff(y));
    let mut c0: u128 = 0;
    let mut c2: i128 = 0;
    let mut i: usize = 0;
    assert(p0.take(0).len() == 0 && p2.take(0).len() == 0);
    while i < half
        invariant
            i <= half,
            n == pol_0.len(),
            pol_0@.len() == pol_1@.len(),
            half == n / 2,
            half + half <= n,
            j < DIM,
            x == pol_0@,
            y == coordinate(pol_1@, j as int),
            p0 == products(lower(x), lower(y)),
            p2 == products(diff(x), diff(y)),
            p0.len() == half,
            p2.len() == half,
            0 <= c0 <= i * 0x4000_0000_0000_0000,
            -(i * 0x4000_0000_0000_0000) <= c2 <= i * 0x4000_0000_0000_0000,
            stands_for(c0 as int, total(p0.take(i as int)).value as int),
            stands_for(c2 as int, total(p2.take(i as int)).value as int),
            total(p0.take(i as int)).value < ORDER_U32,
            total(p2.take(i as int)).value < ORDER_U32,
        decreases half - i,
    {
        let x0: u32 = pol_0[i].to_unique_u32();
        let x1: u32 = pol_0[i + half].to_unique_u32();
        let y0: u32 = pol_1[i][j].to_unique_u32();
        let y1: u32 = pol_1[i + half][j].to_unique_u32();
        proof {
            let (vx0, vx1) = (x[i as int], x[i + half]);
            let (vy0, vy1) = (y[i as int], y[i + half]);
            lemma_monty(vx0);
            lemma_monty(vx1);
            lemma_monty(vy0);
            lemma_monty(vy1);
            lemma_monty_difference(vx1, vx0);
            lemma_monty_difference(vy1, vy0);
            lemma_product_bounds(x0 as int, x1 as int, y0 as int, y1 as int);
            let d0 = total(p0.take(i as int)).value as int;
            let d2 = total(p2.take(i as int)).value as int;
            lemma_stands_for_step(
                c0 as int,
                d0,
                x0 as int,
                y0 as int,
                vx0.value as int,
                vy0.value as int,
            );
            lemma_stands_for_step(
                c2 as int,
                d2,
                x1 - x0,
                y1 - y0,
                vx1.minus(vx0).value as int,
                vy1.minus(vy0).value as int,
            );
            assert(p0[i as int] == vy0.times(vx0));
            assert(diff(x)[i as int] == vx1.minus(vx0));
            assert(diff(y)[i as int] == vy1.minus(vy0));
            assert(p2[i as int] == vy1.minus(vy0).times(vx1.minus(vx0)));
            assert(p0.take(i + 1).drop_last() =~= p0.take(i as int));
            assert(p2.take(i + 1).drop_last() =~= p2.take(i as int));
        }
        c0 = c0 + (y0 as u64 * x0 as u64) as u128;
        c2 = c2 + (y1 as i64 - y0 as i64) as i128 * (x1 as i64 - x0 as i64) as i128;
        i += 1;
    }
    proof {
        assert(p0.take(i as int) =~= p0 && p2.take(i as int) =~= p2);
        lemma_reduced(c0 as int, total(p0).value as int);
        lemma_reduced(c2 as int, total(p2).value as int);
    }
    (reduce_product_sum(c0), reduce_signed_product_sum(c2))
}

proof fn lemma_product_bounds(x0: int, x1: int, y0: int, y1: int)
    requires
        0 <= x0 < ORDER_U32,
        0 <= x1 < ORDER_U32,
        0 <= y0 < ORDER_U32,
        0 <= y1 < ORDER_U32,
    ensures
        0 <= y0 * x0 <= 0x4000_0000_0000_0000,
        -0x4000_0000_0000_0000 <= (y1 - y0) * (x1 - x0) <= 0x4000_0000_0000_0000,
{
    let b = 0x8000_0000int;
    assert(0 <= y0 * x0 <= b * b) by (nonlinear_arith)
        requires
            0 <= x0 <= b,
            0 <= y0 <= b,
    ;
    let (u, v) = (y1 - y0, x1 - x0);
    assert(-(b * b) <= u * v <= b * b) by (nonlinear_arith)
        requires
            -b <= u <= b,
            -b <= v <= b,
    ;
}

/// The polynomial of a round of the product sumcheck, for weights given by their coordinates
/// over the base field: in each coordinate, the round polynomial of that coordinate.
pub fn compute_product_sumcheck_polynomial_base_ext_packed<const DIM: usize>(
    pol_0: &[KoalaBear],
    pol_1: &[[KoalaBear; DIM]],
    sum: [KoalaBear; DIM],
) -> (r: DensePolynomial<[KoalaBear; DIM]>)
    requires
        same_pow2_len(pol_0@.len() as int, pol_1@.len() as int),
    ensures
        r.coeffs@.len() == 3,
        forall|j: int|
            0 <= j < DIM ==> #[trigger] coordinate(r.coeffs@, j) == round_poly(
                pol_0@,
                coordinate(pol_1@, j),
                sum@[j],
            ),
{
    let mut c0: [KoalaBear; DIM] = [KoalaBear { value: 0 }; DIM];
    let mut c1: [KoalaBear; DIM] = [KoalaBear { value: 0 }; DIM];
    let mut c2: [KoalaBear; DIM] = [KoalaBear { value: 0 }; DIM];
    let mut j: usize = 0;
    while j < DIM
        invariant
            j <= DIM,
            pol_0@.len() == pol_1@.len(),
            forall|k: int|
                0 <= k < j ==> seq![#[trigger] c0@[k], c1@[k], c2@[k]] == round_poly(
                    pol_0@,
                    coordinate(pol_1@, k),
                    sum@[k],
                ),
        decreases DIM - j,
    {
        let (a0, a2) = coordinate_sums(pol_0, pol_1, j);
        let a1 = sum[j].sub(a0.double()).sub(a2);
        c0[j] = a0;
        c1[j] = a1;
        c2[j] = a2;
        assert(seq![c0@[j as int], c1@[j as int], c2@[j as int]] =~= round_poly(
            pol_0@,
            coordinate(pol_1@, j as int),
            sum@[j as int],
        ));
        j += 1;
    }
    let coeffs = vec![c0, c1, c2];
    proof {
        assert forall|k: int| 0 <= k < DIM implies #[trigger] coordinate(coeffs@, k) == round_poly(
            pol_0@,
            coordinate(pol_1@, k),
            sum@[k],
        ) by {
            assert(coordinate(coeffs@, k) =~= seq![c0@[k], c1@[k], c2@[k]]);
        }
    }
    DensePolynomial { coeffs }
}

} // verus!
