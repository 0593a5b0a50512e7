//! The order of the field is prime, so the field has no zero divisors.

use crate::field::{KoalaBear, Ring, ORDER_U32};
use vstd::arithmetic::div_mod::{
    lemma_fundamental_div_mod, lemma_mod_multiples_vanish, lemma_mul_mod_noop, lemma_small_mod,
};
use vstd::prelude::*;

verus! {

#[verifier::rlimit(100)]
proof fn lemma_no_divisor_1(d: u32, q: u32)
    by (bit_vector)
    requires
        2 <= d <= 256,
        q <= 1065353216,
    ensures
        (d as u64) * (q as u64) != 2_130_706_433u64,
{
}

#[verifier::rlimit(100)]
proof fn lemma_no_divisor_2(d: u32, q: u32)
    by (bit_vector)
    requires
        256 <= d <= 1024,
        q <= 8323072,
    ensures
        (d as u64) * (q as u64) != 2_130_706_433u64,
{
}

#[verifier::rlimit(100)]
proof fn lemma_no_divisor_3(d: u32, q: u32)
    by (bit_vector)
    requires
        1024 <= d <= 4096,
        q <= 2080768,
    ensures
        (d as u64) * (q as u64) != 2_130_706_433u64,
{
}

#[verifier::rlimit(100)]
proof fn lemma_no_divisor_4(d: u32, q: u32)
    by (bit_vector)
    requires
        4096 <= d <= 8192,
        q <= 520192,
    ensures
        (d as u64) * (q as u64) != 2_130_706_433u64,
{
}

#[verifier::rlimit(100)]
proof fn lemma_no_divisor_5(d: u32, q: u32)
    by (bit_vector)
    requires
        8192 <= d <= 16384,
        q <= 260096,
    ensures
        (d as u64) * (q as u64) != 2_130_706_433u64,
{
}

#[verifier::rlimit(100)]
proof fn lemma_no_divisor_6(d: u32, q: u32)
    by (bit_vector)
    requires
        16384 <= d <= 32768,
        q <= 130048,
    ensures
        (d as u64) * (q as u64) != 2_130_706_433u64,
{
}

#[verifier::rlimit(100)]
proof fn lemma_no_divisor_7(d: u32, q: u32)
    by (bit_vector)
    requires
        32768 <= d <= 46160,
        q <= 65024,
    ensures
        (d as u64) * (q as u64) != 2_130_706_433u64,
{
}

/// The order of the field is no product of two greater numbers than one.
pub proof fn law_order_is_prime(d: int, q: int)
    requires
        d >= 2,
        q >= 2,
    ensures
        d * q != ORDER_U32,
{
    if d * q == ORDER_U32 {
        assert(d * q == q * d) by (nonlinear_arith);
        if d <= q {
            lemma_no_divisor(d, q);
        } else {
            lemma_no_divisor(q, d);
        }
    }
}

proof fn lemma_no_divisor(d: int, q: int)
    requires
        2 <= d <= q,
    ensures
        d * q != ORDER_U32,
{
    if d * q == ORDER_U32 {
        assert(d <= 46160) by (nonlinear_arith)
            requires
                2 <= d <= q,
                d * q == 2_130_706_433,
        ;
        assert(q <= 1065353216) by (nonlinear_arith)
            requires
                2 <= d,
                d * q == 2_130_706_433,
        ;
        let (a, b) = (d as u32, q as u32);
        assert((a as u64) * (b as u64) == d * q);
        if d <= 256 {
            lemma_no_divisor_1(a, b);
        } else if d <= 1024 {
            assert(q <= 8323072) by (nonlinear_arith)
                requires
                    256 <= d,
                    d * q == 2_130_706_433,
            ;
            lemma_no_divisor_2(a, b);
        } else if d <= 4096 {
            assert(q <= 2080768) by (nonlinear_arith)
                requires
                    1024 <= d,
                    d * q == 2_130_706_433,
            ;
            lemma_no_divisor_3(a, b);
        } else if d <= 8192 {
            assert(q <= 520192) by (nonlinear_arith)
                requires
                    4096 <= d,
                    d * q == 2_130_706_433,
            ;
            lemma_no_divisor_4(a, b);
        } else if d <= 16384 {
            assert(q <= 260096) by (nonlinear_arith)
                requires
                    8192 <= d,
                    d * q == 2_130_706_433,
            ;
            lemma_no_divisor_5(a, b);
        } else if d <= 32768 {
            assert(q <= 130048) by (nonlinear_arith)
                requires
                    16384 <= d,
                    d * q == 2_130_706_433,
            ;
            lemma_no_divisor_6(a, b);
        } else {
            assert(q <= 65024) by (nonlinear_arith)
                requires
                    32768 <= d,
                    d * q == 2_130_706_433,
            ;
            lemma_no_divisor_7(a, b);
        }
    }
}

/// Every residue but zero has an inverse.
pub proof fn law_inverse_exists(a: int) -> (s: int)
    requires
        0 < a < ORDER_U32,
    ensures
        (a * s) % (ORDER_U32 as int) == 1,
    decreases a,
{
    let p = ORDER_U32 as int;
    if a == 1 {
        1
    } else {
        let (q, r) = (p / a, p % a);
        lemma_fundamental_div_mod(p, a);
        assert(q >= 1) by (nonlinear_arith)
            requires
                p == a * q + r,
                0 <= r < a,
                a < p,
        ;
        if r == 0 {
            assert(q >= 2) by (nonlinear_arith)
                requires
                    p == a * q,
                    a < p,
                    q >= 1,
            ;
            law_order_is_prime(a, q);
        }
        let t = law_inverse_exists(r);
        let s = -(q * t);
        assert(a * s == p * (-t) + r * t) by (nonlinear_arith)
            requires
                p == a * q + r,
                s == -(q * t),
        ;
        lemma_mod_multiples_vanish(-t, r * t, p);
        s
    }
}

/// The field has no zero divisors.
pub proof fn law_no_zero_divisors(a: KoalaBear, b: KoalaBear)
    requires
        a.canonical(),
        b.canonical(),
        a.times(b) == KoalaBear::ring_zero(),
    ensures
        a == KoalaBear::ring_zero() || b == KoalaBear::ring_zero(),
{
    let p = ORDER_U32 as int;
    let (x, y) = (a.value as int, b.value as int);
    if x != 0 {
        let s = law_inverse_exists(x);
        let n = x * y;
        assert(n % p == 0);
        lemma_mul_mod_noop(n, s, p);
        lemma_mul_mod_noop(x * s, y, p);
        assert(n * s == (x * s) * y) by (nonlinear_arith)
            requires
                n == x * y,
        ;
        assert((n % p) * (s % p) == 0) by (nonlinear_arith)
            requires
                n % p == 0,
        ;
        assert(((x * s) % p) * (y % p) == y % p) by (nonlinear_arith)
            requires
                (x * s) % p == 1,
        ;
        vstd::arithmetic::div_mod::lemma_mod_twice(y, p);
        lemma_small_mod(y as nat, p as nat);
    }
}

} // verus!
