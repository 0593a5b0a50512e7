//! Powers of two and their logarithms.

use vstd::arithmetic::power2::{lemma_pow2_pos, lemma_pow2_strictly_increases, lemma_pow2_unfold, pow2};
use vstd::prelude::*;

verus! {

/// `k` is the least exponent whose power of two is at least `n`.
pub open spec fn is_log2_ceil(n: int, k: nat) -> bool {
    &&& pow2(k) >= n
    &&& k == 0 || pow2((k - 1) as nat) < n
}

pub proof fn lemma_pow2_base()
    ensures
        pow2(0) == 1,
        pow2(1) == 2,
        pow2(2) == 4,
{
    vstd::arithmetic::power2::lemma2_to64();
}

pub proof fn lemma_pow2_step(k: nat)
    ensures
        pow2(k + 1) == 2 * pow2(k),
        pow2(k) >= 1,
{
    lemma_pow2_unfold(k + 1);
    lemma_pow2_pos(k);
}

pub proof fn lemma_pow2_monotone(j: nat, k: nat)
    requires
        j <= k,
    ensures
        pow2(j) <= pow2(k),
{
    if j < k {
        lemma_pow2_strictly_increases(j, k);
    }
}

/// Exponents are determined by their powers.
pub proof fn lemma_pow2_injective(j: nat, k: nat)
    requires
        pow2(j) == pow2(k),
    ensures
        j == k,
{
    if j < k {
        lemma_pow2_strictly_increases(j, k);
    } else if k < j {
        lemma_pow2_strictly_increases(k, j);
    }
}

/// There is only one such exponent.
pub proof fn lemma_log2_ceil_unique(n: int, j: nat, k: nat)
    requires
        is_log2_ceil(n, j),
        is_log2_ceil(n, k),
    ensures
        j == k,
{
    if j < k {
        lemma_pow2_monotone(j, (k - 1) as nat);
    } else if k < j {
        lemma_pow2_monotone(k, (j - 1) as nat);
    }
}

/// The logarithm of a power of two is its exponent.
pub proof fn lemma_log2_of_pow2(k: nat)
    ensures
        is_log2_ceil(pow2(k) as int, k),
{
    if k > 0 {
        lemma_pow2_strictly_increases((k - 1) as nat, k);
    }
}

/// Every number has a least exponent whose power of two reaches it.
pub proof fn lemma_log2_ceil_exists(n: int)
    requires
        n <= usize::MAX,
    ensures
        is_log2_ceil(n, log2_ceil_of(n)),
{
    lemma_log2_ceil_search(n, 64);
}

proof fn lemma_log2_ceil_search(n: int, k: nat)
    requires
        n <= usize::MAX,
        k <= 64,
        k < 64 ==> pow2(k) >= n,
    ensures
        exists|j: nat| #[trigger] is_log2_ceil(n, j),
    decreases k,
{
    vstd::arithmetic::power2::lemma2_to64();
    if k == 0 || pow2((k - 1) as nat) < n {
        assert(is_log2_ceil(n, k));
    } else {
        lemma_log2_ceil_search(n, (k - 1) as nat);
    }
}

/// The smallest exponent whose power of two is at least `n`.
pub open spec fn log2_ceil_of(n: int) -> nat {
    choose|k: nat| #[trigger] is_log2_ceil(n, k)
}

/// The logarithm rounded up: its power of two reaches the number, and no smaller one does. Of a
/// power of two the exact logarithm is the exponent.
pub proof fn law_logarithms(n: int, k: nat)
    requires
        n <= usize::MAX,
    ensures
        pow2(log2_ceil_of(n)) >= n,
        pow2(k) >= n ==> log2_ceil_of(n) <= k,
        pow2(k) == n ==> log2_exact(n) == k,
        is_pow2(n) ==> pow2(log2_exact(n)) == n,
{
    lemma_log2_ceil_exists(n);
    let l = log2_ceil_of(n);
    if pow2(k) >= n && l > k {
        lemma_pow2_monotone(k, (l - 1) as nat);
    }
    if pow2(k) == n {
        let e = log2_exact(n);
        assert(pow2(e) == n);
        if e < k {
            lemma_pow2_strictly_increases(e, k);
        } else if k < e {
            lemma_pow2_strictly_increases(k, e);
        }
    }
}

/// The least exponent whose power of two is at least `n`.
pub fn log2_ceil_usize(n: usize) -> (k: usize)
    ensures
        is_log2_ceil(n as int, k as nat),
        k == log2_ceil_of(n as int),
        k <= 64,
{
    let mut k: usize = 0;
    let mut p: u128 = 1;
    proof {
        lemma_pow2_base();
    }
    while p < n as u128
        invariant
            p == pow2(k as nat),
            k == 0 || pow2((k - 1) as nat) < n,
            k <= 64,
        decreases 65 - k,
    {
        proof {
            lemma_pow2_step(k as nat);
            vstd::arithmetic::power2::lemma2_to64();
            if k >= 64 {
                lemma_pow2_monotone(64, k as nat);
            }
        }
        p = p * 2;
        k += 1;
    }
    proof {
        assert(is_log2_ceil(n as int, k as nat));
        lemma_log2_ceil_unique(n as int, k as nat, log2_ceil_of(n as int));
    }
    k
}

/// The exponent of a power of two.
pub open spec fn log2_exact(n: int) -> nat {
    choose|k: nat| #[trigger] pow2(k) == n
}

/// The number is a power of two.
pub open spec fn is_pow2(n: int) -> bool {
    exists|k: nat| #[trigger] pow2(k) == n
}

/// The exponent of a power of two.
pub fn log2_strict_usize(n: usize) -> (k: usize)
    requires
        exists|j: nat| #[trigger] pow2(j) == n,
    ensures
        pow2(k as nat) == n,
        k == log2_exact(n as int),
        k < 64,
{
    let k: usize = log2_ceil_usize(n);
    proof {
        let j = choose|j: nat| #[trigger] pow2(j) == n;
        lemma_log2_of_pow2(j);
        lemma_log2_ceil_unique(n as int, j, k as nat);
        vstd::arithmetic::power2::lemma2_to64();
    }
    k
}

/// `2^k`.
pub fn pow2_usize(k: usize) -> (r: usize)
    requires
        pow2(k as nat) <= usize::MAX,
    ensures
        r == pow2(k as nat),
{
    let mut r: usize = 1;
    let mut i: usize = 0;
    proof {
        lemma_pow2_base();
    }
    while i < k
        invariant
            i <= k,
            r == pow2(i as nat),
            pow2(k as nat) <= usize::MAX,
        decreases k - i,
    {
        proof {
            lemma_pow2_step(i as nat);
            lemma_pow2_monotone((i + 1) as nat, k as nat);
        }
        r = r * 2;
        i += 1;
    }
    r
}

} // verus!
