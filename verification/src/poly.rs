//! Multilinear polynomials by their values on the hypercube.
//!
//! A vector of `2^n` values is a polynomial in `n` variables. The first variable is the most
//! significant bit of the index, so it chooses between the halves of the vector.

use crate::field::{Algebra, Ring};
use crate::math::{lemma_pow2_base, lemma_pow2_monotone, lemma_pow2_step};
use crate::ring::{lemma_minus_plus, lemma_times_minus, lemma_zero_plus};
use crate::sumcheck::product::{diff, fold, lower, upper};
use crate::sumcheck::rounds::folded_by;
use crate::sumcheck::vectors::{
    all_canonical, dot, lemma_dot_append, lemma_dot_canonical, lemma_dot_plus_left,
    lemma_dot_scale_left, lemma_dot_scale_right, lemma_vplus_diff, lifted, products, total, vscale,
};
use vstd::arithmetic::power2::pow2;
use vstd::prelude::*;

verus! {

/// The values of the equality polynomial of a point on the hypercube.
pub open spec fn eq_table<R: Ring>(point: Seq<R>) -> Seq<R>
    decreases point.len(),
{
    if point.len() == 0 {
        seq![R::ring_one()]
    } else {
        let rest = eq_table(point.drop_first());
        vscale(R::ring_one().minus(point.first()), rest) + vscale(point.first(), rest)
    }
}

/// The value at a point of the polynomial with these values on the hypercube.
pub open spec fn mle_eval<R: Ring>(values: Seq<R>, point: Seq<R>) -> R {
    dot(values, eq_table(point))
}

/// `base` to the power `n`.
pub open spec fn power<R: Ring>(base: R, n: nat) -> R
    decreases n,
{
    if n == 0 {
        R::ring_one()
    } else {
        power(base, (n - 1) as nat).times(base)
    }
}

/// The first `n` powers of `base`.
pub open spec fn powers_of<R: Ring>(base: R, n: nat) -> Seq<R> {
    Seq::new(n, |i: int| power(base, i as nat))
}

/// The point whose coordinates are the powers of `x` with exponents `2^(n-1), .., 2, 1`.
pub open spec fn univariate_point<R: Ring>(x: R, n: nat) -> Seq<R> {
    Seq::new(n, |i: int| power(x, pow2((n - 1 - i) as nat)))
}

pub proof fn lemma_eq_table_len<R: Ring>(point: Seq<R>)
    ensures
        eq_table(point).len() == pow2(point.len()),
        all_canonical(eq_table(point)),
    decreases point.len(),
{
    lemma_pow2_base();
    R::law_closed(R::ring_one(), R::ring_one(), 0);
    if point.len() > 0 {
        let rest = eq_table(point.drop_first());
        lemma_eq_table_len(point.drop_first());
        lemma_pow2_step((point.len() - 1) as nat);
        assert forall|i: int| 0 <= i < eq_table(point).len() implies (#[trigger] eq_table(
            point,
        )[i]).canonical() by {
            let n = rest.len();
            if i < n {
                R::law_closed(R::ring_one().minus(point.first()), rest[i], 0);
            } else {
                R::law_closed(point.first(), rest[i - n], 0);
            }
        }
    }
}

pub proof fn lemma_power_canonical<R: Ring>(base: R, n: nat)
    ensures
        power(base, n).canonical(),
{
    R::law_closed(R::ring_one(), R::ring_one(), 0);
    if n > 0 {
        R::law_closed(power(base, (n - 1) as nat), base, 0);
    }
}

/// Powers add their exponents.
pub proof fn law_power_adds<R: Ring>(base: R, m: nat, n: nat)
    ensures
        power(base, m + n) == power(base, m).times(power(base, n)),
    decreases n,
{
    if n == 0 {
        lemma_power_canonical(base, m);
        R::law_times_one(power(base, m));
    } else {
        law_power_adds(base, m, (n - 1) as nat);
        assert((m + n - 1) as nat == m + (n - 1) as nat);
        R::law_times_associates(power(base, m), power(base, (n - 1) as nat), base);
    }
}

/// A power of a square is the power with the doubled exponent.
proof fn lemma_power_of_square<R: Ring>(base: R, n: nat)
    ensures
        power(base.times(base), n) == power(base, 2 * n),
    decreases n,
{
    if n > 0 {
        let h = power(base, (2 * n - 2) as nat);
        lemma_power_of_square(base, (n - 1) as nat);
        assert(2 * ((n - 1) as nat) == (2 * n - 2) as nat);
        assert(power(base, (2 * n - 1) as nat) == h.times(base));
        assert(power(base, 2 * n) == h.times(base).times(base));
        R::law_times_associates(h, base, base);
    }
}

/// The values of the equality polynomial of a point, times a scalar.
pub fn eval_eq<R: Ring>(point: &[R], scalar: R) -> (r: Vec<R>)
    requires
        pow2(point@.len()) <= usize::MAX,
    ensures
        r@ == vscale(scalar, eq_table(point@)),
{
    let n: usize = point.len();
    let mut table: Vec<R> = Vec::new();
    table.push(scalar.mul(R::one()));
    let mut k: usize = n;
    proof {
        assert(point@.skip(n as int).len() == 0);
        assert(table@ =~= vscale(scalar, eq_table(point@.skip(n as int))));
    }
    while k > 0
        invariant
            k <= n,
            n == point@.len(),
            pow2(n as nat) <= usize::MAX,
            table@ == vscale(scalar, eq_table(point@.skip(k as int))),
        decreases k,
    {
        k -= 1;
        let p = point[k];
        let q = R::one().sub(p);
        let ghost rest = eq_table(point@.skip(k + 1));
        let ghost tail = point@.skip(k as int);
        let ghost target = vscale(scalar, eq_table(tail));
        proof {
            assert(tail.drop_first() =~= point@.skip(k + 1));
            assert(tail.first() == p);
            lemma_eq_table_len(point@.skip(k + 1));
            lemma_eq_table_len(tail);
            lemma_pow2_step((n - k - 1) as nat);
            lemma_pow2_monotone((n - k) as nat, n as nat);
        }
        let len: usize = table.len();
        let mut next: Vec<R> = Vec::new();
        let mut i: usize = 0;
        while i < len
            invariant
                i <= len,
                len == table@.len(),
                table@ == vscale(scalar, rest),
                target == vscale(scalar, vscale(q, rest) + vscale(p, rest)),
                next@.len() == i,
                forall|j: int| 0 <= j < i ==> #[trigger] next@[j] == target[j],
            decreases len - i,
        {
            next.push(q.mul(table[i]));
            proof {
                lemma_scalar_first(q, scalar, rest[i as int]);
            }
            i += 1;
        }
        i = 0;
        while i < len
            invariant
                i <= len,
                len == table@.len(),
                table@ == vscale(scalar, rest),
                target == vscale(scalar, vscale(q, rest) + vscale(p, rest)),
                next@.len() == len + i,
                forall|j: int| 0 <= j < len + i ==> #[trigger] next@[j] == target[j],
            decreases len - i,
        {
            next.push(p.mul(table[i]));
            proof {
                lemma_scalar_first(p, scalar, rest[i as int]);
            }
            i += 1;
        }
        assert(next@ =~= target);
        table = next;
    }
    assert(point@.skip(0) =~= point@);
    table
}

proof fn lemma_scalar_first<R: Ring>(a: R, s: R, x: R)
    ensures
        a.times(s.times(x)) == s.times(a.times(x)),
{
    R::law_times_associates(a, s, x);
    R::law_times_commutes(a, s);
    R::law_times_associates(s, a, x);
}

/// The value at a point of the polynomial with these values on the hypercube.
pub fn evaluate<F: Ring, EF: Algebra<F>>(values: &[F], point: &[EF]) -> (r: EF)
    requires
        values@.len() == pow2(point@.len()),
    ensures
        r == mle_eval(lifted::<F, EF>(values@), point@),
{
    let n: usize = values.len();
    let table = eval_eq(point, EF::one());
    let ghost x = lifted::<F, EF>(values@);
    let ghost terms = products(x, eq_table(point@));
    let mut acc = EF::zero();
    let mut i: usize = 0;
    proof {
        lemma_eq_table_len(point@);
        assert(terms.take(0).len() == 0);
    }
    while i < n
        invariant
            i <= n,
            n == values@.len(),
            table@.len() == n,
            table@ == vscale(EF::ring_one(), eq_table(point@)),
            eq_table(point@).len() == n,
            all_canonical(eq_table(point@)),
            x == lifted::<F, EF>(values@),
            terms == products(x, eq_table(point@)),
            acc == total(terms.take(i as int)),
        decreases n - i,
    {
        acc = acc.add(table[i].mul_base(values[i]));
        proof {
            let e = eq_table(point@)[i as int];
            EF::law_times_commutes(EF::ring_one(), e);
            EF::law_times_one(e);
            assert(terms.take(i + 1).drop_last() =~= terms.take(i as int));
            assert(terms.take(i + 1).last() == terms[i as int]);
        }
        i += 1;
    }
    assert(terms.take(n as int) =~= terms);
    acc
}

/// The value at a point of the polynomial with these values, over the point's own ring.
pub fn evaluate_ext<R: Ring>(values: &[R], point: &[R]) -> (r: R)
    requires
        values@.len() == pow2(point@.len()),
    ensures
        r == mle_eval(values@, point@),
{
    let n: usize = values.len();
    let table = eval_eq(point, R::one());
    let ghost terms = products(values@, eq_table(point@));
    let mut acc = R::zero();
    let mut i: usize = 0;
    proof {
        lemma_eq_table_len(point@);
        assert(terms.take(0).len() == 0);
    }
    while i < n
        invariant
            i <= n,
            n == values@.len(),
            table@.len() == n,
            table@ == vscale(R::ring_one(), eq_table(point@)),
            eq_table(point@).len() == n,
            all_canonical(eq_table(point@)),
            terms == products(values@, eq_table(point@)),
            acc == total(terms.take(i as int)),
        decreases n - i,
    {
        acc = acc.add(table[i].mul(values[i]));
        proof {
            let e = eq_table(point@)[i as int];
            R::law_times_commutes(R::ring_one(), e);
            R::law_times_one(e);
            assert(terms.take(i + 1).drop_last() =~= terms.take(i as int));
            assert(terms.take(i + 1).last() == terms[i as int]);
        }
        i += 1;
    }
    assert(terms.take(n as int) =~= terms);
    acc
}

/// The first `n` powers of `base`.
pub fn powers<R: Ring>(base: R, n: usize) -> (r: Vec<R>)
    ensures
        r@ == powers_of(base, n as nat),
{
    let mut out: Vec<R> = Vec::new();
    let mut current = R::one();
    let mut i: usize = 0;
    while i < n
        invariant
            i <= n,
            current == power(base, i as nat),
            out@.len() == i,
            forall|j: int| 0 <= j < i ==> #[trigger] out@[j] == power(base, j as nat),
        decreases n - i,
    {
        out.push(current);
        current = current.mul(base);
        i += 1;
    }
    assert(out@ =~= powers_of(base, n as nat));
    out
}

/// `base` to the power `e`.
pub fn exp_u64<R: Ring>(base: R, e: u64) -> (r: R)
    ensures
        r == power(base, e as nat),
{
    let mut acc = R::one();
    let mut square = base;
    let mut left: u64 = e;
    proof {
        lemma_power_canonical(base, e as nat);
        R::law_times_commutes(R::ring_one(), power(base, e as nat));
        R::law_times_one(power(base, e as nat));
        R::law_closed(R::ring_one(), R::ring_one(), 0);
    }
    while left > 0
        invariant
            acc.canonical(),
            acc.times(power(square, left as nat)) == power(base, e as nat),
        decreases left,
    {
        let ghost half = (left / 2) as nat;
        let ghost sq = square.times(square);
        proof {
            lemma_power_of_square(square, half);
        }
        if left % 2 == 1 {
            proof {
                // square^left = square * (square^2)^half
                assert(power(square, left as nat) == power(square, 2 * half).times(square));
                R::law_times_commutes(power(square, 2 * half), square);
                R::law_times_associates(acc, square, power(square, 2 * half));
                R::law_closed(acc, square, 0);
            }
            acc = acc.mul(square);
        }
        square = square.mul(square);
        left = left / 2;
    }
    proof {
        R::law_times_one(acc);
    }
    acc
}

/// The point whose coordinates are the powers of `x` with exponents `2^(n-1), .., 2, 1`.
pub fn expand_from_univariate<R: Ring>(x: R, n: usize) -> (r: Vec<R>)
    ensures
        r@ == univariate_point(x, n as nat),
{
    let mut ascending: Vec<R> = Vec::new();
    if n > 0 {
        let mut current = R::one().mul(x);
        proof {
            lemma_pow2_base();
            assert(power(x, 1) == power(x, 0).times(x));
        }
        let mut i: usize = 0;
        while i < n
            invariant
                i <= n,
                current == power(x, pow2(i as nat)),
                ascending@.len() == i,
                forall|j: int| 0 <= j < i ==> #[trigger] ascending@[j] == power(x, pow2(j as nat)),
            decreases n - i,
        {
            ascending.push(current);
            proof {
                lemma_pow2_step(i as nat);
                law_power_adds(x, pow2(i as nat), pow2(i as nat));
            }
            current = current.mul(current);
            i += 1;
        }
    }
    let mut out: Vec<R> = Vec::new();
    let mut k: usize = n;
    while k > 0
        invariant
            k <= n,
            ascending@.len() == n,
            forall|j: int| 0 <= j < n ==> #[trigger] ascending@[j] == power(x, pow2(j as nat)),
            out@.len() == n - k,
            forall|j: int|
                0 <= j < n - k ==> #[trigger] out@[j] == power(x, pow2((n - 1 - j) as nat)),
        decreases k,
    {
        k -= 1;
        out.push(ascending[k]);
    }
    assert(out@ =~= univariate_point(x, n as nat));
    out
}

/// Folding by the first challenge and then by the others is folding by all of them.
pub proof fn lemma_folded_first<R: Ring>(x: Seq<R>, cs: Seq<R>)
    requires
        cs.len() > 0,
    ensures
        folded_by(x, cs) == folded_by(fold(x, cs.first()), cs.drop_first()),
    decreases cs.len(),
{
    if cs.len() == 1 {
        assert(folded_by(x, cs.drop_last()) == x);
        assert(cs.last() == cs.first());
        assert(folded_by(fold(x, cs.first()), cs.drop_first()) == fold(x, cs.first()));
    } else {
        let init = cs.drop_last();
        lemma_folded_first(x, init);
        assert(init.first() == cs.first());
        assert(cs.drop_first().drop_last() =~= init.drop_first());
        assert(cs.drop_first().last() == cs.last());
    }
}

/// The value at a point is that of the polynomial folded by the first coordinate, at the others.
pub proof fn law_fold_evaluates<R: Ring>(x: Seq<R>, point: Seq<R>)
    requires
        point.len() > 0,
        x.len() == pow2(point.len()),
        all_canonical(x),
    ensures
        mle_eval(x, point) == mle_eval(fold(x, point.first()), point.drop_first()),
{
    let p = point.first();
    let q = R::ring_one().minus(p);
    let rest = eq_table(point.drop_first());
    lemma_eq_table_len(point.drop_first());
    lemma_pow2_step((point.len() - 1) as nat);
    let (lo, hi) = (lower(x), upper(x));
    assert(x =~= lo + hi);
    lemma_dot_append(lo, vscale(q, rest), hi, vscale(p, rest));
    lemma_dot_scale_right(q, lo, rest);
    lemma_dot_scale_right(p, hi, rest);
    let (a, b) = (dot(lo, rest), dot(hi, rest));
    lemma_dot_canonical(lo, rest);
    lemma_dot_canonical(hi, rest);
    // The inner product with the change, from that of the halves.
    let d = dot(diff(x), rest);
    lemma_vplus_diff(lo, hi);
    lemma_dot_plus_left(lo, diff(x), rest);
    assert(b == a.plus(d));
    // Folding.
    lemma_dot_plus_left(vscale(p, diff(x)), lo, rest);
    lemma_dot_scale_left(p, diff(x), rest);
    assert(mle_eval(fold(x, p), point.drop_first()) == p.times(d).plus(a));
    // (1 - p) a + p (a + d) = p d + a
    lemma_times_minus(a, R::ring_one(), p);
    R::law_times_commutes(R::ring_one(), a);
    R::law_times_one(a);
    R::law_distributes(p, a, d);
    let pa = p.times(a);
    let pd = p.times(d);
    R::law_plus_associates(a.minus(pa), pa, pd);
    lemma_minus_plus(a, pa);
    R::law_plus_commutes(a, pd);
}

/// Folding a polynomial by all coordinates of a point leaves its value at the point.
pub proof fn law_folding_all_evaluates<R: Ring>(x: Seq<R>, point: Seq<R>)
    requires
        x.len() == pow2(point.len()),
        all_canonical(x),
    ensures
        folded_by(x, point) == seq![mle_eval(x, point)],
    decreases point.len(),
{
    if point.len() == 0 {
        lemma_pow2_base();
        let t = products(x, eq_table(point));
        assert(t.drop_last().len() == 0);
        let v = x[0];
        R::law_times_commutes(R::ring_one(), v);
        R::law_times_one(v);
        lemma_zero_plus(v);
        assert(total(t) == total(t.drop_last()).plus(t.last()));
        assert(folded_by(x, point) =~= seq![mle_eval(x, point)]);
    } else {
        let y = fold(x, point.first());
        lemma_pow2_step((point.len() - 1) as nat);
        crate::sumcheck::rounds::lemma_fold_canonical(x, point.first());
        lemma_folded_first(x, point);
        law_folding_all_evaluates(y, point.drop_first());
        law_fold_evaluates(x, point);
    }
}

} // verus!
