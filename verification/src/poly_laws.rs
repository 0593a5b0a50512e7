//! What the values of multilinear polynomials, powers and inner products satisfy.

use crate::field::Ring;
use crate::math::{lemma_pow2_base, lemma_pow2_step};
use crate::poly::{eq_table, law_power_adds, lemma_eq_table_len, mle_eval, power, univariate_point};
use crate::ring::lemma_zero_plus;
use crate::sumcheck::vectors::{
    dot, lemma_dot_plus_right, lemma_dot_scale_right, products, total, vplus, vscale,
};
use vstd::arithmetic::power2::pow2;
use vstd::prelude::*;

verus! {

/// The powers of an element start with one, and each is the one before it times the element.
pub proof fn law_powers<R: Ring>(base: R, c: Seq<R>, j: int)
    requires
        0 <= j < c.len(),
        c[0] == R::ring_one(),
        forall|k: int| 0 < k < c.len() ==> #[trigger] c[k] == c[k - 1].times(base),
    ensures
        power(base, j as nat) == c[j],
    decreases j,
{
    if j > 0 {
        law_powers(base, c, j - 1);
        assert(c[j] == c[j - 1].times(base));
    }
}

/// The point of an element ends with the element, and each coordinate is the square of the next.
/// There is one such point.
pub proof fn law_univariate_point<R: Ring>(x: R, n: nat, point: Seq<R>)
    requires
        n > 0,
        x.canonical(),
    ensures
        point == univariate_point(x, n) <==> {
            &&& point.len() == n
            &&& point[n - 1] == x
            &&& forall|i: int|
                0 <= i < n - 1 ==> #[trigger] point[i] == point[i + 1].times(point[i + 1])
        },
{
    let u = univariate_point(x, n);
    lemma_pow2_base();
    assert(u[n - 1] == x) by {
        assert(power(x, 0) == R::ring_one());
        assert(power(x, 1) == R::ring_one().times(x)) by {
            reveal_with_fuel(power, 2);
        }
        R::law_times_commutes(R::ring_one(), x);
        R::law_times_one(x);
    }
    assert forall|i: int| 0 <= i < n - 1 implies #[trigger] u[i] == u[i + 1].times(u[i + 1]) by {
        let e = pow2((n - 2 - i) as nat);
        lemma_pow2_step((n - 2 - i) as nat);
        law_power_adds(x, e, e);
        assert(pow2((n - 1 - i) as nat) == e + e);
    }
    if point.len() == n && point[n - 1] == x && (forall|i: int|
        0 <= i < n - 1 ==> #[trigger] point[i] == point[i + 1].times(point[i + 1])) {
        lemma_same_squares(point, u, 0);
        assert(point =~= u);
    }
}

proof fn lemma_same_squares<R: Ring>(a: Seq<R>, b: Seq<R>, i: int)
    requires
        a.len() == b.len(),
        0 <= i < a.len(),
        a.last() == b.last(),
        forall|k: int| 0 <= k < a.len() - 1 ==> #[trigger] a[k] == a[k + 1].times(a[k + 1]),
        forall|k: int| 0 <= k < b.len() - 1 ==> #[trigger] b[k] == b[k + 1].times(b[k + 1]),
    ensures
        forall|k: int| i <= k < a.len() ==> a[k] == b[k],
    decreases a.len() - i,
{
    if i < a.len() - 1 {
        lemma_same_squares(a, b, i + 1);
        assert(a[i] == a[i + 1].times(a[i + 1]));
        assert(b[i] == b[i + 1].times(b[i + 1]));
    }
}

/// In a sum one term more is one summand more, wherever it stands.
pub proof fn law_total_in_one<R: Ring>(s: Seq<R>, i: int, delta: R)
    requires
        0 <= i < s.len(),
    ensures
        total(s.update(i, s[i].plus(delta))) == total(s).plus(delta),
    decreases s.len(),
{
    let t = s.update(i, s[i].plus(delta));
    if i == s.len() - 1 {
        assert(t.drop_last() =~= s.drop_last());
        R::law_plus_associates(total(s.drop_last()), s[i], delta);
    } else {
        law_total_in_one(s.drop_last(), i, delta);
        assert(t.drop_last() =~= s.drop_last().update(i, s[i].plus(delta)));
        let h = total(s.drop_last());
        R::law_plus_associates(h, delta, s.last());
        R::law_plus_commutes(delta, s.last());
        R::law_plus_associates(h, s.last(), delta);
    }
}

/// A change of one entry of a vector changes its inner product with another by the change times
/// the entry at the same place.
pub proof fn law_dot_in_one<R: Ring>(x: Seq<R>, y: Seq<R>, i: int, delta: R)
    requires
        0 <= i < x.len(),
    ensures
        dot(x.update(i, x[i].plus(delta)), y) == dot(x, y).plus(y[i].times(delta)),
{
    let p = products(x, y);
    R::law_distributes(y[i], x[i], delta);
    assert(products(x.update(i, x[i].plus(delta)), y) =~= p.update(
        i,
        p[i].plus(y[i].times(delta)),
    ));
    law_total_in_one(p, i, y[i].times(delta));
}

/// The inner product of empty vectors is zero, and so is that with a vector of zeros.
pub proof fn law_dot_of_zeros<R: Ring>(x: Seq<R>, y: Seq<R>)
    requires
        forall|i: int| 0 <= i < x.len() ==> #[trigger] x[i] == R::ring_zero(),
    ensures
        dot(x, y) == R::ring_zero(),
{
    let p = products(x, y);
    assert forall|i: int| 0 <= i < p.len() implies #[trigger] p[i] == R::ring_zero() by {
        R::law_times_zero(y[i]);
    }
    crate::sumcheck::vectors::lemma_total_zeros(p);
}

/// At a vertex of the hypercube the equality polynomial of the vertex is one, and zero at every
/// other.
proof fn lemma_eq_table_at_vertex<R: Ring>(point: Seq<R>, x: int, y: int)
    requires
        0 <= x < pow2(point.len()),
        0 <= y < pow2(point.len()),
        forall|i: int|
            0 <= i < point.len() ==> #[trigger] point[i] == (if x / pow2(
                (point.len() - 1 - i) as nat,
            ) as int % 2 == 1 {
                R::ring_one()
            } else {
                R::ring_zero()
            }),
    ensures
        eq_table(point)[y] == (if x == y {
            R::ring_one()
        } else {
            R::ring_zero()
        }),
    decreases point.len(),
{
    lemma_pow2_base();
    if point.len() > 0 {
        let n = point.len();
        let half = pow2((n - 1) as nat) as int;
        let rest = point.drop_first();
        lemma_pow2_step((n - 1) as nat);
        lemma_eq_table_len(rest);
        let top = x >= half;
        let x1 = if top {
            x - half
        } else {
            x
        };
        let y1 = if y >= half {
            y - half
        } else {
            y
        };
        assert(x / half == (if top {
            1int
        } else {
            0int
        })) by {
            if top {
                vstd::arithmetic::div_mod::lemma_fundamental_div_mod_converse(x, half, 1, x1);
            } else {
                vstd::arithmetic::div_mod::lemma_fundamental_div_mod_converse(x, half, 0, x1);
            }
        }
        assert(point[0] == (if top {
            R::ring_one()
        } else {
            R::ring_zero()
        }));
        assert forall|i: int| 0 <= i < rest.len() implies #[trigger] rest[i] == (if x1 / pow2(
            (rest.len() - 1 - i) as nat,
        ) as int % 2 == 1 {
            R::ring_one()
        } else {
            R::ring_zero()
        }) by {
            assert(rest[i] == point[i + 1]);
            let k = (n - 2 - i) as nat;
            assert((n - 1 - (i + 1)) as nat == k && (rest.len() - 1 - i) as nat == k);
            lemma_lower_bit(x, n, k);
        }
        lemma_eq_table_at_vertex(rest, x1, y1);
        let e = eq_table(rest)[y1];
        let one = R::ring_one();
        let zero = R::ring_zero();
        R::law_closed(one, one, 0);
        // one - one and one - zero.
        R::law_of(1, 1);
        R::law_of(1, 0);
        assert(e == one || e == zero);
        R::law_times_zero(e);
        R::law_times_commutes(zero, e);
        R::law_times_one(e);
        R::law_times_commutes(one, e);
    }
}

/// The bits below the highest are those of the rest.
proof fn lemma_lower_bit(x: int, n: nat, k: nat)
    requires
        0 <= x < pow2(n),
        k + 1 < n,
    ensures
        ({
            let half = pow2((n - 1) as nat) as int;
            x >= half ==> x / pow2(k) as int % 2 == (x - half) / pow2(k) as int % 2
        }),
{
    let half = pow2((n - 1) as nat) as int;
    let p = pow2(k) as int;
    let m = (n - 2 - k) as nat;
    vstd::arithmetic::power2::lemma_pow2_adds(k, (n - 1 - k) as nat);
    lemma_pow2_step(m);
    vstd::arithmetic::power2::lemma_pow2_pos(k);
    let q = pow2(m) as int;
    assert(pow2((n - 1 - k) as nat) == 2 * q);
    assert(half == p * (2 * q));
    if x >= half {
        let y = x - half;
        vstd::arithmetic::div_mod::lemma_hoist_over_denominator(y, 2 * q, p as nat);
        assert(y / p + 2 * q == (y + 2 * q * p) / p);
        assert(2 * q * p == p * (2 * q)) by (nonlinear_arith);
        vstd::arithmetic::div_mod::lemma_mod_multiples_vanish(q, y / p, 2);
    }
}

/// At a vertex of the hypercube a polynomial has the value listed for it. The first coordinate is
/// the highest bit of the vertex.
pub proof fn law_value_at_vertex<R: Ring>(values: Seq<R>, point: Seq<R>, x: int)
    requires
        values.len() == pow2(point.len()),
        0 <= x < values.len(),
        values[x].canonical(),
        forall|i: int|
            0 <= i < point.len() ==> #[trigger] point[i] == (if x / pow2(
                (point.len() - 1 - i) as nat,
            ) as int % 2 == 1 {
                R::ring_one()
            } else {
                R::ring_zero()
            }),
    ensures
        mle_eval(values, point) == values[x],
{
    let e = eq_table(point);
    lemma_eq_table_len(point);
    assert forall|y: int| 0 <= y < e.len() implies #[trigger] e[y] == (if x == y {
        R::ring_one()
    } else {
        R::ring_zero()
    }) by {
        lemma_eq_table_at_vertex(point, x, y);
    }
    let zero = R::ring_zero();
    let others = values.update(x, zero);
    R::law_plus_commutes(zero, values[x]);
    R::law_plus_zero(values[x]);
    assert(others.update(x, others[x].plus(values[x])) =~= values);
    law_dot_in_one(others, e, x, values[x]);
    let p = products(others, e);
    assert forall|y: int| 0 <= y < p.len() implies #[trigger] p[y] == zero by {
        R::law_times_zero(others[y]);
        R::law_times_commutes(zero, others[y]);
        R::law_times_zero(e[y]);
    }
    crate::sumcheck::vectors::lemma_total_zeros(p);
    R::law_times_one(values[x]);
    R::law_times_commutes(R::ring_one(), values[x]);
    lemma_zero_plus(values[x]);
}

/// The equality table is affine in every coordinate of the point.
proof fn lemma_eq_table_affine<R: Ring>(point: Seq<R>, j: int, t: R)
    requires
        0 <= j < point.len(),
    ensures
        eq_table(point.update(j, t)) == vplus(
            vscale(R::ring_one().minus(t), eq_table(point.update(j, R::ring_zero()))),
            vscale(t, eq_table(point.update(j, R::ring_one()))),
        ),
    decreases point.len(),
{
    let one = R::ring_one();
    let zero = R::ring_zero();
    let u = one.minus(t);
    let (pt, p0, p1) = (point.update(j, t), point.update(j, zero), point.update(j, one));
    let rest = eq_table(point.drop_first());
    lemma_eq_table_len(point.drop_first());
    lemma_eq_table_len(pt);
    lemma_eq_table_len(p0);
    lemma_eq_table_len(p1);
    lemma_pow2_step((point.len() - 1) as nat);
    let (et, e0, e1) = (eq_table(pt), eq_table(p0), eq_table(p1));
    if j == 0 {
        assert(pt.drop_first() =~= point.drop_first());
        assert(p0.drop_first() =~= point.drop_first());
        assert(p1.drop_first() =~= point.drop_first());
        assert forall|x: int| 0 <= x < et.len() implies #[trigger] et[x] == u.times(e0[x]).plus(
            t.times(e1[x]),
        ) by {
            let n = rest.len() as int;
            let r = if x < n {
                rest[x]
            } else {
                rest[x - n]
            };
            R::law_closed(one, one, 0);
            R::law_of(1, 0);
            R::law_of(1, 1);
            R::law_times_one(r);
            R::law_times_commutes(one, r);
            R::law_times_zero(r);
            R::law_times_commutes(zero, r);
            R::law_times_zero(t);
            R::law_times_zero(u);
            R::law_closed(u, r, 0);
            R::law_closed(t, r, 0);
            R::law_plus_zero(u.times(r));
            lemma_zero_plus(t.times(r));
        }
        assert(et =~= vplus(vscale(u, e0), vscale(t, e1)));
    } else {
        let q = point.drop_first();
        assert(pt.drop_first() =~= q.update(j - 1, t));
        assert(p0.drop_first() =~= q.update(j - 1, zero));
        assert(p1.drop_first() =~= q.update(j - 1, one));
        lemma_eq_table_affine(q, j - 1, t);
        lemma_eq_table_len(q.update(j - 1, t));
        lemma_eq_table_len(q.update(j - 1, zero));
        lemma_eq_table_len(q.update(j - 1, one));
        let (rt, r0, r1) = (
            eq_table(q.update(j - 1, t)),
            eq_table(q.update(j - 1, zero)),
            eq_table(q.update(j - 1, one)),
        );
        let f = point.first();
        let n = rt.len() as int;
        assert forall|x: int| 0 <= x < et.len() implies #[trigger] et[x] == u.times(e0[x]).plus(
            t.times(e1[x]),
        ) by {
            let (s, y) = if x < n {
                (one.minus(f), x)
            } else {
                (f, x - n)
            };
            assert(rt[y] == u.times(r0[y]).plus(t.times(r1[y])));
            assert(et[x] == s.times(rt[y]));
            assert(e0[x] == s.times(r0[y]));
            assert(e1[x] == s.times(r1[y]));
            lemma_scaled_affine(s, u, t, r0[y], r1[y]);
        }
        assert(et =~= vplus(vscale(u, e0), vscale(t, e1)));
    }
}

proof fn lemma_scaled_affine<R: Ring>(s: R, u: R, t: R, a: R, b: R)
    ensures
        s.times(u.times(a).plus(t.times(b))) == u.times(s.times(a)).plus(t.times(s.times(b))),
{
    R::law_distributes(s, u.times(a), t.times(b));
    R::law_times_associates(s, u, a);
    R::law_times_commutes(s, u);
    R::law_times_associates(u, s, a);
    R::law_times_associates(s, t, b);
    R::law_times_commutes(s, t);
    R::law_times_associates(t, s, b);
}

/// A polynomial is affine in every variable. With its values at the vertices this fixes its value
/// at every point.
pub proof fn law_value_is_affine<R: Ring>(values: Seq<R>, point: Seq<R>, j: int, t: R)
    requires
        values.len() == pow2(point.len()),
        0 <= j < point.len(),
    ensures
        mle_eval(values, point.update(j, t)) == R::ring_one().minus(t).times(
            mle_eval(values, point.update(j, R::ring_zero())),
        ).plus(t.times(mle_eval(values, point.update(j, R::ring_one())))),
{
    let u = R::ring_one().minus(t);
    let e0 = eq_table(point.update(j, R::ring_zero()));
    let e1 = eq_table(point.update(j, R::ring_one()));
    lemma_eq_table_len(point.update(j, R::ring_zero()));
    lemma_eq_table_len(point.update(j, R::ring_one()));
    lemma_eq_table_affine(point, j, t);
    lemma_dot_plus_right(values, vscale(u, e0), vscale(t, e1));
    lemma_dot_scale_right(u, values, e0);
    lemma_dot_scale_right(t, values, e1);
}

} // verus!
