//! Vectors of ring elements and their inner products.

use crate::field::{Algebra, Ring};
use crate::ring::{
    lemma_minus_plus, lemma_plus_times, lemma_swap_inner, lemma_zero_plus, lemma_zero_times,
};
use vstd::prelude::*;

verus! {

/// The sum of a sequence.
pub open spec fn total<R: Ring>(s: Seq<R>) -> R
    decreases s.len(),
{
    if s.len() == 0 {
        R::ring_zero()
    } else {
        total(s.drop_last()).plus(s.last())
    }
}

pub open spec fn vplus<R: Ring>(a: Seq<R>, b: Seq<R>) -> Seq<R> {
    Seq::new(a.len(), |i: int| a[i].plus(b[i]))
}

pub open spec fn vminus<R: Ring>(a: Seq<R>, b: Seq<R>) -> Seq<R> {
    Seq::new(a.len(), |i: int| a[i].minus(b[i]))
}

pub open spec fn vscale<R: Ring>(c: R, a: Seq<R>) -> Seq<R> {
    Seq::new(a.len(), |i: int| c.times(a[i]))
}

/// The products of corresponding elements, the second factor first.
pub open spec fn products<R: Ring>(x: Seq<R>, y: Seq<R>) -> Seq<R> {
    Seq::new(x.len(), |i: int| y[i].times(x[i]))
}

/// The inner product.
pub open spec fn dot<R: Ring>(x: Seq<R>, y: Seq<R>) -> R {
    total(products(x, y))
}

/// All elements are proper representatives.
pub open spec fn all_canonical<R: Ring>(s: Seq<R>) -> bool {
    forall|i: int| 0 <= i < s.len() ==> (#[trigger] s[i]).canonical()
}

/// The images of a sequence in an algebra.
pub open spec fn lifted<F: Ring, EF: Algebra<F>>(s: Seq<F>) -> Seq<EF> {
    Seq::new(s.len(), |i: int| EF::lift(s[i]))
}

pub proof fn lemma_total_canonical<R: Ring>(s: Seq<R>)
    ensures
        total(s).canonical(),
{
    R::law_closed(R::ring_zero(), R::ring_zero(), 0);
    if s.len() > 0 {
        R::law_closed(total(s.drop_last()), s.last(), 0);
    }
}

pub proof fn lemma_dot_canonical<R: Ring>(x: Seq<R>, y: Seq<R>)
    ensures
        dot(x, y).canonical(),
{
    lemma_total_canonical(products(x, y));
}

pub proof fn lemma_total_append<R: Ring>(s: Seq<R>, t: Seq<R>)
    ensures
        total(s + t) == total(s).plus(total(t)),
    decreases t.len(),
{
    if t.len() == 0 {
        assert(s + t =~= s);
        lemma_total_canonical(s);
        R::law_plus_zero(total(s));
    } else {
        assert((s + t).drop_last() =~= s + t.drop_last());
        lemma_total_append(s, t.drop_last());
        R::law_plus_associates(total(s), total(t.drop_last()), t.last());
    }
}

pub proof fn lemma_total_plus<R: Ring>(a: Seq<R>, b: Seq<R>)
    requires
        a.len() == b.len(),
    ensures
        total(vplus(a, b)) == total(a).plus(total(b)),
    decreases a.len(),
{
    if a.len() == 0 {
        R::law_closed(R::ring_zero(), R::ring_zero(), 0);
        R::law_plus_zero(R::ring_zero());
    } else {
        assert(vplus(a, b).drop_last() =~= vplus(a.drop_last(), b.drop_last()));
        lemma_total_plus(a.drop_last(), b.drop_last());
        lemma_swap_inner(total(a.drop_last()), total(b.drop_last()), a.last(), b.last());
    }
}

pub proof fn lemma_total_scale<R: Ring>(c: R, a: Seq<R>)
    ensures
        total(vscale(c, a)) == c.times(total(a)),
    decreases a.len(),
{
    if a.len() == 0 {
        R::law_times_zero(c);
    } else {
        assert(vscale(c, a).drop_last() =~= vscale(c, a.drop_last()));
        lemma_total_scale(c, a.drop_last());
        R::law_distributes(c, total(a.drop_last()), a.last());
    }
}

pub proof fn lemma_total_zeros<R: Ring>(s: Seq<R>)
    requires
        forall|i: int| 0 <= i < s.len() ==> #[trigger] s[i] == R::ring_zero(),
    ensures
        total(s) == R::ring_zero(),
    decreases s.len(),
{
    if s.len() > 0 {
        lemma_total_zeros(s.drop_last());
        R::law_closed(R::ring_zero(), R::ring_zero(), 0);
        R::law_plus_zero(R::ring_zero());
    }
}

/// The inner product is additive in its first argument.
pub proof fn lemma_dot_plus_left<R: Ring>(a: Seq<R>, b: Seq<R>, y: Seq<R>)
    requires
        a.len() == b.len(),
    ensures
        dot(vplus(a, b), y) == dot(a, y).plus(dot(b, y)),
{
    assert(products(vplus(a, b), y) =~= vplus(products(a, y), products(b, y))) by {
        assert forall|i: int| 0 <= i < a.len() implies products(vplus(a, b), y)[i] == vplus(
            products(a, y),
            products(b, y),
        )[i] by {
            R::law_distributes(y[i], a[i], b[i]);
        }
    }
    lemma_total_plus(products(a, y), products(b, y));
}

/// The inner product is additive in its second argument.
pub proof fn lemma_dot_plus_right<R: Ring>(x: Seq<R>, a: Seq<R>, b: Seq<R>)
    requires
        x.len() == a.len(),
        a.len() == b.len(),
    ensures
        dot(x, vplus(a, b)) == dot(x, a).plus(dot(x, b)),
{
    assert(products(x, vplus(a, b)) =~= vplus(products(x, a), products(x, b))) by {
        assert forall|i: int| 0 <= i < a.len() implies products(x, vplus(a, b))[i] == vplus(
            products(x, a),
            products(x, b),
        )[i] by {
            lemma_plus_times(a[i], b[i], x[i]);
        }
    }
    lemma_total_plus(products(x, a), products(x, b));
}

pub proof fn lemma_dot_scale_left<R: Ring>(c: R, a: Seq<R>, y: Seq<R>)
    ensures
        dot(vscale(c, a), y) == c.times(dot(a, y)),
{
    assert(products(vscale(c, a), y) =~= vscale(c, products(a, y))) by {
        assert forall|i: int| 0 <= i < a.len() implies products(vscale(c, a), y)[i] == vscale(
            c,
            products(a, y),
        )[i] by {
            R::law_times_associates(y[i], c, a[i]);
            R::law_times_commutes(y[i], c);
            R::law_times_associates(c, y[i], a[i]);
        }
    }
    lemma_total_scale(c, products(a, y));
}

pub proof fn lemma_dot_scale_right<R: Ring>(c: R, x: Seq<R>, a: Seq<R>)
    requires
        x.len() == a.len(),
    ensures
        dot(x, vscale(c, a)) == c.times(dot(x, a)),
{
    assert(products(x, vscale(c, a)) =~= vscale(c, products(x, a))) by {
        assert forall|i: int| 0 <= i < a.len() implies products(x, vscale(c, a))[i] == vscale(
            c,
            products(x, a),
        )[i] by {
            R::law_times_associates(c, a[i], x[i]);
        }
    }
    lemma_total_scale(c, products(x, a));
}

pub proof fn lemma_dot_append<R: Ring>(x: Seq<R>, y: Seq<R>, x2: Seq<R>, y2: Seq<R>)
    requires
        x.len() == y.len(),
        x2.len() == y2.len(),
    ensures
        dot(x + x2, y + y2) == dot(x, y).plus(dot(x2, y2)),
{
    assert(products(x + x2, y + y2) =~= products(x, y) + products(x2, y2));
    lemma_total_append(products(x, y), products(x2, y2));
}

/// A vector is what it was before a change, plus the change.
pub proof fn lemma_vplus_diff<R: Ring>(a: Seq<R>, b: Seq<R>)
    requires
        a.len() == b.len(),
        all_canonical(b),
    ensures
        vplus(a, vminus(b, a)) == b,
{
    assert(vplus(a, vminus(b, a)) =~= b) by {
        assert forall|i: int| 0 <= i < a.len() implies vplus(a, vminus(b, a))[i] == b[i] by {
            lemma_minus_plus(b[i], a[i]);
        }
    }
}

/// The sum of a sequence that is zero but in one range is the sum over that range.
pub proof fn lemma_dot_supported<R: Ring>(x: Seq<R>, y: Seq<R>, lo: int, hi: int)
    requires
        x.len() == y.len(),
        0 <= lo <= hi <= x.len(),
        forall|i: int|
            0 <= i < y.len() && !(lo <= i < hi) ==> #[trigger] y[i] == R::ring_zero(),
    ensures
        dot(x, y) == dot(x.subrange(lo, hi), y.subrange(lo, hi)),
{
    let (xa, ya) = (x.take(lo), y.take(lo));
    let (xb, yb) = (x.subrange(lo, hi), y.subrange(lo, hi));
    let (xc, yc) = (x.skip(hi), y.skip(hi));
    assert(x =~= xa + xb + xc && y =~= ya + yb + yc);
    lemma_dot_append(xa + xb, ya + yb, xc, yc);
    lemma_dot_append(xa, ya, xb, yb);
    assert forall|i: int| 0 <= i < xa.len() implies #[trigger] products(xa, ya)[i]
        == R::ring_zero() by {
        assert(ya[i] == y[i]);
        lemma_zero_times(xa[i]);
    }
    lemma_total_zeros(products(xa, ya));
    assert forall|i: int| 0 <= i < xc.len() implies #[trigger] products(xc, yc)[i]
        == R::ring_zero() by {
        assert(yc[i] == y[hi + i]);
        lemma_zero_times(xc[i]);
    }
    lemma_total_zeros(products(xc, yc));
    lemma_dot_canonical(xb, yb);
    lemma_zero_plus(dot(xb, yb));
}

} // verus!
