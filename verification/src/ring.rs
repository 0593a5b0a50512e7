//! Consequences of the ring laws, and sums over sequences.

use crate::field::Ring;
use vstd::prelude::*;

verus! {

pub proof fn lemma_minus_self<R: Ring>(a: R)
    ensures
        a.minus(a) == R::ring_zero(),
{
    R::law_minus(a, a);
    R::law_plus_negate(a);
}

pub proof fn lemma_zero_times<R: Ring>(a: R)
    ensures
        R::ring_zero().times(a) == R::ring_zero(),
        a.times(R::ring_zero()) == R::ring_zero(),
{
    R::law_times_commutes(R::ring_zero(), a);
    R::law_times_zero(a);
}

pub proof fn lemma_zero_plus<R: Ring>(a: R)
    requires
        a.canonical(),
    ensures
        R::ring_zero().plus(a) == a,
        a.plus(R::ring_zero()) == a,
{
    R::law_plus_commutes(R::ring_zero(), a);
    R::law_plus_zero(a);
}

/// What is added to a value to give zero is its negation.
pub proof fn lemma_negate_unique<R: Ring>(a: R, b: R)
    requires
        a.plus(b) == R::ring_zero(),
        b.canonical(),
    ensures
        b == a.negate(),
{
    R::law_closed(a, b, 0);
    // b = 0 + b = (-a + a) + b = -a + (a + b) = -a + 0
    lemma_zero_plus(b);
    R::law_plus_negate(a);
    R::law_plus_commutes(a, a.negate());
    R::law_plus_associates(a.negate(), a, b);
    lemma_zero_plus(a.negate());
}

pub proof fn lemma_times_negate<R: Ring>(a: R, b: R)
    ensures
        a.times(b.negate()) == a.times(b).negate(),
{
    R::law_closed(a, b.negate(), 0);
    R::law_distributes(a, b, b.negate());
    R::law_plus_negate(b);
    R::law_times_zero(a);
    lemma_negate_unique(a.times(b), a.times(b.negate()));
}

pub proof fn lemma_times_minus<R: Ring>(a: R, b: R, c: R)
    ensures
        a.times(b.minus(c)) == a.times(b).minus(a.times(c)),
        b.minus(c).times(a) == b.times(a).minus(c.times(a)),
{
    R::law_minus(b, c);
    R::law_distributes(a, b, c.negate());
    lemma_times_negate(a, c);
    R::law_minus(a.times(b), a.times(c));
    R::law_times_commutes(b.minus(c), a);
    R::law_times_commutes(b, a);
    R::law_times_commutes(c, a);
}

pub proof fn lemma_plus_times<R: Ring>(a: R, b: R, c: R)
    ensures
        a.plus(b).times(c) == a.times(c).plus(b.times(c)),
{
    R::law_times_commutes(a.plus(b), c);
    R::law_distributes(c, a, b);
    R::law_times_commutes(a, c);
    R::law_times_commutes(b, c);
}

/// The inner two of four terms change places.
pub proof fn lemma_swap_inner<R: Ring>(a: R, b: R, c: R, d: R)
    ensures
        a.plus(b).plus(c.plus(d)) == a.plus(c).plus(b.plus(d)),
{
    R::law_plus_associates(a, b, c.plus(d));
    R::law_plus_associates(b, c, d);
    R::law_plus_commutes(b, c);
    R::law_plus_associates(c, b, d);
    R::law_plus_associates(a, c, b.plus(d));
}

/// Subtracting and adding back gives the value.
pub proof fn lemma_minus_plus<R: Ring>(a: R, b: R)
    requires
        a.canonical(),
    ensures
        a.minus(b).plus(b) == a,
        b.plus(a.minus(b)) == a,
        a.plus(b).minus(b) == a,
{
    R::law_minus(a, b);
    R::law_plus_associates(a, b.negate(), b);
    R::law_plus_commutes(b.negate(), b);
    R::law_plus_negate(b);
    R::law_plus_zero(a);
    R::law_plus_commutes(b, a.minus(b));
    R::law_minus(a.plus(b), b);
    R::law_plus_associates(a, b, b.negate());
}

pub proof fn lemma_negate_plus<R: Ring>(a: R, b: R)
    ensures
        a.plus(b).negate() == a.negate().plus(b.negate()),
{
    R::law_closed(a.negate(), b.negate(), 0);
    lemma_swap_inner(a, b, a.negate(), b.negate());
    R::law_plus_negate(a);
    R::law_plus_negate(b);
    R::law_closed(a, b, 0);
    R::law_plus_zero(R::ring_zero());
    lemma_negate_unique(a.plus(b), a.negate().plus(b.negate()));
}

/// A difference of sums is the sum of the differences.
pub proof fn lemma_minus_of_sums<R: Ring>(a: R, b: R, c: R, d: R)
    ensures
        a.plus(b).minus(c.plus(d)) == a.minus(c).plus(b.minus(d)),
{
    R::law_minus(a.plus(b), c.plus(d));
    lemma_negate_plus(c, d);
    lemma_swap_inner(a, b, c.negate(), d.negate());
    R::law_minus(a, c);
    R::law_minus(b, d);
}

/// `a - b - c = a - (b + c)`.
pub proof fn lemma_minus_minus<R: Ring>(a: R, b: R, c: R)
    ensures
        a.minus(b).minus(c) == a.minus(b.plus(c)),
{
    R::law_minus(a, b);
    R::law_minus(a.minus(b), c);
    R::law_plus_associates(a, b.negate(), c.negate());
    lemma_negate_plus(b, c);
    R::law_minus(a, b.plus(c));
}

} // verus!
