//! The KoalaBear prime field and the ring interface the algorithms are written against.

use vstd::arithmetic::div_mod::{
    lemma_add_mod_noop, lemma_mod_twice, lemma_mul_mod_noop, lemma_small_mod, lemma_sub_mod_noop,
};
use vstd::prelude::*;

verus! {

/// The order of the field, `2^31 - 2^24 + 1`.
pub const ORDER_U32: u32 = 2_130_706_433;

/// A commutative ring with one, together with the laws its operations obey.
///
/// `canonical` singles out the values that are the unique representative of their ring
/// element. Every operation returns such a value, and the two identity laws are stated of
/// such values only.
pub trait Ring: Copy {
    spec fn canonical(self) -> bool;

    spec fn ring_zero() -> Self;

    spec fn ring_one() -> Self;

    /// The image of an integer.
    spec fn of(n: int) -> Self;

    spec fn plus(self, rhs: Self) -> Self;

    spec fn negate(self) -> Self;

    spec fn times(self, rhs: Self) -> Self;

    spec fn minus(self, rhs: Self) -> Self;

    fn zero() -> (r: Self)
        ensures
            r == Self::ring_zero(),
    ;

    fn one() -> (r: Self)
        ensures
            r == Self::ring_one(),
    ;

    fn from_u64(n: u64) -> (r: Self)
        ensures
            r == Self::of(n as int),
    ;

    fn from_u32(n: u32) -> (r: Self)
        ensures
            r == Self::of(n as int),
    {
        Self::from_u64(n as u64)
    }

    fn from_usize(n: usize) -> (r: Self)
        ensures
            r == Self::of(n as int),
    {
        Self::from_u64(n as u64)
    }

    fn from_bool(b: bool) -> (r: Self)
        ensures
            r == Self::of(if b { 1 } else { 0 }),
    {
        Self::from_u64(if b { 1 } else { 0 })
    }

    fn add(self, rhs: Self) -> (r: Self)
        ensures
            r == self.plus(rhs),
    ;

    fn sub(self, rhs: Self) -> (r: Self)
        ensures
            r == self.minus(rhs),
    ;

    fn mul(self, rhs: Self) -> (r: Self)
        ensures
            r == self.times(rhs),
    ;

    fn neg(self) -> (r: Self)
        ensures
            r == self.negate(),
    ;

    fn double(self) -> (r: Self)
        ensures
            r == self.plus(self),
    {
        self.add(self)
    }

    fn square(self) -> (r: Self)
        ensures
            r == self.times(self),
    {
        self.mul(self)
    }

    fn equals(self, rhs: Self) -> (r: bool)
        ensures
            r == (self == rhs),
    ;

    proof fn law_closed(a: Self, b: Self, n: int)
        ensures
            Self::ring_zero().canonical(),
            Self::ring_one().canonical(),
            Self::of(n).canonical(),
            a.plus(b).canonical(),
            a.negate().canonical(),
            a.times(b).canonical(),
            a.minus(b).canonical(),
    ;

    proof fn law_of(m: int, n: int)
        ensures
            Self::of(0) == Self::ring_zero(),
            Self::of(1) == Self::ring_one(),
            Self::of(m).plus(Self::of(n)) == Self::of(m + n),
            Self::of(m).minus(Self::of(n)) == Self::of(m - n),
            Self::of(m).times(Self::of(n)) == Self::of(m * n),
    ;

    proof fn law_plus_commutes(a: Self, b: Self)
        ensures
            a.plus(b) == b.plus(a),
    ;

    proof fn law_plus_associates(a: Self, b: Self, c: Self)
        ensures
            a.plus(b).plus(c) == a.plus(b.plus(c)),
    ;

    proof fn law_plus_zero(a: Self)
        requires
            a.canonical(),
        ensures
            a.plus(Self::ring_zero()) == a,
    ;

    proof fn law_plus_negate(a: Self)
        ensures
            a.plus(a.negate()) == Self::ring_zero(),
    ;

    proof fn law_minus(a: Self, b: Self)
        ensures
            a.minus(b) == a.plus(b.negate()),
    ;

    proof fn law_times_commutes(a: Self, b: Self)
        ensures
            a.times(b) == b.times(a),
    ;

    proof fn law_times_associates(a: Self, b: Self, c: Self)
        ensures
            a.times(b).times(c) == a.times(b.times(c)),
    ;

    proof fn law_times_one(a: Self)
        requires
            a.canonical(),
        ensures
            a.times(Self::ring_one()) == a,
    ;

    proof fn law_times_zero(a: Self)
        ensures
            a.times(Self::ring_zero()) == Self::ring_zero(),
    ;

    proof fn law_distributes(a: Self, b: Self, c: Self)
        ensures
            a.times(b.plus(c)) == a.times(b).plus(a.times(c)),
    ;
}

/// A ring that contains an image of the ring `F`.
pub trait Algebra<F: Ring>: Ring {
    /// The image of `f`.
    spec fn lift(f: F) -> Self;

    fn from_base(f: F) -> (r: Self)
        ensures
            r == Self::lift(f),
    ;

    fn mul_base(self, f: F) -> (r: Self)
        ensures
            r == self.times(Self::lift(f)),
    {
        self.mul(Self::from_base(f))
    }

    proof fn law_lift(a: F, b: F)
        ensures
            Self::lift(a).canonical(),
            Self::lift(F::ring_zero()) == Self::ring_zero(),
            Self::lift(F::ring_one()) == Self::ring_one(),
            Self::lift(a.plus(b)) == Self::lift(a).plus(Self::lift(b)),
            Self::lift(a.minus(b)) == Self::lift(a).minus(Self::lift(b)),
            Self::lift(a.times(b)) == Self::lift(a).times(Self::lift(b)),
    ;
}

/// An element of the prime field of order [`ORDER_U32`], held as its canonical residue.
#[derive(Clone, Copy, PartialEq, Eq, Structural, Debug)]
pub struct KoalaBear {
    pub value: u32,
}

/// The residue of `n` modulo the field order.
pub open spec fn residue(n: int) -> int {
    n % (ORDER_U32 as int)
}

/// The field element of residue `n`.
pub open spec fn kb(n: int) -> KoalaBear {
    KoalaBear { value: residue(n) as u32 }
}

/// The residue of `value * 2^32`: the Montgomery form of a field element.
pub open spec fn monty(x: KoalaBear) -> u32 {
    residue(x.value * 0x1_0000_0000) as u32
}

impl KoalaBear {
    pub const ORDER_U32: u32 = 2_130_706_433;

    /// The element of residue `value`.
    pub fn new(value: u32) -> (r: Self)
        ensures
            r == kb(value as int),
    {
        KoalaBear { value: value % 2_130_706_433 }
    }

    pub fn from_u16(value: u16) -> (r: Self)
        ensures
            r == kb(value as int),
    {
        KoalaBear { value: value as u32 }
    }

    pub fn as_canonical_u32(&self) -> (r: u32)
        ensures
            r == self.value,
    {
        self.value
    }

    /// The Montgomery form, which tells two elements apart as the residue does.
    pub fn to_unique_u32(&self) -> (r: u32)
        ensures
            r == monty(*self),
    {
        ((self.value as u64 * 0x1_0000_0000u64) % 2_130_706_433u64) as u32
    }

    pub fn neg_one() -> (r: Self)
        ensures
            r == kb(-1),
    {
        KoalaBear { value: 2_130_706_432 }
    }
}

impl Ring for KoalaBear {
    open spec fn canonical(self) -> bool {
        self.value < ORDER_U32
    }

    open spec fn ring_zero() -> Self {
        KoalaBear { value: 0 }
    }

    open spec fn ring_one() -> Self {
        KoalaBear { value: 1 }
    }

    open spec fn of(n: int) -> Self {
        kb(n)
    }

    open spec fn plus(self, rhs: Self) -> Self {
        kb(self.value + rhs.value)
    }

    open spec fn negate(self) -> Self {
        kb(-(self.value as int))
    }

    open spec fn times(self, rhs: Self) -> Self {
        kb(self.value * rhs.value)
    }

    open spec fn minus(self, rhs: Self) -> Self {
        kb(self.value - rhs.value)
    }

    fn zero() -> (r: Self) {
        KoalaBear { value: 0 }
    }

    fn one() -> (r: Self) {
        KoalaBear { value: 1 }
    }

    fn from_u64(n: u64) -> (r: Self) {
        KoalaBear { value: (n % 2_130_706_433u64) as u32 }
    }

    fn add(self, rhs: Self) -> (r: Self) {
        KoalaBear { value: ((self.value as u64 + rhs.value as u64) % 2_130_706_433u64) as u32 }
    }

    fn sub(self, rhs: Self) -> (r: Self) {
        proof {
            let d = self.value - rhs.value;
            vstd::arithmetic::div_mod::lemma_mod_multiples_vanish(3, d, ORDER_U32 as int);
        }
        KoalaBear {
            value: ((self.value as u64 + 6_392_119_299u64 - rhs.value as u64) % 2_130_706_433u64) as u32,
        }
    }

    fn mul(self, rhs: Self) -> (r: Self) {
        assert(self.value * rhs.value <= 0xffff_ffff * 0xffff_ffff) by (nonlinear_arith)
            requires
                self.value <= 0xffff_ffff,
                rhs.value <= 0xffff_ffff,
        ;
        KoalaBear { value: ((self.value as u64 * rhs.value as u64) % 2_130_706_433u64) as u32 }
    }

    fn neg(self) -> (r: Self) {
        proof {
            let d = -(self.value as int);
            vstd::arithmetic::div_mod::lemma_mod_multiples_vanish(3, d, ORDER_U32 as int);
        }
        KoalaBear { value: ((6_392_119_299u64 - self.value as u64) % 2_130_706_433u64) as u32 }
    }

    fn equals(self, rhs: Self) -> (r: bool) {
        self == rhs
    }

    proof fn law_closed(a: Self, b: Self, n: int) {
    }

    proof fn law_of(m: int, n: int) {
        lemma_add_mod_noop(m, n, ORDER_U32 as int);
        lemma_sub_mod_noop(m, n, ORDER_U32 as int);
        lemma_mul_mod_noop(m, n, ORDER_U32 as int);
    }

    proof fn law_plus_commutes(a: Self, b: Self) {
    }

    proof fn law_plus_associates(a: Self, b: Self, c: Self) {
        let p = ORDER_U32 as int;
        let (x, y, z) = (a.value as int, b.value as int, c.value as int);
        lemma_add_mod_noop(x + y, z, p);
        lemma_add_mod_noop((x + y) % p, z, p);
        lemma_add_mod_noop(x, y + z, p);
        lemma_add_mod_noop(x, (y + z) % p, p);
        lemma_mod_twice(x + y, p);
        lemma_mod_twice(y + z, p);
    }

    proof fn law_plus_zero(a: Self) {
        lemma_small_mod(a.value as nat, ORDER_U32 as nat);
    }

    proof fn law_plus_negate(a: Self) {
        let p = ORDER_U32 as int;
        let x = a.value as int;
        lemma_add_mod_noop(x, -x, p);
        lemma_add_mod_noop(x, (-x) % p, p);
        lemma_mod_twice(-x, p);
    }

    proof fn law_minus(a: Self, b: Self) {
        let p = ORDER_U32 as int;
        let (x, y) = (a.value as int, b.value as int);
        lemma_add_mod_noop(x, -y, p);
        lemma_add_mod_noop(x, (-y) % p, p);
        lemma_mod_twice(-y, p);
    }

    proof fn law_times_commutes(a: Self, b: Self) {
        assert(a.value * b.value == b.value * a.value) by (nonlinear_arith);
    }

    proof fn law_times_associates(a: Self, b: Self, c: Self) {
        let p = ORDER_U32 as int;
        let (x, y, z) = (a.value as int, b.value as int, c.value as int);
        lemma_mul_mod_noop(x * y, z, p);
        lemma_mul_mod_noop((x * y) % p, z, p);
        lemma_mul_mod_noop(x, y * z, p);
        lemma_mul_mod_noop(x, (y * z) % p, p);
        lemma_mod_twice(x * y, p);
        lemma_mod_twice(y * z, p);
        assert((x * y) * z == x * (y * z)) by (nonlinear_arith);
    }

    proof fn law_times_one(a: Self) {
        lemma_small_mod(a.value as nat, ORDER_U32 as nat);
    }

    proof fn law_times_zero(a: Self) {
    }

    proof fn law_distributes(a: Self, b: Self, c: Self) {
        let p = ORDER_U32 as int;
        let (x, y, z) = (a.value as int, b.value as int, c.value as int);
        lemma_mul_mod_noop(x, y + z, p);
        lemma_mul_mod_noop(x, (y + z) % p, p);
        lemma_mod_twice(y + z, p);
        lemma_add_mod_noop(x * y, x * z, p);
        assert(x * (y + z) == x * y + x * z) by (nonlinear_arith);
    }
}

impl Algebra<KoalaBear> for KoalaBear {
    /// The field is an algebra over itself through the identity on residues.
    open spec fn lift(f: KoalaBear) -> Self {
        kb(f.value as int)
    }

    fn from_base(f: KoalaBear) -> (r: Self) {
        KoalaBear::new(f.value)
    }

    proof fn law_lift(a: KoalaBear, b: KoalaBear) {
        KoalaBear::law_of(a.value as int, b.value as int);
        let p = ORDER_U32 as int;
        lemma_mod_twice(a.value + b.value, p);
        lemma_mod_twice(a.value - b.value, p);
        lemma_mod_twice(a.value * b.value, p);
    }
}

} // verus!
