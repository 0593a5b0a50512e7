//! The lookup table of the exclusive or of two bytes.
//!
//! Entry `256 * a + b` of the table is `a ^ b`. The table is fixed, so its columns need no
//! commitment: the values of their multilinear extensions have closed forms. Points here list
//! their coordinates from the least significant bit of the index on: first the bits of `b`, then
//! those of `a`.

use crate::field::{KoalaBear, Ring};
use crate::math::{lemma_pow2_base, lemma_pow2_step};
use crate::poly::{eq_table, lemma_eq_table_len, mle_eval};
use crate::poly_laws::law_value_at_vertex;
use crate::ring::{lemma_minus_plus, lemma_plus_times, lemma_zero_plus, lemma_zero_times};
use crate::sumcheck::vectors::{
    all_canonical, dot, lemma_dot_canonical, lemma_dot_plus_left, lemma_dot_scale_left, lemma_total_zeros,
    products, total, vplus, vscale,
};
use crate::whir::queries::lemma_halves_value;
use vstd::arithmetic::power2::pow2;
use vstd::prelude::*;

verus! {

/// Bit `k` of `i`.
pub open spec fn bit(i: int, k: int) -> int {
    (i / (pow2(k as nat) as int)) % 2
}

/// The sum over the bits `k < n` of `2^k` times the coordinate `first + k`.
pub open spec fn weighted_bits<R: Ring>(point: Seq<R>, first: int, n: nat) -> R
    decreases n,
{
    if n == 0 {
        R::ring_zero()
    } else {
        weighted_bits(point, first, (n - 1) as nat).plus(
            point[first + n - 1].times(R::of(pow2((n - 1) as nat) as int)),
        )
    }
}

/// The exclusive or of two bits, extended to the ring.
pub open spec fn xor_of<R: Ring>(a: R, b: R) -> R {
    a.plus(b).minus(a.times(b).plus(a.times(b)))
}

/// The sum over the bits `k < n` of `2^k` times the exclusive or of the coordinates `k + 8` and
/// `k`.
pub open spec fn weighted_xors<R: Ring>(point: Seq<R>, n: nat) -> R
    decreases n,
{
    if n == 0 {
        R::ring_zero()
    } else {
        weighted_xors(point, (n - 1) as nat).plus(
            xor_of(point[n as int + 7], point[n - 1]).times(R::of(pow2((n - 1) as nat) as int)),
        )
    }
}

/// A column of the table: its entry at each index.
pub open spec fn column<R: Ring>(entry: spec_fn(int) -> int) -> Seq<R> {
    Seq::new(65536, |i: int| R::of(entry(i)))
}

/// The value of a column's multilinear extension.
pub open spec fn column_mle<R: Ring>(values: Seq<R>, point: Seq<R>) -> R {
    mle_eval(values, point.take(16).reverse())
}

/// The column of the first byte.
pub open spec fn a_column<R: Ring>() -> Seq<R> {
    column(|i: int| i / 256)
}

/// The column of the second byte.
pub open spec fn b_column<R: Ring>() -> Seq<R> {
    column(|i: int| i % 256)
}

/// The column of the exclusive or.
pub open spec fn xor_column<R: Ring>() -> Seq<R> {
    column(|i: int| (((i / 256) as u32) ^ ((i % 256) as u32)) as int)
}

/// The value at `point` of the multilinear extension of the column of the exclusive or.
pub fn xor_result_mle<R: Ring>(point: &[R]) -> (r: R)
    requires
        point@.len() >= 16,
    ensures
        r == weighted_xors(point@, 8),
{
    let mut result = R::zero();
    let mut k: usize = 0;
    let mut weight: u32 = 1;
    proof {
        lemma_pow2_base();
    }
    while k < 8
        invariant
            k <= 8,
            point@.len() >= 16,
            weight == pow2(k as nat),
            weight <= 256,
            k < 8 ==> weight <= 128,
            result == weighted_xors(point@, k as nat),
        decreases 8 - k,
    {
        let r_b = point[k];
        let r_a = point[k + 8];
        let bit_xor = r_a.add(r_b).sub(r_a.mul(r_b).double());
        result = result.add(bit_xor.mul(R::from_u32(weight)));
        proof {
            lemma_weight_step(k as nat);
        }
        weight = weight * 2;
        k += 1;
    }
    result
}

/// The value at `point` of the multilinear extension of the column of the first byte.
pub fn a_byte_mle<R: Ring>(point: &[R]) -> (r: R)
    requires
        point@.len() >= 16,
    ensures
        r == weighted_bits(point@, 8, 8),
{
    byte_mle(point, 8)
}

/// The value at `point` of the multilinear extension of the column of the second byte.
pub fn b_byte_mle<R: Ring>(point: &[R]) -> (r: R)
    requires
        point@.len() >= 16,
    ensures
        r == weighted_bits(point@, 0, 8),
{
    byte_mle(point, 0)
}

fn byte_mle<R: Ring>(point: &[R], first: usize) -> (r: R)
    requires
        first <= 8,
        point@.len() >= 16,
    ensures
        r == weighted_bits(point@, first as int, 8),
{
    let mut result = R::zero();
    let mut k: usize = 0;
    let mut weight: u32 = 1;
    proof {
        lemma_pow2_base();
    }
    while k < 8
        invariant
            k <= 8,
            first <= 8,
            point@.len() >= 16,
            weight == pow2(k as nat),
            weight <= 256,
            k < 8 ==> weight <= 128,
            result == weighted_bits(point@, first as int, k as nat),
        decreases 8 - k,
    {
        result = result.add(point[first + k].mul(R::from_u32(weight)));
        proof {
            lemma_weight_step(k as nat);
        }
        weight = weight * 2;
        k += 1;
    }
    result
}

proof fn lemma_weight_step(k: nat)
    requires
        k < 8,
    ensures
        pow2(k + 1) == 2 * pow2(k),
        pow2(k) <= 128,
        k < 7 ==> pow2(k) <= 64,
{
    vstd::arithmetic::power2::lemma2_to64();
    lemma_pow2_step(k);
    crate::math::lemma_pow2_monotone(k, 7);
    if k < 7 {
        crate::math::lemma_pow2_monotone(k, 6);
    }
}

/// The fingerprint of a row: its entries and the table's separator, each times its challenge.
pub open spec fn fingerprint<R: Ring>(alphas: Seq<R>, a: R, b: R, xor: R, separator: int) -> R {
    alphas[0].times(a).plus(alphas[1].times(b)).plus(alphas[2].times(xor)).plus(
        alphas.last().times(R::of(separator)),
    )
}

/// The value at `point` of the multilinear extension of the rows' fingerprints.
pub fn xor_fingerprint_mle<R: Ring>(point: &[R], alphas: &[R], xor_domainsep: usize) -> (r: R)
    requires
        point@.len() >= 16,
        alphas@.len() >= 3,
    ensures
        r == fingerprint(
            alphas@,
            weighted_bits(point@, 8, 8),
            weighted_bits(point@, 0, 8),
            weighted_xors(point@, 8),
            xor_domainsep as int,
        ),
{
    let a = a_byte_mle(point);
    let b = b_byte_mle(point);
    let xor = xor_result_mle(point);
    let last = alphas[alphas.len() - 1];
    alphas[0].mul(a).add(alphas[1].mul(b)).add(alphas[2].mul(xor)).add(
        last.mul(R::from_usize(xor_domainsep)),
    )
}

/// Whether a pair of cells is a lookup of entry `t`.
pub open spec fn looks_up(a: KoalaBear, b: KoalaBear, t: int) -> bool {
    a.value < 256 && b.value < 256 && a.value * 256 + b.value == t
}

/// How many of the first `m` rows of two columns look up entry `t`.
pub open spec fn lookups_in(a: Seq<KoalaBear>, b: Seq<KoalaBear>, m: nat, t: int) -> int
    decreases m,
{
    if m == 0 {
        0
    } else {
        lookups_in(a, b, (m - 1) as nat, t) + if looks_up(a[m - 1], b[m - 1], t) {
            1int
        } else {
            0
        }
    }
}

/// How many rows of the first `n` pairs of columns look up entry `t`.
pub open spec fn lookups_of(a: Seq<&[KoalaBear]>, b: Seq<&[KoalaBear]>, n: nat, t: int) -> int
    decreases n,
{
    if n == 0 {
        0
    } else {
        lookups_of(a, b, (n - 1) as nat, t) + lookups_in(
            a[n - 1]@,
            b[n - 1]@,
            a[n - 1]@.len(),
            t,
        )
    }
}

/// Counts how often each entry of the table is looked up, as field elements. Cells that are not
/// bytes are no lookups. Where one side has more columns, those without a partner are left out.
pub fn build_xor_accumulator(
    xor_lookup_a_bytes: &[&[KoalaBear]],
    xor_lookup_b_bytes: &[&[KoalaBear]],
    table_size: usize,
) -> (r: Vec<KoalaBear>)
    requires
        forall|i: int|
            0 <= i < xor_lookup_a_bytes@.len() && i < xor_lookup_b_bytes@.len() ==> (
            #[trigger] xor_lookup_a_bytes@[i])@.len() == xor_lookup_b_bytes@[i]@.len(),
        forall|i: int, j: int|
            0 <= i < xor_lookup_a_bytes@.len() && i < xor_lookup_b_bytes@.len() && 0 <= j
                < xor_lookup_a_bytes@[i]@.len() && (#[trigger] xor_lookup_a_bytes@[i]@[j]).value
                < 256 && xor_lookup_b_bytes@[i]@[j].value < 256
                ==> xor_lookup_a_bytes@[i]@[j].value * 256 + xor_lookup_b_bytes@[i]@[j].value
                < table_size,
    ensures
        r@.len() == table_size,
        forall|t: int|
            0 <= t < table_size ==> #[trigger] r@[t] == KoalaBear::of(
                lookups_of(
                    xor_lookup_a_bytes@,
                    xor_lookup_b_bytes@,
                    if xor_lookup_a_bytes@.len() <= xor_lookup_b_bytes@.len() {
                        xor_lookup_a_bytes@.len()
                    } else {
                        xor_lookup_b_bytes@.len()
                    },
                    t,
                ),
            ),
{
    let mut acc: Vec<KoalaBear> = Vec::new();
    let mut t: usize = 0;
    while t < table_size
        invariant
            t <= table_size,
            acc@.len() == t,
            forall|j: int| 0 <= j < t ==> #[trigger] acc@[j] == KoalaBear::of(0),
        decreases table_size - t,
    {
        acc.push(KoalaBear::zero());
        t += 1;
    }
    let n: usize = if xor_lookup_a_bytes.len() <= xor_lookup_b_bytes.len() {
        xor_lookup_a_bytes.len()
    } else {
        xor_lookup_b_bytes.len()
    };
    let ghost (ca, cb) = (xor_lookup_a_bytes@, xor_lookup_b_bytes@);
    let mut i: usize = 0;
    while i < n
        invariant
            i <= n,
            n <= ca.len(),
            n <= cb.len(),
            ca == xor_lookup_a_bytes@,
            cb == xor_lookup_b_bytes@,
            forall|i: int|
                0 <= i < ca.len() && i < cb.len() ==> (#[trigger] ca[i])@.len() == cb[i]@.len(),
            forall|i: int, j: int|
                0 <= i < ca.len() && i < cb.len() && 0 <= j < ca[i]@.len() && (
                #[trigger] ca[i]@[j]).value < 256 && cb[i]@[j].value < 256 ==> ca[i]@[j].value * 256
                    + cb[i]@[j].value < table_size,
            acc@.len() == table_size,
            forall|t: int|
                0 <= t < table_size ==> #[trigger] acc@[t] == KoalaBear::of(
                    lookups_of(ca, cb, i as nat, t),
                ),
        decreases n - i,
    {
        let a_col = xor_lookup_a_bytes[i];
        let b_col = xor_lookup_b_bytes[i];
        let mut j: usize = 0;
        while j < a_col.len()
            invariant
                j <= a_col@.len(),
                i < ca.len(),
                i < cb.len(),
                a_col@ == ca[i as int]@,
                b_col@ == cb[i as int]@,
                a_col@.len() == b_col@.len(),
                forall|i: int, j: int|
                    0 <= i < ca.len() && i < cb.len() && 0 <= j < ca[i]@.len() && (
                    #[trigger] ca[i]@[j]).value < 256 && cb[i]@[j].value < 256
                        ==> ca[i]@[j].value * 256 + cb[i]@[j].value < table_size,
                acc@.len() == table_size,
                forall|t: int|
                    0 <= t < table_size ==> #[trigger] acc@[t] == KoalaBear::of(
                        lookups_of(ca, cb, i as nat, t) + lookups_in(a_col@, b_col@, j as nat, t),
                    ),
            decreases a_col@.len() - j,
        {
            let a: usize = a_col[j].as_canonical_u32() as usize;
            let b: usize = b_col[j].as_canonical_u32() as usize;
            let ghost before = acc@;
            if a < 256 && b < 256 {
                let index: usize = a * 256 + b;
                assert(ca[i as int]@[j as int] == a_col@[j as int]);
                let count = acc[index].add(KoalaBear::one());
                acc.set(index, count);
                proof {
                    KoalaBear::law_of(
                        lookups_of(ca, cb, i as nat, index as int) + lookups_in(
                            a_col@,
                            b_col@,
                            j as nat,
                            index as int,
                        ),
                        1,
                    );
                }
            }
            proof {
                assert forall|t: int| 0 <= t < table_size implies #[trigger] acc@[t]
                    == KoalaBear::of(
                    lookups_of(ca, cb, i as nat, t) + lookups_in(a_col@, b_col@, (j + 1) as nat, t),
                ) by {
                    assert(before[t] == KoalaBear::of(
                        lookups_of(ca, cb, i as nat, t) + lookups_in(a_col@, b_col@, j as nat, t),
                    ));
                }
            }
            j += 1;
        }
        i += 1;
    }
    acc
}

/// At the point of two bytes, whose coordinates are their bits, those of the second byte first and
/// from the lowest up, the columns have the values of the bytes and of their exclusive or.
pub proof fn law_columns_at_bytes<R: Ring>(point: Seq<R>, a: u32, b: u32)
    requires
        point.len() >= 16,
        all_canonical(point),
        a < 256,
        b < 256,
        forall|k: int|
            0 <= k < 8 ==> #[trigger] point[k] == R::of((b as int / pow2(k as nat) as int) % 2),
        forall|k: int|
            8 <= k < 16 ==> #[trigger] point[k] == R::of(
                (a as int / pow2((k - 8) as nat) as int) % 2,
            ),
    ensures
        weighted_bits(point, 8, 8) == R::of(a as int),
        weighted_bits(point, 0, 8) == R::of(b as int),
        weighted_xors(point, 8) == R::of((a ^ b) as int),
{
    let x = 256 * a + b;
    let vertex = point.take(16).reverse();
    vstd::arithmetic::power2::lemma2_to64();
    R::law_of(0, 0);
    assert forall|i: int| 0 <= i < 16 implies #[trigger] vertex[i] == (if x / pow2(
        (16 - 1 - i) as nat,
    ) as int % 2 == 1 {
        R::ring_one()
    } else {
        R::ring_zero()
    }) by {
        let k = 15 - i;
        assert(vertex[i] == point[k]);
        if k < 8 {
            lemma_low_bit(a as int, b as int, k as nat);
        } else {
            lemma_high_bit(a as int, b as int, (k - 8) as nat);
        }
    }
    law_columns_extend(point);
    R::law_closed(R::ring_zero(), R::ring_zero(), a as int);
    R::law_closed(R::ring_zero(), R::ring_zero(), b as int);
    R::law_closed(R::ring_zero(), R::ring_zero(), (a ^ b) as int);
    assert(x / 256 == a && x % 256 == b);
    law_value_at_vertex(a_column::<R>(), vertex, x);
    law_value_at_vertex(b_column::<R>(), vertex, x);
    law_value_at_vertex(xor_column::<R>(), vertex, x);
}

/// The low bits of two bytes in one index are those of the second.
proof fn lemma_low_bit(a: int, b: int, k: nat)
    requires
        k < 8,
        0 <= b,
    ensures
        ((256 * a + b) / pow2(k) as int) % 2 == (b / pow2(k) as int) % 2,
{
    let p = pow2(k) as int;
    let e = (7 - k) as nat;
    vstd::arithmetic::power2::lemma2_to64();
    vstd::arithmetic::power2::lemma_pow2_pos(k);
    vstd::arithmetic::power2::lemma_pow2_adds(k, (8 - k) as nat);
    lemma_pow2_step(e);
    let q = pow2(e) as int;
    assert(256 == p * (2 * q));
    assert(256 * a == (2 * (q * a)) * p) by (nonlinear_arith)
        requires
            256 == p * (2 * q),
    ;
    vstd::arithmetic::div_mod::lemma_hoist_over_denominator(b, 2 * (q * a), p as nat);
    vstd::arithmetic::div_mod::lemma_mod_multiples_vanish(q * a, b / p, 2);
}

/// The high bits of two bytes in one index are those of the first.
proof fn lemma_high_bit(a: int, b: int, k: nat)
    requires
        0 <= a,
        0 <= b < 256,
    ensures
        ((256 * a + b) / pow2(k + 8) as int) % 2 == (a / pow2(k) as int) % 2,
{
    let p = pow2(k) as int;
    vstd::arithmetic::power2::lemma2_to64();
    vstd::arithmetic::power2::lemma_pow2_pos(k);
    vstd::arithmetic::power2::lemma_pow2_adds(8, k);
    assert(8 + k == k + 8);
    vstd::arithmetic::div_mod::lemma_div_denominator(256 * a + b, 256, p);
    assert((256 * a + b) / 256 == a);
}

/// The fingerprint of a row is linear in its entries: each counts with its challenge, and the
/// separator with the last one.
pub proof fn law_fingerprint<R: Ring>(alphas: Seq<R>, a: R, b: R, xor: R, separator: int)
    requires
        alphas.len() >= 3,
    ensures
        fingerprint(alphas, a, b, xor, separator) == total(
            seq![
                alphas[0].times(a),
                alphas[1].times(b),
                alphas[2].times(xor),
                alphas[alphas.len() - 1].times(R::of(separator)),
            ],
        ),
{
    let s = seq![
        alphas[0].times(a),
        alphas[1].times(b),
        alphas[2].times(xor),
        alphas[alphas.len() - 1].times(R::of(separator)),
    ];
    reveal_with_fuel(total, 5);
    R::law_closed(alphas[0], a, 0);
    lemma_zero_plus(s[0]);
    let s3 = s.drop_last();
    let s2 = s3.drop_last();
    let s1 = s2.drop_last();
    assert(s1.drop_last().len() == 0);
    assert(total(s1) == s[0]);
    assert(total(s2) == total(s1).plus(s[1]));
    assert(total(s3) == total(s2).plus(s[2]));
    assert(total(s) == total(s3).plus(s[3]));
}

/// How often an entry is looked up in two lists of columns: where they differ in one row of one
/// column, which looks up the entry in the second and does not in the first, the second count is one
/// more. Where neither row looks it up the counts agree, and where no row does the count is zero.
pub proof fn law_lookups_are_counted(
    a: Seq<&[KoalaBear]>,
    b: Seq<&[KoalaBear]>,
    a2: Seq<&[KoalaBear]>,
    b2: Seq<&[KoalaBear]>,
    n: nat,
    i: int,
    j: int,
    t: int,
)
    requires
        n <= a.len(),
        n <= b.len(),
        n <= a2.len(),
        n <= b2.len(),
        forall|k: int| 0 <= k < n ==> (#[trigger] a[k])@.len() == b[k]@.len(),
        forall|k: int| 0 <= k < n && k != i ==> (#[trigger] a2[k])@ == a[k]@,
        forall|k: int| 0 <= k < n && k != i ==> (#[trigger] b2[k])@ == b[k]@,
        0 <= i < n,
        0 <= j < a[i]@.len(),
        a2[i]@ == a[i]@.update(j, a2[i]@[j]),
        b2[i]@ == b[i]@.update(j, b2[i]@[j]),
        !(a[i]@[j].value < 256 && b[i]@[j].value < 256 && 256 * a[i]@[j].value + b[i]@[j].value
            == t),
    ensures
        lookups_of(a2, b2, n, t) == lookups_of(a, b, n, t) + (if a2[i]@[j].value < 256
            && b2[i]@[j].value < 256 && 256 * a2[i]@[j].value + b2[i]@[j].value == t {
            1int
        } else {
            0int
        }),
        (forall|k: int, l: int|
            0 <= k < n && 0 <= l < a[k]@.len() ==> !((#[trigger] a[k]@[l]).value < 256
                && b[k]@[l].value < 256 && 256 * a[k]@[l].value + b[k]@[l].value == t))
            ==> lookups_of(a, b, n, t) == 0,
{
    lemma_counted(a, b, a2, b2, n, i, j, t);
    if forall|k: int, l: int|
        0 <= k < n && 0 <= l < a[k]@.len() ==> !((#[trigger] a[k]@[l]).value < 256
            && b[k]@[l].value < 256 && 256 * a[k]@[l].value + b[k]@[l].value == t) {
        lemma_none_counted(a, b, n, t);
    }
}

proof fn lemma_counted(
    a: Seq<&[KoalaBear]>,
    b: Seq<&[KoalaBear]>,
    a2: Seq<&[KoalaBear]>,
    b2: Seq<&[KoalaBear]>,
    m: nat,
    i: int,
    j: int,
    t: int,
)
    requires
        m <= a.len(),
        m <= b.len(),
        m <= a2.len(),
        m <= b2.len(),
        forall|k: int| 0 <= k < m && k != i ==> (#[trigger] a2[k])@ == a[k]@,
        forall|k: int| 0 <= k < m && k != i ==> (#[trigger] b2[k])@ == b[k]@,
        0 <= i,
        i < m ==> {
            &&& 0 <= j < a[i]@.len()
            &&& a[i]@.len() == b[i]@.len()
            &&& a2[i]@ == a[i]@.update(j, a2[i]@[j])
            &&& b2[i]@ == b[i]@.update(j, b2[i]@[j])
            &&& !looks_up(a[i]@[j], b[i]@[j], t)
        },
    ensures
        lookups_of(a2, b2, m, t) == lookups_of(a, b, m, t) + (if i < m && looks_up(
            a2[i]@[j],
            b2[i]@[j],
            t,
        ) {
            1int
        } else {
            0int
        }),
    decreases m,
{
    if m > 0 {
        let p = m - 1;
        lemma_counted(a, b, a2, b2, p as nat, i, j, t);
        if p == i {
            lemma_counted_in(a[i]@, b[i]@, a2[i]@, b2[i]@, a[i]@.len(), j, t);
        } else {
            assert(a2[p]@ == a[p]@ && b2[p]@ == b[p]@);
        }
    }
}

proof fn lemma_counted_in(
    a: Seq<KoalaBear>,
    b: Seq<KoalaBear>,
    a2: Seq<KoalaBear>,
    b2: Seq<KoalaBear>,
    m: nat,
    j: int,
    t: int,
)
    requires
        a.len() == b.len(),
        m <= a.len(),
        0 <= j < a.len(),
        a2 == a.update(j, a2[j]),
        b2 == b.update(j, b2[j]),
        !looks_up(a[j], b[j], t),
    ensures
        lookups_in(a2, b2, m, t) == lookups_in(a, b, m, t) + (if j < m && looks_up(a2[j], b2[j], t) {
            1int
        } else {
            0int
        }),
    decreases m,
{
    if m > 0 {
        lemma_counted_in(a, b, a2, b2, (m - 1) as nat, j, t);
        if m - 1 != j {
            assert(a2[m - 1] == a[m - 1] && b2[m - 1] == b[m - 1]);
        }
    }
}

proof fn lemma_none_counted(a: Seq<&[KoalaBear]>, b: Seq<&[KoalaBear]>, m: nat, t: int)
    requires
        forall|k: int, l: int|
            0 <= k < m && 0 <= l < a[k]@.len() ==> !((#[trigger] a[k]@[l]).value < 256
                && b[k]@[l].value < 256 && 256 * a[k]@[l].value + b[k]@[l].value == t),
    ensures
        lookups_of(a, b, m, t) == 0,
    decreases m,
{
    if m > 0 {
        lemma_none_counted(a, b, (m - 1) as nat, t);
        let p = m - 1;
        assert forall|l: int| 0 <= l < a[p]@.len() implies !looks_up(
            #[trigger] a[p]@[l],
            b[p]@[l],
            t,
        ) by {
            assert(a[p]@[l] == a[p]@[l]);
        }
        lemma_none_counted_in(a[p]@, b[p]@, a[p]@.len(), t);
    }
}

proof fn lemma_none_counted_in(a: Seq<KoalaBear>, b: Seq<KoalaBear>, m: nat, t: int)
    requires
        forall|l: int| 0 <= l < m ==> !looks_up(#[trigger] a[l], b[l], t),
    ensures
        lookups_in(a, b, m, t) == 0,
    decreases m,
{
    if m > 0 {
        lemma_none_counted_in(a, b, (m - 1) as nat, t);
        assert(!looks_up(a[m - 1], b[m - 1], t));
    }
}

/// Bits below and above the top bit of an index.
proof fn lemma_top_bit(i: int, m: nat, k: int)
    requires
        0 <= i < pow2(m),
        0 <= k < m,
    ensures
        bit(i, m as int) == 0,
        bit(i + pow2(m), m as int) == 1,
        bit(i + pow2(m), k) == bit(i, k),
{
    lemma_top_bit_alone(i, m);
    let p = pow2(k as nat) as int;
    let e = (m - k - 1) as nat;
    vstd::arithmetic::power2::lemma_pow2_pos(k as nat);
    vstd::arithmetic::power2::lemma_pow2_adds(k as nat, e + 1);
    lemma_pow2_step(e);
    let q = pow2(e) as int;
    assert(pow2(m) == p * (2 * q));
    vstd::arithmetic::div_mod::lemma_hoist_over_denominator(i, 2 * q, p as nat);
    assert((i + pow2(m)) / p == i / p + 2 * q) by {
        assert(p * (2 * q) == (2 * q) * p) by (nonlinear_arith);
    }
    vstd::arithmetic::div_mod::lemma_mod_multiples_vanish(q, i / p, 2);
}

proof fn lemma_top_bit_alone(i: int, m: nat)
    requires
        0 <= i < pow2(m),
    ensures
        bit(i, m as int) == 0,
        bit(i + pow2(m), m as int) == 1,
{
    let p = pow2(m) as int;
    vstd::arithmetic::div_mod::lemma_fundamental_div_mod_converse(i, p, 0, i);
    vstd::arithmetic::div_mod::lemma_fundamental_div_mod_converse(i + p, p, 1, i);
}

/// The table of bit `k`, on indices of `n` bits.
spec fn bit_table<R: Ring>(n: nat, k: int) -> Seq<R> {
    Seq::new(pow2(n), |i: int| R::of(bit(i, k)))
}

/// The table of the product of bits `k` and `j`, on indices of `n` bits.
spec fn pair_table<R: Ring>(n: nat, k: int, j: int) -> Seq<R> {
    Seq::new(pow2(n), |i: int| R::of(bit(i, k) * bit(i, j)))
}

spec fn constant_table<R: Ring>(n: nat, c: R) -> Seq<R> {
    Seq::new(pow2(n), |i: int| c)
}

proof fn lemma_zero_table<R: Ring>(n: nat, point: Seq<R>)
    requires
        point.len() == n,
    ensures
        mle_eval(constant_table(n, R::ring_zero()), point) == R::ring_zero(),
{
    lemma_eq_table_len(point);
    let z = constant_table::<R>(n, R::ring_zero());
    let t = products(z, eq_table(point));
    assert forall|i: int| 0 <= i < t.len() implies #[trigger] t[i] == R::ring_zero() by {
        R::law_times_zero(eq_table(point)[i]);
    }
    lemma_total_zeros(t);
}

/// Equal halves leave the value of a half.
proof fn lemma_equal_halves<R: Ring>(half: Seq<R>, point: Seq<R>)
    requires
        point.len() > 0,
        half.len() == pow2((point.len() - 1) as nat),
    ensures
        mle_eval(half + half, point) == mle_eval(half, point.drop_first()),
{
    let v = mle_eval(half, point.drop_first());
    let p = point.first();
    let q = R::ring_one().minus(p);
    lemma_halves_value(half, half, point);
    lemma_plus_times(q, p, v);
    R::law_closed(R::ring_one(), R::ring_one(), 0);
    lemma_minus_plus(R::ring_one(), p);
    lemma_dot_canonical(half, eq_table(point.drop_first()));
    R::law_times_commutes(R::ring_one(), v);
    R::law_times_one(v);
}

/// A zero lower half leaves the upper half's value times the coordinate.
proof fn lemma_upper_half<R: Ring>(hi: Seq<R>, point: Seq<R>)
    requires
        point.len() > 0,
        hi.len() == pow2((point.len() - 1) as nat),
    ensures
        mle_eval(constant_table((point.len() - 1) as nat, R::ring_zero()) + hi, point)
            == point.first().times(mle_eval(hi, point.drop_first())),
{
    let n = (point.len() - 1) as nat;
    let lo = constant_table::<R>(n, R::ring_zero());
    lemma_halves_value(lo, hi, point);
    lemma_zero_table(n, point.drop_first());
    let q = R::ring_one().minus(point.first());
    R::law_times_zero(q);
    let v = point.first().times(mle_eval(hi, point.drop_first()));
    R::law_closed(point.first(), mle_eval(hi, point.drop_first()), 0);
    lemma_zero_plus(v);
}

proof fn lemma_one_table<R: Ring>(n: nat, point: Seq<R>)
    requires
        point.len() == n,
    ensures
        mle_eval(constant_table(n, R::ring_one()), point) == R::ring_one(),
    decreases n,
{
    let ones = constant_table::<R>(n, R::ring_one());
    let one = R::ring_one();
    R::law_closed(one, one, 0);
    if n == 0 {
        lemma_pow2_base();
        let t = products(ones, eq_table(point));
        assert(t.drop_last().len() == 0);
        R::law_times_one(one);
        lemma_zero_plus(one);
        assert(total(t) == total(t.drop_last()).plus(t.last()));
    } else {
        let m = (n - 1) as nat;
        lemma_pow2_step(m);
        let half = constant_table::<R>(m, one);
        assert(ones =~= half + half);
        lemma_equal_halves(half, point);
        lemma_one_table(m, point.drop_first());
    }
}

/// The coordinates of a reversed point.
proof fn lemma_reversed<R>(point: Seq<R>)
    requires
        point.len() > 0,
    ensures
        point.reverse().first() == point.last(),
        point.reverse().drop_first() == point.drop_last().reverse(),
        point.reverse().len() == point.len(),
{
    assert(point.reverse().drop_first() =~= point.drop_last().reverse());
}

/// A bit's extension is the coordinate.
proof fn lemma_bit_mle<R: Ring>(n: nat, k: int, point: Seq<R>)
    requires
        0 <= k < n,
        point.len() == n,
        point[k].canonical(),
    ensures
        mle_eval(bit_table(n, k), point.reverse()) == point[k],
    decreases n,
{
    let m = (n - 1) as nat;
    let half = pow2(m) as int;
    lemma_pow2_step(m);
    lemma_reversed(point);
    R::law_of(0, 0);
    let table = bit_table::<R>(n, k);
    if k == m {
        let lo = constant_table::<R>(m, R::ring_zero());
        let hi = constant_table::<R>(m, R::ring_one());
        assert forall|i: int| 0 <= i < table.len() implies table[i] == (lo + hi)[i] by {
            if i < half {
                lemma_top_bit_alone(i, m);
            } else {
                lemma_top_bit_alone(i - half, m);
            }
        }
        assert(table =~= lo + hi);
        lemma_upper_half(hi, point.reverse());
        lemma_one_table(m, point.drop_last().reverse());
        R::law_times_one(point[k]);
    } else {
        let part = bit_table::<R>(m, k);
        assert forall|i: int| 0 <= i < table.len() implies table[i] == (part + part)[i] by {
            if i >= half {
                lemma_top_bit(i - half, m, k);
            }
        }
        assert(table =~= part + part);
        lemma_equal_halves(part, point.reverse());
        lemma_bit_mle(m, k, point.drop_last());
    }
}

/// The extension of a product of two bits is the product of the coordinates.
proof fn lemma_pair_mle<R: Ring>(n: nat, k: int, j: int, point: Seq<R>)
    requires
        0 <= j < k < n,
        point.len() == n,
        point[j].canonical(),
    ensures
        mle_eval(pair_table(n, k, j), point.reverse()) == point[k].times(point[j]),
    decreases n,
{
    let m = (n - 1) as nat;
    let half = pow2(m) as int;
    lemma_pow2_step(m);
    lemma_reversed(point);
    R::law_of(0, 0);
    let table = pair_table::<R>(n, k, j);
    if k == m {
        let lo = constant_table::<R>(m, R::ring_zero());
        let hi = bit_table::<R>(m, j);
        assert forall|i: int| 0 <= i < table.len() implies table[i] == (lo + hi)[i] by {
            if i < half {
                lemma_top_bit_alone(i, m);
                assert(bit(i, k) * bit(i, j) == 0) by (nonlinear_arith)
                    requires
                        bit(i, k) == 0,
                ;
            } else {
                lemma_top_bit(i - half, m, j);
                assert(bit(i, k) * bit(i, j) == bit(i, j)) by (nonlinear_arith)
                    requires
                        bit(i, k) == 1,
                ;
            }
        }
        assert(table =~= lo + hi);
        lemma_upper_half(hi, point.reverse());
        lemma_bit_mle(m, j, point.drop_last());
    } else {
        let part = pair_table::<R>(m, k, j);
        assert forall|i: int| 0 <= i < table.len() implies table[i] == (part + part)[i] by {
            if i >= half {
                lemma_top_bit(i - half, m, k);
                lemma_top_bit(i - half, m, j);
            }
        }
        assert(table =~= part + part);
        lemma_equal_halves(part, point.reverse());
        lemma_pair_mle(m, k, j, point.drop_last());
    }
}

/// The number whose bits, at `k < n`, are `f` of the index.
spec fn from_bits(f: spec_fn(int, int) -> int, i: int, n: nat) -> int
    decreases n,
{
    if n == 0 {
        0
    } else {
        from_bits(f, i, (n - 1) as nat) + pow2((n - 1) as nat) * f(i, n - 1)
    }
}

/// A column of numbers given by their bits: the last bit's column enters with its weight.
proof fn lemma_column_step<R: Ring>(f: spec_fn(int, int) -> int, n: nat, point: Seq<R>)
    requires
        n > 0,
        point.len() == 16,
    ensures
        mle_eval(column::<R>(|i: int| from_bits(f, i, n)), point) == mle_eval(
            column::<R>(|i: int| from_bits(f, i, (n - 1) as nat)),
            point,
        ).plus(
            mle_eval(column::<R>(|i: int| f(i, n - 1)), point).times(
                R::of(pow2((n - 1) as nat) as int),
            ),
        ),
{
    let m = (n - 1) as nat;
    let w = pow2(m) as int;
    let whole = column::<R>(|i: int| from_bits(f, i, n));
    let rest = column::<R>(|i: int| from_bits(f, i, m));
    let last = column::<R>(|i: int| f(i, n - 1));
    assert forall|i: int| 0 <= i < 65536 implies whole[i] == vplus(
        rest,
        vscale(R::of(w), last),
    )[i] by {
        R::law_of(w, f(i, n - 1));
        R::law_of(from_bits(f, i, m), w * f(i, n - 1));
    }
    assert(whole =~= vplus(rest, vscale(R::of(w), last)));
    let eq = eq_table(point);
    lemma_dot_plus_left(rest, vscale(R::of(w), last), eq);
    lemma_dot_scale_left(R::of(w), last, eq);
    R::law_times_commutes(R::of(w), dot(last, eq));
}

/// The column of zeros.
proof fn lemma_empty_column<R: Ring>(f: spec_fn(int, int) -> int, point: Seq<R>)
    requires
        point.len() == 16,
    ensures
        mle_eval(column::<R>(|i: int| from_bits(f, i, 0)), point) == R::ring_zero(),
{
    vstd::arithmetic::power2::lemma2_to64();
    R::law_of(0, 0);
    assert(column::<R>(|i: int| from_bits(f, i, 0)) =~= constant_table::<R>(16, R::ring_zero()));
    lemma_zero_table(16, point);
}

proof fn lemma_byte_column<R: Ring>(point: Seq<R>, first: int, n: nat)
    requires
        point.len() == 16,
        all_canonical(point),
        0 <= first <= 8,
        n <= 8,
    ensures
        mle_eval(
            column::<R>(|i: int| from_bits(|i: int, k: int| bit(i, first + k), i, n)),
            point.reverse(),
        ) == weighted_bits(point, first, n),
    decreases n,
{
    let f = |i: int, k: int| bit(i, first + k);
    vstd::arithmetic::power2::lemma2_to64();
    if n == 0 {
        lemma_empty_column::<R>(f, point.reverse());
    } else {
        lemma_byte_column(point, first, (n - 1) as nat);
        lemma_column_step(f, n, point.reverse());
        let k = first + n - 1;
        assert(point[k].canonical());
        lemma_bit_mle(16, k, point);
        assert(column::<R>(|i: int| f(i, n - 1)) =~= bit_table::<R>(16, k));
    }
}

/// The exclusive or of two bits as a number.
spec fn xor_bit(i: int, k: int) -> int {
    bit(i, k + 8) + bit(i, k) - 2 * (bit(i, k + 8) * bit(i, k))
}

proof fn lemma_xor_bit_column<R: Ring>(point: Seq<R>, k: int)
    requires
        point.len() == 16,
        all_canonical(point),
        0 <= k < 8,
    ensures
        mle_eval(column::<R>(|i: int| xor_bit(i, k)), point.reverse()) == xor_of(
            point[k + 8],
            point[k],
        ),
{
    vstd::arithmetic::power2::lemma2_to64();
    let (a, b, p) = (
        bit_table::<R>(16, k + 8),
        bit_table::<R>(16, k),
        pair_table::<R>(16, k + 8, k),
    );
    let c = R::of(-2);
    let whole = column::<R>(|i: int| xor_bit(i, k));
    assert forall|i: int| 0 <= i < 65536 implies whole[i] == vplus(
        vplus(a, b),
        vscale(c, p),
    )[i] by {
        let (x, y) = (bit(i, k + 8), bit(i, k));
        R::law_of(x, y);
        R::law_of(-2, x * y);
        R::law_of(x + y, -2 * (x * y));
    }
    assert(whole =~= vplus(vplus(a, b), vscale(c, p)));
    let rev = point.reverse();
    let eq = eq_table(rev);
    lemma_dot_plus_left(vplus(a, b), vscale(c, p), eq);
    lemma_dot_plus_left(a, b, eq);
    lemma_dot_scale_left(c, p, eq);
    assert(point[k].canonical() && point[k + 8].canonical());
    lemma_bit_mle(16, k + 8, point);
    lemma_bit_mle(16, k, point);
    lemma_pair_mle(16, k + 8, k, point);
    let (ra, rb) = (point[k + 8], point[k]);
    let x = ra.times(rb);
    R::law_closed(ra, rb, 0);
    lemma_minus_twice(ra.plus(rb), x);
}

/// Adding minus two times an element subtracts it twice.
proof fn lemma_minus_twice<R: Ring>(s: R, x: R)
    requires
        x.canonical(),
    ensures
        s.plus(R::of(-2).times(x)) == s.minus(x.plus(x)),
{
    let (z, one, two) = (R::ring_zero(), R::ring_one(), R::of(2));
    R::law_of(0, 2);
    R::law_of(1, 1);
    assert(R::of(-2) == z.minus(two));
    crate::ring::lemma_times_minus(x, z, two);
    lemma_zero_times(x);
    lemma_plus_times(one, one, x);
    R::law_times_commutes(one, x);
    R::law_times_one(x);
    let t = x.plus(x);
    assert(R::of(-2).times(x) == z.minus(t));
    R::law_minus(s, t);
    R::law_minus(z, t);
    R::law_closed(t, t, 0);
    lemma_zero_plus(t.negate());
}

proof fn lemma_xor_column<R: Ring>(point: Seq<R>, n: nat)
    requires
        point.len() == 16,
        all_canonical(point),
        n <= 8,
    ensures
        mle_eval(
            column::<R>(|i: int| from_bits(|i: int, k: int| xor_bit(i, k), i, n)),
            point.reverse(),
        ) == weighted_xors(point, n),
    decreases n,
{
    let f = |i: int, k: int| xor_bit(i, k);
    if n == 0 {
        lemma_empty_column::<R>(f, point.reverse());
    } else {
        lemma_xor_column(point, (n - 1) as nat);
        lemma_column_step(f, n, point.reverse());
        lemma_xor_bit_column(point, n - 1);
        assert(column::<R>(|i: int| f(i, n - 1)) =~= column::<R>(|i: int| xor_bit(i, n - 1)));
    }
}

proof fn lemma_eight_bits(f: spec_fn(int, int) -> int, i: int)
    ensures
        from_bits(f, i, 8) == f(i, 0) + 2 * f(i, 1) + 4 * f(i, 2) + 8 * f(i, 3) + 16 * f(i, 4) + 32
            * f(i, 5) + 64 * f(i, 6) + 128 * f(i, 7),
{
    vstd::arithmetic::power2::lemma2_to64();
    lemma_pow2_base();
    let one = pow2(0);
    assert(one == 1);
    assert(one * f(i, 0) == f(i, 0)) by (nonlinear_arith)
        requires
            one == 1,
    ;
    assert(from_bits(f, i, 0) == 0);
    assert(from_bits(f, i, 1) == f(i, 0));
    assert(from_bits(f, i, 2) == f(i, 0) + 2 * f(i, 1));
    assert(from_bits(f, i, 3) == from_bits(f, i, 2) + 4 * f(i, 2));
    assert(from_bits(f, i, 4) == from_bits(f, i, 3) + 8 * f(i, 3));
    assert(from_bits(f, i, 5) == from_bits(f, i, 4) + 16 * f(i, 4));
    assert(from_bits(f, i, 6) == from_bits(f, i, 5) + 32 * f(i, 5));
    assert(from_bits(f, i, 7) == from_bits(f, i, 6) + 64 * f(i, 6));
}

proof fn lemma_bits_written_out(i: int)
    ensures
        bit(i, 0) == i % 2,
        bit(i, 1) == i / 2 % 2,
        bit(i, 2) == i / 4 % 2,
        bit(i, 3) == i / 8 % 2,
        bit(i, 4) == i / 16 % 2,
        bit(i, 5) == i / 32 % 2,
        bit(i, 6) == i / 64 % 2,
        bit(i, 7) == i / 128 % 2,
        bit(i, 8) == i / 256 % 2,
        bit(i, 9) == i / 512 % 2,
        bit(i, 10) == i / 1024 % 2,
        bit(i, 11) == i / 2048 % 2,
        bit(i, 12) == i / 4096 % 2,
        bit(i, 13) == i / 8192 % 2,
        bit(i, 14) == i / 16384 % 2,
        bit(i, 15) == i / 32768 % 2,
{
    lemma_pow2_base();
    assert(i / (pow2(0) as int) == i) by (nonlinear_arith)
        requires
            pow2(0) == 1,
    ;
    vstd::arithmetic::power2::lemma2_to64();
}

/// A byte is the number of its bits.
proof fn lemma_byte_from_bits(i: int)
    requires
        0 <= i < 65536,
    ensures
        from_bits(|i: int, k: int| bit(i, 8 + k), i, 8) == i / 256,
        from_bits(|i: int, k: int| bit(i, 0 + k), i, 8) == i % 256,
{
    lemma_eight_bits(|i: int, k: int| bit(i, 8 + k), i);
    lemma_eight_bits(|i: int, k: int| bit(i, 0 + k), i);
    lemma_bits_written_out(i);
    let v = i as u32;
    assert(v / 256 == (v / 256 % 2) + 2 * (v / 512 % 2) + 4 * (v / 1024 % 2) + 8 * (v / 2048 % 2)
        + 16 * (v / 4096 % 2) + 32 * (v / 8192 % 2) + 64 * (v / 16384 % 2) + 128 * (v / 32768 % 2))
        by (bit_vector)
        requires
            v < 65536,
    ;
    assert(v % 256 == (v % 2) + 2 * (v / 2 % 2) + 4 * (v / 4 % 2) + 8 * (v / 8 % 2) + 16 * (v / 16
        % 2) + 32 * (v / 32 % 2) + 64 * (v / 64 % 2) + 128 * (v / 128 % 2)) by (bit_vector)
        requires
            v < 65536,
    ;
}

/// The exclusive or of two bits.
proof fn lemma_xor_of_bits(x: int, y: int)
    requires
        0 <= x < 2,
        0 <= y < 2,
    ensures
        y + x - 2 * (y * x) == (x as u32) ^ (y as u32),
{
    let (u, v) = (x as u32, y as u32);
    assert(u ^ v == v + u - 2 * (v * u)) by (bit_vector)
        requires
            u < 2,
            v < 2,
    ;
}

/// The exclusive or of two bytes is the number of the exclusive ors of their bits.
proof fn lemma_xor_from_bits(i: int)
    requires
        0 <= i < 65536,
    ensures
        from_bits(|i: int, k: int| xor_bit(i, k), i, 8) == ((i / 256) as u32) ^ ((i % 256) as u32),
{
    lemma_eight_bits(|i: int, k: int| xor_bit(i, k), i);
    lemma_bits_written_out(i);
    let v = i as u32;
    assert((v / 256) ^ (v % 256) == ((v % 2) ^ (v / 256 % 2)) + 2 * ((v / 2 % 2) ^ (v / 512 % 2))
        + 4 * ((v / 4 % 2) ^ (v / 1024 % 2)) + 8 * ((v / 8 % 2) ^ (v / 2048 % 2)) + 16 * ((v / 16
        % 2) ^ (v / 4096 % 2)) + 32 * ((v / 32 % 2) ^ (v / 8192 % 2)) + 64 * ((v / 64 % 2) ^ (v
        / 16384 % 2)) + 128 * ((v / 128 % 2) ^ (v / 32768 % 2))) by (bit_vector)
        requires
            v < 65536,
    ;
    lemma_xor_of_bits(bit(i, 0), bit(i, 8));
    lemma_xor_of_bits(bit(i, 1), bit(i, 9));
    lemma_xor_of_bits(bit(i, 2), bit(i, 10));
    lemma_xor_of_bits(bit(i, 3), bit(i, 11));
    lemma_xor_of_bits(bit(i, 4), bit(i, 12));
    lemma_xor_of_bits(bit(i, 5), bit(i, 13));
    lemma_xor_of_bits(bit(i, 6), bit(i, 14));
    lemma_xor_of_bits(bit(i, 7), bit(i, 15));
}

/// The closed forms are the multilinear extensions of the table's columns.
pub proof fn law_columns_extend<R: Ring>(point: Seq<R>)
    requires
        point.len() >= 16,
        all_canonical(point),
    ensures
        weighted_bits(point, 8, 8) == column_mle(a_column::<R>(), point),
        weighted_bits(point, 0, 8) == column_mle(b_column::<R>(), point),
        weighted_xors(point, 8) == column_mle(xor_column::<R>(), point),
{
    let q = point.take(16);
    assert forall|i: int| 0 <= i < 16 implies (#[trigger] q[i]).canonical() by {
        assert(point[i].canonical());
    }
    lemma_byte_column(q, 8, 8);
    lemma_byte_column(q, 0, 8);
    lemma_xor_column(q, 8);
    lemma_weighted_prefix(point, 8, 8);
    lemma_weighted_prefix(point, 0, 8);
    lemma_xors_prefix(point, 8);
    let fa = |i: int, k: int| bit(i, 8 + k);
    let fb = |i: int, k: int| bit(i, 0 + k);
    let fx = |i: int, k: int| xor_bit(i, k);
    assert forall|i: int| 0 <= i < 65536 implies #[trigger] a_column::<R>()[i] == R::of(
        from_bits(fa, i, 8),
    ) by {
        lemma_byte_from_bits(i);
    }
    assert forall|i: int| 0 <= i < 65536 implies #[trigger] b_column::<R>()[i] == R::of(
        from_bits(fb, i, 8),
    ) by {
        lemma_byte_from_bits(i);
    }
    assert forall|i: int| 0 <= i < 65536 implies #[trigger] xor_column::<R>()[i] == R::of(
        from_bits(fx, i, 8),
    ) by {
        lemma_xor_from_bits(i);
    }
    assert(a_column::<R>() =~= column::<R>(|i: int| from_bits(fa, i, 8)));
    assert(b_column::<R>() =~= column::<R>(|i: int| from_bits(fb, i, 8)));
    assert(xor_column::<R>() =~= column::<R>(|i: int| from_bits(fx, i, 8)));
}

proof fn lemma_weighted_prefix<R: Ring>(point: Seq<R>, first: int, n: nat)
    requires
        0 <= first,
        first + n <= 16,
        point.len() >= 16,
    ensures
        weighted_bits(point.take(16), first, n) == weighted_bits(point, first, n),
    decreases n,
{
    if n > 0 {
        lemma_weighted_prefix(point, first, (n - 1) as nat);
    }
}

proof fn lemma_xors_prefix<R: Ring>(point: Seq<R>, n: nat)
    requires
        n <= 8,
        point.len() >= 16,
    ensures
        weighted_xors(point.take(16), n) == weighted_xors(point, n),
    decreases n,
{
    if n > 0 {
        lemma_xors_prefix(point, (n - 1) as nat);
    }
}

/// The column of the rows' fingerprints.
pub open spec fn fingerprint_column<R: Ring>(alphas: Seq<R>, separator: int) -> Seq<R> {
    Seq::new(
        65536,
        |i: int|
            fingerprint(
                alphas,
                a_column::<R>()[i],
                b_column::<R>()[i],
                xor_column::<R>()[i],
                separator,
            ),
    )
}

/// The fingerprint of the columns' extensions is the extension of the rows' fingerprints.
pub proof fn law_fingerprint_extends<R: Ring>(point: Seq<R>, alphas: Seq<R>, separator: int)
    requires
        point.len() >= 16,
        all_canonical(point),
        alphas.len() >= 3,
    ensures
        fingerprint(
            alphas,
            weighted_bits(point, 8, 8),
            weighted_bits(point, 0, 8),
            weighted_xors(point, 8),
            separator,
        ) == column_mle(fingerprint_column(alphas, separator), point),
{
    law_columns_extend(point);
    vstd::arithmetic::power2::lemma2_to64();
    let rev = point.take(16).reverse();
    let eq = eq_table(rev);
    let (a, b, x) = (a_column::<R>(), b_column::<R>(), xor_column::<R>());
    let last = alphas.last().times(R::of(separator));
    let ones = constant_table::<R>(16, R::ring_one());
    let sum_ab = vplus(vscale(alphas[0], a), vscale(alphas[1], b));
    let sum_abx = vplus(sum_ab, vscale(alphas[2], x));
    let whole = vplus(sum_abx, vscale(last, ones));
    R::law_closed(alphas.last(), R::of(separator), 0);
    R::law_times_one(last);
    assert(fingerprint_column(alphas, separator) =~= whole);
    lemma_dot_plus_left(sum_abx, vscale(last, ones), eq);
    lemma_dot_plus_left(sum_ab, vscale(alphas[2], x), eq);
    lemma_dot_plus_left(vscale(alphas[0], a), vscale(alphas[1], b), eq);
    lemma_dot_scale_left(alphas[0], a, eq);
    lemma_dot_scale_left(alphas[1], b, eq);
    lemma_dot_scale_left(alphas[2], x, eq);
    lemma_dot_scale_left(last, ones, eq);
    lemma_one_table(16, rev);
}

} // verus!
