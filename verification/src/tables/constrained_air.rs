//! Constraints of the constrained Blake3 table.
//!
//! A row is one half-round. Its constraints check the byte decompositions, the carries of the
//! additions modulo `2^32`, the addresses of the byte-XOR lookups and the splits behind the
//! rotations. A constraint is an expression that is zero on a valid row.

use crate::field::Ring;
use crate::tables::constrained_cols::{
    col_qr, col_qr_indices, diag_qr, diag_qr_indices, g_col, g_column, state_col, state_column,
    COL_IS_COLUMN_QR, G_ADD1_BYTES, G_ADD2_BYTES, G_ADD3_BYTES, G_ADD4_BYTES, G_B_BYTES,
    G_CARRY_ROT7, G_D_BYTES, G_MX_BYTES, G_MX_VALUE, G_MY_BYTES, G_MY_VALUE, G_XOR2_ADDRS,
    G_XOR2_BYTES, G_XOR4_ADDRS, G_XOR4_B0_SPLIT, G_XOR4_B2_SPLIT, G_XOR4_B3_SPLIT, G_XOR4_BYTES,
    G_XOR4_SPLIT, G_XOR6_ADDRS, G_XOR6_BYTES, G_XOR8_ADDRS, G_XOR8_BYTES, G_XOR8_SPLIT,
    N_COMMITTED_COLS, N_ROT_COLS, ROT_COLS_PER_G,
};
use vstd::prelude::*;

verus! {

/// `2^32` modulo the field order, up to a multiple of it: the factor that takes a field element
/// to its Montgomery form.
pub const R_CONST: u32 = 2_164_260_863;

/// The inverse of `2^16` modulo the field order.
pub const INV_65536: u32 = 2_130_673_921;

/// Column `offset` of G-function `g`.
pub open spec fn g_cell<R: Ring>(up: Seq<R>, g: int, offset: int) -> R {
    up[g_column(g, offset)]
}

/// Rotation column `offset` of G-function `g`, where `rot` holds the rotation columns of a row.
pub open spec fn rot_cell<R: Ring>(rot: Seq<R>, g: int, offset: int) -> R {
    rot[g * ROT_COLS_PER_G + offset]
}

/// `x * k` for an integer `k`.
pub open spec fn scaled<R: Ring>(x: R, k: int) -> R {
    x.times(R::of(k))
}

/// The limb that two bytes make up.
pub open spec fn limb_of_bytes<R: Ring>(low: R, high: R) -> R {
    low.plus(scaled(high, 256))
}

/// The limb made up of the bytes at offsets `low` and `high` of G-function `g`.
pub open spec fn g_limb<R: Ring>(up: Seq<R>, g: int, low: int, high: int) -> R {
    limb_of_bytes(g_cell(up, g, low), g_cell(up, g, high))
}

/// The carry for which `total = result + 2^16 * carry`.
pub open spec fn carry_of<R: Ring>(total: R, result: R) -> R {
    scaled(total.minus(result), INV_65536 as int)
}

/// Zero if `v` is 0 or 1.
pub open spec fn bool_constraint<R: Ring>(v: R) -> R {
    v.times(v.minus(R::ring_one()))
}

/// Zero if `v` is 0, 1 or 2.
pub open spec fn ternary_constraint<R: Ring>(v: R) -> R {
    v.times(v.minus(R::ring_one())).times(v.minus(R::of(2)))
}

/// Zero if the bytes from `bytes` on are those of the Montgomery form of the element at `value`.
pub open spec fn message_constraint<R: Ring>(up: Seq<R>, g: int, value: int, bytes: int) -> R {
    scaled(g_cell(up, g, value), R_CONST as int).minus(g_cell(up, g, bytes)).minus(
        scaled(g_cell(up, g, bytes + 1), 256),
    ).minus(scaled(g_cell(up, g, bytes + 2), 65536)).minus(
        scaled(g_cell(up, g, bytes + 3), 16777216),
    )
}

/// Zero if `limb` is made up of the bytes at offsets `low` and `high`.
pub open spec fn bytes_constraint<R: Ring>(up: Seq<R>, g: int, limb: R, low: int, high: int) -> R {
    limb.minus(g_cell(up, g, low)).minus(scaled(g_cell(up, g, high), 256))
}

/// Zero if the cell at `addr` is the lookup address of the bytes at `first` and `second`.
pub open spec fn xor_addr_constraint<R: Ring>(
    up: Seq<R>,
    g: int,
    base: R,
    addr: int,
    first: int,
    second: int,
) -> R {
    g_cell(up, g, addr).minus(base).minus(scaled(g_cell(up, g, first), 256)).minus(
        g_cell(up, g, second),
    )
}

/// Zero if the byte at `whole` splits at `modulus` into the cells at `split` and after it.
pub open spec fn split_constraint<R: Ring>(
    up: Seq<R>,
    g: int,
    whole: int,
    split: int,
    modulus: int,
) -> R {
    g_cell(up, g, whole).minus(g_cell(up, g, split)).minus(
        scaled(g_cell(up, g, split + 1), modulus),
    )
}

/// The low carry of the three-word sum `a' = a + b + mx`. `b_lo` is the low limb of `b`.
pub open spec fn add1_carry_lo<R: Ring>(up: Seq<R>, g: int, a: int, b_lo: R) -> R {
    carry_of(
        up[state_column(a, 0)].plus(b_lo).plus(g_limb(up, g, G_MX_BYTES as int, G_MX_BYTES + 1)),
        g_limb(up, g, G_ADD1_BYTES as int, G_ADD1_BYTES + 1),
    )
}

/// The high carry of `a' = a + b + mx`.
pub open spec fn add1_carry_hi<R: Ring>(up: Seq<R>, g: int, a: int, b_lo: R, b_hi: R) -> R {
    carry_of(
        up[state_column(a, 1)].plus(b_hi).plus(
            g_limb(up, g, G_MX_BYTES + 2, G_MX_BYTES + 3),
        ).plus(add1_carry_lo(up, g, a, b_lo)),
        g_limb(up, g, G_ADD1_BYTES + 2, G_ADD1_BYTES + 3),
    )
}

/// Zero if the carries of `a' = a + b + mx` are 0, 1 or 2.
pub open spec fn first_sum_constraints<R: Ring>(
    up: Seq<R>,
    g: int,
    a: int,
    b_lo: R,
    b_hi: R,
) -> Seq<R> {
    seq![
        ternary_constraint(add1_carry_lo(up, g, a, b_lo)),
        ternary_constraint(add1_carry_hi(up, g, a, b_lo, b_hi)),
    ]
}

/// The low carry of `c' = c + d'`, where `d'` is the XOR with its limbs swapped.
pub open spec fn add2_carry_lo<R: Ring>(up: Seq<R>, g: int, c: int) -> R {
    carry_of(
        up[state_column(c, 0)].plus(g_limb(up, g, G_XOR2_BYTES + 2, G_XOR2_BYTES + 3)),
        g_limb(up, g, G_ADD2_BYTES as int, G_ADD2_BYTES + 1),
    )
}

/// The high carry of `c' = c + d'`.
pub open spec fn add2_carry_hi<R: Ring>(up: Seq<R>, g: int, c: int) -> R {
    carry_of(
        up[state_column(c, 1)].plus(g_limb(up, g, G_XOR2_BYTES as int, G_XOR2_BYTES + 1)).plus(
            add2_carry_lo(up, g, c),
        ),
        g_limb(up, g, G_ADD2_BYTES + 2, G_ADD2_BYTES + 3),
    )
}

/// The low carry of `c'' = c' + d''`, where `d''` is the XOR shifted by one byte.
pub open spec fn add4_carry_lo<R: Ring>(up: Seq<R>, g: int) -> R {
    carry_of(
        g_limb(up, g, G_ADD2_BYTES as int, G_ADD2_BYTES + 1).plus(
            g_limb(up, g, G_XOR6_BYTES + 1, G_XOR6_BYTES + 2),
        ),
        g_limb(up, g, G_ADD4_BYTES as int, G_ADD4_BYTES + 1),
    )
}

/// The high carry of `c'' = c' + d''`.
pub open spec fn add4_carry_hi<R: Ring>(up: Seq<R>, g: int) -> R {
    carry_of(
        g_limb(up, g, G_ADD2_BYTES + 2, G_ADD2_BYTES + 3).plus(
            g_limb(up, g, G_XOR6_BYTES + 3, G_XOR6_BYTES as int),
        ).plus(add4_carry_lo(up, g)),
        g_limb(up, g, G_ADD4_BYTES + 2, G_ADD4_BYTES + 3),
    )
}

/// The lookup address constraints of one XOR: byte `i` of the first operand is the cell at
/// `first[i]`, that of the second the one at `second + i`.
pub open spec fn xor_addr_constraints<R: Ring>(
    up: Seq<R>,
    g: int,
    base: R,
    addrs: int,
    first: Seq<int>,
    second: int,
) -> Seq<R> {
    Seq::new(4, |i: int| xor_addr_constraint(up, g, base, addrs + i, first[i], second + i))
}

/// The low nibble (`half` is 0) or the high one (`half` is 1) of byte `i` of `b ^ c'`.
pub open spec fn xor4_nibble<R: Ring>(up: Seq<R>, rot: Seq<R>, g: int, i: int, half: int) -> R {
    if i == 1 {
        g_cell(up, g, G_XOR4_SPLIT + half)
    } else if i == 0 {
        rot_cell(rot, g, G_XOR4_B0_SPLIT + half)
    } else if i == 2 {
        rot_cell(rot, g, G_XOR4_B2_SPLIT + half)
    } else {
        rot_cell(rot, g, G_XOR4_B3_SPLIT + half)
    }
}

/// Byte `i` of `b' = (b ^ c') >>> 12`: its low nibble is the high one of the next byte of `b ^ c'`,
/// and its high nibble the low one of the byte after that.
pub open spec fn b1_byte<R: Ring>(up: Seq<R>, rot: Seq<R>, g: int, i: int) -> R {
    xor4_nibble(up, rot, g, (i + 1) % 4, 1).plus(
        scaled(xor4_nibble(up, rot, g, (i + 2) % 4, 0), 16),
    )
}

/// Zero if the lookup address of byte `i` of the last XOR is that of the bytes of `b'` and `c''`.
#[verifier::opaque]
pub open spec fn last_addr_constraint<R: Ring>(
    up: Seq<R>,
    rot: Seq<R>,
    g: int,
    base: R,
    i: int,
) -> R {
    g_cell(up, g, G_XOR8_ADDRS + i).minus(base).minus(scaled(b1_byte(up, rot, g, i), 256)).minus(
        g_cell(up, g, G_ADD4_BYTES + i),
    )
}

/// The constraints of G-function `g` on the state words `a`, `b`, `c` and `d`. `rot` holds the
/// rotation columns of the row.
#[verifier::opaque]
pub open spec fn g_constraints<R: Ring>(
    up: Seq<R>,
    rot: Seq<R>,
    g: int,
    a: int,
    b: int,
    c: int,
    d: int,
    base: R,
) -> Seq<R> {
    seq![
        message_constraint(up, g, G_MX_VALUE as int, G_MX_BYTES as int),
        message_constraint(up, g, G_MY_VALUE as int, G_MY_BYTES as int),
    ] + first_sum_constraints(
        up,
        g,
        a,
        up[state_column(b, 0)],
        up[state_column(b, 1)],
    ) + seq![
        bytes_constraint(up, g, up[state_column(d, 0)], G_D_BYTES as int, G_D_BYTES + 1),
        bytes_constraint(up, g, up[state_column(d, 1)], G_D_BYTES + 2, G_D_BYTES + 3),
    ] + xor_addr_constraints(
        up,
        g,
        base,
        G_XOR2_ADDRS as int,
        seq![G_D_BYTES as int, G_D_BYTES + 1, G_D_BYTES + 2, G_D_BYTES + 3],
        G_ADD1_BYTES as int,
    ) + seq![
        bool_constraint(add2_carry_lo(up, g, c)),
        bool_constraint(add2_carry_hi(up, g, c)),
        bytes_constraint(up, g, up[state_column(b, 0)], G_B_BYTES as int, G_B_BYTES + 1),
        bytes_constraint(up, g, up[state_column(b, 1)], G_B_BYTES + 2, G_B_BYTES + 3),
    ] + xor_addr_constraints(
        up,
        g,
        base,
        G_XOR4_ADDRS as int,
        seq![G_B_BYTES as int, G_B_BYTES + 1, G_B_BYTES + 2, G_B_BYTES + 3],
        G_ADD2_BYTES as int,
    ) + seq![split_constraint(up, g, G_XOR4_BYTES + 1, G_XOR4_SPLIT as int, 16)]
        + xor_addr_constraints(
        up,
        g,
        base,
        G_XOR6_ADDRS as int,
        seq![G_XOR2_BYTES + 2, G_XOR2_BYTES + 3, G_XOR2_BYTES as int, G_XOR2_BYTES + 1],
        G_ADD3_BYTES as int,
    ) + Seq::new(4, |i: int| last_addr_constraint(up, rot, g, base, i)) + seq![
        split_constraint(up, g, G_XOR8_BYTES as int, G_XOR8_SPLIT as int, 128),
        bool_constraint(g_cell(up, g, G_XOR8_SPLIT + 1)),
        bool_constraint(add4_carry_lo(up, g)),
        bool_constraint(add4_carry_hi(up, g)),
    ]
}

fn cell<R: Ring>(up: &[R], g: usize, offset: usize) -> (r: R)
    requires
        up@.len() >= N_COMMITTED_COLS,
        g < 4,
        offset < 72,
    ensures
        r == g_cell(up@, g as int, offset as int),
{
    up[g_col(g, offset)]
}

fn rot_at<R: Ring>(rot: &[R], g: usize, offset: usize) -> (r: R)
    requires
        rot@.len() >= N_ROT_COLS,
        g < 4,
        offset < ROT_COLS_PER_G,
    ensures
        r == rot_cell(rot@, g as int, offset as int),
{
    rot[g * ROT_COLS_PER_G + offset]
}

fn scale<R: Ring>(x: R, k: u32) -> (r: R)
    ensures
        r == scaled(x, k as int),
{
    x.mul(R::from_u32(k))
}

fn limb_at<R: Ring>(up: &[R], g: usize, low: usize, high: usize) -> (r: R)
    requires
        up@.len() >= N_COMMITTED_COLS,
        g < 4,
        low < 72,
        high < 72,
    ensures
        r == g_limb(up@, g as int, low as int, high as int),
{
    cell(up, g, low).add(scale(cell(up, g, high), 256))
}

fn carry<R: Ring>(total: R, result: R) -> (r: R)
    ensures
        r == carry_of(total, result),
{
    scale(total.sub(result), INV_65536)
}

/// The expression that is zero exactly where `v` is asserted to be a bit.
pub fn bool_expr<R: Ring>(v: R) -> (r: R)
    ensures
        r == bool_constraint(v),
{
    v.mul(v.sub(R::one()))
}

fn ternary_expr<R: Ring>(v: R) -> (r: R)
    ensures
        r == ternary_constraint(v),
{
    v.mul(v.sub(R::one())).mul(v.sub(R::from_u32(2)))
}

fn message_expr<R: Ring>(up: &[R], g: usize, value: usize, bytes: usize) -> (r: R)
    requires
        up@.len() >= N_COMMITTED_COLS,
        g < 4,
        value < 72,
        bytes + 3 < 72,
    ensures
        r == message_constraint(up@, g as int, value as int, bytes as int),
{
    scale(cell(up, g, value), R_CONST).sub(cell(up, g, bytes)).sub(
        scale(cell(up, g, bytes + 1), 256),
    ).sub(scale(cell(up, g, bytes + 2), 65536)).sub(scale(cell(up, g, bytes + 3), 16777216))
}

fn bytes_expr<R: Ring>(up: &[R], g: usize, limb: R, low: usize, high: usize) -> (r: R)
    requires
        up@.len() >= N_COMMITTED_COLS,
        g < 4,
        low < 72,
        high < 72,
    ensures
        r == bytes_constraint(up@, g as int, limb, low as int, high as int),
{
    limb.sub(cell(up, g, low)).sub(scale(cell(up, g, high), 256))
}

fn split_expr<R: Ring>(up: &[R], g: usize, whole: usize, split: usize, modulus: u32) -> (r: R)
    requires
        up@.len() >= N_COMMITTED_COLS,
        g < 4,
        whole < 72,
        split + 1 < 72,
    ensures
        r == split_constraint(up@, g as int, whole as int, split as int, modulus as int),
{
    cell(up, g, whole).sub(cell(up, g, split)).sub(scale(cell(up, g, split + 1), modulus))
}

/// Appends the lookup address constraints of one XOR whose first operand's bytes start at
/// `first + shift` and wrap around after four.
fn push_xor_addrs<R: Ring>(
    constraints: &mut Vec<R>,
    up: &[R],
    g: usize,
    base: R,
    addrs: usize,
    first: usize,
    shift: usize,
    second: usize,
)
    requires
        up@.len() >= N_COMMITTED_COLS,
        g < 4,
        shift < 4,
        addrs + 4 <= 72,
        first + 4 <= 72,
        second + 4 <= 72,
    ensures
        final(constraints)@ == old(constraints)@ + xor_addr_constraints(
            up@,
            g as int,
            base,
            addrs as int,
            Seq::new(4, |i: int| first + (i + shift) % 4),
            second as int,
        ),
{
    let ghost start = constraints@;
    let ghost firsts = Seq::new(4, |i: int| first + (i + shift) % 4);
    let ghost all = xor_addr_constraints(up@, g as int, base, addrs as int, firsts, second as int);
    let mut i: usize = 0;
    assert(constraints@ =~= start + all.take(0));
    while i < 4
        invariant
            i <= 4,
            up@.len() >= N_COMMITTED_COLS,
            g < 4,
            shift < 4,
            addrs + 4 <= 72,
            first + 4 <= 72,
            second + 4 <= 72,
            firsts == Seq::new(4, |i: int| first + (i + shift) % 4),
            all == xor_addr_constraints(
                up@,
                g as int,
                base,
                addrs as int,
                firsts,
                second as int,
            ),
            constraints@ == start + all.take(i as int),
        decreases 4 - i,
    {
        let first_byte = cell(up, g, first + (i + shift) % 4);
        let second_byte = cell(up, g, second + i);
        let addr = cell(up, g, addrs + i);
        constraints.push(addr.sub(base).sub(scale(first_byte, 256)).sub(second_byte));
        assert(all.take(i + 1) =~= all.take(i as int).push(all[i as int]));
        assert(constraints@ =~= start + all.take(i + 1));
        i += 1;
    }
    assert(all.take(4) =~= all);
}

fn nibble_at<R: Ring>(up: &[R], rot: &[R], g: usize, i: usize, half: usize) -> (r: R)
    requires
        up@.len() >= N_COMMITTED_COLS,
        rot@.len() >= N_ROT_COLS,
        g < 4,
        i < 4,
        half < 2,
    ensures
        r == xor4_nibble(up@, rot@, g as int, i as int, half as int),
{
    if i == 1 {
        cell(up, g, G_XOR4_SPLIT + half)
    } else if i == 0 {
        rot_at(rot, g, G_XOR4_B0_SPLIT + half)
    } else if i == 2 {
        rot_at(rot, g, G_XOR4_B2_SPLIT + half)
    } else {
        rot_at(rot, g, G_XOR4_B3_SPLIT + half)
    }
}

/// Appends the lookup address constraints of the last XOR.
fn push_last_addrs<R: Ring>(constraints: &mut Vec<R>, up: &[R], rot: &[R], g: usize, base: R)
    requires
        up@.len() >= N_COMMITTED_COLS,
        rot@.len() >= N_ROT_COLS,
        g < 4,
    ensures
        final(constraints)@ == old(constraints)@ + Seq::new(
            4,
            |i: int| last_addr_constraint(up@, rot@, g as int, base, i),
        ),
{
    let ghost start = constraints@;
    let ghost all = Seq::new(4, |i: int| last_addr_constraint(up@, rot@, g as int, base, i));
    let mut i: usize = 0;
    assert(constraints@ =~= start + all.take(0));
    while i < 4
        invariant
            i <= 4,
            up@.len() >= N_COMMITTED_COLS,
            rot@.len() >= N_ROT_COLS,
            g < 4,
            all == Seq::new(4, |i: int| last_addr_constraint(up@, rot@, g as int, base, i)),
            constraints@ == start + all.take(i as int),
        decreases 4 - i,
    {
        let low = nibble_at(up, rot, g, (i + 1) % 4, 1);
        let high = nibble_at(up, rot, g, (i + 2) % 4, 0);
        let b1 = low.add(scale(high, 16));
        let addr = cell(up, g, G_XOR8_ADDRS + i);
        constraints.push(
            addr.sub(base).sub(scale(b1, 256)).sub(cell(up, g, G_ADD4_BYTES + i)),
        );
        reveal(last_addr_constraint);
        assert(all.take(i + 1) =~= all.take(i as int).push(all[i as int]));
        assert(constraints@ =~= start + all.take(i + 1));
        i += 1;
    }
    assert(all.take(4) =~= all);
}

/// The carries of `a' = a + b + mx`, where `b_lo` and `b_hi` are the limbs of `b`.
fn first_sum_carries<R: Ring>(up: &[R], g: usize, a_idx: usize, b_lo: R, b_hi: R) -> (r: (R, R))
    requires
        up@.len() >= N_COMMITTED_COLS,
        g < 4,
        a_idx < 16,
    ensures
        r.0 == add1_carry_lo(up@, g as int, a_idx as int, b_lo),
        r.1 == add1_carry_hi(up@, g as int, a_idx as int, b_lo, b_hi),
{
    let carry_lo = carry(
        up[state_col(a_idx, 0)].add(b_lo).add(limb_at(up, g, G_MX_BYTES, G_MX_BYTES + 1)),
        limb_at(up, g, G_ADD1_BYTES, G_ADD1_BYTES + 1),
    );
    let carry_hi = carry(
        up[state_col(a_idx, 1)].add(b_hi).add(
            limb_at(up, g, G_MX_BYTES + 2, G_MX_BYTES + 3),
        ).add(carry_lo),
        limb_at(up, g, G_ADD1_BYTES + 2, G_ADD1_BYTES + 3),
    );
    (carry_lo, carry_hi)
}

/// The constraints of one G-function within a half-round row: every one is zero on a row that
/// holds the values of the G-function. `up` is the row, `rot` holds its rotation columns, `g` is the
/// index of the G-function, and the other indices are those of its state words.
pub fn g_function_constraints<R: Ring>(
    up: &[R],
    rot: &[R],
    g: usize,
    a_idx: usize,
    b_idx: usize,
    c_idx: usize,
    d_idx: usize,
    xor_table_base: R,
) -> (r: Vec<R>)
    requires
        up@.len() >= N_COMMITTED_COLS,
        rot@.len() >= N_ROT_COLS,
        g < 4,
        a_idx < 16,
        b_idx < 16,
        c_idx < 16,
        d_idx < 16,
    ensures
        r@ == g_constraints(
            up@,
            rot@,
            g as int,
            a_idx as int,
            b_idx as int,
            c_idx as int,
            d_idx as int,
            xor_table_base,
        ),
{
    let mut constraints: Vec<R> = Vec::new();
    constraints.push(message_expr(up, g, G_MX_VALUE, G_MX_BYTES));
    constraints.push(message_expr(up, g, G_MY_VALUE, G_MY_BYTES));

    let b_lo = up[state_col(b_idx, 0)];
    let b_hi = up[state_col(b_idx, 1)];
    let (carry1_lo, carry1_hi) = first_sum_carries(up, g, a_idx, b_lo, b_hi);
    constraints.push(ternary_expr(carry1_lo));
    constraints.push(ternary_expr(carry1_hi));

    let d_lo = up[state_col(d_idx, 0)];
    let d_hi = up[state_col(d_idx, 1)];
    constraints.push(bytes_expr(up, g, d_lo, G_D_BYTES, G_D_BYTES + 1));
    constraints.push(bytes_expr(up, g, d_hi, G_D_BYTES + 2, G_D_BYTES + 3));
    push_xor_addrs(
        &mut constraints,
        up,
        g,
        xor_table_base,
        G_XOR2_ADDRS,
        G_D_BYTES,
        0,
        G_ADD1_BYTES,
    );

    let carry2_lo = carry(
        up[state_col(c_idx, 0)].add(limb_at(up, g, G_XOR2_BYTES + 2, G_XOR2_BYTES + 3)),
        limb_at(up, g, G_ADD2_BYTES, G_ADD2_BYTES + 1),
    );
    constraints.push(bool_expr(carry2_lo));
    let carry2_hi = carry(
        up[state_col(c_idx, 1)].add(limb_at(up, g, G_XOR2_BYTES, G_XOR2_BYTES + 1)).add(carry2_lo),
        limb_at(up, g, G_ADD2_BYTES + 2, G_ADD2_BYTES + 3),
    );
    constraints.push(bool_expr(carry2_hi));

    constraints.push(bytes_expr(up, g, b_lo, G_B_BYTES, G_B_BYTES + 1));
    constraints.push(bytes_expr(up, g, b_hi, G_B_BYTES + 2, G_B_BYTES + 3));
    push_xor_addrs(
        &mut constraints,
        up,
        g,
        xor_table_base,
        G_XOR4_ADDRS,
        G_B_BYTES,
        0,
        G_ADD2_BYTES,
    );
    constraints.push(split_expr(up, g, G_XOR4_BYTES + 1, G_XOR4_SPLIT, 16));

    push_xor_addrs(
        &mut constraints,
        up,
        g,
        xor_table_base,
        G_XOR6_ADDRS,
        G_XOR2_BYTES,
        2,
        G_ADD3_BYTES,
    );
    push_last_addrs(&mut constraints, up, rot, g, xor_table_base);
    constraints.push(split_expr(up, g, G_XOR8_BYTES, G_XOR8_SPLIT, 128));
    constraints.push(bool_expr(cell(up, g, G_XOR8_SPLIT + 1)));

    let carry4_lo = carry(
        limb_at(up, g, G_ADD2_BYTES, G_ADD2_BYTES + 1).add(
            limb_at(up, g, G_XOR6_BYTES + 1, G_XOR6_BYTES + 2),
        ),
        limb_at(up, g, G_ADD4_BYTES, G_ADD4_BYTES + 1),
    );
    constraints.push(bool_expr(carry4_lo));
    let carry4_hi = carry(
        limb_at(up, g, G_ADD2_BYTES + 2, G_ADD2_BYTES + 3).add(
            limb_at(up, g, G_XOR6_BYTES + 3, G_XOR6_BYTES),
        ).add(carry4_lo),
        limb_at(up, g, G_ADD4_BYTES + 2, G_ADD4_BYTES + 3),
    );
    constraints.push(bool_expr(carry4_hi));
    proof {
        reveal(g_constraints);
        assert(seq![G_D_BYTES as int, G_D_BYTES + 1, G_D_BYTES + 2, G_D_BYTES + 3] =~= Seq::new(
            4,
            |i: int| G_D_BYTES + (i + 0) % 4,
        ));
        assert(seq![G_B_BYTES as int, G_B_BYTES + 1, G_B_BYTES + 2, G_B_BYTES + 3] =~= Seq::new(
            4,
            |i: int| G_B_BYTES + (i + 0) % 4,
        ));
        assert(seq![
            G_XOR2_BYTES + 2,
            G_XOR2_BYTES + 3,
            G_XOR2_BYTES as int,
            G_XOR2_BYTES + 1,
        ] =~= Seq::new(4, |i: int| G_XOR2_BYTES + (i + 2) % 4));
        assert(constraints@ =~= g_constraints(
            up@,
            rot@,
            g as int,
            a_idx as int,
            b_idx as int,
            c_idx as int,
            d_idx as int,
            xor_table_base,
        ));
    }
    constraints
}

/// `x` where `flag` is 1, and `y` where it is 0.
pub open spec fn selected<R: Ring>(flag: R, x: R, y: R) -> R {
    flag.times(x).plus(R::ring_one().minus(flag).times(y))
}

/// The positions in [`g_constraints`] of those that read the state words `b`, `c` or `d`, behind
/// the first sum. Word `a` is the same one in column and diagonal quarter-rounds.
pub open spec fn reads_moving_words(i: int) -> bool {
    4 <= i < 6 || 10 <= i < 14
}

/// The constraints of G-function `g` of a row, whichever quarter-round the row is. Those on the
/// words `b`, `c` and `d` are selected by the flag of column quarter-rounds, each as a whole. The
/// first sum takes `b` from its bytes, which keeps the degree at three.
#[verifier::opaque]
pub open spec fn quarter_round_constraints<R: Ring>(
    up: Seq<R>,
    rot: Seq<R>,
    g: int,
    base: R,
) -> Seq<R> {
    let (col, diag) = (col_qr(g), diag_qr(g));
    let on_col = g_constraints(up, rot, g, col.0, col.1, col.2, col.3, base);
    let on_diag = g_constraints(up, rot, g, diag.0, diag.1, diag.2, diag.3, base);
    let first_sum = first_sum_constraints(
        up,
        g,
        col.0,
        g_limb(up, g, G_B_BYTES as int, G_B_BYTES + 1),
        g_limb(up, g, G_B_BYTES + 2, G_B_BYTES + 3),
    );
    Seq::new(
        31,
        |i: int|
            if 2 <= i < 4 {
                first_sum[i - 2]
            } else if reads_moving_words(i) {
                selected(up[COL_IS_COLUMN_QR as int], on_col[i], on_diag[i])
            } else {
                on_col[i]
            },
    )
}

pub proof fn lemma_g_constraints_len<R: Ring>(
    up: Seq<R>,
    rot: Seq<R>,
    g: int,
    a: int,
    b: int,
    c: int,
    d: int,
    base: R,
)
    ensures
        g_constraints(up, rot, g, a, b, c, d, base).len() == 31,
{
    reveal(g_constraints);
}

/// The constraints of G-function `g` of a row, whichever quarter-round the row is.
pub fn quarter_round_function_constraints<R: Ring>(
    up: &[R],
    rot: &[R],
    g: usize,
    xor_table_base: R,
) -> (r: Vec<R>)
    requires
        up@.len() >= N_COMMITTED_COLS,
        rot@.len() >= N_ROT_COLS,
        g < 4,
    ensures
        r@ == quarter_round_constraints(up@, rot@, g as int, xor_table_base),
{
    let (a, b, c, d) = col_qr_indices(g);
    let on_col = g_function_constraints(up, rot, g, a, b, c, d, xor_table_base);
    let (a_diag, b_diag, c_diag, d_diag) = diag_qr_indices(g);
    let on_diag = g_function_constraints(
        up,
        rot,
        g,
        a_diag,
        b_diag,
        c_diag,
        d_diag,
        xor_table_base,
    );
    let (carry_lo, carry_hi) = first_sum_carries(
        up,
        g,
        a,
        limb_at(up, g, G_B_BYTES, G_B_BYTES + 1),
        limb_at(up, g, G_B_BYTES + 2, G_B_BYTES + 3),
    );
    let flag = up[COL_IS_COLUMN_QR];
    let not_flag = R::one().sub(flag);
    let ghost all = quarter_round_constraints(up@, rot@, g as int, xor_table_base);
    proof {
        let (w, v) = (col_qr(g as int), diag_qr(g as int));
        lemma_g_constraints_len(up@, rot@, g as int, w.0, w.1, w.2, w.3, xor_table_base);
        lemma_g_constraints_len(up@, rot@, g as int, v.0, v.1, v.2, v.3, xor_table_base);
        reveal(quarter_round_constraints);
        assert forall|j: int| 0 <= j < 31 implies #[trigger] all[j] == if j == 2 {
            ternary_constraint(carry_lo)
        } else if j == 3 {
            ternary_constraint(carry_hi)
        } else if reads_moving_words(j) {
            selected(flag, on_col@[j], on_diag@[j])
        } else {
            on_col@[j]
        } by {}
        assert(all.len() == 31);
    }
    let mut constraints: Vec<R> = Vec::new();
    let mut i: usize = 0;
    while i < 31
        invariant
            i <= 31,
            on_col@.len() == 31,
            on_diag@.len() == 31,
            not_flag == R::ring_one().minus(flag),
            all.len() == 31,
            forall|j: int|
                0 <= j < 31 ==> #[trigger] all[j] == if j == 2 {
                    ternary_constraint(carry_lo)
                } else if j == 3 {
                    ternary_constraint(carry_hi)
                } else if reads_moving_words(j) {
                    selected(flag, on_col@[j], on_diag@[j])
                } else {
                    on_col@[j]
                },
            constraints@.len() == i,
            forall|j: int| 0 <= j < i ==> #[trigger] constraints@[j] == all[j],
        decreases 31 - i,
    {
        let constraint = if i == 2 {
            ternary_expr(carry_lo)
        } else if i == 3 {
            ternary_expr(carry_hi)
        } else if 4 <= i && i < 6 || 10 <= i && i < 14 {
            flag.mul(on_col[i]).add(not_flag.mul(on_diag[i]))
        } else {
            on_col[i]
        };
        constraints.push(constraint);
        assert(constraint == all[i as int]);
        i += 1;
    }
    assert(constraints@ =~= all);
    constraints
}

/// The limbs of the words G-function `g` leaves behind, in the order `a''`, `b''`, `c''`, `d''`.
///
/// `b''` is the last XOR rotated by 7: its low limb is made up of the top bit of byte 0, byte 1
/// and byte 2, less the bit that crosses into the high limb.
#[verifier::opaque]
pub open spec fn g_outputs<R: Ring>(up: Seq<R>, rot: Seq<R>, g: int) -> Seq<(R, R)> {
    let crossing = rot_cell(rot, g, G_CARRY_ROT7 as int);
    seq![
        (
            g_limb(up, g, G_ADD3_BYTES as int, G_ADD3_BYTES + 1),
            g_limb(up, g, G_ADD3_BYTES + 2, G_ADD3_BYTES + 3),
        ),
        (
            g_cell(up, g, G_XOR8_SPLIT + 1).plus(scaled(g_cell(up, g, G_XOR8_BYTES + 1), 2)).plus(
                scaled(g_cell(up, g, G_XOR8_BYTES + 2), 512),
            ).minus(scaled(crossing, 65536)),
            crossing.plus(scaled(g_cell(up, g, G_XOR8_BYTES + 3), 2)).plus(
                scaled(g_cell(up, g, G_XOR8_SPLIT as int), 512),
            ),
        ),
        (
            g_limb(up, g, G_ADD4_BYTES as int, G_ADD4_BYTES + 1),
            g_limb(up, g, G_ADD4_BYTES + 2, G_ADD4_BYTES + 3),
        ),
        (
            g_limb(up, g, G_XOR6_BYTES + 1, G_XOR6_BYTES + 2),
            g_limb(up, g, G_XOR6_BYTES + 3, G_XOR6_BYTES as int),
        ),
    ]
}

/// The constraints of the rotation columns: the crossing bit is a bit, and byte 3 of `b ^ c'`
/// splits into its nibbles.
pub open spec fn rotation_constraints<R: Ring>(up: Seq<R>, rot: Seq<R>, g: int) -> Seq<R> {
    seq![
        bool_constraint(rot_cell(rot, g, G_CARRY_ROT7 as int)),
        g_cell(up, g, G_XOR4_BYTES + 3).minus(rot_cell(rot, g, G_XOR4_B3_SPLIT as int)).minus(
            scaled(rot_cell(rot, g, G_XOR4_B3_SPLIT + 1), 16),
        ),
    ]
}

/// The limbs of the words a G-function leaves behind, and the constraints of its rotation
/// columns.
pub fn g_function_outputs<R: Ring>(up: &[R], rot: &[R], g: usize) -> (r: ([(R, R); 4], Vec<R>))
    requires
        up@.len() >= N_COMMITTED_COLS,
        rot@.len() >= N_ROT_COLS,
        g < 4,
    ensures
        r.0@ == g_outputs(up@, rot@, g as int),
        r.1@ == rotation_constraints(up@, rot@, g as int),
{
    let mut constraints: Vec<R> = Vec::new();
    let a_out_lo = limb_at(up, g, G_ADD3_BYTES, G_ADD3_BYTES + 1);
    let a_out_hi = limb_at(up, g, G_ADD3_BYTES + 2, G_ADD3_BYTES + 3);
    let c_out_lo = limb_at(up, g, G_ADD4_BYTES, G_ADD4_BYTES + 1);
    let c_out_hi = limb_at(up, g, G_ADD4_BYTES + 2, G_ADD4_BYTES + 3);
    let d_out_lo = limb_at(up, g, G_XOR6_BYTES + 1, G_XOR6_BYTES + 2);
    let d_out_hi = limb_at(up, g, G_XOR6_BYTES + 3, G_XOR6_BYTES);
    let carry_rot7 = rot_at(rot, g, G_CARRY_ROT7);
    let b_out_lo = cell(up, g, G_XOR8_SPLIT + 1).add(scale(cell(up, g, G_XOR8_BYTES + 1), 2)).add(
        scale(cell(up, g, G_XOR8_BYTES + 2), 512),
    ).sub(scale(carry_rot7, 65536));
    let b_out_hi = carry_rot7.add(scale(cell(up, g, G_XOR8_BYTES + 3), 2)).add(
        scale(cell(up, g, G_XOR8_SPLIT), 512),
    );
    constraints.push(bool_expr(carry_rot7));
    let xor4_b3_lo = rot_at(rot, g, G_XOR4_B3_SPLIT);
    let xor4_b3_hi = rot_at(rot, g, G_XOR4_B3_SPLIT + 1);
    constraints.push(cell(up, g, G_XOR4_BYTES + 3).sub(xor4_b3_lo).sub(scale(xor4_b3_hi, 16)));
    let outputs = [
        (a_out_lo, a_out_hi),
        (b_out_lo, b_out_hi),
        (c_out_lo, c_out_hi),
        (d_out_lo, d_out_hi),
    ];
    reveal(g_outputs);
    assert(outputs@ =~= g_outputs(up@, rot@, g as int));
    assert(constraints@ =~= rotation_constraints(up@, rot@, g as int));
    (outputs, constraints)
}

/// The number of constraints of one G-function.
pub fn constraints_per_g() -> (r: usize)
    ensures
        r == 31,
{
    let message_bytes: usize = 2;
    let step1_carries: usize = 2;
    let step2_bytes: usize = 2;
    let step2_addresses: usize = 4;
    let step3_carries: usize = 2;
    let step4_bytes: usize = 2;
    let step4_addresses: usize = 4;
    let step4_split: usize = 1;
    let step6_addresses: usize = 4;
    let step8_addresses: usize = 4;
    let step8_split: usize = 2;
    let step7_carries: usize = 2;
    message_bytes + step1_carries + step2_bytes + step2_addresses + step3_carries + step4_bytes
        + step4_addresses + step4_split + step6_addresses + step8_addresses + step8_split
        + step7_carries
}

/// The number of constraints of a row: those of four G-functions, four control bits and the bus.
pub fn total_constraints_per_row() -> (r: usize)
    ensures
        r == 129,
{
    4 * constraints_per_g() + 4 + 1
}

} // verus!
