//! Merkle commitments to the rows of a matrix.

use crate::blake3_hash::{
    blake3_compress, blake3_digest, blake3_digest_to_field, bytes_to_elements, compress_spec,
    element_bytes, hash_bytes, lemma_element_bytes, push_elements,
};
use crate::field::{kb, KoalaBear, Ring};
use crate::math::{
    is_log2_ceil, lemma_log2_ceil_unique, lemma_log2_of_pow2, log2_ceil_usize,
};
use crate::symmetric::merkle::{
    climb, digests, digests_equal, law_open_then_climb, path_root, sibling, MerkleTree, Truncated,
    TwoToOne,
};
pub use crate::symmetric::merkle::DIGEST_ELEMS;
use crate::symmetric::permutation::Compression;
use crate::symmetric::sponge::{
    absorbed, hash_rtl_iter_with_initial_state, hash_spec, iv_state, law_absorb_in_parts,
    law_absorb_zeros, precompute_zero_suffix_state, zero_chunks, zeros,
};
use crate::whir::matrix::{DenseMatrix, Dimensions};
use vstd::arithmetic::power2::pow2;
use vstd::prelude::*;

verus! {

/// `row` with zeros behind it, up to length `n`.
pub open spec fn padded<R: Ring>(row: Seq<R>, n: int) -> Seq<R> {
    row + zeros(n - row.len())
}

/// The Blake3 digest of a leaf.
pub open spec fn leaf_digest(leaf: Seq<KoalaBear>) -> Seq<KoalaBear> {
    bytes_to_elements(blake3_digest(element_bytes(leaf)), 8)
}

/// Joins two digests with Blake3.
#[derive(Clone, Copy, Debug)]
pub struct Blake3Join;

impl TwoToOne<KoalaBear, DIGEST_ELEMS> for Blake3Join {
    open spec fn ready(&self) -> bool {
        true
    }

    open spec fn joined(&self, left: Seq<KoalaBear>, right: Seq<KoalaBear>) -> Seq<KoalaBear> {
        compress_spec(left, right)
    }

    fn join(&self, left: [KoalaBear; DIGEST_ELEMS], right: [KoalaBear; DIGEST_ELEMS]) -> (r: [
    KoalaBear; DIGEST_ELEMS]) {
        blake3_compress(&left, &right)
    }
}

/// The bytes of zeros are zeros.
proof fn lemma_bytes_of_zeros(row: Seq<KoalaBear>, n: int)
    requires
        n >= 0,
    ensures
        element_bytes(row + zeros(n)) == element_bytes(row) + Seq::new((4 * n) as nat, |i: int| 0u8),
    decreases n,
{
    if n == 0 {
        assert(row + zeros::<KoalaBear>(0) =~= row);
        assert(element_bytes(row) =~= element_bytes(row) + Seq::new(0, |i: int| 0u8));
    } else {
        lemma_bytes_of_zeros(row, n - 1);
        let s = row + zeros::<KoalaBear>(n);
        assert(s.drop_last() =~= row + zeros::<KoalaBear>(n - 1));
        assert(s.last() == kb(0));
        assert(crate::field::monty(kb(0)) == 0);
        assert(crate::word::le_bytes(0) =~= Seq::new(4, |i: int| 0u8));
        assert(element_bytes(s) =~= element_bytes(row) + Seq::new((4 * n) as nat, |i: int| 0u8));
    }
}

/// The Blake3 digest of a row, padded with zeros to `full_base_width` elements.
fn blake3_leaf_hash(row: &[KoalaBear], full_base_width: usize) -> (r: [KoalaBear; DIGEST_ELEMS])
    requires
        row@.len() <= full_base_width,
        4 * full_base_width <= usize::MAX,
    ensures
        r@ == leaf_digest(padded(row@, full_base_width as int)),
{
    let mut buf: Vec<u8> = Vec::new();
    push_elements(&mut buf, row);
    let ghost n = full_base_width - row@.len();
    proof {
        lemma_element_bytes(row@);
        lemma_bytes_of_zeros(row@, n);
        assert(buf@ =~= element_bytes(row@));
    }
    let byte_len: usize = full_base_width * 4;
    while buf.len() < byte_len
        invariant
            4 * row@.len() <= buf@.len() <= byte_len,
            byte_len == 4 * full_base_width,
            buf@ == element_bytes(row@) + Seq::new((buf@.len() - 4 * row@.len()) as nat, |i: int| 0u8),
            element_bytes(row@).len() == 4 * row@.len(),
        decreases byte_len - buf@.len(),
    {
        buf.push(0u8);
        assert(buf@ =~= element_bytes(row@) + Seq::new(
            (buf@.len() - 4 * row@.len()) as nat,
            |i: int| 0u8,
        ));
    }
    assert(buf@ =~= element_bytes(padded(row@, full_base_width as int)));
    let hash = hash_bytes(buf.as_slice());
    blake3_digest_to_field(&hash)
}

/// The digests of the rows of a matrix, each padded to `full` elements.
pub open spec fn row_digests(matrix: DenseMatrix<KoalaBear>, full: int) -> Seq<Seq<KoalaBear>> {
    Seq::new(matrix.rows() as nat, |i: int| leaf_digest(padded(matrix.row_spec(i), full)))
}

/// The first layer of a Blake3 tree: the digests of the padded rows.
fn first_digest_layer_blake3(matrix: &DenseMatrix<KoalaBear>, full_base_width: usize) -> (r: Vec<
    [KoalaBear; DIGEST_ELEMS],
>)
    requires
        matrix.wf(),
        matrix.width <= full_base_width,
        4 * full_base_width <= usize::MAX,
    ensures
        digests(r@) == row_digests(*matrix, full_base_width as int),
{
    let height: usize = matrix.height();
    let mut out: Vec<[KoalaBear; DIGEST_ELEMS]> = Vec::new();
    let mut i: usize = 0;
    while i < height
        invariant
            i <= height,
            height == matrix.rows(),
            matrix.wf(),
            matrix.width <= full_base_width,
            4 * full_base_width <= usize::MAX,
            out@.len() == i,
            forall|j: int|
                0 <= j < i ==> (#[trigger] out@[j])@ == leaf_digest(
                    padded(matrix.row_spec(j), full_base_width as int),
                ),
        decreases height - i,
    {
        let row = matrix.row(i);
        proof {
            matrix.lemma_row_bounds(i as int);
        }
        out.push(blake3_leaf_hash(row.as_slice(), full_base_width));
        i += 1;
    }
    assert(digests(out@) =~= row_digests(*matrix, full_base_width as int));
    out
}

/// Checks that `opened_values` are the leaf at `index` of the Blake3 tree with root `commit`.
fn merkle_verify_blake3(
    commit: &[KoalaBear; DIGEST_ELEMS],
    log_height: usize,
    index: usize,
    opened_values: &[KoalaBear],
    opening_proof: &[[KoalaBear; DIGEST_ELEMS]],
) -> (r: bool)
    requires
        4 * opened_values@.len() <= usize::MAX,
    ensures
        r <==> opening_proof@.len() == log_height && commit@ == path_root::<
            KoalaBear,
            Blake3Join,
            DIGEST_ELEMS,
        >(Blake3Join, leaf_digest(opened_values@), index as int, digests(opening_proof@)),
{
    if opening_proof.len() != log_height {
        return false;
    }
    assert(padded(opened_values@, opened_values@.len() as int) =~= opened_values@);
    let leaf = blake3_leaf_hash(opened_values, opened_values.len());
    let join = Blake3Join;
    let root = climb::<KoalaBear, Blake3Join, DIGEST_ELEMS>(&join, leaf, index, opening_proof);
    digests_equal(commit, &root)
}

/// A Merkle tree with the matrix whose rows are its leaves. Leaves count as padded with zeros to
/// `full_leaf_base_width` elements.
#[derive(Debug)]
pub struct WhirMerkleTree<R, const D: usize> {
    pub leaf: DenseMatrix<R>,
    pub tree: MerkleTree<R, D>,
    pub full_leaf_base_width: usize,
}

/// The tree over the matrix of a folding round.
pub type RoundMerkleTree = WhirMerkleTree<KoalaBear, DIGEST_ELEMS>;

impl<R: Ring, const D: usize> WhirMerkleTree<R, D> {
    /// The parts fit together: there is a root, and the rows fit into the leaves.
    pub open spec fn wf(self) -> bool {
        &&& self.leaf.wf()
        &&& self.tree.rooted()
        &&& self.leaf.width <= self.full_leaf_base_width
    }

    /// Builds a tree whose leaves are hashed with a sponge. Where at least two chunks of a padded
    /// row are known to be zero, its first `effective_base_width` elements are hashed onto a state
    /// that has absorbed the zeros.
    pub fn new<Perm: Compression<R, WIDTH>, const WIDTH: usize, const RATE: usize>(
        perm: &Perm,
        leaf: DenseMatrix<R>,
        full_leaf_base_width: usize,
        effective_base_width: usize,
    ) -> (r: Self)
        requires
            leaf.wf(),
            leaf.rows() > 0,
            RATE == D,
            WIDTH == D + RATE,
            RATE > 0,
            effective_base_width <= leaf.width <= full_leaf_base_width,
            full_leaf_base_width % RATE == 0,
        ensures
            r.wf(),
            r.leaf == leaf,
            r.full_leaf_base_width == full_leaf_base_width,
            r.tree.is_tree_of(
                Truncated::<Perm, WIDTH> { comp: perm },
                sponge_digests::<R, Perm, WIDTH>(
                    *perm,
                    leaf,
                    full_leaf_base_width as int,
                    effective_base_width as int,
                    RATE as int,
                    D as int,
                ),
            ),
    {
        let n_zero_chunks: usize = (full_leaf_base_width - effective_base_width) / RATE;
        let first_layer = if n_zero_chunks >= 2 {
            let state = precompute_zero_suffix_state::<R, Perm, WIDTH, RATE, D>(
                perm,
                R::from_usize(full_leaf_base_width),
                n_zero_chunks,
            );
            first_digest_layer_with_initial_state::<R, Perm, D, WIDTH, RATE>(
                perm,
                &leaf,
                &state,
                effective_base_width,
                full_leaf_base_width,
            )
        } else {
            first_digest_layer::<R, Perm, D, WIDTH, RATE>(perm, &leaf, full_leaf_base_width)
        };
        let ghost first = digests(first_layer@);
        assert(first =~= sponge_digests::<R, Perm, WIDTH>(
            *perm,
            leaf,
            full_leaf_base_width as int,
            effective_base_width as int,
            RATE as int,
            D as int,
        ));
        assert(first.len() == first_layer@.len());
        let tree = MerkleTree::<R, D>::from_first_layer::<Perm, WIDTH>(perm, first_layer);
        WhirMerkleTree { leaf, tree, full_leaf_base_width }
    }

    /// The digest at the top.
    pub fn root(&self) -> (r: [R; D])
        requires
            self.wf(),
        ensures
            r@ == self.tree.root_spec(),
    {
        self.tree.root()
    }

    /// The padded row at `index` and the siblings along its path.
    pub fn open(&self, index: usize) -> (r: (Vec<R>, Vec<[R; D]>))
        requires
            self.wf(),
            index < self.leaf.rows(),
            forall|k: nat|
                #[trigger] is_log2_ceil(self.leaf.rows(), k) ==> self.tree.has_siblings(
                    index as int,
                    k as int,
                ),
        ensures
            r.0@ == padded(self.leaf.row_spec(index as int), self.full_leaf_base_width as int),
            is_log2_ceil(self.leaf.rows(), r.1@.len()),
            forall|i: int|
                0 <= i < r.1@.len() ==> #[trigger] r.1@[i]
                    == self.tree.digest_layers@[i]@[sibling(index as int, i)],
    {
        let log_height: usize = log2_ceil_usize(self.leaf.height());
        let mut opening = self.leaf.row(index);
        let ghost row = self.leaf.row_spec(index as int);
        proof {
            self.leaf.lemma_row_bounds(index as int);
            assert(row.len() == self.leaf.width);
            assert(opening@ =~= padded(row, row.len() as int));
        }
        while opening.len() < self.full_leaf_base_width
            invariant
                row.len() <= opening@.len() <= self.full_leaf_base_width,
                opening@ == padded(row, opening@.len() as int),
            decreases self.full_leaf_base_width - opening@.len(),
        {
            opening.push(R::zero());
            assert(opening@ =~= padded(row, opening@.len() as int));
        }
        assert(self.tree.has_siblings(index as int, (log_height as nat) as int));
        let proof_path = self.tree.open_siblings(index, log_height);
        (opening, proof_path)
    }
}

/// The row that is hashed for leaf `i`: only its first `effective` elements where at least two
/// chunks of the padded row lie behind them.
pub open spec fn hashed_row<R: Ring>(
    leaf: DenseMatrix<R>,
    full: int,
    effective: int,
    rate: int,
    i: int,
) -> Seq<R> {
    if (full - effective) / rate >= 2 {
        padded(leaf.row_spec(i).take(effective), full)
    } else {
        padded(leaf.row_spec(i), full)
    }
}

/// The sponge digests of the rows of a matrix.
pub open spec fn sponge_digests<R: Ring, Perm: Compression<R, WIDTH>, const WIDTH: usize>(
    perm: Perm,
    leaf: DenseMatrix<R>,
    full: int,
    effective: int,
    rate: int,
    out: int,
) -> Seq<Seq<R>> {
    Seq::new(
        leaf.rows() as nat,
        |i: int|
            hash_spec::<R, Perm, WIDTH>(
                perm,
                hashed_row(leaf, full, effective, rate, i),
                rate,
                out,
            ),
    )
}

/// Hashing a row's elements from right to left onto a state that has absorbed zeros gives the hash
/// of the padded row.
proof fn lemma_zeros_then_row<R: Ring, Perm: Compression<R, WIDTH>, const WIDTH: usize>(
    perm: Perm,
    row: Seq<R>,
    full: int,
    n_chunks: int,
    rate: int,
    items: Seq<R>,
)
    requires
        rate > 0,
        n_chunks >= 0,
        items == zeros(full - row.len() - n_chunks * rate) + row.reverse(),
        full - row.len() - n_chunks * rate >= 0,
    ensures
        absorbed::<R, Perm, WIDTH>(
            perm,
            zero_chunks::<R, Perm, WIDTH>(
                perm,
                iv_state(R::of(full), WIDTH as int),
                rate,
                n_chunks,
            ),
            items,
            rate,
        ) == absorbed::<R, Perm, WIDTH>(
            perm,
            iv_state(R::of(full), WIDTH as int),
            padded(row, full).reverse(),
            rate,
        ),
{
    let iv = iv_state(R::of(full), WIDTH as int);
    let z = zeros::<R>(n_chunks * rate);
    assert(n_chunks * rate >= 0) by (nonlinear_arith)
        requires
            n_chunks >= 0,
            rate > 0,
    ;
    law_absorb_zeros::<R, Perm, WIDTH>(perm, iv, rate, n_chunks);
    assert(z.len() % (rate as nat) == 0) by {
        vstd::arithmetic::div_mod::lemma_mod_multiples_basic(n_chunks, rate);
    }
    law_absorb_in_parts::<R, Perm, WIDTH>(perm, iv, z, items, rate);
    assert(padded(row, full).reverse() =~= z + items);
}

/// The items of a padded row in the order in which they are absorbed.
fn rtl_items<R: Ring>(row: &Vec<R>, n_row: usize, n_trailing_zeros: usize) -> (r: Vec<R>)
    requires
        n_row <= row@.len(),
    ensures
        r@ == zeros(n_trailing_zeros as int) + row@.take(n_row as int).reverse(),
{
    let mut items: Vec<R> = Vec::new();
    let mut i: usize = 0;
    while i < n_trailing_zeros
        invariant
            i <= n_trailing_zeros,
            items@.len() == i,
            forall|j: int| 0 <= j < i ==> #[trigger] items@[j] == R::ring_zero(),
        decreases n_trailing_zeros - i,
    {
        items.push(R::zero());
        i += 1;
    }
    let ghost start = items@;
    let mut k: usize = n_row;
    while k > 0
        invariant
            k <= n_row <= row@.len(),
            items@.len() == start.len() + (n_row - k),
            forall|j: int| 0 <= j < start.len() ==> #[trigger] items@[j] == start[j],
            forall|j: int|
                start.len() <= j < items@.len() ==> #[trigger] items@[j] == row@[n_row - 1 - (j
                    - start.len())],
        decreases k,
    {
        k -= 1;
        items.push(row[k]);
    }
    assert(items@ =~= zeros(n_trailing_zeros as int) + row@.take(n_row as int).reverse());
    items
}

/// The sponge digests of the padded rows of a matrix.
fn first_digest_layer<
    R: Ring,
    Perm: Compression<R, WIDTH>,
    const D: usize,
    const WIDTH: usize,
    const RATE: usize,
>(perm: &Perm, matrix: &DenseMatrix<R>, full_width: usize) -> (r: Vec<[R; D]>)
    requires
        matrix.wf(),
        matrix.width <= full_width,
        RATE == D,
        WIDTH == D + RATE,
        RATE > 0,
        full_width % RATE == 0,
    ensures
        digests(r@) == Seq::new(
            matrix.rows() as nat,
            |i: int|
                hash_spec::<R, Perm, WIDTH>(
                    *perm,
                    padded(matrix.row_spec(i), full_width as int),
                    RATE as int,
                    D as int,
                ),
        ),
{
    let mut state = [R::zero(); WIDTH];
    state[0] = R::from_usize(full_width);
    assert(state@ =~= iv_state(R::of(full_width as int), WIDTH as int));
    let height: usize = matrix.height();
    let mut out: Vec<[R; D]> = Vec::new();
    let mut i: usize = 0;
    while i < height
        invariant
            i <= height,
            height == matrix.rows(),
            matrix.wf(),
            matrix.width <= full_width,
            RATE == D,
            WIDTH == D + RATE,
            RATE > 0,
            full_width % RATE == 0,
            state@ == iv_state(R::of(full_width as int), WIDTH as int),
            out@.len() == i,
            forall|j: int|
                0 <= j < i ==> (#[trigger] out@[j])@ == hash_spec::<R, Perm, WIDTH>(
                    *perm,
                    padded(matrix.row_spec(j), full_width as int),
                    RATE as int,
                    D as int,
                ),
        decreases height - i,
    {
        let row = matrix.row(i);
        proof {
            matrix.lemma_row_bounds(i as int);
        }
        let items = rtl_items(&row, matrix.width, full_width - matrix.width);
        proof {
            assert(row@.take(matrix.width as int) =~= row@);
            lemma_zeros_then_row::<R, Perm, WIDTH>(
                *perm,
                row@,
                full_width as int,
                0,
                RATE as int,
                items@,
            );
            assert(padded(row@, full_width as int).len() == full_width);
        }
        out.push(
            hash_rtl_iter_with_initial_state::<R, Perm, WIDTH, RATE, D>(
                perm,
                items.as_slice(),
                &state,
            ),
        );
        i += 1;
    }
    assert(digests(out@) =~= Seq::new(
        matrix.rows() as nat,
        |i: int|
            hash_spec::<R, Perm, WIDTH>(
                *perm,
                padded(matrix.row_spec(i), full_width as int),
                RATE as int,
                D as int,
            ),
    ));
    out
}

/// The sponge digests of the first `effective_base_width` elements of the rows of a matrix, padded
/// to `full_width` elements, from a state that has absorbed the whole chunks of the padding.
fn first_digest_layer_with_initial_state<
    R: Ring,
    Perm: Compression<R, WIDTH>,
    const D: usize,
    const WIDTH: usize,
    const RATE: usize,
>(
    perm: &Perm,
    matrix: &DenseMatrix<R>,
    initial_state: &[R; WIDTH],
    effective_base_width: usize,
    full_width: usize,
) -> (r: Vec<[R; D]>)
    requires
        matrix.wf(),
        effective_base_width <= matrix.width <= full_width,
        RATE == D,
        WIDTH == D + RATE,
        RATE > 0,
        full_width % RATE == 0,
        initial_state@ == zero_chunks::<R, Perm, WIDTH>(
            *perm,
            iv_state(R::of(full_width as int), WIDTH as int),
            RATE as int,
            (full_width - effective_base_width) / RATE as int,
        ),
    ensures
        digests(r@) == Seq::new(
            matrix.rows() as nat,
            |i: int|
                hash_spec::<R, Perm, WIDTH>(
                    *perm,
                    padded(
                        matrix.row_spec(i).take(effective_base_width as int),
                        full_width as int,
                    ),
                    RATE as int,
                    D as int,
                ),
        ),
{
    let n_pad: usize = (RATE - effective_base_width % RATE) % RATE;
    let ghost n_chunks = (full_width - effective_base_width) / RATE as int;
    proof {
        lemma_padding(effective_base_width as int, full_width as int, RATE as int);
    }
    let height: usize = matrix.height();
    let mut out: Vec<[R; D]> = Vec::new();
    let mut i: usize = 0;
    while i < height
        invariant
            i <= height,
            height == matrix.rows(),
            matrix.wf(),
            effective_base_width <= matrix.width <= full_width,
            RATE == D,
            WIDTH == D + RATE,
            RATE > 0,
            full_width % RATE == 0,
            n_chunks >= 0,
            n_pad == full_width - effective_base_width - n_chunks * RATE,
            (effective_base_width + n_pad) % (RATE as int) == 0,
            initial_state@ == zero_chunks::<R, Perm, WIDTH>(
                *perm,
                iv_state(R::of(full_width as int), WIDTH as int),
                RATE as int,
                n_chunks,
            ),
            out@.len() == i,
            forall|j: int|
                0 <= j < i ==> (#[trigger] out@[j])@ == hash_spec::<R, Perm, WIDTH>(
                    *perm,
                    padded(
                        matrix.row_spec(j).take(effective_base_width as int),
                        full_width as int,
                    ),
                    RATE as int,
                    D as int,
                ),
        decreases height - i,
    {
        let row = matrix.row(i);
        proof {
            matrix.lemma_row_bounds(i as int);
        }
        let items = rtl_items(&row, effective_base_width, n_pad);
        proof {
            let short = row@.take(effective_base_width as int);
            lemma_zeros_then_row::<R, Perm, WIDTH>(
                *perm,
                short,
                full_width as int,
                n_chunks,
                RATE as int,
                items@,
            );
            assert(padded(short, full_width as int).len() == full_width);
        }
        out.push(
            hash_rtl_iter_with_initial_state::<R, Perm, WIDTH, RATE, D>(
                perm,
                items.as_slice(),
                initial_state,
            ),
        );
        i += 1;
    }
    assert(digests(out@) =~= Seq::new(
        matrix.rows() as nat,
        |i: int|
            hash_spec::<R, Perm, WIDTH>(
                *perm,
                padded(
                    matrix.row_spec(i).take(effective_base_width as int),
                    full_width as int,
                ),
                RATE as int,
                D as int,
            ),
    ));
    out
}

/// The part of the padding that is no whole chunk fills up the last chunk of the row.
proof fn lemma_padding(effective: int, full: int, rate: int)
    requires
        0 <= effective <= full,
        rate > 0,
        full % rate == 0,
    ensures
        (full - effective) / rate >= 0,
        (rate - effective % rate) % rate == full - effective - (full - effective) / rate * rate,
        (effective + (rate - effective % rate) % rate) % rate == 0,
{
    let d = full - effective;
    let q = d / rate;
    vstd::arithmetic::div_mod::lemma_fundamental_div_mod(d, rate);
    vstd::arithmetic::div_mod::lemma_div_pos_is_pos(d, rate);
    vstd::arithmetic::div_mod::lemma_sub_mod_noop(full, effective, rate);
    vstd::arithmetic::div_mod::lemma_sub_mod_noop(rate, effective, rate);
    vstd::arithmetic::div_mod::lemma_mod_self_0(rate);
    let e = effective % rate;
    vstd::arithmetic::div_mod::lemma_mod_bound(effective, rate);
    vstd::arithmetic::div_mod::lemma_sub_mod_noop(rate, e, rate);
    vstd::arithmetic::div_mod::lemma_mod_twice(effective, rate);
    assert(d % rate == (rate - e) % rate);
    assert(rate * q == q * rate) by (nonlinear_arith);
    let n_pad = (rate - e) % rate;
    assert(effective + n_pad == full - q * rate);
    vstd::arithmetic::div_mod::lemma_mod_multiples_vanish(-q, full, rate);
    assert(rate * (-q) + full == full - q * rate) by (nonlinear_arith);
}

/// What is committed to: rows of base field elements, or of extension field elements given by
/// their five coordinates.
#[derive(Debug)]
pub enum DftOutput {
    Base(DenseMatrix<KoalaBear>),
    Extension(DenseMatrix<[KoalaBear; 5]>),
}

/// An opened leaf.
#[derive(Debug)]
pub enum OpenedLeaf {
    Base(Vec<KoalaBear>),
    Extension(Vec<[KoalaBear; 5]>),
}

/// The coordinates of a sequence of extension field elements.
pub open spec fn flattened(s: Seq<[KoalaBear; 5]>) -> Seq<KoalaBear> {
    Seq::new(5 * s.len(), |i: int| s[i / 5]@[i % 5])
}

/// Lists the coordinates of extension field elements.
pub fn flatten_to_base(values: &Vec<[KoalaBear; 5]>) -> (r: Vec<KoalaBear>)
    ensures
        r@ == flattened(values@),
{
    let mut out: Vec<KoalaBear> = Vec::new();
    let mut i: usize = 0;
    while i < values.len()
        invariant
            i <= values@.len(),
            out@.len() == 5 * i,
            forall|j: int| 0 <= j < 5 * i ==> #[trigger] out@[j] == values@[j / 5]@[j % 5],
        decreases values@.len() - i,
    {
        let v = values[i];
        out.push(v[0]);
        out.push(v[1]);
        out.push(v[2]);
        out.push(v[3]);
        out.push(v[4]);
        i += 1;
    }
    assert(out@ =~= flattened(values@));
    out
}

/// Groups coordinates into extension field elements.
pub fn reconstitute_from_base(values: &Vec<KoalaBear>) -> (r: Vec<[KoalaBear; 5]>)
    requires
        values@.len() % 5 == 0,
    ensures
        5 * r@.len() == values@.len(),
        flattened(r@) == values@,
{
    let n: usize = values.len() / 5;
    let mut out: Vec<[KoalaBear; 5]> = Vec::new();
    let mut i: usize = 0;
    while i < n
        invariant
            i <= n,
            5 * n == values.len(),
            out@.len() == i,
            forall|j: int|
                0 <= j < 5 * i ==> (#[trigger] values@[j]) == out@[j / 5]@[j % 5],
        decreases n - i,
    {
        let v = [
            values[5 * i],
            values[5 * i + 1],
            values[5 * i + 2],
            values[5 * i + 3],
            values[5 * i + 4],
        ];
        out.push(v);
        i += 1;
    }
    assert(flattened(out@) =~= values@);
    out
}

impl DftOutput {
    pub open spec fn wf(self) -> bool {
        match self {
            DftOutput::Base(m) => m.wf(),
            DftOutput::Extension(m) => m.wf(),
        }
    }

    /// Base field elements per entry.
    pub open spec fn dimension(self) -> int {
        match self {
            DftOutput::Base(_) => 1,
            DftOutput::Extension(_) => 5,
        }
    }

    pub open spec fn n_cols(self) -> int {
        match self {
            DftOutput::Base(m) => m.width as int,
            DftOutput::Extension(m) => m.width as int,
        }
    }

    pub open spec fn n_rows(self) -> int {
        match self {
            DftOutput::Base(m) => m.rows(),
            DftOutput::Extension(m) => m.rows(),
        }
    }

    /// All base field elements, row by row.
    pub open spec fn base_values(self) -> Seq<KoalaBear> {
        match self {
            DftOutput::Base(m) => m.values@,
            DftOutput::Extension(m) => flattened(m.values@),
        }
    }
}

/// `tree` commits to the rows of `matrix`, padded to `full_n_cols` entries.
pub open spec fn commits_to(tree: RoundMerkleTree, matrix: DftOutput, full_n_cols: int) -> bool {
    &&& tree.wf()
    &&& tree.leaf.values@ == matrix.base_values()
    &&& tree.leaf.width == matrix.n_cols() * matrix.dimension()
    &&& tree.full_leaf_base_width == full_n_cols * matrix.dimension()
    &&& tree.tree.is_tree_of(
        Blake3Join,
        row_digests(tree.leaf, tree.full_leaf_base_width as int),
    )
}

/// Commits to the rows of a matrix.
pub fn merkle_commit(matrix: DftOutput, full_n_cols: usize, effective_n_cols: usize) -> (r: (
    [KoalaBear; DIGEST_ELEMS],
    RoundMerkleTree,
))
    requires
        matrix.wf(),
        matrix.n_rows() > 0,
        effective_n_cols <= matrix.n_cols() <= full_n_cols,
        20 * full_n_cols <= usize::MAX,
    ensures
        commits_to(r.1, matrix, full_n_cols as int),
        r.0@ == r.1.tree.root_spec(),
{
    match matrix {
        DftOutput::Base(m) => {
            let tree = build_merkle_tree_koalabear(m, full_n_cols, effective_n_cols);
            (tree.root(), tree)
        },
        DftOutput::Extension(m) => {
            let base_values = flatten_to_base(&m.values);
            let base_width: usize = m.width * 5;
            proof {
                lemma_flat_rows(m.values@.len() as int, m.width as int);
            }
            let base_matrix = DenseMatrix::new(base_values, base_width);
            let tree = build_merkle_tree_koalabear(
                base_matrix,
                full_n_cols * 5,
                effective_n_cols * 5,
            );
            (tree.root(), tree)
        },
    }
}

/// Flattening keeps the rows.
proof fn lemma_flat_rows(n: int, width: int)
    requires
        width > 0,
        n >= 0,
        n % width == 0,
    ensures
        (5 * n) % (width * 5) == 0,
        (5 * n) / (width * 5) == n / width,
{
    vstd::arithmetic::div_mod::lemma_fundamental_div_mod(n, width);
    let q = n / width;
    assert(5 * n == (width * 5) * q + 0) by (nonlinear_arith)
        requires
            n == width * q,
    ;
    vstd::arithmetic::div_mod::lemma_fundamental_div_mod_converse(5 * n, width * 5, q, 0);
}

fn build_merkle_tree_koalabear(
    leaf: DenseMatrix<KoalaBear>,
    full_base_width: usize,
    _effective_base_width: usize,
) -> (r: RoundMerkleTree)
    requires
        leaf.wf(),
        leaf.rows() > 0,
        leaf.width <= full_base_width,
        4 * full_base_width <= usize::MAX,
    ensures
        r.wf(),
        r.leaf == leaf,
        r.full_leaf_base_width == full_base_width,
        r.tree.is_tree_of(Blake3Join, row_digests(leaf, full_base_width as int)),
{
    let first_layer = first_digest_layer_blake3(&leaf, full_base_width);
    assert(digests(first_layer@).len() == first_layer@.len());
    let join = Blake3Join;
    let tree = MerkleTree::<KoalaBear, DIGEST_ELEMS>::from_first_layer_with_fn(&join, first_layer);
    WhirMerkleTree { leaf, tree, full_leaf_base_width: full_base_width }
}

/// The elements of an opened leaf.
pub open spec fn leaf_elements(leaf: OpenedLeaf) -> Seq<KoalaBear> {
    match leaf {
        OpenedLeaf::Base(v) => v@,
        OpenedLeaf::Extension(v) => flattened(v@),
    }
}

/// The opening at `index` of a tree: the elements of the padded row and the siblings.
pub open spec fn is_opening(
    tree: RoundMerkleTree,
    index: int,
    leaf: Seq<KoalaBear>,
    siblings: Seq<[KoalaBear; DIGEST_ELEMS]>,
) -> bool {
    &&& leaf == padded(tree.leaf.row_spec(index), tree.full_leaf_base_width as int)
    &&& is_log2_ceil(tree.leaf.rows(), siblings.len())
    &&& forall|i: int|
        0 <= i < siblings.len() ==> #[trigger] siblings[i] == tree.tree.digest_layers@[i]@[sibling(
            index,
            i,
        )]
}

/// Opens a leaf of a tree over base field elements.
pub fn merkle_open_base(merkle_tree: &RoundMerkleTree, index: usize) -> (r: (
    Vec<KoalaBear>,
    Vec<[KoalaBear; DIGEST_ELEMS]>,
))
    requires
        merkle_tree.wf(),
        index < merkle_tree.leaf.rows(),
        forall|k: nat|
            #[trigger] is_log2_ceil(
                merkle_tree.leaf.rows(),
                k,
            ) ==> merkle_tree.tree.has_siblings(index as int, k as int),
    ensures
        is_opening(*merkle_tree, index as int, r.0@, r.1@),
{
    merkle_tree.open(index)
}

/// Opens a leaf of a tree over extension field elements.
pub fn merkle_open_extension(merkle_tree: &RoundMerkleTree, index: usize) -> (r: (
    Vec<[KoalaBear; 5]>,
    Vec<[KoalaBear; DIGEST_ELEMS]>,
))
    requires
        merkle_tree.wf(),
        merkle_tree.full_leaf_base_width % 5 == 0,
        index < merkle_tree.leaf.rows(),
        forall|k: nat|
            #[trigger] is_log2_ceil(
                merkle_tree.leaf.rows(),
                k,
            ) ==> merkle_tree.tree.has_siblings(index as int, k as int),
    ensures
        is_opening(*merkle_tree, index as int, flattened(r.0@), r.1@),
{
    let (inner_leaf, siblings) = merkle_tree.open(index);
    proof {
        merkle_tree.leaf.lemma_row_bounds(index as int);
    }
    (reconstitute_from_base(&inner_leaf), siblings)
}

/// Checks that `data` is the leaf at `index` of the tree with root `merkle_root` over a matrix of
/// these dimensions.
pub fn merkle_verify(
    merkle_root: [KoalaBear; DIGEST_ELEMS],
    index: usize,
    dimension: Dimensions,
    data: OpenedLeaf,
    siblings: &Vec<[KoalaBear; DIGEST_ELEMS]>,
) -> (r: bool)
    requires
        4 * leaf_elements(data).len() <= usize::MAX,
    ensures
        r <==> is_log2_ceil(dimension.height as int, siblings@.len()) && merkle_root@ == path_root::<
            KoalaBear,
            Blake3Join,
            DIGEST_ELEMS,
        >(Blake3Join, leaf_digest(leaf_elements(data)), index as int, digests(siblings@)),
{
    let log_max_height: usize = log2_ceil_usize(dimension.height);
    proof {
        if is_log2_ceil(dimension.height as int, siblings@.len()) {
            lemma_log2_ceil_unique(
                dimension.height as int,
                log_max_height as nat,
                siblings@.len(),
            );
        }
    }
    match data {
        OpenedLeaf::Base(values) => merkle_verify_blake3(
            &merkle_root,
            log_max_height,
            index,
            values.as_slice(),
            siblings.as_slice(),
        ),
        OpenedLeaf::Extension(values) => {
            let base_data = flatten_to_base(&values);
            merkle_verify_blake3(
                &merkle_root,
                log_max_height,
                index,
                base_data.as_slice(),
                siblings.as_slice(),
            )
        },
    }
}

/// Every row of a committed matrix can be opened, and its opening verifies against the root: for
/// every tree over a matrix with `2^h` rows.
pub proof fn law_opening_verifies(
    tree: RoundMerkleTree,
    matrix: DftOutput,
    full_n_cols: int,
    h: nat,
    index: int,
    leaf: Seq<KoalaBear>,
    siblings: Seq<[KoalaBear; DIGEST_ELEMS]>,
)
    requires
        commits_to(tree, matrix, full_n_cols),
        tree.leaf.rows() == pow2(h),
        0 <= index < pow2(h),
        is_opening(tree, index, leaf, siblings),
    ensures
        tree.tree.has_siblings(index, h as int),
        tree.tree.root_spec() == path_root::<KoalaBear, Blake3Join, DIGEST_ELEMS>(
            Blake3Join,
            leaf_digest(leaf),
            index,
            digests(siblings),
        ),
{
    let first = row_digests(tree.leaf, tree.full_leaf_base_width as int);
    lemma_log2_of_pow2(h);
    lemma_log2_ceil_unique(tree.leaf.rows(), h, siblings.len());
    assert(digests(siblings).len() == h);
    assert forall|i: int| 0 <= i < h implies #[trigger] digests(siblings)[i]
        == tree.tree.digest_layers@[i]@[sibling(index, i)]@ by {
        assert(digests(siblings)[i] == siblings[i]@);
    }
    law_open_then_climb::<KoalaBear, Blake3Join, DIGEST_ELEMS>(
        tree.tree,
        Blake3Join,
        first,
        h,
        index,
        digests(siblings),
    );
}

/// The same of a tree whose leaves are hashed with a sponge, where the rows are zero behind their
/// effective width.
pub proof fn law_sponge_opening_verifies<
    R: Ring,
    Perm: Compression<R, WIDTH>,
    const D: usize,
    const WIDTH: usize,
>(
    perm: &Perm,
    tree: WhirMerkleTree<R, D>,
    effective: int,
    rate: int,
    h: nat,
    index: int,
    siblings: Seq<Seq<R>>,
)
    requires
        tree.wf(),
        0 <= effective <= tree.leaf.width,
        tree.tree.is_tree_of(
            Truncated::<Perm, WIDTH> { comp: perm },
            sponge_digests::<R, Perm, WIDTH>(
                *perm,
                tree.leaf,
                tree.full_leaf_base_width as int,
                effective,
                rate,
                D as int,
            ),
        ),
        tree.leaf.rows() == pow2(h),
        0 <= index < pow2(h),
        forall|j: int|
            effective <= j < tree.leaf.width ==> #[trigger] tree.leaf.row_spec(index)[j]
                == R::ring_zero(),
        siblings.len() == h,
        forall|i: int|
            0 <= i < h ==> #[trigger] siblings[i] == tree.tree.digest_layers@[i]@[sibling(
                index,
                i,
            )]@,
    ensures
        tree.tree.root_spec() == path_root::<R, Truncated<Perm, WIDTH>, D>(
            Truncated::<Perm, WIDTH> { comp: perm },
            hash_spec::<R, Perm, WIDTH>(
                *perm,
                padded(tree.leaf.row_spec(index), tree.full_leaf_base_width as int),
                rate,
                D as int,
            ),
            index,
            siblings,
        ),
{
    let full = tree.full_leaf_base_width as int;
    let first = sponge_digests::<R, Perm, WIDTH>(*perm, tree.leaf, full, effective, rate, D as int);
    tree.leaf.lemma_row_bounds(index);
    let row = tree.leaf.row_spec(index);
    assert(padded(row.take(effective), full) =~= padded(row, full)) by {
        assert forall|j: int| 0 <= j < full implies padded(row.take(effective), full)[j] == padded(
            row,
            full,
        )[j] by {
            if effective <= j < row.len() {
                assert(row[j] == R::ring_zero());
            }
        }
    }
    law_open_then_climb::<R, Truncated<Perm, WIDTH>, D>(
        tree.tree,
        Truncated::<Perm, WIDTH> { comp: perm },
        first,
        h,
        index,
        siblings,
    );
}

} // verus!
