//! What a Merkle root says of the leaves below it.

use crate::blake3_hash::{
    blake3_digest, bytes_to_elements, compress_spec, element_bytes, law_bytes_to_elements,
    law_element_bytes_injective, lemma_bytes_are_elements, lemma_element_bytes,
};
use crate::field::{KoalaBear, Ring};
use crate::math::{is_log2_ceil, lemma_log2_of_pow2};
use crate::symmetric::merkle::{digests, path_root, sibling, TwoToOne};
use crate::symmetric::sponge::zeros;
use crate::whir::matrix::DenseMatrix;
use crate::whir::merkle::{
    commits_to, flattened, is_opening, law_opening_verifies, leaf_digest, leaf_elements, padded,
    Blake3Join, DftOutput, OpenedLeaf, RoundMerkleTree, DIGEST_ELEMS,
};
use vstd::arithmetic::power2::pow2;
use vstd::prelude::*;

verus! {

/// The digest of a leaf is the Blake3 digest of one string of bytes, four for each of its
/// elements: the little-endian bytes of the residue of `2^32` times the element, the first
/// element's first. Element `j` of the digest is word `j` of what Blake3 gives, reduced.
pub proof fn law_leaf_digest(leaf: Seq<KoalaBear>, bytes: Seq<u8>, j: int)
    requires
        bytes.len() == 4 * leaf.len(),
        forall|i: int|
            #![trigger bytes[4 * i]]
            0 <= i < leaf.len() ==> bytes[4 * i] + 256 * bytes[4 * i + 1] + 65536 * bytes[4 * i + 2]
                + 16777216 * bytes[4 * i + 3] == (leaf[i].value * 0x1_0000_0000) % 2_130_706_433,
        blake3_digest(bytes).len() == 32,
        0 <= j < 8,
    ensures
        leaf_digest(leaf).len() == 8,
        ({
            let d = blake3_digest(bytes);
            leaf_digest(leaf)[j].value == (d[4 * j] + 256 * d[4 * j + 1] + 65536 * d[4 * j + 2]
                + 16777216 * d[4 * j + 3]) % 2_130_706_433
        }),
{
    lemma_bytes_are_elements(leaf, bytes);
    law_bytes_to_elements(blake3_digest(bytes), 8, j);
}

/// Two leaves with one digest are one leaf, or else they are two strings of bytes on which Blake3
/// collides: as long as the leaves, four bytes for an element.
pub proof fn law_leaf_digest_binds(a: Seq<KoalaBear>, b: Seq<KoalaBear>)
    requires
        forall|i: int| 0 <= i < a.len() ==> (#[trigger] a[i]).canonical(),
        forall|i: int| 0 <= i < b.len() ==> (#[trigger] b[i]).canonical(),
        leaf_digest(a) == leaf_digest(b),
        a != b,
    ensures
        exists|x: Seq<u8>, y: Seq<u8>|
            #![trigger blake3_digest(x), blake3_digest(y)]
            x != y && x.len() == 4 * a.len() && y.len() == 4 * b.len() && bytes_to_elements(
                blake3_digest(x),
                8,
            ) == bytes_to_elements(blake3_digest(y), 8),
{
    let x = element_bytes(a);
    let y = element_bytes(b);
    lemma_element_bytes(a);
    lemma_element_bytes(b);
    if x == y {
        law_element_bytes_injective(a, b);
    }
    assert(blake3_digest(x) == blake3_digest(x) && blake3_digest(y) == blake3_digest(y));
}

/// Two pairs of digests that are joined to one digest are one pair, in one order, or else they are
/// two strings of 64 bytes on which Blake3 collides.
pub proof fn law_join_binds(
    a: Seq<KoalaBear>,
    b: Seq<KoalaBear>,
    c: Seq<KoalaBear>,
    d: Seq<KoalaBear>,
)
    requires
        a.len() == 8,
        b.len() == 8,
        c.len() == 8,
        d.len() == 8,
        forall|i: int| 0 <= i < 8 ==> (#[trigger] a[i]).canonical(),
        forall|i: int| 0 <= i < 8 ==> (#[trigger] b[i]).canonical(),
        forall|i: int| 0 <= i < 8 ==> (#[trigger] c[i]).canonical(),
        forall|i: int| 0 <= i < 8 ==> (#[trigger] d[i]).canonical(),
        compress_spec(a, b) == compress_spec(c, d),
        a != c || b != d,
    ensures
        exists|x: Seq<u8>, y: Seq<u8>|
            #![trigger blake3_digest(x), blake3_digest(y)]
            x != y && x.len() == 64 && y.len() == 64 && bytes_to_elements(blake3_digest(x), 8)
                == bytes_to_elements(blake3_digest(y), 8),
{
    let x = element_bytes(a + b);
    let y = element_bytes(c + d);
    lemma_element_bytes(a + b);
    lemma_element_bytes(c + d);
    if x == y {
        law_element_bytes_injective(a + b, c + d);
        assert(a =~= (a + b).take(8) && b =~= (a + b).skip(8));
        assert(c =~= (c + d).take(8) && d =~= (c + d).skip(8));
    }
    assert(blake3_digest(x) == blake3_digest(x) && blake3_digest(y) == blake3_digest(y));
}

/// A digest has eight elements, each in canonical form.
pub open spec fn is_digest(d: Seq<KoalaBear>) -> bool {
    d.len() == 8 && forall|i: int| 0 <= i < 8 ==> (#[trigger] d[i]).canonical()
}

/// Two paths of one length that lead from one place to one root start at one digest and pass the
/// same siblings, or else there are two strings of 64 bytes on which Blake3 collides.
pub proof fn law_path_binds(
    a: Seq<KoalaBear>,
    b: Seq<KoalaBear>,
    index: int,
    s: Seq<Seq<KoalaBear>>,
    t: Seq<Seq<KoalaBear>>,
)
    requires
        is_digest(a),
        is_digest(b),
        s.len() == t.len(),
        forall|i: int| 0 <= i < s.len() ==> is_digest(#[trigger] s[i]),
        forall|i: int| 0 <= i < t.len() ==> is_digest(#[trigger] t[i]),
        path_root::<KoalaBear, Blake3Join, DIGEST_ELEMS>(Blake3Join, a, index, s) == path_root::<
            KoalaBear,
            Blake3Join,
            DIGEST_ELEMS,
        >(Blake3Join, b, index, t),
        a != b || s != t,
    ensures
        exists|x: Seq<u8>, y: Seq<u8>|
            #![trigger blake3_digest(x), blake3_digest(y)]
            x != y && x.len() == 64 && y.len() == 64 && bytes_to_elements(blake3_digest(x), 8)
                == bytes_to_elements(blake3_digest(y), 8),
    decreases s.len(),
{
    if s.len() == 0 {
        assert(s =~= t);
    } else {
        let (s0, t0) = (s.first(), t.first());
        let (s1, t1) = (s.drop_first(), t.drop_first());
        let (l, m) = if index % 2 == 0 {
            (a, s0)
        } else {
            (s0, a)
        };
        let (n, o) = if index % 2 == 0 {
            (b, t0)
        } else {
            (t0, b)
        };
        let up = compress_spec(l, m);
        let over = compress_spec(n, o);
        assert(is_digest(s[0]) && is_digest(t[0]));
        assert(up == Blake3Join.joined(l, m) && over == Blake3Join.joined(n, o));
        assert forall|i: int| 0 <= i < s1.len() implies is_digest(#[trigger] s1[i]) by {
            assert(s1[i] == s[i + 1]);
        }
        assert forall|i: int| 0 <= i < t1.len() implies is_digest(#[trigger] t1[i]) by {
            assert(t1[i] == t[i + 1]);
        }
        if up != over || s1 != t1 {
            law_path_binds(up, over, index / 2, s1, t1);
        } else {
            assert(s =~= seq![s0] + s1);
            assert(t =~= seq![t0] + t1);
            law_join_binds(l, m, n, o);
        }
    }
}

/// Where a path is empty the root is the digest itself. Where it is not, the digest is joined with
/// the first sibling, which stands to the right of an even place and to the left of an odd one, and
/// the path goes on from half the place.
pub proof fn law_path_step(
    a: Seq<KoalaBear>,
    index: int,
    s: Seq<Seq<KoalaBear>>,
    first: Seq<KoalaBear>,
)
    ensures
        s.len() == 0 ==> path_root::<KoalaBear, Blake3Join, DIGEST_ELEMS>(Blake3Join, a, index, s)
            == a,
        index % 2 == 0 ==> path_root::<KoalaBear, Blake3Join, DIGEST_ELEMS>(
            Blake3Join,
            a,
            index,
            seq![first] + s,
        ) == path_root::<KoalaBear, Blake3Join, DIGEST_ELEMS>(
            Blake3Join,
            compress_spec(a, first),
            index / 2,
            s,
        ),
        index % 2 == 1 ==> path_root::<KoalaBear, Blake3Join, DIGEST_ELEMS>(
            Blake3Join,
            a,
            index,
            seq![first] + s,
        ) == path_root::<KoalaBear, Blake3Join, DIGEST_ELEMS>(
            Blake3Join,
            compress_spec(first, a),
            index / 2,
            s,
        ),
{
    let path = seq![first] + s;
    assert(path.first() == first);
    assert(path.drop_first() =~= s);
    assert(Blake3Join.joined(a, first) == compress_spec(a, first));
    assert(Blake3Join.joined(first, a) == compress_spec(first, a));
}

/// A commitment binds: a leaf of the committed width that verifies at row `index` against the root
/// is that row of the matrix with zeros behind it, and its siblings are those that the tree opens,
/// or else there are two strings of bytes on which Blake3 collides.
pub proof fn law_commitment_binds(
    tree: RoundMerkleTree,
    matrix: DftOutput,
    full_n_cols: int,
    h: nat,
    index: int,
    leaf: Seq<KoalaBear>,
    siblings: Seq<[KoalaBear; DIGEST_ELEMS]>,
    own: Seq<[KoalaBear; DIGEST_ELEMS]>,
)
    requires
        commits_to(tree, matrix, full_n_cols),
        tree.leaf.rows() == pow2(h),
        0 <= index < pow2(h),
        tree.leaf.width <= tree.full_leaf_base_width,
        forall|i: int| 0 <= i < tree.leaf.values@.len() ==> (#[trigger] tree.leaf.values@[i]).canonical(),
        leaf.len() == tree.full_leaf_base_width,
        forall|i: int| 0 <= i < leaf.len() ==> (#[trigger] leaf[i]).canonical(),
        siblings.len() == h,
        forall|i: int| 0 <= i < h ==> is_digest((#[trigger] siblings[i])@),
        own.len() == h,
        forall|i: int| 0 <= i < h ==> is_digest((#[trigger] own[i])@),
        forall|i: int|
            0 <= i < h ==> #[trigger] own[i] == tree.tree.digest_layers@[i]@[sibling(index, i)],
        path_root::<KoalaBear, Blake3Join, DIGEST_ELEMS>(
            Blake3Join,
            leaf_digest(leaf),
            index,
            digests(siblings),
        ) == tree.tree.root_spec(),
    ensures
        ({
            &&& forall|k: int|
                0 <= k < tree.leaf.width ==> #[trigger] leaf[k] == tree.leaf.values@[index
                    * tree.leaf.width + k]
            &&& forall|k: int|
                tree.leaf.width <= k < leaf.len() ==> (#[trigger] leaf[k]).value == 0
            &&& siblings =~= own
        }) || exists|x: Seq<u8>, y: Seq<u8>|
            #![trigger blake3_digest(x), blake3_digest(y)]
            x != y && bytes_to_elements(blake3_digest(x), 8) == bytes_to_elements(
                blake3_digest(y),
                8,
            ),
{
    let row = tree.leaf.row_spec(index);
    let full = tree.full_leaf_base_width as int;
    let honest = padded(row, full);
    tree.leaf.lemma_row_bounds(index);
    lemma_log2_of_pow2(h);
    assert(is_log2_ceil(tree.leaf.rows(), own.len()));
    assert(is_opening(tree, index, honest, own));
    law_opening_verifies(tree, matrix, full_n_cols, h, index, honest, own);
    assert forall|i: int| 0 <= i < honest.len() implies (#[trigger] honest[i]).canonical() by {
        if i < row.len() {
            assert(row[i] == tree.leaf.values@[index * tree.leaf.width + i]);
        }
    }
    assert forall|i: int| 0 <= i < h implies is_digest(#[trigger] digests(siblings)[i]) by {
        assert(digests(siblings)[i] == siblings[i]@);
    }
    assert forall|i: int| 0 <= i < h implies is_digest(#[trigger] digests(own)[i]) by {
        assert(digests(own)[i] == own[i]@);
    }
    if leaf_digest(leaf) != leaf_digest(honest) || digests(siblings) != digests(own) {
        law_path_binds(
            leaf_digest(leaf),
            leaf_digest(honest),
            index,
            digests(siblings),
            digests(own),
        );
    } else if leaf != honest {
        law_leaf_digest_binds(leaf, honest);
    } else {
        assert forall|i: int| 0 <= i < h implies siblings[i] == own[i] by {
            assert(digests(siblings)[i] == siblings[i]@ && digests(own)[i] == own[i]@);
            assert(siblings[i]@ =~= own[i]@);
            vstd::array::axiom_array_ext_equal(siblings[i], own[i]);
        }
        assert forall|k: int| 0 <= k < tree.leaf.width implies #[trigger] leaf[k]
            == tree.leaf.values@[index * tree.leaf.width + k] by {
            assert(honest[k] == row[k]);
        }
        assert forall|k: int| tree.leaf.width <= k < leaf.len() implies (#[trigger] leaf[k]).value
            == 0 by {
            assert(honest[k] == zeros::<KoalaBear>(full - row.len())[k - row.len()]);
        }
    }
}

/// Flattened, extension elements stand one after another, their five coordinates in order.
pub proof fn law_flattened(s: Seq<[KoalaBear; 5]>, i: int, k: int)
    requires
        0 <= i < s.len(),
        0 <= k < 5,
    ensures
        flattened(s).len() == 5 * s.len(),
        flattened(s)[5 * i + k] == s[i]@[k],
{
    assert((5 * i + k) / 5 == i && (5 * i + k) % 5 == k);
}

/// What a commitment to a matrix of base elements holds: the matrix itself, with room in a leaf for
/// as many columns as asked.
pub proof fn law_commitment_holds_base(
    tree: RoundMerkleTree,
    matrix: DenseMatrix<KoalaBear>,
    full_n_cols: int,
)
    requires
        commits_to(tree, DftOutput::Base(matrix), full_n_cols),
    ensures
        tree.leaf.values@ == matrix.values@,
        tree.leaf.width == matrix.width,
        tree.full_leaf_base_width == full_n_cols,
        tree.leaf.width <= tree.full_leaf_base_width,
{
}

/// What a commitment to a matrix of extension elements holds: the five coordinates of each, one
/// after another.
pub proof fn law_commitment_holds_extension(
    tree: RoundMerkleTree,
    matrix: DenseMatrix<[KoalaBear; 5]>,
    full_n_cols: int,
    i: int,
    k: int,
)
    requires
        commits_to(tree, DftOutput::Extension(matrix), full_n_cols),
        0 <= i < matrix.values@.len(),
        0 <= k < 5,
    ensures
        tree.leaf.values@.len() == 5 * matrix.values@.len(),
        tree.leaf.values@[5 * i + k] == matrix.values@[i]@[k],
        tree.leaf.width == 5 * matrix.width,
        tree.full_leaf_base_width == 5 * full_n_cols,
{
    law_flattened(matrix.values@, i, k);
}

/// The elements of an opened leaf, of either kind.
pub proof fn law_leaf_elements(leaf: OpenedLeaf, i: int, k: int)
    ensures
        leaf matches OpenedLeaf::Base(v) ==> leaf_elements(leaf) == v@,
        leaf matches OpenedLeaf::Extension(v) ==> leaf_elements(leaf).len() == 5 * v@.len() && (0
            <= i < v@.len() && 0 <= k < 5 ==> leaf_elements(leaf)[5 * i + k] == v@[i]@[k]),
{
    if let OpenedLeaf::Extension(v) = leaf {
        if 0 <= i < v@.len() && 0 <= k < 5 {
            law_flattened(v@, i, k);
        }
    }
}

} // verus!
