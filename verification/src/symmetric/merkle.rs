//! Merkle trees over digests of `D` ring elements.

use crate::field::Ring;
use crate::math::{lemma_pow2_base, lemma_pow2_step};
use crate::symmetric::compression::{compress, compress_spec};
use crate::symmetric::permutation::Compression;
use crate::symmetric::sponge::{hash_slice, hash_spec};
use vstd::arithmetic::power2::pow2;
use vstd::prelude::*;

verus! {

/// Field elements of a digest.
pub const DIGEST_ELEMS: usize = 8;

/// A function that joins two digests into one.
pub trait TwoToOne<R: Ring, const D: usize>: Sized {
    /// Whether the function can be applied at all.
    spec fn ready(&self) -> bool;

    spec fn joined(&self, left: Seq<R>, right: Seq<R>) -> Seq<R>;

    fn join(&self, left: [R; D], right: [R; D]) -> (r: [R; D])
        requires
            self.ready(),
        ensures
            r@ == self.joined(left@, right@),
    ;
}

/// The two-to-one function of a compression function on a wider state.
pub struct Truncated<'a, Comp, const WIDTH: usize> {
    pub comp: &'a Comp,
}

impl<'a, R: Ring, Comp: Compression<R, WIDTH>, const D: usize, const WIDTH: usize> TwoToOne<
    R,
    D,
> for Truncated<'a, Comp, WIDTH> {
    open spec fn ready(&self) -> bool {
        D * 2 <= WIDTH
    }

    open spec fn joined(&self, left: Seq<R>, right: Seq<R>) -> Seq<R> {
        compress_spec::<R, Comp, WIDTH>(*self.comp, left, right)
    }

    fn join(&self, left: [R; D], right: [R; D]) -> (r: [R; D]) {
        compress::<R, Comp, D, WIDTH>(self.comp, [left, right])
    }
}

/// The contents of a layer of digests.
pub open spec fn digests<R, const D: usize>(layer: Seq<[R; D]>) -> Seq<Seq<R>> {
    layer.map_values(|d: [R; D]| d@)
}

/// The length of the layer above one of `n` digests. It is even, so that every digest of it has a
/// sibling, unless it is the root.
pub open spec fn next_len(n: int) -> int {
    if n == 2 {
        1
    } else {
        (n / 2 + 1) / 2 * 2
    }
}

/// The layer above `layer`: neighbours are joined, and zeros fill it up to its length.
pub open spec fn next_layer<R: Ring, T: TwoToOne<R, D>, const D: usize>(
    t: T,
    layer: Seq<Seq<R>>,
) -> Seq<Seq<R>> {
    Seq::new(
        next_len(layer.len() as int) as nat,
        |i: int|
            if i < layer.len() as int / 2 {
                t.joined(layer[2 * i], layer[2 * i + 1])
            } else {
                Seq::new(D as nat, |k: int| R::ring_zero())
            },
    )
}

/// Layer `k` of the tree over `first`.
pub open spec fn layer_at<R: Ring, T: TwoToOne<R, D>, const D: usize>(
    t: T,
    first: Seq<Seq<R>>,
    k: int,
) -> Seq<Seq<R>>
    decreases k,
{
    if k <= 0 {
        first
    } else {
        next_layer::<R, T, D>(t, layer_at::<R, T, D>(t, first, k - 1))
    }
}

/// The digests of a Merkle tree, from the leaves' to the root.
#[derive(Debug)]
pub struct MerkleTree<R, const D: usize> {
    pub digest_layers: Vec<Vec<[R; D]>>,
}

impl<R: Ring, const D: usize> MerkleTree<R, D> {
    /// There is a root.
    pub open spec fn rooted(self) -> bool {
        self.digest_layers@.len() > 0 && self.digest_layers@.last()@.len() == 1
    }

    /// This is the tree that `t` gives over the layer `first`.
    pub open spec fn is_tree_of<T: TwoToOne<R, D>>(self, t: T, first: Seq<Seq<R>>) -> bool {
        &&& self.rooted()
        &&& forall|k: int|
            0 <= k < self.digest_layers@.len() ==> digests((#[trigger] self.digest_layers@[k])@)
                == layer_at::<R, T, D>(t, first, k)
        &&& forall|k: int|
            0 <= k < self.digest_layers@.len() - 1 ==> (#[trigger] self.digest_layers@[k])@.len()
                != 1
    }

    /// The digest at the top.
    pub open spec fn root_spec(self) -> Seq<R> {
        self.digest_layers@.last()@[0]@
    }

    /// Builds the tree over a layer of digests, joined by a two-to-one function.
    pub fn from_first_layer_with_fn<T: TwoToOne<R, D>>(t: &T, first_layer: Vec<[R; D]>) -> (r: Self)
        requires
            t.ready(),
            first_layer@.len() > 0,
        ensures
            r.is_tree_of(*t, digests(first_layer@)),
    {
        let ghost first = digests(first_layer@);
        let mut digest_layers: Vec<Vec<[R; D]>> = Vec::new();
        digest_layers.push(first_layer);
        let mut top: usize = 0;
        while digest_layers[top].len() != 1
            invariant
                t.ready(),
                digest_layers@.len() == top + 1,
                digest_layers@[top as int]@.len() > 0,
                forall|k: int|
                    0 <= k <= top ==> digests((#[trigger] digest_layers@[k])@) == layer_at::<
                        R,
                        T,
                        D,
                    >(*t, first, k),
                forall|k: int| 0 <= k < top ==> (#[trigger] digest_layers@[k])@.len() != 1,
            decreases digest_layers@[top as int]@.len(),
        {
            let next = join_layer::<R, T, D>(t, &digest_layers[top]);
            assert(digest_layers.len() == top + 1);
            proof {
                assert(digests(next@) == layer_at::<R, T, D>(*t, first, top + 1));
                assert(digests(next@).len() == next@.len());
                assert(digests(digest_layers@[top as int]@).len()
                    == digest_layers@[top as int]@.len());
            }
            digest_layers.push(next);
            top += 1;
        }
        MerkleTree { digest_layers }
    }

    /// Builds the tree over a layer of digests, joined by a compression function.
    pub fn from_first_layer<Comp: Compression<R, WIDTH>, const WIDTH: usize>(
        comp: &Comp,
        first_layer: Vec<[R; D]>,
    ) -> (r: Self)
        requires
            D * 2 <= WIDTH,
            first_layer@.len() > 0,
        ensures
            r.is_tree_of(Truncated::<Comp, WIDTH> { comp }, digests(first_layer@)),
    {
        let t = Truncated::<Comp, WIDTH> { comp };
        Self::from_first_layer_with_fn(&t, first_layer)
    }

    /// The digest at the top.
    pub fn root(&self) -> (r: [R; D])
        requires
            self.rooted(),
        ensures
            r@ == self.root_spec(),
    {
        self.digest_layers[self.digest_layers.len() - 1][0]
    }

    /// Every digest on the path of `index` has its sibling in the tree, up to layer `height`.
    pub open spec fn has_siblings(self, index: int, height: int) -> bool {
        &&& height <= self.digest_layers@.len()
        &&& forall|i: int|
            0 <= i < height ==> #[trigger] sibling(index, i) < self.digest_layers@[i]@.len()
    }

    /// The siblings along the path from a leaf to the root.
    pub fn open_siblings(&self, index: usize, log_height: usize) -> (r: Vec<[R; D]>)
        requires
            self.has_siblings(index as int, log_height as int),
            index < usize::MAX,
        ensures
            r@.len() == log_height,
            forall|i: int|
                0 <= i < log_height ==> #[trigger] r@[i] == self.digest_layers@[i]@[sibling(
                    index as int,
                    i,
                )],
    {
        let mut out: Vec<[R; D]> = Vec::new();
        let mut at: usize = index;
        let mut i: usize = 0;
        proof {
            lemma_ancestor_step(index as int, 0);
        }
        while i < log_height
            invariant
                i <= log_height,
                self.has_siblings(index as int, log_height as int),
                at == ancestor(index as int, i as int),
                at < usize::MAX,
                out@.len() == i,
                forall|j: int|
                    0 <= j < i ==> #[trigger] out@[j] == self.digest_layers@[j]@[sibling(
                        index as int,
                        j,
                    )],
            decreases log_height - i,
        {
            let s: usize = if at % 2 == 0 {
                at + 1
            } else {
                at - 1
            };
            assert(s == sibling(index as int, i as int));
            out.push(self.digest_layers[i][s]);
            proof {
                lemma_ancestor_step(index as int, i as int);
            }
            at = at / 2;
            i += 1;
        }
        out
    }
}

/// The position in layer `i` of the ancestor of leaf `index`.
pub open spec fn ancestor(index: int, i: int) -> int {
    index / (pow2(i as nat) as int)
}

/// The position of a digest's sibling.
pub open spec fn sibling(index: int, i: int) -> int {
    let at = ancestor(index, i);
    if at % 2 == 0 {
        at + 1
    } else {
        at - 1
    }
}

pub proof fn lemma_ancestor_step(index: int, i: int)
    requires
        0 <= index,
        0 <= i,
    ensures
        ancestor(index, i + 1) == ancestor(index, i) / 2,
        ancestor(index, 0) == index,
        0 <= ancestor(index, i) <= index,
{
    lemma_pow2_base();
    lemma_pow2_step(i as nat);
    let p = pow2(i as nat) as int;
    vstd::arithmetic::div_mod::lemma_div_denominator(index, p, 2);
    assert(p * 2 == pow2((i + 1) as nat)) by {
        assert(pow2((i + 1) as nat) == 2 * pow2(i as nat));
    }
    vstd::arithmetic::div_mod::lemma_div_is_ordered_by_denominator(index, 1, p);
    vstd::arithmetic::div_mod::lemma_div_pos_is_pos(index, p);
}

/// The layer above `prev_layer`.
fn join_layer<R: Ring, T: TwoToOne<R, D>, const D: usize>(t: &T, prev_layer: &Vec<[R; D]>) -> (r:
    Vec<[R; D]>)
    requires
        t.ready(),
    ensures
        digests(r@) == next_layer::<R, T, D>(*t, digests(prev_layer@)),
{
    let n: usize = prev_layer.len();
    let joined_len: usize = n / 2;
    let padded_len: usize = if n == 2 {
        1
    } else {
        (joined_len + 1) / 2 * 2
    };
    let ghost prev = digests(prev_layer@);
    let ghost all = next_layer::<R, T, D>(*t, prev);
    let mut next: Vec<[R; D]> = Vec::new();
    let mut i: usize = 0;
    while i < joined_len
        invariant
            i <= joined_len,
            t.ready(),
            n == prev_layer@.len(),
            joined_len == n / 2,
            prev == digests(prev_layer@),
            all == next_layer::<R, T, D>(*t, prev),
            all.len() >= joined_len,
            next@.len() == i,
            forall|j: int| 0 <= j < i ==> (#[trigger] next@[j])@ == all[j],
        decreases joined_len - i,
    {
        let left = prev_layer[2 * i];
        let right = prev_layer[2 * i + 1];
        let digest = t.join(left, right);
        assert(prev[2 * i as int] == left@ && prev[2 * i + 1] == right@);
        next.push(digest);
        i += 1;
    }
    while i < padded_len
        invariant
            joined_len <= i <= padded_len,
            n == prev_layer@.len(),
            joined_len == n / 2,
            prev == digests(prev_layer@),
            all == next_layer::<R, T, D>(*t, prev),
            all.len() == padded_len,
            next@.len() == i,
            forall|j: int| 0 <= j < i ==> (#[trigger] next@[j])@ == all[j],
        decreases padded_len - i,
    {
        let zero = [R::zero(); D];
        assert(zero@ =~= Seq::new(D as nat, |k: int| R::ring_zero()));
        next.push(zero);
        i += 1;
    }
    assert(digests(next@) =~= all);
    next
}

/// The layer above `prev_layer`, joined by a compression function.
pub fn compress_layer<R: Ring, Comp: Compression<R, WIDTH>, const D: usize, const WIDTH: usize>(
    prev_layer: &Vec<[R; D]>,
    comp: &Comp,
) -> (r: Vec<[R; D]>)
    requires
        D * 2 <= WIDTH,
    ensures
        digests(r@) == next_layer::<R, Truncated<Comp, WIDTH>, D>(
            Truncated::<Comp, WIDTH> { comp },
            digests(prev_layer@),
        ),
{
    let t = Truncated::<Comp, WIDTH> { comp };
    join_layer::<R, Truncated<Comp, WIDTH>, D>(&t, prev_layer)
}

/// The root that a leaf digest at position `index` and its siblings lead to.
pub open spec fn path_root<R: Ring, T: TwoToOne<R, D>, const D: usize>(
    t: T,
    leaf: Seq<R>,
    index: int,
    siblings: Seq<Seq<R>>,
) -> Seq<R>
    decreases siblings.len(),
{
    if siblings.len() == 0 {
        leaf
    } else {
        let s = siblings.first();
        let up = if index % 2 == 0 {
            t.joined(leaf, s)
        } else {
            t.joined(s, leaf)
        };
        path_root::<R, T, D>(t, up, index / 2, siblings.drop_first())
    }
}

/// The root that a leaf digest and its siblings lead to.
pub fn climb<R: Ring, T: TwoToOne<R, D>, const D: usize>(
    t: &T,
    leaf: [R; D],
    index: usize,
    siblings: &[[R; D]],
) -> (r: [R; D])
    requires
        t.ready(),
    ensures
        r@ == path_root::<R, T, D>(*t, leaf@, index as int, digests(siblings@)),
{
    let ghost all = digests(siblings@);
    let mut root = leaf;
    let mut at: usize = index;
    let mut i: usize = 0;
    assert(all.skip(0) =~= all);
    while i < siblings.len()
        invariant
            i <= siblings@.len(),
            t.ready(),
            all == digests(siblings@),
            path_root::<R, T, D>(*t, leaf@, index as int, all) == path_root::<R, T, D>(
                *t,
                root@,
                at as int,
                all.skip(i as int),
            ),
        decreases siblings@.len() - i,
    {
        let sibling = siblings[i];
        proof {
            assert(all.skip(i as int).first() == sibling@);
            assert(all.skip(i as int).drop_first() =~= all.skip(i + 1));
        }
        root = if at % 2 == 0 {
            t.join(root, sibling)
        } else {
            t.join(sibling, root)
        };
        at = at / 2;
        i += 1;
    }
    root
}

/// Whether two digests are equal.
pub fn digests_equal<R: Ring, const D: usize>(a: &[R; D], b: &[R; D]) -> (r: bool)
    ensures
        r == (a@ == b@),
{
    let mut i: usize = 0;
    while i < D
        invariant
            i <= D,
            forall|j: int| 0 <= j < i ==> a@[j] == b@[j],
        decreases D - i,
    {
        if !a[i].equals(b[i]) {
            assert(a@[i as int] != b@[i as int]);
            return false;
        }
        i += 1;
    }
    assert(a@ =~= b@);
    true
}

/// Checks that `opened_values` are the leaf at `index` of the tree with root `commit`.
pub fn merkle_verify<
    R: Ring,
    Comp: Compression<R, WIDTH>,
    const D: usize,
    const WIDTH: usize,
    const RATE: usize,
>(
    comp: &Comp,
    commit: &[R; D],
    log_height: usize,
    index: usize,
    opened_values: &[R],
    opening_proof: &[[R; D]],
) -> (r: bool)
    requires
        RATE == D,
        WIDTH == D + RATE,
        RATE > 0,
        opened_values@.len() % (RATE as nat) == 0,
    ensures
        r <==> opening_proof@.len() == log_height && commit@ == path_root::<
            R,
            Truncated<Comp, WIDTH>,
            D,
        >(
            Truncated::<Comp, WIDTH> { comp },
            hash_spec::<R, Comp, WIDTH>(*comp, opened_values@, RATE as int, D as int),
            index as int,
            digests(opening_proof@),
        ),
{
    if opening_proof.len() != log_height {
        return false;
    }
    let leaf = hash_slice::<R, Comp, WIDTH, RATE, D>(comp, opened_values);
    let t = Truncated::<Comp, WIDTH> { comp };
    let root = climb::<R, Truncated<Comp, WIDTH>, D>(&t, leaf, index, opening_proof);
    digests_equal(commit, &root)
}

/// A tree over `2^h` digests has `h` layers above them, each half as long as the one below.
pub proof fn law_layer_lengths<R: Ring, T: TwoToOne<R, D>, const D: usize>(
    t: T,
    first: Seq<Seq<R>>,
    h: nat,
    k: nat,
)
    requires
        first.len() == pow2(h),
        k <= h,
    ensures
        layer_at::<R, T, D>(t, first, k as int).len() == pow2((h - k) as nat),
    decreases k,
{
    if k > 0 {
        law_layer_lengths::<R, T, D>(t, first, h, (k - 1) as nat);
        let j = (h - k) as nat;
        lemma_pow2_step(j);
        lemma_pow2_base();
        if j > 0 {
            lemma_pow2_step((j - 1) as nat);
        }
    }
}

/// Opening a leaf and climbing back with its siblings gives the root: for every tree over `2^h`
/// digests and every leaf of it.
pub proof fn law_open_then_climb<R: Ring, T: TwoToOne<R, D>, const D: usize>(
    tree: MerkleTree<R, D>,
    t: T,
    first: Seq<Seq<R>>,
    h: nat,
    index: int,
    siblings: Seq<Seq<R>>,
)
    requires
        tree.is_tree_of(t, first),
        first.len() == pow2(h),
        0 <= index < pow2(h),
        siblings.len() == h,
        forall|i: int|
            0 <= i < h ==> #[trigger] siblings[i] == tree.digest_layers@[i]@[sibling(index, i)]@,
    ensures
        tree.digest_layers@.len() == h + 1,
        tree.has_siblings(index, h as int),
        path_root::<R, T, D>(t, first[index], index, siblings) == tree.root_spec(),
{
    lemma_tree_height::<R, T, D>(tree, t, first, h);
    lemma_has_siblings::<R, T, D>(tree, t, first, h, index);
    lemma_climb::<R, T, D>(tree, t, first, h, index, siblings, 0);
    lemma_ancestor_step(index, 0);
    assert(siblings.skip(0) =~= siblings);
    assert(tree.digest_layers@.last() == tree.digest_layers@[h as int]);
    assert(digests(tree.digest_layers@[h as int]@) == layer_at::<R, T, D>(t, first, h as int));
    assert(digests(tree.digest_layers@[h as int]@)[0] == tree.digest_layers@[h as int]@[0]@);
}

pub proof fn lemma_tree_height<R: Ring, T: TwoToOne<R, D>, const D: usize>(
    tree: MerkleTree<R, D>,
    t: T,
    first: Seq<Seq<R>>,
    h: nat,
)
    requires
        tree.is_tree_of(t, first),
        first.len() == pow2(h),
    ensures
        tree.digest_layers@.len() == h + 1,
{
    let n = tree.digest_layers@.len();
    lemma_pow2_base();
    if n > h + 1 {
        law_layer_lengths::<R, T, D>(t, first, h, h);
        assert(digests(tree.digest_layers@[h as int]@).len()
            == tree.digest_layers@[h as int]@.len());
    } else if n < h + 1 {
        let k = (n - 1) as nat;
        law_layer_lengths::<R, T, D>(t, first, h, k);
        assert(digests(tree.digest_layers@[k as int]@).len()
            == tree.digest_layers@[k as int]@.len());
        let j = (h - k - 1) as nat;
        lemma_pow2_step(j);
    }
}

pub proof fn lemma_ancestor_bound(index: int, h: nat, i: nat)
    requires
        0 <= index < pow2(h),
        i <= h,
    ensures
        0 <= ancestor(index, i as int) < pow2((h - i) as nat),
    decreases i,
{
    if i == 0 {
        lemma_ancestor_step(index, 0);
    } else {
        lemma_ancestor_bound(index, h, (i - 1) as nat);
        lemma_ancestor_step(index, i - 1);
        lemma_pow2_step((h - i) as nat);
    }
}

proof fn lemma_has_siblings<R: Ring, T: TwoToOne<R, D>, const D: usize>(
    tree: MerkleTree<R, D>,
    t: T,
    first: Seq<Seq<R>>,
    h: nat,
    index: int,
)
    requires
        tree.is_tree_of(t, first),
        first.len() == pow2(h),
        0 <= index < pow2(h),
    ensures
        tree.has_siblings(index, h as int),
{
    lemma_tree_height::<R, T, D>(tree, t, first, h);
    assert forall|i: int| 0 <= i < h implies #[trigger] sibling(index, i)
        < tree.digest_layers@[i]@.len() by {
        law_layer_lengths::<R, T, D>(t, first, h, i as nat);
        assert(digests(tree.digest_layers@[i]@).len() == tree.digest_layers@[i]@.len());
        lemma_ancestor_bound(index, h, i as nat);
        lemma_pow2_step((h - i - 1) as nat);
    }
}

/// Climbing from layer `k` on leads to the root.
proof fn lemma_climb<R: Ring, T: TwoToOne<R, D>, const D: usize>(
    tree: MerkleTree<R, D>,
    t: T,
    first: Seq<Seq<R>>,
    h: nat,
    index: int,
    siblings: Seq<Seq<R>>,
    k: nat,
)
    requires
        tree.is_tree_of(t, first),
        tree.digest_layers@.len() == h + 1,
        first.len() == pow2(h),
        0 <= index < pow2(h),
        siblings.len() == h,
        k <= h,
        forall|i: int|
            0 <= i < h ==> #[trigger] siblings[i] == tree.digest_layers@[i]@[sibling(index, i)]@,
    ensures
        path_root::<R, T, D>(
            t,
            layer_at::<R, T, D>(t, first, k as int)[ancestor(index, k as int)],
            ancestor(index, k as int),
            siblings.skip(k as int),
        ) == layer_at::<R, T, D>(t, first, h as int)[0],
    decreases h - k,
{
    let at = ancestor(index, k as int);
    lemma_ancestor_bound(index, h, k);
    if k == h {
        lemma_pow2_base();
        assert(siblings.skip(k as int).len() == 0);
    } else {
        let layer = layer_at::<R, T, D>(t, first, k as int);
        law_layer_lengths::<R, T, D>(t, first, h, k);
        law_layer_lengths::<R, T, D>(t, first, h, k + 1);
        lemma_pow2_step((h - k - 1) as nat);
        lemma_ancestor_step(index, k as int);
        lemma_climb::<R, T, D>(tree, t, first, h, index, siblings, k + 1);
        let rest = siblings.skip(k as int);
        assert(rest.first() == siblings[k as int]);
        assert(rest.drop_first() =~= siblings.skip(k as int + 1));
        let s = sibling(index, k as int);
        assert(digests(tree.digest_layers@[k as int]@) == layer);
        assert(digests(tree.digest_layers@[k as int]@)[s] == tree.digest_layers@[k as int]@[s]@);
        let up = ancestor(index, k as int + 1);
        assert(layer_at::<R, T, D>(t, first, k as int + 1)[up] == t.joined(layer[2 * up], layer[2 * up
            + 1]));
    }
}

/// Takes the lanes of a packed digest apart.
pub fn unpack_array<T: Ring, const LANES: usize, const N: usize>(
    packed_digest: [[T; LANES]; N],
) -> (r: Vec<[T; N]>)
    ensures
        r@.len() == LANES,
        forall|j: int, i: int|
            0 <= j < LANES && 0 <= i < N ==> #[trigger] r@[j]@[i] == packed_digest@[i]@[j],
{
    let mut out: Vec<[T; N]> = Vec::new();
    let mut j: usize = 0;
    while j < LANES
        invariant
            j <= LANES,
            out@.len() == j,
            forall|l: int, i: int|
                0 <= l < j && 0 <= i < N ==> #[trigger] out@[l]@[i] == packed_digest@[i]@[l],
        decreases LANES - j,
    {
        let mut lane = [T::zero(); N];
        let mut i: usize = 0;
        while i < N
            invariant
                j < LANES,
                i <= N,
                forall|k: int| 0 <= k < i ==> #[trigger] lane@[k] == packed_digest@[k]@[j as int],
            decreases N - i,
        {
            lane[i] = packed_digest[i][j];
            i += 1;
        }
        out.push(lane);
        j += 1;
    }
    out
}

} // verus!
