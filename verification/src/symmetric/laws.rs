//! What compression, sponges and trees do, step by step.

use crate::field::Ring;
use crate::symmetric::compression::{compress_spec, joined_state};
use crate::symmetric::merkle::{digests, layer_at, next_len, MerkleTree, TwoToOne};
use crate::symmetric::permutation::Compression;
use crate::symmetric::sponge::{absorb_chunk, absorbed, hash_spec, iv_state};
use vstd::prelude::*;

verus! {

/// Two digests are compressed in one state: the left one, behind it the right one, then zeros. The
/// result is the front of what the state is compressed to, as long as the left digest.
pub proof fn law_compression<T: Ring, Comp: Compression<T, WIDTH>, const WIDTH: usize>(
    comp: Comp,
    left: Seq<T>,
    right: Seq<T>,
    state: Seq<T>,
    i: int,
)
    requires
        left.len() + right.len() <= WIDTH,
        state.len() == WIDTH,
        forall|j: int| 0 <= j < left.len() ==> #[trigger] state[j] == left[j],
        forall|j: int| 0 <= j < right.len() ==> state[left.len() + j] == #[trigger] right[j],
        forall|j: int|
            left.len() + right.len() <= j < WIDTH ==> #[trigger] state[j] == T::ring_zero(),
        comp.compressed(state).len() == WIDTH,
        0 <= i < left.len(),
    ensures
        compress_spec::<T, Comp, WIDTH>(comp, left, right).len() == left.len(),
        compress_spec::<T, Comp, WIDTH>(comp, left, right)[i] == comp.compressed(state)[i],
{
    let joined = joined_state(left, right, WIDTH as int);
    assert forall|j: int| 0 <= j < WIDTH implies joined[j] == state[j] by {
        if left.len() <= j < left.len() + right.len() {
            assert(state[left.len() + (j - left.len())] == right[j - left.len()]);
        }
    }
    assert(joined =~= state);
}

/// Absorbing from a state on: the state passes through one compression for each chunk, and chunk
/// `k` stands in the last places of what is compressed.
proof fn lemma_absorbs<T: Ring, Comp: Compression<T, WIDTH>, const WIDTH: usize>(
    comp: Comp,
    data: Seq<T>,
    rate: int,
    n: nat,
    states: Seq<Seq<T>>,
    inputs: Seq<Seq<T>>,
    k: nat,
)
    requires
        0 < rate <= WIDTH,
        data.len() == n * rate,
        k <= n,
        states.len() == n + 1,
        inputs.len() == n,
        forall|m: int| 0 <= m < n ==> (#[trigger] states[m]).len() == WIDTH,
        forall|m: int| 0 <= m < n ==> (#[trigger] inputs[m]).len() == WIDTH,
        forall|m: int|
            0 <= m < n ==> states[m + 1] == comp.compressed(#[trigger] inputs[m]),
        forall|m: int, j: int|
            0 <= m < n && 0 <= j < WIDTH - rate ==> #[trigger] inputs[m][j] == states[m][j],
        forall|m: int, j: int|
            0 <= m < n && WIDTH - rate <= j < WIDTH ==> #[trigger] inputs[m][j] == data[(n - 1 - m)
                * rate + (j - (WIDTH - rate))],
    ensures
        0 <= k * rate <= data.len(),
        absorbed::<T, Comp, WIDTH>(comp, states[k as int], data.reverse().skip(k * rate), rate)
            == states[n as int],
    decreases n - k,
{
    assert(0 <= k * rate && k * rate <= n * rate) by (nonlinear_arith)
        requires
            0 <= k <= n,
            0 < rate,
    ;
    let rest = data.reverse().skip(k * rate);
    if k == n {
        assert(rest.len() == 0);
    } else {
        let chunk = rest.take(rate).reverse();
        assert((k + 1) * rate == k * rate + rate && (k + 1) * rate <= n * rate && (n - 1 - k) * rate
            == n * rate - k * rate - rate) by (nonlinear_arith)
            requires
                0 <= k < n,
                0 < rate,
        ;
        lemma_absorbs::<T, Comp, WIDTH>(comp, data, rate, n, states, inputs, k + 1);
        let input = inputs[k as int];
        let state = states[k as int];
        assert(input.len() == WIDTH && state.len() == WIDTH);
        let joined = state.take(WIDTH - rate) + chunk;
        assert forall|j: int| 0 <= j < WIDTH implies joined[j] == input[j] by {
            if j < WIDTH - rate {
                assert(inputs[k as int][j] == states[k as int][j]);
            } else {
                let q = j - (WIDTH - rate);
                assert(chunk[q] == rest[rate - 1 - q]);
                assert(rest[rate - 1 - q] == data[data.len() - 1 - (k * rate + rate - 1 - q)]);
                assert(inputs[k as int][j] == data[(n - 1 - k) * rate + q]);
            }
        }
        assert(joined =~= input);
        assert(absorb_chunk::<T, Comp, WIDTH>(comp, state, chunk) == comp.compressed(input));
        assert(rest.skip(rate) =~= data.reverse().skip((k + 1) * rate));
    }
}

/// A sponge starts from the length of the data, in front of zeros, and compresses once for each
/// chunk of the data, from the last to the first. What it compresses is the state with the chunk in
/// its last places, in the order of the data. The digest is the front of the last state.
pub proof fn law_sponge<T: Ring, Comp: Compression<T, WIDTH>, const WIDTH: usize>(
    comp: Comp,
    data: Seq<T>,
    rate: int,
    out: int,
    n: nat,
    states: Seq<Seq<T>>,
    inputs: Seq<Seq<T>>,
)
    requires
        0 < rate <= WIDTH,
        data.len() == n * rate,
        0 <= out <= WIDTH,
        states.len() == n + 1,
        states[0].len() == WIDTH,
        states[0][0] == T::of(data.len() as int),
        forall|j: int| 0 < j < WIDTH ==> #[trigger] states[0][j] == T::ring_zero(),
        inputs.len() == n,
        forall|m: int| 0 <= m < n ==> (#[trigger] states[m]).len() == WIDTH,
        forall|m: int| 0 <= m < n ==> (#[trigger] inputs[m]).len() == WIDTH,
        forall|m: int|
            0 <= m < n ==> states[m + 1] == comp.compressed(#[trigger] inputs[m]),
        forall|m: int, j: int|
            0 <= m < n && 0 <= j < WIDTH - rate ==> #[trigger] inputs[m][j] == states[m][j],
        forall|m: int, j: int|
            0 <= m < n && WIDTH - rate <= j < WIDTH ==> #[trigger] inputs[m][j] == data[(n - 1 - m)
                * rate + (j - (WIDTH - rate))],
    ensures
        hash_spec::<T, Comp, WIDTH>(comp, data, rate, out) == states[n as int].take(out),
{
    lemma_absorbs::<T, Comp, WIDTH>(comp, data, rate, n, states, inputs, 0);
    assert(states[0] =~= iv_state(T::of(data.len() as int), WIDTH as int));
    assert(data.reverse().skip(0) =~= data.reverse());
    assert(0 * rate == 0);
}

/// A tree's first layer is what it was built from. Each node of another layer joins the two nodes
/// below it, or is zero where there are none: a layer of two has one node above it, any other one
/// half as many, and one more where that is odd.
pub proof fn law_tree_layers<R: Ring, T: TwoToOne<R, D>, const D: usize>(
    tree: MerkleTree<R, D>,
    t: T,
    first: Seq<Seq<R>>,
    k: int,
    i: int,
)
    requires
        tree.is_tree_of(t, first),
        0 <= k < tree.digest_layers@.len(),
        0 <= i < tree.digest_layers@[k]@.len(),
    ensures
        k == 0 ==> tree.digest_layers@[0]@.len() == first.len() && tree.digest_layers@[0]@[i]@
            == first[i],
        k > 0 ==> ({
            let below = tree.digest_layers@[k - 1]@;
            let here = tree.digest_layers@[k]@;
            &&& here.len() == (if below.len() == 2 {
                1int
            } else {
                below.len() as int / 2 + below.len() as int / 2 % 2
            })
            &&& 2 * i + 1 < below.len() ==> here[i]@ == t.joined(below[2 * i]@, below[2 * i + 1]@)
            &&& 2 * i + 1 >= below.len() ==> forall|j: int|
                0 <= j < D ==> here[i]@[j] == R::ring_zero()
        }),
{
    let here = tree.digest_layers@[k]@;
    assert(digests(here) == layer_at::<R, T, D>(t, first, k));
    assert(digests(here)[i] == here[i]@);
    assert(digests(here).len() == here.len());
    if k > 0 {
        let below = tree.digest_layers@[k - 1]@;
        assert(digests(below) == layer_at::<R, T, D>(t, first, k - 1));
        assert(digests(below).len() == below.len());
        assert(here.len() == next_len(below.len() as int));
        if 2 * i + 1 < below.len() {
            assert(digests(below)[2 * i] == below[2 * i]@);
            assert(digests(below)[2 * i + 1] == below[2 * i + 1]@);
        }
    }
}

/// The digests of a layer, entry by entry.
pub proof fn law_digests<R, const D: usize>(layer: Seq<[R; D]>, i: int)
    requires
        0 <= i < layer.len(),
    ensures
        digests(layer).len() == layer.len(),
        digests(layer)[i] == layer[i]@,
{
}

/// The root is the one digest of the last layer.
pub proof fn law_tree_root<R: Ring, T: TwoToOne<R, D>, const D: usize>(
    tree: MerkleTree<R, D>,
    t: T,
    first: Seq<Seq<R>>,
)
    requires
        tree.is_tree_of(t, first),
    ensures
        tree.digest_layers@.len() > 0,
        tree.digest_layers@[tree.digest_layers@.len() - 1]@.len() == 1,
        tree.root_spec() == tree.digest_layers@[tree.digest_layers@.len() - 1]@[0]@,
{
}

} // verus!
