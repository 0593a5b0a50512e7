//! Two-to-one compression: the two inputs fill the front of the state, and the output is its
//! front after the compression.

use crate::field::Ring;
use crate::symmetric::permutation::Compression;
use vstd::prelude::*;

verus! {

/// The state that holds `left` and `right` and is zero behind them.
pub open spec fn joined_state<T: Ring>(left: Seq<T>, right: Seq<T>, width: int) -> Seq<T> {
    left + right + Seq::new((width - left.len() - right.len()) as nat, |i: int| T::ring_zero())
}

/// The compression of two chunks into one.
pub open spec fn compress_spec<T: Ring, Comp: Compression<T, WIDTH>, const WIDTH: usize>(
    comp: Comp,
    left: Seq<T>,
    right: Seq<T>,
) -> Seq<T> {
    comp.compressed(joined_state(left, right, WIDTH as int)).take(left.len() as int)
}

fn join_state<T: Ring, const CHUNK: usize, const WIDTH: usize>(input: &[[T; CHUNK]; 2]) -> (r: [T;
WIDTH])
    requires
        CHUNK * 2 <= WIDTH,
    ensures
        r@ == joined_state(input@[0]@, input@[1]@, WIDTH as int),
{
    let mut state = [T::zero(); WIDTH];
    let mut i: usize = 0;
    while i < CHUNK
        invariant
            i <= CHUNK,
            CHUNK * 2 <= WIDTH,
            forall|j: int|
                0 <= j < WIDTH ==> #[trigger] state@[j] == if j < i {
                    input@[0]@[j]
                } else if CHUNK <= j < CHUNK + i {
                    input@[1]@[j - CHUNK]
                } else {
                    T::ring_zero()
                },
        decreases CHUNK - i,
    {
        state[i] = input[0][i];
        state[CHUNK + i] = input[1][i];
        i += 1;
    }
    assert(state@ =~= joined_state(input@[0]@, input@[1]@, WIDTH as int));
    state
}

/// The first `CHUNK` elements of a state.
pub(crate) fn front<T: Ring, const CHUNK: usize, const WIDTH: usize>(state: &[T; WIDTH]) -> (r: [T;
CHUNK])
    requires
        CHUNK <= WIDTH,
    ensures
        r@ == state@.take(CHUNK as int),
{
    let mut r = [T::zero(); CHUNK];
    let mut i: usize = 0;
    while i < CHUNK
        invariant
            i <= CHUNK,
            CHUNK <= WIDTH,
            forall|j: int| 0 <= j < i ==> #[trigger] r@[j] == state@[j],
        decreases CHUNK - i,
    {
        r[i] = state[i];
        i += 1;
    }
    assert(r@ =~= state@.take(CHUNK as int));
    r
}

/// Compresses two chunks into one.
pub fn compress<T: Ring, Comp: Compression<T, WIDTH>, const CHUNK: usize, const WIDTH: usize>(
    comp: &Comp,
    input: [[T; CHUNK]; 2],
) -> (r: [T; CHUNK])
    requires
        CHUNK * 2 <= WIDTH,
    ensures
        r@ == compress_spec::<T, Comp, WIDTH>(*comp, input@[0]@, input@[1]@),
{
    let state = join_state::<T, CHUNK, WIDTH>(&input);
    let out = comp.compress(state);
    front::<T, CHUNK, WIDTH>(&out)
}

/// Compresses two independent pairs of chunks.
pub fn compress_x2<T: Ring, Comp: Compression<T, WIDTH>, const CHUNK: usize, const WIDTH: usize>(
    comp: &Comp,
    input_a: [[T; CHUNK]; 2],
    input_b: [[T; CHUNK]; 2],
) -> (r: [[T; CHUNK]; 2])
    requires
        CHUNK * 2 <= WIDTH,
    ensures
        r@[0]@ == compress_spec::<T, Comp, WIDTH>(*comp, input_a@[0]@, input_a@[1]@),
        r@[1]@ == compress_spec::<T, Comp, WIDTH>(*comp, input_b@[0]@, input_b@[1]@),
{
    let mut state_a = join_state::<T, CHUNK, WIDTH>(&input_a);
    let mut state_b = join_state::<T, CHUNK, WIDTH>(&input_b);
    comp.compress_x2_mut(&mut state_a, &mut state_b);
    let out_a = front::<T, CHUNK, WIDTH>(&state_a);
    let out_b = front::<T, CHUNK, WIDTH>(&state_b);
    [out_a, out_b]
}

} // verus!
