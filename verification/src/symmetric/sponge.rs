//! Sponges that absorb their input from right to left.

use crate::field::Ring;
use crate::symmetric::compression::front;
use crate::symmetric::permutation::{Compress2x, Compression};
use vstd::prelude::*;

verus! {

/// The state after one chunk: the chunk replaces the back of the state, which is then compressed.
pub open spec fn absorb_chunk<T: Ring, Comp: Compression<T, WIDTH>, const WIDTH: usize>(
    comp: Comp,
    state: Seq<T>,
    chunk: Seq<T>,
) -> Seq<T> {
    comp.compressed(state.take(WIDTH - chunk.len()) + chunk)
}

/// The state after absorbing `items`, which come in the order in which they are read: the last
/// element of the hashed data first. Every `rate` of them make up a chunk.
pub open spec fn absorbed<T: Ring, Comp: Compression<T, WIDTH>, const WIDTH: usize>(
    comp: Comp,
    state: Seq<T>,
    items: Seq<T>,
    rate: int,
) -> Seq<T>
    decreases items.len(),
{
    if rate <= 0 || items.len() < rate {
        state
    } else {
        absorbed::<T, Comp, WIDTH>(
            comp,
            absorb_chunk::<T, Comp, WIDTH>(comp, state, items.take(rate).reverse()),
            items.skip(rate),
            rate,
        )
    }
}

/// The state `[first, 0, ..., 0]`.
pub open spec fn iv_state<T: Ring>(first: T, width: int) -> Seq<T> {
    Seq::new(
        width as nat,
        |i: int|
            if i == 0 {
                first
            } else {
                T::ring_zero()
            },
    )
}

/// The hash of `data`: the length in the first element of the state, then the chunks of the data
/// from right to left.
pub open spec fn hash_spec<T: Ring, Comp: Compression<T, WIDTH>, const WIDTH: usize>(
    comp: Comp,
    data: Seq<T>,
    rate: int,
    out: int,
) -> Seq<T> {
    absorbed::<T, Comp, WIDTH>(
        comp,
        iv_state(T::of(data.len() as int), WIDTH as int),
        data.reverse(),
        rate,
    ).take(out)
}

/// The state after `n` chunks of zeros.
pub open spec fn zero_chunks<T: Ring, Comp: Compression<T, WIDTH>, const WIDTH: usize>(
    comp: Comp,
    state: Seq<T>,
    rate: int,
    n: int,
) -> Seq<T>
    decreases n,
{
    if n <= 0 {
        state
    } else {
        absorb_chunk::<T, Comp, WIDTH>(
            comp,
            zero_chunks::<T, Comp, WIDTH>(comp, state, rate, n - 1),
            zeros(rate),
        )
    }
}

pub open spec fn zeros<T: Ring>(n: int) -> Seq<T> {
    Seq::new(n as nat, |i: int| T::ring_zero())
}

/// Absorbing a chunk-aligned prefix first and the rest later is absorbing all of it.
pub proof fn law_absorb_in_parts<T: Ring, Comp: Compression<T, WIDTH>, const WIDTH: usize>(
    comp: Comp,
    state: Seq<T>,
    first: Seq<T>,
    rest: Seq<T>,
    rate: int,
)
    requires
        rate > 0,
        first.len() % (rate as nat) == 0,
    ensures
        absorbed::<T, Comp, WIDTH>(comp, state, first + rest, rate) == absorbed::<T, Comp, WIDTH>(
            comp,
            absorbed::<T, Comp, WIDTH>(comp, state, first, rate),
            rest,
            rate,
        ),
    decreases first.len(),
{
    if first.len() < rate {
        vstd::arithmetic::div_mod::lemma_small_mod(first.len(), rate as nat);
        assert(first + rest =~= rest);
    } else {
        let chunk = first.take(rate);
        assert((first + rest).take(rate) =~= chunk);
        assert((first + rest).skip(rate) =~= first.skip(rate) + rest);
        vstd::arithmetic::div_mod::lemma_mod_sub_multiples_vanish(first.len() as int, rate);
        law_absorb_in_parts::<T, Comp, WIDTH>(
            comp,
            absorb_chunk::<T, Comp, WIDTH>(comp, state, chunk.reverse()),
            first.skip(rate),
            rest,
            rate,
        );
    }
}

/// Absorbing zeros is absorbing chunks of zeros.
pub proof fn law_absorb_zeros<T: Ring, Comp: Compression<T, WIDTH>, const WIDTH: usize>(
    comp: Comp,
    state: Seq<T>,
    rate: int,
    n: int,
)
    requires
        rate > 0,
        n >= 0,
    ensures
        absorbed::<T, Comp, WIDTH>(comp, state, zeros(n * rate), rate) == zero_chunks::<
            T,
            Comp,
            WIDTH,
        >(comp, state, rate, n),
    decreases n,
{
    if n == 0 {
        assert(zeros::<T>(0 * rate).len() == 0);
    } else {
        let before = zeros::<T>((n - 1) * rate);
        assert(n * rate == (n - 1) * rate + rate && (n - 1) * rate >= 0) by (nonlinear_arith)
            requires
                n >= 1,
                rate > 0,
        ;
        assert(zeros::<T>(n * rate) =~= before + zeros::<T>(rate));
        assert(before.len() % (rate as nat) == 0) by {
            vstd::arithmetic::div_mod::lemma_mod_multiples_basic(n - 1, rate);
        }
        law_absorb_in_parts::<T, Comp, WIDTH>(comp, state, before, zeros(rate), rate);
        law_absorb_zeros::<T, Comp, WIDTH>(comp, state, rate, n - 1);
        let mid = absorbed::<T, Comp, WIDTH>(comp, state, before, rate);
        let z = zeros::<T>(rate);
        assert(z.take(rate).reverse() =~= z);
        assert(z.skip(rate).len() == 0);
        reveal_with_fuel(absorbed, 2);
    }
}

/// Fills the back of `state` with the items from `at` on, the first of them last, and compresses.
fn absorb_at<
    T: Ring,
    Comp: Compression<T, WIDTH>,
    const WIDTH: usize,
    const RATE: usize,
>(comp: &Comp, state: &mut [T; WIDTH], items: &[T], at: usize)
    requires
        RATE <= WIDTH,
        at + RATE <= items.len(),
    ensures
        final(state)@ == absorb_chunk::<T, Comp, WIDTH>(
            *comp,
            old(state)@,
            items@.subrange(at as int, at + RATE).reverse(),
        ),
{
    fill_at::<T, WIDTH, RATE>(state, items, at);
    comp.compress_mut(state);
}

/// Fills the back of `state` with the items from `at` on, the first of them last.
fn fill_at<T: Ring, const WIDTH: usize, const RATE: usize>(
    state: &mut [T; WIDTH],
    items: &[T],
    at: usize,
)
    requires
        RATE <= WIDTH,
        at + RATE <= items.len(),
    ensures
        final(state)@ == old(state)@.take(WIDTH - RATE) + items@.subrange(
            at as int,
            at + RATE,
        ).reverse(),
{
    let mut k: usize = 0;
    while k < RATE
        invariant
            k <= RATE,
            RATE <= WIDTH,
            at + RATE <= items.len(),
            forall|j: int|
                0 <= j < WIDTH ==> #[trigger] state@[j] == if j >= WIDTH - k {
                    items@[at + (WIDTH - 1 - j)]
                } else {
                    old(state)@[j]
                },
        decreases RATE - k,
    {
        state[WIDTH - 1 - k] = items[at + k];
        k += 1;
    }
    assert(state@ =~= old(state)@.take(WIDTH - RATE) + items@.subrange(
        at as int,
        at + RATE,
    ).reverse());
}

/// One more chunk of `items` has been absorbed.
proof fn lemma_absorbed_step<T: Ring, Comp: Compression<T, WIDTH>, const WIDTH: usize>(
    comp: Comp,
    state: Seq<T>,
    items: Seq<T>,
    at: int,
    rate: int,
)
    requires
        rate > 0,
        0 <= at,
        at + rate <= items.len(),
    ensures
        absorbed::<T, Comp, WIDTH>(comp, state, items.skip(at), rate) == absorbed::<T, Comp, WIDTH>(
            comp,
            absorb_chunk::<T, Comp, WIDTH>(
                comp,
                state,
                items.subrange(at, at + rate).reverse(),
            ),
            items.skip(at + rate),
            rate,
        ),
{
    assert(items.skip(at).take(rate) =~= items.subrange(at, at + rate));
    assert(items.skip(at).skip(rate) =~= items.skip(at + rate));
}

/// Absorbs `data` from right to left into the state `[data.len(), 0, ..., 0]`.
pub fn hash_slice<
    T: Ring,
    Comp: Compression<T, WIDTH>,
    const WIDTH: usize,
    const RATE: usize,
    const OUT: usize,
>(comp: &Comp, data: &[T]) -> (r: [T; OUT])
    requires
        RATE == OUT,
        WIDTH == OUT + RATE,
        RATE > 0,
        data@.len() % (RATE as nat) == 0,
    ensures
        r@ == hash_spec::<T, Comp, WIDTH>(*comp, data@, RATE as int, OUT as int),
{
    let mut state = [T::zero(); WIDTH];
    state[0] = T::from_usize(data.len());
    let ghost iv = iv_state(T::of(data@.len() as int), WIDTH as int);
    assert(state@ =~= iv);
    let ghost items = data@.reverse();
    let mut end: usize = data.len();
    let ghost mut done: int = 0;
    assert(items.skip(0) =~= items);
    while end > 0
        invariant
            end <= data@.len(),
            done == data@.len() - end,
            RATE == OUT,
            WIDTH == OUT + RATE,
            RATE > 0,
            end % RATE == 0,
            items == data@.reverse(),
            absorbed::<T, Comp, WIDTH>(*comp, iv, items, RATE as int) == absorbed::<T, Comp, WIDTH>(
                *comp,
                state@,
                items.skip(done),
                RATE as int,
            ),
        decreases end,
    {
        assert(end >= RATE) by {
            if end < RATE {
                vstd::arithmetic::div_mod::lemma_small_mod(end as nat, RATE as nat);
            }
        }
        let start: usize = end - RATE;
        let ghost before = state@;
        let mut k: usize = 0;
        while k < RATE
            invariant
                k <= RATE,
                WIDTH == OUT + RATE,
                start + RATE <= data.len(),
                forall|j: int|
                    0 <= j < WIDTH ==> #[trigger] state@[j] == if WIDTH - RATE <= j < WIDTH - RATE
                        + k {
                        data@[start + (j - (WIDTH - RATE))]
                    } else {
                        before[j]
                    },
            decreases RATE - k,
        {
            state[WIDTH - RATE + k] = data[start + k];
            k += 1;
        }
        proof {
            let chunk = items.subrange(done, done + RATE).reverse();
            assert(chunk =~= data@.subrange(start as int, end as int));
            assert(state@ =~= before.take(WIDTH - RATE) + chunk);
            lemma_absorbed_step::<T, Comp, WIDTH>(*comp, before, items, done, RATE as int);
            vstd::arithmetic::div_mod::lemma_mod_sub_multiples_vanish(end as int, RATE as int);
            done = done + RATE;
        }
        comp.compress_mut(&mut state);
        end = start;
    }
    front::<T, OUT, WIDTH>(&state)
}

/// The state after absorbing `n_zero_chunks` chunks of zeros into `[iv_first, 0, ..., 0]`.
pub fn precompute_zero_suffix_state<
    T: Ring,
    Comp: Compression<T, WIDTH>,
    const WIDTH: usize,
    const RATE: usize,
    const OUT: usize,
>(comp: &Comp, iv_first: T, n_zero_chunks: usize) -> (r: [T; WIDTH])
    requires
        RATE == OUT,
        WIDTH == OUT + RATE,
        RATE > 0,
    ensures
        r@ == zero_chunks::<T, Comp, WIDTH>(
            *comp,
            iv_state(iv_first, WIDTH as int),
            RATE as int,
            n_zero_chunks as int,
        ),
{
    let mut state = [T::zero(); WIDTH];
    state[0] = iv_first;
    let ghost iv = iv_state(iv_first, WIDTH as int);
    assert(state@ =~= iv);
    let mut i: usize = 0;
    while i < n_zero_chunks
        invariant
            i <= n_zero_chunks,
            WIDTH == OUT + RATE,
            state@ == zero_chunks::<T, Comp, WIDTH>(*comp, iv, RATE as int, i as int),
        decreases n_zero_chunks - i,
    {
        let ghost before = state@;
        let mut k: usize = WIDTH - RATE;
        while k < WIDTH
            invariant
                WIDTH - RATE <= k <= WIDTH,
                WIDTH == OUT + RATE,
                forall|j: int|
                    0 <= j < WIDTH ==> #[trigger] state@[j] == if WIDTH - RATE <= j < k {
                        T::ring_zero()
                    } else {
                        before[j]
                    },
            decreases WIDTH - k,
        {
            state[k] = T::zero();
            k += 1;
        }
        assert(state@ =~= before.take(WIDTH - RATE) + zeros(RATE as int));
        comp.compress_mut(&mut state);
        i += 1;
    }
    state
}

/// Absorbs `items` into `initial_state`. The items come in the order in which they are absorbed,
/// the last element of the hashed data first.
pub fn hash_rtl_iter_with_initial_state<
    T: Ring,
    Comp: Compression<T, WIDTH>,
    const WIDTH: usize,
    const RATE: usize,
    const OUT: usize,
>(comp: &Comp, items: &[T], initial_state: &[T; WIDTH]) -> (r: [T; OUT])
    requires
        RATE == OUT,
        WIDTH == OUT + RATE,
        RATE > 0,
        items@.len() % (RATE as nat) == 0,
    ensures
        r@ == absorbed::<T, Comp, WIDTH>(
            *comp,
            initial_state@,
            items@,
            RATE as int,
        ).take(OUT as int),
{
    let mut state = *initial_state;
    let mut at: usize = 0;
    assert(items@.skip(0) =~= items@);
    while at < items.len()
        invariant
            at <= items@.len(),
            RATE == OUT,
            WIDTH == OUT + RATE,
            RATE > 0,
            (items@.len() - at) % (RATE as int) == 0,
            absorbed::<T, Comp, WIDTH>(*comp, initial_state@, items@, RATE as int) == absorbed::<
                T,
                Comp,
                WIDTH,
            >(*comp, state@, items@.skip(at as int), RATE as int),
        decreases items@.len() - at,
    {
        proof {
            lemma_full_chunk(items@.len() - at, RATE as int);
            lemma_absorbed_step::<T, Comp, WIDTH>(
                *comp,
                state@,
                items@,
                at as int,
                RATE as int,
            );
        }
        absorb_at::<T, Comp, WIDTH, RATE>(comp, &mut state, items, at);
        at += RATE;
    }
    front::<T, OUT, WIDTH>(&state)
}

/// What is left of a whole number of chunks is empty or holds a chunk.
proof fn lemma_full_chunk(left: int, rate: int)
    requires
        left > 0,
        rate > 0,
        left % rate == 0,
    ensures
        left >= rate,
        (left - rate) % rate == 0,
{
    if left < rate {
        vstd::arithmetic::div_mod::lemma_small_mod(left as nat, rate as nat);
    }
    vstd::arithmetic::div_mod::lemma_mod_sub_multiples_vanish(left, rate);
}

/// Absorbs the items from `start` on.
fn absorb_rest<T: Ring, Comp: Compression<T, WIDTH>, const WIDTH: usize, const RATE: usize>(
    comp: &Comp,
    state: &mut [T; WIDTH],
    items: &[T],
    start: usize,
)
    requires
        RATE > 0,
        RATE <= WIDTH,
        start <= items@.len(),
        (items@.len() - start) % (RATE as int) == 0,
    ensures
        final(state)@ == absorbed::<T, Comp, WIDTH>(
            *comp,
            old(state)@,
            items@.skip(start as int),
            RATE as int,
        ),
{
    let mut at: usize = start;
    while at < items.len()
        invariant
            start <= at <= items@.len(),
            RATE > 0,
            RATE <= WIDTH,
            (items@.len() - at) % (RATE as int) == 0,
            absorbed::<T, Comp, WIDTH>(
                *comp,
                old(state)@,
                items@.skip(start as int),
                RATE as int,
            ) == absorbed::<T, Comp, WIDTH>(
                *comp,
                state@,
                items@.skip(at as int),
                RATE as int,
            ),
        decreases items@.len() - at,
    {
        proof {
            lemma_full_chunk(items@.len() - at, RATE as int);
            lemma_absorbed_step::<T, Comp, WIDTH>(*comp, state@, items@, at as int, RATE as int);
        }
        absorb_at::<T, Comp, WIDTH, RATE>(comp, state, items, at);
        at += RATE;
    }
}

/// Two sponge chains in lockstep. Both start from `initial_state`, and each absorbs its input to
/// the end; where one input is longer, its chain goes on alone.
pub fn hash_rtl_iter_interleaved_2x<
    T: Ring,
    Comp: Compression<T, WIDTH>,
    const WIDTH: usize,
    const RATE: usize,
    const OUT: usize,
>(comp: &Comp, items_a: &[T], items_b: &[T], initial_state: &[T; WIDTH]) -> (r: (
    [T; OUT],
    [T; OUT],
))
    requires
        RATE == OUT,
        WIDTH == OUT + RATE,
        RATE > 0,
        items_a@.len() % (RATE as nat) == 0,
        items_b@.len() % (RATE as nat) == 0,
    ensures
        r.0@ == absorbed::<T, Comp, WIDTH>(
            *comp,
            initial_state@,
            items_a@,
            RATE as int,
        ).take(OUT as int),
        r.1@ == absorbed::<T, Comp, WIDTH>(
            *comp,
            initial_state@,
            items_b@,
            RATE as int,
        ).take(OUT as int),
{
    let mut state_a = *initial_state;
    let mut state_b = *initial_state;
    let mut at: usize = 0;
    assert(items_a@.skip(0) =~= items_a@);
    assert(items_b@.skip(0) =~= items_b@);
    while at < items_a.len() && at < items_b.len()
        invariant
            at <= items_a@.len(),
            at <= items_b@.len(),
            RATE == OUT,
            WIDTH == OUT + RATE,
            RATE > 0,
            (items_a@.len() - at) % (RATE as int) == 0,
            (items_b@.len() - at) % (RATE as int) == 0,
            absorbed::<T, Comp, WIDTH>(*comp, initial_state@, items_a@, RATE as int) == absorbed::<
                T,
                Comp,
                WIDTH,
            >(*comp, state_a@, items_a@.skip(at as int), RATE as int),
            absorbed::<T, Comp, WIDTH>(*comp, initial_state@, items_b@, RATE as int) == absorbed::<
                T,
                Comp,
                WIDTH,
            >(*comp, state_b@, items_b@.skip(at as int), RATE as int),
        decreases items_a@.len() - at,
    {
        proof {
            lemma_full_chunk(items_a@.len() - at, RATE as int);
            lemma_full_chunk(items_b@.len() - at, RATE as int);
            lemma_absorbed_step::<T, Comp, WIDTH>(
                *comp,
                state_a@,
                items_a@,
                at as int,
                RATE as int,
            );
            lemma_absorbed_step::<T, Comp, WIDTH>(
                *comp,
                state_b@,
                items_b@,
                at as int,
                RATE as int,
            );
        }
        absorb_at::<T, Comp, WIDTH, RATE>(comp, &mut state_a, items_a, at);
        absorb_at::<T, Comp, WIDTH, RATE>(comp, &mut state_b, items_b, at);
        at += RATE;
    }
    absorb_rest::<T, Comp, WIDTH, RATE>(comp, &mut state_a, items_a, at);
    absorb_rest::<T, Comp, WIDTH, RATE>(comp, &mut state_b, items_b, at);
    (front::<T, OUT, WIDTH>(&state_a), front::<T, OUT, WIDTH>(&state_b))
}

/// Absorbs the items from `start` on. A second state goes along with the compressions and is
/// dropped.
fn absorb_rest_deep<T: Ring, Comp: Compress2x<T, WIDTH>, const WIDTH: usize, const RATE: usize>(
    comp: &Comp,
    state: &mut [T; WIDTH],
    items: &[T],
    start: usize,
)
    requires
        RATE > 0,
        RATE <= WIDTH,
        start <= items@.len(),
        (items@.len() - start) % (RATE as int) == 0,
    ensures
        final(state)@ == absorbed::<T, Comp, WIDTH>(
            *comp,
            old(state)@,
            items@.skip(start as int),
            RATE as int,
        ),
{
    let mut dummy = *state;
    let mut at: usize = start;
    while at < items.len()
        invariant
            start <= at <= items@.len(),
            RATE > 0,
            RATE <= WIDTH,
            (items@.len() - at) % (RATE as int) == 0,
            absorbed::<T, Comp, WIDTH>(
                *comp,
                old(state)@,
                items@.skip(start as int),
                RATE as int,
            ) == absorbed::<T, Comp, WIDTH>(
                *comp,
                state@,
                items@.skip(at as int),
                RATE as int,
            ),
        decreases items@.len() - at,
    {
        proof {
            lemma_full_chunk(items@.len() - at, RATE as int);
            lemma_absorbed_step::<T, Comp, WIDTH>(*comp, state@, items@, at as int, RATE as int);
        }
        fill_at::<T, WIDTH, RATE>(state, items, at);
        comp.compress_2x(state, &mut dummy);
        at += RATE;
    }
}

/// Two sponge chains in lockstep, their compressions interleaved round by round. It gives what
/// [`hash_rtl_iter_interleaved_2x`] gives.
pub fn hash_rtl_iter_interleaved_2x_deep<
    T: Ring,
    Comp: Compress2x<T, WIDTH>,
    const WIDTH: usize,
    const RATE: usize,
    const OUT: usize,
>(comp: &Comp, items_a: &[T], items_b: &[T], initial_state: &[T; WIDTH]) -> (r: (
    [T; OUT],
    [T; OUT],
))
    requires
        RATE == OUT,
        WIDTH == OUT + RATE,
        RATE > 0,
        items_a@.len() % (RATE as nat) == 0,
        items_b@.len() % (RATE as nat) == 0,
    ensures
        r.0@ == absorbed::<T, Comp, WIDTH>(
            *comp,
            initial_state@,
            items_a@,
            RATE as int,
        ).take(OUT as int),
        r.1@ == absorbed::<T, Comp, WIDTH>(
            *comp,
            initial_state@,
            items_b@,
            RATE as int,
        ).take(OUT as int),
{
    let mut state_a = *initial_state;
    let mut state_b = *initial_state;
    let mut at: usize = 0;
    assert(items_a@.skip(0) =~= items_a@);
    assert(items_b@.skip(0) =~= items_b@);
    while at < items_a.len() && at < items_b.len()
        invariant
            at <= items_a@.len(),
            at <= items_b@.len(),
            RATE == OUT,
            WIDTH == OUT + RATE,
            RATE > 0,
            (items_a@.len() - at) % (RATE as int) == 0,
            (items_b@.len() - at) % (RATE as int) == 0,
            absorbed::<T, Comp, WIDTH>(*comp, initial_state@, items_a@, RATE as int) == absorbed::<
                T,
                Comp,
                WIDTH,
            >(*comp, state_a@, items_a@.skip(at as int), RATE as int),
            absorbed::<T, Comp, WIDTH>(*comp, initial_state@, items_b@, RATE as int) == absorbed::<
                T,
                Comp,
                WIDTH,
            >(*comp, state_b@, items_b@.skip(at as int), RATE as int),
        decreases items_a@.len() - at,
    {
        proof {
            lemma_full_chunk(items_a@.len() - at, RATE as int);
            lemma_full_chunk(items_b@.len() - at, RATE as int);
            lemma_absorbed_step::<T, Comp, WIDTH>(
                *comp,
                state_a@,
                items_a@,
                at as int,
                RATE as int,
            );
            lemma_absorbed_step::<T, Comp, WIDTH>(
                *comp,
                state_b@,
                items_b@,
                at as int,
                RATE as int,
            );
        }
        fill_at::<T, WIDTH, RATE>(&mut state_a, items_a, at);
        fill_at::<T, WIDTH, RATE>(&mut state_b, items_b, at);
        comp.compress_2x(&mut state_a, &mut state_b);
        at += RATE;
    }
    absorb_rest_deep::<T, Comp, WIDTH, RATE>(comp, &mut state_a, items_a, at);
    absorb_rest_deep::<T, Comp, WIDTH, RATE>(comp, &mut state_b, items_b, at);
    (front::<T, OUT, WIDTH>(&state_a), front::<T, OUT, WIDTH>(&state_b))
}

} // verus!
