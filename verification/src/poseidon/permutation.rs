//! The permutation by its rounds, and the compression function it makes.

use crate::field::Ring;
use crate::sumcheck::vectors::{dot, products, total, vplus};
use crate::symmetric::permutation::{Compress2x, Compression};
use vstd::prelude::*;

verus! {

/// Elements of a state.
pub const POSEIDON_WIDTH: usize = 16;

/// Constants of the permutation: those of the first full rounds, of the partial rounds and of
/// the last full rounds, and the matrix of the linear layer.
#[derive(Debug)]
pub struct PoseidonConstants<R> {
    pub initial: Vec<[R; POSEIDON_WIDTH]>,
    pub partial: Vec<[R; POSEIDON_WIDTH]>,
    pub last: Vec<[R; POSEIDON_WIDTH]>,
    pub mds: [[R; POSEIDON_WIDTH]; POSEIDON_WIDTH],
}

pub open spec fn cube_of<R: Ring>(x: R) -> R {
    x.times(x).times(x)
}

/// The cubes of all elements.
pub open spec fn cubes<R: Ring>(s: Seq<R>) -> Seq<R> {
    Seq::new(s.len(), |i: int| cube_of(s[i]))
}

/// The state with its first element cubed.
pub open spec fn first_cubed<R: Ring>(s: Seq<R>) -> Seq<R> {
    s.update(0, cube_of(s[0]))
}

/// The product of a matrix, given by its rows, with a vector.
pub open spec fn mat_vec<R: Ring>(m: Seq<[R; POSEIDON_WIDTH]>, s: Seq<R>) -> Seq<R> {
    Seq::new(m.len(), |i: int| dot(s, m[i]@))
}

impl<R: Ring> PoseidonConstants<R> {
    pub open spec fn n_rounds(self) -> int {
        self.initial@.len() as int + self.partial@.len() + self.last@.len()
    }

    /// The constants of round `r`.
    pub open spec fn of_round(self, r: int) -> Seq<R> {
        let (a, b) = (self.initial@.len(), self.partial@.len());
        if r < a {
            self.initial@[r]@
        } else if r < a + b {
            self.partial@[r - a]@
        } else {
            self.last@[r - a - b]@
        }
    }

    /// Whether round `r` cubes the whole state.
    pub open spec fn is_full(self, r: int) -> bool {
        r < self.initial@.len() || r >= self.initial@.len() + self.partial@.len()
    }

    /// The nonlinear and the linear layer of round `r`.
    pub open spec fn layers(self, s: Seq<R>, r: int) -> Seq<R> {
        mat_vec(
            self.mds@,
            if self.is_full(r) {
                cubes(s)
            } else {
                first_cubed(s)
            },
        )
    }

    /// The state after the first `r` rounds.
    pub open spec fn after_rounds(self, s: Seq<R>, r: nat) -> Seq<R>
        decreases r,
    {
        if r == 0 {
            s
        } else {
            let before = self.after_rounds(s, (r - 1) as nat);
            self.layers(vplus(before, self.of_round(r - 1)), r - 1)
        }
    }

    /// The permutation.
    pub open spec fn permuted(self, s: Seq<R>) -> Seq<R> {
        self.after_rounds(s, self.n_rounds() as nat)
    }

    /// The constants of round `r`.
    pub fn round_constants(&self, r: usize) -> (c: [R; POSEIDON_WIDTH])
        requires
            r < self.n_rounds(),
        ensures
            c@ == self.of_round(r as int),
    {
        let a: usize = self.initial.len();
        let b: usize = self.partial.len();
        if r < a {
            self.initial[r]
        } else if r - a < b {
            self.partial[r - a]
        } else {
            self.last[r - a - b]
        }
    }

    /// Applies the layers of a full round.
    pub(crate) fn full_layers(&self, state: &mut [R; POSEIDON_WIDTH], Ghost(r): Ghost<int>)
        requires
            self.is_full(r),
        ensures
            final(state)@ == self.layers(old(state)@, r),
    {
        cube_all(state);
        apply_matrix(&self.mds, state);
    }

    /// Applies the layers of a partial round.
    pub(crate) fn partial_layers(&self, state: &mut [R; POSEIDON_WIDTH], Ghost(r): Ghost<int>)
        requires
            !self.is_full(r),
        ensures
            final(state)@ == self.layers(old(state)@, r),
    {
        let v = cube(state[0]);
        state[0] = v;
        assert(state@ =~= first_cubed(old(state)@));
        apply_matrix(&self.mds, state);
    }
}

pub fn cube<R: Ring>(x: R) -> (r: R)
    ensures
        r == cube_of(x),
{
    x.mul(x).mul(x)
}

/// Cubes all elements.
pub fn cube_all<R: Ring>(state: &mut [R; POSEIDON_WIDTH])
    ensures
        final(state)@ == cubes(old(state)@),
{
    let ghost before = state@;
    let mut i: usize = 0;
    while i < 16
        invariant
            i <= 16,
            before == old(state)@,
            forall|j: int|
                0 <= j < 16 ==> #[trigger] state@[j] == if j < i {
                    cube_of(before[j])
                } else {
                    before[j]
                },
        decreases 16 - i,
    {
        let v = cube(state[i]);
        state[i] = v;
        i += 1;
    }
    assert(state@ =~= cubes(before));
}

/// Adds constants.
pub fn add_constants<R: Ring>(state: &mut [R; POSEIDON_WIDTH], c: &[R; POSEIDON_WIDTH])
    ensures
        final(state)@ == vplus(old(state)@, c@),
{
    let ghost before = state@;
    let mut i: usize = 0;
    while i < 16
        invariant
            i <= 16,
            before == old(state)@,
            forall|j: int|
                0 <= j < 16 ==> #[trigger] state@[j] == if j < i {
                    before[j].plus(c@[j])
                } else {
                    before[j]
                },
        decreases 16 - i,
    {
        let v = state[i].add(c[i]);
        state[i] = v;
        i += 1;
    }
    assert(state@ =~= vplus(before, c@));
}

/// The inner product of a state with a row of a matrix.
pub fn row_product<R: Ring>(state: &[R; POSEIDON_WIDTH], row: &[R; POSEIDON_WIDTH]) -> (r: R)
    ensures
        r == dot(state@, row@),
{
    let ghost terms = products(state@, row@);
    let mut acc = R::zero();
    let mut j: usize = 0;
    assert(terms.take(0).len() == 0);
    while j < 16
        invariant
            j <= 16,
            terms == products(state@, row@),
            acc == total(terms.take(j as int)),
        decreases 16 - j,
    {
        acc = acc.add(row[j].mul(state[j]));
        assert(terms.take(j + 1).drop_last() =~= terms.take(j as int));
        assert(terms.take(j + 1).last() == terms[j as int]);
        j += 1;
    }
    assert(terms.take(16) =~= terms);
    acc
}

/// Multiplies a state by a matrix.
pub fn apply_matrix<R: Ring>(
    m: &[[R; POSEIDON_WIDTH]; POSEIDON_WIDTH],
    state: &mut [R; POSEIDON_WIDTH],
)
    ensures
        final(state)@ == mat_vec(m@, old(state)@),
{
    let before = *state;
    let mut i: usize = 0;
    while i < 16
        invariant
            i <= 16,
            forall|k: int| 0 <= k < i ==> #[trigger] state@[k] == dot(before@, m@[k]@),
        decreases 16 - i,
    {
        let v = row_product(&before, &m[i]);
        state[i] = v;
        i += 1;
    }
    assert(state@ =~= mat_vec(m@, before@));
}

/// The permutation with these constants.
#[derive(Debug)]
pub struct Poseidon16<R> {
    pub constants: PoseidonConstants<R>,
}

impl<R: Ring> Poseidon16<R> {
    /// Permutes a state.
    pub fn permute_mut(&self, state: &mut [R; POSEIDON_WIDTH])
        ensures
            final(state)@ == self.constants.permuted(old(state)@),
    {
        let ghost input = state@;
        let constants = &self.constants;
        let mut i: usize = 0;
        while i < constants.initial.len()
            invariant
                i <= constants.initial@.len(),
                state@ == constants.after_rounds(input, i as nat),
            decreases constants.initial@.len() - i,
        {
            add_constants(state, &constants.initial[i]);
            constants.full_layers(state, Ghost(i as int));
            i += 1;
        }
        let ghost a = constants.initial@.len();
        i = 0;
        while i < constants.partial.len()
            invariant
                i <= constants.partial@.len(),
                a == constants.initial@.len(),
                state@ == constants.after_rounds(input, a + i as nat),
            decreases constants.partial@.len() - i,
        {
            add_constants(state, &constants.partial[i]);
            constants.partial_layers(state, Ghost(a + i));
            i += 1;
        }
        let ghost b = a + constants.partial@.len();
        i = 0;
        while i < constants.last.len()
            invariant
                i <= constants.last@.len(),
                b == constants.initial@.len() + constants.partial@.len(),
                state@ == constants.after_rounds(input, b + i as nat),
            decreases constants.last@.len() - i,
        {
            add_constants(state, &constants.last[i]);
            constants.full_layers(state, Ghost(b + i));
            i += 1;
        }
    }
}

impl<R: Ring> Compression<R, POSEIDON_WIDTH> for Poseidon16<R> {
    /// The permuted state plus the input.
    open spec fn compressed(&self, input: Seq<R>) -> Seq<R> {
        vplus(self.constants.permuted(input), input)
    }

    fn compress_mut(&self, input: &mut [R; POSEIDON_WIDTH]) {
        let before = *input;
        self.permute_mut(input);
        add_constants(input, &before);
    }
}

impl<R: Ring> Compress2x<R, POSEIDON_WIDTH> for Poseidon16<R> {
    fn compress_2x(&self, a: &mut [R; POSEIDON_WIDTH], b: &mut [R; POSEIDON_WIDTH]) {
        self.compress_mut(a);
        self.compress_mut(b);
    }
}

} // verus!
