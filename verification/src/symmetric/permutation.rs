//! Compression functions on a state of `WIDTH` ring elements.

use vstd::prelude::*;

verus! {

/// A function from states to states.
pub trait Compression<T: Copy, const WIDTH: usize>: Sized {
    /// The state that `input` is taken to.
    spec fn compressed(&self, input: Seq<T>) -> Seq<T>;

    fn compress_mut(&self, input: &mut [T; WIDTH])
        ensures
            final(input)@ == self.compressed(old(input)@),
    ;

    fn compress(&self, input: [T; WIDTH]) -> (r: [T; WIDTH])
        ensures
            r@ == self.compressed(input@),
    {
        let mut state = input;
        self.compress_mut(&mut state);
        state
    }

    /// Compresses two independent states. An implementation may interleave the work.
    fn compress_x2_mut(&self, a: &mut [T; WIDTH], b: &mut [T; WIDTH])
        ensures
            final(a)@ == self.compressed(old(a)@),
            final(b)@ == self.compressed(old(b)@),
    {
        self.compress_mut(a);
        self.compress_mut(b);
    }
}

/// A compression function that works on two states round by round.
pub trait Compress2x<T: Copy, const WIDTH: usize>: Compression<T, WIDTH> {
    fn compress_2x(&self, a: &mut [T; WIDTH], b: &mut [T; WIDTH])
        ensures
            final(a)@ == self.compressed(old(a)@),
            final(b)@ == self.compressed(old(b)@),
    ;
}

} // verus!
