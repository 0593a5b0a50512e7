//! Access to the powers of the constraint-batching challenge.

use vstd::prelude::*;

verus! {

pub trait AlphaPowers<EF> {
    /// The powers that are held.
    spec fn powers(&self) -> Seq<EF>;

    fn alpha_powers(&self) -> (r: &[EF])
        ensures
            r@ == self.powers(),
    ;
}

/// Powers repeated in every lane of a packed value.
pub trait AlphaPowersPacked<EF, const WIDTH: usize> {
    spec fn powers_packed(&self) -> Seq<[EF; WIDTH]>;

    fn alpha_powers_packed(&self) -> (r: &[[EF; WIDTH]])
        ensures
            r@ == self.powers_packed(),
    ;
}

pub trait AlphaPowersMut<EF>: AlphaPowers<EF> {
    fn alpha_powers_mut(&mut self) -> (r: &mut Vec<EF>)
        ensures
            r@ == old(self).powers(),
            final(self).powers() == final(r)@,
    ;
}

impl<EF> AlphaPowers<EF> for Vec<EF> {
    open spec fn powers(&self) -> Seq<EF> {
        self@
    }

    fn alpha_powers(&self) -> (r: &[EF]) {
        self.as_slice()
    }
}

/// A plain vector carries no packed powers: it is only used where there are none to fold.
impl<EF, const WIDTH: usize> AlphaPowersPacked<EF, WIDTH> for Vec<EF> {
    open spec fn powers_packed(&self) -> Seq<[EF; WIDTH]> {
        Seq::empty()
    }

    fn alpha_powers_packed(&self) -> (r: &[[EF; WIDTH]]) {
        let empty: &[[EF; WIDTH]] = &[];
        assert(empty@ =~= Seq::empty());
        empty
    }
}

impl<EF> AlphaPowersMut<EF> for Vec<EF> {
    fn alpha_powers_mut(&mut self) -> (r: &mut Vec<EF>) {
        self
    }
}

} // verus!
