//! Conversions of field elements.

use crate::field::KoalaBear;
use vstd::prelude::*;

verus! {

/// A number of variables.
pub type VarCount = usize;

/// Elements that can be taken as indices.
pub trait ToUsize: Sized {
    /// The canonical residue.
    spec fn as_index(self) -> int;

    fn to_usize(self) -> (r: usize)
        ensures
            r == self.as_index(),
    ;
}

impl ToUsize for KoalaBear {
    open spec fn as_index(self) -> int {
        self.value as int
    }

    fn to_usize(self) -> (r: usize) {
        self.as_canonical_u32() as usize
    }
}

} // verus!
