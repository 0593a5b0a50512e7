//! The Poseidon permutation on sixteen elements, its trace and its layered witness.
//!
//! Round constants and matrices are data: they come with the field's implementation.

pub mod permutation;
pub mod laws;
pub mod witness_gen;
pub mod trace_gen;
