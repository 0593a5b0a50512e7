//! The sumcheck protocol for sums of products.

pub mod vectors;
pub mod product;
pub mod rounds;
pub mod factored;
pub mod delayed;
pub mod laws;
