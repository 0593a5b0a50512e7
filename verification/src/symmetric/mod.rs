//! Hashing with a compression function: two-to-one compression, sponges and Merkle trees.

pub mod compression;
pub mod laws;
pub mod merkle;
pub mod permutation;
pub mod settings;
pub mod sponge;
