//! Verified building blocks of a multi-signature prover over the KoalaBear field.

pub mod alpha_powers;
pub mod blake3_hash;
pub mod field;
pub mod math;
pub mod memory;
pub mod poly;
pub mod poly_laws;
pub mod poseidon;
pub mod preload;
pub mod prime;
pub mod ring;
pub mod stacked_pcs;
pub mod sumcheck;
pub mod symmetric;
pub mod tables;
pub mod whir;
pub mod word;
pub mod wrappers;
pub mod xor_table;
pub mod zk_alloc;
