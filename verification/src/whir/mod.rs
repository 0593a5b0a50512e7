//! The polynomial commitment scheme: Merkle commitments and the opening protocol.

pub mod matrix;
pub mod merkle;
pub mod merkle_laws;
pub mod statement;
pub mod combination_laws;
pub mod config;
pub mod commit;
pub mod commit_laws;
pub mod constraints;
pub mod queries;
pub mod open;
pub mod open_laws;
