//! One big polynomial stacked from the memory, the accumulators and the columns of all tables.
//!
//! The parts stand in this order: memory, memory accumulator, bytecode accumulator (its slot is at
//! least as long as a column of the highest table), then the tables, highest first, column by
//! column. The rest up to a power of two is zero.

pub mod layout;
pub mod layout_laws;
pub mod statements;
pub mod statement_laws;
pub mod stacking;
