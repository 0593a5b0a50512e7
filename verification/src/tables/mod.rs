//! The tables of the virtual machine.

pub mod g_function;
pub mod constrained_cols;
pub mod constrained_trace;
pub mod constrained_air;
pub mod table_trait;
pub mod constrained_table;
pub mod constrained_laws;
pub mod constrained_soundness;
pub mod blake3_table;
pub mod blake3_laws;
pub mod lookup_laws;
pub mod compression_laws;
