//! The circuits: each allocates its columns, configures its chips and lays out
//! a witness with them.

pub mod arth_circuit;
pub mod arth_circuits;
pub mod poseidon_circuit;
pub mod merkle_circuit;
