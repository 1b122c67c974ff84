//! Gates: the constraints that a row of wires has to meet, and the witnesses that meet them.

pub mod addition_base;
pub mod batch_laws;
pub mod byte_laws;
pub mod circuits;
pub mod equality_base;
pub mod gate;
pub mod gate_laws;
pub mod identity;
pub mod poseidon2;
pub mod poseidon2_batch;
pub mod poseidon2_circuit;
pub mod poseidon2_laws;
pub mod poseidon2_witness;
pub mod random_access;
pub mod random_access_batch;
pub mod random_access_circuit;
pub mod random_access_laws;
pub mod select_base;
pub mod serialization;
pub mod value;
