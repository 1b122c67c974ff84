//! The Poseidon2 permutation over twelve Goldilocks elements.

pub mod circuit;
pub mod config;
pub mod hash;
pub mod layer_laws;
pub mod layers;
pub mod matmul_circuit;
pub mod metal;
pub mod permutation;
pub mod permutation_laws;
pub mod words;
