//! Hashing.

pub mod columns;
pub mod equality;
pub mod equality_laws;
pub mod hash_types;
pub mod hashing;
pub mod merkle_laws;
pub mod merkle_model;
pub mod merkle_tree;
pub mod poseidon2;
pub mod sponge_laws;
