//! Merkle trees and commitments on a graphics processor: what is worth sending there, which buffers
//! and kernel runs it takes, and how the result is read back.

pub mod commitment_plan;
pub mod device;
pub mod device_ntt;
pub mod plan;
pub mod plan_laws;
pub mod pool;
pub mod readback;
pub mod tables;
pub mod tree_plan;
