//! Verified building blocks of a Plonk-style prover over the Goldilocks field.

pub mod field;
pub mod fri;
pub mod gadgets;
pub mod gates;
pub mod hash;
pub mod iop;
pub mod plonk;
pub mod util;
