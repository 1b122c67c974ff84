//! Targets and witnesses.

pub mod challenger;
pub mod challenger_laws;
pub mod target;
pub mod witness;
