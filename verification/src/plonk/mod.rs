//! Configurations of the proof system.

pub mod circuit_builder;
pub mod config;
pub mod routing;
