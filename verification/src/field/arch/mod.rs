//! Packings of the Goldilocks field into pairs and quadruples of lanes.

pub mod neon_goldilocks_field;
pub mod wide_goldilocks_field;
