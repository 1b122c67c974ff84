//! Places in a circuit that hold a value.

use vstd::prelude::*;

verus! {

/// A location in the witness.
#[derive(Clone, Copy, Debug, PartialEq, Eq, Structural)]
pub enum Target {
    /// A wire of a row.
    Wire { row: usize, column: usize },
    /// A value without a fixed place.
    VirtualTarget { index: usize },
}

impl Target {
    /// The wire at the given place.
    pub fn wire(row: usize, column: usize) -> (r: Self)
        ensures
            r == (Target::Wire { row, column }),
    {
        Target::Wire { row, column }
    }
}

/// A target that is known to hold zero or one.
#[derive(Clone, Copy, Debug, PartialEq, Eq, Structural)]
pub struct BoolTarget {
    pub target: Target,
}

impl BoolTarget {
    /// Takes a target to hold zero or one without a check.
    pub fn new_unsafe(target: Target) -> (r: Self)
        ensures
            r.target == target,
    {
        BoolTarget { target }
    }
}

} // verus!
