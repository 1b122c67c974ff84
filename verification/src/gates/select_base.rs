//! A gate for selections.

use crate::gates::gate::CircuitConfig;
use vstd::prelude::*;

verus! {

/// A gate for selections `if b { x } else { y }`. Operation `i` has its selector on wire `4 * i`,
/// its elements on the next two wires and its output on the one after them.
#[derive(Clone, Copy, Debug)]
pub struct SelectionGate {
    /// The number of selections in a row.
    pub num_ops: usize,
}

impl SelectionGate {
    /// A gate with as many selections as fit into a row.
    pub fn new_from_config(config: &CircuitConfig) -> (r: Self)
        ensures
            r.num_ops == config.num_routed_wires / 4,
    {
        SelectionGate { num_ops: config.num_routed_wires / 4 }
    }

    /// The wire of the selector of operation `i`.
    pub fn wire_ith_selector(&self, i: usize) -> (r: usize)
        requires
            4 * i + 3 <= usize::MAX,
        ensures
            r == 4 * i,
    {
        4 * i
    }

    /// The wire of the element that a true selector selects.
    pub fn wire_ith_element_0(&self, i: usize) -> (r: usize)
        requires
            4 * i + 3 <= usize::MAX,
        ensures
            r == 4 * i + 1,
    {
        4 * i + 1
    }

    /// The wire of the element that a false selector selects.
    pub fn wire_ith_element_1(&self, i: usize) -> (r: usize)
        requires
            4 * i + 3 <= usize::MAX,
        ensures
            r == 4 * i + 2,
    {
        4 * i + 2
    }

    /// The wire of the output of operation `i`.
    pub fn wire_ith_output(&self, i: usize) -> (r: usize)
        requires
            4 * i + 3 <= usize::MAX,
        ensures
            r == 4 * i + 3,
    {
        4 * i + 3
    }
}

} // verus!
