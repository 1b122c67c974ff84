//! Known values of wires, and the values that generators add to them.

use crate::field::goldilocks_field::GoldilocksField;
use crate::iop::target::Target;
use vstd::prelude::*;

verus! {

/// The values of the wires, row by row.
#[derive(Debug)]
pub struct PartitionWitness {
    pub rows: Vec<Vec<GoldilocksField>>,
}

impl PartitionWitness {
    /// There is a value for the wire.
    pub open spec fn has(self, row: int, column: int) -> bool {
        0 <= row < self.rows@.len() && 0 <= column < self.rows@[row]@.len()
    }

    /// The value of a wire.
    pub open spec fn value(self, row: int, column: int) -> GoldilocksField {
        self.rows@[row]@[column]
    }

    /// The value of a wire.
    pub fn get_wire(&self, row: usize, column: usize) -> (r: GoldilocksField)
        requires
            self.has(row as int, column as int),
        ensures
            r == self.value(row as int, column as int),
    {
        self.rows[row][column]
    }
}

/// Values that a generator has found, in the order in which it found them.
#[derive(Debug)]
pub struct GeneratedValues {
    pub target_values: Vec<(Target, GoldilocksField)>,
}

impl GeneratedValues {
    /// No values yet.
    pub fn empty() -> (r: Self)
        ensures
            r.target_values@.len() == 0,
    {
        GeneratedValues { target_values: Vec::new() }
    }

    /// Adds a value.
    pub fn set_target(&mut self, target: Target, value: GoldilocksField)
        ensures
            final(self).target_values@ == old(self).target_values@.push((target, value)),
    {
        self.target_values.push((target, value));
    }
}

/// The values of the wires of a row after generated values have been filled in.
pub open spec fn filled_row(
    wires: Seq<GoldilocksField>,
    row: usize,
    generated: Seq<(Target, GoldilocksField)>,
) -> Seq<GoldilocksField>
    decreases generated.len(),
{
    if generated.len() == 0 {
        wires
    } else {
        let before = filled_row(wires, row, generated.drop_last());
        match generated.last().0 {
            Target::Wire { row: r, column } => if r == row && column < before.len() {
                before.update(column as int, generated.last().1)
            } else {
                before
            },
            Target::VirtualTarget { index } => before,
        }
    }
}

/// Filling in values keeps the number of wires.
pub proof fn lemma_filled_row_len(
    wires: Seq<GoldilocksField>,
    row: usize,
    generated: Seq<(Target, GoldilocksField)>,
)
    ensures
        filled_row(wires, row, generated).len() == wires.len(),
    decreases generated.len(),
{
    if generated.len() > 0 {
        lemma_filled_row_len(wires, row, generated.drop_last());
    }
}

/// Filling in one more value.
pub proof fn lemma_filled_row_push(
    wires: Seq<GoldilocksField>,
    row: usize,
    generated: Seq<(Target, GoldilocksField)>,
    column: usize,
    value: GoldilocksField,
)
    requires
        column < wires.len(),
    ensures
        filled_row(wires, row, generated.push((Target::Wire { row, column }, value))) == filled_row(
            wires,
            row,
            generated,
        ).update(column as int, value),
{
    lemma_filled_row_len(wires, row, generated);
    let g = generated.push((Target::Wire { row, column }, value));
    assert(g.drop_last() =~= generated);
}

} // verus!
