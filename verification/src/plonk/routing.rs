//! Targets of the prime field in circuits: rows of gates, connections between their wires, and
//! what an assignment of values has to meet.

use crate::field::model::Elt;
use crate::gadgets::select::selected;
use crate::gates::poseidon2_laws::meets_constraints;
use crate::gates::select_base::SelectionGate;
use crate::iop::target::Target;
use crate::plonk::circuit_builder::{Assignment, BaseOperation, CircuitBuilder, GateKind};
use vstd::prelude::*;

verus! {

/// The values of the wires of a row.
pub open spec fn row_values(asg: Assignment, row: usize, width: nat) -> Seq<Elt> {
    Seq::new(width, |i: int| (asg.base)(Target::Wire { row, column: i as usize }))
}

/// The value of a wire.
pub open spec fn wire_value(asg: Assignment, row: usize, column: int) -> Elt {
    (asg.base)(Target::Wire { row, column: column as usize })
}

/// The wires of a row meet the constraints of its gate.
pub open spec fn row_holds(kind: GateKind, asg: Assignment, row: usize) -> bool {
    match kind {
        GateKind::Poseidon2 => meets_constraints(row_values(asg, row, 135)),
        GateKind::Selection(gate) => forall|i: int|
            0 <= i < gate.num_ops ==> #[trigger] wire_value(asg, row, 4 * i + 3) == selected(
                wire_value(asg, row, 4 * i),
                wire_value(asg, row, 4 * i + 1),
                wire_value(asg, row, 4 * i + 2),
            ),
    }
}

/// The values meet everything that a circuit asks of targets of the prime field.
pub open spec fn satisfied(builder: CircuitBuilder, asg: Assignment) -> bool {
    &&& asg.wf()
    &&& forall|k: int|
        0 <= k < builder.base_operations@.len() ==> {
            let op = #[trigger] builder.base_operations@[k];
            (asg.base)(op.out) == (asg.base)(op.a) * (asg.base)(op.b) - (asg.base)(op.c)
        }
    &&& forall|k: int|
        0 <= k < builder.connections@.len() ==> (asg.base)(
            (#[trigger] builder.connections@[k]).0,
        ) == (asg.base)(builder.connections@[k].1)
    &&& forall|row: int|
        0 <= row < builder.rows@.len() ==> row_holds(
            #[trigger] builder.rows@[row],
            asg,
            row as usize,
        )
}

/// A circuit that has grown by further operations, rows, connections or targets.
pub open spec fn extended(before: CircuitBuilder, after: CircuitBuilder) -> bool {
    &&& after.config == before.config
    &&& after.nodes == before.nodes
    &&& before.virtual_targets <= after.virtual_targets
    &&& before.base_operations@.is_prefix_of(after.base_operations@)
    &&& before.rows@.is_prefix_of(after.rows@)
    &&& before.connections@.is_prefix_of(after.connections@)
}

/// What holds in a circuit held in it before it grew.
pub proof fn lemma_satisfied_before(
    before: CircuitBuilder,
    after: CircuitBuilder,
    asg: Assignment,
)
    requires
        before.base_operations@.is_prefix_of(after.base_operations@),
        before.rows@.is_prefix_of(after.rows@),
        before.connections@.is_prefix_of(after.connections@),
        satisfied(after, asg),
    ensures
        satisfied(before, asg),
{
    assert forall|k: int| 0 <= k < before.base_operations@.len() implies {
        let op = #[trigger] before.base_operations@[k];
        (asg.base)(op.out) == (asg.base)(op.a) * (asg.base)(op.b) - (asg.base)(op.c)
    } by {
        assert(after.base_operations@[k] == before.base_operations@[k]);
    }
    assert forall|k: int| 0 <= k < before.connections@.len() implies (asg.base)(
        (#[trigger] before.connections@[k]).0,
    ) == (asg.base)(before.connections@[k].1) by {
        assert(after.connections@[k] == before.connections@[k]);
    }
    assert forall|row: int| 0 <= row < before.rows@.len() implies row_holds(
        #[trigger] before.rows@[row],
        asg,
        row as usize,
    ) by {
        assert(after.rows@[row] == before.rows@[row]);
    }
}

/// In every assignment that meets the circuit, the results of selections are the selected values.
pub open spec fn selections_right(builder: CircuitBuilder) -> bool {
    forall|asg: Assignment, k: int|
        #![trigger satisfied(builder, asg), builder.base_select_results@[k]]
        satisfied(builder, asg) && 0 <= k < builder.base_select_results@.len() ==> {
            let op = builder.base_select_results@[k].0;
            (asg.base)(builder.base_select_results@[k].1) == selected(
                (asg.base)(op.b),
                (asg.base)(op.x),
                (asg.base)(op.y),
            )
        }
}

/// The next place for a selection lies in a row of selections.
pub open spec fn slot_ok(builder: CircuitBuilder) -> bool {
    builder.selection_slot matches Some((row, op)) ==> {
        &&& row < builder.rows@.len()
        &&& builder.rows@[row as int] matches GateKind::Selection(gate) && op < gate.num_ops
            && 4 * gate.num_ops <= builder.config.num_routed_wires
    }
}

/// No selection is listed twice.
pub open spec fn selections_distinct(builder: CircuitBuilder) -> bool {
    forall|i: int, j: int|
        0 <= i < j < builder.base_select_results@.len() ==> (
        #[trigger] builder.base_select_results@[i]).0 != (
        #[trigger] builder.base_select_results@[j]).0
}

impl CircuitBuilder {
    /// What holds of the targets of the prime field at all times.
    pub open spec fn base_wf(self) -> bool {
        &&& slot_ok(self)
        &&& selections_right(self)
        &&& selections_distinct(self)
    }

    /// A target without a place.
    pub fn add_virtual_target(&mut self) -> (r: Target)
        requires
            old(self).virtual_targets < usize::MAX,
        ensures
            r == (Target::VirtualTarget { index: old(self).virtual_targets }),
            *final(self) == (CircuitBuilder {
                virtual_targets: (old(self).virtual_targets + 1) as usize,
                ..*old(self)
            }),
    {
        let index: usize = self.virtual_targets;
        self.virtual_targets = index + 1;
        Target::VirtualTarget { index }
    }

    /// Makes two targets hold equal values.
    pub fn connect(&mut self, x: Target, y: Target)
        ensures
            final(self).connections@ == old(self).connections@.push((x, y)),
            *final(self) == (CircuitBuilder {
                connections: final(self).connections,
                ..*old(self)
            }),
            old(self).base_wf() ==> final(self).base_wf(),
    {
        self.connections.push((x, y));
        proof {
            assert forall|asg: Assignment| #[trigger] satisfied(*self, asg) implies satisfied(
                *old(self),
                asg,
            ) by {
                lemma_satisfied_before(*old(self), *self, asg);
            }
        }
    }

    /// Adds a row.
    pub fn add_gate(&mut self, kind: GateKind) -> (r: usize)
        ensures
            r == old(self).rows@.len(),
            final(self).rows@ == old(self).rows@.push(kind),
            *final(self) == (CircuitBuilder { rows: final(self).rows, ..*old(self) }),
            old(self).base_wf() ==> final(self).base_wf(),
    {
        let row: usize = self.rows.len();
        self.rows.push(kind);
        proof {
            assert forall|asg: Assignment| #[trigger] satisfied(*self, asg) implies satisfied(
                *old(self),
                asg,
            ) by {
                lemma_satisfied_before(*old(self), *self, asg);
            }
        }
        row
    }

    /// `a * b - c`.
    pub fn mul_sub(&mut self, a: Target, b: Target, c: Target) -> (r: Target)
        requires
            old(self).virtual_targets < usize::MAX,
        ensures
            r == (Target::VirtualTarget { index: old(self).virtual_targets }),
            final(self).base_operations@ == old(self).base_operations@.push(
                (BaseOperation { out: r, a, b, c }),
            ),
            *final(self) == (CircuitBuilder {
                virtual_targets: (old(self).virtual_targets + 1) as usize,
                base_operations: final(self).base_operations,
                ..*old(self)
            }),
            forall|asg: Assignment| #[trigger]
                satisfied(*final(self), asg) ==> (asg.base)(r) == (asg.base)(a) * (asg.base)(b)
                    - (asg.base)(c),
            old(self).base_wf() ==> final(self).base_wf(),
    {
        let out = self.add_virtual_target();
        self.base_operations.push(BaseOperation { out, a, b, c });
        proof {
            let n = old(self).base_operations@.len() as int;
            assert(self.base_operations@[n] == (BaseOperation { out, a, b, c }));
            assert forall|asg: Assignment| #[trigger] satisfied(*self, asg) implies satisfied(
                *old(self),
                asg,
            ) by {
                lemma_satisfied_before(*old(self), *self, asg);
            }
        }
        out
    }

    /// A place for a selection: the next one in the last row of selections, or the first one in a
    /// new row if that row is full.
    pub fn find_slot(&mut self, gate: SelectionGate) -> (r: (usize, usize))
        requires
            slot_ok(*old(self)),
            0 < gate.num_ops,
            4 * gate.num_ops <= old(self).config.num_routed_wires,
        ensures
            r.0 < final(self).rows@.len(),
            final(self).rows@[r.0 as int] matches GateKind::Selection(g) && r.1 < g.num_ops && 4
                * g.num_ops <= old(self).config.num_routed_wires && final(self).selection_slot
                == if r.1 + 1 < g.num_ops {
                Some((r.0, (r.1 + 1) as usize))
            } else {
                None
            },
            match old(self).selection_slot {
                Some(slot) => r == slot && final(self).rows == old(self).rows,
                None => r == (old(self).rows@.len() as usize, 0usize) && final(self).rows@
                    == old(self).rows@.push(GateKind::Selection(gate)),
            },
            old(self).rows@.is_prefix_of(final(self).rows@),
            *final(self) == (CircuitBuilder {
                rows: final(self).rows,
                selection_slot: final(self).selection_slot,
                ..*old(self)
            }),
            old(self).base_wf() ==> final(self).base_wf(),
    {
        let ghost start = *self;
        let slot: (usize, usize) = match self.selection_slot {
            Some(slot) => slot,
            None => (self.add_gate(GateKind::Selection(gate)), 0),
        };
        let ghost middle = *self;
        let num_ops: usize = match self.rows[slot.0] {
            GateKind::Selection(g) => g.num_ops,
            GateKind::Poseidon2 => 0,
        };
        self.selection_slot = if slot.1 + 1 < num_ops {
            Some((slot.0, slot.1 + 1))
        } else {
            None
        };
        proof {
            assert forall|asg: Assignment| #[trigger] satisfied(*self, asg) implies satisfied(
                start,
                asg,
            ) by {
                lemma_satisfied_before(start, *self, asg);
            }
        }
        slot
    }
}

} // verus!
