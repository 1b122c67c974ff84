//! Where the values of a batch of rows lie.

use crate::field::goldilocks_field::GoldilocksField;
use crate::field::types::Field;
use crate::gates::circuits::circuit_done;
use crate::gates::gate::{Gate, accumulated, batch_done, batch_point, lemma_flat_index};
use crate::iop::target::Target;
use crate::iop::witness::{filled_row, lemma_filled_row_len};
use crate::plonk::circuit_builder::{
    Assignment, CircuitBuilder, ExtensionTarget, node_value, target_values,
};
use vstd::prelude::*;

verus! {

/// The constraints of a batch of rows: constraint `k` at point `p` lies at `k * n + p`, and is that
/// of the row whose wire `w` lies at `w * n + p`.
pub proof fn lemma_batch_constraint<G: Gate>(
    gate: G,
    wires: Seq<GoldilocksField>,
    constants: Seq<GoldilocksField>,
    n: nat,
    r: Seq<GoldilocksField>,
    k: int,
    p: int,
)
    requires
        batch_done(gate, wires, constants, n, r, n as int),
        r.len() == gate.constraint_count() * n,
        0 <= k < gate.constraint_count(),
        0 <= p < n,
    ensures
        0 <= k * n + p < r.len(),
        r[k * n + p].v() == gate.constraints(
            Seq::new(gate.wire_count(), |w: int| wires[w * n + p].v()),
            Seq::new(gate.constant_count(), |c: int| constants[c * n + p].v()),
        )[k],
{
    lemma_flat_index(k, p, n as int, gate.constraint_count() as int);
    let x = k * n + p;
    assert(batch_point(wires, n, gate.wire_count(), p) =~= Seq::new(
        gate.wire_count(),
        |w: int| wires[w * n + p].v(),
    ));
    assert(batch_point(constants, n, gate.constant_count(), p) =~= Seq::new(
        gate.constant_count(),
        |c: int| constants[c * n + p].v(),
    ));
    assert(r[x].v() == gate.constraints(
        batch_point(wires, n, gate.wire_count(), x % (n as int)),
        batch_point(constants, n, gate.constant_count(), x % (n as int)),
    )[x / (n as int)]);
}

/// Accumulating the constraints of a batch of rows: constraint `k` at point `p`, times the filter of
/// that point, is added to what lies at `k * n + p`. Nothing else changes.
pub proof fn lemma_accumulated_constraint<G: Gate>(
    gate: G,
    wires: Seq<GoldilocksField>,
    constants: Seq<GoldilocksField>,
    n: nat,
    filters: Seq<GoldilocksField>,
    before: Seq<GoldilocksField>,
    after: Seq<GoldilocksField>,
    k: int,
    p: int,
)
    requires
        accumulated(
            gate,
            wires,
            constants,
            n,
            filters,
            before,
            after,
            gate.constraint_count() as int,
        ),
        before.len() >= gate.constraint_count() * n,
        0 <= k < gate.constraint_count(),
        0 <= p < n,
    ensures
        0 <= k * n + p < after.len(),
        after.len() == before.len(),
        after[k * n + p].v() == before[k * n + p].v() + gate.constraints(
            Seq::new(gate.wire_count(), |w: int| wires[w * n + p].v()),
            Seq::new(gate.constant_count(), |c: int| constants[c * n + p].v()),
        )[k] * filters[p].v(),
        forall|x: int|
            gate.constraint_count() * n <= x < before.len() ==> #[trigger] after[x] == before[x],
{
    lemma_flat_index(k, p, n as int, gate.constraint_count() as int);
    let x = k * n + p;
    assert(batch_point(wires, n, gate.wire_count(), p) =~= Seq::new(
        gate.wire_count(),
        |w: int| wires[w * n + p].v(),
    ));
    assert(batch_point(constants, n, gate.constant_count(), p) =~= Seq::new(
        gate.constant_count(),
        |c: int| constants[c * n + p].v(),
    ));
    assert(after[x].v() == before[x].v() + gate.constraints(
        batch_point(wires, n, gate.wire_count(), x % (n as int)),
        batch_point(constants, n, gate.constant_count(), x % (n as int)),
    )[x / (n as int)] * filters[x % (n as int)].v());
}

/// The value of a wire of a row after generated values have been filled in: the last one that was
/// generated for it, and otherwise the one that it had.
pub proof fn lemma_filled_row_value(
    wires: Seq<GoldilocksField>,
    row: usize,
    generated: Seq<(Target, GoldilocksField)>,
    column: usize,
)
    requires
        column < wires.len(),
    ensures
        filled_row(wires, row, generated).len() == wires.len(),
        (forall|k: int|
            0 <= k < generated.len() ==> (#[trigger] generated[k]).0 != (Target::Wire {
                row,
                column,
            })) ==> filled_row(wires, row, generated)[column as int] == wires[column as int],
        forall|k: int|
            0 <= k < generated.len() && (#[trigger] generated[k]).0 == (Target::Wire {
                row,
                column,
            }) && (forall|j: int|
                k < j < generated.len() ==> (#[trigger] generated[j]).0 != (Target::Wire {
                    row,
                    column,
                })) ==> filled_row(wires, row, generated)[column as int] == generated[k].1,
    decreases generated.len(),
{
    lemma_filled_row_len(wires, row, generated);
    if generated.len() > 0 {
        let rest = generated.drop_last();
        lemma_filled_row_value(wires, row, rest, column);
        lemma_filled_row_len(wires, row, rest);
        let filled = filled_row(wires, row, generated);
        let wire = Target::Wire { row, column };
        if generated.last().0 == wire {
            assert(filled[column as int] == generated.last().1);
            assert(generated[generated.len() - 1].0 == wire);
        } else {
            assert(filled[column as int] == filled_row(wires, row, rest)[column as int]);
            if forall|k: int| 0 <= k < generated.len() ==> (#[trigger] generated[k]).0 != wire {
                assert forall|k: int| 0 <= k < rest.len() implies (#[trigger] rest[k]).0 != wire by {
                    assert(generated[k].0 != wire);
                }
            }
            assert forall|k: int|
                0 <= k < generated.len() && (#[trigger] generated[k]).0 == wire && (forall|j: int|
                    k < j < generated.len() ==> (#[trigger] generated[j]).0 != wire) implies filled[column as int]
                == generated[k].1 by {
                assert(rest[k].0 == wire);
                assert forall|j: int| k < j < rest.len() implies (#[trigger] rest[j]).0 != wire by {
                    assert(generated[j].0 != wire);
                }
            }
        }
    }
}

/// Evaluating a gate in a circuit: for every assignment, each new target has the value of its
/// constraint at the values of the wires and constants, and the targets from before keep theirs.
pub proof fn lemma_circuit_constraint<G: Gate>(
    gate: G,
    before: CircuitBuilder,
    after: CircuitBuilder,
    wires: Seq<ExtensionTarget>,
    constants: Seq<ExtensionTarget>,
    r: Seq<ExtensionTarget>,
    asg: Assignment,
    k: int,
)
    requires
        circuit_done(gate, before, after, wires, constants, r),
        asg.wf(),
        0 <= k < gate.constraint_count(),
    ensures
        r.len() == gate.constraint_count(),
        r[k].index < after.nodes@.len(),
        node_value(after.nodes@, asg, r[k].index as int) == gate.constraints(
            Seq::new(
                wires.len(),
                |i: int| node_value(before.nodes@, asg, wires[i].index as int),
            ),
            Seq::new(
                constants.len(),
                |i: int| node_value(before.nodes@, asg, constants[i].index as int),
            ),
        )[k],
        forall|i: int|
            0 <= i < before.nodes@.len() ==> #[trigger] after.nodes@[i] == before.nodes@[i],
{
    assert(target_values(before.nodes@, asg, wires) =~= Seq::new(
        wires.len(),
        |i: int| node_value(before.nodes@, asg, wires[i].index as int),
    ));
    assert(target_values(before.nodes@, asg, constants) =~= Seq::new(
        constants.len(),
        |i: int| node_value(before.nodes@, asg, constants[i].index as int),
    ));
}

} // verus!
