//! Selections in circuits.

use crate::field::model::{
    Elt, elt0, elt1, group_elt_wf, lemma_add_zero, lemma_mul_dist, lemma_mul_one_zero,
    lemma_reduced_add, lemma_reduced_self, lemma_reduced_sub, lemma_sub_self, reduced,
};
use crate::gates::random_access::choose_by;
use crate::gates::select_base::SelectionGate;
use crate::iop::target::{BoolTarget, Target};
use crate::plonk::circuit_builder::{
    Assignment, BaseOperation, BaseSelectionOperation, CircuitBuilder, ExtensionTarget, GateKind,
    grown, lemma_value_kept, lemma_value_wf, node_value, same_rest,
};
use crate::plonk::routing::{extended, lemma_satisfied_before, row_holds, satisfied, wire_value};
use vstd::prelude::*;

verus! {

/// The arithmetic generalization of `if b { x } else { y }`.
pub open spec fn selected(b: Elt, x: Elt, y: Elt) -> Elt {
    b * x - (b * y - y)
}

/// For a condition of zero or one, one of the two values.
pub proof fn lemma_selected(b: Elt, x: Elt, y: Elt)
    requires
        x.wf(),
        y.wf(),
        b == elt0() || b == elt1(),
    ensures
        selected(b, x, y) == (if b == elt1() {
            x
        } else {
            y
        }),
{
    broadcast use group_elt_wf;

    lemma_mul_one_zero(x);
    lemma_mul_one_zero(y);
    lemma_sub_self(y);
    lemma_add_zero(x);
    lemma_reduced_self(y);
    lemma_reduced_sub(0, 0, y.re, y.im);
    lemma_reduced_sub(0, 0, -y.re, -y.im);
    assert(elt0() == reduced(0, 0));
}

/// The generalization is linear interpolation between the two values.
pub proof fn lemma_selected_choose(b: Elt, x: Elt, y: Elt)
    requires
        b.wf(),
        x.wf(),
        y.wf(),
    ensures
        selected(b, x, y) == choose_by(b, y, x),
{
    broadcast use group_elt_wf;

    // b x - (b y - y) == y + (b x - b y)
    lemma_mul_dist(b, x, y);
    let (p, q) = (b * x, b * y);
    lemma_reduced_self(p);
    lemma_reduced_self(q);
    lemma_reduced_self(y);
    lemma_reduced_sub(q.re, q.im, y.re, y.im);
    lemma_reduced_sub(p.re, p.im, q.re - y.re, q.im - y.im);
    lemma_reduced_sub(p.re, p.im, q.re, q.im);
    lemma_reduced_add(y.re, y.im, p.re - q.re, p.im - q.im);
}

impl CircuitBuilder {
    /// Selects `x` or `y` based on `b`, i.e., this returns `if b { x } else { y }`.
    pub fn select_ext(
        &mut self,
        b: BoolTarget,
        x: ExtensionTarget,
        y: ExtensionTarget,
    ) -> (r: ExtensionTarget)
        requires
            old(self).wf(),
            x.index < old(self).nodes@.len(),
            y.index < old(self).nodes@.len(),
        ensures
            grown(old(self).nodes@, final(self).nodes@),
            same_rest(*old(self), *final(self)),
            r.index < final(self).nodes@.len(),
            forall|asg: Assignment|
                asg.wf() ==> #[trigger] node_value(final(self).nodes@, asg, r.index as int)
                    == selected(
                    (asg.base)(b.target),
                    node_value(old(self).nodes@, asg, x.index as int),
                    node_value(old(self).nodes@, asg, y.index as int),
                ),
            forall|asg: Assignment|
                asg.wf() && ((asg.base)(b.target) == elt0() || (asg.base)(b.target) == elt1())
                    ==> #[trigger] node_value(final(self).nodes@, asg, r.index as int) == (if (
                asg.base)(b.target) == elt1() {
                    node_value(old(self).nodes@, asg, x.index as int)
                } else {
                    node_value(old(self).nodes@, asg, y.index as int)
                }),
    {
        let ghost n0 = self.nodes@;
        let b_ext = self.convert_to_ext(b.target);
        let ghost n1 = self.nodes@;
        let r = self.select_ext_generalized(b_ext, x, y);
        proof {
            assert forall|asg: Assignment| asg.wf() implies #[trigger] node_value(
                self.nodes@,
                asg,
                r.index as int,
            ) == selected(
                (asg.base)(b.target),
                node_value(n0, asg, x.index as int),
                node_value(n0, asg, y.index as int),
            ) by {
                lemma_value_kept(n0, n1, asg, x.index as int);
                lemma_value_kept(n0, n1, asg, y.index as int);
                assert(node_value(n1, asg, b_ext.index as int) == (asg.base)(b.target));
            }
            assert forall|asg: Assignment|
                asg.wf() && ((asg.base)(b.target) == elt0() || (asg.base)(b.target)
                    == elt1()) implies #[trigger] node_value(self.nodes@, asg, r.index as int) == (
            if (asg.base)(b.target) == elt1() {
                node_value(n0, asg, x.index as int)
            } else {
                node_value(n0, asg, y.index as int)
            }) by {
                lemma_value_wf(n0, asg, x.index as int);
                lemma_value_wf(n0, asg, y.index as int);
                lemma_selected(
                    (asg.base)(b.target),
                    node_value(n0, asg, x.index as int),
                    node_value(n0, asg, y.index as int),
                );
            }
        }
        r
    }

    /// Like `select_ext`, but accepts a condition input which does not necessarily have to be
    /// binary. In this case, it computes the arithmetic generalization of `if b { x } else { y }`,
    /// i.e. `bx - (by-y)`.
    pub fn select_ext_generalized(
        &mut self,
        b: ExtensionTarget,
        x: ExtensionTarget,
        y: ExtensionTarget,
    ) -> (r: ExtensionTarget)
        requires
            old(self).wf(),
            b.index < old(self).nodes@.len(),
            x.index < old(self).nodes@.len(),
            y.index < old(self).nodes@.len(),
        ensures
            grown(old(self).nodes@, final(self).nodes@),
            same_rest(*old(self), *final(self)),
            r.index < final(self).nodes@.len(),
            forall|asg: Assignment| #[trigger]
                node_value(final(self).nodes@, asg, r.index as int) == selected(
                    node_value(old(self).nodes@, asg, b.index as int),
                    node_value(old(self).nodes@, asg, x.index as int),
                    node_value(old(self).nodes@, asg, y.index as int),
                ),
    {
        let ghost n0 = self.nodes@;
        let tmp = self.mul_sub_extension(b, y, y);
        let r = self.mul_sub_extension(b, x, tmp);
        proof {
            let n = self.nodes@;
            assert(grown(n0, n));
            assert forall|asg: Assignment| #[trigger]
                node_value(n, asg, r.index as int) == selected(
                    node_value(n0, asg, b.index as int),
                    node_value(n0, asg, x.index as int),
                    node_value(n0, asg, y.index as int),
                ) by {
                lemma_value_kept(n0, n, asg, b.index as int);
                lemma_value_kept(n0, n, asg, x.index as int);
                lemma_value_kept(n0, n, asg, y.index as int);
                let (vb, vy) = (
                    node_value(n, asg, b.index as int),
                    node_value(n, asg, y.index as int),
                );
                assert(node_value(n, asg, tmp.index as int) == vb * vy - vy);
            }
        }
        r
    }
}

/// The earlier result of an operation, if there is one.
fn earlier_result(
    results: &Vec<(BaseSelectionOperation, Target)>,
    operation: BaseSelectionOperation,
) -> (r: Option<Target>)
    ensures
        match r {
            Some(t) => exists|k: int|
                0 <= k < results@.len() && results@[k] == (operation, t),
            None => forall|k: int|
                0 <= k < results@.len() ==> (#[trigger] results@[k]).0 != operation,
        },
{
    let mut i: usize = 0;
    while i < results.len()
        invariant
            i <= results@.len(),
            forall|k: int| 0 <= k < i ==> (#[trigger] results@[k]).0 != operation,
        decreases results@.len() - i,
    {
        if results[i].0 == operation {
            assert(results@[i as int] == (operation, results@[i as int].1));
            return Some(results[i].1);
        }
        i = i + 1;
    }
    None
}

/// What a selection without a gate of its own adds to a circuit: two operations on new targets.
pub open spec fn selected_by_arithmetic(
    before: CircuitBuilder,
    after: CircuitBuilder,
    op: BaseSelectionOperation,
    r: Target,
) -> bool {
    let tmp = Target::VirtualTarget { index: before.virtual_targets };
    &&& r == Target::VirtualTarget { index: (before.virtual_targets + 1) as usize }
    &&& after.base_operations@ == before.base_operations@.push(
        BaseOperation { out: tmp, a: op.b, b: op.y, c: op.y },
    ).push(BaseOperation { out: r, a: op.b, b: op.x, c: tmp })
    &&& after.virtual_targets == before.virtual_targets + 2
    &&& after.rows == before.rows
    &&& after.connections == before.connections
    &&& after.selection_slot == before.selection_slot
}

/// What a selection with a gate of its own adds to a circuit: connections to the wires of a free
/// place in a row of selections, which is a new row if the last one is full.
pub open spec fn selected_by_gate(
    before: CircuitBuilder,
    after: CircuitBuilder,
    op: BaseSelectionOperation,
    r: Target,
) -> bool {
    let slot = match before.selection_slot {
        Some(slot) => slot,
        None => (before.rows@.len() as usize, 0usize),
    };
    let row = slot.0;
    let first = 4 * slot.1;
    &&& r == Target::Wire { row, column: (first + 3) as usize }
    &&& after.connections@ == before.connections@.push(
        (op.b, Target::Wire { row, column: first as usize }),
    ).push((op.x, Target::Wire { row, column: (first + 1) as usize })).push(
        (op.y, Target::Wire { row, column: (first + 2) as usize }),
    )
    &&& after.rows@ == match before.selection_slot {
        Some(_) => before.rows@,
        None => before.rows@.push(
            GateKind::Selection(
                SelectionGate { num_ops: (before.config.num_routed_wires / 4) as usize },
            ),
        ),
    }
    &&& after.base_operations == before.base_operations
    &&& after.virtual_targets == before.virtual_targets
}

impl CircuitBuilder {
    /// Selects `x` or `y` based on `b`. A selection that was made before gives the same target
    /// again.
    pub fn select(&mut self, b: BoolTarget, x: Target, y: Target) -> (r: Target)
        requires
            old(self).base_wf(),
            old(self).config.use_select_gate ==> old(self).config.num_routed_wires >= 4,
            old(self).virtual_targets + 2 <= usize::MAX,
        ensures
            final(self).base_wf(),
            extended(*old(self), *final(self)),
            ({
                let op = BaseSelectionOperation { b: b.target, x, y };
                if exists|k: int|
                    0 <= k < old(self).base_select_results@.len() && (
                    #[trigger] old(self).base_select_results@[k]).0 == op {
                    &&& *final(self) == *old(self)
                    &&& exists|k: int|
                        0 <= k < old(self).base_select_results@.len() && old(
                            self,
                        ).base_select_results@[k] == (op, r)
                } else {
                    &&& final(self).base_select_results@ == old(
                        self,
                    ).base_select_results@.push((op, r))
                    &&& if old(self).config.use_select_gate {
                        selected_by_gate(*old(self), *final(self), op, r)
                    } else {
                        selected_by_arithmetic(*old(self), *final(self), op, r)
                    }
                }
            }),
            forall|asg: Assignment| #[trigger]
                satisfied(*final(self), asg) ==> (asg.base)(r) == selected(
                    (asg.base)(b.target),
                    (asg.base)(x),
                    (asg.base)(y),
                ),
            forall|asg: Assignment| #[trigger]
                satisfied(*final(self), asg) && ((asg.base)(b.target) == elt0() || (asg.base)(
                    b.target,
                ) == elt1()) ==> (asg.base)(r) == (if (asg.base)(b.target) == elt1() {
                    (asg.base)(x)
                } else {
                    (asg.base)(y)
                }),
    {
        // See if we've already computed the same operation.
        let operation = BaseSelectionOperation { b: b.target, x, y };
        proof {
            assert forall|asg: Assignment| asg.wf() && ((asg.base)(b.target) == elt0() || (
            asg.base)(b.target) == elt1()) implies #[trigger] selected(
                (asg.base)(b.target),
                (asg.base)(x),
                (asg.base)(y),
            ) == (if (asg.base)(b.target) == elt1() {
                (asg.base)(x)
            } else {
                (asg.base)(y)
            }) by {
                lemma_selected((asg.base)(b.target), (asg.base)(x), (asg.base)(y));
            }
        }
        match earlier_result(&self.base_select_results, operation) {
            Some(result) => {
                return result;
            },
            None => {},
        }
        let ghost start = *self;
        let result = if self.config.select_gate_enabled() {
            let gate = SelectionGate::new_from_config(&self.config);
            let (row, i) = self.find_slot(gate);
            let wire_b = Target::wire(row, gate.wire_ith_selector(i));
            let wire_x = Target::wire(row, gate.wire_ith_element_0(i));
            let wire_y = Target::wire(row, gate.wire_ith_element_1(i));
            let result = Target::wire(row, gate.wire_ith_output(i));
            let ghost found = *self;
            self.connect(b.target, wire_b);
            self.connect(x, wire_x);
            self.connect(y, wire_y);
            proof {
                let n = start.connections@.len() as int;
                assert forall|asg: Assignment| #[trigger] satisfied(*self, asg) implies (asg.base)(
                    result,
                ) == selected((asg.base)(b.target), (asg.base)(x), (asg.base)(y)) by {
                    assert(self.connections@[n] == (b.target, wire_b));
                    assert(self.connections@[n + 1] == (x, wire_x));
                    assert(self.connections@[n + 2] == (y, wire_y));
                    assert(row_holds(self.rows@[row as int], asg, row));
                    assert(wire_value(asg, row, 4 * i + 3) == (asg.base)(result));
                }
            }
            result
        } else {
            let tmp = self.mul_sub(b.target, y, y);
            let ghost middle = *self;
            let result = self.mul_sub(b.target, x, tmp);
            proof {
                assert forall|asg: Assignment| #[trigger] satisfied(*self, asg) implies (asg.base)(
                    result,
                ) == selected((asg.base)(b.target), (asg.base)(x), (asg.base)(y)) by {
                    lemma_satisfied_before(middle, *self, asg);
                }
            }
            result
        };
        let ghost before = *self;
        self.base_select_results.push((operation, result));
        proof {
            assert forall|asg: Assignment| #[trigger] satisfied(*self, asg) implies satisfied(
                before,
                asg,
            ) by {
                lemma_satisfied_before(before, *self, asg);
            }
        }
        result
    }
}

} // verus!
