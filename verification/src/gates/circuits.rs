//! The constraints of the gates as parts of a circuit.

use crate::field::model::lemma_mul_comm;
use crate::gates::addition_base::AdditionGate;
use crate::gates::equality_base::{EqualityGate, equality_constraint};
use crate::gates::gate::Gate;
use crate::plonk::circuit_builder::{
    Assignment, CircuitBuilder, ExtensionNode, ExtensionTarget, grown, lemma_value_kept, node_value,
    same_rest, target_values, targets_in,
};
use vstd::prelude::*;

verus! {

/// The targets compute the first constraints of a gate.
pub open spec fn circuit_prefix<G: Gate>(
    gate: G,
    start: Seq<ExtensionNode>,
    nodes: Seq<ExtensionNode>,
    wires: Seq<ExtensionTarget>,
    constants: Seq<ExtensionTarget>,
    r: Seq<ExtensionTarget>,
) -> bool {
    &&& targets_in(nodes, r)
    &&& forall|k: int, asg: Assignment|
        0 <= k < r.len() && asg.wf() ==> #[trigger] node_value(nodes, asg, r[k].index as int)
            == gate.constraints(
            target_values(start, asg, wires),
            target_values(start, asg, constants),
        )[k]
}

/// What evaluating a gate in a circuit does.
pub open spec fn circuit_done<G: Gate>(
    gate: G,
    before: CircuitBuilder,
    after: CircuitBuilder,
    wires: Seq<ExtensionTarget>,
    constants: Seq<ExtensionTarget>,
    r: Seq<ExtensionTarget>,
) -> bool {
    &&& grown(before.nodes@, after.nodes@)
    &&& same_rest(before, after)
    &&& r.len() == gate.constraint_count()
    &&& circuit_prefix(gate, before.nodes@, after.nodes@, wires, constants, r)
}

/// Further nodes do not change the constraints so far.
pub proof fn lemma_prefix_grown<G: Gate>(
    gate: G,
    start: Seq<ExtensionNode>,
    nodes: Seq<ExtensionNode>,
    more: Seq<ExtensionNode>,
    wires: Seq<ExtensionTarget>,
    constants: Seq<ExtensionTarget>,
    r: Seq<ExtensionTarget>,
)
    requires
        circuit_prefix(gate, start, nodes, wires, constants, r),
        grown(nodes, more),
    ensures
        circuit_prefix(gate, start, more, wires, constants, r),
{
    assert forall|k: int, asg: Assignment| 0 <= k < r.len() && asg.wf() implies #[trigger] node_value(
        more,
        asg,
        r[k].index as int,
    ) == gate.constraints(
        target_values(start, asg, wires),
        target_values(start, asg, constants),
    )[k] by {
        assert(r[k].index < nodes.len());
        lemma_value_kept(nodes, more, asg, r[k].index as int);
        assert(node_value(nodes, asg, r[k].index as int) == gate.constraints(
            target_values(start, asg, wires),
            target_values(start, asg, constants),
        )[k]);
    }
}

/// One more constraint.
pub proof fn lemma_prefix_push<G: Gate>(
    gate: G,
    start: Seq<ExtensionNode>,
    nodes: Seq<ExtensionNode>,
    wires: Seq<ExtensionTarget>,
    constants: Seq<ExtensionTarget>,
    r: Seq<ExtensionTarget>,
    t: ExtensionTarget,
)
    requires
        circuit_prefix(gate, start, nodes, wires, constants, r),
        t.index < nodes.len(),
        forall|asg: Assignment|
            asg.wf() ==> #[trigger] node_value(nodes, asg, t.index as int) == gate.constraints(
                target_values(start, asg, wires),
                target_values(start, asg, constants),
            )[r.len() as int],
    ensures
        circuit_prefix(gate, start, nodes, wires, constants, r.push(t)),
{
    let q = r.push(t);
    assert forall|k: int, asg: Assignment| 0 <= k < q.len() && asg.wf() implies #[trigger] node_value(
        nodes,
        asg,
        q[k].index as int,
    ) == gate.constraints(
        target_values(start, asg, wires),
        target_values(start, asg, constants),
    )[k] by {
        if k < r.len() {
            assert(q[k] == r[k]);
            assert(node_value(nodes, asg, r[k].index as int) == gate.constraints(
                target_values(start, asg, wires),
                target_values(start, asg, constants),
            )[k]);
        }
    }
}

impl AdditionGate {
    /// The constraints as a part of a circuit.
    pub fn eval_unfiltered_circuit(
        &self,
        builder: &mut CircuitBuilder,
        local_wires: &[ExtensionTarget],
        local_constants: &[ExtensionTarget],
    ) -> (r: Vec<ExtensionTarget>)
        requires
            self.wf(),
            old(builder).wf(),
            local_wires@.len() >= self.wire_count(),
            local_constants@.len() >= self.constant_count(),
            targets_in(old(builder).nodes@, local_wires@),
            targets_in(old(builder).nodes@, local_constants@),
        ensures
            circuit_done(
                *self,
                *old(builder),
                *final(builder),
                local_wires@,
                local_constants@,
                r@,
            ),
    {
        let ghost n0 = builder.nodes@;
        let ghost rest = *builder;
        let ghost g = *self;
        assert(g.wf() == (3 * g.num_ops <= usize::MAX));
        assert(local_constants@[0].index < n0.len() && local_constants@[1].index < n0.len());
        let const_0 = local_constants[0];
        let const_1 = local_constants[1];
        let mut r: Vec<ExtensionTarget> = Vec::with_capacity(self.num_ops);
        let mut i: usize = 0;
        while i < self.num_ops
            invariant
                i <= self.num_ops,
                g == *self,
                3 * g.num_ops <= usize::MAX,
                local_wires@.len() >= 3 * g.num_ops,
                local_constants@.len() >= 2,
                const_0 == local_constants@[0],
                const_1 == local_constants@[1],
                targets_in(n0, local_wires@),
                targets_in(n0, local_constants@),
                builder.wf(),
                grown(n0, builder.nodes@),
                same_rest(rest, *builder),
                r@.len() == i,
                circuit_prefix(g, n0, builder.nodes@, local_wires@, local_constants@, r@),
            decreases self.num_ops - i,
        {
            let ghost m0 = builder.nodes@;
            let addend_0 = local_wires[Self::wire_ith_addend_0(i)];
            let addend_1 = local_wires[Self::wire_ith_addend_1(i)];
            let output = local_wires[Self::wire_ith_output(i)];
            assert(local_wires@[3 * i].index < n0.len() && local_wires@[3 * i + 1].index < n0.len()
                && local_wires@[3 * i + 2].index < n0.len());
            assert(local_constants@[0].index < n0.len() && local_constants@[1].index < n0.len());
            let true_addend_0 = builder.mul_extension(const_0, addend_0);
            let true_addend_1 = builder.mul_extension(const_1, addend_1);
            let computed_output = builder.add_extension(true_addend_0, true_addend_1);
            let diff = builder.sub_extension(output, computed_output);
            let ghost r0 = r@;
            r.push(diff);
            proof {
                let n = builder.nodes@;
                assert(grown(m0, n));
                lemma_prefix_grown(g, n0, m0, n, local_wires@, local_constants@, r0);
                assert forall|asg: Assignment| asg.wf() implies #[trigger] node_value(
                    n,
                    asg,
                    diff.index as int,
                ) == g.constraints(
                    target_values(n0, asg, local_wires@),
                    target_values(n0, asg, local_constants@),
                )[i as int] by {
                    let w = target_values(n0, asg, local_wires@);
                    let c = target_values(n0, asg, local_constants@);
                    lemma_value_kept(n0, n, asg, addend_0.index as int);
                    lemma_value_kept(n0, n, asg, addend_1.index as int);
                    lemma_value_kept(n0, n, asg, output.index as int);
                    lemma_value_kept(n0, n, asg, const_0.index as int);
                    lemma_value_kept(n0, n, asg, const_1.index as int);
                    assert(node_value(n, asg, true_addend_0.index as int) == c[0] * w[3 * i]);
                    assert(node_value(n, asg, true_addend_1.index as int) == c[1] * w[3 * i + 1]);
                    assert(node_value(n, asg, computed_output.index as int) == c[0] * w[3 * i]
                        + c[1] * w[3 * i + 1]);
                    lemma_mul_comm(c[0], w[3 * i]);
                    lemma_mul_comm(c[1], w[3 * i + 1]);
                }
                lemma_prefix_push(g, n0, n, local_wires@, local_constants@, r0, diff);
            }
            i = i + 1;
        }
        r
    }
}

impl EqualityGate {
    /// The constraints as a part of a circuit.
    pub fn eval_unfiltered_circuit(
        &self,
        builder: &mut CircuitBuilder,
        local_wires: &[ExtensionTarget],
        local_constants: &[ExtensionTarget],
    ) -> (r: Vec<ExtensionTarget>)
        requires
            self.wf(),
            old(builder).wf(),
            local_wires@.len() >= self.wire_count(),
            local_constants@.len() >= self.constant_count(),
            targets_in(old(builder).nodes@, local_wires@),
            targets_in(old(builder).nodes@, local_constants@),
        ensures
            circuit_done(
                *self,
                *old(builder),
                *final(builder),
                local_wires@,
                local_constants@,
                r@,
            ),
    {
        let ghost n0 = builder.nodes@;
        let ghost rest = *builder;
        let ghost g = *self;
        assert(g.wf() == (6 * g.num_ops <= usize::MAX));
        assert(local_constants@[0].index < n0.len());
        let const_0 = local_constants[0];
        let mut r: Vec<ExtensionTarget> = Vec::new();
        let mut i: usize = 0;
        while i < self.num_ops
            invariant
                i <= self.num_ops,
                g == *self,
                g.wf(),
                local_wires@.len() >= 6 * g.num_ops,
                local_constants@.len() >= 1,
                const_0 == local_constants@[0],
                targets_in(n0, local_wires@),
                targets_in(n0, local_constants@),
                builder.wf(),
                grown(n0, builder.nodes@),
                same_rest(rest, *builder),
                r@.len() == 4 * i,
                circuit_prefix(g, n0, builder.nodes@, local_wires@, local_constants@, r@),
            decreases self.num_ops - i,
        {
            let ghost m0 = builder.nodes@;
            let ghost t = 3 * g.num_ops + 3 * i;
            let x = local_wires[self.wire_ith_element_0(i)];
            let y = local_wires[self.wire_ith_element_1(i)];
            let equal = local_wires[self.wire_ith_output(i)];
            let diff = local_wires[self.wire_ith_temporary(i, 0)];
            let invdiff = local_wires[self.wire_ith_temporary(i, 1)];
            let prod = local_wires[self.wire_ith_temporary(i, 2)];
            assert(local_wires@[3 * i].index < n0.len() && local_wires@[3 * i + 1].index < n0.len()
                && local_wires@[3 * i + 2].index < n0.len() && local_wires@[t].index < n0.len()
                && local_wires@[t + 1].index < n0.len() && local_wires@[t + 2].index < n0.len());
            assert(local_constants@[0].index < n0.len());
            let inner = builder.sub_extension(x, y);
            let c0 = builder.sub_extension(inner, diff);
            let c1 = builder.mul_sub_extension(diff, invdiff, prod);
            let c2 = builder.mul_sub_extension(prod, diff, diff);
            let inner2 = builder.sub_extension(const_0, prod);
            let c3 = builder.sub_extension(inner2, equal);
            let ghost r0 = r@;
            r.push(c0);
            r.push(c1);
            r.push(c2);
            r.push(c3);
            proof {
                let n = builder.nodes@;
                assert(grown(m0, n));
                lemma_prefix_grown(g, n0, m0, n, local_wires@, local_constants@, r0);
                assert forall|asg: Assignment| asg.wf() implies ({
                    let w = target_values(n0, asg, local_wires@);
                    let c = target_values(n0, asg, local_constants@);
                    let all = g.constraints(w, c);
                    &&& #[trigger] node_value(n, asg, c0.index as int) == all[4 * i]
                    &&& node_value(n, asg, c1.index as int) == all[4 * i + 1]
                    &&& node_value(n, asg, c2.index as int) == all[4 * i + 2]
                    &&& node_value(n, asg, c3.index as int) == all[4 * i + 3]
                }) by {
                    lemma_value_kept(n0, n, asg, x.index as int);
                    lemma_value_kept(n0, n, asg, y.index as int);
                    lemma_value_kept(n0, n, asg, equal.index as int);
                    lemma_value_kept(n0, n, asg, diff.index as int);
                    lemma_value_kept(n0, n, asg, invdiff.index as int);
                    lemma_value_kept(n0, n, asg, prod.index as int);
                    lemma_value_kept(n0, n, asg, const_0.index as int);
                    let w = target_values(n0, asg, local_wires@);
                    let c = target_values(n0, asg, local_constants@);
                    let m = g.num_ops as int;
                    assert(node_value(n, asg, inner.index as int) == w[3 * i] - w[3 * i + 1]);
                    assert(node_value(n, asg, inner2.index as int) == c[0] - w[t + 2]);
                    assert(node_value(n, asg, c0.index as int) == equality_constraint(
                        w,
                        c,
                        m,
                        i as int,
                        0,
                    ));
                    assert(node_value(n, asg, c1.index as int) == equality_constraint(
                        w,
                        c,
                        m,
                        i as int,
                        1,
                    ));
                    assert(node_value(n, asg, c2.index as int) == equality_constraint(
                        w,
                        c,
                        m,
                        i as int,
                        2,
                    ));
                    assert(node_value(n, asg, c3.index as int) == equality_constraint(
                        w,
                        c,
                        m,
                        i as int,
                        3,
                    ));
                    assert((4 * i + 1) / 4 == i && (4 * i + 2) / 4 == i && (4 * i + 3) / 4 == i);
                }
                let (r1, r2, r3) = (r0.push(c0), r0.push(c0).push(c1), r0.push(c0).push(c1).push(c2));
                lemma_prefix_push(g, n0, n, local_wires@, local_constants@, r0, c0);
                assert forall|asg: Assignment| asg.wf() implies #[trigger] node_value(
                    n,
                    asg,
                    c1.index as int,
                ) == g.constraints(
                    target_values(n0, asg, local_wires@),
                    target_values(n0, asg, local_constants@),
                )[r1.len() as int] by {
                    let z = node_value(n, asg, c0.index as int);
                }
                lemma_prefix_push(g, n0, n, local_wires@, local_constants@, r1, c1);
                assert forall|asg: Assignment| asg.wf() implies #[trigger] node_value(
                    n,
                    asg,
                    c2.index as int,
                ) == g.constraints(
                    target_values(n0, asg, local_wires@),
                    target_values(n0, asg, local_constants@),
                )[r2.len() as int] by {
                    let z = node_value(n, asg, c0.index as int);
                }
                lemma_prefix_push(g, n0, n, local_wires@, local_constants@, r2, c2);
                assert forall|asg: Assignment| asg.wf() implies #[trigger] node_value(
                    n,
                    asg,
                    c3.index as int,
                ) == g.constraints(
                    target_values(n0, asg, local_wires@),
                    target_values(n0, asg, local_constants@),
                )[r3.len() as int] by {
                    let z = node_value(n, asg, c0.index as int);
                }
                lemma_prefix_push(g, n0, n, local_wires@, local_constants@, r3, c3);
            }
            i = i + 1;
        }
        r
    }
}

} // verus!
