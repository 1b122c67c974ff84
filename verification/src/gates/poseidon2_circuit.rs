//! The constraints of the Poseidon2 gate as a part of a circuit.

use crate::field::extension::QuadraticExtension;
use crate::field::model::{Elt, base, elt1, lemma_mul_dist, lemma_mul_one_zero};
use crate::field::types::Field;
use crate::gates::circuits::{circuit_done, circuit_prefix, lemma_prefix_grown, lemma_prefix_push};
use crate::gates::gate::Gate;
use crate::gates::poseidon2::{
    Poseidon2Gate, WIRE_SWAP, first_state, last_state, partial_state, poseidon2_constraint,
    swapped_inputs, twelve,
};
use crate::gates::poseidon2_batch::lemma_round_rows;
use crate::hash::poseidon2::circuit::{
    add_rc_circuit, external_linear_layer_circuit, internal_linear_layer_circuit, sbox_circuit,
    sbox_p_circuit,
};
use crate::hash::poseidon2::config::{INTERNAL_CONSTANTS, ROUNDS_F_HALF};
use crate::hash::poseidon2::layers::{add_constants, external_layer, sbox, sbox_layer};
use crate::plonk::circuit_builder::{
    Assignment, CircuitBuilder, ExtensionNode, ExtensionTarget, computes, grown, lemma_value_kept,
    lemma_value_wf, lemma_values_kept, node_value, same_rest, target_values, targets_in,
};
use vstd::prelude::*;

verus! {

/// Constrains twelve wires to the state, and continues with the wires.
fn replace_state_circuit(
    builder: &mut CircuitBuilder,
    state: [ExtensionTarget; 12],
    wires: &[ExtensionTarget],
    start: usize,
    r: &mut Vec<ExtensionTarget>,
    Ghost(n0): Ghost<Seq<ExtensionNode>>,
    Ghost(constants): Ghost<Seq<ExtensionTarget>>,
) -> (next: [ExtensionTarget; 12])
    requires
        old(builder).wf(),
        grown(n0, old(builder).nodes@),
        wires@.len() >= 135,
        targets_in(n0, wires@),
        start + 12 <= 135,
        old(r)@.len() + 12 <= 123,
        targets_in(old(builder).nodes@, state@),
        circuit_prefix(Poseidon2Gate, n0, old(builder).nodes@, wires@, constants, old(r)@),
        forall|i: int, asg: Assignment|
            0 <= i < 12 && asg.wf() ==> #[trigger] node_value(
                old(builder).nodes@,
                asg,
                state@[i].index as int,
            ) - target_values(n0, asg, wires@)[start + i] == poseidon2_constraint(
                target_values(n0, asg, wires@),
                old(r)@.len() + i,
            ),
    ensures
        grown(old(builder).nodes@, final(builder).nodes@),
        same_rest(*old(builder), *final(builder)),
        final(r)@.len() == old(r)@.len() + 12,
        circuit_prefix(Poseidon2Gate, n0, final(builder).nodes@, wires@, constants, final(r)@),
        next@ == wires@.subrange(start as int, start + 12),
{
    let ghost g = Poseidon2Gate;
    let ghost rest = *builder;
    let ghost m0 = builder.nodes@;
    let ghost len0 = r@.len();
    let mut next = state;
    let mut i: usize = 0;
    while i < 12
        invariant
            i <= 12,
            g == Poseidon2Gate,
            builder.wf(),
            grown(n0, m0),
            grown(m0, builder.nodes@),
            same_rest(rest, *builder),
            wires@.len() >= 135,
            targets_in(n0, wires@),
            start + 12 <= 135,
            targets_in(m0, state@),
            r@.len() == len0 + i,
            len0 + 12 <= 123,
            circuit_prefix(g, n0, builder.nodes@, wires@, constants, r@),
            forall|j: int, asg: Assignment|
                0 <= j < 12 && asg.wf() ==> #[trigger] node_value(
                    m0,
                    asg,
                    state@[j].index as int,
                ) - target_values(n0, asg, wires@)[start + j] == poseidon2_constraint(
                    target_values(n0, asg, wires@),
                    len0 + j,
                ),
            forall|j: int| 0 <= j < i ==> #[trigger] next@[j] == wires@[start + j],
        decreases 12 - i,
    {
        let ghost m1 = builder.nodes@;
        let ghost r0 = r@;
        let sbox_in = wires[start + i];
        assert(wires@[start + i].index < n0.len());
        assert(state@[i as int].index < m0.len());
        let c = builder.sub_extension(state[i], sbox_in);
        r.push(c);
        next[i] = sbox_in;
        proof {
            let n = builder.nodes@;
            lemma_prefix_grown(g, n0, m1, n, wires@, constants, r0);
            assert forall|asg: Assignment| asg.wf() implies #[trigger] node_value(
                n,
                asg,
                c.index as int,
            ) == g.constraints(
                target_values(n0, asg, wires@),
                target_values(n0, asg, constants),
            )[r0.len() as int] by {
                lemma_value_kept(m0, n, asg, state@[i as int].index as int);
                lemma_value_kept(n0, n, asg, sbox_in.index as int);
                let w = target_values(n0, asg, wires@);
                assert(node_value(m0, asg, state@[i as int].index as int) - w[start + i]
                    == poseidon2_constraint(w, len0 + i));
            }
            lemma_prefix_push(g, n0, n, wires@, constants, r0, c);
        }
        i = i + 1;
    }
    assert(next@ =~= wires@.subrange(start as int, start + 12));
    next
}

/// The inputs after the swap that the delta wires describe.
fn swapped_state_circuit(builder: &mut CircuitBuilder, wires: &[ExtensionTarget]) -> (r: [
    ExtensionTarget;
    12
])
    requires
        old(builder).wf(),
        wires@.len() >= 135,
        targets_in(old(builder).nodes@, wires@),
    ensures
        computes(*old(builder), *final(builder), wires@, r@, |w: Seq<Elt>| swapped_inputs(w)),
{
    let ghost n0 = builder.nodes@;
    let ghost rest = *builder;
    let mut r = [
        wires[0],
        wires[1],
        wires[2],
        wires[3],
        wires[4],
        wires[5],
        wires[6],
        wires[7],
        wires[8],
        wires[9],
        wires[10],
        wires[11],
    ];
    let mut i: usize = 0;
    while i < 4
        invariant
            i <= 4,
            builder.wf(),
            grown(n0, builder.nodes@),
            same_rest(rest, *builder),
            wires@.len() >= 135,
            targets_in(n0, wires@),
            forall|j: int| 0 <= j < 12 ==> (#[trigger] r@[j]).index < builder.nodes@.len(),
            forall|j: int|
                0 <= j < 12 && !(j < i || 4 <= j < 4 + i) ==> #[trigger] r@[j] == wires@[j],
            forall|j: int, asg: Assignment|
                0 <= j < 12 && (j < i || 4 <= j < 4 + i) ==> #[trigger] node_value(
                    builder.nodes@,
                    asg,
                    r@[j].index as int,
                ) == swapped_inputs(target_values(n0, asg, wires@))[j],
        decreases 4 - i,
    {
        let ghost m0 = builder.nodes@;
        let ghost r0 = r@;
        let delta_i = wires[Poseidon2Gate::wire_delta(i)];
        let input_lhs = wires[Poseidon2Gate::wire_input(i)];
        let input_rhs = wires[Poseidon2Gate::wire_input(i + 4)];
        assert(wires@[25 + i].index < n0.len() && wires@[i as int].index < n0.len() && wires@[i
            + 4].index < n0.len());
        let a = builder.add_extension(input_lhs, delta_i);
        let ghost m1 = builder.nodes@;
        let b = builder.sub_extension(input_rhs, delta_i);
        let ghost m2 = builder.nodes@;
        r[i] = a;
        r[i + 4] = b;
        proof {
            assert(grown(m0, m2));
            assert forall|j: int, asg: Assignment|
                0 <= j < 12 && (j < i + 1 || 4 <= j < 4 + i + 1) implies #[trigger] node_value(
                m2,
                asg,
                r@[j].index as int,
            ) == swapped_inputs(target_values(n0, asg, wires@))[j] by {
                lemma_value_kept(n0, m2, asg, wires@[25 + i].index as int);
                lemma_value_kept(n0, m2, asg, wires@[i as int].index as int);
                lemma_value_kept(n0, m2, asg, wires@[i + 4].index as int);
                if j == i {
                    assert(r@[j] == a);
                    assert(node_value(m2, asg, a.index as int) == node_value(
                        m2,
                        asg,
                        input_lhs.index as int,
                    ) + node_value(m2, asg, delta_i.index as int));
                } else if j == i + 4 {
                    assert(r@[j] == b);
                } else {
                    assert(r@[j] == r0[j]);
                    lemma_value_kept(m0, m2, asg, r0[j].index as int);
                    assert(node_value(m0, asg, r0[j].index as int) == swapped_inputs(
                        target_values(n0, asg, wires@),
                    )[j]);
                }
            }
        }
        i = i + 1;
    }
    proof {
        let n = builder.nodes@;
        assert forall|asg: Assignment| asg.wf() implies #[trigger] target_values(n, asg, r@)
            == swapped_inputs(target_values(n0, asg, wires@)) by {
            let w = target_values(n0, asg, wires@);
            let target = swapped_inputs(w);
            assert forall|j: int| 0 <= j < 12 implies target_values(n, asg, r@)[j]
                == #[trigger] target[j] by {
                if j < 8 {
                    assert(node_value(n, asg, r@[j].index as int) == target[j]);
                } else {
                    assert(r@[j] == wires@[j]);
                    assert(wires@[j].index < n0.len());
                    lemma_value_kept(n0, n, asg, wires@[j].index as int);
                }
            }
            assert(target_values(n, asg, r@) =~= target);
        }
    }
    r
}

proof fn lemma_first_difference(w: Seq<Elt>, swap: Elt)
    requires
        w.len() >= 135,
        w[24] == swap,
        swap.wf(),
    ensures
        swap * swap - swap == poseidon2_constraint(w, 0),
{
    lemma_mul_dist(swap, swap, elt1());
    lemma_mul_one_zero(swap);
}

/// Constrains the flag and the delta wires.
fn swap_constraints_circuit(
    builder: &mut CircuitBuilder,
    wires: &[ExtensionTarget],
    Ghost(constants): Ghost<Seq<ExtensionTarget>>,
) -> (r: Vec<ExtensionTarget>)
    requires
        old(builder).wf(),
        wires@.len() >= 135,
        targets_in(old(builder).nodes@, wires@),
    ensures
        grown(old(builder).nodes@, final(builder).nodes@),
        same_rest(*old(builder), *final(builder)),
        r@.len() == 5,
        circuit_prefix(
            Poseidon2Gate,
            old(builder).nodes@,
            final(builder).nodes@,
            wires@,
            constants,
            r@,
        ),
{
    let ghost g = Poseidon2Gate;
    let ghost n0 = builder.nodes@;
    let ghost rest = *builder;
    let mut r: Vec<ExtensionTarget> = Vec::with_capacity(123);
    let swap = wires[WIRE_SWAP];
    assert(wires@[24].index < n0.len());
    let c = builder.mul_sub_extension(swap, swap, swap);
    proof {
        let n = builder.nodes@;
        assert(circuit_prefix(g, n0, n, wires@, constants, r@));
        assert forall|asg: Assignment| asg.wf() implies #[trigger] node_value(
            n,
            asg,
            c.index as int,
        ) == g.constraints(target_values(n0, asg, wires@), target_values(n0, asg, constants))[0] by {
            lemma_value_kept(n0, n, asg, swap.index as int);
            lemma_value_wf(n0, asg, swap.index as int);
            lemma_first_difference(
                target_values(n0, asg, wires@),
                node_value(n0, asg, swap.index as int),
            );
        }
        lemma_prefix_push(g, n0, n, wires@, constants, r@, c);
    }
    r.push(c);
    let mut i: usize = 0;
    while i < 4
        invariant
            i <= 4,
            g == Poseidon2Gate,
            builder.wf(),
            grown(n0, builder.nodes@),
            same_rest(rest, *builder),
            wires@.len() >= 135,
            targets_in(n0, wires@),
            swap == wires@[24],
            r@.len() == 1 + i,
            circuit_prefix(g, n0, builder.nodes@, wires@, constants, r@),
        decreases 4 - i,
    {
        let ghost m0 = builder.nodes@;
        let input_lhs = wires[Poseidon2Gate::wire_input(i)];
        let input_rhs = wires[Poseidon2Gate::wire_input(i + 4)];
        let delta_i = wires[Poseidon2Gate::wire_delta(i)];
        assert(wires@[25 + i].index < n0.len() && wires@[i as int].index < n0.len() && wires@[i
            + 4].index < n0.len() && wires@[24].index < n0.len());
        let diff = builder.sub_extension(input_rhs, input_lhs);
        let c = builder.mul_sub_extension(swap, diff, delta_i);
        let ghost r0 = r@;
        r.push(c);
        proof {
            let n = builder.nodes@;
            assert(grown(m0, n));
            lemma_prefix_grown(g, n0, m0, n, wires@, constants, r0);
            assert forall|asg: Assignment| asg.wf() implies #[trigger] node_value(
                n,
                asg,
                c.index as int,
            ) == g.constraints(
                target_values(n0, asg, wires@),
                target_values(n0, asg, constants),
            )[r0.len() as int] by {
                lemma_value_kept(n0, n, asg, wires@[25 + i].index as int);
                lemma_value_kept(n0, n, asg, wires@[i as int].index as int);
                lemma_value_kept(n0, n, asg, wires@[i + 4].index as int);
                lemma_value_kept(n0, n, asg, wires@[24].index as int);
                assert(node_value(n, asg, diff.index as int) == node_value(
                    n,
                    asg,
                    input_rhs.index as int,
                ) - node_value(n, asg, input_lhs.index as int));
            }
            lemma_prefix_push(g, n0, n, wires@, constants, r0, c);
        }
        i = i + 1;
    }
    r
}

/// The values of the state targets are a function of the values of the wires.
spec fn state_is(
    n0: Seq<ExtensionNode>,
    nodes: Seq<ExtensionNode>,
    wires: Seq<ExtensionTarget>,
    state: Seq<ExtensionTarget>,
    f: spec_fn(Seq<Elt>) -> Seq<Elt>,
) -> bool {
    &&& targets_in(nodes, state)
    &&& forall|asg: Assignment|
        asg.wf() ==> #[trigger] target_values(nodes, asg, state) == f(
            target_values(n0, asg, wires),
        )
}

/// A full round: adds the constants, constrains and continues with the wires from `start` on if
/// there are any, substitutes and mixes.
fn full_round_circuit(
    builder: &mut CircuitBuilder,
    state: [ExtensionTarget; 12],
    wires: &[ExtensionTarget],
    round: usize,
    start: Option<usize>,
    r: &mut Vec<ExtensionTarget>,
    Ghost(n0): Ghost<Seq<ExtensionNode>>,
    Ghost(constants): Ghost<Seq<ExtensionTarget>>,
    Ghost(f): Ghost<spec_fn(Seq<Elt>) -> Seq<Elt>>,
) -> (next: [ExtensionTarget; 12])
    requires
        old(builder).wf(),
        grown(n0, old(builder).nodes@),
        wires@.len() >= 135,
        targets_in(n0, wires@),
        round < 8,
        state_is(n0, old(builder).nodes@, wires@, state@, f),
        circuit_prefix(Poseidon2Gate, n0, old(builder).nodes@, wires@, constants, old(r)@),
        start matches Some(s) ==> s + 12 <= 135 && old(r)@.len() + 12 <= 123 && forall|
            w: Seq<Elt>,
            i: int,
        |
            w.len() >= 135 && 0 <= i < 12 ==> #[trigger] add_constants(f(w), round as int)[i] - w[s
                + i] == poseidon2_constraint(w, old(r)@.len() + i),
    ensures
        grown(old(builder).nodes@, final(builder).nodes@),
        same_rest(*old(builder), *final(builder)),
        final(r)@.len() == old(r)@.len() + (if start is Some {
            12int
        } else {
            0
        }),
        circuit_prefix(Poseidon2Gate, n0, final(builder).nodes@, wires@, constants, final(r)@),
        state_is(
            n0,
            final(builder).nodes@,
            wires@,
            next@,
            |w: Seq<Elt>|
                external_layer(
                    sbox_layer(
                        match start {
                            Some(s) => twelve(w, s as int),
                            None => add_constants(f(w), round as int),
                        },
                    ),
                ),
        ),
{
    let ghost g = Poseidon2Gate;
    let ghost m0 = builder.nodes@;
    let ghost r0 = r@;
    let a = add_rc_circuit(builder, state, round);
    let ghost m1 = builder.nodes@;
    proof {
        lemma_prefix_grown(g, n0, m0, m1, wires@, constants, r0);
        assert forall|asg: Assignment| asg.wf() implies #[trigger] target_values(m1, asg, a@)
            == add_constants(f(target_values(n0, asg, wires@)), round as int) by {
            assert(target_values(m0, asg, state@) == f(target_values(n0, asg, wires@)));
        }
    }
    let b = match start {
        Some(s) => {
            proof {
                assert forall|i: int, asg: Assignment| 0 <= i < 12 && asg.wf() implies #[trigger] node_value(
                    m1,
                    asg,
                    a@[i].index as int,
                ) - target_values(n0, asg, wires@)[s + i] == poseidon2_constraint(
                    target_values(n0, asg, wires@),
                    r0.len() + i,
                ) by {
                    let w = target_values(n0, asg, wires@);
                    assert(target_values(m1, asg, a@)[i] == node_value(
                        m1,
                        asg,
                        a@[i].index as int,
                    ));
                    assert(add_constants(f(w), round as int)[i] - w[s + i] == poseidon2_constraint(
                        w,
                        r0.len() + i,
                    ));
                }
            }
            replace_state_circuit(builder, a, wires, s, r, Ghost(n0), Ghost(constants))
        },
        None => a,
    };
    let ghost m2 = builder.nodes@;
    let ghost mid = |w: Seq<Elt>|
        match start {
            Some(s) => twelve(w, s as int),
            None => add_constants(f(w), round as int),
        };
    proof {
        assert forall|i: int| 0 <= i < 12 implies (#[trigger] b@[i]).index < m2.len() by {
            match start {
                Some(s) => {
                    assert(b@[i] == wires@[s + i]);
                    assert(wires@[s + i].index < n0.len());
                },
                None => {
                    assert(a@[i].index < m1.len());
                },
            }
        }
        assert forall|asg: Assignment| asg.wf() implies #[trigger] target_values(m2, asg, b@)
            == mid(target_values(n0, asg, wires@)) by {
            match start {
                Some(s) => {
                    let w = target_values(n0, asg, wires@);
                    assert forall|i: int| 0 <= i < 12 implies target_values(m2, asg, b@)[i]
                        == #[trigger] twelve(w, s as int)[i] by {
                        assert(b@[i] == wires@[s + i]);
                        assert(wires@[s + i].index < n0.len());
                        lemma_value_kept(n0, m2, asg, wires@[s + i].index as int);
                    }
                    assert(target_values(m2, asg, b@) =~= twelve(w, s as int));
                },
                None => {},
            }
        }
    }
    let c = sbox_circuit(builder, b);
    let ghost m3 = builder.nodes@;
    let next = external_linear_layer_circuit(builder, c);
    proof {
        let n = builder.nodes@;
        assert(grown(m2, n));
        lemma_prefix_grown(g, n0, m2, n, wires@, constants, r@);
        assert forall|asg: Assignment| asg.wf() implies #[trigger] target_values(n, asg, next@)
            == external_layer(sbox_layer(mid(target_values(n0, asg, wires@)))) by {
            assert(target_values(m3, asg, c@) == sbox_layer(target_values(m2, asg, b@)));
            assert(target_values(m2, asg, b@) == mid(target_values(n0, asg, wires@)));
        }
    }
    next
}

/// A partial round: constrains the wire to the first element and continues with the wire.
fn partial_round_circuit(
    builder: &mut CircuitBuilder,
    state: [ExtensionTarget; 12],
    wires: &[ExtensionTarget],
    round: usize,
    r: &mut Vec<ExtensionTarget>,
    Ghost(n0): Ghost<Seq<ExtensionNode>>,
    Ghost(constants): Ghost<Seq<ExtensionTarget>>,
) -> (next: [ExtensionTarget; 12])
    requires
        old(builder).wf(),
        grown(n0, old(builder).nodes@),
        wires@.len() >= 135,
        targets_in(n0, wires@),
        round < 22,
        old(r)@.len() == 41 + round,
        state_is(
            n0,
            old(builder).nodes@,
            wires@,
            state@,
            |w: Seq<Elt>| partial_state(w, round as nat),
        ),
        circuit_prefix(Poseidon2Gate, n0, old(builder).nodes@, wires@, constants, old(r)@),
    ensures
        grown(old(builder).nodes@, final(builder).nodes@),
        same_rest(*old(builder), *final(builder)),
        final(r)@.len() == 42 + round,
        circuit_prefix(Poseidon2Gate, n0, final(builder).nodes@, wires@, constants, final(r)@),
        state_is(
            n0,
            final(builder).nodes@,
            wires@,
            next@,
            |w: Seq<Elt>| partial_state(w, (round + 1) as nat),
        ),
{
    let ghost g = Poseidon2Gate;
    let ghost m0 = builder.nodes@;
    let ghost r0 = r@;
    assert(state@[0].index < m0.len());
    let rc = QuadraticExtension::from_noncanonical_u64(INTERNAL_CONSTANTS[round]);
    let constant = builder.constant_extension(rc);
    let sum = builder.add_extension(state[0], constant);
    let sbox_in = wires[Poseidon2Gate::wire_partial_sbox(round)];
    assert(wires@[65 + round].index < n0.len());
    let c = builder.sub_extension(sum, sbox_in);
    let ghost m1 = builder.nodes@;
    r.push(c);
    proof {
        assert(grown(m0, m1));
        lemma_prefix_grown(g, n0, m0, m1, wires@, constants, r0);
        QuadraticExtension::lemma_const(INTERNAL_CONSTANTS[round as int]);
        assert forall|asg: Assignment| asg.wf() implies #[trigger] node_value(
            m1,
            asg,
            c.index as int,
        ) == g.constraints(
            target_values(n0, asg, wires@),
            target_values(n0, asg, constants),
        )[r0.len() as int] by {
            lemma_value_kept(m0, m1, asg, state@[0].index as int);
            lemma_value_kept(n0, m1, asg, sbox_in.index as int);
            let w = target_values(n0, asg, wires@);
            assert(target_values(m0, asg, state@) == partial_state(w, round as nat));
            assert(target_values(m0, asg, state@)[0] == node_value(
                m0,
                asg,
                state@[0].index as int,
            ));
            assert(node_value(m1, asg, constant.index as int) == base(
                INTERNAL_CONSTANTS[round as int] as int,
            ));
            assert(node_value(m1, asg, sum.index as int) == partial_state(w, round as nat)[0]
                + base(INTERNAL_CONSTANTS[round as int] as int));
        }
        lemma_prefix_push(g, n0, m1, wires@, constants, r0, c);
    }
    let substituted = sbox_p_circuit(builder, sbox_in);
    let ghost m2 = builder.nodes@;
    let mut mid = state;
    mid[0] = substituted;
    proof {
        lemma_prefix_grown(g, n0, m1, m2, wires@, constants, r@);
        assert(grown(m0, m2));
        assert forall|i: int| 0 <= i < 12 implies (#[trigger] mid@[i]).index < m2.len() by {
            assert(state@[i].index < m0.len());
        }
    }
    let next = internal_linear_layer_circuit(builder, mid);
    proof {
        let n = builder.nodes@;
        lemma_prefix_grown(g, n0, m2, n, wires@, constants, r@);
        assert forall|asg: Assignment| asg.wf() implies #[trigger] target_values(n, asg, next@)
            == partial_state(target_values(n0, asg, wires@), (round + 1) as nat) by {
            let w = target_values(n0, asg, wires@);
            lemma_value_kept(n0, m1, asg, sbox_in.index as int);
            assert(node_value(m2, asg, substituted.index as int) == sbox(w[65 + round]));
            lemma_values_kept(m0, m2, asg, state@);
            assert(target_values(m0, asg, state@) == partial_state(w, round as nat));
            assert(target_values(m2, asg, mid@) =~= partial_state(w, round as nat).update(
                0,
                sbox(w[65 + round]),
            ));
        }
    }
    next
}

impl Poseidon2Gate {
    /// The constraints as a part of a circuit.
    pub fn eval_unfiltered_circuit(
        &self,
        builder: &mut CircuitBuilder,
        local_wires: &[ExtensionTarget],
        local_constants: &[ExtensionTarget],
    ) -> (r: Vec<ExtensionTarget>)
        requires
            old(builder).wf(),
            local_wires@.len() >= 135,
            targets_in(old(builder).nodes@, local_wires@),
        ensures
            circuit_done(
                *self,
                *old(builder),
                *final(builder),
                local_wires@,
                local_constants@,
                r@,
            ),
    {
        let ghost g = Poseidon2Gate;
        let ghost n0 = builder.nodes@;
        let ghost rest = *builder;
        let ghost wires = local_wires@;
        let ghost constants = local_constants@;
        let mut r = swap_constraints_circuit(builder, local_wires, Ghost(constants));
        let ghost m1 = builder.nodes@;
        assert(targets_in(m1, wires)) by {
            assert forall|i: int| 0 <= i < 135 implies (#[trigger] wires[i]).index < m1.len() by {
                assert(wires[i].index < n0.len());
            }
        }
        let swapped = swapped_state_circuit(builder, local_wires);
        let ghost m2 = builder.nodes@;
        let mut state = external_linear_layer_circuit(builder, swapped);
        proof {
            let n = builder.nodes@;
            assert(grown(m1, n));
            lemma_prefix_grown(g, n0, m1, n, wires, constants, r@);
            assert forall|asg: Assignment| asg.wf() implies #[trigger] target_values(
                n,
                asg,
                state@,
            ) == first_state(target_values(n0, asg, wires), 0) by {
                lemma_values_kept(n0, m1, asg, wires);
                assert(target_values(m2, asg, swapped@) == swapped_inputs(
                    target_values(m1, asg, wires),
                ));
            }
            assert(state_is(n0, n, wires, state@, |w: Seq<Elt>| first_state(w, 0)));
        }
        let mut round: usize = 0;
        while round < 4
            invariant
                round <= 4,
                g == Poseidon2Gate,
                builder.wf(),
                grown(n0, builder.nodes@),
                same_rest(rest, *builder),
                wires == local_wires@,
                wires.len() >= 135,
                targets_in(n0, wires),
                r@.len() == (if round <= 1 {
                    5
                } else {
                    5 + 12 * (round - 1)
                }),
                circuit_prefix(g, n0, builder.nodes@, wires, constants, r@),
                state_is(
                    n0,
                    builder.nodes@,
                    wires,
                    state@,
                    |w: Seq<Elt>| first_state(w, round as int),
                ),
            decreases 4 - round,
        {
            let ghost f = |w: Seq<Elt>| first_state(w, round as int);
            let start: Option<usize> = if round == 0 {
                None
            } else {
                Some(Poseidon2Gate::wire_full_sbox_0(round, 0))
            };
            proof {
                assert forall|w: Seq<Elt>, i: int|
                    round != 0 && w.len() >= 135 && 0 <= i < 12 implies #[trigger] add_constants(
                    f(w),
                    round as int,
                )[i] - w[29 + 12 * (round - 1) + i] == poseidon2_constraint(w, r@.len() + i) by {
                    lemma_round_rows(first_state(w, round as int), w, round as int, i);
                }
            }
            state = full_round_circuit(
                builder,
                state,
                local_wires,
                round,
                start,
                &mut r,
                Ghost(n0),
                Ghost(constants),
                Ghost(f),
            );
            proof {
                let next = |w: Seq<Elt>| first_state(w, round + 1);
                assert forall|asg: Assignment| asg.wf() implies #[trigger] target_values(
                    builder.nodes@,
                    asg,
                    state@,
                ) == next(target_values(n0, asg, wires)) by {
                    let w = target_values(n0, asg, wires);
                    if round != 0 {
                        assert(29 + 12 * (round - 1) == 29 + 12 * (round + 1 - 2));
                    }
                }
            }
            round = round + 1;
        }
        round = 0;
        proof {
            assert forall|asg: Assignment| asg.wf() implies #[trigger] target_values(
                builder.nodes@,
                asg,
                state@,
            ) == partial_state(target_values(n0, asg, wires), 0) by {}
            assert(state_is(
                n0,
                builder.nodes@,
                wires,
                state@,
                |w: Seq<Elt>| partial_state(w, 0),
            ));
        }
        while round < 22
            invariant
                round <= 22,
                g == Poseidon2Gate,
                builder.wf(),
                grown(n0, builder.nodes@),
                same_rest(rest, *builder),
                wires == local_wires@,
                wires.len() >= 135,
                targets_in(n0, wires),
                r@.len() == 41 + round,
                circuit_prefix(g, n0, builder.nodes@, wires, constants, r@),
                state_is(
                    n0,
                    builder.nodes@,
                    wires,
                    state@,
                    |w: Seq<Elt>| partial_state(w, round as nat),
                ),
            decreases 22 - round,
        {
            state = partial_round_circuit(
                builder,
                state,
                local_wires,
                round,
                &mut r,
                Ghost(n0),
                Ghost(constants),
            );
            round = round + 1;
        }
        round = 0;
        proof {
            assert forall|asg: Assignment| asg.wf() implies #[trigger] target_values(
                builder.nodes@,
                asg,
                state@,
            ) == last_state(target_values(n0, asg, wires), 0) by {}
            assert(state_is(n0, builder.nodes@, wires, state@, |w: Seq<Elt>| last_state(w, 0)));
        }
        while round < 4
            invariant
                round <= 4,
                g == Poseidon2Gate,
                builder.wf(),
                grown(n0, builder.nodes@),
                same_rest(rest, *builder),
                wires == local_wires@,
                wires.len() >= 135,
                targets_in(n0, wires),
                r@.len() == 63 + 12 * round,
                circuit_prefix(g, n0, builder.nodes@, wires, constants, r@),
                state_is(
                    n0,
                    builder.nodes@,
                    wires,
                    state@,
                    |w: Seq<Elt>| last_state(w, round as int),
                ),
            decreases 4 - round,
        {
            let ghost f = |w: Seq<Elt>| last_state(w, round as int);
            let start: usize = Poseidon2Gate::wire_full_sbox_1(round, 0);
            proof {
                assert forall|w: Seq<Elt>, i: int|
                    w.len() >= 135 && 0 <= i < 12 implies #[trigger] add_constants(
                    f(w),
                    4 + round,
                )[i] - w[start + i] == poseidon2_constraint(w, r@.len() + i) by {
                    lemma_round_rows(last_state(w, round as int), w, round as int, i);
                }
            }
            state = full_round_circuit(
                builder,
                state,
                local_wires,
                ROUNDS_F_HALF + round,
                Some(start),
                &mut r,
                Ghost(n0),
                Ghost(constants),
                Ghost(f),
            );
            proof {
                let next = |w: Seq<Elt>| last_state(w, round + 1);
                assert forall|asg: Assignment| asg.wf() implies #[trigger] target_values(
                    builder.nodes@,
                    asg,
                    state@,
                ) == next(target_values(n0, asg, wires)) by {
                    assert(87 + 12 * round == 87 + 12 * (round + 1 - 1));
                }
            }
            round = round + 1;
        }
        proof {
            let n = builder.nodes@;
            assert forall|i: int, asg: Assignment| 0 <= i < 12 && asg.wf() implies #[trigger] node_value(
                n,
                asg,
                state@[i].index as int,
            ) - target_values(n0, asg, wires)[12 + i] == poseidon2_constraint(
                target_values(n0, asg, wires),
                111 + i,
            ) by {
                let w = target_values(n0, asg, wires);
                assert(target_values(n, asg, state@) == last_state(w, 4));
                assert(target_values(n, asg, state@)[i] == node_value(
                    n,
                    asg,
                    state@[i].index as int,
                ));
            }
        }
        let outputs = replace_state_circuit(
            builder,
            state,
            local_wires,
            Poseidon2Gate::wire_output(0),
            &mut r,
            Ghost(n0),
            Ghost(constants),
        );
        r
    }
}

} // verus!
