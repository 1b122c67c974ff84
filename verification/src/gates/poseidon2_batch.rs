//! The Poseidon2 gate over a batch of points, accumulated row by row.

use crate::field::batch_util::batch_multiply_add_at;
use crate::field::goldilocks_field::GoldilocksField;
use crate::field::model::{Elt, elt1};
use crate::field::types::{Field, vals};
use crate::gates::gate::{
    EvaluationVarsBaseBatch, Gate, accumulated, batch_done, batch_point, lemma_accumulate_row,
    lemma_base_point, lemma_flat_index,
};
use crate::gates::poseidon2::{
    Poseidon2Gate, START_PARTIAL, WIRE_SWAP, first_state, last_state, partial_state,
    poseidon2_constraint, swapped_inputs, twelve,
};
use crate::gates::value::GateValue;
use crate::hash::poseidon2::config::{INTERNAL_CONSTANTS, ROUNDS_F_HALF, WIDTH};
use crate::hash::poseidon2::layers::{
    add_constants, at_point, external_layer, internal_layer, layer_done, sbox, sbox_layer,
};
use crate::hash::poseidon2::permutation::Poseidon2;
use vstd::prelude::*;

verus! {

/// The wires of a row at point `p` of a batch.
pub open spec fn point_wires(wires: Seq<GoldilocksField>, n: nat, p: int) -> Seq<Elt> {
    batch_point(wires, n, 135, p)
}

spec fn rows_added(
    wires: Seq<GoldilocksField>,
    constants: Seq<GoldilocksField>,
    n: nat,
    filters: Seq<GoldilocksField>,
    before: Seq<GoldilocksField>,
    after: Seq<GoldilocksField>,
    rows: int,
) -> bool {
    accumulated(Poseidon2Gate, wires, constants, n, filters, before, after, rows)
}

/// Adds the filtered values of constraint `row`.
fn emit(
    wires: &[GoldilocksField],
    constants: &[GoldilocksField],
    n: usize,
    scratch: &Vec<GoldilocksField>,
    filters: &[GoldilocksField],
    combined: &mut [GoldilocksField],
    row: usize,
    Ghost(before): Ghost<Seq<GoldilocksField>>,
)
    requires
        row < 123,
        scratch@.len() == n == filters@.len(),
        123 * n <= old(combined)@.len() == before.len(),
        rows_added(
            wires@,
            constants@,
            n as nat,
            filters@,
            before,
            old(combined)@,
            row as int,
        ),
        forall|p: int|
            0 <= p < n ==> (#[trigger] scratch@[p]).v() == poseidon2_constraint(
                point_wires(wires@, n as nat, p),
                row as int,
            ),
    ensures
        final(combined)@.len() == old(combined)@.len(),
        rows_added(
            wires@,
            constants@,
            n as nat,
            filters@,
            before,
            final(combined)@,
            row + 1,
        ),
{
    let size: usize = combined.len();
    let ghost mid = combined@;
    assert(row * n + n <= 123 * n) by (nonlinear_arith)
        requires
            row + 1 <= 123,
            0 <= n,
    ;
    batch_multiply_add_at(combined, row * n, scratch.as_slice(), filters);
    proof {
        let gate = Poseidon2Gate;
        assert forall|p: int| 0 <= p < n implies (#[trigger] scratch@[p]).v() == gate.constraints(
            batch_point(wires@, n as nat, gate.wire_count(), p),
            batch_point(constants@, n as nat, gate.constant_count(), p),
        )[row as int] by {
            assert(gate.wire_count() == 135);
        }
        lemma_accumulate_row(
            gate,
            wires@,
            constants@,
            n as nat,
            filters@,
            before,
            mid,
            combined@,
            scratch@,
            row as int,
        );
    }
}

/// The value of wire `w` at point `p`.
fn wire_at(wires: &[GoldilocksField], n: usize, w: usize, p: usize) -> (r: GoldilocksField)
    requires
        wires@.len() >= 135 * n,
        w < 135,
        p < n,
    ensures
        r.v() == point_wires(wires@, n as nat, p as int)[w as int],
{
    let size: usize = wires.len();
    proof {
        lemma_flat_index(w as int, p as int, n as int, 135);
    }
    wires[w * n + p]
}

/// Constrains twelve wires to the states at all points, and continues with the wires.
fn replace_states(
    states: &mut Vec<[GoldilocksField; 12]>,
    wires: &[GoldilocksField],
    constants: &[GoldilocksField],
    n: usize,
    start: usize,
    filters: &[GoldilocksField],
    combined: &mut [GoldilocksField],
    row: usize,
    Ghost(before): Ghost<Seq<GoldilocksField>>,
)
    requires
        wires@.len() >= 135 * n,
        start + 12 <= 135,
        row + 12 <= 123,
        old(states)@.len() == n == filters@.len(),
        123 * n <= old(combined)@.len() == before.len(),
        rows_added(
            wires@,
            constants@,
            n as nat,
            filters@,
            before,
            old(combined)@,
            row as int,
        ),
        forall|p: int, i: int|
            0 <= p < n && 0 <= i < 12 ==> (#[trigger] old(states)@[p]@[i]).v() - point_wires(
                wires@,
                n as nat,
                p,
            )[start + i] == poseidon2_constraint(point_wires(wires@, n as nat, p), row + i),
    ensures
        final(states)@.len() == n,
        final(combined)@.len() == old(combined)@.len(),
        rows_added(
            wires@,
            constants@,
            n as nat,
            filters@,
            before,
            final(combined)@,
            row + 12,
        ),
        forall|p: int|
            0 <= p < n ==> vals((#[trigger] final(states)@[p])@) == twelve(
                point_wires(wires@, n as nat, p),
                start as int,
            ),
{
    let ghost states0 = states@;
    let mut i: usize = 0;
    while i < 12
        invariant
            i <= 12,
            wires@.len() >= 135 * n,
            start + 12 <= 135,
            row + 12 <= 123,
            states@.len() == n == filters@.len() == states0.len(),
            123 * n <= combined@.len() == before.len(),
            rows_added(wires@, constants@, n as nat, filters@, before, combined@, row + i),
            forall|p: int, j: int|
                0 <= p < n && 0 <= j < 12 ==> (#[trigger] states0[p]@[j]).v() - point_wires(
                    wires@,
                    n as nat,
                    p,
                )[start + j] == poseidon2_constraint(point_wires(wires@, n as nat, p), row + j),
            forall|p: int, j: int|
                0 <= p < n && i <= j < 12 ==> #[trigger] states@[p]@[j] == states0[p]@[j],
            forall|p: int, j: int|
                0 <= p < n && 0 <= j < i ==> (#[trigger] states@[p]@[j]).v() == point_wires(
                    wires@,
                    n as nat,
                    p,
                )[start + j],
        decreases 12 - i,
    {
        let mut scratch: Vec<GoldilocksField> = Vec::with_capacity(n);
        let ghost states1 = states@;
        while scratch.len() < n
            invariant
                i < 12,
                scratch@.len() <= n,
                wires@.len() >= 135 * n,
                start + 12 <= 135,
                states@.len() == n == states1.len(),
                forall|p: int| scratch@.len() <= p < n ==> #[trigger] states@[p] == states1[p],
                forall|p: int, j: int|
                    0 <= p < scratch@.len() && 0 <= j < 12 && j != i ==> #[trigger] states@[p]@[j]
                        == states1[p]@[j],
                forall|p: int|
                    0 <= p < scratch@.len() ==> (#[trigger] states@[p])@[i as int].v()
                        == point_wires(wires@, n as nat, p)[start + i],
                forall|p: int|
                    0 <= p < scratch@.len() ==> (#[trigger] scratch@[p]).v()
                        == states1[p]@[i as int].v() - point_wires(wires@, n as nat, p)[start + i],
            decreases n - scratch@.len(),
        {
            let p: usize = scratch.len();
            let sbox_in = wire_at(wires, n, start + i, p);
            let mut state = states[p];
            proof {
                GoldilocksField::lemma_ops(state@[i as int], sbox_in);
            }
            scratch.push(state[i].sub(sbox_in));
            state[i] = sbox_in;
            states[p] = state;
        }
        proof {
            assert forall|p: int| 0 <= p < n implies (#[trigger] scratch@[p]).v()
                == poseidon2_constraint(point_wires(wires@, n as nat, p), row + i) by {
                assert(states1[p]@[i as int] == states0[p]@[i as int]);
            }
        }
        emit(wires, constants, n, &scratch, filters, combined, row + i, Ghost(before));
        proof {
            assert forall|p: int, j: int|
                0 <= p < n && i + 1 <= j < 12 implies #[trigger] states@[p]@[j] == states0[p]@[j] by {
                assert(states1[p]@[j] == states0[p]@[j]);
            }
            assert forall|p: int, j: int|
                0 <= p < n && 0 <= j < i + 1 implies (#[trigger] states@[p]@[j]).v() == point_wires(
                wires@,
                n as nat,
                p,
            )[start + j] by {
                if j < i {
                    assert(states@[p]@[j] == states1[p]@[j]);
                } else {
                    assert(states@[p]@[i as int].v() == point_wires(wires@, n as nat, p)[start + i]);
                }
            }
        }
        i = i + 1;
    }
    proof {
        assert forall|p: int| 0 <= p < n implies vals((#[trigger] states@[p])@) == twelve(
            point_wires(wires@, n as nat, p),
            start as int,
        ) by {
            let w = point_wires(wires@, n as nat, p);
            assert forall|j: int| 0 <= j < 12 implies vals(states@[p]@)[j] == #[trigger] twelve(
                w,
                start as int,
            )[j] by {
                assert(states@[p]@[j].v() == w[start + j]);
            }
            assert(vals(states@[p]@) =~= twelve(w, start as int));
        }
    }
}

/// Every state after a layer.
spec fn all_mapped(
    before: Seq<[GoldilocksField; 12]>,
    after: Seq<[GoldilocksField; 12]>,
    layer: spec_fn(Seq<Elt>) -> Seq<Elt>,
) -> bool {
    &&& after.len() == before.len()
    &&& forall|p: int|
        0 <= p < before.len() ==> vals((#[trigger] after[p])@) == layer(vals(before[p]@))
}

/// A layer on one state of the base field.
pub proof fn lemma_single_point(
    before: [GoldilocksField; 12],
    after: [GoldilocksField; 12],
    layer: spec_fn(Seq<Elt>) -> Seq<Elt>,
)
    requires
        layer_done(before@, after@, layer),
    ensures
        vals(after@) == layer(vals(before@)),
{
    assert(GoldilocksField::points() == 1);
    lemma_base_point(before@);
    lemma_base_point(after@);
    assert(at_point(after@, 0) == layer(at_point(before@, 0)));
}

/// Adds the constants of an external round to every state.
fn add_rc_all(states: &mut Vec<[GoldilocksField; 12]>, round: usize)
    requires
        round < 8,
    ensures
        all_mapped(
            old(states)@,
            final(states)@,
            |s: Seq<Elt>| add_constants(s, round as int),
        ),
{
    let ghost states0 = states@;
    let mut p: usize = 0;
    while p < states.len()
        invariant
            p <= states@.len() == states0.len(),
            round < 8,
            forall|k: int|
                0 <= k < p ==> vals((#[trigger] states@[k])@) == add_constants(
                    vals(states0[k]@),
                    round as int,
                ),
            forall|k: int| p <= k < states0.len() ==> #[trigger] states@[k] == states0[k],
        decreases states0.len() - p,
    {
        let mut state = states[p];
        let ghost before = state;
        GoldilocksField::add_rc(&mut state, round);
        proof {
            lemma_single_point(before, state, |s: Seq<Elt>| add_constants(s, round as int));
        }
        states[p] = state;
        p = p + 1;
    }
}

/// Applies the external linear layer to every state.
fn external_all(states: &mut Vec<[GoldilocksField; 12]>)
    ensures
        all_mapped(old(states)@, final(states)@, |s: Seq<Elt>| external_layer(s)),
{
    let ghost states0 = states@;
    let mut p: usize = 0;
    while p < states.len()
        invariant
            p <= states@.len() == states0.len(),
            forall|k: int|
                0 <= k < p ==> vals((#[trigger] states@[k])@) == external_layer(vals(states0[k]@)),
            forall|k: int| p <= k < states0.len() ==> #[trigger] states@[k] == states0[k],
        decreases states0.len() - p,
    {
        let mut state = states[p];
        let ghost before = state;
        GoldilocksField::external_linear_layer(&mut state);
        proof {
            lemma_single_point(before, state, |s: Seq<Elt>| external_layer(s));
        }
        states[p] = state;
        p = p + 1;
    }
}

/// Applies the substitutions and the external linear layer to every state.
fn substitute_all(states: &mut Vec<[GoldilocksField; 12]>)
    ensures
        all_mapped(
            old(states)@,
            final(states)@,
            |s: Seq<Elt>| external_layer(sbox_layer(s)),
        ),
{
    let ghost states0 = states@;
    let mut p: usize = 0;
    while p < states.len()
        invariant
            p <= states@.len() == states0.len(),
            forall|k: int|
                0 <= k < p ==> vals((#[trigger] states@[k])@) == external_layer(
                    sbox_layer(vals(states0[k]@)),
                ),
            forall|k: int| p <= k < states0.len() ==> #[trigger] states@[k] == states0[k],
        decreases states0.len() - p,
    {
        let mut state = states[p];
        let ghost before = state;
        <GoldilocksField as Poseidon2>::sbox(&mut state);
        let ghost mid = state;
        GoldilocksField::external_linear_layer(&mut state);
        proof {
            lemma_single_point(before, mid, |s: Seq<Elt>| sbox_layer(s));
            lemma_single_point(mid, state, |s: Seq<Elt>| external_layer(s));
        }
        states[p] = state;
        p = p + 1;
    }
}

/// Performs a partial round on every state: constrains the wire to the first element, and
/// continues with the wire.
fn partial_all(
    states: &mut Vec<[GoldilocksField; 12]>,
    wires: &[GoldilocksField],
    constants: &[GoldilocksField],
    n: usize,
    round: usize,
    filters: &[GoldilocksField],
    combined: &mut [GoldilocksField],
    Ghost(before): Ghost<Seq<GoldilocksField>>,
)
    requires
        wires@.len() >= 135 * n,
        round < 22,
        old(states)@.len() == n == filters@.len(),
        123 * n <= old(combined)@.len() == before.len(),
        rows_added(
            wires@,
            constants@,
            n as nat,
            filters@,
            before,
            old(combined)@,
            41 + round,
        ),
        forall|p: int|
            0 <= p < n ==> vals((#[trigger] old(states)@[p])@) == partial_state(
                point_wires(wires@, n as nat, p),
                round as nat,
            ),
    ensures
        final(states)@.len() == n,
        final(combined)@.len() == old(combined)@.len(),
        rows_added(
            wires@,
            constants@,
            n as nat,
            filters@,
            before,
            final(combined)@,
            42 + round,
        ),
        forall|p: int|
            0 <= p < n ==> vals((#[trigger] final(states)@[p])@) == partial_state(
                point_wires(wires@, n as nat, p),
                (round + 1) as nat,
            ),
{
    let ghost states0 = states@;
    let rc = GoldilocksField(INTERNAL_CONSTANTS[round]);
    let mut scratch: Vec<GoldilocksField> = Vec::with_capacity(n);
    while scratch.len() < n
        invariant
            round < 22,
            scratch@.len() <= n,
            wires@.len() >= 135 * n,
            rc.0 == INTERNAL_CONSTANTS[round as int],
            states@.len() == n == states0.len(),
            forall|p: int|
                0 <= p < n ==> vals((#[trigger] states0[p])@) == partial_state(
                    point_wires(wires@, n as nat, p),
                    round as nat,
                ),
            forall|p: int| scratch@.len() <= p < n ==> #[trigger] states@[p] == states0[p],
            forall|p: int|
                0 <= p < scratch@.len() ==> vals((#[trigger] states@[p])@) == partial_state(
                    point_wires(wires@, n as nat, p),
                    (round + 1) as nat,
                ),
            forall|p: int|
                0 <= p < scratch@.len() ==> (#[trigger] scratch@[p]).v() == poseidon2_constraint(
                    point_wires(wires@, n as nat, p),
                    41 + round,
                ),
        decreases n - scratch@.len(),
    {
        let p: usize = scratch.len();
        let ghost w = point_wires(wires@, n as nat, p as int);
        let sbox_in = wire_at(wires, n, START_PARTIAL + round, p);
        let mut state = states[p];
        let ghost s0 = state;
        proof {
            assert(vals(s0@) == partial_state(w, round as nat));
            assert(vals(s0@)[0] == s0@[0].v());
            GoldilocksField::lemma_ops(s0@[0], rc);
            GoldilocksField::lemma_ops(s0@[0].s_add(rc), sbox_in);
        }
        scratch.push(state[0].add(rc).sub(sbox_in));
        let substituted = GoldilocksField::sbox_p(sbox_in);
        state[0] = substituted;
        let ghost s1 = state;
        GoldilocksField::internal_linear_layer(&mut state);
        proof {
            assert(GoldilocksField::points() == 1);
            assert(substituted.at(0) == sbox(sbox_in.at(0)));
            assert(vals(s1@) =~= vals(s0@).update(0, sbox(w[65 + round])));
            lemma_single_point(s1, state, |s: Seq<Elt>| internal_layer(s));
        }
        states[p] = state;
    }
    emit(wires, constants, n, &scratch, filters, combined, 41 + round, Ghost(before));
}

impl Poseidon2Gate {
    /// The constraints at all points of a batch, constraint after constraint.
    pub fn eval_unfiltered_base_batch(&self, vars: &EvaluationVarsBaseBatch) -> (r: Vec<
        GoldilocksField,
    >)
        requires
            vars.fits(135, 0),
            123 * vars.batch_size <= usize::MAX,
        ensures
            r@.len() == 123 * vars.batch_size,
            batch_done(
                *self,
                vars.local_wires@,
                vars.local_constants@,
                vars.batch_size as nat,
                r@,
                vars.batch_size as int,
            ),
    {
        assert(self.wf() && self.wire_count() == 135 && self.constant_count() == 0
            && self.constraint_count() == 123);
        crate::gates::gate::eval_unfiltered_base_batch(self, vars)
    }

    /// Multiplies the constraints at each point of a batch by the filter of the point, and adds
    /// them to the accumulated constraints, without an intermediate matrix.
    pub fn eval_unfiltered_base_batch_accumulate(
        &self,
        vars: &EvaluationVarsBaseBatch,
        filters: &[GoldilocksField],
        combined: &mut [GoldilocksField],
    )
        requires
            vars.fits(135, 0),
            filters@.len() == vars.batch_size,
            123 * vars.batch_size <= old(combined)@.len(),
        ensures
            accumulated(
                *self,
                vars.local_wires@,
                vars.local_constants@,
                vars.batch_size as nat,
                filters@,
                old(combined)@,
                final(combined)@,
                123,
            ),
    {
        let n: usize = vars.batch_size;
        let wires = vars.local_wires;
        let constants = vars.local_constants;
        let size: usize = combined.len();
        let ghost before = combined@;
        // The swap flag is zero or one.
        let mut scratch: Vec<GoldilocksField> = Vec::with_capacity(n);
        while scratch.len() < n
            invariant
                scratch@.len() <= n,
                wires@.len() >= 135 * n,
                forall|p: int|
                    0 <= p < scratch@.len() ==> (#[trigger] scratch@[p]).v()
                        == poseidon2_constraint(point_wires(wires@, n as nat, p), 0),
            decreases n - scratch@.len(),
        {
            let p: usize = scratch.len();
            let swap = wire_at(wires, n, WIRE_SWAP, p);
            let one = GoldilocksField(1);
            proof {
                GoldilocksField::lemma_ops(swap, one);
                GoldilocksField::lemma_ops(swap, swap.s_sub(one));
                assert(one.v() == elt1());
            }
            scratch.push(swap.mul(swap.sub(one)));
        }
        proof {
            assert(0 * n == 0);
            assert(rows_added(wires@, constants@, n as nat, filters@, before, combined@, 0));
        }
        emit(wires, constants, n, &scratch, filters, combined, 0, Ghost(before));
        // Each delta wire is the swap flag times the difference of the inputs.
        let mut i: usize = 0;
        while i < 4
            invariant
                i <= 4,
                wires@.len() >= 135 * n,
                n == filters@.len(),
                size == combined@.len() == before.len(),
                123 * n <= size,
                rows_added(wires@, constants@, n as nat, filters@, before, combined@, 1 + i),
            decreases 4 - i,
        {
            let mut scratch: Vec<GoldilocksField> = Vec::with_capacity(n);
            while scratch.len() < n
                invariant
                    i < 4,
                    scratch@.len() <= n,
                    wires@.len() >= 135 * n,
                    forall|p: int|
                        0 <= p < scratch@.len() ==> (#[trigger] scratch@[p]).v()
                            == poseidon2_constraint(point_wires(wires@, n as nat, p), 1 + i),
                decreases n - scratch@.len(),
            {
                let p: usize = scratch.len();
                let swap = wire_at(wires, n, WIRE_SWAP, p);
                let input_lhs = wire_at(wires, n, Self::wire_input(i), p);
                let input_rhs = wire_at(wires, n, Self::wire_input(i + 4), p);
                let delta_i = wire_at(wires, n, Self::wire_delta(i), p);
                proof {
                    let d = input_rhs.s_sub(input_lhs);
                    GoldilocksField::lemma_ops(input_rhs, input_lhs);
                    GoldilocksField::lemma_ops(swap, d);
                    GoldilocksField::lemma_ops(swap.s_mul(d), delta_i);
                }
                scratch.push(swap.mul(input_rhs.sub(input_lhs)).sub(delta_i));
            }
            emit(wires, constants, n, &scratch, filters, combined, 1 + i, Ghost(before));
            i = i + 1;
        }
        // The possibly swapped inputs.
        let mut states: Vec<[GoldilocksField; 12]> = Vec::with_capacity(n);
        while states.len() < n
            invariant
                states@.len() <= n,
                wires@.len() >= 135 * n,
                forall|p: int|
                    0 <= p < states@.len() ==> vals((#[trigger] states@[p])@) == swapped_inputs(
                        point_wires(wires@, n as nat, p),
                    ),
            decreases n - states@.len(),
        {
            let p: usize = states.len();
            let state = swapped_at(wires, n, p);
            states.push(state);
        }
        external_all(&mut states);
        let mut round: usize = 0;
        while round < 4
            invariant
                round <= 4,
                wires@.len() >= 135 * n,
                states@.len() == n == filters@.len(),
                size == combined@.len() == before.len(),
                123 * n <= size,
                rows_added(
                    wires@,
                    constants@,
                    n as nat,
                    filters@,
                    before,
                    combined@,
                    if round <= 1 {
                        5
                    } else {
                        5 + 12 * (round - 1)
                    },
                ),
                forall|p: int|
                    0 <= p < n ==> vals((#[trigger] states@[p])@) == first_state(
                        point_wires(wires@, n as nat, p),
                        round as int,
                    ),
            decreases 4 - round,
        {
            let ghost s0 = states@;
            add_rc_all(&mut states, round);
            let ghost s1 = states@;
            if round != 0 {
                let start: usize = Self::wire_full_sbox_0(round, 0);
                let row: usize = 5 + 12 * (round - 1);
                proof {
                    assert forall|p: int, i: int|
                        0 <= p < n && 0 <= i < 12 implies (#[trigger] s1[p]@[i]).v() - point_wires(
                        wires@,
                        n as nat,
                        p,
                    )[start + i] == poseidon2_constraint(
                        point_wires(wires@, n as nat, p),
                        row + i,
                    ) by {
                        assert(vals(s1[p]@) == add_constants(vals(s0[p]@), round as int));
                        assert(vals(s1[p]@)[i] == s1[p]@[i].v());
                        lemma_round_rows(
                            vals(s0[p]@),
                            point_wires(wires@, n as nat, p),
                            round as int,
                            i,
                        );
                    }
                }
                replace_states(
                    &mut states,
                    wires,
                    constants,
                    n,
                    start,
                    filters,
                    combined,
                    row,
                    Ghost(before),
                );
            }
            let ghost s2 = states@;
            substitute_all(&mut states);
            proof {
                assert forall|p: int| 0 <= p < n implies vals((#[trigger] states@[p])@)
                    == first_state(point_wires(wires@, n as nat, p), round + 1) by {
                    assert(vals(states@[p]@) == external_layer(sbox_layer(vals(s2[p]@))));
                    assert(vals(s1[p]@) == add_constants(vals(s0[p]@), round as int));
                    if round != 0 {
                        assert(vals(s2[p]@) == twelve(
                            point_wires(wires@, n as nat, p),
                            29 + 12 * (round - 1),
                        ));
                    }
                }
            }
            round = round + 1;
        }
        round = 0;
        while round < 22
            invariant
                round <= 22,
                wires@.len() >= 135 * n,
                states@.len() == n == filters@.len(),
                size == combined@.len() == before.len(),
                123 * n <= size,
                rows_added(wires@, constants@, n as nat, filters@, before, combined@, 41 + round),
                forall|p: int|
                    0 <= p < n ==> vals((#[trigger] states@[p])@) == partial_state(
                        point_wires(wires@, n as nat, p),
                        round as nat,
                    ),
            decreases 22 - round,
        {
            partial_all(
                &mut states,
                wires,
                constants,
                n,
                round,
                filters,
                combined,
                Ghost(before),
            );
            round = round + 1;
        }
        round = 0;
        while round < 4
            invariant
                round <= 4,
                wires@.len() >= 135 * n,
                states@.len() == n == filters@.len(),
                size == combined@.len() == before.len(),
                123 * n <= size,
                rows_added(
                    wires@,
                    constants@,
                    n as nat,
                    filters@,
                    before,
                    combined@,
                    63 + 12 * round,
                ),
                forall|p: int|
                    0 <= p < n ==> vals((#[trigger] states@[p])@) == last_state(
                        point_wires(wires@, n as nat, p),
                        round as int,
                    ),
            decreases 4 - round,
        {
            let ghost s0 = states@;
            add_rc_all(&mut states, ROUNDS_F_HALF + round);
            let ghost s1 = states@;
            let start: usize = Self::wire_full_sbox_1(round, 0);
            let row: usize = 63 + 12 * round;
            proof {
                assert forall|p: int, i: int|
                    0 <= p < n && 0 <= i < 12 implies (#[trigger] s1[p]@[i]).v() - point_wires(
                    wires@,
                    n as nat,
                    p,
                )[start + i] == poseidon2_constraint(point_wires(wires@, n as nat, p), row + i) by {
                    assert(vals(s1[p]@) == add_constants(vals(s0[p]@), 4 + round));
                    assert(vals(s1[p]@)[i] == s1[p]@[i].v());
                    lemma_round_rows(
                        vals(s0[p]@),
                        point_wires(wires@, n as nat, p),
                        round as int,
                        i,
                    );
                }
            }
            replace_states(
                &mut states,
                wires,
                constants,
                n,
                start,
                filters,
                combined,
                row,
                Ghost(before),
            );
            let ghost s2 = states@;
            substitute_all(&mut states);
            proof {
                assert forall|p: int| 0 <= p < n implies vals((#[trigger] states@[p])@)
                    == last_state(point_wires(wires@, n as nat, p), round + 1) by {
                    assert(vals(states@[p]@) == external_layer(sbox_layer(vals(s2[p]@))));
                    assert(vals(s2[p]@) == twelve(
                        point_wires(wires@, n as nat, p),
                        87 + 12 * round,
                    ));
                }
            }
            round = round + 1;
        }
        let ghost s1 = states@;
        proof {
            assert forall|p: int, i: int|
                0 <= p < n && 0 <= i < 12 implies (#[trigger] s1[p]@[i]).v() - point_wires(
                wires@,
                n as nat,
                p,
            )[12 + i] == poseidon2_constraint(point_wires(wires@, n as nat, p), 111 + i) by {
                let w = point_wires(wires@, n as nat, p);
                assert(vals(s1[p]@) == last_state(w, 4));
                assert(vals(s1[p]@)[i] == s1[p]@[i].v());
            }
        }
        replace_states(
            &mut states,
            wires,
            constants,
            n,
            WIDTH,
            filters,
            combined,
            111,
            Ghost(before),
        );
    }
}

/// The inputs at point `p` after the swap that the delta wires describe.
fn swapped_at(wires: &[GoldilocksField], n: usize, p: usize) -> (r: [GoldilocksField; 12])
    requires
        wires@.len() >= 135 * n,
        p < n,
    ensures
        vals(r@) == swapped_inputs(point_wires(wires@, n as nat, p as int)),
{
    let ghost w = point_wires(wires@, n as nat, p as int);
    let d0 = wire_at(wires, n, Poseidon2Gate::wire_delta(0), p);
    let d1 = wire_at(wires, n, Poseidon2Gate::wire_delta(1), p);
    let d2 = wire_at(wires, n, Poseidon2Gate::wire_delta(2), p);
    let d3 = wire_at(wires, n, Poseidon2Gate::wire_delta(3), p);
    let r = [
        wire_at(wires, n, Poseidon2Gate::wire_input(0), p).plus(d0),
        wire_at(wires, n, Poseidon2Gate::wire_input(1), p).plus(d1),
        wire_at(wires, n, Poseidon2Gate::wire_input(2), p).plus(d2),
        wire_at(wires, n, Poseidon2Gate::wire_input(3), p).plus(d3),
        wire_at(wires, n, Poseidon2Gate::wire_input(4), p).minus(d0),
        wire_at(wires, n, Poseidon2Gate::wire_input(5), p).minus(d1),
        wire_at(wires, n, Poseidon2Gate::wire_input(6), p).minus(d2),
        wire_at(wires, n, Poseidon2Gate::wire_input(7), p).minus(d3),
        wire_at(wires, n, Poseidon2Gate::wire_input(8), p),
        wire_at(wires, n, Poseidon2Gate::wire_input(9), p),
        wire_at(wires, n, Poseidon2Gate::wire_input(10), p),
        wire_at(wires, n, Poseidon2Gate::wire_input(11), p),
    ];
    proof {
        assert(vals(r@) =~= swapped_inputs(w));
    }
    r
}

/// The rows that constrain the inputs of a round to the state.
pub proof fn lemma_round_rows(s: Seq<Elt>, w: Seq<Elt>, round: int, i: int)
    requires
        0 <= i < 12,
    ensures
        1 <= round < 4 && s == first_state(w, round) ==> add_constants(s, round)[i] - w[29 + 12 * (
        round - 1) + i] == poseidon2_constraint(w, 5 + 12 * (round - 1) + i),
        0 <= round < 4 && s == last_state(w, round) ==> add_constants(s, 4 + round)[i] - w[87 + 12
            * round + i] == poseidon2_constraint(w, 63 + 12 * round + i),
{
    let k = 12 * (round - 1) + i;
    assert(k / 12 == round - 1 && k % 12 == i);
    let j = 12 * round + i;
    assert(j / 12 == round && j % 12 == i);
}

} // verus!
