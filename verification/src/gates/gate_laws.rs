//! What a row that meets the constraints of a gate says, and that generated rows meet them.

use crate::field::coset::lemma_vals_wf;
use crate::field::dft::all_wf;
use crate::field::goldilocks_field::GoldilocksField;
use crate::field::model::{
    Elt, base, elt0, elt1, group_elt_wf, lemma_reduced_self, lemma_sub_zero_iff,
};
use crate::field::types::{Field, vals};
use crate::gates::batch_laws::lemma_filled_row_value;
use crate::gates::equality_base::{EqualityGate, equality_constraint, lemma_equality_sound};
use crate::gates::gate::Gate;
use crate::gates::poseidon2::{Poseidon2Gate, poseidon2_constraint};
use crate::gates::poseidon2_laws::{lemma_constraints_sound, lemma_generated_row_meets_constraints};
use crate::gates::poseidon2_witness::{
    generated_column, generated_prefix, generated_value, permuted_inputs,
};
use crate::gates::random_access::{RandomAccessGate, RandomAccessGenerator, digit};
use crate::gates::random_access_laws::accesses;
use crate::hash::poseidon2::permutation::permutation;
use crate::iop::target::Target;
use crate::iop::witness::{filled_row, lemma_filled_row_len};
use vstd::arithmetic::power2::{lemma_pow2_pos, pow2};
use vstd::prelude::*;

verus! {

/// A row meets all constraints of an equality gate exactly if, for every operation, the difference
/// wire holds the difference of the two elements, the product wire holds the difference times the
/// inverse wire, the product leaves the difference as it is, and the output is the constant less the
/// product.
pub proof fn lemma_equality_gate_holds(gate: EqualityGate, w: Seq<Elt>, c: Seq<Elt>)
    requires
        gate.wf(),
        all_wf(w),
        all_wf(c),
        w.len() >= gate.wire_count(),
        c.len() >= 1,
    ensures
        gate.wire_count() == 6 * gate.num_ops,
        gate.constant_count() == 1,
        gate.constraint_count() == 4 * gate.num_ops,
        gate.constraints(w, c).len() == 4 * gate.num_ops,
        (forall|k: int| 0 <= k < 4 * gate.num_ops ==> #[trigger] gate.constraints(w, c)[k] == elt0())
            <==> (forall|i: int|
            #![trigger w[3 * i]]
            0 <= i < gate.num_ops ==> {
                let t = 3 * gate.num_ops + 3 * i;
                &&& w[t] == w[3 * i] - w[3 * i + 1]
                &&& w[t + 2] == w[t] * w[t + 1]
                &&& w[t + 2] * w[t] == w[t]
                &&& w[3 * i + 2] == c[0] - w[t + 2]
            }),
{
    let n = gate.num_ops as int;
    assert(gate.wire_count() == 6 * n);
    assert(gate.constant_count() == 1 && gate.constraint_count() == 4 * n);
    assert(gate.constraints(w, c).len() == 4 * n);
    let all = gate.constraints(w, c);
    if forall|k: int| 0 <= k < 4 * n ==> #[trigger] all[k] == elt0() {
        assert forall|i: int| #![trigger w[3 * i]] 0 <= i < n implies {
            let t = 3 * n + 3 * i;
            &&& w[t] == w[3 * i] - w[3 * i + 1]
            &&& w[t + 2] == w[t] * w[t + 1]
            &&& w[t + 2] * w[t] == w[t]
            &&& w[3 * i + 2] == c[0] - w[t + 2]
        } by {
            lemma_equality_zero(w, c, n, i);
            assert(all[4 * i] == elt0());
            assert(all[4 * i + 1] == elt0());
            assert(all[4 * i + 2] == elt0());
            assert(all[4 * i + 3] == elt0());
        }
    }
    if forall|i: int|
        #![trigger w[3 * i]]
        0 <= i < n ==> {
            let t = 3 * n + 3 * i;
            &&& w[t] == w[3 * i] - w[3 * i + 1]
            &&& w[t + 2] == w[t] * w[t + 1]
            &&& w[t + 2] * w[t] == w[t]
            &&& w[3 * i + 2] == c[0] - w[t + 2]
        } {
        assert forall|k: int| 0 <= k < 4 * n implies #[trigger] all[k] == elt0() by {
            let i = k / 4;
            let x = w[3 * i];
            lemma_equality_zero(w, c, n, i);
            assert(k % 4 == 0 || k % 4 == 1 || k % 4 == 2 || k % 4 == 3);
        }
    }
}

proof fn lemma_equality_zero(w: Seq<Elt>, c: Seq<Elt>, n: int, i: int)
    requires
        all_wf(w),
        all_wf(c),
        c.len() >= 1,
        w.len() >= 6 * n,
        0 <= i < n,
    ensures
        ({
            let t = 3 * n + 3 * i;
            &&& equality_constraint(w, c, n, i, 0) == elt0() <==> w[t] == w[3 * i] - w[3 * i + 1]
            &&& equality_constraint(w, c, n, i, 1) == elt0() <==> w[t + 2] == w[t] * w[t + 1]
            &&& equality_constraint(w, c, n, i, 2) == elt0() <==> w[t + 2] * w[t] == w[t]
            &&& equality_constraint(w, c, n, i, 3) == elt0() <==> w[3 * i + 2] == c[0] - w[t + 2]
        }),
{
    broadcast use group_elt_wf;

    let t = 3 * n + 3 * i;
    assert(w[t].wf() && w[t + 1].wf() && w[t + 2].wf() && w[3 * i + 2].wf());
    lemma_sub_zero_iff(w[3 * i] - w[3 * i + 1], w[t]);
    lemma_sub_zero_iff(w[t] * w[t + 1], w[t + 2]);
    lemma_sub_zero_iff(w[t + 2] * w[t], w[t]);
    lemma_sub_zero_iff(c[0] - w[t + 2], w[3 * i + 2]);
}

/// A row that meets all constraints of an equality gate, with the constant one, tells for every
/// operation whether its two elements are equal.
pub proof fn lemma_equality_gate_sound(gate: EqualityGate, w: Seq<Elt>, c: Seq<Elt>, i: int)
    requires
        gate.wf(),
        all_wf(w),
        w.len() >= gate.wire_count(),
        c.len() >= 1,
        c[0] == elt1(),
        forall|k: int|
            0 <= k < gate.constraints(w, c).len() ==> #[trigger] gate.constraints(w, c)[k] == elt0(),
        0 <= i < gate.num_ops,
    ensures
        w[3 * i + 2] == (if w[3 * i] == w[3 * i + 1] {
            elt1()
        } else {
            elt0()
        }),
{
    let n = gate.num_ops as int;
    let all = gate.constraints(w, c);
    assert(gate.wire_count() == 6 * n);
    assert forall|k: int| 0 <= k < 4 implies #[trigger] equality_constraint(w, c, n, i, k)
        == elt0() by {
        assert(all[4 * i + k] == elt0());
        assert((4 * i + k) / 4 == i && (4 * i + k) % 4 == k);
    }
    lemma_equality_sound(w, c, n, i);
}

/// A row meets all constraints of a permutation gate exactly if the swap wire is zero or one, the
/// delta wires hold what a swap changes, and the row is the one that the inputs lead to. Its outputs
/// are then the permutation of its inputs, swapped or not.
pub proof fn lemma_poseidon2_gate_sound(gate: Poseidon2Gate, w: Seq<Elt>, c: Seq<Elt>)
    requires
        all_wf(w),
        w.len() >= gate.wire_count(),
        forall|k: int|
            0 <= k < gate.constraints(w, c).len() ==> #[trigger] gate.constraints(w, c)[k] == elt0(),
    ensures
        gate.wire_count() == 135,
        gate.constant_count() == 0,
        gate.constraint_count() == 123,
        gate.constraints(w, c).len() == 123,
        w[24] == elt0() || w[24] == elt1(),
        w.subrange(12, 24) == permutation(permuted_inputs(w.take(12), w[24])),
{
    let all = gate.constraints(w, c);
    assert(gate.wire_count() == 135);
    assert(gate.constant_count() == 0 && gate.constraint_count() == 123);
    assert(all.len() == 123);
    assert forall|k: int| 0 <= k < 123 implies #[trigger] poseidon2_constraint(w, k) == elt0() by {
        assert(all[k] == elt0());
    }
    lemma_constraints_sound(w);
}

/// The generated values of a permutation make its row meet every constraint.
pub proof fn lemma_poseidon2_generator_row(
    wires: Seq<GoldilocksField>,
    row: usize,
    values: Seq<(Target, GoldilocksField)>,
    k: int,
)
    requires
        wires.len() >= 135,
        wires[24].v() == elt0() || wires[24].v() == elt1(),
        values.len() == 122,
        generated_prefix(
            row,
            Seq::new(12, |i: int| wires[i].v()),
            wires[24].v(),
            0,
            values,
        ),
        0 <= k < 123,
    ensures
        Poseidon2Gate.constraints(vals(filled_row(wires, row, values)), Seq::empty())[k] == elt0(),
{
    let filled = filled_row(wires, row, values);
    let w = vals(filled);
    let inputs = Seq::new(12, |i: int| wires[i].v());
    lemma_filled_row_len(wires, row, values);
    lemma_vals_wf(filled);
    assert forall|c: int| 0 <= c < 12 || c == 24 implies #[trigger] w[c] == wires[c].v() by {
        lemma_filled_row_value(wires, row, values, c as usize);
        assert forall|j: int| 0 <= j < values.len() implies (#[trigger] values[j]).0 != (
        Target::Wire { row, column: c as usize }) by {
            assert(values[j].0 == (Target::Wire { row, column: generated_column(j - 0) as usize }));
        }
        assert(filled[c] == wires[c]);
    }
    assert(w.take(12) =~= inputs);
    assert forall|j: int| 0 <= j < 122 implies w[generated_column(j)] == #[trigger] generated_value(
        w.take(12),
        w[24],
        j,
    ) by {
        let column = generated_column(j) as usize;
        lemma_filled_row_value(wires, row, values, column);
        assert(values[j].0 == (Target::Wire { row, column: generated_column(j - 0) as usize }));
        assert forall|m: int| j < m < values.len() implies (#[trigger] values[m]).0 != (
        Target::Wire { row, column }) by {
            assert(values[m].0 == (Target::Wire { row, column: generated_column(m - 0) as usize }));
        }
        assert(filled[column as int] == values[j].1);
        assert(values[j].1.v() == generated_value(inputs, wires[24].v(), j - 0));
    }
    assert(w[24] == wires[24].v());
    lemma_generated_row_meets_constraints(w, k);
    assert(Poseidon2Gate.constraints(w, Seq::empty())[k] == poseidon2_constraint(w, k));
}

/// Where the wires of a random access gate lie: for each copy the index, the claimed element and the
/// list, then the constants, and then the bits of the index of each copy.
pub proof fn lemma_random_access_layout(gate: RandomAccessGate, copy: int, i: int)
    requires
        gate.wf(),
    ensures
        gate.stride() == 2 + pow2(gate.bits as nat),
        gate.routed() == (2 + pow2(gate.bits as nat)) * gate.num_copies + gate.num_extra_constants,
        gate.bit_wire(i, copy) == (2 + pow2(gate.bits as nat)) * gate.num_copies
            + gate.num_extra_constants + copy * gate.bits + i,
        gate.wire_count() == gate.routed() + gate.num_copies * gate.bits,
        gate.constant_count() == gate.num_extra_constants,
        gate.constraint_count() == gate.num_copies * (gate.bits + 2) + gate.num_extra_constants,
{
    gate.lemma_sizes();
    assert(gate.constraint_count() == gate.copy_constraints() + gate.num_extra_constants);
    assert(gate.wire_count() == gate.routed() + gate.num_copies * gate.bits);
    assert(gate.constant_count() == gate.num_extra_constants);
}

/// The generated values of a random access make its copy access the item that the index says.
pub proof fn lemma_random_access_generator(
    generator: RandomAccessGenerator,
    wires: Seq<GoldilocksField>,
)
    requires
        generator.wf(),
        wires.len() >= generator.gate.wire_count(),
        wires.len() <= usize::MAX,
        wires[generator.gate.stride() * generator.copy].v().re < pow2(generator.gate.bits as nat),
    ensures
        ({
            let place = generator.gate.stride() * generator.copy;
            let index = wires[place].v().re;
            let filled = filled_row(
                wires,
                generator.row,
                generator.values(index as nat, wires[place + 2 + index]),
            );
            accesses(generator.gate, vals(filled), generator.copy as int, index as nat)
        }),
{
    let g = generator.gate;
    let copy = generator.copy as int;
    let place = g.stride() * copy;
    g.lemma_copy(copy);
    g.lemma_sizes();
    assert(g.wire_count() == g.routed() + g.num_copies * g.bits);
    GoldilocksField::lemma_values(wires[place]);
    let index = wires[place].v().re as nat;
    let element = wires[place + 2 + index];
    let values = generator.values(index, element);
    let row = generator.row;
    let filled = filled_row(wires, row, values);
    let w = vals(filled);
    lemma_filled_row_len(wires, row, values);
    assert forall|c: int|
        place <= c < place + g.stride() && c != place + 1 implies #[trigger] filled[c] == wires[c] by {
        lemma_filled_row_value(wires, row, values, c as usize);
        assert forall|j: int| 0 <= j < values.len() implies (#[trigger] values[j]).0 != (
        Target::Wire { row, column: c as usize }) by {
            if j > 0 {
                assert(values[j].0 == (Target::Wire {
                    row,
                    column: g.bit_wire(j - 1, copy) as usize,
                }));
            }
        }
    }
    assert(filled[place + 1] == element) by {
        lemma_filled_row_value(wires, row, values, (place + 1) as usize);
        assert(values[0].0 == (Target::Wire { row, column: (place + 1) as usize }));
        assert forall|j: int| 0 < j < values.len() implies (#[trigger] values[j]).0 != (
        Target::Wire { row, column: (place + 1) as usize }) by {
            assert(values[j].0 == (Target::Wire {
                row,
                column: g.bit_wire(j - 1, copy) as usize,
            }));
        }
    }
    let digits = g.digits(w, copy);
    assert(digits.len() == g.bits);
    assert forall|i: int| 0 <= i < g.bits implies #[trigger] digits[i] == base(
        digit(index, i as nat) as int,
    ) by {
        let column = g.bit_wire(i, copy) as usize;
        lemma_filled_row_value(wires, row, values, column);
        assert(values[i + 1].0 == (Target::Wire { row, column: g.bit_wire(i, copy) as usize }));
        assert forall|j: int| i + 1 < j < values.len() implies (#[trigger] values[j]).0 != (
        Target::Wire { row, column }) by {
            assert(values[j].0 == (Target::Wire {
                row,
                column: g.bit_wire(j - 1, copy) as usize,
            }));
        }
        assert(filled[column as int] == values[i + 1].1);
        assert(digits[i] == w[g.bit_wire(0, copy) + i]);
        let d = digit(index, i as nat);
        assert(d == 0 || d == 1);
        assert(GoldilocksField(0).v() == base(0) && GoldilocksField(1).v() == base(1));
    }
    lemma_reduced_self(wires[place].v());
    assert(filled[place] == wires[place]);
    assert(filled[place + 2 + index] == wires[place + 2 + index] || place + 2 + index == place + 1);
    assert(g.items(w, copy)[index as int] == w[place + 2 + index]);
}

} // verus!
