//! A gate for weighted sums of two wires.

use crate::field::dft::all_wf;
use crate::field::goldilocks_field::GoldilocksField;
use crate::field::model::{Elt, elt0, group_elt_wf, lemma_sub_self, lemma_sub_zero_iff};
use crate::field::types::{Field, vals};
use crate::gates::gate::{
    CircuitConfig, EvaluationVarsBaseBatch, Gate, accumulated, batch_done,
    eval_unfiltered_base_batch, eval_unfiltered_base_batch_accumulate,
};
use crate::gates::value::GateValue;
use crate::hash::poseidon2::layers::at_point;
use crate::hash::poseidon2::permutation::Poseidon2;
use crate::iop::target::Target;
use crate::iop::witness::{GeneratedValues, PartitionWitness};
use vstd::prelude::*;

verus! {

/// A gate specialized for additions.
#[derive(Clone, Copy, Debug)]
pub struct AdditionGate {
    /// Number of addition operations performed by an addition gate.
    pub num_ops: usize,
}

impl AdditionGate {
    /// A gate with as many operations as fit into a row.
    pub fn new_from_config(config: &CircuitConfig) -> (r: Self)
        ensures
            r.num_ops == config.num_routed_wires / 3,
            r.wf(),
    {
        AdditionGate { num_ops: Self::num_ops(config) }
    }

    /// Determine the maximum number of operations that can fit in one gate for the given config.
    pub fn num_ops(config: &CircuitConfig) -> (r: usize)
        ensures
            r == config.num_routed_wires / 3,
    {
        let wires_per_op: usize = 3;
        config.num_routed_wires / wires_per_op
    }

    /// The wire of the first addend of operation `i`.
    pub fn wire_ith_addend_0(i: usize) -> (r: usize)
        requires
            3 * i + 2 <= usize::MAX,
        ensures
            r == 3 * i,
    {
        3 * i
    }

    /// The wire of the second addend of operation `i`.
    pub fn wire_ith_addend_1(i: usize) -> (r: usize)
        requires
            3 * i + 2 <= usize::MAX,
        ensures
            r == 3 * i + 1,
    {
        3 * i + 1
    }

    /// The wire of the output of operation `i`.
    pub fn wire_ith_output(i: usize) -> (r: usize)
        requires
            3 * i + 2 <= usize::MAX,
        ensures
            r == 3 * i + 2,
    {
        3 * i + 2
    }

    /// The degree of the constraints.
    pub fn degree(&self) -> (r: usize)
        ensures
            r == 2,
    {
        2
    }

    /// The generators of a row: one for each operation.
    pub fn generators(&self, row: usize, local_constants: &[GoldilocksField]) -> (r: Vec<
        AdditionBaseGenerator,
    >)
        requires
            local_constants@.len() >= 2,
        ensures
            r@.len() == self.num_ops,
            forall|i: int|
                0 <= i < r@.len() ==> #[trigger] r@[i] == (AdditionBaseGenerator {
                    row,
                    const_0: local_constants@[0],
                    const_1: local_constants@[1],
                    i: i as usize,
                }),
    {
        let mut r: Vec<AdditionBaseGenerator> = Vec::with_capacity(self.num_ops);
        while r.len() < self.num_ops
            invariant
                r@.len() <= self.num_ops,
                local_constants@.len() >= 2,
                forall|i: int|
                    0 <= i < r@.len() ==> #[trigger] r@[i] == (AdditionBaseGenerator {
                        row,
                        const_0: local_constants@[0],
                        const_1: local_constants@[1],
                        i: i as usize,
                    }),
            decreases self.num_ops - r@.len(),
        {
            let i: usize = r.len();
            r.push(
                AdditionBaseGenerator {
                    row,
                    const_0: local_constants[0],
                    const_1: local_constants[1],
                    i,
                },
            );
        }
        r
    }
}

/// The constraint of operation `i`: the output less the weighted sum of the addends.
pub open spec fn addition_constraint(w: Seq<Elt>, c: Seq<Elt>, i: int) -> Elt {
    w[3 * i + 2] - (w[3 * i] * c[0] + w[3 * i + 1] * c[1])
}

impl Gate for AdditionGate {
    open spec fn wf(self) -> bool {
        3 * self.num_ops <= usize::MAX
    }

    open spec fn wire_count(self) -> nat {
        (self.num_ops * 3) as nat
    }

    open spec fn constant_count(self) -> nat {
        2
    }

    open spec fn constraint_count(self) -> nat {
        self.num_ops as nat
    }

    open spec fn constraints(self, wires: Seq<Elt>, constants: Seq<Elt>) -> Seq<Elt> {
        Seq::new(self.num_ops as nat, |i: int| addition_constraint(wires, constants, i))
    }

    proof fn lemma_counts(self, wires: Seq<Elt>, constants: Seq<Elt>) {
        assert(self.constraints(wires, constants).len() == self.num_ops);
        assert(self.constraint_count() == self.num_ops);
        assert(self.constant_count() == 2);
        assert(self.wire_count() == self.num_ops * 3);
        assert(self.wf() == (3 * self.num_ops <= usize::MAX));
    }

    proof fn lemma_prefix(self, wires: Seq<Elt>, constants: Seq<Elt>) {
        assert(self.constant_count() == 2);
        assert(self.wire_count() == self.num_ops * 3);
        assert(self.constraints(wires, constants) =~= self.constraints(
            wires.take(self.wire_count() as int),
            constants.take(self.constant_count() as int),
        ));
    }

    fn num_wires(&self) -> (r: usize)
        ensures
            r == self.wire_count(),
    {
        assert(self.wf() == (3 * self.num_ops <= usize::MAX));
        self.num_ops * 3
    }

    fn num_constants(&self) -> (r: usize)
        ensures
            r == self.constant_count(),
    {
        2
    }

    fn num_constraints(&self) -> (r: usize)
        ensures
            r == self.constraint_count(),
    {
        self.num_ops
    }

    fn eval<T: Poseidon2>(&self, wires: &[T], constants: &[T]) -> (r: Vec<T>) {
        assert(self.wf() == (3 * self.num_ops <= usize::MAX));
        assert(self.wire_count() == self.num_ops * 3);
        assert(self.constant_count() == 2);
        assert(self.constraint_count() == self.num_ops);
        let const_0 = constants[0];
        let const_1 = constants[1];
        let mut r: Vec<T> = Vec::with_capacity(self.num_ops);
        let mut i: usize = 0;
        while i < self.num_ops
            invariant
                i <= self.num_ops,
                r@.len() == i,
                3 * self.num_ops <= usize::MAX,
                wires@.len() >= 3 * self.num_ops,
                constants@.len() >= 2,
                const_0 == constants@[0],
                const_1 == constants@[1],
                forall|k: int, l: int|
                    0 <= k < i && 0 <= l < T::points() ==> #[trigger] r@[k].at(l)
                        == addition_constraint(at_point(wires@, l), at_point(constants@, l), k),
            decreases self.num_ops - i,
        {
            let addend_0 = wires[Self::wire_ith_addend_0(i)];
            let addend_1 = wires[Self::wire_ith_addend_1(i)];
            let output = wires[Self::wire_ith_output(i)];
            let computed_output = addend_0.times(const_0).plus(addend_1.times(const_1));
            r.push(output.minus(computed_output));
            i = i + 1;
        }
        proof {
            assert forall|l: int| 0 <= l < T::points() implies #[trigger] at_point(r@, l)
                == self.constraints(at_point(wires@, l), at_point(constants@, l)) by {
                assert(at_point(r@, l) =~= self.constraints(
                    at_point(wires@, l),
                    at_point(constants@, l),
                ));
            }
        }
        r
    }
}

/// The generator of the output of one operation.
#[derive(Clone, Copy, Debug)]
pub struct AdditionBaseGenerator {
    pub row: usize,
    pub const_0: GoldilocksField,
    pub const_1: GoldilocksField,
    pub i: usize,
}

impl AdditionBaseGenerator {
    /// The targets that have to be known first.
    pub fn dependencies(&self) -> (r: Vec<Target>)
        requires
            3 * self.i + 2 <= usize::MAX,
        ensures
            r@ == seq![
                Target::Wire { row: self.row, column: (3 * self.i) as usize },
                Target::Wire { row: self.row, column: (3 * self.i + 1) as usize },
            ],
    {
        let mut r: Vec<Target> = Vec::new();
        r.push(Target::wire(self.row, AdditionGate::wire_ith_addend_0(self.i)));
        r.push(Target::wire(self.row, AdditionGate::wire_ith_addend_1(self.i)));
        assert(r@ =~= seq![
            Target::Wire { row: self.row, column: (3 * self.i) as usize },
            Target::Wire { row: self.row, column: (3 * self.i + 1) as usize },
        ]);
        r
    }

    /// The output for the given addends.
    pub open spec fn output(self, a: GoldilocksField, b: GoldilocksField) -> GoldilocksField {
        a.s_mul(self.const_0).s_add(b.s_mul(self.const_1))
    }

    /// Computes the output.
    pub fn run_once(&self, witness: &PartitionWitness, out_buffer: &mut GeneratedValues)
        requires
            3 * self.i + 2 <= usize::MAX,
            witness.has(self.row as int, 3 * self.i),
            witness.has(self.row as int, 3 * self.i + 1),
        ensures
            final(out_buffer).target_values@ == old(out_buffer).target_values@.push(
                (
                    Target::Wire { row: self.row, column: (3 * self.i + 2) as usize },
                    self.output(
                        witness.value(self.row as int, 3 * self.i),
                        witness.value(self.row as int, 3 * self.i + 1),
                    ),
                ),
            ),
    {
        let addend_0 = witness.get_wire(self.row, AdditionGate::wire_ith_addend_0(self.i));
        let addend_1 = witness.get_wire(self.row, AdditionGate::wire_ith_addend_1(self.i));
        let output_target = Target::wire(self.row, AdditionGate::wire_ith_output(self.i));
        let computed_output = addend_0.mul(self.const_0).add(addend_1.mul(self.const_1));
        out_buffer.set_target(output_target, computed_output);
    }
}

/// The generated output meets the constraint of its operation.
pub proof fn lemma_addition_generator(
    generator: AdditionBaseGenerator,
    wires: Seq<GoldilocksField>,
    constants: Seq<Elt>,
)
    requires
        3 * generator.i + 2 < wires.len(),
        constants.len() >= 2,
        constants[0] == generator.const_0.v(),
        constants[1] == generator.const_1.v(),
    ensures
        ({
            let i = generator.i as int;
            let row = wires.update(3 * i + 2, generator.output(wires[3 * i], wires[3 * i + 1]));
            addition_constraint(vals(row), constants, i) == elt0()
        }),
{
    let i = generator.i as int;
    let (a, b) = (wires[3 * i], wires[3 * i + 1]);
    let row = wires.update(3 * i + 2, generator.output(a, b));
    GoldilocksField::lemma_ops(a, generator.const_0);
    GoldilocksField::lemma_ops(b, generator.const_1);
    GoldilocksField::lemma_ops(a.s_mul(generator.const_0), b.s_mul(generator.const_1));
    lemma_sub_self(generator.output(a, b).v());
    assert(vals(row)[3 * i] == a.v());
    assert(vals(row)[3 * i + 1] == b.v());
}

impl AdditionGate {
    /// The constraints at all points of a batch.
    pub fn eval_unfiltered_base_batch(&self, vars: &EvaluationVarsBaseBatch) -> (r: Vec<
        GoldilocksField,
    >)
        requires
            self.wf(),
            vars.fits(self.wire_count(), self.constant_count()),
            self.constraint_count() * vars.batch_size <= usize::MAX,
        ensures
            r@.len() == self.constraint_count() * vars.batch_size,
            batch_done(
                *self,
                vars.local_wires@,
                vars.local_constants@,
                vars.batch_size as nat,
                r@,
                vars.batch_size as int,
            ),
    {
        eval_unfiltered_base_batch(self, vars)
    }

    /// Adds the constraints at all points of a batch, each multiplied by the filter of its point.
    pub fn eval_unfiltered_base_batch_accumulate(
        &self,
        vars: &EvaluationVarsBaseBatch,
        filters: &[GoldilocksField],
        combined: &mut [GoldilocksField],
    )
        requires
            self.wf(),
            vars.fits(self.wire_count(), self.constant_count()),
            filters@.len() == vars.batch_size,
            self.constraint_count() * vars.batch_size <= old(combined)@.len(),
        ensures
            accumulated(
                *self,
                vars.local_wires@,
                vars.local_constants@,
                vars.batch_size as nat,
                filters@,
                old(combined)@,
                final(combined)@,
                self.constraint_count() as int,
            ),
    {
        eval_unfiltered_base_batch_accumulate(self, vars, filters, combined)
    }
}

/// The constraint of an operation is zero exactly if its output is the sum of its addends, each
/// multiplied by its constant.
pub proof fn lemma_addition_holds(gate: AdditionGate, w: Seq<Elt>, c: Seq<Elt>, i: int)
    requires
        gate.wf(),
        all_wf(w),
        all_wf(c),
        w.len() >= gate.wire_count(),
        c.len() >= 2,
        0 <= i < gate.num_ops,
    ensures
        gate.wire_count() == 3 * gate.num_ops,
        gate.constant_count() == 2,
        gate.constraint_count() == gate.num_ops,
        gate.constraints(w, c).len() == gate.num_ops,
        gate.constraints(w, c)[i] == elt0() <==> w[3 * i + 2] == w[3 * i] * c[0] + w[3 * i + 1]
            * c[1],
{
    broadcast use group_elt_wf;

    assert(gate.wire_count() == gate.num_ops * 3);
    let sum = w[3 * i] * c[0] + w[3 * i + 1] * c[1];
    assert(w[3 * i].wf() && w[3 * i + 1].wf() && w[3 * i + 2].wf());
    assert(c[0].wf() && c[1].wf());
    lemma_sub_zero_iff(w[3 * i + 2], sum);
    assert(gate.constraints(w, c)[i] == addition_constraint(w, c, i));
}

/// The generated output is the sum of the two addends, each multiplied by its constant.
pub proof fn lemma_addition_output(
    generator: AdditionBaseGenerator,
    x: GoldilocksField,
    y: GoldilocksField,
)
    ensures
        generator.output(x, y).v() == x.v() * generator.const_0.v() + y.v() * generator.const_1.v(),
{
    GoldilocksField::lemma_ops(x, generator.const_0);
    GoldilocksField::lemma_ops(y, generator.const_1);
    GoldilocksField::lemma_ops(x.s_mul(generator.const_0), y.s_mul(generator.const_1));
}

} // verus!
