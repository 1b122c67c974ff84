//! A gate that tells whether two wires are equal.

use crate::field::fermat::{lemma_extension_inverse_exists, lemma_no_zero_divisors};
use crate::field::goldilocks_field::GoldilocksField;
use crate::field::model::{
    Elt, elt0, elt1, group_elt_wf, lemma_add_zero, lemma_mul_comm, lemma_mul_dist,
    lemma_mul_one_zero, lemma_sub_self, lemma_sub_zero_iff,
};
use crate::field::types::{Field, vals};
use crate::gates::gate::{
    CircuitConfig, EvaluationVarsBaseBatch, Gate, batch_done, eval_unfiltered_base_batch,
};
use crate::gates::value::GateValue;
use crate::hash::poseidon2::layers::at_point;
use crate::hash::poseidon2::permutation::Poseidon2;
use crate::iop::target::Target;
use crate::iop::witness::{GeneratedValues, PartitionWitness, filled_row, lemma_filled_row_push};
use vstd::prelude::*;

verus! {

/// A gate specialized for equality checks.
#[derive(Clone, Copy, Debug)]
pub struct EqualityGate {
    /// Number of operations performed by an equality gate.
    pub num_ops: usize,
}

/// The number of routed wires of an operation.
pub const ROUTED_PER_OP: usize = 3;

/// The number of other wires of an operation.
pub const NOT_ROUTED_PER_OP: usize = 3;

/// The number of wires of an operation.
pub const TOTAL_PER_OP: usize = 6;

impl EqualityGate {
    /// A gate with as many operations as fit into a row.
    pub fn new_from_config(config: &CircuitConfig) -> (r: Self)
        ensures
            r.num_ops == (if config.num_routed_wires / 3 < config.num_wires / 6 {
                config.num_routed_wires / 3
            } else {
                config.num_wires / 6
            }),
            r.wf(),
    {
        EqualityGate { num_ops: Self::num_ops(config) }
    }

    /// Determine the maximum number of operations that can fit in one gate for the given config.
    pub fn num_ops(config: &CircuitConfig) -> (r: usize)
        ensures
            r == (if config.num_routed_wires / 3 < config.num_wires / 6 {
                config.num_routed_wires / 3
            } else {
                config.num_wires / 6
            }),
    {
        let routed_packed_count: usize = config.num_routed_wires / ROUTED_PER_OP;
        let unrouted_packed_count: usize = config.num_wires / TOTAL_PER_OP;
        if routed_packed_count < unrouted_packed_count {
            routed_packed_count
        } else {
            unrouted_packed_count
        }
    }

    /// The wire of the first element of operation `i`.
    pub fn wire_ith_element_0(&self, i: usize) -> (r: usize)
        requires
            self.wf(),
            i < self.num_ops,
        ensures
            r == 3 * i,
    {
        assert(6 * self.num_ops <= usize::MAX);
        ROUTED_PER_OP * i
    }

    /// The wire of the second element of operation `i`.
    pub fn wire_ith_element_1(&self, i: usize) -> (r: usize)
        requires
            self.wf(),
            i < self.num_ops,
        ensures
            r == 3 * i + 1,
    {
        assert(6 * self.num_ops <= usize::MAX);
        ROUTED_PER_OP * i + 1
    }

    /// The wire of the output of operation `i`.
    pub fn wire_ith_output(&self, i: usize) -> (r: usize)
        requires
            self.wf(),
            i < self.num_ops,
        ensures
            r == 3 * i + 2,
    {
        assert(6 * self.num_ops <= usize::MAX);
        ROUTED_PER_OP * i + 2
    }

    /// The `j`-th of the wires for intermediate values of operation `i`.
    pub fn wire_ith_temporary(&self, i: usize, j: usize) -> (r: usize)
        requires
            self.wf(),
            i < self.num_ops,
            j < 3,
        ensures
            r == 3 * self.num_ops + 3 * i + j,
    {
        assert(6 * self.num_ops <= usize::MAX);
        ROUTED_PER_OP * self.num_ops + i * NOT_ROUTED_PER_OP + j
    }

    /// The degree of the constraints.
    pub fn degree(&self) -> (r: usize)
        ensures
            r == 2,
    {
        2
    }

    /// The values of the inputs of an operation that is not used.
    pub fn input_wires_defaults(&self, index: usize) -> (r: Vec<(usize, GoldilocksField)>)
        requires
            self.wf(),
            index < self.num_ops,
        ensures
            r@ == seq![
                ((3 * index) as usize, GoldilocksField(0)),
                ((3 * index + 1) as usize, GoldilocksField(0)),
            ],
    {
        assert(6 * self.num_ops <= usize::MAX);
        let mut r: Vec<(usize, GoldilocksField)> = Vec::new();
        r.push((self.wire_ith_element_0(index), GoldilocksField(0)));
        r.push((self.wire_ith_element_1(index), GoldilocksField(0)));
        assert(r@ =~= seq![
            ((3 * index) as usize, GoldilocksField(0)),
            ((3 * index + 1) as usize, GoldilocksField(0)),
        ]);
        r
    }

    /// The generators of a row: one for each operation.
    pub fn generators(&self, row: usize, local_constants: &[GoldilocksField]) -> (r: Vec<
        EqualityBaseGenerator,
    >)
        requires
            local_constants@.len() >= 1,
        ensures
            r@.len() == self.num_ops,
            forall|i: int|
                0 <= i < r@.len() ==> #[trigger] r@[i] == (EqualityBaseGenerator {
                    gate: *self,
                    row,
                    const_0: local_constants@[0],
                    i: i as usize,
                }),
    {
        let mut r: Vec<EqualityBaseGenerator> = Vec::with_capacity(self.num_ops);
        while r.len() < self.num_ops
            invariant
                r@.len() <= self.num_ops,
                local_constants@.len() >= 1,
                forall|i: int|
                    0 <= i < r@.len() ==> #[trigger] r@[i] == (EqualityBaseGenerator {
                        gate: *self,
                        row,
                        const_0: local_constants@[0],
                        i: i as usize,
                    }),
            decreases self.num_ops - r@.len(),
        {
            let i: usize = r.len();
            r.push(
                EqualityBaseGenerator { gate: *self, row, const_0: local_constants[0], i },
            );
        }
        r
    }
}

/// The four constraints of operation `i` of `n`: the difference wire holds the difference, the
/// product wire holds the difference times its inverse, the product is neutral for the difference,
/// and the output is the constant less the product.
pub open spec fn equality_constraint(w: Seq<Elt>, c: Seq<Elt>, n: int, i: int, k: int) -> Elt {
    let (x, y, equal) = (w[3 * i], w[3 * i + 1], w[3 * i + 2]);
    let t = 3 * n + 3 * i;
    let (diff, inverse, product) = (w[t], w[t + 1], w[t + 2]);
    if k == 0 {
        (x - y) - diff
    } else if k == 1 {
        diff * inverse - product
    } else if k == 2 {
        product * diff - diff
    } else {
        (c[0] - product) - equal
    }
}

impl Gate for EqualityGate {
    open spec fn wf(self) -> bool {
        6 * self.num_ops <= usize::MAX
    }

    open spec fn wire_count(self) -> nat {
        (self.num_ops * 6) as nat
    }

    open spec fn constant_count(self) -> nat {
        1
    }

    open spec fn constraint_count(self) -> nat {
        (self.num_ops * 4) as nat
    }

    open spec fn constraints(self, wires: Seq<Elt>, constants: Seq<Elt>) -> Seq<Elt> {
        Seq::new(
            (self.num_ops * 4) as nat,
            |k: int| equality_constraint(wires, constants, self.num_ops as int, k / 4, k % 4),
        )
    }

    proof fn lemma_counts(self, wires: Seq<Elt>, constants: Seq<Elt>) {
        assert(self.constraints(wires, constants).len() == self.num_ops * 4);
        assert(self.constraint_count() == self.num_ops * 4);
        assert(self.constant_count() == 1);
        assert(self.wire_count() == self.num_ops * 6);
        assert(self.wf() == (6 * self.num_ops <= usize::MAX));
    }

    proof fn lemma_prefix(self, wires: Seq<Elt>, constants: Seq<Elt>) {
        assert(self.constant_count() == 1);
        assert(self.wire_count() == self.num_ops * 6);
        assert(self.constraints(wires, constants) =~= self.constraints(
            wires.take(self.wire_count() as int),
            constants.take(self.constant_count() as int),
        ));
    }

    fn num_wires(&self) -> (r: usize)
        ensures
            r == self.wire_count(),
    {
        assert(self.wf() == (6 * self.num_ops <= usize::MAX));
        self.num_ops * TOTAL_PER_OP
    }

    fn num_constants(&self) -> (r: usize)
        ensures
            r == self.constant_count(),
    {
        1
    }

    fn num_constraints(&self) -> (r: usize)
        ensures
            r == self.constraint_count(),
    {
        assert(self.wf() == (6 * self.num_ops <= usize::MAX));
        self.num_ops * 4
    }

    fn eval<T: Poseidon2>(&self, wires: &[T], constants: &[T]) -> (r: Vec<T>) {
        assert(self.wf() == (6 * self.num_ops <= usize::MAX));
        assert(self.wire_count() == self.num_ops * 6);
        assert(self.constant_count() == 1);
        assert(self.constraint_count() == self.num_ops * 4);
        let const_0 = constants[0];
        let ghost n = self.num_ops as int;
        let mut r: Vec<T> = Vec::with_capacity(self.num_ops * 4);
        let mut i: usize = 0;
        while i < self.num_ops
            invariant
                i <= self.num_ops,
                n == self.num_ops,
                self.wf(),
                r@.len() == 4 * i,
                wires@.len() >= 6 * n,
                constants@.len() >= 1,
                const_0 == constants@[0],
                forall|k: int, l: int|
                    0 <= k < 4 * i && 0 <= l < T::points() ==> #[trigger] r@[k].at(l)
                        == equality_constraint(
                        at_point(wires@, l),
                        at_point(constants@, l),
                        n,
                        k / 4,
                        k % 4,
                    ),
            decreases self.num_ops - i,
        {
            let x = wires[self.wire_ith_element_0(i)];
            let y = wires[self.wire_ith_element_1(i)];
            let equal = wires[self.wire_ith_output(i)];
            let diff = wires[self.wire_ith_temporary(i, 0)];
            let inverse = wires[self.wire_ith_temporary(i, 1)];
            let product = wires[self.wire_ith_temporary(i, 2)];
            let ghost before = r@;
            r.push(x.minus(y).minus(diff));
            r.push(diff.times(inverse).minus(product));
            r.push(product.times(diff).minus(diff));
            r.push(const_0.minus(product).minus(equal));
            proof {
                assert forall|k: int, l: int|
                    0 <= k < 4 * i + 4 && 0 <= l < T::points() implies #[trigger] r@[k].at(l)
                    == equality_constraint(
                    at_point(wires@, l),
                    at_point(constants@, l),
                    n,
                    k / 4,
                    k % 4,
                ) by {
                    if k < 4 * i {
                        assert(r@[k] == before[k]);
                    }
                }
            }
            i = i + 1;
        }
        proof {
            assert forall|l: int| 0 <= l < T::points() implies #[trigger] at_point(r@, l)
                == self.constraints(at_point(wires@, l), at_point(constants@, l)) by {
                assert(at_point(r@, l) =~= self.constraints(
                    at_point(wires@, l),
                    at_point(constants@, l),
                ));
            }
        }
        r
    }
}

/// The generator of the output and the intermediate values of one operation.
#[derive(Clone, Copy, Debug)]
pub struct EqualityBaseGenerator {
    pub gate: EqualityGate,
    pub row: usize,
    pub const_0: GoldilocksField,
    pub i: usize,
}

impl EqualityBaseGenerator {
    /// The operation exists.
    pub open spec fn wf(self) -> bool {
        self.gate.wf() && self.i < self.gate.num_ops
    }

    /// The wire of the `j`-th intermediate value.
    pub open spec fn temporary(self, j: int) -> int {
        3 * self.gate.num_ops + 3 * self.i + j
    }

    /// The targets that have to be known first.
    pub fn dependencies(&self) -> (r: Vec<Target>)
        requires
            self.wf(),
        ensures
            r@ == seq![
                Target::Wire { row: self.row, column: (3 * self.i) as usize },
                Target::Wire { row: self.row, column: (3 * self.i + 1) as usize },
            ],
    {
        assert(6 * self.gate.num_ops <= usize::MAX);
        let mut r: Vec<Target> = Vec::new();
        r.push(Target::wire(self.row, self.gate.wire_ith_element_0(self.i)));
        r.push(Target::wire(self.row, self.gate.wire_ith_element_1(self.i)));
        assert(r@ =~= seq![
            Target::Wire { row: self.row, column: (3 * self.i) as usize },
            Target::Wire { row: self.row, column: (3 * self.i + 1) as usize },
        ]);
        r
    }

    /// The generated values: the difference, whether it is zero, whether it is not, and its
    /// inverse.
    pub open spec fn values(
        self,
        x: GoldilocksField,
        y: GoldilocksField,
        inverse: GoldilocksField,
    ) -> Seq<(Target, GoldilocksField)> {
        let row = self.row;
        let same = x.v() == y.v();
        seq![
            (
                Target::Wire { row, column: self.temporary(0) as usize },
                x.s_sub(y),
            ),
            (
                Target::Wire { row, column: (3 * self.i + 2) as usize },
                GoldilocksField(if same { 1 } else { 0 }),
            ),
            (
                Target::Wire { row, column: self.temporary(2) as usize },
                GoldilocksField(if same { 0 } else { 1 }),
            ),
            (Target::Wire { row, column: self.temporary(1) as usize }, inverse),
        ]
    }

    /// What the inverse wire gets: the inverse of the difference, or zero.
    pub open spec fn is_inverse(
        self,
        x: GoldilocksField,
        y: GoldilocksField,
        inverse: GoldilocksField,
    ) -> bool {
        if x.v() == y.v() {
            inverse.0 == 0
        } else {
            (x.v() - y.v()) * inverse.v() == elt1()
        }
    }

    /// Computes the output and the intermediate values.
    pub fn run_once(&self, witness: &PartitionWitness, out_buffer: &mut GeneratedValues)
        requires
            self.wf(),
            witness.has(self.row as int, 3 * self.i),
            witness.has(self.row as int, 3 * self.i + 1),
        ensures
            ({
                let x = witness.value(self.row as int, 3 * self.i);
                let y = witness.value(self.row as int, 3 * self.i + 1);
                let inverse = final(out_buffer).target_values@.last().1;
                &&& self.is_inverse(x, y, inverse)
                &&& final(out_buffer).target_values@ == old(out_buffer).target_values@
                    + self.values(x, y, inverse)
            }),
    {
        assert(6 * self.gate.num_ops <= usize::MAX);
        let ghost before = out_buffer.target_values@;
        let x = witness.get_wire(self.row, self.gate.wire_ith_element_0(self.i));
        let y = witness.get_wire(self.row, self.gate.wire_ith_element_1(self.i));
        let equal = Target::wire(self.row, self.gate.wire_ith_output(self.i));
        let diff = Target::wire(self.row, self.gate.wire_ith_temporary(self.i, 0));
        let invdiff = Target::wire(self.row, self.gate.wire_ith_temporary(self.i, 1));
        let prod = Target::wire(self.row, self.gate.wire_ith_temporary(self.i, 2));
        let difference = x.sub(y);
        let same: bool = x.equals(y);
        proof {
            GoldilocksField::lemma_values(x);
            GoldilocksField::lemma_values(y);
            GoldilocksField::lemma_ops(x, y);
            lemma_sub_zero_iff(x.v(), y.v());
        }
        let inv_value = if same {
            GoldilocksField(0)
        } else {
            difference.inverse()
        };
        let prod_value = if same {
            GoldilocksField(0)
        } else {
            GoldilocksField(1)
        };
        let equal_value = if same {
            GoldilocksField(1)
        } else {
            GoldilocksField(0)
        };
        out_buffer.set_target(diff, difference);
        out_buffer.set_target(equal, equal_value);
        out_buffer.set_target(prod, prod_value);
        out_buffer.set_target(invdiff, inv_value);
        proof {
            assert(self.is_inverse(x, y, inv_value));
            assert(out_buffer.target_values@ =~= before + self.values(x, y, inv_value));
        }
    }
}

/// The wires of a row with the generated values of an operation filled in.
pub open spec fn equality_row(
    generator: EqualityBaseGenerator,
    wires: Seq<GoldilocksField>,
    inverse: GoldilocksField,
) -> Seq<GoldilocksField> {
    let i = generator.i as int;
    let (x, y) = (wires[3 * i], wires[3 * i + 1]);
    filled_row(wires, generator.row, generator.values(x, y, inverse))
}

/// The generated values meet the constraints of their operation.
pub proof fn lemma_equality_generator(
    generator: EqualityBaseGenerator,
    wires: Seq<GoldilocksField>,
    constants: Seq<Elt>,
    inverse: GoldilocksField,
    k: int,
)
    requires
        generator.wf(),
        wires.len() >= generator.gate.wire_count(),
        constants.len() >= 1,
        constants[0] == elt1(),
        generator.is_inverse(
            wires[3 * generator.i as int],
            wires[3 * generator.i as int + 1],
            inverse,
        ),
        0 <= k < 4,
    ensures
        equality_constraint(
            vals(equality_row(generator, wires, inverse)),
            constants,
            generator.gate.num_ops as int,
            generator.i as int,
            k,
        ) == elt0(),
{
    let i = generator.i as int;
    let n = generator.gate.num_ops as int;
    assert(generator.gate.wire_count() == 6 * n);
    assert(6 * n <= usize::MAX);
    let (x, y) = (wires[3 * i], wires[3 * i + 1]);
    let g = generator.values(x, y, inverse);
    let (v0, v1, v2, v3) = (g[0].1, g[1].1, g[2].1, g[3].1);
    let t = 3 * n + 3 * i;
    let r0 = wires;
    let r1 = r0.update(t, v0);
    let r2 = r1.update(3 * i + 2, v1);
    let r3 = r2.update(t + 2, v2);
    let r4 = r3.update(t + 1, v3);
    let e = Seq::<(Target, GoldilocksField)>::empty();
    lemma_filled_row_push(wires, generator.row, e, t as usize, v0);
    let e1 = e.push(g[0]);
    lemma_filled_row_push(wires, generator.row, e1, (3 * i + 2) as usize, v1);
    let e2 = e1.push(g[1]);
    lemma_filled_row_push(wires, generator.row, e2, (t + 2) as usize, v2);
    let e3 = e2.push(g[2]);
    lemma_filled_row_push(wires, generator.row, e3, (t + 1) as usize, v3);
    let e4 = e3.push(g[3]);
    assert(e4 =~= g);
    assert(equality_row(generator, wires, inverse) == r4);
    GoldilocksField::lemma_values(x);
    GoldilocksField::lemma_values(y);
    GoldilocksField::lemma_values(inverse);
    GoldilocksField::lemma_ops(x, y);
    let w = vals(r4);
    assert(w[3 * i] == x.v() && w[3 * i + 1] == y.v());
    assert(w[t] == x.v() - y.v());
    broadcast use group_elt_wf;

    let d = x.v() - y.v();
    lemma_sub_self(d);
    lemma_sub_self(elt0());
    lemma_sub_self(elt1());
    lemma_mul_one_zero(d);
    lemma_mul_one_zero(inverse.v());
    lemma_sub_zero_iff(x.v(), y.v());
    lemma_add_zero(elt1());
    lemma_add_zero(elt0());
    assert(GoldilocksField(0).v() == elt0() && GoldilocksField(1).v() == elt1());
}

/// A row that meets the constraints of an operation tells whether the elements are equal.
pub proof fn lemma_equality_sound(w: Seq<Elt>, c: Seq<Elt>, n: int, i: int)
    requires
        0 <= i < n,
        w.len() >= 6 * n,
        c.len() >= 1,
        c[0] == elt1(),
        forall|j: int| 0 <= j < w.len() ==> (#[trigger] w[j]).wf(),
        forall|k: int| 0 <= k < 4 ==> #[trigger] equality_constraint(w, c, n, i, k) == elt0(),
    ensures
        w[3 * i + 2] == (if w[3 * i] == w[3 * i + 1] {
            elt1()
        } else {
            elt0()
        }),
{
    broadcast use group_elt_wf;

    let (x, y, equal) = (w[3 * i], w[3 * i + 1], w[3 * i + 2]);
    let t = 3 * n + 3 * i;
    let (diff, inverse, product) = (w[t], w[t + 1], w[t + 2]);
    assert(equality_constraint(w, c, n, i, 0) == elt0());
    assert(equality_constraint(w, c, n, i, 1) == elt0());
    assert(equality_constraint(w, c, n, i, 2) == elt0());
    assert(equality_constraint(w, c, n, i, 3) == elt0());
    lemma_sub_zero_iff(x - y, diff);
    lemma_sub_zero_iff(diff * inverse, product);
    lemma_sub_zero_iff(product * diff, diff);
    lemma_sub_zero_iff(elt1() - product, equal);
    lemma_sub_zero_iff(x, y);
    if x == y {
        lemma_mul_one_zero(inverse);
        lemma_add_zero(elt1());
    } else {
        // (product - 1) * diff == 0 and diff != 0
        lemma_mul_dist(diff, product, elt1());
        lemma_mul_one_zero(diff);
        lemma_mul_comm(diff, product - elt1());
        lemma_sub_self(diff);
        lemma_no_zero_divisors(diff, product - elt1());
        lemma_sub_zero_iff(product, elt1());
        lemma_sub_self(elt1());
    }
}

/// For any two elements some values of the output and of the temporaries make all four
/// constraints of the operation zero.
pub proof fn lemma_equality_complete(w: Seq<Elt>, c: Seq<Elt>, n: int, i: int) -> (r: Seq<Elt>)
    requires
        0 <= i < n,
        w.len() >= 6 * n,
        c.len() >= 1,
        c[0] == elt1(),
        forall|j: int| 0 <= j < w.len() ==> (#[trigger] w[j]).wf(),
    ensures
        r.len() == w.len(),
        forall|j: int| 0 <= j < w.len() ==> (#[trigger] r[j]).wf(),
        forall|j: int|
            0 <= j < w.len() && j != 3 * i + 2 && !(3 * n + 3 * i <= j < 3 * n + 3 * i + 3)
                ==> #[trigger] r[j] == w[j],
        forall|k: int| 0 <= k < 4 ==> #[trigger] equality_constraint(r, c, n, i, k) == elt0(),
{
    broadcast use group_elt_wf;

    let (x, y) = (w[3 * i], w[3 * i + 1]);
    let t = 3 * n + 3 * i;
    let d = x - y;
    lemma_sub_zero_iff(x, y);
    let inverse = if x == y {
        elt0()
    } else {
        lemma_extension_inverse_exists(d)
    };
    let product = if x == y {
        elt0()
    } else {
        elt1()
    };
    let equal = elt1() - product;
    let r = w.update(t, d).update(t + 1, inverse).update(t + 2, product).update(3 * i + 2, equal);
    lemma_mul_one_zero(d);
    lemma_mul_one_zero(inverse);
    lemma_sub_self(d);
    lemma_sub_self(elt0());
    lemma_sub_self(product);
    lemma_sub_self(equal);
    r
}

impl EqualityGate {
    /// The constraints at all points of a batch.
    pub fn eval_unfiltered_base_batch(&self, vars: &EvaluationVarsBaseBatch) -> (r: Vec<
        GoldilocksField,
    >)
        requires
            self.wf(),
            vars.fits(self.wire_count(), self.constant_count()),
            self.constraint_count() * vars.batch_size <= usize::MAX,
        ensures
            r@.len() == self.constraint_count() * vars.batch_size,
            batch_done(
                *self,
                vars.local_wires@,
                vars.local_constants@,
                vars.batch_size as nat,
                r@,
                vars.batch_size as int,
            ),
    {
        eval_unfiltered_base_batch(self, vars)
    }
}

} // verus!
