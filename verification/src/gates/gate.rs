//! What a gate is, and how it is evaluated at one point, at several points at once, and over whole
//! batches of points.

use crate::field::arch::wide_goldilocks_field::WideGoldilocksField;
use crate::field::batch_util::batch_multiply_add_at;
use crate::field::extension::QuadraticExtension;
use crate::field::goldilocks_field::GoldilocksField;
use crate::field::model::Elt;
use crate::field::packed::PackedField;
use crate::field::polynomial::filled;
use crate::field::types::{Field, vals};
use crate::gates::value::GateValue;
use crate::hash::poseidon2::layers::at_point;
use crate::hash::poseidon2::permutation::Poseidon2;
use vstd::prelude::*;
use vstd::slice::slice_subrange;

verus! {

/// The sizes of a row of wires that a circuit is built with.
#[derive(Clone, Copy, Debug)]
pub struct CircuitConfig {
    /// The number of wires in a row.
    pub num_wires: usize,
    /// The number of wires in a row that can be connected to others.
    pub num_routed_wires: usize,
    /// The number of constants of a row.
    pub num_constants: usize,
    /// Whether selections get a gate of their own.
    pub use_select_gate: bool,
}

impl CircuitConfig {
    /// The sizes for recursive proofs.
    pub fn standard_recursion_config() -> (r: Self)
        ensures
            r.num_wires == 135,
            r.num_routed_wires == 80,
            r.num_constants == 2,
            !r.use_select_gate,
    {
        CircuitConfig {
            num_wires: 135,
            num_routed_wires: 80,
            num_constants: 2,
            use_select_gate: false,
        }
    }

    /// Whether selections get a gate of their own.
    pub fn select_gate_enabled(&self) -> (r: bool)
        ensures
            r == self.use_select_gate,
    {
        self.use_select_gate
    }
}

/// The wires and constants of a batch of points, wire after wire and constant after constant.
pub struct EvaluationVarsBaseBatch<'a> {
    pub batch_size: usize,
    pub local_constants: &'a [GoldilocksField],
    pub local_wires: &'a [GoldilocksField],
}

/// The values of `num` wires at point `p` of a batch of `n` points.
pub open spec fn batch_point(values: Seq<GoldilocksField>, n: nat, num: nat, p: int) -> Seq<Elt> {
    Seq::new(num, |w: int| values[w * n + p].v())
}

impl<'a> EvaluationVarsBaseBatch<'a> {
    /// There is a value for each of so many wires and constants at each point. There may be values
    /// of further wires and constants after them.
    pub open spec fn fits(self, wires: nat, constants: nat) -> bool {
        &&& self.local_wires@.len() >= wires * self.batch_size
        &&& self.local_constants@.len() >= constants * self.batch_size
    }
}

/// The index of entry `p` of row `c`, in rows of `n` entries.
pub proof fn lemma_flat_index(c: int, p: int, n: int, rows: int)
    requires
        0 <= c < rows,
        0 <= p < n,
    ensures
        0 <= c * n + p < rows * n,
        (c * n + p) / n == c,
        (c * n + p) % n == p,
        c * n + n <= rows * n,
        0 <= c * n,
{
    assert(0 <= c * n && c * n + n <= rows * n) by (nonlinear_arith)
        requires
            0 <= c,
            c + 1 <= rows,
            n > 0,
    ;
    vstd::arithmetic::div_mod::lemma_fundamental_div_mod_converse(c * n + p, n, c, p);
}

/// A row and an entry from a flat index.
pub proof fn lemma_flat_split(x: int, n: int, rows: int)
    requires
        0 <= x < rows * n,
        n > 0,
    ensures
        0 <= x / n < rows,
        0 <= x % n < n,
        (x / n) * n + x % n == x,
{
    vstd::arithmetic::div_mod::lemma_fundamental_div_mod(x, n);
    vstd::arithmetic::div_mod::lemma_mod_bound(x, n);
    let q = x / n;
    assert(0 <= q < rows && q * n + x % n == x) by (nonlinear_arith)
        requires
            n * q + x % n == x,
            0 <= x % n < n,
            0 <= x < rows * n,
    ;
}

/// A kind of row: polynomial constraints on its wires and constants.
pub trait Gate: Sized {
    /// The parameters make sense.
    spec fn wf(self) -> bool;

    /// The number of wires that the constraints read.
    spec fn wire_count(self) -> nat;

    /// The number of constants that the constraints read.
    spec fn constant_count(self) -> nat;

    /// The number of constraints.
    spec fn constraint_count(self) -> nat;

    /// The values of the constraints, which a proper row makes all zero.
    spec fn constraints(self, wires: Seq<Elt>, constants: Seq<Elt>) -> Seq<Elt>;

    /// The counts are consistent, and fit the machine.
    proof fn lemma_counts(self, wires: Seq<Elt>, constants: Seq<Elt>)
        requires
            self.wf(),
        ensures
            self.constraints(wires, constants).len() == self.constraint_count(),
            self.wire_count() <= usize::MAX,
            self.constant_count() <= usize::MAX,
            self.constraint_count() <= usize::MAX,
    ;

    /// Further wires and constants of a row do not matter.
    proof fn lemma_prefix(self, wires: Seq<Elt>, constants: Seq<Elt>)
        requires
            self.wf(),
            wires.len() >= self.wire_count(),
            constants.len() >= self.constant_count(),
        ensures
            self.constraints(wires, constants) == self.constraints(
                wires.take(self.wire_count() as int),
                constants.take(self.constant_count() as int),
            ),
    ;

    /// The number of wires that the constraints read.
    fn num_wires(&self) -> (r: usize)
        requires
            self.wf(),
        ensures
            r == self.wire_count(),
    ;

    /// The number of constants that the constraints read.
    fn num_constants(&self) -> (r: usize)
        requires
            self.wf(),
        ensures
            r == self.constant_count(),
    ;

    /// The number of constraints.
    fn num_constraints(&self) -> (r: usize)
        requires
            self.wf(),
        ensures
            r == self.constraint_count(),
    ;

    /// The constraints on any kind of value.
    fn eval<T: Poseidon2>(&self, wires: &[T], constants: &[T]) -> (r: Vec<T>)
        requires
            self.wf(),
            wires@.len() >= self.wire_count(),
            constants@.len() >= self.constant_count(),
        ensures
            r@.len() == self.constraint_count(),
            forall|l: int|
                0 <= l < T::points() ==> #[trigger] at_point(r@, l) == self.constraints(
                    at_point(wires@, l),
                    at_point(constants@, l),
                ),
    ;

    /// The constraints at a point of the extension.
    fn eval_unfiltered(
        &self,
        local_wires: &[QuadraticExtension],
        local_constants: &[QuadraticExtension],
    ) -> (r: Vec<QuadraticExtension>)
        requires
            self.wf(),
            local_wires@.len() >= self.wire_count(),
            local_constants@.len() >= self.constant_count(),
        ensures
            vals(r@) == self.constraints(vals(local_wires@), vals(local_constants@)),
    {
        let r = self.eval(local_wires, local_constants);
        proof {
            assert(QuadraticExtension::points() == 1);
            lemma_extension_point(r@);
            lemma_extension_point(local_wires@);
            lemma_extension_point(local_constants@);
            assert(at_point(r@, 0) == self.constraints(
                at_point(local_wires@, 0),
                at_point(local_constants@, 0),
            ));
        }
        r
    }

    /// The constraints at a point of the base field.
    fn eval_unfiltered_base_one(
        &self,
        local_wires: &[GoldilocksField],
        local_constants: &[GoldilocksField],
    ) -> (r: Vec<GoldilocksField>)
        requires
            self.wf(),
            local_wires@.len() >= self.wire_count(),
            local_constants@.len() >= self.constant_count(),
        ensures
            vals(r@) == self.constraints(vals(local_wires@), vals(local_constants@)),
            r@.len() == self.constraint_count(),
    {
        let r = self.eval(local_wires, local_constants);
        proof {
            assert(GoldilocksField::points() == 1);
            lemma_base_point(r@);
            lemma_base_point(local_wires@);
            lemma_base_point(local_constants@);
            assert(at_point(r@, 0) == self.constraints(
                at_point(local_wires@, 0),
                at_point(local_constants@, 0),
            ));
        }
        r
    }

    /// The constraints at as many points as a packed vector has lanes.
    fn eval_unfiltered_base_packed<P: PackedField>(
        &self,
        local_wires: &[P],
        local_constants: &[P],
    ) -> (r: Vec<P>)
        requires
            self.wf(),
            local_wires@.len() >= self.wire_count(),
            local_constants@.len() >= self.constant_count(),
        ensures
            r@.len() == self.constraint_count(),
            forall|l: int|
                0 <= l < P::width() ==> #[trigger] at_point(r@, l) == self.constraints(
                    at_point(local_wires@, l),
                    at_point(local_constants@, l),
                ),
    {
        assert(<P as GateValue>::points() == P::width());
        self.eval(local_wires, local_constants)
    }
}

/// An extension element is a value at one point.
pub proof fn lemma_extension_point(a: Seq<QuadraticExtension>)
    ensures
        at_point(a, 0) == vals(a),
{
    assert(at_point(a, 0) =~= vals(a));
}

/// A base field element is a value at one point.
pub proof fn lemma_base_point(a: Seq<GoldilocksField>)
    ensures
        at_point(a, 0) == vals(a),
{
    assert(at_point(a, 0) =~= vals(a));
}

/// The constraint values of a batch, at all points below `done`.
pub open spec fn batch_done<G: Gate>(
    gate: G,
    wires: Seq<GoldilocksField>,
    constants: Seq<GoldilocksField>,
    n: nat,
    r: Seq<GoldilocksField>,
    done: int,
) -> bool {
    forall|x: int|
        #![trigger r[x]]
        0 <= x < r.len() && x % (n as int) < done ==> r[x].v() == gate.constraints(
            batch_point(wires, n, gate.wire_count(), x % (n as int)),
            batch_point(constants, n, gate.constant_count(), x % (n as int)),
        )[x / (n as int)]
}

/// The packed values of some wires at the points from `p` on.
fn load_packed<P: PackedField<Scalar = GoldilocksField>>(
    values: &[GoldilocksField],
    n: usize,
    num: usize,
    p: usize,
) -> (r: Vec<P>)
    requires
        values@.len() >= num * n,
        p + P::width() <= n,
    ensures
        r@.len() == num,
        forall|l: int|
            0 <= l < P::width() ==> #[trigger] at_point(r@, l) == batch_point(
                values@,
                n as nat,
                num as nat,
                p + l,
            ),
{
    let mut r: Vec<P> = Vec::with_capacity(num);
    let size: usize = values.len();
    proof {
        let q: P = arbitrary();
        P::lemma_width(q);
    }
    while r.len() < num
        invariant
            r@.len() <= num,
            size == values@.len() && values@.len() >= num * n,
            p + P::width() <= n,
            P::width() > 0,
            forall|w: int, l: int|
                0 <= w < r@.len() && 0 <= l < P::width() ==> #[trigger] r@[w].at(l) == values@[w * n
                    + p + l].v(),
        decreases num - r@.len(),
    {
        let w: usize = r.len();
        proof {
            lemma_flat_index(w as int, p as int, n as int, num as int);
        }
        let x = P::load(values, w * n + p);
        proof {
            assert forall|l: int| 0 <= l < P::width() implies #[trigger] x.at(l) == values@[w * n + p
                + l].v() by {
                assert(x.at(l) == x.seq()[l].v());
            }
        }
        r.push(x);
    }
    proof {
        assert forall|l: int| 0 <= l < P::width() implies #[trigger] at_point(r@, l) == batch_point(
            values@,
            n as nat,
            num as nat,
            p + l,
        ) by {
            assert(at_point(r@, l) =~= batch_point(values@, n as nat, num as nat, p + l)) by {
                assert forall|w: int| 0 <= w < num implies at_point(r@, l)[w] == #[trigger] values@[w
                    * n + (p + l)].v() by {
                    assert(r@[w].at(l) == values@[w * n + p + l].v());
                    assert(w * n + p + l == w * n + (p + l));
                }
            }
        }
    }
    r
}

/// The values of some wires at point `p`.
fn load_point(values: &[GoldilocksField], n: usize, num: usize, p: usize) -> (r: Vec<
    GoldilocksField,
>)
    requires
        values@.len() >= num * n,
        p < n,
    ensures
        r@.len() == num,
        vals(r@) == batch_point(values@, n as nat, num as nat, p as int),
{
    let mut r: Vec<GoldilocksField> = Vec::with_capacity(num);
    let size: usize = values.len();
    while r.len() < num
        invariant
            r@.len() <= num,
            size == values@.len() && values@.len() >= num * n,
            p < n,
            forall|w: int| 0 <= w < r@.len() ==> #[trigger] r@[w] == values@[w * n + p],
        decreases num - r@.len(),
    {
        let w: usize = r.len();
        proof {
            lemma_flat_index(w as int, p as int, n as int, num as int);
        }
        r.push(values[w * n + p]);
    }
    assert(vals(r@) =~= batch_point(values@, n as nat, num as nat, p as int));
    r
}

/// The constraints at all points of a batch, constraint after constraint: packed vectors of
/// points first, and single points for what is left over.
pub fn eval_unfiltered_base_batch<G: Gate>(gate: &G, vars: &EvaluationVarsBaseBatch) -> (r: Vec<
    GoldilocksField,
>)
    requires
        gate.wf(),
        vars.fits(gate.wire_count(), gate.constant_count()),
        gate.constraint_count() * vars.batch_size <= usize::MAX,
    ensures
        r@.len() == gate.constraint_count() * vars.batch_size,
        batch_done(
            *gate,
            vars.local_wires@,
            vars.local_constants@,
            vars.batch_size as nat,
            r@,
            vars.batch_size as int,
        ),
{
    let n: usize = vars.batch_size;
    let nw: usize = gate.num_wires();
    let nc: usize = gate.num_constants();
    let rows: usize = gate.num_constraints();
    let ghost (wires, constants) = (vars.local_wires@, vars.local_constants@);
    let w: usize = WideGoldilocksField::lane_count();
    let mut r = filled(GoldilocksField(0), rows * n);
    let mut p: usize = 0;
    proof {
        assert(WideGoldilocksField::width() == 4);
        assert forall|x: int| #![trigger r@[x]] 0 <= x < r@.len() implies x % (n as int) >= 0 by {
            if n > 0 {
                lemma_flat_split(x, n as int, rows as int);
            } else {
                assert(rows * n == 0) by (nonlinear_arith)
                    requires
                        n == 0,
                ;
            }
        }
    }
    while n - p >= w
        invariant
            p <= n == vars.batch_size,
            w == 4,
            WideGoldilocksField::width() == 4,
            gate.wf(),
            nw == gate.wire_count(),
            nc == gate.constant_count(),
            rows == gate.constraint_count(),
            wires == vars.local_wires@,
            constants == vars.local_constants@,
            vars.fits(nw as nat, nc as nat),
            r@.len() == rows * n,
            rows * n <= usize::MAX,
            batch_done(*gate, wires, constants, n as nat, r@, p as int),
        decreases n - p,
    {
        let pw = load_packed::<WideGoldilocksField>(vars.local_wires, n, nw, p);
        let pc = load_packed::<WideGoldilocksField>(vars.local_constants, n, nc, p);
        let out = gate.eval_unfiltered_base_packed(pw.as_slice(), pc.as_slice());
        let ghost before = r@;
        let mut c: usize = 0;
        while c < rows
            invariant
                c <= rows == out@.len(),
                p + 4 <= n,
                w == 4,
                WideGoldilocksField::width() == 4,
                r@.len() == rows * n == before.len(),
                rows * n <= usize::MAX,
                forall|x: int|
                    #![trigger r@[x]]
                    0 <= x < r@.len() ==> r@[x] == (if p <= x % (n as int) < p + 4 && x / (
                    n as int) < c {
                        out@[x / (n as int)].seq()[x % (n as int) - p]
                    } else {
                        before[x]
                    }),
            decreases rows - c,
        {
            proof {
                lemma_flat_index(c as int, p as int, n as int, rows as int);
            }
            let lo: usize = c * n + p;
            let ghost mid = r@;
            out[c].store(r.as_mut_slice(), lo);
            proof {
                assert forall|x: int|
                    #![trigger r@[x]]
                    0 <= x < r@.len() implies r@[x] == (if p <= x % (n as int) < p + 4 && x / (
                n as int) < c + 1 {
                    out@[x / (n as int)].seq()[x % (n as int) - p]
                } else {
                    before[x]
                }) by {
                    lemma_flat_split(x, n as int, rows as int);
                    if lo <= x < lo + 4 {
                        lemma_flat_index(c as int, x - c * n, n as int, rows as int);
                    } else {
                        assert(r@[x] == mid[x]);
                        if x / (n as int) == c {
                            assert(x == c * n + x % (n as int));
                        }
                    }
                }
            }
            c = c + 1;
        }
        proof {
            assert forall|x: int|
                #![trigger r@[x]]
                0 <= x < r@.len() && x % (n as int) < p + 4 implies r@[x].v() == gate.constraints(
                batch_point(wires, n as nat, gate.wire_count(), x % (n as int)),
                batch_point(constants, n as nat, gate.constant_count(), x % (n as int)),
            )[x / (n as int)] by {
                lemma_flat_split(x, n as int, rows as int);
                if x % (n as int) >= p {
                    let l = x % (n as int) - p;
                    let k = x / (n as int);
                    assert(at_point(out@, l) == gate.constraints(
                        at_point(pw@, l),
                        at_point(pc@, l),
                    ));
                    assert(at_point(pw@, l) == batch_point(wires, n as nat, nw as nat, p + l));
                    assert(at_point(pc@, l) == batch_point(constants, n as nat, nc as nat, p + l));
                    assert(at_point(out@, l)[k] == out@[k].at(l));
                } else {
                    assert(r@[x] == before[x]);
                }
            }
        }
        p = p + w;
    }
    while p < n
        invariant
            p <= n == vars.batch_size,
            gate.wf(),
            nw == gate.wire_count(),
            nc == gate.constant_count(),
            rows == gate.constraint_count(),
            wires == vars.local_wires@,
            constants == vars.local_constants@,
            vars.fits(nw as nat, nc as nat),
            r@.len() == rows * n,
            rows * n <= usize::MAX,
            batch_done(*gate, wires, constants, n as nat, r@, p as int),
        decreases n - p,
    {
        let pw = load_point(vars.local_wires, n, nw, p);
        let pc = load_point(vars.local_constants, n, nc, p);
        let out = gate.eval_unfiltered_base_one(pw.as_slice(), pc.as_slice());
        let ghost before = r@;
        let mut c: usize = 0;
        while c < rows
            invariant
                c <= rows == out@.len(),
                p < n,
                r@.len() == rows * n == before.len(),
                rows * n <= usize::MAX,
                forall|x: int|
                    #![trigger r@[x]]
                    0 <= x < r@.len() ==> r@[x] == (if x % (n as int) == p && x / (n as int) < c {
                        out@[x / (n as int)]
                    } else {
                        before[x]
                    }),
            decreases rows - c,
        {
            proof {
                lemma_flat_index(c as int, p as int, n as int, rows as int);
            }
            let ghost mid = r@;
            r[c * n + p] = out[c];
            proof {
                assert forall|x: int|
                    #![trigger r@[x]]
                    0 <= x < r@.len() implies r@[x] == (if x % (n as int) == p && x / (n as int) < c
                    + 1 {
                    out@[x / (n as int)]
                } else {
                    before[x]
                }) by {
                    lemma_flat_split(x, n as int, rows as int);
                    if x != c * n + p {
                        assert(r@[x] == mid[x]);
                    }
                }
            }
            c = c + 1;
        }
        proof {
            assert forall|x: int|
                #![trigger r@[x]]
                0 <= x < r@.len() && x % (n as int) < p + 1 implies r@[x].v() == gate.constraints(
                batch_point(wires, n as nat, gate.wire_count(), x % (n as int)),
                batch_point(constants, n as nat, gate.constant_count(), x % (n as int)),
            )[x / (n as int)] by {
                lemma_flat_split(x, n as int, rows as int);
                if x % (n as int) == p {
                    assert(vals(out@)[x / (n as int)] == r@[x].v());
                } else {
                    assert(r@[x] == before[x]);
                }
            }
        }
        p = p + 1;
    }
    r
}

/// What accumulating the filtered constraints of a batch adds to the first `rows` rows.
pub open spec fn accumulated<G: Gate>(
    gate: G,
    wires: Seq<GoldilocksField>,
    constants: Seq<GoldilocksField>,
    n: nat,
    filters: Seq<GoldilocksField>,
    before: Seq<GoldilocksField>,
    after: Seq<GoldilocksField>,
    rows: int,
) -> bool {
    &&& after.len() == before.len()
    &&& forall|x: int|
        #![trigger after[x]]
        0 <= x < rows * n ==> after[x].v() == before[x].v() + gate.constraints(
            batch_point(wires, n, gate.wire_count(), x % (n as int)),
            batch_point(constants, n, gate.constant_count(), x % (n as int)),
        )[x / (n as int)] * filters[x % (n as int)].v()
    &&& forall|x: int| rows * n <= x < before.len() ==> #[trigger] after[x] == before[x]
}

/// Adding the filtered values of one more constraint.
pub proof fn lemma_accumulate_row<G: Gate>(
    gate: G,
    wires: Seq<GoldilocksField>,
    constants: Seq<GoldilocksField>,
    n: nat,
    filters: Seq<GoldilocksField>,
    before: Seq<GoldilocksField>,
    mid: Seq<GoldilocksField>,
    after: Seq<GoldilocksField>,
    row: Seq<GoldilocksField>,
    c: int,
)
    requires
        0 <= c,
        row.len() == n,
        accumulated(gate, wires, constants, n, filters, before, mid, c),
        c * n + n <= before.len(),
        after.len() == mid.len(),
        forall|p: int|
            0 <= p < n ==> (#[trigger] row[p]).v() == gate.constraints(
                batch_point(wires, n, gate.wire_count(), p),
                batch_point(constants, n, gate.constant_count(), p),
            )[c],
        forall|i: int|
            c * n <= i < c * n + n ==> (#[trigger] after[i]).v() == mid[i].v() + row[i - c * n].v()
                * filters[i - c * n].v(),
        forall|i: int|
            0 <= i < mid.len() && !(c * n <= i < c * n + n) ==> #[trigger] after[i] == mid[i],
    ensures
        accumulated(gate, wires, constants, n, filters, before, after, c + 1),
{
    assert((c + 1) * n == c * n + n) by (nonlinear_arith);
    assert(0 <= c * n) by (nonlinear_arith)
        requires
            0 <= c,
            0 <= n,
    ;
    assert forall|x: int|
        #![trigger after[x]]
        0 <= x < (c + 1) * n implies after[x].v() == before[x].v() + gate.constraints(
        batch_point(wires, n, gate.wire_count(), x % (n as int)),
        batch_point(constants, n, gate.constant_count(), x % (n as int)),
    )[x / (n as int)] * filters[x % (n as int)].v() by {
        if x >= c * n {
            lemma_flat_index(c, x - c * n, n as int, c + 1);
            assert(mid[x] == before[x]);
            assert(row[x - c * n].v() == gate.constraints(
                batch_point(wires, n, gate.wire_count(), x - c * n),
                batch_point(constants, n, gate.constant_count(), x - c * n),
            )[c]);
        } else {
            assert(after[x] == mid[x]);
        }
    }
}

/// Multiplies the constraints at each point of a batch by the filter of the point, and adds them
/// to the accumulated constraints.
pub fn eval_unfiltered_base_batch_accumulate<G: Gate>(
    gate: &G,
    vars: &EvaluationVarsBaseBatch,
    filters: &[GoldilocksField],
    combined: &mut [GoldilocksField],
)
    requires
        gate.wf(),
        vars.fits(gate.wire_count(), gate.constant_count()),
        filters@.len() == vars.batch_size,
        gate.constraint_count() * vars.batch_size <= old(combined)@.len(),
    ensures
        accumulated(
            *gate,
            vars.local_wires@,
            vars.local_constants@,
            vars.batch_size as nat,
            filters@,
            old(combined)@,
            final(combined)@,
            gate.constraint_count() as int,
        ),
{
    let n: usize = vars.batch_size;
    let rows: usize = gate.num_constraints();
    let size: usize = combined.len();
    let ghost before = combined@;
    let ghost (wires, constants) = (vars.local_wires@, vars.local_constants@);
    let values = eval_unfiltered_base_batch(gate, vars);
    let mut c: usize = 0;
    assert(0 * n == 0);
    while c < rows
        invariant
            c <= rows == gate.constraint_count(),
            n == vars.batch_size == filters@.len(),
            wires == vars.local_wires@,
            constants == vars.local_constants@,
            values@.len() == rows * n <= size == combined@.len(),
            batch_done(*gate, wires, constants, n as nat, values@, n as int),
            accumulated(
                *gate,
                wires,
                constants,
                n as nat,
                filters@,
                before,
                combined@,
                c as int,
            ),
        decreases rows - c,
    {
        proof {
            assert(0 <= c * n && c * n + n <= rows * n) by (nonlinear_arith)
                requires
                    0 <= c,
                    c + 1 <= rows,
                    0 <= n,
            ;
            assert((c + 1) * n == c * n + n) by (nonlinear_arith);
        }
        let row = slice_subrange(values.as_slice(), c * n, c * n + n);
        let ghost mid = combined@;
        batch_multiply_add_at(combined, c * n, row, filters);
        proof {
            assert forall|p: int| 0 <= p < n implies (#[trigger] row@[p]).v() == gate.constraints(
                batch_point(wires, n as nat, gate.wire_count(), p),
                batch_point(constants, n as nat, gate.constant_count(), p),
            )[c as int] by {
                lemma_flat_index(c as int, p, n as int, rows as int);
                assert(row@[p] == values@[c * n + p]);
            }
            lemma_accumulate_row(
                *gate,
                wires,
                constants,
                n as nat,
                filters@,
                before,
                mid,
                combined@,
                row@,
                c as int,
            );
        }
        c = c + 1;
    }
}

} // verus!
