//! A gate for reading an entry of a list whose index is known only to the witness.

use crate::field::goldilocks_field::GoldilocksField;
use crate::field::model::{Elt, base, elt0, elt1};
use crate::field::types::Field;
use crate::gates::gate::{CircuitConfig, Gate, lemma_flat_split};
use crate::gates::value::GateValue;
use crate::hash::poseidon2::layers::at_point;
use crate::hash::poseidon2::permutation::Poseidon2;
use crate::iop::target::Target;
use crate::iop::witness::{GeneratedValues, PartitionWitness};
use crate::util::bits::{lemma_pow2_basics, lemma_pow2_double, two_pow};
use vstd::arithmetic::power2::{lemma_pow2_pos, pow2};
use vstd::prelude::*;

verus! {

/// A gate for checking that a particular element of a list matches a given value.
#[derive(Clone, Copy, Debug)]
pub struct RandomAccessGate {
    /// Number of bits in the index (log2 of the list size).
    pub bits: usize,
    /// How many separate copies are packed into one gate.
    pub num_copies: usize,
    /// Leftover wires are used as global scratch space to store constants.
    pub num_extra_constants: usize,
}

impl RandomAccessGate {
    /// The number of routed wires of a copy.
    pub open spec fn stride(self) -> int {
        2 + pow2(self.bits as nat) as int
    }

    /// The number of routed wires.
    pub open spec fn routed(self) -> int {
        self.stride() * self.num_copies + self.num_extra_constants
    }

    /// The wire of bit `i` of the index of a copy.
    pub open spec fn bit_wire(self, i: int, copy: int) -> int {
        self.routed() + copy * self.bits + i
    }

    /// The number of constraints of all copies.
    pub open spec fn copy_constraints(self) -> int {
        self.num_copies * (self.bits + 2)
    }

    /// A gate with the given parameters.
    pub fn new(num_copies: usize, bits: usize, num_extra_constants: usize) -> (r: Self)
        ensures
            r.num_copies == num_copies,
            r.bits == bits,
            r.num_extra_constants == num_extra_constants,
    {
        RandomAccessGate { bits, num_copies, num_extra_constants }
    }

    /// A gate with as many copies, and then as many constants, as fit into a row.
    pub fn new_from_config(config: &CircuitConfig, bits: usize) -> (r: Self)
        requires
            pow2(bits as nat) + 2 + bits <= usize::MAX,
        ensures
            r.bits == bits,
            r.num_copies == ({
                let a = config.num_routed_wires as int / (2 + pow2(bits as nat) as int);
                let b = config.num_wires as int / (2 + pow2(bits as nat) as int + bits);
                if a < b {
                    a
                } else {
                    b
                }
            }),
            r.num_extra_constants == ({
                let left = config.num_routed_wires - (2 + pow2(bits as nat)) * r.num_copies;
                if left < config.num_constants {
                    left
                } else {
                    config.num_constants as int
                }
            }),
            r.routed() <= config.num_routed_wires,
    {
        let vec_size: usize = two_pow(bits);
        let a: usize = config.num_routed_wires / (2 + vec_size);
        let b: usize = config.num_wires / (2 + vec_size + bits);
        let max_copies: usize = if a < b {
            a
        } else {
            b
        };
        proof {
            let (n, s) = (config.num_routed_wires as int, 2 + vec_size as int);
            vstd::arithmetic::div_mod::lemma_fundamental_div_mod(n, s);
            vstd::arithmetic::div_mod::lemma_mod_bound(n, s);
            assert(s * max_copies <= s * a) by (nonlinear_arith)
                requires
                    max_copies <= a,
                    s >= 0,
            ;
            assert(0 <= s * max_copies) by (nonlinear_arith)
                requires
                    0 <= max_copies,
                    0 <= s,
            ;
        }
        let left: usize = config.num_routed_wires - (2 + vec_size) * max_copies;
        let extra: usize = if left < config.num_constants {
            left
        } else {
            config.num_constants
        };
        Self::new(max_copies, bits, extra)
    }

    /// Length of the list being accessed.
    pub fn vec_size(&self) -> (r: usize)
        requires
            pow2(self.bits as nat) <= usize::MAX,
        ensures
            r == pow2(self.bits as nat),
    {
        two_pow(self.bits)
    }

    /// Where the wires and constraints of a copy lie.
    pub proof fn lemma_copy(self, copy: int)
        requires
            self.wf(),
            0 <= copy < self.num_copies,
        ensures
            0 <= self.stride() * copy,
            self.stride() * copy + self.stride() <= self.routed() <= usize::MAX,
            0 <= copy * self.bits,
            copy * self.bits + self.bits <= self.num_copies * self.bits,
            self.routed() + self.num_copies * self.bits <= usize::MAX,
            0 <= copy * (self.bits + 2),
            copy * (self.bits + 2) + self.bits + 2 <= self.copy_constraints(),
            self.copy_constraints() + self.num_extra_constants <= usize::MAX,
            pow2(self.bits as nat) <= usize::MAX,
    {
        let (s, c, n, b) = (
            self.stride(),
            copy,
            self.num_copies as int,
            self.bits as int,
        );
        lemma_pow2_pos(self.bits as nat);
        assert(0 <= s * c && s * c + s <= s * n) by (nonlinear_arith)
            requires
                0 <= c,
                c + 1 <= n,
                0 <= s,
        ;
        assert(0 <= c * b && c * b + b <= n * b) by (nonlinear_arith)
            requires
                0 <= c,
                c + 1 <= n,
                0 <= b,
        ;
        assert(0 <= c * (b + 2) && c * (b + 2) + (b + 2) <= n * (b + 2)) by (nonlinear_arith)
            requires
                0 <= c,
                c + 1 <= n,
                0 <= b,
        ;
    }

    /// For each copy, a wire containing the claimed index of the element.
    pub fn wire_access_index(&self, copy: usize) -> (r: usize)
        requires
            self.wf(),
            copy < self.num_copies,
        ensures
            r == self.stride() * copy,
    {
        proof {
            self.lemma_copy(copy as int);
        }
        (2 + self.vec_size()) * copy
    }

    /// For each copy, a wire containing the element claimed to be at the index.
    pub fn wire_claimed_element(&self, copy: usize) -> (r: usize)
        requires
            self.wf(),
            copy < self.num_copies,
        ensures
            r == self.stride() * copy + 1,
    {
        proof {
            self.lemma_copy(copy as int);
        }
        (2 + self.vec_size()) * copy + 1
    }

    /// For each copy, wires containing the entire list.
    pub fn wire_list_item(&self, i: usize, copy: usize) -> (r: usize)
        requires
            self.wf(),
            i < pow2(self.bits as nat),
            copy < self.num_copies,
        ensures
            r == self.stride() * copy + 2 + i,
    {
        proof {
            self.lemma_copy(copy as int);
        }
        (2 + self.vec_size()) * copy + 2 + i
    }

    /// The first of the wires for constants.
    pub fn start_extra_constants(&self) -> (r: usize)
        requires
            self.wf(),
        ensures
            r == self.stride() * self.num_copies,
    {
        proof {
            self.lemma_sizes();
        }
        (2 + self.vec_size()) * self.num_copies
    }

    /// The sizes of a gate fit the machine.
    pub proof fn lemma_sizes(self)
        requires
            self.wf(),
        ensures
            pow2(self.bits as nat) <= usize::MAX - 2,
            0 <= self.stride() * self.num_copies <= self.routed(),
            0 <= self.num_copies * self.bits,
            self.routed() + self.num_copies * self.bits <= usize::MAX,
            0 <= self.copy_constraints(),
            self.copy_constraints() + self.num_extra_constants <= usize::MAX,
    {
        let (s, n, b) = (self.stride(), self.num_copies as int, self.bits as int);
        lemma_pow2_pos(self.bits as nat);
        assert(0 <= s * n && 0 <= n * b && 0 <= n * (b + 2)) by (nonlinear_arith)
            requires
                0 <= s,
                0 <= n,
                0 <= b,
        ;
    }

    /// The wire of constant `i`.
    pub fn wire_extra_constant(&self, i: usize) -> (r: usize)
        requires
            self.wf(),
            i < self.num_extra_constants,
        ensures
            r == self.stride() * self.num_copies + i,
    {
        proof {
            self.lemma_sizes();
        }
        self.start_extra_constants() + i
    }

    /// All above wires are routed.
    pub fn num_routed_wires(&self) -> (r: usize)
        requires
            self.wf(),
        ensures
            r == self.routed(),
    {
        proof {
            self.lemma_sizes();
        }
        self.start_extra_constants() + self.num_extra_constants
    }

    /// An intermediate wire where the prover gives the (purported) binary decomposition of the
    /// index.
    pub fn wire_bit(&self, i: usize, copy: usize) -> (r: usize)
        requires
            self.wf(),
            i < self.bits,
            copy < self.num_copies,
        ensures
            r == self.bit_wire(i as int, copy as int),
            r < self.wire_count(),
    {
        proof {
            self.lemma_copy(copy as int);
            self.lemma_sizes();
        }
        self.num_routed_wires() + copy * self.bits + i
    }

    /// The degree of the constraints.
    pub fn degree(&self) -> (r: usize)
        requires
            self.bits < usize::MAX,
        ensures
            r == self.bits + 1,
    {
        self.bits + 1
    }

    /// The constants and the wires that hold them.
    pub fn extra_constant_wires(&self) -> (r: Vec<(usize, usize)>)
        requires
            self.wf(),
        ensures
            r@.len() == self.num_extra_constants,
            forall|i: int|
                0 <= i < r@.len() ==> #[trigger] r@[i] == (
                    i as usize,
                    (self.stride() * self.num_copies + i) as usize,
                ),
    {
        let mut r: Vec<(usize, usize)> = Vec::with_capacity(self.num_extra_constants);
        while r.len() < self.num_extra_constants
            invariant
                self.wf(),
                r@.len() <= self.num_extra_constants,
                forall|i: int|
                    0 <= i < r@.len() ==> #[trigger] r@[i] == (
                        i as usize,
                        (self.stride() * self.num_copies + i) as usize,
                    ),
            decreases self.num_extra_constants - r@.len(),
        {
            let i: usize = r.len();
            r.push((i, self.wire_extra_constant(i)));
        }
        r
    }

    /// The generators of a row: one for each copy.
    pub fn generators(&self, row: usize) -> (r: Vec<RandomAccessGenerator>)
        ensures
            r@.len() == self.num_copies,
            forall|i: int|
                0 <= i < r@.len() ==> #[trigger] r@[i] == (RandomAccessGenerator {
                    row,
                    gate: *self,
                    copy: i as usize,
                }),
    {
        let mut r: Vec<RandomAccessGenerator> = Vec::with_capacity(self.num_copies);
        while r.len() < self.num_copies
            invariant
                r@.len() <= self.num_copies,
                forall|i: int|
                    0 <= i < r@.len() ==> #[trigger] r@[i] == (RandomAccessGenerator {
                        row,
                        gate: *self,
                        copy: i as usize,
                    }),
            decreases self.num_copies - r@.len(),
        {
            let copy: usize = r.len();
            r.push(RandomAccessGenerator { row, gate: *self, copy });
        }
        r
    }
}

/// One of `x` and `y`, or what lies between them, as `b` says.
pub open spec fn choose_by(b: Elt, x: Elt, y: Elt) -> Elt {
    x + b * (y - x)
}

/// Half as many items: one of each pair.
pub open spec fn fold_pairs(items: Seq<Elt>, b: Elt) -> Seq<Elt> {
    Seq::new(items.len() / 2, |k: int| choose_by(b, items[2 * k], items[2 * k + 1]))
}

/// The items after the pairs have been folded by the first `n` bits in turn.
pub open spec fn fold_items(items: Seq<Elt>, bits: Seq<Elt>, n: nat) -> Seq<Elt>
    decreases n,
{
    if n == 0 {
        items
    } else {
        fold_pairs(fold_items(items, bits, (n - 1) as nat), bits[n - 1])
    }
}

/// The number with the binary digits from `i` on, lowest first.
pub open spec fn digits_value(bits: Seq<Elt>, i: int) -> Elt
    decreases bits.len() - i,
{
    if i >= bits.len() {
        elt0()
    } else {
        let rest = digits_value(bits, i + 1);
        (rest + rest) + bits[i]
    }
}

impl RandomAccessGate {
    /// The list of a copy.
    pub open spec fn items(self, w: Seq<Elt>, copy: int) -> Seq<Elt> {
        w.subrange(self.stride() * copy + 2, self.stride() * copy + self.stride())
    }

    /// The bits of the index of a copy.
    pub open spec fn digits(self, w: Seq<Elt>, copy: int) -> Seq<Elt> {
        w.subrange(self.bit_wire(0, copy), self.bit_wire(self.bits as int, copy))
    }

    /// Constraint `j` of a copy: each bit is zero or one, the bits give the index, and the item
    /// that they select is the claimed element.
    pub open spec fn copy_constraint(self, w: Seq<Elt>, copy: int, j: int) -> Elt {
        let digits = self.digits(w, copy);
        if j < self.bits {
            digits[j] * (digits[j] - elt1())
        } else if j == self.bits {
            digits_value(digits, 0) - w[self.stride() * copy]
        } else {
            fold_items(self.items(w, copy), digits, self.bits as nat)[0] - w[self.stride() * copy
                + 1]
        }
    }

    /// Constraint `k`: those of the copies in turn, and then those of the constants.
    pub open spec fn constraint(self, w: Seq<Elt>, c: Seq<Elt>, k: int) -> Elt {
        if k < self.copy_constraints() {
            self.copy_constraint(w, k / (self.bits + 2), k % (self.bits + 2))
        } else {
            let i = k - self.copy_constraints();
            c[i] - w[self.stride() * self.num_copies + i]
        }
    }
}

/// Folding halves the number of items.
pub proof fn lemma_fold_len(items: Seq<Elt>, bits: Seq<Elt>, n: nat, k: nat)
    requires
        items.len() == pow2(k),
        n <= k,
    ensures
        fold_items(items, bits, n).len() == pow2((k - n) as nat),
    decreases n,
{
    if n > 0 {
        let m = (n - 1) as nat;
        lemma_fold_len(items, bits, m, k);
        lemma_pow2_double((k - n) as nat);
        assert((k - m) as nat == (k - n) as nat + 1);
    }
}

/// Folds the pairs of a list by one bit.
fn fold_list<T: Poseidon2>(items: &Vec<T>, b: T) -> (r: Vec<T>)
    requires
        items@.len() % 2 == 0,
    ensures
        r@.len() == items@.len() / 2,
        forall|l: int|
            0 <= l < T::points() ==> #[trigger] at_point(r@, l) == fold_pairs(
                at_point(items@, l),
                b.at(l),
            ),
{
    let n: usize = items.len();
    let half: usize = n / 2;
    let mut r: Vec<T> = Vec::with_capacity(half);
    while r.len() < half
        invariant
            r@.len() <= half,
            n == items@.len() == 2 * half,
            forall|k: int, l: int|
                0 <= k < r@.len() && 0 <= l < T::points() ==> #[trigger] r@[k].at(l) == choose_by(
                    b.at(l),
                    items@[2 * k].at(l),
                    items@[2 * k + 1].at(l),
                ),
        decreases half - r@.len(),
    {
        let k: usize = r.len();
        let x = items[2 * k];
        let y = items[2 * k + 1];
        r.push(x.plus(b.times(y.minus(x))));
    }
    proof {
        assert forall|l: int| 0 <= l < T::points() implies #[trigger] at_point(r@, l) == fold_pairs(
            at_point(items@, l),
            b.at(l),
        ) by {
            assert(at_point(r@, l) =~= fold_pairs(at_point(items@, l), b.at(l)));
        }
    }
    r
}

/// The number that some digits give.
fn digits_sum<T: Poseidon2>(bits: &[T]) -> (r: T)
    ensures
        forall|l: int|
            0 <= l < T::points() ==> #[trigger] r.at(l) == digits_value(at_point(bits@, l), 0),
{
    let mut acc = T::constant(0);
    let mut i: usize = bits.len();
    proof {
        assert(base(0) == elt0());
    }
    while i > 0
        invariant
            i <= bits@.len(),
            forall|l: int|
                0 <= l < T::points() ==> #[trigger] acc.at(l) == digits_value(
                    at_point(bits@, l),
                    i as int,
                ),
        decreases i,
    {
        i = i - 1;
        let next = acc.plus(acc).plus(bits[i]);
        proof {
            assert forall|l: int| 0 <= l < T::points() implies #[trigger] next.at(l)
                == digits_value(at_point(bits@, l), i as int) by {
                assert(acc.at(l) == digits_value(at_point(bits@, l), i + 1));
            }
        }
        acc = next;
    }
    acc
}

/// The index of constraint `j` of a copy.
pub proof fn lemma_constraint_index(gate: RandomAccessGate, copy: int, j: int)
    requires
        gate.wf(),
        0 <= copy < gate.num_copies,
        0 <= j < gate.bits + 2,
    ensures
        0 <= copy * (gate.bits + 2) + j < gate.copy_constraints(),
        (copy * (gate.bits + 2) + j) / (gate.bits + 2) == copy,
        (copy * (gate.bits + 2) + j) % (gate.bits + 2) == j,
{
    gate.lemma_copy(copy);
    vstd::arithmetic::div_mod::lemma_fundamental_div_mod_converse(
        copy * (gate.bits + 2) + j,
        gate.bits + 2,
        copy,
        j,
    );
}

/// The constraints so far are the first ones.
spec fn first_constraints<T: GateValue>(
    gate: RandomAccessGate,
    wires: Seq<T>,
    constants: Seq<T>,
    r: Seq<T>,
) -> bool {
    forall|k: int, l: int|
        0 <= k < r.len() && 0 <= l < T::points() ==> #[trigger] r[k].at(l) == gate.constraint(
            at_point(wires, l),
            at_point(constants, l),
            k,
        )
}

/// A part of a slice of values.
fn copy_part<T: Copy>(v: &[T], start: usize, len: usize) -> (r: Vec<T>)
    requires
        start + len <= v@.len(),
    ensures
        r@ == v@.subrange(start as int, start + len),
{
    let n: usize = v.len();
    let mut r: Vec<T> = Vec::with_capacity(len);
    while r.len() < len
        invariant
            r@.len() <= len,
            start + len <= n == v@.len(),
            r@ == v@.subrange(start as int, start + r@.len()),
        decreases len - r@.len(),
    {
        let i: usize = r.len();
        r.push(v[start + i]);
        assert(r@ =~= v@.subrange(start as int, start + r@.len()));
    }
    r
}

/// Appends the constraints of one copy.
fn eval_copy<T: Poseidon2>(
    gate: &RandomAccessGate,
    wires: &[T],
    constants: &[T],
    copy: usize,
    r: &mut Vec<T>,
)
    requires
        gate.wf(),
        wires@.len() >= gate.wire_count(),
        copy < gate.num_copies,
        old(r)@.len() == copy * (gate.bits + 2),
        first_constraints(*gate, wires@, constants@, old(r)@),
    ensures
        final(r)@.len() == (copy + 1) * (gate.bits + 2),
        first_constraints(*gate, wires@, constants@, final(r)@),
{
    let ghost g = *gate;
    proof {
        g.lemma_copy(copy as int);
        g.lemma_sizes();
        assert((copy + 1) * (g.bits + 2) == copy * (g.bits + 2) + (g.bits + 2))
            by (nonlinear_arith);
    }
    let bits: usize = gate.bits;
    let bit_start: usize = gate.num_routed_wires() + copy * bits;
    let access_index = wires[gate.wire_access_index(copy)];
    let claimed_element = wires[gate.wire_claimed_element(copy)];
    let item_start: usize = gate.wire_access_index(copy) + 2;
    let vec_size: usize = gate.vec_size();
    let mut list_items = copy_part(wires, item_start, vec_size);
    let digits = copy_part(wires, bit_start, bits);
    proof {
        assert forall|l: int| 0 <= l < T::points() implies #[trigger] at_point(digits@, l)
            == g.digits(at_point(wires@, l), copy as int) by {
            assert(at_point(digits@, l) =~= g.digits(at_point(wires@, l), copy as int));
        }
        assert forall|l: int| 0 <= l < T::points() implies #[trigger] at_point(list_items@, l)
            == g.items(at_point(wires@, l), copy as int) by {
            assert(at_point(list_items@, l) =~= g.items(at_point(wires@, l), copy as int));
        }
    }
    let one = T::constant(1);
    let ghost start = r@.len();
    let mut i: usize = 0;
    while i < bits
        invariant
            i <= bits == gate.bits == digits@.len(),
            g == *gate,
            g.wf(),
            copy < g.num_copies,
            start == copy * (g.bits + 2),
            r@.len() == start + i,
            forall|l: int| 0 <= l < T::points() ==> #[trigger] one.at(l) == elt1(),
            forall|l: int|
                0 <= l < T::points() ==> #[trigger] at_point(digits@, l) == g.digits(
                    at_point(wires@, l),
                    copy as int,
                ),
            first_constraints(g, wires@, constants@, r@),
        decreases bits - i,
    {
        let b = digits[i];
        let ghost r0 = r@;
        r.push(b.times(b.minus(one)));
        proof {
            lemma_constraint_index(g, copy as int, i as int);
            assert forall|k: int, l: int|
                0 <= k < r@.len() && 0 <= l < T::points() implies #[trigger] r@[k].at(l)
                == g.constraint(at_point(wires@, l), at_point(constants@, l), k) by {
                if k < r0.len() {
                    assert(r@[k] == r0[k]);
                } else {
                    assert(at_point(digits@, l)[i as int] == b.at(l));
                    assert(one.at(l) == elt1());
                }
            }
        }
        i = i + 1;
    }
    let reconstructed_index = digits_sum(digits.as_slice());
    let ghost r0 = r@;
    r.push(reconstructed_index.minus(access_index));
    proof {
        lemma_constraint_index(g, copy as int, bits as int);
        assert forall|k: int, l: int|
            0 <= k < r@.len() && 0 <= l < T::points() implies #[trigger] r@[k].at(l)
            == g.constraint(at_point(wires@, l), at_point(constants@, l), k) by {
            if k < r0.len() {
                assert(r@[k] == r0[k]);
            } else {
                assert(reconstructed_index.at(l) == digits_value(at_point(digits@, l), 0));
                assert(at_point(digits@, l) == g.digits(at_point(wires@, l), copy as int));
            }
        }
    }
    let ghost items0 = list_items@;
    i = 0;
    while i < bits
        invariant
            i <= bits == digits@.len(),
            items0.len() == pow2(bits as nat),
            list_items@.len() == pow2((bits - i) as nat),
            forall|l: int|
                0 <= l < T::points() ==> #[trigger] at_point(list_items@, l) == fold_items(
                    at_point(items0, l),
                    at_point(digits@, l),
                    i as nat,
                ),
        decreases bits - i,
    {
        proof {
            lemma_pow2_double((bits - i - 1) as nat);
        }
        let b = digits[i];
        let next = fold_list(&list_items, b);
        proof {
            assert forall|l: int| 0 <= l < T::points() implies #[trigger] at_point(next@, l)
                == fold_items(at_point(items0, l), at_point(digits@, l), (i + 1) as nat) by {
                assert(at_point(list_items@, l) == fold_items(
                    at_point(items0, l),
                    at_point(digits@, l),
                    i as nat,
                ));
                assert(at_point(digits@, l)[i as int] == b.at(l));
            }
        }
        list_items = next;
        i = i + 1;
    }
    proof {
        lemma_pow2_basics();
    }
    let ghost r0 = r@;
    r.push(list_items[0].minus(claimed_element));
    proof {
        lemma_constraint_index(g, copy as int, bits + 1);
        assert forall|k: int, l: int|
            0 <= k < r@.len() && 0 <= l < T::points() implies #[trigger] r@[k].at(l)
            == g.constraint(at_point(wires@, l), at_point(constants@, l), k) by {
            if k < r0.len() {
                assert(r@[k] == r0[k]);
            } else {
                assert(at_point(list_items@, l)[0] == list_items@[0].at(l));
                assert(at_point(items0, l) == g.items(at_point(wires@, l), copy as int));
                assert(at_point(digits@, l) == g.digits(at_point(wires@, l), copy as int));
            }
        }
    }
}

impl Gate for RandomAccessGate {
    open spec fn wf(self) -> bool {
        &&& pow2(self.bits as nat) + 2 <= usize::MAX
        &&& self.bits + 2 <= usize::MAX
        &&& self.routed() + self.num_copies * self.bits <= usize::MAX
        &&& self.copy_constraints() + self.num_extra_constants <= usize::MAX
    }

    open spec fn wire_count(self) -> nat {
        (self.routed() + self.num_copies * self.bits) as nat
    }

    open spec fn constant_count(self) -> nat {
        self.num_extra_constants as nat
    }

    open spec fn constraint_count(self) -> nat {
        (self.copy_constraints() + self.num_extra_constants) as nat
    }

    open spec fn constraints(self, wires: Seq<Elt>, constants: Seq<Elt>) -> Seq<Elt> {
        Seq::new(self.constraint_count(), |k: int| self.constraint(wires, constants, k))
    }

    proof fn lemma_counts(self, wires: Seq<Elt>, constants: Seq<Elt>) {
        self.lemma_sizes();
        assert(self.constraints(wires, constants).len() == self.constraint_count());
        assert(self.constraint_count() == self.copy_constraints() + self.num_extra_constants);
        assert(self.constant_count() == self.num_extra_constants);
        assert(self.wire_count() == self.routed() + self.num_copies * self.bits);
    }

    proof fn lemma_prefix(self, wires: Seq<Elt>, constants: Seq<Elt>) {
        self.lemma_sizes();
        assert(self.constraint_count() == self.copy_constraints() + self.num_extra_constants);
        assert(self.constant_count() == self.num_extra_constants);
        assert(self.wire_count() == self.routed() + self.num_copies * self.bits);
        let (w, c) = (
            wires.take(self.wire_count() as int),
            constants.take(self.constant_count() as int),
        );
        assert forall|k: int| 0 <= k < self.constraint_count() implies self.constraint(
            wires,
            constants,
            k,
        ) == #[trigger] self.constraint(w, c, k) by {
            if k < self.copy_constraints() {
                let copy = k / (self.bits + 2);
                lemma_flat_split(k, self.bits + 2, self.num_copies as int);
                self.lemma_copy(copy);
                assert(self.digits(wires, copy) =~= self.digits(w, copy));
                assert(self.items(wires, copy) =~= self.items(w, copy));
            }
        }
        assert(self.constraints(wires, constants) =~= self.constraints(w, c));
    }

    fn num_wires(&self) -> (r: usize)
        ensures
            r == self.wire_count(),
    {
        proof {
            self.lemma_sizes();
        }
        self.num_routed_wires() + self.num_copies * self.bits
    }

    fn num_constants(&self) -> (r: usize)
        ensures
            r == self.constant_count(),
    {
        self.num_extra_constants
    }

    fn num_constraints(&self) -> (r: usize)
        ensures
            r == self.constraint_count(),
    {
        proof {
            self.lemma_sizes();
            assert(self.wf());
        }
        let constraints_per_copy: usize = self.bits + 2;
        self.num_copies * constraints_per_copy + self.num_extra_constants
    }

    fn eval<T: Poseidon2>(&self, wires: &[T], constants: &[T]) -> (r: Vec<T>) {
        let ghost g = *self;
        proof {
            g.lemma_sizes();
            assert(g.wf());
            assert(g.constraint_count() == g.copy_constraints() + g.num_extra_constants);
            assert(g.constant_count() == g.num_extra_constants);
            assert(g.wire_count() == g.routed() + g.num_copies * g.bits);
            assert(0 * (g.bits + 2) == 0);
        }
        let mut r: Vec<T> = Vec::new();
        let mut copy: usize = 0;
        while copy < self.num_copies
            invariant
                copy <= self.num_copies,
                g == *self,
                g.wf(),
                wires@.len() >= g.wire_count(),
                r@.len() == copy * (g.bits + 2),
                first_constraints(g, wires@, constants@, r@),
            decreases self.num_copies - copy,
        {
            eval_copy(self, wires, constants, copy, &mut r);
            copy = copy + 1;
        }
        let ghost start = r@.len() as int;
        let mut i: usize = 0;
        while i < self.num_extra_constants
            invariant
                i <= self.num_extra_constants,
                g == *self,
                g.wf(),
                wires@.len() >= g.wire_count(),
                constants@.len() >= g.num_extra_constants,
                start == g.copy_constraints(),
                r@.len() == start + i,
                first_constraints(g, wires@, constants@, r@),
            decreases self.num_extra_constants - i,
        {
            proof {
                g.lemma_sizes();
            }
            let ghost r0 = r@;
            let wire = wires[self.wire_extra_constant(i)];
            r.push(constants[i].minus(wire));
            proof {
                assert forall|k: int, l: int|
                    0 <= k < r@.len() && 0 <= l < T::points() implies #[trigger] r@[k].at(l)
                    == g.constraint(at_point(wires@, l), at_point(constants@, l), k) by {
                    if k < r0.len() {
                        assert(r@[k] == r0[k]);
                    }
                }
            }
            i = i + 1;
        }
        proof {
            assert forall|l: int| 0 <= l < T::points() implies #[trigger] at_point(r@, l)
                == self.constraints(at_point(wires@, l), at_point(constants@, l)) by {
                let target = self.constraints(at_point(wires@, l), at_point(constants@, l));
                assert forall|k: int| 0 <= k < r@.len() implies at_point(r@, l)[k]
                    == #[trigger] target[k] by {
                    assert(r@[k].at(l) == g.constraint(
                        at_point(wires@, l),
                        at_point(constants@, l),
                        k,
                    ));
                }
                assert(at_point(r@, l) =~= target);
            }
        }
        r
    }
}

/// The generator of the claimed element and the bits of the index of one copy.
#[derive(Clone, Copy, Debug)]
pub struct RandomAccessGenerator {
    pub row: usize,
    pub gate: RandomAccessGate,
    pub copy: usize,
}

/// Binary digit `i` of `n`.
pub open spec fn digit(n: nat, i: nat) -> nat {
    ((n as int / pow2(i) as int) % 2) as nat
}

impl RandomAccessGenerator {
    /// The copy exists.
    pub open spec fn wf(self) -> bool {
        self.gate.wf() && self.copy < self.gate.num_copies
    }

    /// The targets that have to be known first: the index and the list.
    pub fn dependencies(&self) -> (r: Vec<Target>)
        requires
            self.wf(),
        ensures
            r@.len() == 1 + pow2(self.gate.bits as nat),
            r@[0] == (Target::Wire {
                row: self.row,
                column: (self.gate.stride() * self.copy) as usize,
            }),
            forall|i: int|
                1 <= i < r@.len() ==> #[trigger] r@[i] == (Target::Wire {
                    row: self.row,
                    column: (self.gate.stride() * self.copy + 2 + (i - 1)) as usize,
                }),
    {
        proof {
            self.gate.lemma_copy(self.copy as int);
        }
        let vec_size: usize = self.gate.vec_size();
        let mut r: Vec<Target> = Vec::new();
        r.push(Target::wire(self.row, self.gate.wire_access_index(self.copy)));
        let mut i: usize = 0;
        while i < vec_size
            invariant
                self.wf(),
                i <= vec_size == pow2(self.gate.bits as nat),
                r@.len() == 1 + i,
                r@[0] == (Target::Wire {
                    row: self.row,
                    column: (self.gate.stride() * self.copy) as usize,
                }),
                forall|j: int|
                    1 <= j < r@.len() ==> #[trigger] r@[j] == (Target::Wire {
                        row: self.row,
                        column: (self.gate.stride() * self.copy + 2 + (j - 1)) as usize,
                    }),
            decreases vec_size - i,
        {
            r.push(Target::wire(self.row, self.gate.wire_list_item(i, self.copy)));
            i = i + 1;
        }
        r
    }

    /// The generated values for the given index and element.
    pub open spec fn values(self, index: nat, element: GoldilocksField) -> Seq<
        (Target, GoldilocksField),
    > {
        Seq::new(
            (1 + self.gate.bits) as nat,
            |j: int|
                if j == 0 {
                    (
                        Target::Wire {
                            row: self.row,
                            column: (self.gate.stride() * self.copy + 1) as usize,
                        },
                        element,
                    )
                } else {
                    (
                        Target::Wire {
                            row: self.row,
                            column: self.gate.bit_wire(j - 1, self.copy as int) as usize,
                        },
                        GoldilocksField(digit(index, (j - 1) as nat) as u64),
                    )
                },
        )
    }

    /// Computes the claimed element and the bits of the index.
    pub fn run_once(&self, witness: &PartitionWitness, out_buffer: &mut GeneratedValues)
        requires
            self.wf(),
            forall|c: int|
                0 <= c < self.gate.routed() ==> #[trigger] witness.has(self.row as int, c),
            witness.value(self.row as int, self.gate.stride() * self.copy).v().re < pow2(
                self.gate.bits as nat,
            ),
        ensures
            ({
                let index = witness.value(self.row as int, self.gate.stride() * self.copy).v().re;
                let element = witness.value(
                    self.row as int,
                    self.gate.stride() * self.copy + 2 + index,
                );
                final(out_buffer).target_values@ == old(out_buffer).target_values@ + self.values(
                    index as nat,
                    element,
                )
            }),
    {
        let ghost g = self.gate;
        let ghost before = out_buffer.target_values@;
        proof {
            g.lemma_copy(self.copy as int);
            g.lemma_sizes();
            lemma_pow2_basics();
            assert(witness.has(self.row as int, g.stride() * self.copy));
        }
        let copy: usize = self.copy;
        let access_index_f = witness.get_wire(self.row, self.gate.wire_access_index(copy));
        let access_index: usize = access_index_f.to_canonical_u64() as usize;
        let ghost index = access_index_f.v().re as nat;
        proof {
            assert(access_index == index);
            assert(witness.has(self.row as int, g.stride() * copy + 2 + index));
        }
        let element = witness.get_wire(
            self.row,
            self.gate.wire_list_item(access_index, copy),
        );
        out_buffer.set_target(
            Target::wire(self.row, self.gate.wire_claimed_element(copy)),
            element,
        );
        let ghost all = self.values(index, element);
        proof {
            assert(out_buffer.target_values@ =~= before + all.take(1));
            assert(index as int / 1 == index);
        }
        let bits: usize = self.gate.bits;
        let mut rest: usize = access_index;
        let mut i: usize = 0;
        while i < bits
            invariant
                i <= bits == self.gate.bits,
                self.wf(),
                g == self.gate,
                copy == self.copy,
                all == self.values(index, element),
                rest == index as int / pow2(i as nat) as int,
                out_buffer.target_values@ == before + all.take(1 + i),
            decreases bits - i,
        {
            let bit = GoldilocksField((rest % 2) as u64);
            out_buffer.set_target(Target::wire(self.row, self.gate.wire_bit(i, copy)), bit);
            proof {
                assert(digit(index, i as nat) == rest % 2);
                assert(out_buffer.target_values@ =~= before + all.take(1 + i + 1));
                lemma_pow2_double(i as nat);
                vstd::arithmetic::div_mod::lemma_div_denominator(
                    index as int,
                    pow2(i as nat) as int,
                    2,
                );
            }
            rest = rest / 2;
            i = i + 1;
        }
        assert(all.take(1 + bits) =~= all);
    }
}

} // verus!
