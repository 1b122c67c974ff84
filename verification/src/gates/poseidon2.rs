//! A gate for a whole Poseidon2 permutation over a state of width 12.

use crate::field::model::{Elt, base, elt1};
use crate::gates::gate::Gate;
use crate::gates::value::GateValue;
use crate::hash::poseidon2::config::{INTERNAL_CONSTANTS, ROUNDS_F, ROUNDS_F_HALF, ROUNDS_P, WIDTH};
use crate::hash::poseidon2::layers::{
    add_constants, at_point, external_layer, internal_layer, sbox, sbox_layer,
};
use crate::hash::poseidon2::permutation::Poseidon2;
use vstd::prelude::*;

verus! {

/// Evaluates a full Poseidon2 permutation with 12 state elements.
///
/// It has a flag which can be used to swap the first four inputs with the next four, for ordering
/// sibling digests.
#[derive(Clone, Copy, Debug)]
pub struct Poseidon2Gate;

/// If this wire is set to 1, the first four inputs will be swapped with the next four inputs.
/// Otherwise, it should be set to 0.
pub const WIRE_SWAP: usize = 24;

/// The first of the wires that hold `swap * (input[i + 4] - input[i])`.
pub const START_DELTA: usize = 25;

/// The first of the wires that hold the inputs of the substitutions of the first full rounds.
pub const START_ROUND_F_BEGIN: usize = 29;

/// The first of the wires that hold the inputs of the substitutions of the partial rounds.
pub const START_PARTIAL: usize = 65;

/// The first of the wires that hold the inputs of the substitutions of the last full rounds.
pub const START_ROUND_F_END: usize = 87;

impl Poseidon2Gate {
    /// A gate of this kind.
    pub fn new() -> (r: Self)
        ensures
            r.wf(),
    {
        assert(Poseidon2Gate.wf());
        Poseidon2Gate
    }

    /// The wire index for the `i`th input to the permutation.
    pub fn wire_input(i: usize) -> (r: usize)
        ensures
            r == i,
    {
        i
    }

    /// The wire index for the `i`th output to the permutation.
    pub fn wire_output(i: usize) -> (r: usize)
        requires
            12 + i <= usize::MAX,
        ensures
            r == 12 + i,
    {
        WIDTH + i
    }

    /// A wire which stores `swap * (input[i + 4] - input[i])`.
    pub fn wire_delta(i: usize) -> (r: usize)
        requires
            i < 4,
        ensures
            r == 25 + i,
    {
        START_DELTA + i
    }

    /// A wire which stores the input of the `i`-th S-box of the `round`-th round of the first set
    /// of full rounds. The first round's inputs are not stored.
    pub fn wire_full_sbox_0(round: usize, i: usize) -> (r: usize)
        requires
            0 < round < 4,
            i < 12,
        ensures
            r == 29 + 12 * (round - 1) + i,
    {
        START_ROUND_F_BEGIN + WIDTH * (round - 1) + i
    }

    /// A wire which stores the input of the S-box of the `round`-th round of the partial rounds.
    pub fn wire_partial_sbox(round: usize) -> (r: usize)
        requires
            round < 22,
        ensures
            r == 65 + round,
    {
        START_PARTIAL + round
    }

    /// A wire which stores the input of the `i`-th S-box of the `round`-th round of the second set
    /// of full rounds.
    pub fn wire_full_sbox_1(round: usize, i: usize) -> (r: usize)
        requires
            round < 4,
            i < 12,
        ensures
            r == 87 + 12 * round + i,
    {
        START_ROUND_F_END + WIDTH * round + i
    }

    /// End of wire indices, exclusive.
    pub fn end() -> (r: usize)
        ensures
            r == 135,
    {
        START_ROUND_F_END + WIDTH * ROUNDS_F_HALF
    }

    /// The degree of the constraints.
    pub fn degree(&self) -> (r: usize)
        ensures
            r == 7,
    {
        7
    }
}

/// Twelve consecutive wires.
pub open spec fn twelve(w: Seq<Elt>, start: int) -> Seq<Elt> {
    w.subrange(start, start + 12)
}

/// The inputs after the swap that the delta wires describe.
pub open spec fn swapped_inputs(w: Seq<Elt>) -> Seq<Elt> {
    Seq::new(
        12,
        |i: int|
            if i < 4 {
                w[i] + w[25 + i]
            } else if i < 8 {
                w[i] - w[25 + i - 4]
            } else {
                w[i]
            },
    )
}

/// The state at the start of round `r` of the first full rounds.
pub open spec fn first_state(w: Seq<Elt>, r: int) -> Seq<Elt> {
    let start = external_layer(swapped_inputs(w));
    if r <= 0 {
        start
    } else if r == 1 {
        external_layer(sbox_layer(add_constants(start, 0)))
    } else {
        external_layer(sbox_layer(twelve(w, 29 + 12 * (r - 2))))
    }
}

/// The state at the start of partial round `r`.
pub open spec fn partial_state(w: Seq<Elt>, r: nat) -> Seq<Elt>
    decreases r,
{
    if r == 0 {
        first_state(w, 4)
    } else {
        internal_layer(partial_state(w, (r - 1) as nat).update(0, sbox(w[65 + r - 1])))
    }
}

/// The state at the start of round `r` of the last full rounds.
pub open spec fn last_state(w: Seq<Elt>, r: int) -> Seq<Elt> {
    if r <= 0 {
        partial_state(w, 22)
    } else {
        external_layer(sbox_layer(twelve(w, 87 + 12 * (r - 1))))
    }
}

/// Constraint `k`: the swap flag is zero or one, the delta wires are right, and each wire that
/// holds an input of a substitution or an output holds what the wires before it give.
pub open spec fn poseidon2_constraint(w: Seq<Elt>, k: int) -> Elt {
    let swap = w[24];
    if k == 0 {
        swap * (swap - elt1())
    } else if k < 5 {
        swap * (w[k - 1 + 4] - w[k - 1]) - w[25 + (k - 1)]
    } else if k < 41 {
        let r = 1 + (k - 5) / 12;
        add_constants(first_state(w, r), r)[(k - 5) % 12] - w[29 + (k - 5)]
    } else if k < 63 {
        let r = k - 41;
        (partial_state(w, r as nat)[0] + base(INTERNAL_CONSTANTS[r] as int)) - w[65 + r]
    } else if k < 111 {
        let r = (k - 63) / 12;
        add_constants(last_state(w, r), 4 + r)[(k - 63) % 12] - w[87 + (k - 63)]
    } else {
        last_state(w, 4)[k - 111] - w[12 + (k - 111)]
    }
}

/// The constraints so far are the first ones.
pub open spec fn prefix_done<T: GateValue>(wires: Seq<T>, r: Seq<T>) -> bool {
    forall|k: int, l: int|
        0 <= k < r.len() && 0 <= l < T::points() ==> #[trigger] r[k].at(l) == poseidon2_constraint(
            at_point(wires, l),
            k,
        )
}

/// Constrains twelve wires to the state, and continues with the wires.
fn replace_state<T: Poseidon2>(
    state: &mut [T; 12],
    wires: &[T],
    start: usize,
    constraints: &mut Vec<T>,
)
    requires
        wires@.len() >= 135,
        start + 12 <= 135,
    ensures
        final(state)@ == wires@.subrange(start as int, start + 12),
        final(constraints)@.len() == old(constraints)@.len() + 12,
        forall|k: int|
            0 <= k < old(constraints)@.len() ==> #[trigger] final(constraints)@[k] == old(
                constraints,
            )@[k],
        forall|i: int, l: int|
            0 <= i < 12 && 0 <= l < T::points() ==> (#[trigger] final(constraints)@[old(
                constraints,
            )@.len() + i].at(l)) == old(state)@[i].at(l) - wires@[start + i].at(l),
{
    let ghost before = state@;
    let ghost c0 = constraints@;
    let mut i: usize = 0;
    while i < 12
        invariant
            i <= 12,
            wires@.len() >= 135,
            start + 12 <= 135,
            before.len() == 12,
            constraints@.len() == c0.len() + i,
            forall|k: int| 0 <= k < c0.len() ==> #[trigger] constraints@[k] == c0[k],
            forall|j: int, l: int|
                0 <= j < i && 0 <= l < T::points() ==> (#[trigger] constraints@[c0.len() + j].at(l))
                    == before[j].at(l) - wires@[start + j].at(l),
            forall|j: int| 0 <= j < i ==> #[trigger] state@[j] == wires@[start + j],
            forall|j: int| i <= j < 12 ==> #[trigger] state@[j] == before[j],
        decreases 12 - i,
    {
        let sbox_in = wires[start + i];
        constraints.push(state[i].minus(sbox_in));
        state[i] = sbox_in;
        i = i + 1;
    }
    assert(state@ =~= wires@.subrange(start as int, start + 12));
}

/// The states of the partial rounds only depend on the first wires.
proof fn lemma_partial_state_prefix(a: Seq<Elt>, b: Seq<Elt>, r: nat)
    requires
        r <= 22,
        first_state(a, 4) == first_state(b, 4),
        forall|i: int| 0 <= i < 135 ==> #[trigger] a[i] == b[i],
    ensures
        partial_state(a, r) == partial_state(b, r),
    decreases r,
{
    if r > 0 {
        lemma_partial_state_prefix(a, b, (r - 1) as nat);
        assert(a[65 + r - 1] == b[65 + r - 1]);
    }
}

/// Each constraint only depends on the first wires.
proof fn lemma_constraint_prefix(a: Seq<Elt>, b: Seq<Elt>, k: int)
    requires
        a.len() >= 135,
        b.len() >= 135,
        forall|i: int| 0 <= i < 135 ==> #[trigger] a[i] == b[i],
        0 <= k < 123,
    ensures
        poseidon2_constraint(a, k) == poseidon2_constraint(b, k),
{
    assert(swapped_inputs(a) =~= swapped_inputs(b));
    assert forall|start: int| 0 <= start <= 123 implies #[trigger] twelve(a, start) == twelve(
        b,
        start,
    ) by {
        assert(twelve(a, start) =~= twelve(b, start));
    }
    assert forall|r: int| 0 <= r <= 4 implies #[trigger] first_state(a, r) == first_state(b, r) by {
        if r >= 2 {
            assert(twelve(a, 29 + 12 * (r - 2)) == twelve(b, 29 + 12 * (r - 2)));
        }
    }
    assert(first_state(a, 4) == first_state(b, 4));
    assert forall|r: nat| r <= 22 implies #[trigger] partial_state(a, r) == partial_state(b, r) by {
        lemma_partial_state_prefix(a, b, r);
    }
    assert forall|r: int| 0 <= r <= 4 implies #[trigger] last_state(a, r) == last_state(b, r) by {
        if r >= 1 {
            assert(twelve(a, 87 + 12 * (r - 1)) == twelve(b, 87 + 12 * (r - 1)));
        } else {
            assert(partial_state(a, 22) == partial_state(b, 22));
        }
    }
}

impl Gate for Poseidon2Gate {
    open spec fn wf(self) -> bool {
        true
    }

    open spec fn wire_count(self) -> nat {
        135
    }

    open spec fn constant_count(self) -> nat {
        0
    }

    open spec fn constraint_count(self) -> nat {
        123
    }

    open spec fn constraints(self, wires: Seq<Elt>, constants: Seq<Elt>) -> Seq<Elt> {
        Seq::new(123, |k: int| poseidon2_constraint(wires, k))
    }

    proof fn lemma_counts(self, wires: Seq<Elt>, constants: Seq<Elt>) {
        assert(self.constraints(wires, constants).len() == 123);
        assert(self.constraint_count() == 123);
        assert(self.constant_count() == 0);
        assert(self.wire_count() == 135);
    }

    proof fn lemma_prefix(self, wires: Seq<Elt>, constants: Seq<Elt>) {
        assert(self.wire_count() == 135);
        let w = wires.take(135);
        assert forall|k: int| 0 <= k < 123 implies poseidon2_constraint(wires, k)
            == #[trigger] poseidon2_constraint(w, k) by {
            lemma_constraint_prefix(wires, w, k);
        }
        assert(self.constraints(wires, constants) =~= self.constraints(
            wires.take(self.wire_count() as int),
            constants.take(self.constant_count() as int),
        ));
    }

    fn num_wires(&self) -> (r: usize)
        ensures
            r == self.wire_count(),
    {
        Self::end()
    }

    fn num_constants(&self) -> (r: usize)
        ensures
            r == self.constant_count(),
    {
        0
    }

    fn num_constraints(&self) -> (r: usize)
        ensures
            r == self.constraint_count(),
    {
        WIDTH * (ROUNDS_F - 1) + ROUNDS_P + WIDTH + 1 + 4
    }

    #[verifier::rlimit(40)]
    fn eval<T: Poseidon2>(&self, wires: &[T], constants: &[T]) -> (r: Vec<T>) {
        assert(self.wire_count() == 135);
        assert(self.constraint_count() == 123);
        let mut r: Vec<T> = Vec::with_capacity(123);
        let swap = wires[WIRE_SWAP];
        let one = T::constant(1);
        r.push(swap.times(swap.minus(one)));
        proof {
            assert(base(1) == elt1());
        }
        let mut i: usize = 0;
        while i < 4
            invariant
                i <= 4,
                wires@.len() >= 135,
                swap == wires@[24],
                r@.len() == 1 + i,
                prefix_done(wires@, r@),
            decreases 4 - i,
        {
            let input_lhs = wires[Self::wire_input(i)];
            let input_rhs = wires[Self::wire_input(i + 4)];
            let delta_i = wires[Self::wire_delta(i)];
            let c = swap.times(input_rhs.minus(input_lhs)).minus(delta_i);
            let ghost r0 = r@;
            r.push(c);
            proof {
                assert forall|k: int, l: int|
                    0 <= k < r@.len() && 0 <= l < T::points() implies #[trigger] r@[k].at(l)
                    == poseidon2_constraint(at_point(wires@, l), k) by {
                    if k < r0.len() {
                        assert(r@[k] == r0[k]);
                    }
                }
            }
            i = i + 1;
        }
        let mut state = swapped_state(wires);
        let ghost s0 = state@;
        T::external_linear_layer(&mut state);
        proof {
            assert forall|l: int| 0 <= l < T::points() implies #[trigger] at_point(state@, l)
                == first_state(at_point(wires@, l), 0) by {
                assert(at_point(s0, l) == swapped_inputs(at_point(wires@, l)));
            }
        }
        let mut round: usize = 0;
        while round < 4
            invariant
                round <= 4,
                wires@.len() >= 135,
                r@.len() == (if round <= 1 {
                    5
                } else {
                    5 + 12 * (round - 1)
                }),
                prefix_done(wires@, r@),
                forall|l: int|
                    0 <= l < T::points() ==> #[trigger] at_point(state@, l) == first_state(
                        at_point(wires@, l),
                        round as int,
                    ),
            decreases 4 - round,
        {
            let ghost s1 = state@;
            T::add_rc(&mut state, round);
            let ghost s2 = state@;
            if round != 0 {
                let ghost r0 = r@;
                let start: usize = Self::wire_full_sbox_0(round, 0);
                replace_state(&mut state, wires, start, &mut r);
                proof {
                    assert forall|k: int, l: int|
                        0 <= k < r@.len() && 0 <= l < T::points() implies #[trigger] r@[k].at(l)
                        == poseidon2_constraint(at_point(wires@, l), k) by {
                        if k < r0.len() {
                            assert(r@[k] == r0[k]);
                        } else {
                            let j = k - r0.len();
                            assert(r@[r0.len() + j].at(l) == s2[j].at(l) - wires@[start + j].at(l));
                            assert(at_point(s2, l) == add_constants(
                                at_point(s1, l),
                                round as int,
                            ));
                            assert(at_point(s2, l)[j] == s2[j].at(l));
                            assert((k - 5) / 12 == round - 1 && (k - 5) % 12 == j);
                        }
                    }
                }
            }
            let ghost s3 = state@;
            T::sbox(&mut state);
            let ghost s4 = state@;
            T::external_linear_layer(&mut state);
            proof {
                assert forall|l: int| 0 <= l < T::points() implies #[trigger] at_point(state@, l)
                    == first_state(at_point(wires@, l), round + 1) by {
                    let w = at_point(wires@, l);
                    assert(at_point(s4, l) == sbox_layer(at_point(s3, l)));
                    assert(at_point(s2, l) == add_constants(at_point(s1, l), round as int));
                    if round != 0 {
                        assert(at_point(s3, l) =~= twelve(w, 29 + 12 * (round - 1)));
                    }
                }
            }
            round = round + 1;
        }
        round = 0;
        while round < 22
            invariant
                round <= 22,
                wires@.len() >= 135,
                r@.len() == 41 + round,
                prefix_done(wires@, r@),
                forall|l: int|
                    0 <= l < T::points() ==> #[trigger] at_point(state@, l) == partial_state(
                        at_point(wires@, l),
                        round as nat,
                    ),
            decreases 22 - round,
        {
            let ghost s1 = state@;
            let ghost r0 = r@;
            let constant = T::constant(INTERNAL_CONSTANTS[round]);
            let sbox_in = wires[Self::wire_partial_sbox(round)];
            let c = state[0].plus(constant).minus(sbox_in);
            r.push(c);
            let substituted = T::sbox_p(sbox_in);
            state[0] = substituted;
            let ghost s2 = state@;
            T::internal_linear_layer(&mut state);
            proof {
                assert forall|k: int, l: int|
                    0 <= k < r@.len() && 0 <= l < T::points() implies #[trigger] r@[k].at(l)
                    == poseidon2_constraint(at_point(wires@, l), k) by {
                    if k < r0.len() {
                        assert(r@[k] == r0[k]);
                    } else {
                        assert(at_point(s1, l)[0] == s1[0].at(l));
                        assert(at_point(s1, l) == partial_state(
                            at_point(wires@, l),
                            round as nat,
                        ));
                    }
                }
                assert forall|l: int| 0 <= l < T::points() implies #[trigger] at_point(state@, l)
                    == partial_state(at_point(wires@, l), (round + 1) as nat) by {
                    let w = at_point(wires@, l);
                    assert(at_point(s1, l) == partial_state(w, round as nat));
                    assert(substituted.at(l) == sbox(w[65 + round]));
                    assert(at_point(s2, l) =~= at_point(s1, l).update(0, sbox(w[65 + round])));
                }
            }
            round = round + 1;
        }
        round = 0;
        while round < 4
            invariant
                round <= 4,
                wires@.len() >= 135,
                r@.len() == 63 + 12 * round,
                prefix_done(wires@, r@),
                forall|l: int|
                    0 <= l < T::points() ==> #[trigger] at_point(state@, l) == last_state(
                        at_point(wires@, l),
                        round as int,
                    ),
            decreases 4 - round,
        {
            let ghost s1 = state@;
            let ghost r0 = r@;
            T::add_rc(&mut state, ROUNDS_F_HALF + round);
            let ghost s2 = state@;
            let start: usize = Self::wire_full_sbox_1(round, 0);
            replace_state(&mut state, wires, start, &mut r);
            proof {
                assert forall|k: int, l: int|
                    0 <= k < r@.len() && 0 <= l < T::points() implies #[trigger] r@[k].at(l)
                    == poseidon2_constraint(at_point(wires@, l), k) by {
                    if k < r0.len() {
                        assert(r@[k] == r0[k]);
                    } else {
                        let j = k - r0.len();
                        assert(r@[r0.len() + j].at(l) == s2[j].at(l) - wires@[start + j].at(l));
                        assert(at_point(s2, l) == add_constants(at_point(s1, l), 4 + round));
                        assert(at_point(s2, l)[j] == s2[j].at(l));
                        assert((k - 63) / 12 == round && (k - 63) % 12 == j);
                    }
                }
            }
            let ghost s3 = state@;
            T::sbox(&mut state);
            let ghost s4 = state@;
            T::external_linear_layer(&mut state);
            proof {
                assert forall|l: int| 0 <= l < T::points() implies #[trigger] at_point(state@, l)
                    == last_state(at_point(wires@, l), round + 1) by {
                    let w = at_point(wires@, l);
                    assert(at_point(s4, l) == sbox_layer(at_point(s3, l)));
                    assert(at_point(s3, l) =~= twelve(w, 87 + 12 * round));
                }
            }
            round = round + 1;
        }
        let ghost r0 = r@;
        let ghost s1 = state@;
        replace_state(&mut state, wires, Self::wire_output(0), &mut r);
        proof {
            assert forall|l: int| 0 <= l < T::points() implies #[trigger] at_point(r@, l)
                == self.constraints(at_point(wires@, l), at_point(constants@, l)) by {
                let w = at_point(wires@, l);
                let target = self.constraints(w, at_point(constants@, l));
                assert forall|k: int| 0 <= k < 123 implies at_point(r@, l)[k] == #[trigger] target[k] by {
                    if k < r0.len() {
                        assert(r@[k] == r0[k]);
                        assert(r0[k].at(l) == poseidon2_constraint(w, k));
                    } else {
                        let j = k - r0.len();
                        assert(r@[r0.len() + j].at(l) == s1[j].at(l) - wires@[12 + j].at(l));
                        assert(at_point(s1, l)[j] == s1[j].at(l));
                        assert(at_point(s1, l) == last_state(w, 4));
                    }
                }
                assert(at_point(r@, l) =~= target);
            }
        }
        r
    }
}

/// The inputs after the swap that the delta wires describe.
fn swapped_state<T: Poseidon2>(wires: &[T]) -> (r: [T; 12])
    requires
        wires@.len() >= 135,
    ensures
        forall|l: int|
            0 <= l < T::points() ==> #[trigger] at_point(r@, l) == swapped_inputs(
                at_point(wires@, l),
            ),
{
    let r = [
        wires[0].plus(wires[25]),
        wires[1].plus(wires[26]),
        wires[2].plus(wires[27]),
        wires[3].plus(wires[28]),
        wires[4].minus(wires[25]),
        wires[5].minus(wires[26]),
        wires[6].minus(wires[27]),
        wires[7].minus(wires[28]),
        wires[8],
        wires[9],
        wires[10],
        wires[11],
    ];
    proof {
        assert forall|l: int| 0 <= l < T::points() implies #[trigger] at_point(r@, l)
            == swapped_inputs(at_point(wires@, l)) by {
            assert(at_point(r@, l) =~= swapped_inputs(at_point(wires@, l)));
        }
    }
    r
}

} // verus!
