//! Witnesses of the Poseidon2 gate, and what its constraints mean.

use crate::field::goldilocks_field::GoldilocksField;
use crate::field::model::{Elt, base, elt0, elt1, group_elt_wf, lemma_mul_one_zero};
use crate::field::types::{Field, vals};
use crate::gates::poseidon2::{Poseidon2Gate, WIRE_SWAP};
use crate::gates::poseidon2_batch::lemma_single_point;
use crate::gates::value::GateValue;
use crate::hash::poseidon2::config::{INTERNAL_CONSTANTS, ROUNDS_F_HALF, WIDTH};
use crate::hash::poseidon2::layers::{
    add_constants, external_layer, internal_layer, sbox, sbox_layer,
};
use crate::hash::poseidon2::permutation::{
    Poseidon2, external_round, external_rounds, internal_round, internal_rounds, permutation,
};
use crate::hash::poseidon2::words::{
    constants_words, external_rounds_words, external_words, internal_input, internal_rounds_words,
    permutation_words,
};
use crate::iop::target::Target;
use crate::iop::witness::{GeneratedValues, PartitionWitness};
use vstd::prelude::*;

verus! {

/// The word of the product of an element with the word zero or one.
proof fn lemma_flag_product(x: GoldilocksField, flag: GoldilocksField)
    requires
        flag.0 <= 1,
    ensures
        flag.s_mul(x) == (if flag.0 == 0 {
            GoldilocksField(0)
        } else {
            x
        }),
{
    assert(flag.0 * x.0 == (if flag.0 == 0 {
        0
    } else {
        x.0 as int
    })) by (nonlinear_arith)
        requires
            0 <= flag.0 <= 1,
    ;
}

/// The word of delta `i`: for a flag of zero or one the product is known without a multiplication.
pub open spec fn delta_word(
    inputs: Seq<GoldilocksField>,
    swap: GoldilocksField,
    i: int,
) -> GoldilocksField {
    if swap.v() == elt0() {
        GoldilocksField(0)
    } else if swap.v() == elt1() {
        inputs[i + 4].s_sub(inputs[i])
    } else {
        swap.s_mul(inputs[i + 4].s_sub(inputs[i]))
    }
}

/// The four `delta` wire values for a row, and whether the inputs are to be swapped.
///
/// For a flag of zero or one the product of the flag and a difference is known without a
/// multiplication; for any other flag the product is computed, and nothing is swapped.
pub fn swap_deltas(state: &[GoldilocksField; 12], swap_value: GoldilocksField) -> (r: (
    [GoldilocksField; 4],
    bool,
))
    ensures
        r.1 == (swap_value.v() == elt1()),
        forall|i: int|
            0 <= i < 4 ==> #[trigger] r.0@[i] == delta_word(state@, swap_value, i),
        swap_value.0 <= 1 ==> forall|i: int|
            0 <= i < 4 ==> #[trigger] r.0@[i] == swap_value.s_mul(state@[i + 4].s_sub(state@[i])),
{
    proof {
        assert(base(0) == elt0() && base(1) == elt1());
        if swap_value.0 <= 1 {
            assert forall|x: GoldilocksField|
                #![trigger swap_value.s_mul(x)]
                swap_value.s_mul(x) == (if swap_value.0 == 0 {
                    GoldilocksField(0)
                } else {
                    x
                }) by {
                lemma_flag_product(x, swap_value);
            }
        }
    }
    if swap_value.is_zero() {
        ([GoldilocksField(0); 4], false)
    } else if swap_value.is_one() {
        (
            [
                state[4].sub(state[0]),
                state[5].sub(state[1]),
                state[6].sub(state[2]),
                state[7].sub(state[3]),
            ],
            true,
        )
    } else {
        (
            [
                swap_value.mul(state[4].sub(state[0])),
                swap_value.mul(state[5].sub(state[1])),
                swap_value.mul(state[6].sub(state[2])),
                swap_value.mul(state[7].sub(state[3])),
            ],
            false,
        )
    }
}

/// Whatever the flag, the deltas are the flag times the differences of the inputs.
pub proof fn lemma_swap_deltas(x: GoldilocksField, y: GoldilocksField, swap_value: GoldilocksField)
    ensures
        ({
            let delta = if swap_value.v() == elt0() {
                GoldilocksField(0)
            } else if swap_value.v() == elt1() {
                y.s_sub(x)
            } else {
                swap_value.s_mul(y.s_sub(x))
            };
            delta.v() == swap_value.v() * (y.v() - x.v())
        }),
{
    broadcast use group_elt_wf;

    GoldilocksField::lemma_ops(y, x);
    GoldilocksField::lemma_ops(swap_value, y.s_sub(x));
    lemma_mul_one_zero(y.v() - x.v());
    assert(GoldilocksField(0).v() == elt0());
}

/// The generator of all wires of a row but the inputs and the flag.
#[derive(Clone, Copy, Debug)]
pub struct Poseidon2Generator {
    pub row: usize,
}

/// The column of the `j`-th generated value.
pub open spec fn generated_column(j: int) -> int {
    if j < 4 {
        25 + j
    } else if j < 40 {
        29 + (j - 4)
    } else if j < 62 {
        65 + (j - 40)
    } else if j < 110 {
        87 + (j - 62)
    } else {
        12 + (j - 110)
    }
}

/// The inputs of the permutation: swapped if the flag is one.
pub open spec fn permuted_inputs(inputs: Seq<Elt>, swap: Elt) -> Seq<Elt> {
    Seq::new(
        12,
        |i: int|
            if swap == elt1() && i < 4 {
                inputs[i + 4]
            } else if swap == elt1() && i < 8 {
                inputs[i - 4]
            } else {
                inputs[i]
            },
    )
}

/// The state after the first full rounds below `r`.
pub open spec fn true_first(s: Seq<Elt>, r: nat) -> Seq<Elt> {
    external_rounds(external_layer(s), 0, r)
}

/// The state after the partial rounds below `r`.
pub open spec fn true_partial(s: Seq<Elt>, r: nat) -> Seq<Elt> {
    internal_rounds(true_first(s, 4), r)
}

/// The state after the last full rounds below `r`.
pub open spec fn true_last(s: Seq<Elt>, r: nat) -> Seq<Elt> {
    external_rounds(true_partial(s, 22), 4, 4 + r)
}

/// The `j`-th generated value, for the permutation of `s`.
pub open spec fn generated_value(inputs: Seq<Elt>, swap: Elt, j: int) -> Elt {
    let s = permuted_inputs(inputs, swap);
    if j < 4 {
        swap * (inputs[j + 4] - inputs[j])
    } else if j < 40 {
        let r = 1 + (j - 4) / 12;
        add_constants(true_first(s, r as nat), r)[(j - 4) % 12]
    } else if j < 62 {
        let r = j - 40;
        true_partial(s, r as nat)[0] + base(INTERNAL_CONSTANTS[r] as int)
    } else if j < 110 {
        let r = (j - 62) / 12;
        add_constants(true_last(s, r as nat), 4 + r)[(j - 62) % 12]
    } else {
        permutation(s)[j - 110]
    }
}

/// The values appended after `base_len` earlier ones are the first generated ones.
pub open spec fn generated_prefix(
    row: usize,
    inputs: Seq<Elt>,
    swap: Elt,
    base_len: int,
    values: Seq<(Target, GoldilocksField)>,
) -> bool {
    forall|k: int|
        base_len <= k < values.len() ==> (#[trigger] values[k]).0 == (Target::Wire {
            row,
            column: generated_column(k - base_len) as usize,
        }) && values[k].1.v() == generated_value(inputs, swap, k - base_len)
}

/// The words of the inputs of the permutation: swapped if the flag is one.
pub open spec fn permuted_words(inputs: Seq<GoldilocksField>, swap: GoldilocksField) -> Seq<
    GoldilocksField,
> {
    Seq::new(
        12,
        |i: int|
            if swap.v() == elt1() && i < 4 {
                inputs[i + 4]
            } else if swap.v() == elt1() && i < 8 {
                inputs[i - 4]
            } else {
                inputs[i]
            },
    )
}

/// The words after the first full rounds below `r`.
pub open spec fn first_words(s: Seq<GoldilocksField>, r: nat) -> Seq<GoldilocksField> {
    external_rounds_words(external_words(s), 0, r)
}

/// The words after the partial rounds below `r`.
pub open spec fn partial_words(s: Seq<GoldilocksField>, r: nat) -> Seq<GoldilocksField> {
    internal_rounds_words(first_words(s, 4), r)
}

/// The words after the last full rounds below `r`.
pub open spec fn last_words(s: Seq<GoldilocksField>, r: nat) -> Seq<GoldilocksField> {
    external_rounds_words(partial_words(s, 22), 4, 4 + r)
}

/// The word of the `j`-th generated value.
pub open spec fn generated_word(
    inputs: Seq<GoldilocksField>,
    swap: GoldilocksField,
    j: int,
) -> GoldilocksField {
    let s = permuted_words(inputs, swap);
    if j < 4 {
        delta_word(inputs, swap, j)
    } else if j < 40 {
        let r = 1 + (j - 4) / 12;
        constants_words(first_words(s, r as nat), r)[(j - 4) % 12]
    } else if j < 62 {
        internal_input(partial_words(s, (j - 40) as nat), j - 40)
    } else if j < 110 {
        let r = (j - 62) / 12;
        constants_words(last_words(s, r as nat), 4 + r)[(j - 62) % 12]
    } else {
        permutation_words(s)[j - 110]
    }
}

/// The values appended after `base_len` earlier ones have the words of the first generated ones.
#[verifier::opaque]
pub open spec fn generated_words(
    inputs: Seq<GoldilocksField>,
    swap: GoldilocksField,
    base_len: int,
    values: Seq<(Target, GoldilocksField)>,
) -> bool {
    forall|k: int|
        base_len <= k < values.len() ==> (#[trigger] values[k]).1 == generated_word(
            inputs,
            swap,
            k - base_len,
        )
}

proof fn lemma_words_pushed(
    inputs: Seq<GoldilocksField>,
    swap: GoldilocksField,
    base_len: int,
    before: Seq<(Target, GoldilocksField)>,
    after: Seq<(Target, GoldilocksField)>,
)
    requires
        0 <= base_len <= before.len() <= after.len(),
        generated_words(inputs, swap, base_len, before),
        forall|k: int| 0 <= k < before.len() ==> #[trigger] after[k] == before[k],
        forall|i: int|
            0 <= i < after.len() - before.len() ==> (#[trigger] after[before.len() + i]).1
                == generated_word(inputs, swap, before.len() - base_len + i),
    ensures
        generated_words(inputs, swap, base_len, after),
{
    reveal(generated_words);
    assert forall|k: int| base_len <= k < after.len() implies (#[trigger] after[k]).1
        == generated_word(inputs, swap, k - base_len) by {
        if k >= before.len() {
            assert(after[before.len() + (k - before.len())] == after[k]);
        }
    }
}

/// Appends the twelve elements of a state.
fn set_state(
    out_buffer: &mut GeneratedValues,
    row: usize,
    column: usize,
    state: &[GoldilocksField; 12],
)
    requires
        column + 12 <= 135,
    ensures
        final(out_buffer).target_values@.len() == old(out_buffer).target_values@.len() + 12,
        forall|k: int|
            0 <= k < old(out_buffer).target_values@.len() ==> #[trigger] final(out_buffer).target_values@[k] == old(out_buffer).target_values@[k],
        forall|i: int|
            0 <= i < 12 ==> #[trigger] final(out_buffer).target_values@[old(out_buffer).target_values@.len() + i] == (
                Target::Wire { row, column: (column + i) as usize },
                state@[i],
            ),
{
    let ghost before = out_buffer.target_values@;
    let mut i: usize = 0;
    while i < 12
        invariant
            i <= 12,
            column + 12 <= 135,
            out_buffer.target_values@.len() == before.len() + i,
            forall|k: int|
                0 <= k < before.len() ==> #[trigger] out_buffer.target_values@[k] == before[k],
            forall|j: int|
                0 <= j < i ==> #[trigger] out_buffer.target_values@[before.len() + j] == (
                    Target::Wire { row, column: (column + j) as usize },
                    state@[j],
                ),
        decreases 12 - i,
    {
        out_buffer.set_target(Target::wire(row, column + i), state[i]);
        i = i + 1;
    }
}

proof fn lemma_state_generated(
    row: usize,
    inputs: Seq<Elt>,
    swap: Elt,
    base_len: int,
    before: Seq<(Target, GoldilocksField)>,
    after: Seq<(Target, GoldilocksField)>,
    column: int,
    state: Seq<GoldilocksField>,
)
    requires
        0 <= base_len <= before.len(),
        state.len() == 12,
        generated_prefix(row, inputs, swap, base_len, before),
        after.len() == before.len() + 12,
        forall|k: int| 0 <= k < before.len() ==> #[trigger] after[k] == before[k],
        forall|i: int|
            0 <= i < 12 ==> #[trigger] after[before.len() + i] == (
                Target::Wire { row, column: (column + i) as usize },
                state[i],
            ),
        forall|i: int|
            0 <= i < 12 ==> generated_column(before.len() - base_len + i) == column + i
                && #[trigger] state[i].v() == generated_value(
                inputs,
                swap,
                before.len() - base_len + i,
            ),
    ensures
        generated_prefix(row, inputs, swap, base_len, after),
{
    assert forall|k: int| base_len <= k < after.len() implies (#[trigger] after[k]).0 == (
    Target::Wire { row, column: generated_column(k - base_len) as usize }) && after[k].1.v()
        == generated_value(inputs, swap, k - base_len) by {
        if k < before.len() {
            assert(after[k] == before[k]);
        } else {
            let i = k - before.len();
            assert(after[before.len() + i] == (
                Target::Wire { row, column: (column + i) as usize },
                state[i],
            ));
            assert(state[i].v() == generated_value(inputs, swap, before.len() - base_len + i));
        }
    }
}

impl Poseidon2Generator {
    /// The targets that have to be known first: the inputs and the flag.
    pub fn dependencies(&self) -> (r: Vec<Target>)
        ensures
            r@.len() == 13,
            forall|i: int|
                0 <= i < 12 ==> #[trigger] r@[i] == (Target::Wire {
                    row: self.row,
                    column: i as usize,
                }),
            r@[12] == (Target::Wire { row: self.row, column: 24 }),
    {
        let mut r: Vec<Target> = Vec::with_capacity(13);
        while r.len() < WIDTH
            invariant
                r@.len() <= 12,
                forall|i: int|
                    0 <= i < r@.len() ==> #[trigger] r@[i] == (Target::Wire {
                        row: self.row,
                        column: i as usize,
                    }),
            decreases 12 - r@.len(),
        {
            let i: usize = r.len();
            r.push(Target::wire(self.row, Poseidon2Gate::wire_input(i)));
        }
        r.push(Target::wire(self.row, WIRE_SWAP));
        r
    }

    /// Computes all wires of a row but the inputs and the flag.
    #[verifier::rlimit(60)]
    pub fn run_once(&self, witness: &PartitionWitness, out_buffer: &mut GeneratedValues)
        requires
            forall|i: int| 0 <= i < 12 ==> #[trigger] witness.has(self.row as int, i),
            witness.has(self.row as int, 24),
        ensures
            final(out_buffer).target_values@.len() == old(out_buffer).target_values@.len() + 122,
            final(out_buffer).target_values@.take(old(out_buffer).target_values@.len() as int)
                == old(out_buffer).target_values@,
            generated_prefix(
                self.row,
                Seq::new(12, |i: int| witness.value(self.row as int, i).v()),
                witness.value(self.row as int, 24).v(),
                old(out_buffer).target_values@.len() as int,
                final(out_buffer).target_values@,
            ),
            generated_words(
                Seq::new(12, |i: int| witness.value(self.row as int, i)),
                witness.value(self.row as int, 24),
                old(out_buffer).target_values@.len() as int,
                final(out_buffer).target_values@,
            ),
    {
        let row: usize = self.row;
        let ghost before = out_buffer.target_values@;
        let ghost b = before.len() as int;
        let ghost inputs = Seq::new(12, |i: int| witness.value(row as int, i).v());
        let swap_value = witness.get_wire(row, WIRE_SWAP);
        let ghost swap = swap_value.v();
        let ghost s = permuted_inputs(inputs, swap);
        let mut state = [GoldilocksField(0); 12];
        let mut i: usize = 0;
        while i < 12
            invariant
                i <= 12,
                row == self.row,
                forall|j: int| 0 <= j < 12 ==> #[trigger] witness.has(self.row as int, j),
                forall|j: int| 0 <= j < i ==> #[trigger] state@[j] == witness.value(row as int, j),
            decreases 12 - i,
        {
            assert(witness.has(self.row as int, i as int));
            state[i] = witness.get_wire(row, Poseidon2Gate::wire_input(i));
            i = i + 1;
        }
        assert(vals(state@) =~= inputs);
        let ghost words = Seq::new(12, |i: int| witness.value(row as int, i));
        assert(state@ =~= words);
        assert(generated_words(words, swap_value, b, before)) by {
            reveal(generated_words);
        }
        let (deltas, do_swap) = swap_deltas(&state, swap_value);
        i = 0;
        while i < 4
            invariant
                i <= 4,
                row == self.row,
                b == before.len(),
                vals(state@) == inputs,
                swap == swap_value.v(),
                out_buffer.target_values@.len() == b + i,
                forall|k: int|
                    0 <= k < before.len() ==> #[trigger] out_buffer.target_values@[k] == before[k],
                forall|j: int|
                    0 <= j < 4 ==> #[trigger] deltas@[j] == delta_word(state@, swap_value, j),
                state@ == words,
                generated_words(words, swap_value, b, out_buffer.target_values@),
                generated_prefix(row, inputs, swap, b, out_buffer.target_values@),
            decreases 4 - i,
        {
            let ghost v0 = out_buffer.target_values@;
            out_buffer.set_target(
                Target::wire(row, Poseidon2Gate::wire_delta(i)),
                deltas[i],
            );
            proof {
                lemma_words_pushed(words, swap_value, b, v0, out_buffer.target_values@);
                lemma_swap_deltas(state@[i as int], state@[i + 4], swap_value);
                assert(inputs[i as int] == state@[i as int].v());
                assert(inputs[i + 4] == state@[i + 4].v());
                assert forall|k: int| b <= k < out_buffer.target_values@.len() implies (
                #[trigger] out_buffer.target_values@[k]).0 == (Target::Wire {
                    row,
                    column: generated_column(k - b) as usize,
                }) && out_buffer.target_values@[k].1.v() == generated_value(
                    inputs,
                    swap,
                    k - b,
                ) by {
                    if k < v0.len() {
                        assert(out_buffer.target_values@[k] == v0[k]);
                    }
                }
            }
            i = i + 1;
        }
        if do_swap {
            state = [
                state[4],
                state[5],
                state[6],
                state[7],
                state[0],
                state[1],
                state[2],
                state[3],
                state[8],
                state[9],
                state[10],
                state[11],
            ];
        }
        assert(vals(state@) =~= s);
        let ghost sw = permuted_words(words, swap_value);
        assert(state@ =~= sw);
        let ghost s0 = state;
        GoldilocksField::external_linear_layer(&mut state);
        proof {
            lemma_single_point(s0, state, |x: Seq<Elt>| external_layer(x));
        }
        let mut round: usize = 0;
        while round < 4
            invariant
                round <= 4,
                row == self.row,
                b == before.len(),
                s == permuted_inputs(inputs, swap),
                out_buffer.target_values@.len() == b + (if round <= 1 {
                    4
                } else {
                    4 + 12 * (round - 1)
                }),
                forall|k: int|
                    0 <= k < before.len() ==> #[trigger] out_buffer.target_values@[k] == before[k],
                generated_prefix(row, inputs, swap, b, out_buffer.target_values@),
                sw == permuted_words(words, swap_value),
                generated_words(words, swap_value, b, out_buffer.target_values@),
                state@ == first_words(sw, round as nat),
                vals(state@) == true_first(s, round as nat),
            decreases 4 - round,
        {
            let ghost s1 = state;
            GoldilocksField::add_rc(&mut state, round);
            let ghost s2 = state;
            proof {
                lemma_single_point(s1, s2, |x: Seq<Elt>| add_constants(x, round as int));
            }
            if round != 0 {
                let ghost v0 = out_buffer.target_values@;
                let column: usize = Poseidon2Gate::wire_full_sbox_0(round, 0);
                set_state(out_buffer, row, column, &state);
                proof {
                    assert forall|i: int| 0 <= i < 12 implies (
                    #[trigger] out_buffer.target_values@[v0.len() + i]).1 == generated_word(
                        words,
                        swap_value,
                        v0.len() - b + i,
                    ) by {
                        let j = v0.len() - b + i;
                        assert((j - 4) / 12 == round - 1 && (j - 4) % 12 == i);
                    }
                    lemma_words_pushed(words, swap_value, b, v0, out_buffer.target_values@);
                    assert forall|i: int| 0 <= i < 12 implies generated_column(v0.len() - b + i)
                        == column + i && #[trigger] state@[i].v() == generated_value(
                        inputs,
                        swap,
                        v0.len() - b + i,
                    ) by {
                        let j = v0.len() - b + i;
                        assert((j - 4) / 12 == round - 1 && (j - 4) % 12 == i);
                        assert(vals(state@)[i] == state@[i].v());
                    }
                    lemma_state_generated(
                        row,
                        inputs,
                        swap,
                        b,
                        v0,
                        out_buffer.target_values@,
                        column as int,
                        state@,
                    );
                }
            }
            <GoldilocksField as Poseidon2>::sbox(&mut state);
            let ghost s3 = state;
            GoldilocksField::external_linear_layer(&mut state);
            proof {
                lemma_single_point(s2, s3, |x: Seq<Elt>| sbox_layer(x));
                lemma_single_point(s3, state, |x: Seq<Elt>| external_layer(x));
                assert(vals(state@) == external_round(true_first(s, round as nat), round as int));
            }
            round = round + 1;
        }
        round = 0;
        while round < 22
            invariant
                round <= 22,
                row == self.row,
                b == before.len(),
                s == permuted_inputs(inputs, swap),
                out_buffer.target_values@.len() == b + 40 + round,
                forall|k: int|
                    0 <= k < before.len() ==> #[trigger] out_buffer.target_values@[k] == before[k],
                generated_prefix(row, inputs, swap, b, out_buffer.target_values@),
                sw == permuted_words(words, swap_value),
                generated_words(words, swap_value, b, out_buffer.target_values@),
                state@ == partial_words(sw, round as nat),
                vals(state@) == true_partial(s, round as nat),
            decreases 22 - round,
        {
            let ghost s1 = state;
            let ghost v0 = out_buffer.target_values@;
            let rc = GoldilocksField(INTERNAL_CONSTANTS[round]);
            proof {
                assert(vals(s1@)[0] == s1@[0].v());
                GoldilocksField::lemma_ops(s1@[0], rc);
            }
            let input = state[0].add(rc);
            out_buffer.set_target(
                Target::wire(row, Poseidon2Gate::wire_partial_sbox(round)),
                input,
            );
            let substituted = GoldilocksField::sbox_p(input);
            state[0] = substituted;
            let ghost s2 = state;
            GoldilocksField::internal_linear_layer(&mut state);
            proof {
                lemma_words_pushed(words, swap_value, b, v0, out_buffer.target_values@);
                assert(GoldilocksField::points() == 1);
                assert(substituted.at(0) == sbox(input.at(0)));
                assert(vals(s2@) =~= vals(s1@).update(0, sbox(input.v())));
                lemma_single_point(s2, state, |x: Seq<Elt>| internal_layer(x));
                assert(vals(state@) == internal_round(
                    true_partial(s, round as nat),
                    round as int,
                ));
                assert forall|k: int| b <= k < out_buffer.target_values@.len() implies (
                #[trigger] out_buffer.target_values@[k]).0 == (Target::Wire {
                    row,
                    column: generated_column(k - b) as usize,
                }) && out_buffer.target_values@[k].1.v() == generated_value(
                    inputs,
                    swap,
                    k - b,
                ) by {
                    if k < v0.len() {
                        assert(out_buffer.target_values@[k] == v0[k]);
                    }
                }
            }
            round = round + 1;
        }
        round = 0;
        while round < 4
            invariant
                round <= 4,
                row == self.row,
                b == before.len(),
                s == permuted_inputs(inputs, swap),
                out_buffer.target_values@.len() == b + 62 + 12 * round,
                forall|k: int|
                    0 <= k < before.len() ==> #[trigger] out_buffer.target_values@[k] == before[k],
                generated_prefix(row, inputs, swap, b, out_buffer.target_values@),
                sw == permuted_words(words, swap_value),
                generated_words(words, swap_value, b, out_buffer.target_values@),
                state@ == last_words(sw, round as nat),
                vals(state@) == true_last(s, round as nat),
            decreases 4 - round,
        {
            let ghost s1 = state;
            GoldilocksField::add_rc(&mut state, ROUNDS_F_HALF + round);
            let ghost s2 = state;
            proof {
                lemma_single_point(s1, s2, |x: Seq<Elt>| add_constants(x, 4 + round));
            }
            let ghost v0 = out_buffer.target_values@;
            let column: usize = Poseidon2Gate::wire_full_sbox_1(round, 0);
            set_state(out_buffer, row, column, &state);
            proof {
                assert forall|i: int| 0 <= i < 12 implies (
                #[trigger] out_buffer.target_values@[v0.len() + i]).1 == generated_word(
                    words,
                    swap_value,
                    v0.len() - b + i,
                ) by {
                    let j = v0.len() - b + i;
                    assert((j - 62) / 12 == round && (j - 62) % 12 == i);
                }
                lemma_words_pushed(words, swap_value, b, v0, out_buffer.target_values@);
                assert forall|i: int| 0 <= i < 12 implies generated_column(v0.len() - b + i)
                    == column + i && #[trigger] state@[i].v() == generated_value(
                    inputs,
                    swap,
                    v0.len() - b + i,
                ) by {
                    let j = v0.len() - b + i;
                    assert((j - 62) / 12 == round && (j - 62) % 12 == i);
                    assert(vals(state@)[i] == state@[i].v());
                }
                lemma_state_generated(
                    row,
                    inputs,
                    swap,
                    b,
                    v0,
                    out_buffer.target_values@,
                    column as int,
                    state@,
                );
            }
            <GoldilocksField as Poseidon2>::sbox(&mut state);
            let ghost s3 = state;
            GoldilocksField::external_linear_layer(&mut state);
            proof {
                lemma_single_point(s2, s3, |x: Seq<Elt>| sbox_layer(x));
                lemma_single_point(s3, state, |x: Seq<Elt>| external_layer(x));
                assert(vals(state@) == external_round(true_last(s, round as nat), 4 + round));
            }
            round = round + 1;
        }
        let ghost v0 = out_buffer.target_values@;
        set_state(out_buffer, row, Poseidon2Gate::wire_output(0), &state);
        proof {
            assert forall|i: int| 0 <= i < 12 implies (
            #[trigger] out_buffer.target_values@[v0.len() + i]).1 == generated_word(
                words,
                swap_value,
                v0.len() - b + i,
            ) by {
                assert(last_words(sw, 4) == permutation_words(sw));
            }
            lemma_words_pushed(words, swap_value, b, v0, out_buffer.target_values@);
            assert forall|i: int| 0 <= i < 12 implies generated_column(v0.len() - b + i) == 12 + i
                && #[trigger] state@[i].v() == generated_value(inputs, swap, v0.len() - b + i) by {
                assert(vals(state@)[i] == state@[i].v());
            }
            lemma_state_generated(
                row,
                inputs,
                swap,
                b,
                v0,
                out_buffer.target_values@,
                12,
                state@,
            );
            assert(out_buffer.target_values@.take(b) =~= before);
        }
    }
}

impl Poseidon2Gate {
    /// The generator of a row.
    pub fn generators(&self, row: usize) -> (r: Vec<Poseidon2Generator>)
        ensures
            r@ == seq![Poseidon2Generator { row }],
    {
        let mut r: Vec<Poseidon2Generator> = Vec::new();
        r.push(Poseidon2Generator { row });
        assert(r@ =~= seq![Poseidon2Generator { row }]);
        r
    }
}

} // verus!
