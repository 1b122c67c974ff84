//! The constraints of the Poseidon2 gate hold for generated rows, and only for rows whose outputs
//! are the permutation of the possibly swapped inputs.

use crate::field::dft::all_wf;
use crate::field::fermat::lemma_no_zero_divisors;
use crate::field::model::{
    Elt, base, elt0, elt1, group_elt_wf, lemma_add_zero, lemma_mul_one_zero, lemma_reduced_add,
    lemma_reduced_self, lemma_reduced_sub, lemma_sub_self, lemma_sub_zero_iff,
};
use crate::gates::poseidon2::{
    first_state, last_state, partial_state, poseidon2_constraint, swapped_inputs, twelve,
};
use crate::gates::poseidon2_witness::{
    generated_column, generated_value, permuted_inputs, true_first, true_last, true_partial,
};
use crate::hash::hashing::compressed;
use crate::hash::poseidon2::config::INTERNAL_CONSTANTS;
use crate::hash::poseidon2::layers::{
    add_constants, external_layer, internal_layer, sbox, sbox_layer,
};
use crate::hash::poseidon2::permutation::{external_round, internal_round, permutation};
use crate::hash::sponge_laws::lemma_compressed_state;
use vstd::prelude::*;

verus! {

proof fn lemma_swap_back(x: Elt, y: Elt)
    requires
        x.wf(),
        y.wf(),
    ensures
        x + (y - x) == y,
        y - (y - x) == x,
{
    lemma_reduced_self(x);
    lemma_reduced_self(y);
    lemma_reduced_sub(y.re, y.im, x.re, x.im);
    lemma_reduced_add(x.re, x.im, y.re - x.re, y.im - x.im);
    lemma_reduced_sub(y.re, y.im, y.re - x.re, y.im - x.im);
}

/// For a flag of zero or one, proper delta wires make the inputs swapped or not.
pub proof fn lemma_swapped_inputs(w: Seq<Elt>)
    requires
        w.len() >= 135,
        all_wf(w),
        w[24] == elt0() || w[24] == elt1(),
        forall|i: int| 0 <= i < 4 ==> #[trigger] w[25 + i] == w[24] * (w[i + 4] - w[i]),
    ensures
        swapped_inputs(w) == permuted_inputs(w.take(12), w[24]),
{
    broadcast use group_elt_wf;

    let inputs = w.take(12);
    let target = permuted_inputs(inputs, w[24]);
    assert forall|i: int| 0 <= i < 12 implies swapped_inputs(w)[i] == #[trigger] target[i] by {
        if i < 8 {
            let j = if i < 4 {
                i
            } else {
                i - 4
            };
            assert(w[25 + j] == w[24] * (w[j + 4] - w[j]));
            lemma_mul_one_zero(w[j + 4] - w[j]);
            lemma_swap_back(w[j], w[j + 4]);
            lemma_add_zero(w[j]);
            lemma_add_zero(w[j + 4]);
        }
    }
    assert(swapped_inputs(w) =~= target);
}

/// A row holds the generated values.
pub open spec fn is_generated_row(w: Seq<Elt>) -> bool {
    &&& w.len() >= 135
    &&& all_wf(w)
    &&& w[24] == elt0() || w[24] == elt1()
    &&& forall|j: int|
        0 <= j < 122 ==> w[generated_column(j)] == #[trigger] generated_value(
            w.take(12),
            w[24],
            j,
        )
}

proof fn lemma_generated_first(w: Seq<Elt>, r: nat)
    requires
        is_generated_row(w),
        r <= 4,
    ensures
        first_state(w, r as int) == true_first(permuted_inputs(w.take(12), w[24]), r),
    decreases r,
{
    let s = permuted_inputs(w.take(12), w[24]);
    assert forall|i: int| 0 <= i < 4 implies #[trigger] w[25 + i] == w[24] * (w[i + 4] - w[i]) by {
        assert(w[generated_column(i)] == generated_value(w.take(12), w[24], i));
    }
    lemma_swapped_inputs(w);
    if r > 0 {
        let q = (r - 1) as nat;
        lemma_generated_first(w, q);
        assert(true_first(s, r) == external_round(true_first(s, q), q as int));
        if r > 1 {
            let row = twelve(w, 29 + 12 * (r - 2));
            let target = add_constants(true_first(s, q), q as int);
            assert forall|i: int| 0 <= i < 12 implies row[i] == #[trigger] target[i] by {
                let j = 4 + 12 * (q - 1) + i;
                assert((j - 4) / 12 == q - 1 && (j - 4) % 12 == i);
                assert(w[generated_column(j)] == generated_value(w.take(12), w[24], j));
            }
            assert(row =~= target);
        }
    }
}

proof fn lemma_generated_partial(w: Seq<Elt>, r: nat)
    requires
        is_generated_row(w),
        r <= 22,
    ensures
        partial_state(w, r) == true_partial(permuted_inputs(w.take(12), w[24]), r),
    decreases r,
{
    let s = permuted_inputs(w.take(12), w[24]);
    if r == 0 {
        lemma_generated_first(w, 4);
    } else {
        let q = (r - 1) as nat;
        lemma_generated_partial(w, q);
        let j = 40 + q as int;
        assert(w[generated_column(j)] == generated_value(w.take(12), w[24], j));
        assert(true_partial(s, r) == internal_round(true_partial(s, q), q as int));
    }
}

proof fn lemma_generated_last(w: Seq<Elt>, r: nat)
    requires
        is_generated_row(w),
        r <= 4,
    ensures
        last_state(w, r as int) == true_last(permuted_inputs(w.take(12), w[24]), r),
    decreases r,
{
    let s = permuted_inputs(w.take(12), w[24]);
    if r == 0 {
        lemma_generated_partial(w, 22);
    } else {
        let q = (r - 1) as nat;
        lemma_generated_last(w, q);
        let row = twelve(w, 87 + 12 * (r - 1));
        let target = add_constants(true_last(s, q), 4 + q as int);
        assert forall|i: int| 0 <= i < 12 implies row[i] == #[trigger] target[i] by {
            let j = 62 + 12 * q + i;
            assert((j - 62) / 12 == q && (j - 62) % 12 == i);
            assert(w[generated_column(j)] == generated_value(w.take(12), w[24], j));
        }
        assert(row =~= target);
        assert((4 + r) as nat == (4 + q) as nat + 1);
        assert(true_last(s, r) == external_round(true_last(s, q), 4 + q as int));
    }
}

/// Generated rows meet every constraint.
pub proof fn lemma_generated_row_meets_constraints(w: Seq<Elt>, k: int)
    requires
        is_generated_row(w),
        0 <= k < 123,
    ensures
        poseidon2_constraint(w, k) == elt0(),
{
    broadcast use group_elt_wf;

    let s = permuted_inputs(w.take(12), w[24]);
    if k == 0 {
        lemma_sub_self(elt1());
        lemma_mul_one_zero(elt1());
        lemma_mul_one_zero(elt0() - elt1());
    } else if k < 5 {
        let i = k - 1;
        assert(w[generated_column(i)] == generated_value(w.take(12), w[24], i));
        lemma_sub_self(w[25 + i]);
    } else if k < 41 {
        let r = 1 + (k - 5) / 12;
        let j = k - 1;
        lemma_generated_first(w, r as nat);
        assert(w[generated_column(j)] == generated_value(w.take(12), w[24], j));
        lemma_sub_self(w[29 + (k - 5)]);
    } else if k < 63 {
        let r = k - 41;
        let j = k - 1;
        lemma_generated_partial(w, r as nat);
        assert(w[generated_column(j)] == generated_value(w.take(12), w[24], j));
        lemma_sub_self(w[65 + r]);
    } else if k < 111 {
        let r = (k - 63) / 12;
        let j = k - 1;
        lemma_generated_last(w, r as nat);
        assert(w[generated_column(j)] == generated_value(w.take(12), w[24], j));
        lemma_sub_self(w[87 + (k - 63)]);
    } else {
        let j = k - 1;
        lemma_generated_last(w, 4);
        assert(w[generated_column(j)] == generated_value(w.take(12), w[24], j));
        lemma_sub_self(w[12 + (k - 111)]);
    }
}

/// A row meets every constraint.
pub open spec fn meets_constraints(w: Seq<Elt>) -> bool {
    &&& w.len() >= 135
    &&& all_wf(w)
    &&& forall|k: int| 0 <= k < 123 ==> #[trigger] poseidon2_constraint(w, k) == elt0()
}

proof fn lemma_layer_wf(s: Seq<Elt>, c: int)
    ensures
        all_wf(external_layer(s)),
        all_wf(internal_layer(s)),
        all_wf(add_constants(s, c)),
{
    broadcast use group_elt_wf;

}

proof fn lemma_sound_first(w: Seq<Elt>, r: nat)
    requires
        meets_constraints(w),
        r <= 4,
    ensures
        first_state(w, r as int) == true_first(swapped_inputs(w), r),
        all_wf(first_state(w, r as int)),
        first_state(w, r as int).len() == 12,
    decreases r,
{
    let s = swapped_inputs(w);
    lemma_layer_wf(s, 0);
    if r > 0 {
        let q = (r - 1) as nat;
        lemma_sound_first(w, q);
        assert(true_first(s, r) == external_round(true_first(s, q), q as int));
        lemma_layer_wf(sbox_layer(add_constants(first_state(w, 0), 0)), 0);
        if r > 1 {
            let row = twelve(w, 29 + 12 * (r - 2));
            let target = add_constants(true_first(s, q), q as int);
            lemma_layer_wf(true_first(s, q), q as int);
            lemma_layer_wf(sbox_layer(row), 0);
            assert forall|i: int| 0 <= i < 12 implies row[i] == #[trigger] target[i] by {
                let k = 5 + 12 * (q - 1) + i;
                assert((k - 5) / 12 == q - 1 && (k - 5) % 12 == i);
                assert(poseidon2_constraint(w, k) == elt0());
                lemma_sub_zero_iff(target[i], w[29 + (k - 5)]);
            }
            assert(row =~= target);
        }
    }
}

proof fn lemma_sound_partial(w: Seq<Elt>, r: nat)
    requires
        meets_constraints(w),
        r <= 22,
    ensures
        partial_state(w, r) == true_partial(swapped_inputs(w), r),
        all_wf(partial_state(w, r)),
        partial_state(w, r).len() == 12,
    decreases r,
{
    broadcast use group_elt_wf;

    let s = swapped_inputs(w);
    if r == 0 {
        lemma_sound_first(w, 4);
    } else {
        let q = (r - 1) as nat;
        lemma_sound_partial(w, q);
        let k = 41 + q as int;
        assert(poseidon2_constraint(w, k) == elt0());
        lemma_sub_zero_iff(
            partial_state(w, q)[0] + base(INTERNAL_CONSTANTS[q as int] as int),
            w[65 + q as int],
        );
        assert(true_partial(s, r) == internal_round(true_partial(s, q), q as int));
        lemma_layer_wf(partial_state(w, q).update(0, sbox(w[65 + r - 1])), 0);
    }
}

proof fn lemma_sound_last(w: Seq<Elt>, r: nat)
    requires
        meets_constraints(w),
        r <= 4,
    ensures
        last_state(w, r as int) == true_last(swapped_inputs(w), r),
        all_wf(last_state(w, r as int)),
        last_state(w, r as int).len() == 12,
    decreases r,
{
    let s = swapped_inputs(w);
    if r == 0 {
        lemma_sound_partial(w, 22);
    } else {
        let q = (r - 1) as nat;
        lemma_sound_last(w, q);
        let row = twelve(w, 87 + 12 * (r - 1));
        let target = add_constants(true_last(s, q), 4 + q as int);
        lemma_layer_wf(true_last(s, q), 4 + q as int);
        lemma_layer_wf(sbox_layer(row), 0);
        assert forall|i: int| 0 <= i < 12 implies row[i] == #[trigger] target[i] by {
            let k = 63 + 12 * q + i;
            assert((k - 63) / 12 == q && (k - 63) % 12 == i);
            assert(poseidon2_constraint(w, k) == elt0());
            lemma_sub_zero_iff(target[i], w[87 + (k - 63)]);
        }
        assert(row =~= target);
        assert((4 + r) as nat == (4 + q) as nat + 1);
        assert(true_last(s, r) == external_round(true_last(s, q), 4 + q as int));
    }
}

/// In a row that meets every constraint, the flag is zero or one, the delta wires hold the flag times
/// the differences, and the outputs are the permutation of the inputs, swapped if the flag is one.
pub proof fn lemma_constraints_sound(w: Seq<Elt>)
    requires
        meets_constraints(w),
    ensures
        w[24] == elt0() || w[24] == elt1(),
        forall|i: int| 0 <= i < 4 ==> #[trigger] w[25 + i] == w[24] * (w[i + 4] - w[i]),
        w.subrange(12, 24) == permutation(permuted_inputs(w.take(12), w[24])),
{
    broadcast use group_elt_wf;

    let swap = w[24];
    assert(poseidon2_constraint(w, 0) == elt0());
    lemma_no_zero_divisors(swap, swap - elt1());
    lemma_sub_zero_iff(swap, elt1());
    assert forall|i: int| 0 <= i < 4 implies #[trigger] w[25 + i] == w[24] * (w[i + 4] - w[i]) by {
        assert(poseidon2_constraint(w, 1 + i) == elt0());
        lemma_sub_zero_iff(w[24] * (w[i + 4] - w[i]), w[25 + i]);
    }
    lemma_swapped_inputs(w);
    let s = swapped_inputs(w);
    lemma_sound_last(w, 4);
    let out = permutation(s);
    assert(true_last(s, 4) == out);
    assert forall|i: int| 0 <= i < 12 implies w.subrange(12, 24)[i] == #[trigger] out[i] by {
        assert(poseidon2_constraint(w, 111 + i) == elt0());
        lemma_sub_zero_iff(last_state(w, 4)[i], w[12 + i]);
    }
    assert(w.subrange(12, 24) =~= out);
}

/// A row of the permutation hashes two digests. With its inputs set to two digests and zeros, the
/// first four outputs are the hash of the two, in their order if the swap wire is zero, and in the
/// other order if it is one.
pub proof fn lemma_row_hashes_digests(w: Seq<Elt>, left: Seq<Elt>, right: Seq<Elt>)
    requires
        meets_constraints(w),
        left.len() == 4,
        right.len() == 4,
        w.take(12) == left + right + seq![elt0(), elt0(), elt0(), elt0()],
    ensures
        w[24] == elt0() || w[24] == elt1(),
        w[24] == elt0() ==> w.subrange(12, 16) == compressed(left, right),
        w[24] == elt1() ==> w.subrange(12, 16) == compressed(right, left),
{
    lemma_constraints_sound(w);
    let zeros = seq![elt0(), elt0(), elt0(), elt0()];
    let ins = w.take(12);
    if w[24] == elt0() {
        assert(permuted_inputs(ins, w[24]) =~= left + right + zeros);
        lemma_compressed_state(left, right);
    } else {
        assert(permuted_inputs(ins, w[24]) =~= right + left + zeros);
        lemma_compressed_state(right, left);
    }
    assert(w.subrange(12, 16) =~= w.subrange(12, 24).take(4));
}

/// The inputs of the permutation in a row: as they are if the flag is zero, and with the first two
/// chunks of four swapped if it is one.
pub proof fn lemma_permuted_inputs(a: Seq<Elt>, b: Seq<Elt>, rest: Seq<Elt>)
    requires
        a.len() == 4,
        b.len() == 4,
        rest.len() == 4,
    ensures
        permuted_inputs(a + b + rest, elt0()) == a + b + rest,
        permuted_inputs(a + b + rest, elt1()) == b + a + rest,
{
    assert(permuted_inputs(a + b + rest, elt0()) =~= a + b + rest);
    assert(permuted_inputs(a + b + rest, elt1()) =~= b + a + rest);
}

} // verus!
