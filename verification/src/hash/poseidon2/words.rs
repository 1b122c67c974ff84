//! The words that the permutation and its layers leave in a state of field elements.

use crate::field::goldilocks_field::{GoldilocksField, fold_carry, word_reduce96};
use crate::field::types::Field;
use crate::hash::poseidon2::config::{EXTERNAL_CONSTANTS, INTERNAL_CONSTANTS, MATRIX_DIAG_12_U64};
use vstd::prelude::*;

verus! {

/// Entry `i` of the product of the blocks of four integers with the small matrix.
pub open spec fn mix_four_int(s: Seq<int>, i: int) -> int {
    let b = i - i % 4;
    if i % 4 == 0 {
        2 * s[b] + 3 * s[b + 1] + s[b + 2] + s[b + 3]
    } else if i % 4 == 1 {
        s[b] + 2 * s[b + 1] + 3 * s[b + 2] + s[b + 3]
    } else if i % 4 == 2 {
        s[b] + s[b + 1] + 2 * s[b + 2] + 3 * s[b + 3]
    } else {
        3 * s[b] + s[b + 1] + s[b + 2] + 2 * s[b + 3]
    }
}

/// The external linear layer on integers.
pub open spec fn external_int(s: Seq<int>, i: int) -> int {
    mix_four_int(s, i) + (mix_four_int(s, i % 4) + mix_four_int(s, i % 4 + 4) + mix_four_int(
        s,
        i % 4 + 8,
    ))
}

/// The words of a state as integers.
pub open spec fn word_ints(s: Seq<GoldilocksField>) -> Seq<int> {
    Seq::new(s.len(), |i: int| s[i].0 as int)
}

/// The words after the external linear layer: each entry is computed exactly and reduced once.
#[verifier::opaque]
pub open spec fn external_words(s: Seq<GoldilocksField>) -> Seq<GoldilocksField> {
    Seq::new(
        12,
        |i: int| GoldilocksField(word_reduce96(external_int(word_ints(s), i)) as u64),
    )
}

/// The sum of the first `n` words.
pub open spec fn words_sum(s: Seq<GoldilocksField>, n: nat) -> int
    decreases n,
{
    if n == 0 {
        0
    } else {
        words_sum(s, (n - 1) as nat) + s[n - 1].0
    }
}

/// The word of the sum of all entries, reduced once.
pub open spec fn sum_word(s: Seq<GoldilocksField>) -> GoldilocksField {
    GoldilocksField(word_reduce96(words_sum(s, 12)) as u64)
}

/// The words after the internal linear layer.
#[verifier::opaque]
pub open spec fn internal_words(s: Seq<GoldilocksField>) -> Seq<GoldilocksField> {
    Seq::new(12, |i: int| sum_word(s).s_mac(s[i], GoldilocksField(MATRIX_DIAG_12_U64[i])))
}

/// The words after the constants of an external round have been added.
#[verifier::opaque]
pub open spec fn constants_words(s: Seq<GoldilocksField>, r: int) -> Seq<GoldilocksField> {
    Seq::new(12, |i: int| GoldilocksField(fold_carry(s[i].0 + EXTERNAL_CONSTANTS[r][i]) as u64))
}

/// The word of the seventh power.
pub open spec fn sbox_word(x: GoldilocksField) -> GoldilocksField {
    let x2 = x.s_mul(x);
    x.s_mul(x2).s_mul(x2.s_mul(x2))
}

/// The words after the substitution of every entry.
#[verifier::opaque]
pub open spec fn sbox_words(s: Seq<GoldilocksField>) -> Seq<GoldilocksField> {
    Seq::new(12, |i: int| sbox_word(s[i]))
}

/// The words after an external round.
pub open spec fn external_round_words(s: Seq<GoldilocksField>, r: int) -> Seq<GoldilocksField> {
    external_words(sbox_words(constants_words(s, r)))
}

/// The words after the external rounds from `a` up to and without `b`.
pub open spec fn external_rounds_words(s: Seq<GoldilocksField>, a: nat, b: nat) -> Seq<
    GoldilocksField,
>
    decreases b,
{
    if b <= a {
        s
    } else {
        external_round_words(external_rounds_words(s, a, (b - 1) as nat), b - 1)
    }
}

/// The input of the substitution of an internal round.
pub open spec fn internal_input(s: Seq<GoldilocksField>, r: int) -> GoldilocksField {
    s[0].s_add(GoldilocksField(INTERNAL_CONSTANTS[r]))
}

/// The words after an internal round.
pub open spec fn internal_round_words(s: Seq<GoldilocksField>, r: int) -> Seq<GoldilocksField> {
    internal_words(s.update(0, sbox_word(internal_input(s, r))))
}

/// The words after the first `n` internal rounds.
pub open spec fn internal_rounds_words(s: Seq<GoldilocksField>, n: nat) -> Seq<GoldilocksField>
    decreases n,
{
    if n == 0 {
        s
    } else {
        internal_round_words(internal_rounds_words(s, (n - 1) as nat), n - 1)
    }
}

/// The words of the permutation.
pub open spec fn permutation_words(s: Seq<GoldilocksField>) -> Seq<GoldilocksField> {
    external_rounds_words(
        internal_rounds_words(external_rounds_words(external_words(s), 0, 4), 22),
        4,
        8,
    )
}

} // verus!
