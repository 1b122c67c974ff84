//! The tables that kernels read.

use crate::field::goldilocks_field::{GoldilocksField, ORDER};
use crate::field::model::{Elt, base, lemma_reduced_self};
use crate::field::polynomial::filled;
use crate::field::roots::{inv_pow2, lemma_root_step, power, root};
use crate::field::types::{Field, lemma_s_power, s_power};
use crate::fri::lde::coset_shift_elt;
use crate::hash::poseidon2::config::{EXTERNAL_CONSTANTS, INTERNAL_CONSTANTS, MATRIX_DIAG_12_U64};
use crate::util::bits::{
    lemma_pow2_basics, lemma_pow2_double, lemma_pow2_exceeds, lemma_pow2_mono, two_pow,
};
use vstd::arithmetic::power2::pow2;
use vstd::prelude::*;

verus! {

/// A word is canonical, and stands for the element.
pub open spec fn is_word_of(word: u64, e: Elt) -> bool {
    word < ORDER && base(word as int) == e
}

/// The constants of the permutation, one kind after the other.
pub open spec fn parameter_words() -> Seq<u64> {
    Seq::new(
        130,
        |i: int|
            if i < 96 {
                EXTERNAL_CONSTANTS[i / 12][i % 12]
            } else if i < 118 {
                INTERNAL_CONSTANTS[i - 96]
            } else {
                MATRIX_DIAG_12_U64[i - 118]
            },
    )
}

/// The constants of the permutation: external, internal, and the diagonal of the matrix.
pub fn parameter_values() -> (r: Vec<u64>)
    ensures
        r@ == parameter_words(),
{
    let mut r: Vec<u64> = Vec::with_capacity(130);
    while r.len() < 130
        invariant
            r@.len() <= 130,
            forall|i: int| 0 <= i < r@.len() ==> #[trigger] r@[i] == parameter_words()[i],
        decreases 130 - r@.len(),
    {
        let i: usize = r.len();
        let word: u64 = if i < 96 {
            EXTERNAL_CONSTANTS[i / 12][i % 12]
        } else if i < 118 {
            INTERNAL_CONSTANTS[i - 96]
        } else {
            MATRIX_DIAG_12_U64[i - 118]
        };
        r.push(word);
    }
    assert(r@ =~= parameter_words());
    r
}

/// The first `n` powers of an element, as canonical words.
fn power_words(x: GoldilocksField, n: usize) -> (r: Vec<u64>)
    ensures
        r@.len() == n,
        forall|k: int| 0 <= k < n ==> is_word_of(#[trigger] r@[k], power(x.v(), k as nat)),
{
    let mut r: Vec<u64> = Vec::with_capacity(n);
    let mut current = GoldilocksField::one();
    while r.len() < n
        invariant
            r@.len() <= n,
            current == s_power(x, r@.len()),
            forall|k: int|
                0 <= k < r@.len() ==> is_word_of(#[trigger] r@[k], power(x.v(), k as nat)),
        decreases n - r@.len(),
    {
        proof {
            lemma_s_power(x, r@.len());
            GoldilocksField::lemma_values(current);
            lemma_reduced_self(current.v());
        }
        let word: u64 = current.to_canonical_u64();
        r.push(word);
        current = current.mul(x);
    }
    r
}

/// The rows of twiddle factors of transforms of `2^lg_n` elements, one after the other: the row of
/// stage `s` starts at `2^s - 1`, and holds the first `2^s` powers of the root of order
/// `2^(s + 1)`.
pub open spec fn is_root_rows(values: Seq<u64>, offsets: Seq<usize>, lg_n: nat) -> bool {
    &&& values.len() == pow2(lg_n) - 1
    &&& offsets.len() == lg_n
    &&& forall|s: int| 0 <= s < lg_n ==> #[trigger] offsets[s] == pow2(s as nat) - 1
    &&& forall|s: int, k: int|
        0 <= s < lg_n && 0 <= k < pow2(s as nat) ==> is_word_of(
            #[trigger] values[pow2(s as nat) - 1 + k],
            power(root((s + 1) as nat), k as nat),
        )
}

/// The twiddle factors of transforms of `2^lg_n` elements, and where the row of each stage starts.
pub fn roots_for(lg_n: usize) -> (r: (Vec<u64>, Vec<usize>))
    requires
        lg_n <= 32,
    ensures
        is_root_rows(r.0@, r.1@, lg_n as nat),
{
    // bases[i] is the root of unity of order 2^(lg_n - i).
    let mut bases: Vec<GoldilocksField> = Vec::with_capacity(lg_n);
    let mut current = GoldilocksField::primitive_root_of_unity(lg_n);
    bases.push(current);
    while bases.len() < lg_n
        invariant
            1 <= bases@.len(),
            bases@.len() <= lg_n || bases@.len() == 1,
            lg_n <= 32,
            current.v() == root((lg_n - (bases@.len() - 1)) as nat),
            forall|i: int|
                0 <= i < bases@.len() && i <= lg_n ==> (#[trigger] bases@[i]).v() == root(
                    (lg_n - i) as nat,
                ),
        decreases lg_n - bases@.len(),
    {
        proof {
            GoldilocksField::lemma_ops(current, current);
            lemma_root_step((lg_n - bases@.len()) as nat);
        }
        current = current.square();
        bases.push(current);
    }
    let mut values: Vec<u64> = Vec::new();
    let mut offsets: Vec<usize> = Vec::with_capacity(lg_n);
    proof {
        lemma_pow2_basics();
        lemma_pow2_exceeds(lg_n as nat);
    }
    while offsets.len() < lg_n
        invariant
            offsets@.len() <= lg_n <= 32,
            bases@.len() >= lg_n,
            forall|i: int|
                0 <= i < bases@.len() && i <= lg_n ==> (#[trigger] bases@[i]).v() == root(
                    (lg_n - i) as nat,
                ),
            is_root_rows(values@, offsets@, offsets@.len()),
        decreases lg_n - offsets@.len(),
    {
        let s: usize = offsets.len();
        let ghost (values0, offsets0) = (values@, offsets@);
        offsets.push(values.len());
        proof {
            lemma_pow2_double(s as nat);
            lemma_pow2_mono(s as nat, 31);
            lemma_two_to_31();
        }
        let mut row = power_words(bases[lg_n - 1 - s], two_pow(s));
        let ghost row0 = row@;
        values.append(&mut row);
        proof {
            assert forall|t: int, k: int| 0 <= t < s + 1 && 0 <= k < pow2(t as nat) implies is_word_of(
                #[trigger] values@[pow2(t as nat) - 1 + k],
                power(root((t + 1) as nat), k as nat),
            ) by {
                if t < s {
                    lemma_pow2_double(t as nat);
                    lemma_pow2_mono((t + 1) as nat, s as nat);
                    assert(values@[pow2(t as nat) - 1 + k] == values0[pow2(t as nat) - 1 + k]);
                } else {
                    assert(values@[pow2(t as nat) - 1 + k] == row0[k]);
                }
            }
        }
    }
    (values, offsets)
}

proof fn lemma_two_to_31()
    ensures
        pow2(31) == 0x8000_0000,
{
    vstd::arithmetic::power2::lemma2_to64();
}

/// The powers of the coset shift, as canonical words.
pub fn shift_powers_for(degree: usize) -> (r: Vec<u64>)
    ensures
        r@.len() == degree,
        forall|k: int|
            0 <= k < degree ==> is_word_of(#[trigger] r@[k], power(coset_shift_elt(), k as nat)),
{
    power_words(GoldilocksField::coset_shift(), degree)
}

/// Ones: the table for transforms that do not shift.
pub fn ones_for(degree: usize) -> (r: Vec<u64>)
    ensures
        r@.len() == degree,
        forall|k: int| 0 <= k < degree ==> #[trigger] r@[k] == 1,
{
    filled(1u64, degree)
}

/// The inverse of the number of values, as a canonical word.
pub fn inverse_count(log_degree: usize) -> (r: u64)
    ensures
        is_word_of(r, inv_pow2(log_degree as nat)),
{
    let x = GoldilocksField::inverse_2exp(log_degree);
    proof {
        GoldilocksField::lemma_values(x);
        lemma_reduced_self(x.v());
    }
    x.to_canonical_u64()
}

} // verus!
