//! The permutation, for single field elements, extension elements and packed vectors.

use crate::field::extension::QuadraticExtension;
use crate::field::goldilocks_field::{GoldilocksField, ORDER};
use crate::field::model::{Elt, base, lemma_reduced_add};
use crate::field::packed::PackedField;
use crate::field::types::{Field, vals};
use crate::gates::value::GateValue;
use crate::hash::poseidon2::config::{EXTERNAL_CONSTANTS, INTERNAL_CONSTANTS, MATRIX_DIAG_12_U64};
use crate::hash::poseidon2::layers::{
    add_constants, add_rc_extension, at_point, external_layer, external_linear_layer_extension,
    internal_layer, internal_linear_layer_extension, layer_done, lemma_mix, lemma_mix_words,
    lemma_seventh, mix_four, sbox, sbox_extension, sbox_layer, sbox_p_extension, sum_to,
};
use crate::hash::poseidon2::words::{
    constants_words, external_int, external_round_words, external_rounds_words, external_words,
    internal_rounds_words, internal_words, mix_four_int, permutation_words, sbox_word, sbox_words,
    sum_word, word_ints, words_sum,
};
use vstd::prelude::*;

verus! {

/// An external round.
pub open spec fn external_round(s: Seq<Elt>, r: int) -> Seq<Elt> {
    external_layer(sbox_layer(add_constants(s, r)))
}

/// The external rounds from `a` up to and without `b`.
pub open spec fn external_rounds(s: Seq<Elt>, a: nat, b: nat) -> Seq<Elt>
    decreases b,
{
    if b <= a {
        s
    } else {
        external_round(external_rounds(s, a, (b - 1) as nat), b - 1)
    }
}

/// An internal round.
pub open spec fn internal_round(s: Seq<Elt>, r: int) -> Seq<Elt> {
    internal_layer(s.update(0, sbox(s[0] + base(INTERNAL_CONSTANTS[r] as int))))
}

/// The first `n` internal rounds.
pub open spec fn internal_rounds(s: Seq<Elt>, n: nat) -> Seq<Elt>
    decreases n,
{
    if n == 0 {
        s
    } else {
        internal_round(internal_rounds(s, (n - 1) as nat), n - 1)
    }
}

/// The permutation.
pub open spec fn permutation(s: Seq<Elt>) -> Seq<Elt> {
    external_rounds(internal_rounds(external_rounds(external_layer(s), 0, 4), 22), 4, 8)
}

proof fn lemma_mix_four_int(words: Seq<int>, s: Seq<Elt>, i: int)
    requires
        words.len() == 12,
        s.len() == 12,
        0 <= i < 12,
        forall|j: int| 0 <= j < 12 ==> #[trigger] s[j] == base(words[j]),
    ensures
        mix_four(s, i) == base(mix_four_int(words, i)),
        mix_four(s, i).wf(),
{
    let b = i - i % 4;
    let (a, c, d, e) = (s[b], s[b + 1], s[b + 2], s[b + 3]);
    assert(a == base(words[b]) && c == base(words[b + 1]) && d == base(words[b + 2]) && e == base(
        words[b + 3],
    ));
    lemma_mix(a, c, d, e);
    lemma_mix_words(words[b], 0, words[b + 1], 0, words[b + 2], 0, words[b + 3], 0);
}

proof fn lemma_external_int(words: Seq<int>, s: Seq<Elt>, i: int)
    requires
        words.len() == 12,
        s.len() == 12,
        0 <= i < 12,
        forall|j: int| 0 <= j < 12 ==> #[trigger] s[j] == base(words[j]),
    ensures
        external_layer(s)[i] == base(external_int(words, i)),
{
    let k = i % 4;
    lemma_mix_four_int(words, s, i);
    lemma_mix_four_int(words, s, k);
    lemma_mix_four_int(words, s, k + 4);
    lemma_mix_four_int(words, s, k + 8);
    let (x, a, b, c) = (
        mix_four_int(words, i),
        mix_four_int(words, k),
        mix_four_int(words, k + 4),
        mix_four_int(words, k + 8),
    );
    lemma_reduced_add(a, 0, b, 0);
    lemma_reduced_add(a + b, 0, c, 0);
    lemma_reduced_add(x, 0, a + b + c, 0);
}

spec fn ints(s: Seq<u128>) -> Seq<int> {
    Seq::new(s.len(), |i: int| s[i] as int)
}

fn mat4_u128(x0: u128, x1: u128, x2: u128, x3: u128) -> (r: (u128, u128, u128, u128))
    requires
        x0 < 0x1_0000_0000_0000_0000,
        x1 < 0x1_0000_0000_0000_0000,
        x2 < 0x1_0000_0000_0000_0000,
        x3 < 0x1_0000_0000_0000_0000,
    ensures
        r.0 == 2 * x0 + 3 * x1 + x2 + x3,
        r.1 == x0 + 2 * x1 + 3 * x2 + x3,
        r.2 == x0 + x1 + 2 * x2 + 3 * x3,
        r.3 == 3 * x0 + x1 + x2 + 2 * x3,
{
    let t01: u128 = x0 + x1;
    let t23: u128 = x2 + x3;
    let t0123: u128 = t01 + t23;
    (t0123 + t01 + x1, t0123 + x1 + x2 + x2, t0123 + t23 + x3, t0123 + x3 + x0 + x0)
}

/// The external linear layer on words, without reductions.
fn external_linear_layer_u128(state: &mut [u128; 12])
    requires
        forall|i: int| 0 <= i < 12 ==> #[trigger] old(state)@[i] < 0x1_0000_0000_0000_0000,
    ensures
        forall|i: int|
            0 <= i < 12 ==> #[trigger] final(state)@[i] == external_int(ints(old(state)@), i),
        forall|i: int|
            0 <= i < 12 ==> #[trigger] final(state)@[i] < 28 * 0x1_0000_0000_0000_0000,
{
    let ghost s = ints(state@);
    let (a0, a1, a2, a3) = mat4_u128(state[0], state[1], state[2], state[3]);
    let (b0, b1, b2, b3) = mat4_u128(state[4], state[5], state[6], state[7]);
    let (c0, c1, c2, c3) = mat4_u128(state[8], state[9], state[10], state[11]);
    let s0: u128 = a0 + b0 + c0;
    let s1: u128 = a1 + b1 + c1;
    let s2: u128 = a2 + b2 + c2;
    let s3: u128 = a3 + b3 + c3;
    *state = [
        a0 + s0,
        a1 + s1,
        a2 + s2,
        a3 + s3,
        b0 + s0,
        b1 + s1,
        b2 + s2,
        b3 + s3,
        c0 + s0,
        c1 + s1,
        c2 + s2,
        c3 + s3,
    ];
    proof {
        assert(mix_four_int(s, 0) == a0 && mix_four_int(s, 1) == a1 && mix_four_int(s, 2) == a2
            && mix_four_int(s, 3) == a3);
        assert(mix_four_int(s, 4) == b0 && mix_four_int(s, 5) == b1 && mix_four_int(s, 6) == b2
            && mix_four_int(s, 7) == b3);
        assert(mix_four_int(s, 8) == c0 && mix_four_int(s, 9) == c1 && mix_four_int(s, 10) == c2
            && mix_four_int(s, 11) == c3);
    }
}

/// The sum of twelve elements, reduced once.
pub fn sum_12(inputs: &[GoldilocksField; 12]) -> (r: GoldilocksField)
    ensures
        r == sum_word(inputs@),
        r.v() == sum_to(vals(inputs@), 12),
{
    let mut sum: u128 = 0;
    let mut i: usize = 0;
    while i < 12
        invariant
            i <= 12,
            sum <= i * 0xffff_ffff_ffff_ffff,
            sum == words_sum(inputs@, i as nat),
            base(sum as int) == sum_to(vals(inputs@), i as nat),
        decreases 12 - i,
    {
        proof {
            lemma_reduced_add(sum as int, 0, inputs@[i as int].0 as int, 0);
            assert(vals(inputs@)[i as int] == base(inputs@[i as int].0 as int));
        }
        sum = sum + inputs[i].to_noncanonical_u64() as u128;
        i = i + 1;
    }
    GoldilocksField::from_noncanonical_u128_with_96_bits(sum)
}

/// A kind of value on which the permutation and its layers can be computed.
pub trait Poseidon2: GateValue {
    /// The external linear layer.
    fn external_linear_layer(state: &mut [Self; 12])
        ensures
            layer_done(old(state)@, final(state)@, |s: Seq<Elt>| external_layer(s)),
    ;

    /// The internal linear layer.
    fn internal_linear_layer(state: &mut [Self; 12])
        ensures
            layer_done(old(state)@, final(state)@, |s: Seq<Elt>| internal_layer(s)),
    ;

    /// The addition of the constants of an external round.
    fn add_rc(state: &mut [Self; 12], external_round: usize)
        requires
            external_round < 8,
        ensures
            layer_done(
                old(state)@,
                final(state)@,
                |s: Seq<Elt>| add_constants(s, external_round as int),
            ),
    ;

    /// The substitution of every element.
    fn sbox(state: &mut [Self; 12])
        ensures
            layer_done(old(state)@, final(state)@, |s: Seq<Elt>| sbox_layer(s)),
    ;

    /// The substitution of one element.
    fn sbox_p(a: Self) -> (r: Self)
        ensures
            forall|l: int|
                0 <= l < Self::points() ==> #[trigger] r.at(l)
                    == crate::hash::poseidon2::layers::sbox(a.at(l)),
    ;

    /// Four external rounds, from `start` on.
    fn full_rounds(state: &mut [Self; 12], start: usize)
        requires
            start + 4 <= 8,
        ensures
            layer_done(
                old(state)@,
                final(state)@,
                |s: Seq<Elt>| external_rounds(s, start as nat, (start + 4) as nat),
            ),
    {
        let ghost before = state@;
        let mut r: usize = start;
        while r < start + 4
            invariant
                start <= r <= start + 4,
                start + 4 <= 8,
                layer_done(
                    before,
                    state@,
                    |s: Seq<Elt>| external_rounds(s, start as nat, r as nat),
                ),
            decreases start + 4 - r,
        {
            let ghost s0 = state@;
            Self::add_rc(state, r);
            let ghost s1 = state@;
            Self::sbox(state);
            let ghost s2 = state@;
            Self::external_linear_layer(state);
            proof {
                assert forall|l: int| 0 <= l < Self::points() implies #[trigger] at_point(state@, l)
                    == external_rounds(at_point(before, l), start as nat, (r + 1) as nat) by {
                    assert(at_point(s2, l) == sbox_layer(at_point(s1, l)));
                    assert(at_point(s1, l) == add_constants(at_point(s0, l), r as int));
                    assert(at_point(s0, l) == external_rounds(
                        at_point(before, l),
                        start as nat,
                        r as nat,
                    ));
                }
            }
            r = r + 1;
        }
    }

    /// The internal rounds.
    fn partial_rounds(state: &mut [Self; 12])
        ensures
            layer_done(old(state)@, final(state)@, |s: Seq<Elt>| internal_rounds(s, 22)),
    {
        let ghost before = state@;
        let mut r: usize = 0;
        while r < 22
            invariant
                r <= 22,
                layer_done(before, state@, |s: Seq<Elt>| internal_rounds(s, r as nat)),
            decreases 22 - r,
        {
            let ghost s0 = state@;
            let constant = Self::constant(INTERNAL_CONSTANTS[r]);
            let substituted = Self::sbox_p(state[0].plus(constant));
            state[0] = substituted;
            let ghost s1 = state@;
            Self::internal_linear_layer(state);
            proof {
                assert forall|l: int| 0 <= l < Self::points() implies #[trigger] at_point(state@, l)
                    == internal_rounds(at_point(before, l), (r + 1) as nat) by {
                    let p = at_point(s0, l);
                    assert(p == internal_rounds(at_point(before, l), r as nat));
                    assert(substituted.at(l) == crate::hash::poseidon2::layers::sbox(
                        p[0] + base(INTERNAL_CONSTANTS[r as int] as int),
                    ));
                    assert(at_point(s1, l) =~= p.update(0, substituted.at(l)));
                    assert(at_point(state@, l) == internal_layer(at_point(s1, l)));
                }
            }
            r = r + 1;
        }
    }

    /// The permutation.
    fn poseidon2(input: [Self; 12]) -> (r: [Self; 12])
        ensures
            layer_done(input@, r@, |s: Seq<Elt>| permutation(s)),
    {
        let mut state = input;
        Self::external_linear_layer(&mut state);
        let ghost s1 = state@;
        Self::full_rounds(&mut state, 0);
        let ghost s2 = state@;
        Self::partial_rounds(&mut state);
        let ghost s3 = state@;
        Self::full_rounds(&mut state, 4);
        proof {
            assert forall|l: int| 0 <= l < Self::points() implies #[trigger] at_point(state@, l)
                == permutation(at_point(input@, l)) by {
                assert(at_point(s1, l) == external_layer(at_point(input@, l)));
                assert(at_point(s2, l) == external_rounds(at_point(s1, l), 0, 4));
                assert(at_point(s3, l) == internal_rounds(at_point(s2, l), 22));
            }
        }
        state
    }
}

proof fn lemma_one_point(a: Seq<GoldilocksField>, l: int)
    ensures
        at_point(a, l) == vals(a),
{
    assert(at_point(a, l) =~= vals(a));
}

impl Poseidon2 for GoldilocksField {
    fn external_linear_layer(state: &mut [Self; 12])
        ensures
            final(state)@ == external_words(old(state)@),
    {
        reveal(external_words);
        let ghost before = state@;
        let mut words: [u128; 12] = [0; 12];
        let mut i: usize = 0;
        while i < 12
            invariant
                i <= 12,
                state@ == before,
                forall|j: int| 0 <= j < i ==> #[trigger] words@[j] == before[j].0,
            decreases 12 - i,
        {
            words[i] = state[i].to_noncanonical_u64() as u128;
            i = i + 1;
        }
        let ghost w0 = words@;
        external_linear_layer_u128(&mut words);
        i = 0;
        while i < 12
            invariant
                i <= 12,
                before.len() == 12,
                w0.len() == 12,
                forall|j: int| 0 <= j < 12 ==> #[trigger] w0[j] == before[j].0,
                forall|j: int|
                    0 <= j < 12 ==> #[trigger] words@[j] == external_int(ints(w0), j) && words@[j]
                        < 28 * 0x1_0000_0000_0000_0000,
                forall|j: int|
                    0 <= j < i ==> (#[trigger] state@[j]).v() == external_layer(vals(before))[j]
                        && state@[j] == external_words(before)[j],
            decreases 12 - i,
        {
            proof {
                reveal(external_words);
            }
            proof {
                assert forall|j: int| 0 <= j < 12 implies #[trigger] vals(before)[j] == base(
                    ints(w0)[j],
                ) by {
                    assert(w0[j] == before[j].0);
                }
                lemma_external_int(ints(w0), vals(before), i as int);
                assert(words@[i as int] == external_int(ints(w0), i as int));
                assert(ints(w0) =~= word_ints(before));
            }
            state[i] = GoldilocksField::from_noncanonical_u128_with_96_bits(words[i]);
            i = i + 1;
        }
        proof {
            assert(state@ =~= external_words(before));
            assert forall|l: int| 0 <= l < GoldilocksField::points() implies #[trigger] at_point(
                state@,
                l,
            ) == external_layer(at_point(before, l)) by {
                lemma_one_point(state@, l);
                lemma_one_point(before, l);
                assert(vals(state@) =~= external_layer(vals(before)));
            }
        }
    }

    fn internal_linear_layer(state: &mut [Self; 12])
        ensures
            final(state)@ == internal_words(old(state)@),
    {
        reveal(internal_words);
        let ghost before = state@;
        let sum = sum_12(state);
        let mut i: usize = 0;
        while i < 12
            invariant
                i <= 12,
                before.len() == 12,
                sum == sum_word(before),
                sum.v() == sum_to(vals(before), 12),
                forall|j: int| i <= j < 12 ==> #[trigger] state@[j] == before[j],
                forall|j: int|
                    0 <= j < i ==> (#[trigger] state@[j]).v() == internal_layer(vals(before))[j]
                        && state@[j] == internal_words(before)[j],
            decreases 12 - i,
        {
            proof {
                reveal(internal_words);
            }
            let factor = GoldilocksField(MATRIX_DIAG_12_U64[i]);
            proof {
                GoldilocksField::lemma_mac(sum, state@[i as int], factor);
            }
            state[i] = sum.multiply_accumulate(state[i], factor);
            i = i + 1;
        }
        proof {
            assert(state@ =~= internal_words(before));
            assert forall|l: int| 0 <= l < GoldilocksField::points() implies #[trigger] at_point(
                state@,
                l,
            ) == internal_layer(at_point(before, l)) by {
                lemma_one_point(state@, l);
                lemma_one_point(before, l);
                assert(vals(state@) =~= internal_layer(vals(before)));
            }
        }
    }

    fn add_rc(state: &mut [Self; 12], external_round: usize)
        ensures
            final(state)@ == constants_words(old(state)@, external_round as int),
    {
        reveal(constants_words);
        let ghost before = state@;
        let mut i: usize = 0;
        while i < 12
            invariant
                i <= 12,
                external_round < 8,
                before.len() == 12,
                forall|j: int| i <= j < 12 ==> #[trigger] state@[j] == before[j],
                forall|j: int|
                    0 <= j < i ==> (#[trigger] state@[j]).v() == add_constants(
                        vals(before),
                        external_round as int,
                    )[j] && state@[j] == constants_words(before, external_round as int)[j],
            decreases 12 - i,
        {
            proof {
                reveal(constants_words);
            }
            let constant: u64 = EXTERNAL_CONSTANTS[external_round][i];
            proof {
                lemma_external_constants(external_round as int, i as int);
            }
            state[i] = state[i].add_canonical_u64(constant);
            i = i + 1;
        }
        proof {
            assert(state@ =~= constants_words(before, external_round as int));
            assert forall|l: int| 0 <= l < GoldilocksField::points() implies #[trigger] at_point(
                state@,
                l,
            ) == add_constants(at_point(before, l), external_round as int) by {
                lemma_one_point(state@, l);
                lemma_one_point(before, l);
                assert(vals(state@) =~= add_constants(vals(before), external_round as int));
            }
        }
    }

    fn sbox(state: &mut [Self; 12])
        ensures
            final(state)@ == sbox_words(old(state)@),
    {
        reveal(sbox_words);
        let ghost before = state@;
        let mut i: usize = 0;
        while i < 12
            invariant
                i <= 12,
                before.len() == 12,
                forall|j: int| i <= j < 12 ==> #[trigger] state@[j] == before[j],
                forall|j: int|
                    0 <= j < i ==> (#[trigger] state@[j]).v() == sbox_layer(vals(before))[j]
                        && state@[j] == sbox_words(before)[j],
            decreases 12 - i,
        {
            proof {
                reveal(sbox_words);
            }
            let substituted = Self::sbox_p(state[i]);
            proof {
                assert(Self::points() == 1);
                assert(substituted.at(0) == crate::hash::poseidon2::layers::sbox(
                    state@[i as int].at(0),
                ));
            }
            state[i] = substituted;
            i = i + 1;
        }
        proof {
            assert(state@ =~= sbox_words(before));
            assert forall|l: int| 0 <= l < GoldilocksField::points() implies #[trigger] at_point(
                state@,
                l,
            ) == sbox_layer(at_point(before, l)) by {
                lemma_one_point(state@, l);
                lemma_one_point(before, l);
                assert(vals(state@) =~= sbox_layer(vals(before)));
            }
        }
    }

    fn sbox_p(a: Self) -> (r: Self)
        ensures
            r == sbox_word(a),
    {
        let a2 = a.mul(a);
        let a4 = a2.mul(a2);
        let a3 = a.mul(a2);
        proof {
            GoldilocksField::lemma_values(a);
            GoldilocksField::lemma_ops(a, a);
            GoldilocksField::lemma_ops(a2, a2);
            GoldilocksField::lemma_ops(a, a2);
            GoldilocksField::lemma_ops(a3, a4);
            lemma_seventh(a.v());
        }
        a3.mul(a4)
    }

    fn full_rounds(state: &mut [Self; 12], start: usize)
        ensures
            final(state)@ == external_rounds_words(
                old(state)@,
                start as nat,
                (start + 4) as nat,
            ),
    {
        let ghost before = state@;
        let mut r: usize = start;
        while r < start + 4
            invariant
                start <= r <= start + 4,
                start + 4 <= 8,
                before.len() == 12,
                state@ == external_rounds_words(before, start as nat, r as nat),
                vals(state@) == external_rounds(vals(before), start as nat, r as nat),
            decreases start + 4 - r,
        {
            full_round(state, r);
            r = r + 1;
        }
        proof {
            lemma_values_layer(
                before,
                state@,
                |s: Seq<Elt>| external_rounds(s, start as nat, (start + 4) as nat),
            );
        }
    }

    fn partial_rounds(state: &mut [Self; 12])
        ensures
            final(state)@ == internal_rounds_words(old(state)@, 22),
    {
        let ghost before = state@;
        let mut r: usize = 0;
        while r < 22
            invariant
                r <= 22,
                before.len() == 12,
                state@ == internal_rounds_words(before, r as nat),
                vals(state@) == internal_rounds(vals(before), r as nat),
            decreases 22 - r,
        {
            let ghost s0 = state@;
            let constant = GoldilocksField(INTERNAL_CONSTANTS[r]);
            let substituted = Self::sbox_p(state[0].add(constant));
            proof {
                GoldilocksField::lemma_ops(s0[0], constant);
                assert(Self::points() == 1);
                assert(substituted.at(0) == crate::hash::poseidon2::layers::sbox(
                    s0[0].s_add(constant).at(0),
                ));
            }
            state[0] = substituted;
            let ghost s1 = state@;
            Self::internal_linear_layer(state);
            proof {
                assert(vals(s0)[0] == s0[0].v());
                assert(vals(s1) =~= vals(s0).update(0, substituted.v()));
                lemma_layer_values(s1, state@, |s: Seq<Elt>| internal_layer(s));
            }
            r = r + 1;
        }
        proof {
            lemma_values_layer(before, state@, |s: Seq<Elt>| internal_rounds(s, 22));
        }
    }

    fn poseidon2(input: [Self; 12]) -> (r: [Self; 12])
        ensures
            r@ == permutation_words(input@),
    {
        let mut state = input;
        Self::external_linear_layer(&mut state);
        let ghost s1 = state@;
        Self::full_rounds(&mut state, 0);
        let ghost s2 = state@;
        Self::partial_rounds(&mut state);
        let ghost s3 = state@;
        Self::full_rounds(&mut state, 4);
        proof {
            lemma_layer_values(input@, s1, |s: Seq<Elt>| external_layer(s));
            lemma_layer_values(s1, s2, |s: Seq<Elt>| external_rounds(s, 0, 4));
            lemma_layer_values(s2, s3, |s: Seq<Elt>| internal_rounds(s, 22));
            lemma_layer_values(s3, state@, |s: Seq<Elt>| external_rounds(s, 4, 8));
            lemma_values_layer(input@, state@, |s: Seq<Elt>| permutation(s));
        }
        state
    }
}

/// One external round.
fn full_round(state: &mut [GoldilocksField; 12], r: usize)
    requires
        r < 8,
    ensures
        final(state)@ == external_round_words(old(state)@, r as int),
        vals(final(state)@) == external_round(vals(old(state)@), r as int),
{
    let ghost s0 = state@;
    GoldilocksField::add_rc(state, r);
    let ghost s1 = state@;
    <GoldilocksField as Poseidon2>::sbox(state);
    let ghost s2 = state@;
    GoldilocksField::external_linear_layer(state);
    proof {
        lemma_layer_values(s0, s1, |s: Seq<Elt>| add_constants(s, r as int));
        lemma_layer_values(s1, s2, |s: Seq<Elt>| sbox_layer(s));
        lemma_layer_values(s2, state@, |s: Seq<Elt>| external_layer(s));
    }
}

proof fn lemma_layer_values(
    before: Seq<GoldilocksField>,
    after: Seq<GoldilocksField>,
    layer: spec_fn(Seq<Elt>) -> Seq<Elt>,
)
    requires
        layer_done(before, after, layer),
    ensures
        vals(after) == layer(vals(before)),
{
    lemma_one_point(before, 0);
    lemma_one_point(after, 0);
    assert(GoldilocksField::points() == 1);
    assert(at_point(after, 0) == layer(at_point(before, 0)));
}

proof fn lemma_values_layer(
    before: Seq<GoldilocksField>,
    after: Seq<GoldilocksField>,
    layer: spec_fn(Seq<Elt>) -> Seq<Elt>,
)
    requires
        vals(after) == layer(vals(before)),
        after.len() == before.len(),
    ensures
        layer_done(before, after, layer),
{
    assert forall|l: int| 0 <= l < GoldilocksField::points() implies #[trigger] at_point(after, l)
        == layer(at_point(before, l)) by {
        lemma_one_point(before, l);
        lemma_one_point(after, l);
    }
}

/// The constants of the external rounds are below the order of the field.
proof fn lemma_external_constants(r: int, i: int)
    requires
        0 <= r < 8,
        0 <= i < 12,
    ensures
        EXTERNAL_CONSTANTS[r][i] < ORDER,
{
    assert(r == 0 || r == 1 || r == 2 || r == 3 || r == 4 || r == 5 || r == 6 || r == 7);
    assert(i == 0 || i == 1 || i == 2 || i == 3 || i == 4 || i == 5 || i == 6 || i == 7 || i == 8
        || i == 9 || i == 10 || i == 11);
}

impl Poseidon2 for QuadraticExtension {
    fn external_linear_layer(state: &mut [Self; 12]) {
        external_linear_layer_extension(state);
    }

    fn internal_linear_layer(state: &mut [Self; 12]) {
        internal_linear_layer_extension(state);
    }

    fn add_rc(state: &mut [Self; 12], external_round: usize) {
        add_rc_extension(state, external_round);
    }

    fn sbox(state: &mut [Self; 12]) {
        sbox_extension(state);
    }

    fn sbox_p(a: Self) -> (r: Self) {
        sbox_p_extension(a)
    }
}

impl<P: PackedField> Poseidon2 for P {
    fn external_linear_layer(state: &mut [Self; 12]) {
        external_linear_layer_extension(state);
    }

    fn internal_linear_layer(state: &mut [Self; 12]) {
        internal_linear_layer_extension(state);
    }

    fn add_rc(state: &mut [Self; 12], external_round: usize) {
        add_rc_extension(state, external_round);
    }

    fn sbox(state: &mut [Self; 12]) {
        sbox_extension(state);
    }

    fn sbox_p(a: Self) -> (r: Self) {
        sbox_p_extension(a)
    }
}

} // verus!
