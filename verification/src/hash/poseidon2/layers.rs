//! The layers of the permutation.

use crate::field::model::{Elt, base, elt0, lemma_reduced_add, lemma_reduced_self, reduced};
use crate::field::roots::{lemma_power_add, lemma_power_small, power};
use crate::gates::value::GateValue;
use crate::hash::poseidon2::config::{EXTERNAL_CONSTANTS, MATRIX_DIAG_12_U64};
use vstd::prelude::*;

verus! {

/// A combination of four elements with integer factors.
pub open spec fn combine(
    k0: int,
    x0: Elt,
    k1: int,
    x1: Elt,
    k2: int,
    x2: Elt,
    k3: int,
    x3: Elt,
) -> Elt {
    reduced(
        k0 * x0.re + k1 * x1.re + k2 * x2.re + k3 * x3.re,
        k0 * x0.im + k1 * x1.im + k2 * x2.im + k3 * x3.im,
    )
}

/// Element `i` after each block of four has been multiplied by the matrix with the rows
/// `2 3 1 1`, `1 2 3 1`, `1 1 2 3` and `3 1 1 2`.
pub open spec fn mix_four(s: Seq<Elt>, i: int) -> Elt {
    let b = i - i % 4;
    if i % 4 == 0 {
        combine(2, s[b], 3, s[b + 1], 1, s[b + 2], 1, s[b + 3])
    } else if i % 4 == 1 {
        combine(1, s[b], 2, s[b + 1], 3, s[b + 2], 1, s[b + 3])
    } else if i % 4 == 2 {
        combine(1, s[b], 1, s[b + 1], 2, s[b + 2], 3, s[b + 3])
    } else {
        combine(3, s[b], 1, s[b + 1], 1, s[b + 2], 2, s[b + 3])
    }
}

/// The sum of the elements at the same place of each block.
pub open spec fn block_sum(s: Seq<Elt>, k: int) -> Elt {
    (mix_four(s, k) + mix_four(s, k + 4)) + mix_four(s, k + 8)
}

/// The external linear layer.
pub open spec fn external_layer(s: Seq<Elt>) -> Seq<Elt> {
    Seq::new(12, |i: int| mix_four(s, i) + block_sum(s, i % 4))
}

/// The sum of the first `n` elements.
pub open spec fn sum_to(s: Seq<Elt>, n: nat) -> Elt
    decreases n,
{
    if n == 0 {
        elt0()
    } else {
        sum_to(s, (n - 1) as nat) + s[n - 1]
    }
}

/// The internal linear layer: the all-ones matrix plus a diagonal one.
pub open spec fn internal_layer(s: Seq<Elt>) -> Seq<Elt> {
    Seq::new(12, |i: int| sum_to(s, 12) + s[i] * base(MATRIX_DIAG_12_U64[i] as int))
}

/// The substitution of one element.
pub open spec fn sbox(x: Elt) -> Elt {
    power(x, 7)
}

/// The substitution of every element.
pub open spec fn sbox_layer(s: Seq<Elt>) -> Seq<Elt> {
    Seq::new(12, |i: int| sbox(s[i]))
}

/// The addition of the constants of an external round.
pub open spec fn add_constants(s: Seq<Elt>, r: int) -> Seq<Elt> {
    Seq::new(12, |i: int| s[i] + base(EXTERNAL_CONSTANTS[r][i] as int))
}

/// The values of a state at point `l`.
pub open spec fn at_point<T: GateValue>(s: Seq<T>, l: int) -> Seq<Elt> {
    Seq::new(s.len(), |i: int| s[i].at(l))
}

/// What a layer has to do at every point.
pub open spec fn layer_done<T: GateValue>(
    before: Seq<T>,
    after: Seq<T>,
    layer: spec_fn(Seq<Elt>) -> Seq<Elt>,
) -> bool {
    forall|l: int|
        0 <= l < T::points() ==> #[trigger] at_point(after, l) == layer(at_point(before, l))
}

/// The sums that are computed are the combinations of the matrix.
pub proof fn lemma_mix(a: Elt, b: Elt, c: Elt, d: Elt)
    requires
        a.wf(),
        b.wf(),
        c.wf(),
        d.wf(),
    ensures
        (((a + b) + (c + d)) + (a + b)) + b == combine(2, a, 3, b, 1, c, 1, d),
        ((((a + b) + (c + d)) + b) + c) + c == combine(1, a, 2, b, 3, c, 1, d),
        (((a + b) + (c + d)) + (c + d)) + d == combine(1, a, 1, b, 2, c, 3, d),
        ((((a + b) + (c + d)) + d) + a) + a == combine(3, a, 1, b, 1, c, 2, d),
{
    lemma_reduced_self(a);
    lemma_reduced_self(b);
    lemma_reduced_self(c);
    lemma_reduced_self(d);
    lemma_mix_words(a.re, a.im, b.re, b.im, c.re, c.im, d.re, d.im);
}

/// The same for coordinates that need not be reduced.
pub proof fn lemma_mix_words(
    a: int,
    a1: int,
    b: int,
    b1: int,
    c: int,
    c1: int,
    d: int,
    d1: int,
)
    ensures
        ({
            let (x, y, z, w) = (reduced(a, a1), reduced(b, b1), reduced(c, c1), reduced(d, d1));
            &&& (((x + y) + (z + w)) + (x + y)) + y == reduced(
                2 * a + 3 * b + c + d,
                2 * a1 + 3 * b1 + c1 + d1,
            )
            &&& ((((x + y) + (z + w)) + y) + z) + z == reduced(
                a + 2 * b + 3 * c + d,
                a1 + 2 * b1 + 3 * c1 + d1,
            )
            &&& (((x + y) + (z + w)) + (z + w)) + w == reduced(
                a + b + 2 * c + 3 * d,
                a1 + b1 + 2 * c1 + 3 * d1,
            )
            &&& ((((x + y) + (z + w)) + w) + x) + x == reduced(
                3 * a + b + c + 2 * d,
                3 * a1 + b1 + c1 + 2 * d1,
            )
        }),
{
    lemma_reduced_add(a, a1, b, b1);
    lemma_reduced_add(c, c1, d, d1);
    lemma_reduced_add(a + b, a1 + b1, c + d, c1 + d1);
    let (t, t1) = (a + b + (c + d), a1 + b1 + (c1 + d1));
    lemma_reduced_add(t, t1, a + b, a1 + b1);
    lemma_reduced_add(t + (a + b), t1 + (a1 + b1), b, b1);
    lemma_reduced_add(t, t1, b, b1);
    lemma_reduced_add(t + b, t1 + b1, c, c1);
    lemma_reduced_add(t + b + c, t1 + b1 + c1, c, c1);
    lemma_reduced_add(t, t1, c + d, c1 + d1);
    lemma_reduced_add(t + (c + d), t1 + (c1 + d1), d, d1);
    lemma_reduced_add(t, t1, d, d1);
    lemma_reduced_add(t + d, t1 + d1, a, a1);
    lemma_reduced_add(t + d + a, t1 + d1 + a1, a, a1);
}

proof fn lemma_mix_at<T: GateValue>(x0: T, x1: T, x2: T, x3: T, l: int)
    requires
        0 <= l < T::points(),
    ensures
        ({
            let (a, b, c, d) = (x0.at(l), x1.at(l), x2.at(l), x3.at(l));
            &&& (((a + b) + (c + d)) + (a + b)) + b == combine(2, a, 3, b, 1, c, 1, d)
            &&& ((((a + b) + (c + d)) + b) + c) + c == combine(1, a, 2, b, 3, c, 1, d)
            &&& (((a + b) + (c + d)) + (c + d)) + d == combine(1, a, 1, b, 2, c, 3, d)
            &&& ((((a + b) + (c + d)) + d) + a) + a == combine(3, a, 1, b, 1, c, 2, d)
        }),
{
    T::lemma_at(x0, l);
    T::lemma_at(x1, l);
    T::lemma_at(x2, l);
    T::lemma_at(x3, l);
    lemma_mix(x0.at(l), x1.at(l), x2.at(l), x3.at(l));
}

/// Multiplies four values by the matrix with the rows `2 3 1 1`, `1 2 3 1`, `1 1 2 3`, `3 1 1 2`.
pub fn apply_mat4<T: GateValue>(x0: T, x1: T, x2: T, x3: T) -> (r: (T, T, T, T))
    ensures
        forall|l: int|
            0 <= l < T::points() ==> #[trigger] r.0.at(l) == combine(
                2,
                x0.at(l),
                3,
                x1.at(l),
                1,
                x2.at(l),
                1,
                x3.at(l),
            ),
        forall|l: int|
            0 <= l < T::points() ==> #[trigger] r.1.at(l) == combine(
                1,
                x0.at(l),
                2,
                x1.at(l),
                3,
                x2.at(l),
                1,
                x3.at(l),
            ),
        forall|l: int|
            0 <= l < T::points() ==> #[trigger] r.2.at(l) == combine(
                1,
                x0.at(l),
                1,
                x1.at(l),
                2,
                x2.at(l),
                3,
                x3.at(l),
            ),
        forall|l: int|
            0 <= l < T::points() ==> #[trigger] r.3.at(l) == combine(
                3,
                x0.at(l),
                1,
                x1.at(l),
                1,
                x2.at(l),
                2,
                x3.at(l),
            ),
{
    let t01 = x0.plus(x1);
    let t23 = x2.plus(x3);
    let t0123 = t01.plus(t23);
    let y0 = t0123.plus(t01).plus(x1);
    let y1 = t0123.plus(x1).plus(x2).plus(x2);
    let y2 = t0123.plus(t23).plus(x3);
    let y3 = t0123.plus(x3).plus(x0).plus(x0);
    proof {
        assert forall|l: int| 0 <= l < T::points() implies #[trigger] y0.at(l) == combine(
            2,
            x0.at(l),
            3,
            x1.at(l),
            1,
            x2.at(l),
            1,
            x3.at(l),
        ) by {
            lemma_mix_at(x0, x1, x2, x3, l);
        }
        assert forall|l: int| 0 <= l < T::points() implies #[trigger] y1.at(l) == combine(
            1,
            x0.at(l),
            2,
            x1.at(l),
            3,
            x2.at(l),
            1,
            x3.at(l),
        ) by {
            lemma_mix_at(x0, x1, x2, x3, l);
        }
        assert forall|l: int| 0 <= l < T::points() implies #[trigger] y2.at(l) == combine(
            1,
            x0.at(l),
            1,
            x1.at(l),
            2,
            x2.at(l),
            3,
            x3.at(l),
        ) by {
            lemma_mix_at(x0, x1, x2, x3, l);
        }
        assert forall|l: int| 0 <= l < T::points() implies #[trigger] y3.at(l) == combine(
            3,
            x0.at(l),
            1,
            x1.at(l),
            1,
            x2.at(l),
            2,
            x3.at(l),
        ) by {
            lemma_mix_at(x0, x1, x2, x3, l);
        }
    }
    (y0, y1, y2, y3)
}

/// The external linear layer, one addition at a time.
pub fn external_linear_layer_extension<T: GateValue>(state: &mut [T; 12])
    ensures
        layer_done(old(state)@, final(state)@, |s: Seq<Elt>| external_layer(s)),
{
    let ghost before = state@;
    let (a0, a1, a2, a3) = apply_mat4(state[0], state[1], state[2], state[3]);
    let (b0, b1, b2, b3) = apply_mat4(state[4], state[5], state[6], state[7]);
    let (c0, c1, c2, c3) = apply_mat4(state[8], state[9], state[10], state[11]);
    let s0 = a0.plus(b0).plus(c0);
    let s1 = a1.plus(b1).plus(c1);
    let s2 = a2.plus(b2).plus(c2);
    let s3 = a3.plus(b3).plus(c3);
    state[0] = a0.plus(s0);
    state[1] = a1.plus(s1);
    state[2] = a2.plus(s2);
    state[3] = a3.plus(s3);
    state[4] = b0.plus(s0);
    state[5] = b1.plus(s1);
    state[6] = b2.plus(s2);
    state[7] = b3.plus(s3);
    state[8] = c0.plus(s0);
    state[9] = c1.plus(s1);
    state[10] = c2.plus(s2);
    state[11] = c3.plus(s3);
    proof {
        assert forall|l: int| 0 <= l < T::points() implies #[trigger] at_point(state@, l)
            == external_layer(at_point(before, l)) by {
            let s = at_point(before, l);
            assert(block_sum(s, 0) == s0.at(l));
            assert(block_sum(s, 1) == s1.at(l));
            assert(block_sum(s, 2) == s2.at(l));
            assert(block_sum(s, 3) == s3.at(l));
            assert(at_point(state@, l) =~= external_layer(s));
        }
    }
}

/// The internal linear layer, one operation at a time.
pub fn internal_linear_layer_extension<T: GateValue>(state: &mut [T; 12])
    ensures
        layer_done(old(state)@, final(state)@, |s: Seq<Elt>| internal_layer(s)),
{
    let ghost before = state@;
    let mut sum = T::constant(0);
    let mut i: usize = 0;
    while i < 12
        invariant
            i <= 12,
            state@ == before,
            forall|l: int|
                0 <= l < T::points() ==> #[trigger] sum.at(l) == sum_to(
                    at_point(before, l),
                    i as nat,
                ),
        decreases 12 - i,
    {
        let next = sum.plus(state[i]);
        proof {
            assert forall|l: int| 0 <= l < T::points() implies #[trigger] next.at(l) == sum_to(
                at_point(before, l),
                (i + 1) as nat,
            ) by {
                assert(sum.at(l) == sum_to(at_point(before, l), i as nat));
            }
        }
        sum = next;
        i = i + 1;
    }
    i = 0;
    while i < 12
        invariant
            i <= 12,
            before.len() == 12,
            forall|l: int|
                0 <= l < T::points() ==> #[trigger] sum.at(l) == sum_to(at_point(before, l), 12),
            forall|j: int| i <= j < 12 ==> #[trigger] state@[j] == before[j],
            forall|j: int, l: int|
                0 <= j < i && 0 <= l < T::points() ==> #[trigger] state@[j].at(l)
                    == internal_layer(at_point(before, l))[j],
        decreases 12 - i,
    {
        let factor = T::constant(MATRIX_DIAG_12_U64[i]);
        let next = sum.plus_times(state[i], factor);
        proof {
            assert forall|l: int| 0 <= l < T::points() implies #[trigger] next.at(l)
                == internal_layer(at_point(before, l))[i as int] by {
                assert(sum.at(l) == sum_to(at_point(before, l), 12));
                assert(factor.at(l) == base(MATRIX_DIAG_12_U64[i as int] as int));
            }
        }
        state[i] = next;
        i = i + 1;
    }
    proof {
        assert forall|l: int| 0 <= l < T::points() implies #[trigger] at_point(state@, l)
            == internal_layer(at_point(before, l)) by {
            assert(at_point(state@, l) =~= internal_layer(at_point(before, l)));
        }
    }
}

/// The seventh power by squarings.
pub proof fn lemma_seventh(x: Elt)
    requires
        x.wf(),
    ensures
        (x * (x * x)) * ((x * x) * (x * x)) == sbox(x),
{
    lemma_power_small(x);
    lemma_power_add(x, 2, 2);
    lemma_power_add(x, 1, 2);
    lemma_power_add(x, 3, 4);
}

/// The substitution of one value by its seventh power.
pub fn sbox_p_extension<T: GateValue>(a: T) -> (r: T)
    ensures
        forall|l: int| 0 <= l < T::points() ==> #[trigger] r.at(l) == sbox(a.at(l)),
{
    let a2 = a.times(a);
    let a4 = a2.times(a2);
    let a3 = a.times(a2);
    let r = a3.times(a4);
    proof {
        assert forall|l: int| 0 <= l < T::points() implies #[trigger] r.at(l) == sbox(a.at(l)) by {
            T::lemma_at(a, l);
            lemma_seventh(a.at(l));
            assert(a2.at(l) == a.at(l) * a.at(l));
            assert(a4.at(l) == a2.at(l) * a2.at(l));
            assert(a3.at(l) == a.at(l) * a2.at(l));
        }
    }
    r
}

/// The substitution of every value.
pub fn sbox_extension<T: GateValue>(state: &mut [T; 12])
    ensures
        layer_done(old(state)@, final(state)@, |s: Seq<Elt>| sbox_layer(s)),
{
    let ghost before = state@;
    let mut i: usize = 0;
    while i < 12
        invariant
            i <= 12,
            before.len() == 12,
            forall|j: int| i <= j < 12 ==> #[trigger] state@[j] == before[j],
            forall|j: int, l: int|
                0 <= j < i && 0 <= l < T::points() ==> #[trigger] state@[j].at(l) == sbox(
                    before[j].at(l),
                ),
        decreases 12 - i,
    {
        state[i] = sbox_p_extension(state[i]);
        i = i + 1;
    }
    proof {
        assert forall|l: int| 0 <= l < T::points() implies #[trigger] at_point(state@, l)
            == sbox_layer(at_point(before, l)) by {
            assert(at_point(state@, l) =~= sbox_layer(at_point(before, l)));
        }
    }
}

/// The addition of the constants of an external round.
pub fn add_rc_extension<T: GateValue>(state: &mut [T; 12], external_round: usize)
    requires
        external_round < 8,
    ensures
        layer_done(
            old(state)@,
            final(state)@,
            |s: Seq<Elt>| add_constants(s, external_round as int),
        ),
{
    let ghost before = state@;
    let mut i: usize = 0;
    while i < 12
        invariant
            i <= 12,
            external_round < 8,
            before.len() == 12,
            forall|j: int| i <= j < 12 ==> #[trigger] state@[j] == before[j],
            forall|j: int, l: int|
                0 <= j < i && 0 <= l < T::points() ==> #[trigger] state@[j].at(l) == before[j].at(l)
                    + base(EXTERNAL_CONSTANTS[external_round as int][j] as int),
        decreases 12 - i,
    {
        let constant = T::constant(EXTERNAL_CONSTANTS[external_round][i]);
        state[i] = state[i].plus(constant);
        i = i + 1;
    }
    proof {
        assert forall|l: int| 0 <= l < T::points() implies #[trigger] at_point(state@, l)
            == add_constants(at_point(before, l), external_round as int) by {
            assert(at_point(state@, l) =~= add_constants(
                at_point(before, l),
                external_round as int,
            ));
        }
    }
}

} // verus!
