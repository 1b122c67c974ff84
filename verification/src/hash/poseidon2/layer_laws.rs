//! The matrices of the linear layers, entry by entry.

use crate::field::dft::{all_wf, eval_poly};
use crate::field::model::{
    Elt, base, elt1, lemma_mul_one_zero, lemma_reduced_add, lemma_reduced_mul, lemma_reduced_self,
    reduced,
};
use crate::field::poly_laws::lemma_eval_push;
use crate::field::roots::{lemma_power_one, power};
use crate::hash::poseidon2::config::{EXTERNAL_CONSTANTS, INTERNAL_CONSTANTS, MATRIX_DIAG_12_U64};
use crate::hash::poseidon2::layers::{
    add_constants, combine, external_layer, internal_layer, mix_four, sbox, sbox_layer, sum_to,
};
use crate::hash::poseidon2::matmul_circuit::matmul_blocks;
use crate::hash::poseidon2::permutation::{external_rounds, internal_rounds, permutation};
use vstd::prelude::*;

verus! {

/// A combination with integer factors is the sum of the elements, each multiplied by its factor.
pub proof fn lemma_combine(
    k0: int,
    x0: Elt,
    k1: int,
    x1: Elt,
    k2: int,
    x2: Elt,
    k3: int,
    x3: Elt,
)
    requires
        x0.wf(),
        x1.wf(),
        x2.wf(),
        x3.wf(),
    ensures
        combine(k0, x0, k1, x1, k2, x2, k3, x3) == ((base(k0) * x0 + base(k1) * x1) + base(k2) * x2)
            + base(k3) * x3,
{
    lemma_scaled(k0, x0);
    lemma_scaled(k1, x1);
    lemma_scaled(k2, x2);
    lemma_scaled(k3, x3);
    let (a, b) = (k0 * x0.re + k1 * x1.re, k0 * x0.im + k1 * x1.im);
    lemma_reduced_add(k0 * x0.re, k0 * x0.im, k1 * x1.re, k1 * x1.im);
    lemma_reduced_add(a, b, k2 * x2.re, k2 * x2.im);
    lemma_reduced_add(a + k2 * x2.re, b + k2 * x2.im, k3 * x3.re, k3 * x3.im);
}

proof fn lemma_scaled(k: int, x: Elt)
    requires
        x.wf(),
    ensures
        base(k) * x == reduced(k * x.re, k * x.im),
{
    lemma_reduced_self(x);
    lemma_reduced_mul(k, 0, x.re, x.im);
    assert(0 * x.im == 0 && 0 * x.re == 0);
}

/// Row `k` of the circulant matrix with the first row `2 3 1 1`, times four elements: a row is the
/// one before it, turned by one place.
pub open spec fn circulant_row(k: int, x0: Elt, x1: Elt, x2: Elt, x3: Elt) -> Elt {
    if k == 0 {
        ((base(2) * x0 + base(3) * x1) + base(1) * x2) + base(1) * x3
    } else if k == 1 {
        ((base(1) * x0 + base(2) * x1) + base(3) * x2) + base(1) * x3
    } else if k == 2 {
        ((base(1) * x0 + base(1) * x1) + base(2) * x2) + base(3) * x3
    } else {
        ((base(3) * x0 + base(1) * x1) + base(1) * x2) + base(2) * x3
    }
}

/// The external linear layer, on three blocks of four: each block is multiplied by the circulant
/// matrix, and the sum of the three products is added to each of them.
pub proof fn lemma_external_rows(s: Seq<Elt>, q: int, k: int)
    requires
        s.len() == 12,
        all_wf(s),
        0 <= q < 3,
        0 <= k < 4,
    ensures
        external_layer(s)[4 * q + k] == circulant_row(
            k,
            s[4 * q],
            s[4 * q + 1],
            s[4 * q + 2],
            s[4 * q + 3],
        ) + ((circulant_row(k, s[0], s[1], s[2], s[3]) + circulant_row(k, s[4], s[5], s[6], s[7]))
            + circulant_row(k, s[8], s[9], s[10], s[11])),
{
    lemma_block_row(s, q, k);
    lemma_block_row(s, 0, k);
    lemma_block_row(s, 1, k);
    lemma_block_row(s, 2, k);
    assert((4 * q + k) % 4 == k);
}

proof fn lemma_block_row(s: Seq<Elt>, b: int, k: int)
    requires
        s.len() == 12,
        all_wf(s),
        0 <= b < 3,
        0 <= k < 4,
    ensures
        mix_four(s, 4 * b + k) == circulant_row(
            k,
            s[4 * b],
            s[4 * b + 1],
            s[4 * b + 2],
            s[4 * b + 3],
        ),
{
    let (x0, x1, x2, x3) = (s[4 * b], s[4 * b + 1], s[4 * b + 2], s[4 * b + 3]);
    assert(x0.wf() && x1.wf() && x2.wf() && x3.wf());
    lemma_combine(2, x0, 3, x1, 1, x2, 1, x3);
    lemma_combine(1, x0, 2, x1, 3, x2, 1, x3);
    lemma_combine(1, x0, 1, x1, 2, x2, 3, x3);
    lemma_combine(3, x0, 1, x1, 1, x2, 2, x3);
    assert((4 * b + k) % 4 == k);
    assert(4 * b + k - k == 4 * b);
}

/// The internal linear layer: every entry gets the sum of all entries, and itself times its entry of
/// the diagonal. The sum is the polynomial with the entries as coefficients, at one.
pub proof fn lemma_internal_rows(s: Seq<Elt>, i: int)
    requires
        s.len() == 12,
        all_wf(s),
        0 <= i < 12,
    ensures
        internal_layer(s)[i] == eval_poly(s, elt1()) + s[i] * base(MATRIX_DIAG_12_U64[i] as int),
{
    lemma_sum_is_value(s, 12);
    assert(s.take(12) =~= s);
}

proof fn lemma_sum_is_value(s: Seq<Elt>, n: nat)
    requires
        all_wf(s),
        n <= s.len(),
    ensures
        sum_to(s, n) == eval_poly(s.take(n as int), elt1()),
    decreases n,
{
    if n > 0 {
        let m = (n - 1) as nat;
        lemma_sum_is_value(s, m);
        let c = s.take(m as int);
        let x = s[m as int];
        assert(x.wf());
        assert forall|i: int| 0 <= i < c.len() implies (#[trigger] c[i]).wf() by {
            assert(s[i].wf());
        }
        lemma_eval_push(c, x, elt1());
        assert(c.push(x) =~= s.take(n as int));
        lemma_power_one(m);
        lemma_mul_one_zero(x);
    }
}

/// The matrix on blocks of four with the rows `5 7 1 3`, `4 6 1 1`, `1 3 5 7` and `1 1 4 6`.
pub proof fn lemma_matmul_rows(s: Seq<Elt>, b: int)
    requires
        s.len() == 12,
        all_wf(s),
        0 <= b < 3,
    ensures
        ({
            let (x0, x1, x2, x3) = (s[4 * b], s[4 * b + 1], s[4 * b + 2], s[4 * b + 3]);
            let r = matmul_blocks(s);
            &&& r.len() == 12
            &&& r[4 * b] == ((base(5) * x0 + base(7) * x1) + base(1) * x2) + base(3) * x3
            &&& r[4 * b + 1] == ((base(4) * x0 + base(6) * x1) + base(1) * x2) + base(1) * x3
            &&& r[4 * b + 2] == ((base(1) * x0 + base(3) * x1) + base(5) * x2) + base(7) * x3
            &&& r[4 * b + 3] == ((base(1) * x0 + base(1) * x1) + base(4) * x2) + base(6) * x3
        }),
{
    let (x0, x1, x2, x3) = (s[4 * b], s[4 * b + 1], s[4 * b + 2], s[4 * b + 3]);
    assert(x0.wf() && x1.wf() && x2.wf() && x3.wf());
    lemma_combine(5, x0, 7, x1, 1, x2, 3, x3);
    lemma_combine(4, x0, 6, x1, 1, x2, 1, x3);
    lemma_combine(1, x0, 3, x1, 5, x2, 7, x3);
    lemma_combine(1, x0, 1, x1, 4, x2, 6, x3);
    assert((4 * b) % 4 == 0 && (4 * b + 1) % 4 == 1 && (4 * b + 2) % 4 == 2 && (4 * b + 3) % 4
        == 3);
}

/// The permutation: the external linear layer, four external rounds, twenty-two internal rounds, and
/// four external rounds more. An external round adds its constants, takes seventh powers and mixes;
/// an internal round does the first two to the first entry alone.
pub proof fn lemma_rounds(s: Seq<Elt>, r: nat)
    requires
        s.len() == 12,
    ensures
        r < 8 ==> external_rounds(s, r, r + 1) == external_layer(
            Seq::new(12, |i: int| power(s[i] + base(EXTERNAL_CONSTANTS[r as int][i] as int), 7)),
        ),
        r < 22 ==> internal_rounds(s, r + 1) == internal_layer(
            Seq::new(
                12,
                |i: int|
                    if i == 0 {
                        power(
                            internal_rounds(s, r)[0] + base(INTERNAL_CONSTANTS[r as int] as int),
                            7,
                        )
                    } else {
                        internal_rounds(s, r)[i]
                    },
            ),
        ),
        internal_rounds(s, 0) == s,
        permutation(s) == external_rounds(
            internal_rounds(external_rounds(external_layer(s), 0, 4), 22),
            4,
            8,
        ),
        forall|a: nat, b: nat, c: nat|
            a <= b <= c ==> #[trigger] external_rounds(external_rounds(s, a, b), b, c)
                == external_rounds(s, a, c),
{
    if r < 8 {
        assert(external_rounds(s, r, r) == s);
        assert(sbox_layer(add_constants(s, r as int)) =~= Seq::new(
            12,
            |i: int| power(s[i] + base(EXTERNAL_CONSTANTS[r as int][i] as int), 7),
        ));
    }
    if r < 22 {
        let t = internal_rounds(s, r);
        lemma_internal_rounds_len(s, r);
        assert(t.update(0, sbox(t[0] + base(INTERNAL_CONSTANTS[r as int] as int))) =~= Seq::new(
            12,
            |i: int|
                if i == 0 {
                    power(t[0] + base(INTERNAL_CONSTANTS[r as int] as int), 7)
                } else {
                    t[i]
                },
        ));
    }
    assert forall|a: nat, b: nat, c: nat| a <= b <= c implies #[trigger] external_rounds(
        external_rounds(s, a, b),
        b,
        c,
    ) == external_rounds(s, a, c) by {
        lemma_external_rounds_compose(s, a, b, c);
    }
}

proof fn lemma_internal_rounds_len(s: Seq<Elt>, n: nat)
    requires
        s.len() == 12,
    ensures
        internal_rounds(s, n).len() == 12,
    decreases n,
{
    if n > 0 {
        lemma_internal_rounds_len(s, (n - 1) as nat);
    }
}

proof fn lemma_external_rounds_compose(s: Seq<Elt>, a: nat, b: nat, c: nat)
    requires
        a <= b <= c,
    ensures
        external_rounds(external_rounds(s, a, b), b, c) == external_rounds(s, a, c),
    decreases c,
{
    if c > b {
        lemma_external_rounds_compose(s, a, b, (c - 1) as nat);
    }
}

} // verus!
