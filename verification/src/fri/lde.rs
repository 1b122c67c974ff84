//! Low-degree extensions: the values of polynomials on a coset that is larger than their degree
//! asks for.

use crate::field::batch_util::batch_multiply_inplace;
use crate::field::coset::{coset_dft, lemma_coset_dft, lemma_vals_wf, shifted_elts};
use crate::field::dft::{
    all_wf, dft, eval_poly, eval_strided, lemma_eval_zero, lemma_root_full, padded, table_ok,
};
use crate::field::fft::{FftRootTable, fft_done, fft_in_place_with_options, table_shape};
use crate::field::goldilocks_field::{GoldilocksField, MULTIPLICATIVE_GROUP_GENERATOR};
use crate::field::model::{Elt, elt0, group_elt_wf, lemma_mul_comm};
use crate::field::polynomial::{PolynomialCoeffs, copy_vec};
use crate::field::roots::{lemma_power_wf, power, root};
use crate::field::types::{Field, lemma_s_power, powers, s_power, vals};
use crate::util::bits::{is_power_of_two, lemma_log2, log2, two_pow};
use vstd::arithmetic::power2::{lemma_pow2_adds, lemma_pow2_pos, pow2};
use vstd::prelude::*;

verus! {

/// The shift of the coset that polynomials are extended to.
pub open spec fn coset_shift_elt() -> Elt {
    GoldilocksField(MULTIPLICATIVE_GROUP_GENERATOR).v()
}

/// The words that are transformed: the coefficients multiplied by the powers of the shift, and
/// zeros after them.
pub open spec fn lde_words(c: Seq<GoldilocksField>, rate_bits: nat) -> Seq<GoldilocksField> {
    Seq::new(
        c.len() * pow2(rate_bits),
        |i: int|
            if i < c.len() {
                c[i].s_mul(
                    s_power(GoldilocksField(MULTIPLICATIVE_GROUP_GENERATOR), i as nat),
                )
            } else {
                GoldilocksField::s_const(0)
            },
    )
}

/// The values of a polynomial on the coset with `2^rate_bits` times as many points as the
/// polynomial has coefficients.
pub open spec fn lde_of(c: Seq<Elt>, rate_bits: nat) -> Seq<Elt> {
    coset_dft(c, coset_shift_elt(), log2(c.len()) + rate_bits)
}

/// Whether a table, if one is given, holds the powers of the roots of unity.
pub open spec fn proper_table(
    root_table: Option<&FftRootTable<GoldilocksField>>,
    lg_n: nat,
) -> bool {
    root_table is None || table_ok(root_table->0@, lg_n)
}

/// What the low-degree extension of a polynomial is.
pub open spec fn lde_done(
    c: Seq<GoldilocksField>,
    column: Seq<GoldilocksField>,
    rate_bits: usize,
    root_table: Option<&FftRootTable<GoldilocksField>>,
) -> bool {
    &&& column.len() == c.len() * pow2(rate_bits as nat)
    &&& fft_done(lde_words(c, rate_bits as nat), column, Some(rate_bits), root_table)
    &&& proper_table(root_table, log2(c.len()) + rate_bits as nat) ==> vals(column) == lde_of(
        vals(c),
        rate_bits as nat,
    )
}

/// What the low-degree extension needs of the number of coefficients and of the options.
pub open spec fn lde_ready(
    degree: nat,
    rate_bits: usize,
    root_table: Option<&FftRootTable<GoldilocksField>>,
) -> bool {
    &&& is_power_of_two(degree)
    &&& log2(degree) + rate_bits <= 32
    &&& degree * pow2(rate_bits as nat) <= usize::MAX
    &&& match root_table {
        Some(table) => table_shape(table@, log2(degree) + rate_bits as nat),
        None => true,
    }
}

/// The sizes of a low-degree extension.
pub proof fn lemma_lde_sizes(degree: nat, rate_bits: nat)
    requires
        is_power_of_two(degree),
    ensures
        degree * pow2(rate_bits) == pow2(log2(degree) + rate_bits),
        is_power_of_two(degree * pow2(rate_bits)),
        log2(degree * pow2(rate_bits)) == log2(degree) + rate_bits,
        1 <= degree <= degree * pow2(rate_bits),
        pow2(rate_bits) <= degree * pow2(rate_bits),
{
    let k = log2(degree);
    lemma_pow2_adds(k, rate_bits);
    lemma_log2(k + rate_bits);
    lemma_pow2_pos(k);
    lemma_pow2_pos(rate_bits);
    assert(degree <= degree * pow2(rate_bits) && pow2(rate_bits) <= degree * pow2(rate_bits))
        by (nonlinear_arith)
        requires
            degree >= 1,
            pow2(rate_bits) >= 1,
    ;
}

proof fn lemma_eval_tail(c: Seq<Elt>, d: Seq<Elt>, a: int, x: Elt)
    requires
        x.wf(),
        all_wf(c),
        0 <= a <= c.len() <= d.len(),
        forall|i: int| 0 <= i < c.len() ==> #[trigger] d[i] == c[i],
        forall|i: int| c.len() <= i < d.len() ==> #[trigger] d[i] == elt0(),
    ensures
        eval_strided(d, a, 1, (d.len() - a) as nat, x) == eval_strided(
            c,
            a,
            1,
            (c.len() - a) as nat,
            x,
        ),
    decreases c.len() - a,
{
    if a == c.len() {
        assert forall|j: int| 0 <= j < d.len() - a implies #[trigger] d[a + j * 1] == elt0() by {}
        lemma_eval_zero(d, a, 1, (d.len() - a) as nat, x);
    } else {
        lemma_eval_tail(c, d, a + 1, x);
    }
}

/// Zeros as further coefficients do not change the values of a polynomial.
pub proof fn lemma_eval_zero_tail(c: Seq<Elt>, d: Seq<Elt>, x: Elt)
    requires
        x.wf(),
        all_wf(c),
        c.len() <= d.len(),
        forall|i: int| 0 <= i < c.len() ==> #[trigger] d[i] == c[i],
        forall|i: int| c.len() <= i < d.len() ==> #[trigger] d[i] == elt0(),
    ensures
        eval_poly(d, x) == eval_poly(c, x),
{
    lemma_eval_tail(c, d, 0, x);
}

proof fn lemma_lde_values(c: Seq<GoldilocksField>, rate_bits: nat)
    requires
        is_power_of_two(c.len()),
        log2(c.len()) + rate_bits <= 32,
    ensures
        ({
            let lg_n = log2(c.len()) + rate_bits;
            let words = lde_words(c, rate_bits);
            &&& dft(padded(vals(words), pow2((lg_n - rate_bits) as nat) as int), lg_n) == lde_of(
                vals(c),
                rate_bits,
            )
        }),
{
    broadcast use group_elt_wf;

    let lg_n = log2(c.len()) + rate_bits;
    let words = lde_words(c, rate_bits);
    let shift = GoldilocksField(MULTIPLICATIVE_GROUP_GENERATOR);
    let s = coset_shift_elt();
    lemma_lde_sizes(c.len(), rate_bits);
    GoldilocksField::lemma_values(shift);
    lemma_vals_wf(c);
    let short = shifted_elts(vals(c), s);
    let long = padded(vals(words), c.len() as int);
    assert forall|i: int| 0 <= i < c.len() implies #[trigger] long[i] == short[i] by {
        lemma_s_power(shift, i as nat);
        GoldilocksField::lemma_ops(c[i], s_power(shift, i as nat));
        lemma_mul_comm(c[i].v(), power(s, i as nat));
    }
    assert forall|i: int| 0 <= i < short.len() implies (#[trigger] short[i]).wf() by {}
    assert forall|i: int| c.len() <= i < long.len() implies #[trigger] long[i] == elt0() by {}
    assert(long.len() == pow2(lg_n));
    lemma_root_full(lg_n);
    lemma_coset_dft(vals(c), s, lg_n);
    assert forall|i: int| 0 <= i < pow2(lg_n) implies dft(long, lg_n)[i] == #[trigger] dft(
        short,
        lg_n,
    )[i] by {
        lemma_power_wf(root(lg_n), i as nat);
        lemma_eval_zero_tail(short, long, power(root(lg_n), i as nat));
    }
    assert(dft(long, lg_n) =~= dft(short, lg_n));
}

/// The low-degree extension of one polynomial, with the powers of the shift given.
pub fn lde_column(
    poly: &PolynomialCoeffs<GoldilocksField>,
    coset_powers: &[GoldilocksField],
    rate_bits: usize,
    root_table: Option<&FftRootTable<GoldilocksField>>,
) -> (r: Vec<GoldilocksField>)
    requires
        lde_ready(poly.coeffs@.len(), rate_bits, root_table),
        coset_powers@.len() == poly.coeffs@.len(),
        forall|i: int|
            0 <= i < coset_powers@.len() ==> #[trigger] coset_powers@[i] == s_power(
                GoldilocksField(MULTIPLICATIVE_GROUP_GENERATOR),
                i as nat,
            ),
    ensures
        lde_done(poly.coeffs@, r@, rate_bits, root_table),
{
    let ghost c = poly.coeffs@;
    let ghost words = lde_words(c, rate_bits as nat);
    let degree: usize = poly.coeffs.len();
    proof {
        lemma_lde_sizes(degree as nat, rate_bits as nat);
        lemma_lde_values(c, rate_bits as nat);
    }
    let lde_len: usize = degree * two_pow(rate_bits);
    let mut buffer = copy_vec(&poly.coeffs);
    batch_multiply_inplace(buffer.as_mut_slice(), coset_powers);
    while buffer.len() < lde_len
        invariant
            lde_len == words.len(),
            degree == c.len(),
            words == lde_words(c, rate_bits as nat),
            degree <= buffer@.len() <= lde_len,
            forall|i: int| 0 <= i < buffer@.len() ==> #[trigger] buffer@[i] == words[i],
        decreases lde_len - buffer@.len(),
    {
        buffer.push(GoldilocksField::zero());
    }
    assert(buffer@ =~= words);
    fft_in_place_with_options(buffer.as_mut_slice(), Some(rate_bits), root_table);
    buffer
}

/// The powers of the shift of the coset.
pub fn coset_shift_powers(degree: usize) -> (r: Vec<GoldilocksField>)
    ensures
        r@.len() == degree,
        forall|i: int|
            0 <= i < r@.len() ==> #[trigger] r@[i] == s_power(
                GoldilocksField(MULTIPLICATIVE_GROUP_GENERATOR),
                i as nat,
            ),
{
    powers(GoldilocksField::coset_shift(), degree)
}

} // verus!
