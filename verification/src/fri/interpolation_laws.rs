//! What interpolating and extending columns of values gives.

use crate::field::coset::coset_dft;
use crate::field::dft::{all_wf, dft, eval_poly};
use crate::field::goldilocks_field::GoldilocksField;
use crate::field::inversion::lemma_dft_of_idft;
use crate::field::model::Elt;
use crate::field::polynomial::{PolynomialCoeffs, PolynomialValues};
use crate::field::roots::{power, root};
use crate::field::types::{Field, vals};
use crate::fri::lde::{coset_shift_elt, lde_of};
use crate::fri::openings::{Oracle, oracle_trees};
use crate::fri::oracle::{coeff_words, value_words};
use crate::fri::reducing::poly_vals;
use crate::hash::columns::ColumnStore;
use crate::plonk::config::{
    column_values, extends_columns, interpolated, owned_columns, slice_columns,
};
use crate::util::bits::lemma_log2;
use vstd::arithmetic::power2::pow2;
use vstd::prelude::*;

verus! {

/// An interpolated polynomial takes the given values on the subgroup, in order, and is as long as
/// there are values.
pub proof fn lemma_interpolated_values(values: Seq<Seq<Elt>>, lg_n: nat, j: int, i: nat)
    requires
        lg_n <= 33,
        0 <= j < values.len(),
        values[j].len() == pow2(lg_n),
        all_wf(values[j]),
        i < pow2(lg_n),
    ensures
        interpolated(values).len() == values.len(),
        interpolated(values)[j].len() == pow2(lg_n),
        eval_poly(interpolated(values)[j], power(root(lg_n), i)) == values[j][i as int],
{
    lemma_log2(lg_n);
    lemma_dft_of_idft(values[j], lg_n);
    assert(dft(interpolated(values)[j], lg_n)[i as int] == values[j][i as int]);
}

/// A transform gives the values of a polynomial at the powers of the root of unity, and on a coset
/// those at the powers times the shift.
pub proof fn lemma_transform_values(c: Seq<Elt>, shift: Elt, lg_n: nat, i: nat)
    requires
        i < pow2(lg_n),
    ensures
        dft(c, lg_n).len() == pow2(lg_n),
        dft(c, lg_n)[i as int] == eval_poly(c, power(root(lg_n), i)),
        coset_dft(c, shift, lg_n)[i as int] == eval_poly(c, shift * power(root(lg_n), i)),
{
}

/// Extended columns: entry `i` of column `j` is the value of polynomial `j` at point `i` of the
/// coset, and there are `2^rate_bits` times as many points as coefficients.
pub proof fn lemma_extended_column_values(
    columns: ColumnStore<GoldilocksField>,
    coeffs: Seq<Seq<Elt>>,
    rate_bits: usize,
    lg_d: nat,
    j: int,
    i: nat,
)
    requires
        extends_columns(columns, coeffs, rate_bits),
        0 <= j < coeffs.len(),
        coeffs[j].len() == pow2(lg_d),
        i < pow2(lg_d + rate_bits as nat),
    ensures
        columns.width() == coeffs.len(),
        vals(columns.column(j)).len() == pow2(lg_d + rate_bits as nat),
        columns.column(j)[i as int].v() == eval_poly(
            coeffs[j],
            coset_shift_elt() * power(root(lg_d + rate_bits as nat), i),
        ),
{
    lemma_log2(lg_d);
    let column = columns.column(j);
    let values = lde_of(coeffs[j], rate_bits as nat);
    assert(vals(column) == values);
    assert(vals(column).len() == column.len());
    assert(values.len() == pow2(lg_d + rate_bits as nat));
    assert(vals(column)[i as int] == column[i as int].v());
}

/// What a batch commits to is made of all polynomials that it is given, in order.
pub proof fn lemma_all_polynomials(
    coeffs: Seq<PolynomialCoeffs<GoldilocksField>>,
    values: Seq<PolynomialValues<GoldilocksField>>,
    borrowed: Seq<&PolynomialCoeffs<GoldilocksField>>,
    oracles: Seq<&Oracle>,
    j: int,
)
    ensures
        coeff_words(coeffs).len() == coeffs.len(),
        0 <= j < coeffs.len() ==> coeff_words(coeffs)[j] == coeffs[j].coeffs@,
        value_words(values).len() == values.len(),
        0 <= j < values.len() ==> value_words(values)[j] == values[j].values@,
        poly_vals(borrowed).len() == borrowed.len(),
        0 <= j < borrowed.len() ==> poly_vals(borrowed)[j] == vals(borrowed[j].coeffs@),
        oracle_trees(oracles).len() == oracles.len(),
        0 <= j < oracles.len() ==> *oracle_trees(oracles)[j] == oracles[j].merkle_tree,
{
}

/// Columns stand for all of their elements, in order, whether they are borrowed or owned.
pub proof fn lemma_all_columns(
    slices: Seq<&[GoldilocksField]>,
    owned: Seq<Vec<GoldilocksField>>,
    columns: Seq<Seq<GoldilocksField>>,
    j: int,
    i: int,
)
    ensures
        slice_columns(slices).len() == slices.len(),
        0 <= j < slices.len() ==> slice_columns(slices)[j] == slices[j]@,
        owned_columns(owned).len() == owned.len(),
        0 <= j < owned.len() ==> owned_columns(owned)[j] == owned[j]@,
        column_values(columns).len() == columns.len(),
        0 <= j < columns.len() ==> column_values(columns)[j].len() == columns[j].len(),
        0 <= j < columns.len() && 0 <= i < columns[j].len() ==> column_values(columns)[j][i]
            == columns[j][i].v(),
{
}

} // verus!
