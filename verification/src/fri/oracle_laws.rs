//! What the leaves of a commitment, and the values gathered from it, are in terms of the
//! polynomials that are committed to.

use crate::field::dft::eval_poly;
use crate::field::fft::FftRootTable;
use crate::field::goldilocks_field::GoldilocksField;
use crate::field::roots::{power, root};
use crate::field::types::{Field, vals};
use crate::fri::laws::lemma_committed_values;
use crate::fri::lde::{coset_shift_elt, proper_table};
use crate::fri::lookup::{BatchLayout, batch_position};
use crate::fri::oracle::{PolynomialBatch, salt_ok};
use crate::plonk::config::{GenericConfig, equal_columns};
use crate::util::bits::{is_power_of_two, lemma_rev_bound, lemma_rev_involution, log2, rev};
use vstd::arithmetic::power2::{lemma_pow2_pos, pow2};
use vstd::prelude::*;

verus! {

/// A leaf of a commitment: the values of all polynomials, in order, at the point of the coset that
/// the leaf belongs to, in bit-reversed order, and after them the salt of that point, if there is
/// any.
pub proof fn lemma_committed_leaf<C: GenericConfig<D>, const D: usize>(
    batch: PolynomialBatch<C, D>,
    coeffs: Seq<Seq<GoldilocksField>>,
    rate_bits: usize,
    blinding: bool,
    salt: Seq<Vec<GoldilocksField>>,
    cap_height: usize,
    root_table: Option<&FftRootTable<GoldilocksField>>,
    x: nat,
    j: int,
)
    requires
        batch.commits_to(coeffs, rate_bits, blinding, salt, cap_height, root_table),
        equal_columns(coeffs),
        is_power_of_two(coeffs[0].len()),
        proper_table(root_table, log2(coeffs[0].len()) + rate_bits as nat),
        x < batch.merkle_tree.num_leaves,
        0 <= j < coeffs.len() + salt.len(),
    ensures
        ({
            let lg_n = (log2(coeffs[0].len()) + rate_bits) as nat;
            let leaf = batch.merkle_tree.leaves.leaf(x as int);
            &&& batch.merkle_tree.num_leaves == pow2(lg_n)
            &&& leaf.len() == coeffs.len() + salt.len()
            &&& j < coeffs.len() ==> leaf[j].v() == eval_poly(
                vals(coeffs[j]),
                coset_shift_elt() * power(root(lg_n), rev(x, lg_n)),
            )
            &&& j >= coeffs.len() ==> leaf[j] == salt[j - coeffs.len()]@[rev(x, lg_n) as int]
        }),
{
    let lg_n = (log2(coeffs[0].len()) + rate_bits) as nat;
    assert(batch.degree_log + batch.rate_bits == lg_n);
    lemma_rev_bound(x, lg_n);
    lemma_rev_involution(x, lg_n);
    let index = rev(x, lg_n) as int;
    if j < coeffs.len() {
        lemma_committed_values(
            batch,
            coeffs,
            rate_bits,
            blinding,
            salt,
            cap_height,
            root_table,
            index,
            j,
        );
        assert(batch.lde_value(index, j) == batch.merkle_tree.leaves.leaf(x as int)[j]);
    } else {
        batch.lemma_column_value(index, j);
        vstd::arithmetic::div_mod::lemma_small_mod(index as nat, pow2(lg_n));
    }
}

/// Values that are gathered from a commitment are those of the polynomials at the points that are
/// asked for, in the layout that is asked for: point after point, or polynomial after polynomial.
pub proof fn lemma_gathered_values<C: GenericConfig<D>, const D: usize>(
    batch: PolynomialBatch<C, D>,
    coeffs: Seq<Seq<GoldilocksField>>,
    rate_bits: usize,
    blinding: bool,
    salt: Seq<Vec<GoldilocksField>>,
    cap_height: usize,
    root_table: Option<&FftRootTable<GoldilocksField>>,
    indices: Seq<usize>,
    step: usize,
    start: usize,
    end: usize,
    layout: BatchLayout,
    out: Seq<GoldilocksField>,
    k: int,
    c: int,
)
    requires
        batch.commits_to(coeffs, rate_bits, blinding, salt, cap_height, root_table),
        equal_columns(coeffs),
        proper_table(root_table, log2(coeffs[0].len()) + rate_bits as nat),
        batch.can_read(indices, step, start, end),
        batch.batch_filled(indices, step, start, end, layout, out),
        end <= coeffs.len(),
        0 <= k < indices.len(),
        0 <= c < end - start,
    ensures
        ({
            let value = match layout {
                BatchLayout::PointMajor => out[k * (end - start) + c],
                BatchLayout::PolyMajor => out[c * indices.len() + k],
            };
            value.v() == eval_poly(
                vals(coeffs[start + c]),
                coset_shift_elt() * power(
                    root((log2(coeffs[0].len()) + rate_bits) as nat),
                    (indices[k] * step) as nat,
                ),
            )
        }),
        out.len() == indices.len() * (end - start),
{
    let p = batch_position(layout, indices.len() as int, end - start, k, c);
    assert(out[p] == batch.lde_value(indices[k] * step, start + c));
    assert(indices[k] * step >= 0) by (nonlinear_arith)
        requires
            indices[k] >= 0,
            step >= 0,
    ;
    lemma_committed_values(
        batch,
        coeffs,
        rate_bits,
        blinding,
        salt,
        cap_height,
        root_table,
        indices[k] * step,
        start + c,
    );
}

/// The sizes of a commitment: as many points as all coefficients of a polynomial times the blowup,
/// and as many value columns as polynomials, whether there is salt or not.
pub proof fn lemma_commitment_sizes<C: GenericConfig<D>, const D: usize>(
    batch: PolynomialBatch<C, D>,
    coeffs: Seq<Seq<GoldilocksField>>,
    rate_bits: usize,
    blinding: bool,
    salt: Seq<Vec<GoldilocksField>>,
    cap_height: usize,
    root_table: Option<&FftRootTable<GoldilocksField>>,
)
    requires
        batch.commits_to(coeffs, rate_bits, blinding, salt, cap_height, root_table),
        is_power_of_two(coeffs[0].len()),
        salt_ok(salt, blinding, coeffs[0].len() * pow2(rate_bits as nat)),
    ensures
        batch.domain_size() == coeffs[0].len() * pow2(rate_bits as nat),
        batch.domain_size() == batch.merkle_tree.num_leaves,
        batch.row_width() == coeffs.len(),
        salt.len() == (if blinding {
            4int
        } else {
            0int
        }),
        batch.merkle_tree.cap.0@.len() == pow2(cap_height as nat),
{
    vstd::arithmetic::power2::lemma_pow2_adds(log2(coeffs[0].len()), rate_bits as nat);
}

} // verus!
