//! Commitments to batches of polynomials.

use crate::field::dft::idft;
use crate::field::fft::{FftRootTable, ifft};
use crate::field::goldilocks_field::GoldilocksField;
use crate::field::polynomial::{PolynomialCoeffs, PolynomialValues, copy_vec};
use crate::field::types::vals;
use crate::fri::lde::lemma_lde_sizes;
use crate::fri::oracle::{
    GPU_NTT_COMMITMENTS, PolynomialBatch, coeff_words, commitment_ready, value_words,
};
use crate::hash::merkle_tree::MerkleTree;
use crate::plonk::config::{
    GenericConfig, Hasher, column_values, equal_columns, interpolated, owned_columns, slice_columns,
};
use crate::util::bits::{is_power_of_two, lemma_log2, log2, log2_strict, two_pow};
use vstd::arithmetic::power2::pow2;
use vstd::prelude::*;

verus! {

/// The coefficients of all polynomials, borrowed.
fn borrow_coeffs(polynomials: &Vec<PolynomialCoeffs<GoldilocksField>>) -> (r: Vec<
    &[GoldilocksField],
>)
    ensures
        slice_columns(r@) == coeff_words(polynomials@),
{
    let mut r: Vec<&[GoldilocksField]> = Vec::new();
    let n: usize = polynomials.len();
    while r.len() < n
        invariant
            n == polynomials@.len(),
            r@.len() <= n,
            forall|j: int| 0 <= j < r@.len() ==> (#[trigger] r@[j])@ == polynomials@[j].coeffs@,
        decreases n - r@.len(),
    {
        let j: usize = r.len();
        r.push(polynomials[j].coeffs.as_slice());
    }
    assert(slice_columns(r@) =~= coeff_words(polynomials@));
    r
}

/// The values of all polynomials, borrowed.
fn borrow_values(polynomials: &Vec<PolynomialValues<GoldilocksField>>) -> (r: Vec<
    &[GoldilocksField],
>)
    ensures
        slice_columns(r@) == value_words(polynomials@),
{
    let mut r: Vec<&[GoldilocksField]> = Vec::new();
    let n: usize = polynomials.len();
    while r.len() < n
        invariant
            n == polynomials@.len(),
            r@.len() <= n,
            forall|j: int| 0 <= j < r@.len() ==> (#[trigger] r@[j])@ == polynomials@[j].values@,
        decreases n - r@.len(),
    {
        let j: usize = r.len();
        r.push(polynomials[j].values.as_slice());
    }
    assert(slice_columns(r@) =~= value_words(polynomials@));
    r
}

/// The polynomials with the given coefficients.
fn into_coeffs(columns: Vec<Vec<GoldilocksField>>) -> (r: Vec<PolynomialCoeffs<GoldilocksField>>)
    ensures
        coeff_words(r@) == owned_columns(columns@),
{
    let mut r: Vec<PolynomialCoeffs<GoldilocksField>> = Vec::new();
    let n: usize = columns.len();
    while r.len() < n
        invariant
            n == columns@.len(),
            r@.len() <= n,
            forall|j: int| 0 <= j < r@.len() ==> (#[trigger] r@[j]).coeffs@ == columns@[j]@,
        decreases n - r@.len(),
    {
        let j: usize = r.len();
        r.push(PolynomialCoeffs::new(copy_vec(&columns[j])));
    }
    assert(coeff_words(r@) =~= owned_columns(columns@));
    r
}

impl<C: GenericConfig<D>, const D: usize> PolynomialBatch<C, D> {
    /// Creates a list polynomial commitment for the polynomials `polynomials`. In a blinded batch
    /// the salt columns follow the values of the polynomials.
    pub fn from_coeffs(
        polynomials: Vec<PolynomialCoeffs<GoldilocksField>>,
        rate_bits: usize,
        blinding: bool,
        salt: Vec<Vec<GoldilocksField>>,
        cap_height: usize,
        fft_root_table: Option<&FftRootTable<GoldilocksField>>,
    ) -> (r: Self)
        requires
            commitment_ready(
                coeff_words(polynomials@),
                rate_bits,
                blinding,
                salt@,
                cap_height,
                fft_root_table,
            ),
        ensures
            r.polynomials == polynomials,
            r.commits_to(
                coeff_words(polynomials@),
                rate_bits,
                blinding,
                salt@,
                cap_height,
                fft_root_table,
            ),
    {
        let ghost coeffs = coeff_words(polynomials@);
        let ghost rows = coeffs[0].len() * pow2(rate_bits as nat);
        let degree: usize = polynomials[0].len();
        let degree_log: usize = log2_strict(degree);
        proof {
            lemma_lde_sizes(degree as nat, rate_bits as nat);
            lemma_log2(cap_height as nat);
        }
        if GPU_NTT_COMMITMENTS && !blinding {
            let coeff_columns = borrow_coeffs(&polynomials);
            match <C::Hasher as Hasher>::try_build_commitment_from_coeffs(
                &coeff_columns,
                rate_bits,
                cap_height,
            ) {
                Some((columns, digests, cap)) => {
                    let merkle_tree = MerkleTree::from_prebuilt_columns(columns, digests, cap);
                    return PolynomialBatch {
                        polynomials,
                        merkle_tree,
                        degree_log,
                        rate_bits,
                        blinding,
                    };
                },
                None => {},
            }
        }
        // Compute the extensions in retained storage where the backend of the hash function offers
        // some, and hash that same storage.
        let lde_len: usize = degree * two_pow(rate_bits);
        if !blinding {
            match <C::Hasher as Hasher>::try_allocate_merkle_tree_columns(
                polynomials.len(),
                lde_len,
                cap_height,
            ) {
                Some(columns) => {
                    let mut columns = columns;
                    let initialized = Self::fill_lde_column_store(
                        &mut columns,
                        polynomials.as_slice(),
                        rate_bits,
                        fft_root_table,
                    );
                    if initialized {
                        proof {
                            assert(salt@ =~= Seq::empty());
                        }
                        let merkle_tree = MerkleTree::new_column_store(columns, cap_height);
                        return PolynomialBatch {
                            polynomials,
                            merkle_tree,
                            degree_log,
                            rate_bits,
                            blinding,
                        };
                    }
                },
                None => {},
            }
        }
        let lde_values = Self::lde_values(
            polynomials.as_slice(),
            rate_bits,
            salt,
            fft_root_table,
        );
        let merkle_tree = MerkleTree::new_columns(lde_values, cap_height);
        PolynomialBatch { polynomials, merkle_tree, degree_log, rate_bits, blinding }
    }

    /// Creates a list polynomial commitment for the polynomials interpolating the values in
    /// `values`.
    pub fn from_values(
        values: Vec<PolynomialValues<GoldilocksField>>,
        rate_bits: usize,
        blinding: bool,
        salt: Vec<Vec<GoldilocksField>>,
        cap_height: usize,
        fft_root_table: Option<&FftRootTable<GoldilocksField>>,
    ) -> (r: Self)
        requires
            commitment_ready(
                value_words(values@),
                rate_bits,
                blinding,
                salt@,
                cap_height,
                fft_root_table,
            ),
        ensures
            column_values(coeff_words(r.polynomials@)) == interpolated(
                column_values(value_words(values@)),
            ),
            r.commits_to(
                coeff_words(r.polynomials@),
                rate_bits,
                blinding,
                salt@,
                cap_height,
                fft_root_table,
            ),
    {
        let ghost words = value_words(values@);
        let ghost degree = words[0].len();
        proof {
            lemma_lde_sizes(degree, rate_bits as nat);
            lemma_log2(cap_height as nat);
        }
        if GPU_NTT_COMMITMENTS && !blinding {
            let value_columns = borrow_values(&values);
            match <C::Hasher as Hasher>::try_build_commitment_from_values(
                &value_columns,
                rate_bits,
                cap_height,
            ) {
                Some((columns, digests, cap, coeff_columns)) => {
                    let degree_log: usize = log2_strict(values[0].len());
                    let merkle_tree = MerkleTree::from_prebuilt_columns(columns, digests, cap);
                    return PolynomialBatch {
                        polynomials: into_coeffs(coeff_columns),
                        merkle_tree,
                        degree_log,
                        rate_bits,
                        blinding,
                    };
                },
                None => {},
            }
        }
        let n: usize = values.len();
        let mut coeffs: Vec<PolynomialCoeffs<GoldilocksField>> = Vec::with_capacity(n);
        while coeffs.len() < n
            invariant
                n == values@.len() == words.len(),
                words == value_words(values@),
                equal_columns(words),
                degree == words[0].len(),
                is_power_of_two(degree),
                log2(degree) <= 32,
                coeffs@.len() <= n,
                forall|j: int|
                    0 <= j < coeffs@.len() ==> vals((#[trigger] coeffs@[j]).coeffs@) == idft(
                        vals(words[j]),
                        log2(degree),
                    ),
            decreases n - coeffs@.len(),
        {
            let j: usize = coeffs.len();
            assert(words[j as int].len() == words[0].len());
            let poly = PolynomialValues::new(copy_vec(&values[j].values));
            coeffs.push(ifft(poly));
        }
        proof {
            let all = coeff_words(coeffs@);
            assert forall|j: int| 0 <= j < n implies (#[trigger] all[j]).len() == degree by {
                assert(vals(coeffs@[j].coeffs@).len() == degree);
            }
            assert(all[0].len() == degree);
            assert forall|j: int| 0 <= j < n implies column_values(all)[j]
                == #[trigger] interpolated(column_values(words))[j] by {
                assert(words[j].len() == words[0].len());
                assert(vals(coeffs@[j].coeffs@) == idft(vals(words[j]), log2(degree)));
            }
            assert(column_values(all) =~= interpolated(column_values(words)));
        }
        Self::from_coeffs(coeffs, rate_bits, blinding, salt, cap_height, fft_root_table)
    }
}

} // verus!
