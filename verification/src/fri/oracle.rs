//! Batches of polynomials that have been committed to by a Merkle tree over their values.

use crate::field::fft::FftRootTable;
use crate::field::goldilocks_field::{GoldilocksField, MULTIPLICATIVE_GROUP_GENERATOR};
use crate::field::polynomial::{PolynomialCoeffs, PolynomialValues, same_polynomial};
use crate::field::types::s_power;
use crate::fri::lde::{coset_shift_powers, lde_column, lde_done, lde_ready};
use crate::hash::columns::ColumnStore;
use crate::hash::equality::equal_trees;
use crate::hash::merkle_tree::{MerkleLeaves, MerkleTree};
use crate::plonk::config::{GenericConfig, equal_columns};
use crate::util::bits::log2;
use vstd::arithmetic::power2::pow2;
use vstd::prelude::*;

verus! {

/// Four (~64 bit) field elements gives ~128 bit security.
pub const SALT_SIZE: usize = 4;

/// Whether the transforms of a commitment are left to the backend that hashes it.
pub const GPU_NTT_COMMITMENTS: bool = false;

/// Represents a FRI oracle, i.e. a batch of polynomials which have been Merklized.
pub struct PolynomialBatch<C: GenericConfig<D>, const D: usize> {
    pub polynomials: Vec<PolynomialCoeffs<GoldilocksField>>,
    pub merkle_tree: MerkleTree<C::Hasher>,
    pub degree_log: usize,
    pub rate_bits: usize,
    pub blinding: bool,
}

impl<C: GenericConfig<D>, const D: usize> PartialEq for PolynomialBatch<C, D> {
    /// Equality of the polynomials, of the trees and of the parameters.
    fn eq(&self, other: &Self) -> (r: bool) {
        if self.polynomials.len() != other.polynomials.len() || self.merkle_tree
            != other.merkle_tree || self.degree_log != other.degree_log || self.rate_bits
            != other.rate_bits || self.blinding != other.blinding {
            return false;
        }
        let n: usize = self.polynomials.len();
        let mut i: usize = 0;
        while i < n
            invariant
                i <= n == self.polynomials@.len() == other.polynomials@.len(),
                forall|k: int|
                    0 <= k < i ==> same_polynomial(
                        (#[trigger] self.polynomials@[k]).coeffs@,
                        other.polynomials@[k].coeffs@,
                    ),
            decreases n - i,
        {
            if self.polynomials[i] != other.polynomials[i] {
                return false;
            }
            i = i + 1;
        }
        true
    }
}

impl<C: GenericConfig<D>, const D: usize> Eq for PolynomialBatch<C, D> {

}

impl<C: GenericConfig<D>, const D: usize> vstd::std_specs::cmp::PartialEqSpecImpl
    for PolynomialBatch<C, D> {
    open spec fn obeys_eq_spec() -> bool {
        true
    }

    open spec fn eq_spec(&self, other: &Self) -> bool {
        &&& self.polynomials@.len() == other.polynomials@.len()
        &&& equal_trees(self.merkle_tree, other.merkle_tree)
        &&& self.degree_log == other.degree_log
        &&& self.rate_bits == other.rate_bits
        &&& self.blinding == other.blinding
        &&& forall|k: int|
            0 <= k < self.polynomials@.len() ==> same_polynomial(
                (#[trigger] self.polynomials@[k]).coeffs@,
                other.polynomials@[k].coeffs@,
            )
    }
}

impl<C: GenericConfig<D>, const D: usize> Default for PolynomialBatch<C, D> {
    fn default() -> (r: Self)
        ensures
            r.polynomials@.len() == 0,
            r.merkle_tree.num_leaves == 0,
            r.merkle_tree.leaves matches MerkleLeaves::Rows { data, width } && data@.len() == 0
                && width == 0,
            r.merkle_tree.digests@.len() == 0,
            r.merkle_tree.cap.0@.len() == 0,
            r.degree_log == 0,
            r.rate_bits == 0,
            !r.blinding,
    {
        PolynomialBatch {
            polynomials: Vec::new(),
            merkle_tree: MerkleTree::default(),
            degree_log: 0,
            rate_bits: 0,
            blinding: false,
        }
    }
}

/// The words of the coefficients of some polynomials.
pub open spec fn coeff_words(polynomials: Seq<PolynomialCoeffs<GoldilocksField>>) -> Seq<
    Seq<GoldilocksField>,
> {
    Seq::new(polynomials.len(), |j: int| polynomials[j].coeffs@)
}

/// The words of the values of some polynomials.
pub open spec fn value_words(polynomials: Seq<PolynomialValues<GoldilocksField>>) -> Seq<
    Seq<GoldilocksField>,
> {
    Seq::new(polynomials.len(), |j: int| polynomials[j].values@)
}

/// There are salt columns exactly in a blinded batch, each as long as the others.
pub open spec fn salt_ok(salt: Seq<Vec<GoldilocksField>>, blinding: bool, rows: nat) -> bool {
    &&& salt.len() == (if blinding {
        SALT_SIZE as nat
    } else {
        0
    })
    &&& forall|j: int| 0 <= j < salt.len() ==> (#[trigger] salt[j])@.len() == rows
}

/// The columns of a store are the low-degree extensions of the polynomials, and the salt.
pub open spec fn extended_columns(
    columns: ColumnStore<GoldilocksField>,
    coeffs: Seq<Seq<GoldilocksField>>,
    rate_bits: usize,
    salt: Seq<Vec<GoldilocksField>>,
    root_table: Option<&FftRootTable<GoldilocksField>>,
) -> bool {
    &&& columns.rectangular()
    &&& columns.width() == coeffs.len() + salt.len()
    &&& columns.height() == coeffs[0].len() * pow2(rate_bits as nat)
    &&& forall|j: int|
        0 <= j < coeffs.len() ==> lde_done(
            coeffs[j],
            #[trigger] columns.column(j),
            rate_bits,
            root_table,
        )
    &&& forall|j: int|
        coeffs.len() <= j < coeffs.len() + salt.len() ==> #[trigger] columns.column(j) == salt[j
            - coeffs.len()]@
}

/// What a commitment to a batch of polynomials needs.
pub open spec fn commitment_ready(
    coeffs: Seq<Seq<GoldilocksField>>,
    rate_bits: usize,
    blinding: bool,
    salt: Seq<Vec<GoldilocksField>>,
    cap_height: usize,
    root_table: Option<&FftRootTable<GoldilocksField>>,
) -> bool {
    let rows = coeffs[0].len() * pow2(rate_bits as nat);
    &&& equal_columns(coeffs)
    &&& lde_ready(coeffs[0].len(), rate_bits, root_table)
    &&& salt_ok(salt, blinding, rows)
    &&& cap_height <= log2(coeffs[0].len()) + rate_bits
    &&& 2 * rows <= usize::MAX
    &&& rows * (coeffs.len() + salt.len()) <= usize::MAX
}

impl<C: GenericConfig<D>, const D: usize> PolynomialBatch<C, D> {
    /// What a commitment to a batch of polynomials is.
    pub open spec fn commits_to(
        self,
        coeffs: Seq<Seq<GoldilocksField>>,
        rate_bits: usize,
        blinding: bool,
        salt: Seq<Vec<GoldilocksField>>,
        cap_height: usize,
        root_table: Option<&FftRootTable<GoldilocksField>>,
    ) -> bool {
        &&& self.readable()
        &&& self.merkle_tree.wf()
        &&& self.merkle_tree.cap.0@.len() == pow2(cap_height as nat)
        &&& self.degree_log == log2(coeffs[0].len())
        &&& self.rate_bits == rate_bits
        &&& self.blinding == blinding
        &&& self.merkle_tree.leaves matches MerkleLeaves::Columns { columns, log_rows }
            && extended_columns(columns, coeffs, rate_bits, salt, root_table)
    }

    /// The leaves are the rows of values on the domain, and the salt if there is any.
    pub open spec fn readable(self) -> bool {
        &&& self.degree_log + self.rate_bits <= usize::MAX
        &&& self.merkle_tree.num_leaves == pow2((self.degree_log + self.rate_bits) as nat)
        &&& self.merkle_tree.leaves.holds(self.merkle_tree.num_leaves as nat)
        &&& self.blinding ==> self.merkle_tree.leaves.width() >= SALT_SIZE
    }

    /// The low-degree extensions of the polynomials, and the salt columns after them.
    pub fn lde_values(
        polynomials: &[PolynomialCoeffs<GoldilocksField>],
        rate_bits: usize,
        salt: Vec<Vec<GoldilocksField>>,
        fft_root_table: Option<&FftRootTable<GoldilocksField>>,
    ) -> (r: Vec<Vec<GoldilocksField>>)
        requires
            equal_columns(coeff_words(polynomials@)),
            lde_ready(polynomials@[0].coeffs@.len(), rate_bits, fft_root_table),
            forall|j: int|
                0 <= j < salt@.len() ==> (#[trigger] salt@[j])@.len()
                    == polynomials@[0].coeffs@.len() * pow2(rate_bits as nat),
        ensures
            extended_columns(
                ColumnStore::Owned(r),
                coeff_words(polynomials@),
                rate_bits,
                salt@,
                fft_root_table,
            ),
    {
        let ghost coeffs = coeff_words(polynomials@);
        let ghost rows = coeffs[0].len() * pow2(rate_bits as nat);
        let degree: usize = polynomials[0].len();
        let coset_powers = coset_shift_powers(degree);
        let mut r: Vec<Vec<GoldilocksField>> = Vec::new();
        let n: usize = polynomials.len();
        while r.len() < n
            invariant
                n == polynomials@.len() == coeffs.len(),
                coeffs == coeff_words(polynomials@),
                equal_columns(coeffs),
                degree == coeffs[0].len(),
                lde_ready(degree as nat, rate_bits, fft_root_table),
                coset_powers@.len() == degree,
                forall|i: int|
                    0 <= i < coset_powers@.len() ==> #[trigger] coset_powers@[i] == s_power(
                        GoldilocksField(MULTIPLICATIVE_GROUP_GENERATOR),
                        i as nat,
                    ),
                r@.len() <= n,
                forall|j: int|
                    0 <= j < r@.len() ==> lde_done(
                        coeffs[j],
                        (#[trigger] r@[j])@,
                        rate_bits,
                        fft_root_table,
                    ),
            decreases n - r@.len(),
        {
            let j: usize = r.len();
            assert(coeffs[j as int].len() == coeffs[0].len());
            let column = lde_column(
                &polynomials[j],
                coset_powers.as_slice(),
                rate_bits,
                fft_root_table,
            );
            r.push(column);
        }
        let ghost head = r@;
        let mut salt = salt;
        let ghost tail = salt@;
        r.append(&mut salt);
        proof {
            let store = ColumnStore::Owned(r);
            assert forall|j: int| 0 <= j < r@.len() implies (#[trigger] store.column(j)).len()
                == rows by {
                if j < n {
                    assert(r@[j] == head[j]);
                    assert(coeffs[j].len() == coeffs[0].len());
                } else {
                    assert(r@[j] == tail[j - n]);
                }
            }
            assert(store.column(0).len() == rows);
            assert forall|j: int| 0 <= j < n implies lde_done(
                coeffs[j],
                #[trigger] store.column(j),
                rate_bits,
                fft_root_table,
            ) by {
                assert(r@[j] == head[j]);
            }
            assert forall|j: int| n <= j < r@.len() implies #[trigger] store.column(j) == tail[j
                - n]@ by {
                assert(r@[j] == tail[j - n]);
            }
        }
        r
    }

    /// Computes the low-degree extensions of the polynomials in the given storage.
    pub fn fill_lde_column_store(
        columns: &mut ColumnStore<GoldilocksField>,
        polynomials: &[PolynomialCoeffs<GoldilocksField>],
        rate_bits: usize,
        fft_root_table: Option<&FftRootTable<GoldilocksField>>,
    ) -> (r: bool)
        requires
            equal_columns(coeff_words(polynomials@)),
            lde_ready(polynomials@[0].coeffs@.len(), rate_bits, fft_root_table),
            old(columns).rectangular(),
            old(columns).width() == polynomials@.len(),
            old(columns).height() == polynomials@[0].coeffs@.len() * pow2(rate_bits as nat),
        ensures
            r,
            extended_columns(
                *final(columns),
                coeff_words(polynomials@),
                rate_bits,
                Seq::empty(),
                fft_root_table,
            ),
    {
        let ghost coeffs = coeff_words(polynomials@);
        let degree: usize = polynomials[0].len();
        let coset_powers = coset_shift_powers(degree);
        let n: usize = polynomials.len();
        let ghost rows = degree * pow2(rate_bits as nat);
        let mut j: usize = 0;
        while j < n
            invariant
                j <= n,
                n == polynomials@.len() == coeffs.len(),
                coeffs == coeff_words(polynomials@),
                equal_columns(coeffs),
                degree == coeffs[0].len(),
                rows == degree * pow2(rate_bits as nat),
                lde_ready(degree as nat, rate_bits, fft_root_table),
                coset_powers@.len() == degree,
                forall|i: int|
                    0 <= i < coset_powers@.len() ==> #[trigger] coset_powers@[i] == s_power(
                        GoldilocksField(MULTIPLICATIVE_GROUP_GENERATOR),
                        i as nat,
                    ),
                columns.rectangular(),
                columns.width() == n,
                columns.height() == rows,
                forall|k: int|
                    0 <= k < j ==> lde_done(
                        coeffs[k],
                        #[trigger] columns.column(k),
                        rate_bits,
                        fft_root_table,
                    ),
            decreases n - j,
        {
            assert(coeffs[j as int].len() == coeffs[0].len());
            let column = lde_column(
                &polynomials[j],
                coset_powers.as_slice(),
                rate_bits,
                fft_root_table,
            );
            columns.set_col(j, column);
            j = j + 1;
        }
        true
    }
}

} // verus!
