//! What it means that two values compare as equal.

use crate::field::extension::QuadraticExtension;
use crate::field::goldilocks_field::GoldilocksField;
use crate::field::model::{elt0, lemma_reduced_self, modulus};
use crate::field::polynomial::{PolynomialCoeffs, coefficient, same_polynomial};
use crate::field::types::{Field, vals};
use crate::fri::oracle::PolynomialBatch;
use crate::hash::columns::ColumnStore;
use crate::hash::equality::{equal_owned, lemma_equal_leaves};
use crate::hash::hash_types::{GenericHashOut, HashOut};
use crate::hash::merkle_tree::{MerkleCap, MerkleLeaves, MerkleTree, digests_seq};
use crate::plonk::config::{GenericConfig, Hasher};
use vstd::prelude::*;
use vstd::std_specs::cmp::PartialEqSpec;

verus! {

/// Field elements are equal exactly if their words stand for the same element.
pub proof fn lemma_field_equality(a: GoldilocksField, b: GoldilocksField)
    ensures
        a.eq_spec(&b) <==> a.v() == b.v(),
{
    GoldilocksField::lemma_values(a);
    GoldilocksField::lemma_values(b);
    lemma_reduced_self(a.v());
    lemma_reduced_self(b.v());
}

/// Elements of the extension field are equal exactly if they stand for the same element.
pub proof fn lemma_extension_equality(a: QuadraticExtension, b: QuadraticExtension)
    ensures
        a.eq_spec(&b) <==> a.v() == b.v(),
{
    QuadraticExtension::lemma_values(a);
    QuadraticExtension::lemma_values(b);
}

/// Digests are equal exactly if all of their elements are.
pub proof fn lemma_digest_equality(a: HashOut, b: HashOut)
    ensures
        a.eq_spec(&b) <==> a.digest() == b.digest(),
{
    let (x, y) = (a.digest(), b.digest());
    assert forall|i: int| 0 <= i < 4 implies (x[i] == y[i]) == (#[trigger] a.elements[i].0 as int
        % modulus() == b.elements[i].0 as int % modulus()) by {
        lemma_field_equality(a.elements[i], b.elements[i]);
    }
    if a.eq_spec(&b) {
        assert forall|i: int| 0 <= i < 4 implies #[trigger] x[i] == y[i] by {
            let w = a.elements[i].0;
        }
        assert(x =~= y);
    }
    if x == y {
        assert(x[0] == y[0] && x[1] == y[1] && x[2] == y[2] && x[3] == y[3]);
        let w0 = a.elements[0].0;
        let w1 = a.elements[1].0;
        let w2 = a.elements[2].0;
        let w3 = a.elements[3].0;
    }
}

/// Caps are equal exactly if they have as many digests, and all of them are the same.
pub proof fn lemma_cap_equality<H: Hasher>(a: MerkleCap<H>, b: MerkleCap<H>)
    ensures
        a.eq_spec(&b) <==> a.0@.len() == b.0@.len() && forall|i: int|
            0 <= i < a.0@.len() ==> (#[trigger] a.0@[i]).digest() == b.0@[i].digest(),
{
    lemma_same_digests(a.0@, b.0@);
}

proof fn lemma_same_digests<D: GenericHashOut>(a: Seq<D>, b: Seq<D>)
    ensures
        digests_seq(a) == digests_seq(b) <==> a.len() == b.len() && forall|i: int|
            0 <= i < a.len() ==> (#[trigger] a[i]).digest() == b[i].digest(),
{
    let (x, y) = (digests_seq(a), digests_seq(b));
    assert(x.len() == a.len() && y.len() == b.len());
    if x == y {
        assert forall|i: int| 0 <= i < a.len() implies (#[trigger] a[i]).digest()
            == b[i].digest() by {
            assert(x[i] == a[i].digest() && y[i] == b[i].digest());
        }
    }
    if a.len() == b.len() && forall|i: int|
        0 <= i < a.len() ==> (#[trigger] a[i]).digest() == b[i].digest() {
        assert(x =~= y);
    }
}

/// Trees are equal exactly if their leaves are, they have as many, and all digests and caps are the
/// same.
pub proof fn lemma_tree_equality<H: Hasher>(a: MerkleTree<H>, b: MerkleTree<H>)
    ensures
        a.eq_spec(&b) <==> {
            &&& a.leaves.eq_spec(&b.leaves)
            &&& a.num_leaves == b.num_leaves
            &&& a.digests@.len() == b.digests@.len()
            &&& forall|i: int|
                0 <= i < a.digests@.len() ==> (#[trigger] a.digests@[i]).digest()
                    == b.digests@[i].digest()
            &&& a.cap.eq_spec(&b.cap)
        },
{
    lemma_same_digests(a.digests@, b.digests@);
}

/// Storages of leaves compare by what they hold: as many leaves, as wide, with the same values.
pub proof fn lemma_leaves_equality(a: MerkleLeaves, b: MerkleLeaves, n: nat, m: nat)
    requires
        a.holds(n),
        b.holds(m),
        n > 0,
        m > 0,
        a.width() > 0,
    ensures
        a.eq_spec(&b) <==> (n == m && a.width() == b.width() && forall|i: int|
            0 <= i < n ==> vals(#[trigger] a.leaf(i)) == vals(b.leaf(i))),
{
    lemma_equal_leaves(a, b, n, m);
}

/// Stores of columns are equal exactly if they are of the same kind and shape, and every entry is:
/// by value where the columns are their own, and by word where they lie in a retained buffer.
pub proof fn lemma_store_equality(
    a: ColumnStore<GoldilocksField>,
    b: ColumnStore<GoldilocksField>,
)
    ensures
        a.eq_spec(&b) <==> match (a, b) {
            (ColumnStore::Owned(x), ColumnStore::Owned(y)) => {
                &&& x@.len() == y@.len()
                &&& forall|j: int|
                    0 <= j < x@.len() ==> (#[trigger] x@[j])@.len() == y@[j]@.len() && (
                    forall|i: int|
                        0 <= i < x@[j]@.len() ==> (#[trigger] x@[j]@[i]).v() == y@[j]@[i].v())
            },
            (ColumnStore::Shared(x), ColumnStore::Shared(y)) => {
                &&& x.spec_rows() == y.spec_rows()
                &&& x.spec_cols() == y.spec_cols()
                &&& x.flat() == y.flat()
            },
            _ => false,
        },
{
    if let (ColumnStore::Owned(x), ColumnStore::Owned(y)) = (a, b) {
        if equal_owned(x@, y@) {
            assert forall|j: int| 0 <= j < x@.len() implies (#[trigger] x@[j])@.len()
                == y@[j]@.len() && (forall|i: int|
                0 <= i < x@[j]@.len() ==> (#[trigger] x@[j]@[i]).v() == y@[j]@[i].v()) by {
                let (p, q) = (vals(x@[j]@), vals(y@[j]@));
                assert(p == q);
                assert(p.len() == x@[j]@.len() && q.len() == y@[j]@.len());
                assert forall|i: int| 0 <= i < x@[j]@.len() implies (#[trigger] x@[j]@[i]).v()
                    == y@[j]@[i].v() by {
                    assert(p[i] == q[i]);
                }
            }
        }
        if x@.len() == y@.len() && forall|j: int|
            0 <= j < x@.len() ==> (#[trigger] x@[j])@.len() == y@[j]@.len() && (forall|i: int|
                0 <= i < x@[j]@.len() ==> (#[trigger] x@[j]@[i]).v() == y@[j]@[i].v()) {
            assert forall|j: int| 0 <= j < x@.len() implies vals((#[trigger] x@[j])@) == vals(
                y@[j]@,
            ) by {
                assert(vals(x@[j]@) =~= vals(y@[j]@));
            }
        }
    }
}

/// Polynomials are equal exactly if every coefficient is, where those beyond the last are zero.
pub proof fn lemma_polynomial_equality<F: Field>(a: PolynomialCoeffs<F>, b: PolynomialCoeffs<F>)
    ensures
        a.eq_spec(&b) <==> {
            &&& forall|i: int|
                0 <= i < a.coeffs@.len() && i < b.coeffs@.len() ==> (#[trigger] a.coeffs@[i]).v()
                    == b.coeffs@[i].v()
            &&& forall|i: int|
                b.coeffs@.len() <= i < a.coeffs@.len() ==> (#[trigger] a.coeffs@[i]).v() == elt0()
            &&& forall|i: int|
                a.coeffs@.len() <= i < b.coeffs@.len() ==> (#[trigger] b.coeffs@[i]).v() == elt0()
        },
{
    let (x, y) = (a.coeffs@, b.coeffs@);
    if same_polynomial(x, y) {
        assert forall|i: int| 0 <= i < x.len() && i < y.len() implies (#[trigger] x[i]).v()
            == y[i].v() by {
            assert(coefficient(x, i) == coefficient(y, i));
        }
        assert forall|i: int| y.len() <= i < x.len() implies (#[trigger] x[i]).v() == elt0() by {
            assert(coefficient(x, i) == coefficient(y, i));
        }
        assert forall|i: int| x.len() <= i < y.len() implies (#[trigger] y[i]).v() == elt0() by {
            assert(coefficient(x, i) == coefficient(y, i));
        }
    }
    if (forall|i: int| 0 <= i < x.len() && i < y.len() ==> (#[trigger] x[i]).v() == y[i].v()) && (
    forall|i: int| y.len() <= i < x.len() ==> (#[trigger] x[i]).v() == elt0()) && (forall|i: int|
        x.len() <= i < y.len() ==> (#[trigger] y[i]).v() == elt0()) {
        assert forall|i: int| 0 <= i implies #[trigger] coefficient(x, i) == coefficient(y, i) by {
            if i < x.len() && i < y.len() {
                assert(x[i].v() == y[i].v());
            } else if i < x.len() {
                assert(x[i].v() == elt0());
            } else if i < y.len() {
                assert(y[i].v() == elt0());
            }
        }
    }
}

/// Batches are equal exactly if their parameters, their trees and all of their polynomials are.
pub proof fn lemma_batch_equality<C: GenericConfig<D>, const D: usize>(
    a: PolynomialBatch<C, D>,
    b: PolynomialBatch<C, D>,
)
    ensures
        a.eq_spec(&b) <==> {
            &&& a.polynomials@.len() == b.polynomials@.len()
            &&& forall|k: int|
                0 <= k < a.polynomials@.len() ==> (#[trigger] a.polynomials@[k]).eq_spec(
                    &b.polynomials@[k],
                )
            &&& a.merkle_tree.eq_spec(&b.merkle_tree)
            &&& a.degree_log == b.degree_log
            &&& a.rate_bits == b.rate_bits
            &&& a.blinding == b.blinding
        },
{
}

} // verus!
