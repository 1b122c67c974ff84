//! Polynomials, by coefficients and by values.

use crate::field::model::{Elt, elt0};
use crate::field::types::Field;
use vstd::prelude::*;

verus! {

/// A polynomial given by its coefficients, lowest degree first.
#[derive(Clone, Debug)]
pub struct PolynomialCoeffs<F: Field> {
    pub coeffs: Vec<F>,
}

/// Coefficient `i`; beyond the last one they are zero.
pub open spec fn coefficient<F: Field>(c: Seq<F>, i: int) -> Elt {
    if i < c.len() {
        c[i].v()
    } else {
        elt0()
    }
}

/// The two sequences of coefficients give the same polynomial.
pub open spec fn same_polynomial<F: Field>(a: Seq<F>, b: Seq<F>) -> bool {
    forall|i: int| 0 <= i ==> #[trigger] coefficient(a, i) == coefficient(b, i)
}

impl<F: Field> PartialEq for PolynomialCoeffs<F> {
    /// Equality as polynomials: zeros at the end do not matter.
    fn eq(&self, other: &Self) -> (r: bool) {
        let (m, n): (usize, usize) = (self.coeffs.len(), other.coeffs.len());
        let mut i: usize = 0;
        while i < m || i < n
            invariant
                m == self.coeffs@.len(),
                n == other.coeffs@.len(),
                i <= m || i <= n,
                forall|k: int|
                    0 <= k < i ==> #[trigger] coefficient(self.coeffs@, k) == coefficient(
                        other.coeffs@,
                        k,
                    ),
            decreases m + n - i,
        {
            let a = if i < m {
                self.coeffs[i]
            } else {
                F::zero()
            };
            let b = if i < n {
                other.coeffs[i]
            } else {
                F::zero()
            };
            proof {
                F::lemma_values(a);
            }
            if !a.equals(b) {
                assert(coefficient(self.coeffs@, i as int) != coefficient(other.coeffs@, i as int));
                return false;
            }
            i = i + 1;
        }
        true
    }
}

impl<F: Field> Eq for PolynomialCoeffs<F> {

}

impl<F: Field> vstd::std_specs::cmp::PartialEqSpecImpl for PolynomialCoeffs<F> {
    open spec fn obeys_eq_spec() -> bool {
        true
    }

    open spec fn eq_spec(&self, other: &Self) -> bool {
        same_polynomial(self.coeffs@, other.coeffs@)
    }
}

/// A polynomial given by its values on a subgroup or a coset.
#[derive(Clone, Debug)]
pub struct PolynomialValues<F: Field> {
    pub values: Vec<F>,
}

/// A copy of a vector of field elements.
pub fn copy_vec<F: Copy>(v: &Vec<F>) -> (r: Vec<F>)
    ensures
        r@ == v@,
{
    let mut r: Vec<F> = Vec::with_capacity(v.len());
    while r.len() < v.len()
        invariant
            r@.len() <= v@.len(),
            r@ == v@.take(r@.len() as int),
        decreases v@.len() - r@.len(),
    {
        let i: usize = r.len();
        r.push(v[i]);
        assert(r@ =~= v@.take(r@.len() as int));
    }
    assert(r@ =~= v@);
    r
}

/// A vector of `n` equal elements.
pub fn filled<F: Copy>(x: F, n: usize) -> (r: Vec<F>)
    ensures
        r@.len() == n,
        forall|i: int| 0 <= i < n ==> #[trigger] r@[i] == x,
{
    let mut r: Vec<F> = Vec::with_capacity(n);
    while r.len() < n
        invariant
            r@.len() <= n,
            forall|i: int| 0 <= i < r@.len() ==> #[trigger] r@[i] == x,
        decreases n - r@.len(),
    {
        r.push(x);
    }
    r
}

impl<F: Field> PolynomialCoeffs<F> {
    /// The polynomial with the given coefficients.
    pub fn new(coeffs: Vec<F>) -> (r: Self)
        ensures
            r.coeffs == coeffs,
    {
        PolynomialCoeffs { coeffs }
    }

    /// The number of coefficients.
    pub fn len(&self) -> (r: usize)
        ensures
            r == self.coeffs@.len(),
    {
        self.coeffs.len()
    }
}

impl<F: Field> PolynomialValues<F> {
    /// The polynomial with the given values.
    pub fn new(values: Vec<F>) -> (r: Self)
        ensures
            r.values == values,
    {
        PolynomialValues { values }
    }

    /// The number of values.
    pub fn len(&self) -> (r: usize)
        ensures
            r == self.values@.len(),
    {
        self.values.len()
    }
}

} // verus!
