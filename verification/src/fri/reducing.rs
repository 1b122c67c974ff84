//! Combinations of polynomials by the powers of a challenge.

use crate::field::coset::lemma_vals_wf;
use crate::field::dft::{all_wf, eval_poly};
use crate::field::extension::QuadraticExtension;
use crate::field::goldilocks_field::GoldilocksField;
use crate::field::model::{Elt, elt0, lemma_add_zero, lemma_mul_one_zero};
use crate::field::polynomial::PolynomialCoeffs;
use crate::field::roots::{lemma_power_wf, power};
use crate::field::types::{Field, vals};
use crate::fri::combination_laws::lemma_combination_value;
use crate::fri::quotient::{coeff_or_zero, longer};
use vstd::prelude::*;

verus! {

/// Coefficient `i` of the sum of the first `n` polynomials, each multiplied by the next power of
/// `alpha`, from the zeroth on.
pub open spec fn combined_coeff(alpha: Elt, polys: Seq<Seq<Elt>>, n: nat, i: int) -> Elt
    decreases n,
{
    if n == 0 {
        elt0()
    } else {
        combined_coeff(alpha, polys, (n - 1) as nat, i) + power(alpha, (n - 1) as nat)
            * coeff_or_zero(polys[n - 1], i)
    }
}

/// The greatest number of coefficients of the first `n` polynomials.
pub open spec fn combined_len(polys: Seq<Seq<Elt>>, n: nat) -> nat
    decreases n,
{
    if n == 0 {
        0
    } else {
        longer(combined_len(polys, (n - 1) as nat), polys[n - 1].len())
    }
}

/// The sum of the first `n` polynomials, each multiplied by the next power of `alpha`.
pub open spec fn combined(alpha: Elt, polys: Seq<Seq<Elt>>, n: nat) -> Seq<Elt> {
    Seq::new(combined_len(polys, n), |i: int| combined_coeff(alpha, polys, n, i))
}

/// The coefficients of some polynomials.
pub open spec fn poly_vals(polys: Seq<&PolynomialCoeffs<GoldilocksField>>) -> Seq<Seq<Elt>> {
    Seq::new(polys.len(), |j: int| vals(polys[j].coeffs@))
}

/// Reduces polynomials by the powers of a challenge, and counts how many powers it has used.
#[derive(Debug)]
pub struct ReducingFactor {
    pub base: QuadraticExtension,
    pub count: usize,
}

/// Beyond its length, a combination is zero.
pub proof fn lemma_combined_beyond(alpha: Elt, polys: Seq<Seq<Elt>>, n: nat, i: int)
    requires
        alpha.wf(),
        i >= combined_len(polys, n),
    ensures
        combined_coeff(alpha, polys, n, i) == elt0(),
    decreases n,
{
    if n > 0 {
        lemma_combined_beyond(alpha, polys, (n - 1) as nat, i);
        lemma_power_wf(alpha, (n - 1) as nat);
        lemma_mul_one_zero(power(alpha, (n - 1) as nat));
        lemma_add_zero(elt0());
    }
}

/// Adds a multiple of a polynomial to another one.
fn add_multiple(
    acc: &mut Vec<QuadraticExtension>,
    factor: QuadraticExtension,
    poly: &PolynomialCoeffs<GoldilocksField>,
)
    ensures
        final(acc)@.len() == longer(old(acc)@.len(), poly.coeffs@.len()),
        forall|i: int|
            #![trigger final(acc)@[i]]
            0 <= i < final(acc)@.len() ==> final(acc)@[i].v() == coeff_or_zero(
                vals(old(acc)@),
                i,
            ) + factor.v() * coeff_or_zero(vals(poly.coeffs@), i),
{
    let ghost before = acc@;
    let n: usize = acc.len();
    let d: usize = poly.coeffs.len();
    while acc.len() < d
        invariant
            n == before.len(),
            n <= acc@.len(),
            acc@.len() <= d || acc@.len() == n,
            forall|k: int|
                0 <= k < acc@.len() ==> #[trigger] acc@[k] == (if k < n {
                    before[k]
                } else {
                    QuadraticExtension::s_const(0)
                }),
        decreases d - acc@.len(),
    {
        acc.push(QuadraticExtension::zero());
    }
    proof {
        QuadraticExtension::lemma_values(factor);
        lemma_mul_one_zero(factor.v());
        assert forall|k: int| 0 <= k < acc@.len() implies (#[trigger] acc@[k]).v()
            == coeff_or_zero(vals(before), k) by {
            QuadraticExtension::lemma_values(QuadraticExtension::s_const(0));
        }
    }
    let ghost wide = acc@;
    let mut i: usize = 0;
    while i < d
        invariant
            i <= d == poly.coeffs@.len(),
            d <= acc@.len() == wide.len(),
            forall|k: int|
                0 <= k < wide.len() ==> (#[trigger] wide[k]).v() == coeff_or_zero(
                    vals(before),
                    k,
                ),
            forall|k: int| i <= k < wide.len() ==> #[trigger] acc@[k] == wide[k],
            forall|k: int|
                0 <= k < i ==> (#[trigger] acc@[k]).v() == coeff_or_zero(vals(before), k)
                    + factor.v() * vals(poly.coeffs@)[k],
        decreases d - i,
    {
        let c = QuadraticExtension::from_basefield(poly.coeffs[i]);
        let term = factor.mul(c);
        let x = acc[i].add(term);
        proof {
            QuadraticExtension::lemma_ops(factor, c);
            QuadraticExtension::lemma_ops(acc@[i as int], term);
        }
        acc[i] = x;
        i = i + 1;
    }
    proof {
        assert forall|k: int| 0 <= k < acc@.len() implies (#[trigger] acc@[k]).v()
            == coeff_or_zero(vals(before), k) + factor.v() * coeff_or_zero(
            vals(poly.coeffs@),
            k,
        ) by {
            if k >= d {
                QuadraticExtension::lemma_values(wide[k]);
                lemma_add_zero(wide[k].v());
            }
        }
    }
}

impl ReducingFactor {
    /// A challenge of which no powers have been used.
    pub fn new(base: QuadraticExtension) -> (r: Self)
        ensures
            r.base == base,
            r.count == 0,
    {
        ReducingFactor { base, count: 0 }
    }

    /// The sum of some polynomials, each multiplied by the next power of the challenge.
    pub fn reduce_polys_base(
        &mut self,
        polys: &Vec<&PolynomialCoeffs<GoldilocksField>>,
    ) -> (r: PolynomialCoeffs<QuadraticExtension>)
        requires
            old(self).count + polys@.len() <= usize::MAX,
        ensures
            final(self).base == old(self).base,
            final(self).count == old(self).count + polys@.len(),
            vals(r.coeffs@) == combined(old(self).base.v(), poly_vals(polys@), polys@.len()),
            forall|x: Elt| #[trigger]
                x.wf() ==> eval_poly(vals(r.coeffs@), x) == eval_poly(
                    Seq::new(polys@.len(), |j: int| eval_poly(vals(polys@[j].coeffs@), x)),
                    old(self).base.v(),
                ),
    {
        let ghost alpha = self.base.v();
        let ghost all = poly_vals(polys@);
        let mut acc: Vec<QuadraticExtension> = Vec::new();
        let mut factor = QuadraticExtension::one();
        let mut j: usize = 0;
        proof {
            QuadraticExtension::lemma_values(self.base);
            QuadraticExtension::lemma_values(factor);
            assert(vals(acc@) =~= combined(alpha, all, 0));
        }
        while j < polys.len()
            invariant
                j <= polys@.len(),
                alpha == self.base.v(),
                alpha.wf(),
                self.base == old(self).base,
                self.count == old(self).count + j,
                old(self).count + polys@.len() <= usize::MAX,
                all == poly_vals(polys@),
                factor.v() == power(alpha, j as nat),
                vals(acc@) == combined(alpha, all, j as nat),
            decreases polys@.len() - j,
        {
            let ghost before = vals(acc@);
            proof {
                QuadraticExtension::lemma_ops(factor, self.base);
                assert(vals(acc@).len() == acc@.len());
            }
            add_multiple(&mut acc, factor, polys[j]);
            proof {
                let target = combined(alpha, all, (j + 1) as nat);
                assert(all[j as int] == vals(polys@[j as int].coeffs@));
                assert forall|i: int| 0 <= i < acc@.len() implies vals(acc@)[i]
                    == #[trigger] target[i] by {
                    assert(acc@[i].v() == coeff_or_zero(before, i) + factor.v() * coeff_or_zero(
                        all[j as int],
                        i,
                    ));
                    if i >= before.len() {
                        lemma_combined_beyond(alpha, all, j as nat, i);
                    }
                }
                assert(vals(acc@) =~= target);
            }
            factor = factor.mul(self.base);
            self.count = self.count + 1;
            j = j + 1;
        }
        proof {
            assert forall|x: Elt| #[trigger] x.wf() implies eval_poly(vals(acc@), x) == eval_poly(
                Seq::new(polys@.len(), |j: int| eval_poly(vals(polys@[j].coeffs@), x)),
                alpha,
            ) by {
                assert forall|k: int| 0 <= k < all.len() implies all_wf(#[trigger] all[k]) by {
                    lemma_vals_wf(polys@[k].coeffs@);
                }
                lemma_combination_value(alpha, all, all.len(), x);
                assert(Seq::new(all.len(), |k: int| eval_poly(all[k], x)) =~= Seq::new(
                    polys@.len(),
                    |j: int| eval_poly(vals(polys@[j].coeffs@), x),
                ));
            }
        }
        PolynomialCoeffs { coeffs: acc }
    }

    /// The first power of the challenge that has not been used. The count starts anew.
    pub fn shift_factor(&mut self) -> (r: QuadraticExtension)
        ensures
            final(self).base == old(self).base,
            final(self).count == 0,
            r.v() == power(old(self).base.v(), old(self).count as nat),
    {
        let count: usize = self.count;
        let mut r = QuadraticExtension::one();
        let mut i: usize = 0;
        proof {
            QuadraticExtension::lemma_values(r);
        }
        while i < count
            invariant
                i <= count,
                self.base == old(self).base,
                r.v() == power(self.base.v(), i as nat),
            decreases count - i,
        {
            proof {
                QuadraticExtension::lemma_ops(r, self.base);
            }
            r = r.mul(self.base);
            i = i + 1;
        }
        self.count = 0;
        r
    }
}

} // verus!
