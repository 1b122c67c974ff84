//! Division of polynomials by `X - z`.

use crate::field::dft::{all_wf, eval_poly, eval_strided, lemma_eval_wf};
use crate::field::model::{
    Elt, elt0, group_elt_wf, lemma_add_comm, lemma_add_zero, lemma_mul_assoc, lemma_mul_comm,
    lemma_mul_dist, lemma_mul_one_zero, lemma_reduced_add, lemma_reduced_self, lemma_reduced_sub,
    lemma_sub_self,
};
use crate::field::polynomial::PolynomialCoeffs;
use crate::field::types::{Field, vals};
use vstd::prelude::*;

verus! {

/// The machine value of coefficient `i` of the quotient `(p(X) - p(z)) / (X - z)`, from the highest
/// coefficient down.
pub open spec fn s_quotient<F: Field>(p: Seq<F>, z: F, i: int) -> F
    decreases p.len() - i,
{
    if i + 1 >= p.len() {
        F::s_const(0)
    } else {
        s_quotient(p, z, i + 1).s_mul(z).s_add(p[i + 1])
    }
}

/// Coefficient `i` of the quotient `(p(X) - p(z)) / (X - z)`: the part of `p` above it, at `z`.
pub open spec fn quotient_coeff(p: Seq<Elt>, z: Elt, i: int) -> Elt {
    if 0 <= i < p.len() - 1 {
        eval_strided(p, i + 1, 1, (p.len() - i - 1) as nat, z)
    } else {
        elt0()
    }
}

/// The quotient `(p(X) - p(z)) / (X - z)`, with a zero as its highest coefficient.
pub open spec fn linear_quotient(p: Seq<Elt>, z: Elt) -> Seq<Elt> {
    Seq::new(p.len(), |i: int| quotient_coeff(p, z, i))
}

/// The machine values stand for the quotient.
pub proof fn lemma_s_quotient<F: Field>(p: Seq<F>, z: F, i: int)
    requires
        0 <= i < p.len(),
    ensures
        s_quotient(p, z, i).v() == quotient_coeff(vals(p), z.v(), i),
    decreases p.len() - i,
{
    broadcast use group_elt_wf;

    F::lemma_values(z);
    if i + 1 < p.len() {
        lemma_s_quotient(p, z, i + 1);
        let q = s_quotient(p, z, i + 1);
        F::lemma_values(q);
        F::lemma_values(p[i + 1]);
        F::lemma_ops(q, z);
        F::lemma_ops(q.s_mul(z), p[i + 1]);
        lemma_mul_comm(q.v(), z.v());
        lemma_add_comm(z.v() * q.v(), p[i + 1].v());
        if i + 2 == p.len() {
            assert(eval_strided(vals(p), i + 2, 1, 0, z.v()) == elt0());
        }
        assert(eval_strided(vals(p), i + 1, 1, (p.len() - i - 1) as nat, z.v()) == vals(p)[i + 1]
            + z.v() * eval_strided(vals(p), i + 2, 1, (p.len() - i - 2) as nat, z.v()));
    }
}

proof fn lemma_division_from(p: Seq<Elt>, z: Elt, x: Elt, i: int)
    requires
        all_wf(p),
        z.wf(),
        x.wf(),
        0 <= i <= p.len(),
    ensures
        eval_strided(linear_quotient(p, z), i, 1, (p.len() - i) as nat, x) * (x - z)
            == eval_strided(p, i, 1, (p.len() - i) as nat, x) - eval_strided(
            p,
            i,
            1,
            (p.len() - i) as nat,
            z,
        ),
    decreases p.len() - i,
{
    broadcast use group_elt_wf;

    let q = linear_quotient(p, z);
    let n = (p.len() - i) as nat;
    let d = x - z;
    if n == 0 {
        lemma_mul_one_zero(d);
        lemma_sub_self(elt0());
    } else {
        lemma_division_from(p, z, x, i + 1);
        let m = (n - 1) as nat;
        let (ex, ez, qx) = (
            eval_strided(p, i + 1, 1, m, x),
            eval_strided(p, i + 1, 1, m, z),
            eval_strided(q, i + 1, 1, m, x),
        );
        lemma_eval_wf(p, i + 1, 1, m, x);
        lemma_eval_wf(p, i + 1, 1, m, z);
        lemma_eval_wf(q, i + 1, 1, m, x);
        assert(q[i] == ez);
        // (ez + x qx) d == ez d + x (qx d) == ez (x - z) + x (ex - ez) == x ex - z ez
        lemma_mul_dist(d, ez, x * qx);
        lemma_mul_assoc(x, qx, d);
        lemma_mul_dist(x, ex, ez);
        lemma_mul_dist(ez, x, z);
        lemma_mul_comm(ez, x);
        lemma_mul_comm(ez, z);
        lemma_telescope(x * ez, z * ez, x * ex);
        lemma_difference_of_sums(p[i], x * ex, z * ez);
    }
}

/// `(a - b) + (c - a) == c - b`.
proof fn lemma_telescope(a: Elt, b: Elt, c: Elt)
    requires
        a.wf(),
        b.wf(),
        c.wf(),
    ensures
        (a - b) + (c - a) == c - b,
{
    lemma_reduced_self(a);
    lemma_reduced_self(b);
    lemma_reduced_self(c);
    lemma_reduced_sub(a.re, a.im, b.re, b.im);
    lemma_reduced_sub(c.re, c.im, a.re, a.im);
    lemma_reduced_sub(c.re, c.im, b.re, b.im);
    lemma_reduced_add(a.re - b.re, a.im - b.im, c.re - a.re, c.im - a.im);
}

/// `(a + b) - (a + c) == b - c`.
proof fn lemma_difference_of_sums(a: Elt, b: Elt, c: Elt)
    requires
        a.wf(),
        b.wf(),
        c.wf(),
    ensures
        (a + b) - (a + c) == b - c,
{
    lemma_reduced_self(a);
    lemma_reduced_self(b);
    lemma_reduced_self(c);
    lemma_reduced_add(a.re, a.im, b.re, b.im);
    lemma_reduced_add(a.re, a.im, c.re, c.im);
    lemma_reduced_sub(a.re + b.re, a.im + b.im, a.re + c.re, a.im + c.im);
    lemma_reduced_sub(b.re, b.im, c.re, c.im);
}

/// At every point `x`, the quotient times `x - z` is `p(x) - p(z)`.
pub proof fn lemma_quotient_times_divisor(p: Seq<Elt>, z: Elt, x: Elt)
    requires
        all_wf(p),
        z.wf(),
        x.wf(),
    ensures
        eval_poly(linear_quotient(p, z), x) * (x - z) == eval_poly(p, x) - eval_poly(p, z),
{
    lemma_division_from(p, z, x, 0);
}

/// Entry `i` of a polynomial, which is zero beyond its length.
pub open spec fn coeff_or_zero(p: Seq<Elt>, i: int) -> Elt {
    if 0 <= i < p.len() {
        p[i]
    } else {
        elt0()
    }
}

/// The length of a sum of two polynomials.
pub open spec fn longer(a: nat, b: nat) -> nat {
    if a < b {
        b
    } else {
        a
    }
}

/// `acc * shift + (p(X) - p(z)) / (X - z)`.
pub open spec fn with_quotient(acc: Seq<Elt>, p: Seq<Elt>, z: Elt, shift: Elt) -> Seq<Elt> {
    Seq::new(
        longer(acc.len(), p.len()),
        |i: int| coeff_or_zero(acc, i) * shift + quotient_coeff(p, z, i),
    )
}

/// The machine value of entry `i` of `acc * shift + (p(X) - p(z)) / (X - z)`: where the quotient has
/// no coefficient, nothing is added.
pub open spec fn s_with_quotient<F: Field>(acc: Seq<F>, p: Seq<F>, z: F, shift: F, i: int) -> F {
    let old_entry = if i < acc.len() {
        acc[i]
    } else {
        F::s_const(0)
    };
    if i + 1 < p.len() {
        old_entry.s_mul(shift).s_add(s_quotient(p, z, i))
    } else {
        old_entry.s_mul(shift)
    }
}

/// Folds a quotient `(p(X) - p(z)) / (X - z)` into a running polynomial: the running polynomial is
/// multiplied by `shift`, and the quotient is added, in one pass over the coefficients.
pub fn accumulate_linear_quotient<F: Field>(
    final_poly: &mut PolynomialCoeffs<F>,
    composition_poly: &PolynomialCoeffs<F>,
    z: F,
    shift: F,
)
    ensures
        final(final_poly).coeffs@ == Seq::new(
            longer(old(final_poly).coeffs@.len(), composition_poly.coeffs@.len()),
            |i: int|
                s_with_quotient(old(final_poly).coeffs@, composition_poly.coeffs@, z, shift, i),
        ),
        vals(final(final_poly).coeffs@) == with_quotient(
            vals(old(final_poly).coeffs@),
            vals(composition_poly.coeffs@),
            z.v(),
            shift.v(),
        ),
{
    let ghost before = final_poly.coeffs@;
    let ghost p = composition_poly.coeffs@;
    let d: usize = composition_poly.coeffs.len();
    let n: usize = final_poly.coeffs.len();
    // Entries past the quotient's length only see the shift.
    let mut i: usize = d;
    while i < n
        invariant
            d <= i,
            i <= n || i == d,
            n == before.len() == final_poly.coeffs@.len(),
            forall|k: int|
                0 <= k < n ==> #[trigger] final_poly.coeffs@[k] == (if d <= k < i {
                    before[k].s_mul(shift)
                } else {
                    before[k]
                }),
        decreases n - i,
    {
        let x = final_poly.coeffs[i].mul(shift);
        final_poly.coeffs[i] = x;
        i = i + 1;
    }
    while final_poly.coeffs.len() < d
        invariant
            n == before.len(),
            n <= final_poly.coeffs@.len(),
            final_poly.coeffs@.len() <= d || final_poly.coeffs@.len() == n,
            forall|k: int|
                0 <= k < final_poly.coeffs@.len() ==> #[trigger] final_poly.coeffs@[k] == (if k
                    >= n {
                    F::s_const(0)
                } else if d <= k {
                    before[k].s_mul(shift)
                } else {
                    before[k]
                }),
        decreases d - final_poly.coeffs@.len(),
    {
        final_poly.coeffs.push(F::zero());
    }
    let ghost len = longer(n as nat, d as nat);
    if d > 0 {
        // Highest slot: the quotient coefficient there is the explicit zero pad.
        let top = final_poly.coeffs[d - 1].mul(shift);
        final_poly.coeffs[d - 1] = top;
        // Synthetic division, highest coefficient first: the quotient's coefficient at `x^i` is
        // the accumulator after absorbing `coeffs[i + 1]`.
        let mut acc = F::zero();
        let mut i: usize = d - 1;
        while i > 0
            invariant
                0 <= i < d,
                d == p.len(),
                p == composition_poly.coeffs@,
                n == before.len(),
                len == longer(n as nat, d as nat),
                final_poly.coeffs@.len() == len,
                acc == s_quotient(p, z, i as int),
                forall|k: int|
                    0 <= k < len ==> #[trigger] final_poly.coeffs@[k] == (if k >= i {
                        s_with_quotient(before, p, z, shift, k)
                    } else if k < n {
                        before[k]
                    } else {
                        F::s_const(0)
                    }),
            decreases i,
        {
            i = i - 1;
            acc = acc.mul(z).add(composition_poly.coeffs[i + 1]);
            let x = final_poly.coeffs[i].mul(shift).add(acc);
            final_poly.coeffs[i] = x;
        }
    }
    proof {
        let words = Seq::new(len, |k: int| s_with_quotient(before, p, z, shift, k));
        assert(final_poly.coeffs@ =~= words);
        let target = with_quotient(vals(before), vals(p), z.v(), shift.v());
        assert forall|k: int| 0 <= k < len implies vals(words)[k] == #[trigger] target[k] by {
            let old_entry = if k < n {
                before[k]
            } else {
                F::s_const(0)
            };
            F::lemma_values(old_entry);
            F::lemma_ops(old_entry, shift);
            F::lemma_values(old_entry.s_mul(shift));
            lemma_add_zero(old_entry.s_mul(shift).v());
            if k + 1 < d {
                lemma_s_quotient(p, z, k);
                F::lemma_ops(old_entry.s_mul(shift), s_quotient(p, z, k));
            }
        }
        assert(vals(words) =~= target);
    }
}

} // verus!
