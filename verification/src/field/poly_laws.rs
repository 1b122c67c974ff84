//! What the value of a polynomial is, in terms of its coefficients.

use crate::field::coset::lemma_vals_wf;
use crate::field::dft::{all_wf, eval_poly, eval_strided, lemma_eval_wf};
use crate::field::inversion::lemma_add_shuffle;
use crate::field::model::{
    Elt, elt0, group_elt_wf, lemma_add_assoc, lemma_add_zero, lemma_mul_assoc, lemma_mul_comm,
    lemma_mul_dist, lemma_mul_one_zero,
};
use crate::field::polynomial::{coefficient, same_polynomial};
use crate::field::roots::{lemma_power_wf, power};
use crate::field::types::{Field, vals};
use crate::fri::lde::lemma_eval_zero_tail;
use vstd::prelude::*;

verus! {

/// The value of a stretch of coefficients depends on these coefficients alone.
pub proof fn lemma_eval_same(
    c: Seq<Elt>,
    i: int,
    d: Seq<Elt>,
    j: int,
    len: nat,
    x: Elt,
)
    requires
        forall|t: int| 0 <= t < len ==> #[trigger] c[i + t] == d[j + t],
    ensures
        eval_strided(c, i, 1, len, x) == eval_strided(d, j, 1, len, x),
    decreases len,
{
    if len > 0 {
        assert(c[i + 0] == d[j + 0]);
        assert forall|t: int| 0 <= t < len - 1 implies #[trigger] c[i + 1 + t] == d[j + 1 + t] by {
            assert(c[i + (t + 1)] == d[j + (t + 1)]);
        }
        lemma_eval_same(c, i + 1, d, j + 1, (len - 1) as nat, x);
    }
}

/// The lowest coefficient, and `x` times the value of the others.
pub proof fn lemma_eval_first(c: Seq<Elt>, x: Elt)
    requires
        c.len() > 0,
    ensures
        eval_poly(c, x) == c[0] + x * eval_poly(c.skip(1), x),
{
    let d = c.skip(1);
    assert forall|t: int| 0 <= t < d.len() implies #[trigger] c[1 + t] == d[0 + t] by {}
    lemma_eval_same(c, 1, d, 0, d.len(), x);
}

/// Coefficients that follow others are those of the next powers: the value of `a + b` is that of
/// `a`, and `x^|a|` times that of `b`.
pub proof fn lemma_eval_concat(a: Seq<Elt>, b: Seq<Elt>, x: Elt)
    requires
        all_wf(a),
        all_wf(b),
        x.wf(),
    ensures
        eval_poly(a + b, x) == eval_poly(a, x) + power(x, a.len()) * eval_poly(b, x),
    decreases a.len(),
{
    broadcast use group_elt_wf;

    let e = eval_poly(b, x);
    lemma_eval_wf(b, 0, 1, b.len(), x);
    if a.len() == 0 {
        assert(a + b =~= b);
        lemma_mul_one_zero(e);
        lemma_add_zero(e);
    } else {
        let rest = a.skip(1);
        assert(all_wf(rest)) by {
            assert forall|i: int| 0 <= i < rest.len() implies (#[trigger] rest[i]).wf() by {
                assert(a[i + 1].wf());
            }
        }
        lemma_eval_concat(rest, b, x);
        lemma_eval_first(a + b, x);
        lemma_eval_first(a, x);
        assert((a + b).skip(1) =~= rest + b);
        let (f, p) = (eval_poly(rest, x), power(x, rest.len()));
        lemma_eval_wf(rest, 0, 1, rest.len(), x);
        lemma_power_wf(x, rest.len());
        lemma_mul_dist(x, f, p * e);
        lemma_mul_assoc(x, p, e);
        lemma_add_assoc(a[0], x * f, (x * p) * e);
        lemma_mul_comm(x, p);
        assert(power(x, a.len()) == p * x);
        assert(a[0].wf());
    }
}

/// One more coefficient adds itself, times the next power of the point.
pub proof fn lemma_eval_push(c: Seq<Elt>, last: Elt, x: Elt)
    requires
        all_wf(c),
        last.wf(),
        x.wf(),
    ensures
        eval_poly(c.push(last), x) == eval_poly(c, x) + power(x, c.len()) * last,
{
    let s = seq![last];
    assert(c.push(last) =~= c + s);
    assert(all_wf(s));
    lemma_eval_concat(c, s, x);
    assert(eval_strided(s, 1, 1, 0, x) == elt0());
    lemma_mul_one_zero(x);
    lemma_add_zero(last);
    assert(eval_poly(s, x) == last);
}

/// The value of a combination of two polynomials of the same length is the combination of their
/// values.
pub proof fn lemma_eval_linear(a: Seq<Elt>, b: Seq<Elt>, k: Elt, c: Seq<Elt>, x: Elt)
    requires
        all_wf(a),
        all_wf(b),
        k.wf(),
        x.wf(),
        a.len() == b.len(),
        c.len() == a.len(),
        forall|i: int| 0 <= i < c.len() ==> #[trigger] c[i] == a[i] + k * b[i],
    ensures
        eval_poly(c, x) == eval_poly(a, x) + k * eval_poly(b, x),
    decreases a.len(),
{
    broadcast use group_elt_wf;

    if a.len() == 0 {
        lemma_mul_one_zero(k);
        lemma_add_zero(elt0());
    } else {
        let (ra, rb, rc) = (a.skip(1), b.skip(1), c.skip(1));
        assert forall|i: int| 0 <= i < ra.len() implies (#[trigger] ra[i]).wf() by {
            assert(a[i + 1].wf());
        }
        assert forall|i: int| 0 <= i < rb.len() implies (#[trigger] rb[i]).wf() by {
            assert(b[i + 1].wf());
        }
        assert forall|i: int| 0 <= i < rc.len() implies #[trigger] rc[i] == ra[i] + k * rb[i] by {
            assert(c[i + 1] == a[i + 1] + k * b[i + 1]);
        }
        lemma_eval_linear(ra, rb, k, rc, x);
        lemma_eval_first(a, x);
        lemma_eval_first(b, x);
        lemma_eval_first(c, x);
        let (ea, eb) = (eval_poly(ra, x), eval_poly(rb, x));
        lemma_eval_wf(ra, 0, 1, ra.len(), x);
        lemma_eval_wf(rb, 0, 1, rb.len(), x);
        assert(a[0].wf() && b[0].wf());
        lemma_mul_dist(x, ea, k * eb);
        lemma_mul_assoc(x, k, eb);
        lemma_mul_comm(x, k);
        lemma_mul_assoc(k, x, eb);
        lemma_add_shuffle(a[0], k * b[0], x * ea, k * (x * eb));
        lemma_mul_dist(k, b[0], x * eb);
    }
}

/// Coefficients that compare as the same polynomial have the same value at every point.
pub proof fn lemma_same_polynomial_values<F: Field>(a: Seq<F>, b: Seq<F>, x: Elt)
    requires
        x.wf(),
        same_polynomial(a, b),
    ensures
        eval_poly(vals(a), x) == eval_poly(vals(b), x),
{
    let (c, d) = (vals(a), vals(b));
    lemma_vals_wf(a);
    lemma_vals_wf(b);
    F::lemma_values(F::s_const(0));
    assert forall|i: int| 0 <= i < c.len() && i < d.len() implies c[i] == d[i] by {
        assert(coefficient(a, i) == coefficient(b, i));
    }
    assert forall|i: int| c.len() <= i < d.len() implies d[i] == elt0() by {
        assert(coefficient(a, i) == coefficient(b, i));
    }
    assert forall|i: int| d.len() <= i < c.len() implies c[i] == elt0() by {
        assert(coefficient(a, i) == coefficient(b, i));
    }
    if a.len() <= b.len() {
        lemma_eval_zero_tail(c, d, x);
    } else {
        lemma_eval_zero_tail(d, c, x);
    }
}

} // verus!
