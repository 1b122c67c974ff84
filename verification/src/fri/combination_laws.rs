//! What the combination of polynomials by the powers of a challenge, and the polynomial that
//! openings are reduced to, are worth at every point.

use crate::field::coset::lemma_vals_wf;
use crate::field::dft::{all_wf, eval_poly, lemma_eval_wf};
use crate::field::extension::QuadraticExtension;
use crate::field::model::{
    Elt, elt0, group_elt_wf, lemma_add_comm, lemma_add_sub_cancel, lemma_mul_comm,
};
use crate::field::poly_laws::{lemma_eval_concat, lemma_eval_linear, lemma_eval_push};
use crate::field::roots::{lemma_power_wf, power};
use crate::field::types::{Field, vals};
use crate::fri::commit_laws::of_low_degree;
use crate::fri::lde::lemma_eval_zero_tail;
use crate::fri::openings::{Oracle, batch_polys, extended_poly, opened};
use crate::fri::quotient::{
    coeff_or_zero, lemma_quotient_times_divisor, linear_quotient, quotient_coeff, with_quotient,
};
use crate::fri::reducing::{combined, combined_coeff, combined_len, lemma_combined_beyond};
use crate::fri::structure::FriBatchInfo;
use vstd::arithmetic::power2::{lemma_pow2_pos, pow2};
use vstd::prelude::*;

verus! {

/// Every polynomial has reduced coefficients.
pub open spec fn all_polys_wf(polys: Seq<Seq<Elt>>) -> bool {
    forall|j: int| 0 <= j < polys.len() ==> all_wf(#[trigger] polys[j])
}


/// Coefficient `i` of a combination is the polynomial with the coefficients `f_0[i]`, ..,
/// `f_{n-1}[i]` at `alpha`, for any number of polynomials.
pub proof fn lemma_combined_coefficient(alpha: Elt, polys: Seq<Seq<Elt>>, n: nat, i: int)
    requires
        alpha.wf(),
        all_polys_wf(polys),
        n <= polys.len(),
        0 <= i,
    ensures
        combined_coeff(alpha, polys, n, i) == eval_poly(
            Seq::new(
                n,
                |j: int|
                    if i < polys[j].len() {
                        polys[j][i]
                    } else {
                        elt0()
                    },
            ),
            alpha,
        ),
        i < combined_len(polys, n) ==> combined(alpha, polys, n)[i] == combined_coeff(
            alpha,
            polys,
            n,
            i,
        ),
    decreases n,
{
    if n > 0 {
        let m = (n - 1) as nat;
        lemma_combined_coefficient(alpha, polys, m, i);
        let column = |k: nat|
            Seq::new(
                k,
                |j: int|
                    if i < polys[j].len() {
                        polys[j][i]
                    } else {
                        elt0()
                    },
            );
        let last = coeff_or_zero(polys[m as int], i);
        assert(all_wf(polys[m as int]));
        assert(last.wf());
        assert(column(n) =~= column(m).push(last));
        assert forall|j: int| 0 <= j < m implies (#[trigger] column(m)[j]).wf() by {
            assert(all_wf(polys[j]));
        }
        lemma_eval_push(column(m), last, alpha);
        assert(column(n) =~= Seq::new(
            n,
            |j: int|
                if i < polys[j].len() {
                    polys[j][i]
                } else {
                    elt0()
                },
        ));
        assert(column(m) =~= Seq::new(
            m,
            |j: int|
                if i < polys[j].len() {
                    polys[j][i]
                } else {
                    elt0()
                },
        ));
    } else {
        assert(combined_len(polys, 0) == 0);
    }
}

/// A polynomial, filled up with zeros to a length.
spec fn filled(p: Seq<Elt>, len: nat) -> Seq<Elt> {
    Seq::new(len, |i: int| coeff_or_zero(p, i))
}

proof fn lemma_filled(p: Seq<Elt>, len: nat, x: Elt)
    requires
        all_wf(p),
        x.wf(),
        p.len() <= len,
    ensures
        all_wf(filled(p, len)),
        eval_poly(filled(p, len), x) == eval_poly(p, x),
{
    lemma_eval_zero_tail(p, filled(p, len), x);
}

/// The coefficients of a combination are reduced.
pub proof fn lemma_combined_wf(alpha: Elt, polys: Seq<Seq<Elt>>, n: nat)
    ensures
        all_wf(combined(alpha, polys, n)),
        combined(alpha, polys, n).len() == combined_len(polys, n),
{
    broadcast use group_elt_wf;

    assert forall|i: int| 0 <= i < combined_len(polys, n) implies (#[trigger] combined(
        alpha,
        polys,
        n,
    )[i]).wf() by {}
}

/// The value of a combination at any point `x` is the sum of `alpha^j` times the value of
/// polynomial `j` at `x`, for any number of polynomials: the polynomial with these values as
/// coefficients, at `alpha`.
pub proof fn lemma_combination_value(alpha: Elt, polys: Seq<Seq<Elt>>, n: nat, x: Elt)
    requires
        alpha.wf(),
        x.wf(),
        all_polys_wf(polys),
        n <= polys.len(),
    ensures
        eval_poly(combined(alpha, polys, n), x) == eval_poly(
            Seq::new(n, |j: int| eval_poly(polys[j], x)),
            alpha,
        ),
    decreases n,
{
    if n == 0 {
        assert(combined(alpha, polys, 0).len() == 0);
    } else {
        let m = (n - 1) as nat;
        lemma_combination_value(alpha, polys, m, x);
        let (before, after) = (combined(alpha, polys, m), combined(alpha, polys, n));
        let p = polys[m as int];
        assert(all_wf(p));
        lemma_combined_wf(alpha, polys, m);
        lemma_power_wf(alpha, m);
        let len = after.len();
        lemma_filled(before, len, x);
        lemma_filled(p, len, x);
        assert forall|i: int| 0 <= i < len implies #[trigger] after[i] == filled(before, len)[i]
            + power(alpha, m) * filled(p, len)[i] by {
            if i >= before.len() {
                lemma_combined_beyond(alpha, polys, m, i);
            }
        }
        lemma_eval_linear(filled(before, len), filled(p, len), power(alpha, m), after, x);
        let vs = Seq::new(m, |j: int| eval_poly(polys[j], x));
        assert forall|j: int| 0 <= j < m implies (#[trigger] vs[j]).wf() by {
            lemma_eval_wf(polys[j], 0, 1, polys[j].len(), x);
        }
        lemma_eval_wf(p, 0, 1, p.len(), x);
        lemma_eval_push(vs, eval_poly(p, x), alpha);
        assert(vs.push(eval_poly(p, x)) =~= Seq::new(n, |j: int| eval_poly(polys[j], x)));
    }
}

/// Combining composes over lists: the combination of `f` and then `g` is worth the combination of
/// `f`, and `alpha^|f|` times the combination of `g`.
pub proof fn lemma_combination_of_lists(
    alpha: Elt,
    f: Seq<Seq<Elt>>,
    g: Seq<Seq<Elt>>,
    x: Elt,
)
    requires
        alpha.wf(),
        x.wf(),
        all_polys_wf(f),
        all_polys_wf(g),
    ensures
        eval_poly(combined(alpha, f + g, f.len() + g.len()), x) == eval_poly(
            combined(alpha, f, f.len()),
            x,
        ) + power(alpha, f.len()) * eval_poly(combined(alpha, g, g.len()), x),
{
    let all = f + g;
    assert forall|j: int| 0 <= j < all.len() implies all_wf(#[trigger] all[j]) by {
        if j < f.len() {
            assert(all[j] == f[j]);
        } else {
            assert(all[j] == g[j - f.len()]);
        }
    }
    lemma_combination_value(alpha, all, all.len(), x);
    lemma_combination_value(alpha, f, f.len(), x);
    lemma_combination_value(alpha, g, g.len(), x);
    let a = Seq::new(f.len(), |j: int| eval_poly(f[j], x));
    let b = Seq::new(g.len(), |j: int| eval_poly(g[j], x));
    assert forall|j: int| 0 <= j < a.len() implies (#[trigger] a[j]).wf() by {
        lemma_eval_wf(f[j], 0, 1, f[j].len(), x);
    }
    assert forall|j: int| 0 <= j < b.len() implies (#[trigger] b[j]).wf() by {
        lemma_eval_wf(g[j], 0, 1, g[j].len(), x);
    }
    assert(Seq::new(all.len(), |j: int| eval_poly(all[j], x)) =~= a + b);
    lemma_eval_concat(a, b, alpha);
}

/// A combination is as long as its longest polynomial.
pub proof fn lemma_combination_length(alpha: Elt, polys: Seq<Seq<Elt>>, n: nat)
    requires
        n <= polys.len(),
    ensures
        forall|j: int|
            0 <= j < n ==> (#[trigger] polys[j]).len() <= combined(alpha, polys, n).len(),
        n > 0 ==> exists|j: int|
            0 <= j < n && (#[trigger] polys[j]).len() == combined(alpha, polys, n).len(),
        n == 0 ==> combined(alpha, polys, n).len() == 0,
    decreases n,
{
    if n > 0 {
        let m = (n - 1) as nat;
        lemma_combination_length(alpha, polys, m);
        let len = combined(alpha, polys, n).len();
        assert(polys[m as int].len() <= len);
        if m > 0 && polys[m as int].len() < len {
            let j = choose|j: int|
                0 <= j < m && (#[trigger] polys[j]).len() == combined(alpha, polys, m).len();
            assert(polys[j].len() == len);
        } else {
            assert(polys[m as int].len() == len);
        }
    }
}

/// Folding a quotient into a running polynomial: at every point `x`, what is added to `shift` times
/// the running polynomial is, times `x - z`, the difference of the values of `p` at `x` and at `z`.
pub proof fn lemma_with_quotient_value(acc: Seq<Elt>, p: Seq<Elt>, z: Elt, shift: Elt, x: Elt)
    requires
        all_wf(acc),
        all_wf(p),
        z.wf(),
        shift.wf(),
        x.wf(),
    ensures
        all_wf(with_quotient(acc, p, z, shift)),
        (eval_poly(with_quotient(acc, p, z, shift), x) - shift * eval_poly(acc, x)) * (x - z)
            == eval_poly(p, x) - eval_poly(p, z),
{
    broadcast use group_elt_wf;

    let sum = with_quotient(acc, p, z, shift);
    let len = sum.len();
    let q = linear_quotient(p, z);
    assert forall|i: int| 0 <= i < q.len() implies (#[trigger] q[i]).wf() by {
        lemma_eval_wf(p, i + 1, 1, (p.len() - i - 1) as nat, z);
    }
    lemma_filled(acc, len, x);
    lemma_filled(q, len, x);
    assert forall|i: int| 0 <= i < len implies #[trigger] sum[i] == filled(q, len)[i] + shift
        * filled(acc, len)[i] by {
        lemma_mul_comm(coeff_or_zero(acc, i), shift);
        lemma_add_comm(shift * coeff_or_zero(acc, i), quotient_coeff(p, z, i));
        assert(filled(q, len)[i] == quotient_coeff(p, z, i));
    }
    lemma_eval_linear(filled(q, len), filled(acc, len), shift, sum, x);
    let (vq, va) = (eval_poly(q, x), shift * eval_poly(acc, x));
    lemma_eval_wf(q, 0, 1, q.len(), x);
    lemma_add_sub_cancel(vq, va);
    lemma_quotient_times_divisor(p, z, x);
}

/// One batch of openings, at every point `x`: what it adds to `alpha^count` times the polynomial of
/// the batches before it is, times `x - z`, the sum of `alpha^j` times the difference of the values
/// of its polynomial `j` at `x` and at its point `z`.
pub proof fn lemma_opened_batch(
    alpha: Elt,
    batches: Seq<FriBatchInfo>,
    oracles: Seq<&Oracle>,
    n: nat,
    x: Elt,
)
    requires
        alpha.wf(),
        x.wf(),
        n < batches.len(),
    ensures
        ({
            let count = batches[n as int].polynomials@.len();
            let z = batches[n as int].point.v();
            let poly = |j: int|
                {
                    let info = batches[n as int].polynomials@[j];
                    vals(
                        oracles[info.oracle_index as int].polynomials@[
                        info.polynomial_index as int].coeffs@,
                    )
                };
            (eval_poly(opened(alpha, batches, oracles, n + 1), x) - power(alpha, count) * eval_poly(
                opened(alpha, batches, oracles, n),
                x,
            )) * (x - z) == eval_poly(Seq::new(count, |j: int| eval_poly(poly(j), x)), alpha)
                - eval_poly(Seq::new(count, |j: int| eval_poly(poly(j), z)), alpha)
        }),
        opened(alpha, batches, oracles, 0).len() == 0,
{
    let batch = batches[n as int];
    let polys = batch_polys(batch, oracles);
    let z = batch.point.v();
    let count = polys.len();
    QuadraticExtension::lemma_values(batch.point);
    assert forall|j: int| 0 <= j < polys.len() implies all_wf(#[trigger] polys[j]) by {
        let info = batch.polynomials@[j];
        lemma_vals_wf(
            oracles[info.oracle_index as int].polynomials@[
            info.polynomial_index as int].coeffs@,
        );
    }
    let f = combined(alpha, polys, count);
    let acc = opened(alpha, batches, oracles, n);
    lemma_opened_wf(alpha, batches, oracles, n);
    lemma_combined_wf(alpha, polys, count);
    lemma_power_wf(alpha, count);
    lemma_with_quotient_value(acc, f, z, power(alpha, count), x);
    lemma_combination_value(alpha, polys, count, x);
    lemma_combination_value(alpha, polys, count, z);
    let poly = |j: int|
        {
            let info = batches[n as int].polynomials@[j];
            vals(
                oracles[info.oracle_index as int].polynomials@[
                info.polynomial_index as int].coeffs@,
            )
        };
    assert(Seq::new(count, |j: int| eval_poly(poly(j), x)) =~= Seq::new(
        count,
        |j: int| eval_poly(polys[j], x),
    ));
    assert(Seq::new(count, |j: int| eval_poly(poly(j), z)) =~= Seq::new(
        count,
        |j: int| eval_poly(polys[j], z),
    ));
}

/// The coefficients of the polynomial that openings are reduced to are reduced.
pub proof fn lemma_opened_wf(
    alpha: Elt,
    batches: Seq<FriBatchInfo>,
    oracles: Seq<&Oracle>,
    n: nat,
)
    ensures
        all_wf(opened(alpha, batches, oracles, n)),
{
    broadcast use group_elt_wf;

    if n > 0 {
        let s = opened(alpha, batches, oracles, n);
        assert forall|i: int| 0 <= i < s.len() implies (#[trigger] s[i]).wf() by {}
    }
}

/// The polynomial that is proved to be of low degree is worth the same, at every point, as the one
/// that it is extended from, and it is `2^rate_bits` times as long.
pub proof fn lemma_extended_value(c: Seq<Elt>, rate_bits: nat, x: Elt)
    requires
        all_wf(c),
        x.wf(),
    ensures
        extended_poly(c, rate_bits).len() == c.len() * pow2(rate_bits),
        eval_poly(extended_poly(c, rate_bits), x) == eval_poly(c, x),
        forall|k: int|
            c.len() <= k < c.len() * pow2(rate_bits) ==> #[trigger] extended_poly(c, rate_bits)[k]
                == elt0(),
{
    lemma_pow2_pos(rate_bits);
    assert(c.len() * pow2(rate_bits) >= c.len()) by (nonlinear_arith)
        requires
            pow2(rate_bits) >= 1,
    ;
    lemma_eval_zero_tail(c, extended_poly(c, rate_bits), x);
}

/// An extended polynomial is of low degree, as a proof for the rate needs it.
pub proof fn lemma_extended_is_of_low_degree(c: Seq<Elt>, lg_d: nat, rate_bits: nat)
    requires
        all_wf(c),
        c.len() == pow2(lg_d),
    ensures
        of_low_degree(extended_poly(c, rate_bits), lg_d + rate_bits, rate_bits),
{
    lemma_extended_value(c, rate_bits, elt0());
    vstd::arithmetic::power2::lemma_pow2_adds(lg_d, rate_bits);
    assert((lg_d + rate_bits - rate_bits) as nat == lg_d);
    let s = extended_poly(c, rate_bits);
    assert forall|i: int| 0 <= i < s.len() implies (#[trigger] s[i]).wf() by {
        if i < c.len() {
            assert(c[i].wf());
        }
    }
}

} // verus!
