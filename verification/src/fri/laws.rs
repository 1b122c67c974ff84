//! What commitments and folding mean for the polynomials.

use crate::field::dft::{all_wf, eval_poly, eval_strided, lemma_eval_wf, lemma_eval_zero};
use crate::field::fft::FftRootTable;
use crate::field::goldilocks_field::GoldilocksField;
use crate::field::inversion::lemma_add_shuffle;
use crate::field::model::{
    Elt, elt0, group_elt_wf, lemma_add_assoc, lemma_add_zero, lemma_mul_assoc, lemma_mul_comm,
    lemma_mul_dist, lemma_mul_one_zero,
};
use crate::field::roots::{lemma_power_wf, power, root};
use crate::field::types::{Field, vals};
use crate::fri::commit_phase::{fold_poly, round_beta, round_coeffs, sizes_ok};
use crate::fri::committed_trees::lemma_round_sizes;
use crate::fri::lde::{coset_shift_elt, lde_done, lde_of, proper_table};
use crate::fri::oracle::PolynomialBatch;
use crate::fri::prover::lemma_round_lens;
use crate::fri::structure::{FriParams, bits_sum};
use crate::hash::merkle_tree::MerkleLeaves;
use crate::iop::challenger::Transcript;
use crate::plonk::config::{GenericConfig, equal_columns};
use crate::util::bits::log2;
use vstd::arithmetic::power2::{lemma_pow2_adds, lemma_pow2_pos, pow2};
use vstd::prelude::*;

verus! {

/// The committed values of a polynomial are its values at the points of the coset.
pub proof fn lemma_committed_values<C: GenericConfig<D>, const D: usize>(
    batch: PolynomialBatch<C, D>,
    coeffs: Seq<Seq<GoldilocksField>>,
    rate_bits: usize,
    blinding: bool,
    salt: Seq<Vec<GoldilocksField>>,
    cap_height: usize,
    root_table: Option<&FftRootTable<GoldilocksField>>,
    index: int,
    j: int,
)
    requires
        batch.commits_to(coeffs, rate_bits, blinding, salt, cap_height, root_table),
        equal_columns(coeffs),
        proper_table(root_table, log2(coeffs[0].len()) + rate_bits as nat),
        0 <= index < batch.domain_size(),
        0 <= j < coeffs.len(),
    ensures
        batch.lde_value(index, j).v() == eval_poly(
            vals(coeffs[j]),
            coset_shift_elt() * power(
                root((log2(coeffs[0].len()) + rate_bits) as nat),
                index as nat,
            ),
        ),
{
    batch.lemma_column_value(index, j);
    vstd::arithmetic::div_mod::lemma_small_mod(index as nat, batch.domain_size());
    let lg_n = log2(coeffs[0].len()) + rate_bits as nat;
    match batch.merkle_tree.leaves {
        MerkleLeaves::Columns { columns, log_rows } => {
            assert(coeffs[j].len() == coeffs[0].len());
            let column = columns.column(j);
            assert(lde_done(coeffs[j], column, rate_bits, root_table));
            assert(vals(column)[index] == lde_of(vals(coeffs[j]), rate_bits as nat)[index]);
        },
        _ => {},
    }
}

/// The sum over `i < n` of `b^i` times the value at `y` of the polynomial with the coefficients
/// `c[i], c[i + r], ..` (`len` of them).
pub open spec fn parts_sum(c: Seq<Elt>, r: int, len: nat, b: Elt, y: Elt, n: nat) -> Elt
    decreases n,
{
    if n == 0 {
        elt0()
    } else {
        parts_sum(c, r, len, b, y, (n - 1) as nat) + power(b, (n - 1) as nat) * eval_strided(
            c,
            n - 1,
            r,
            len,
            y,
        )
    }
}

/// `sum_{i<n} b^i * c[a + i]`, summed up from the left.
spec fn row_sum(c: Seq<Elt>, a: int, b: Elt, n: nat) -> Elt
    decreases n,
{
    if n == 0 {
        elt0()
    } else {
        row_sum(c, a, b, (n - 1) as nat) + power(b, (n - 1) as nat) * c[a + n - 1]
    }
}

proof fn lemma_row_sum(c: Seq<Elt>, a: int, b: Elt, n: nat)
    requires
        all_wf(c),
        b.wf(),
        0 <= a,
        a + n <= c.len(),
    ensures
        row_sum(c, a, b, n) == eval_poly(c.subrange(a, a + n), b),
{
    let s = c.subrange(a, a + n);
    lemma_row_sum_from(c, a, b, n, n);
    assert(eval_strided(s, n as int, 1, 0, b) == elt0());
    lemma_power_wf(b, n);
    lemma_mul_one_zero(power(b, n));
    lemma_row_sum_wf(c, a, b, n);
    lemma_add_zero(row_sum(c, a, b, n));
}

proof fn lemma_row_sum_wf(c: Seq<Elt>, a: int, b: Elt, n: nat)
    ensures
        row_sum(c, a, b, n).wf(),
{
    broadcast use group_elt_wf;

}

proof fn lemma_row_sum_from(c: Seq<Elt>, a: int, b: Elt, n: nat, k: nat)
    requires
        all_wf(c),
        b.wf(),
        0 <= a,
        a + n <= c.len(),
        k <= n,
    ensures
        eval_poly(c.subrange(a, a + n), b) == row_sum(c, a, b, k) + power(b, k) * eval_strided(
            c.subrange(a, a + n),
            k as int,
            1,
            (n - k) as nat,
            b,
        ),
    decreases k,
{
    broadcast use group_elt_wf;

    let s = c.subrange(a, a + n);
    if k == 0 {
        lemma_eval_wf(s, 0, 1, n, b);
        lemma_mul_one_zero(eval_poly(s, b));
        lemma_add_zero(eval_poly(s, b));
    } else {
        let m = (k - 1) as nat;
        lemma_row_sum_from(c, a, b, n, m);
        let p = power(b, m);
        let e = eval_strided(s, k as int, 1, (n - k) as nat, b);
        lemma_power_wf(b, m);
        lemma_eval_wf(s, k as int, 1, (n - k) as nat, b);
        lemma_row_sum_wf(c, a, b, m);
        assert(s[m as int] == c[a + m]);
        assert(eval_strided(s, m as int, 1, (n - m) as nat, b) == s[m as int] + b * e);
        // p (s + b e) == p s + (p b) e
        lemma_mul_dist(p, s[m as int], b * e);
        lemma_mul_assoc(p, b, e);
        lemma_add_assoc(row_sum(c, a, b, m), p * s[m as int], (p * b) * e);
    }
}

/// Splitting off the first coefficient of every part.
proof fn lemma_parts_step(c: Seq<Elt>, a: int, r: int, len: nat, b: Elt, y: Elt, n: nat)
    requires
        all_wf(c),
        b.wf(),
        y.wf(),
        0 <= a,
        0 < r,
        len > 0,
        n <= r,
        a + n <= c.len(),
    ensures
        parts_from(c, a, r, len, b, y, n) == row_sum(c, a, b, n) + y * parts_from(
            c,
            a + r,
            r,
            (len - 1) as nat,
            b,
            y,
            n,
        ),
    decreases n,
{
    broadcast use group_elt_wf;

    let m = (len - 1) as nat;
    if n == 0 {
        lemma_mul_one_zero(y);
        lemma_add_zero(elt0());
    } else {
        let k = (n - 1) as nat;
        lemma_parts_step(c, a, r, len, b, y, k);
        let p = power(b, k);
        lemma_power_wf(b, k);
        let rest = parts_from(c, a + r, r, m, b, y, k);
        let e = eval_strided(c, a + r + k, r, m, y);
        lemma_eval_wf(c, a + r + k, r, m, y);
        lemma_parts_wf(c, a + r, r, m, b, y, k);
        lemma_row_sum_wf(c, a, b, k);
        assert(a + k + r == a + r + k);
        assert(eval_strided(c, a + k, r, len, y) == c[a + k] + y * e);
        // (s + y rest) + p (x + y e) == (s + p x) + y (rest + p e)
        let x = c[a + k];
        lemma_mul_dist(p, x, y * e);
        lemma_mul_assoc(p, y, e);
        lemma_mul_comm(p, y);
        lemma_mul_assoc(y, p, e);
        lemma_mul_dist(y, rest, p * e);
        lemma_add_shuffle(row_sum(c, a, b, k), y * rest, p * x, y * (p * e));
        assert(a + n - 1 == a + k);
        assert(a + r + n - 1 == a + r + k);
    }
}

/// Like [`parts_sum`], with the parts starting at `a`.
spec fn parts_from(c: Seq<Elt>, a: int, r: int, len: nat, b: Elt, y: Elt, n: nat) -> Elt
    decreases n,
{
    if n == 0 {
        elt0()
    } else {
        parts_from(c, a, r, len, b, y, (n - 1) as nat) + power(b, (n - 1) as nat) * eval_strided(
            c,
            a + n - 1,
            r,
            len,
            y,
        )
    }
}

proof fn lemma_parts_wf(c: Seq<Elt>, a: int, r: int, len: nat, b: Elt, y: Elt, n: nat)
    ensures
        parts_from(c, a, r, len, b, y, n).wf(),
{
    broadcast use group_elt_wf;

}

proof fn lemma_parts_start(c: Seq<Elt>, r: int, len: nat, b: Elt, y: Elt, n: nat)
    ensures
        parts_from(c, 0, r, len, b, y, n) == parts_sum(c, r, len, b, y, n),
    decreases n,
{
    if n > 0 {
        lemma_parts_start(c, r, len, b, y, (n - 1) as nat);
    }
}

proof fn lemma_parts_empty(c: Seq<Elt>, a: int, r: int, b: Elt, y: Elt, n: nat)
    requires
        b.wf(),
    ensures
        parts_from(c, a, r, 0, b, y, n) == elt0(),
    decreases n,
{
    if n > 0 {
        lemma_parts_empty(c, a, r, b, y, (n - 1) as nat);
        lemma_power_wf(b, (n - 1) as nat);
        lemma_mul_one_zero(power(b, (n - 1) as nat));
        lemma_add_zero(elt0());
    }
}

proof fn lemma_fold_from(c: Seq<Elt>, r: nat, len: nat, b: Elt, y: Elt, i: nat)
    requires
        all_wf(c),
        b.wf(),
        y.wf(),
        0 < r,
        c.len() == len * r,
        c.len() / r == len,
        i <= len,
    ensures
        eval_strided(fold_poly(c, b, r), i as int, 1, (len - i) as nat, y) == parts_from(
            c,
            (i * r) as int,
            r as int,
            (len - i) as nat,
            b,
            y,
            r,
        ),
    decreases len - i,
{
    let f = fold_poly(c, b, r);
    if i == len {
        lemma_parts_empty(c, (i * r) as int, r as int, b, y, r);
    } else {
        lemma_fold_from(c, r, len, b, y, i + 1);
        assert((i + 1) * r == i * r + r) by (nonlinear_arith);
        assert(0 <= i * r && (i + 1) * r <= len * r) by (nonlinear_arith)
            requires
                0 <= i,
                i + 1 <= len,
        ;
        lemma_parts_step(c, (i * r) as int, r as int, (len - i) as nat, b, y, r);
        lemma_row_sum(c, (i * r) as int, b, r);
        assert(f[i as int] == eval_poly(
            c.subrange((i * r) as int, (i * r + r) as int),
            b,
        ));
    }
}

/// Folding takes `sum_{i<r} X^i * P_i(X^r)` to `sum_{i<r} beta^i * P_i(X)`.
pub proof fn lemma_fold_is_combination(c: Seq<Elt>, r: nat, len: nat, beta: Elt, y: Elt)
    requires
        all_wf(c),
        beta.wf(),
        y.wf(),
        0 < r,
        c.len() == len * r,
    ensures
        eval_poly(fold_poly(c, beta, r), y) == parts_sum(c, r as int, len, beta, y, r),
{
    vstd::arithmetic::div_mod::lemma_fundamental_div_mod_converse(
        c.len() as int,
        r as int,
        len as int,
        0,
    );
    lemma_fold_from(c, r, len, beta, y, 0);
    lemma_parts_start(c, r as int, len, beta, y, r);
    assert(0 * r == 0);
}

proof fn lemma_split_from(c: Seq<Elt>, r: nat, len: nat, x: Elt, i: nat)
    requires
        all_wf(c),
        x.wf(),
        0 < r,
        c.len() == len * r,
        i <= len,
    ensures
        eval_strided(c, (i * r) as int, 1, (c.len() - i * r) as nat, x) == parts_from(
            c,
            (i * r) as int,
            r as int,
            (len - i) as nat,
            x,
            power(x, r),
            r,
        ),
        i * r <= c.len(),
    decreases len - i,
{
    let y = power(x, r);
    lemma_power_wf(x, r);
    assert(i * r <= len * r) by (nonlinear_arith)
        requires
            i <= len,
    ;
    if i == len {
        lemma_parts_empty(c, (i * r) as int, r as int, x, y, r);
    } else {
        lemma_split_from(c, r, len, x, i + 1);
        assert((i + 1) * r == i * r + r) by (nonlinear_arith);
        let a = (i * r) as int;
        lemma_parts_step(c, a, r as int, (len - i) as nat, x, y, r);
        lemma_tail_split(c, a, x, r);
    }
}

/// A polynomial is its first `n` terms and `x^n` times the rest.
proof fn lemma_tail_split(c: Seq<Elt>, a: int, x: Elt, n: nat)
    requires
        all_wf(c),
        x.wf(),
        0 <= a,
        a + n <= c.len(),
    ensures
        eval_strided(c, a, 1, (c.len() - a) as nat, x) == row_sum(c, a, x, n) + power(x, n)
            * eval_strided(c, a + n, 1, (c.len() - a - n) as nat, x),
    decreases n,
{
    broadcast use group_elt_wf;

    if n == 0 {
        let e = eval_strided(c, a, 1, (c.len() - a) as nat, x);
        lemma_eval_wf(c, a, 1, (c.len() - a) as nat, x);
        lemma_mul_one_zero(e);
        lemma_add_zero(e);
    } else {
        let m = (n - 1) as nat;
        lemma_tail_split(c, a, x, m);
        let p = power(x, m);
        let e = eval_strided(c, a + n, 1, (c.len() - a - n) as nat, x);
        lemma_power_wf(x, m);
        lemma_eval_wf(c, a + n, 1, (c.len() - a - n) as nat, x);
        lemma_row_sum_wf(c, a, x, m);
        let s = c[a + m];
        assert(eval_strided(c, a + m, 1, (c.len() - a - m) as nat, x) == s + x * e);
        lemma_mul_dist(p, s, x * e);
        lemma_mul_assoc(p, x, e);
        lemma_add_assoc(row_sum(c, a, x, m), p * s, (p * x) * e);
    }
}

/// Every polynomial is `sum_{i<r} X^i * P_i(X^r)`, where `P_i` has every `r`-th coefficient, from
/// the `i`-th on.
pub proof fn lemma_poly_is_sum_of_parts(c: Seq<Elt>, r: nat, len: nat, x: Elt)
    requires
        all_wf(c),
        x.wf(),
        0 < r,
        c.len() == len * r,
    ensures
        eval_poly(c, x) == parts_sum(c, r as int, len, x, power(x, r), r),
{
    lemma_split_from(c, r, len, x, 0);
    lemma_parts_start(c, r as int, len, x, power(x, r), r);
    assert(0 * r == 0);
}

/// Folding keeps a tail of zeros: what is left after the first `live` folded coefficients comes
/// from zeros.
pub proof fn lemma_fold_keeps_zero_tail(c: Seq<Elt>, r: nat, beta: Elt, live: nat, i: int)
    requires
        beta.wf(),
        0 < r,
        forall|k: int| live * r <= k < c.len() ==> #[trigger] c[k] == elt0(),
        live <= i < c.len() / r,
    ensures
        fold_poly(c, beta, r)[i] == elt0(),
{
    let n = (c.len() / r) as int;
    vstd::arithmetic::div_mod::lemma_fundamental_div_mod(c.len() as int, r as int);
    assert(live * r <= i * r && i * r + r <= c.len()) by (nonlinear_arith)
        requires
            live <= i,
            i + 1 <= n,
            r * n + c.len() as int % r as int == c.len(),
            0 <= c.len() as int % r as int,
            0 < r,
    ;
    let s = c.subrange(i * r, i * r + r);
    assert forall|j: int| 0 <= j < r implies #[trigger] s[0 + j * 1] == elt0() by {
        assert(s[j] == c[i * r + j]);
    }
    lemma_eval_zero(s, 0, 1, r, beta);
}

/// The coefficients that the commit phase drops are zero: if all but the first part of a
/// polynomial, as the rate says, is zero, then the same holds at the start of every round.
pub proof fn lemma_dropped_coefficients_are_zero(
    c: Seq<Elt>,
    t: Transcript,
    caps: Seq<Seq<Elt>>,
    params: FriParams,
    lg_n: nat,
    i: nat,
    k: int,
)
    requires
        sizes_ok(params, lg_n),
        c.len() == pow2(lg_n),
        forall|j: int|
            pow2((lg_n - params.config.rate_bits) as nat) <= j < c.len() ==> #[trigger] c[j]
                == elt0(),
        i <= params.reduction_arity_bits@.len(),
        ({
            let coeffs = round_coeffs(c, t, caps, params.reduction_arity_bits@, i);
            coeffs.len() as int / pow2(params.config.rate_bits as nat) as int <= k < coeffs.len()
        }),
    ensures
        round_coeffs(c, t, caps, params.reduction_arity_bits@, i)[k] == elt0(),
    decreases i,
{
    let bits = params.reduction_arity_bits@;
    let rate = params.config.rate_bits as nat;
    lemma_round_lens(c, c, t, caps, params, lg_n, i);
    let left = (lg_n - bits_sum(bits, i)) as nat;
    if i > 0 {
        assert(rate + bits_sum(bits, i) <= lg_n);
    }
    lemma_round_sizes(left, rate);
    if i > 0 {
        let j = (i - 1) as nat;
        let b = bits[j as int] as nat;
        let before = round_coeffs(c, t, caps, bits, j);
        let beta = round_beta(t, caps, j);
        let live = pow2((left - rate) as nat);
        lemma_round_lens(c, c, t, caps, params, lg_n, j);
        lemma_round_sizes((left + b) as nat, rate);
        lemma_round_sizes((left + b) as nat, b);
        lemma_pow2_adds((left - rate) as nat, b);
        assert(beta.wf()) by {
            reveal(Transcript::extension_challenge);
        }
        assert forall|x: int| live * pow2(b) <= x < before.len() implies #[trigger] before[x]
            == elt0() by {
            lemma_dropped_coefficients_are_zero(c, t, caps, params, lg_n, j, x);
        }
        lemma_pow2_pos(b);
        lemma_fold_keeps_zero_tail(before, pow2(b), beta, live, k);
    }
}

} // verus!
