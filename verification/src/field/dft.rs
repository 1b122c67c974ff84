//! What the transforms compute: polynomials evaluated at powers of a root of unity.

use crate::field::fft::{
    fft_expand, fft_layers, fft_words, lemma_block_fits, lemma_layers_len, mirrored, table_shape,
};
use crate::field::model::{
    Elt, elt0, elt1, group_elt_wf, lemma_add_assoc, lemma_add_comm, lemma_add_zero, lemma_mul_assoc,
    lemma_mul_comm, lemma_mul_dist, lemma_mul_one_zero, lemma_reduced_mul, lemma_reduced_self,
    lemma_reduced_sub, lemma_sub_is_add_neg, neg, reduced,
};
use crate::field::roots::{
    ext_root_generator, inv_pow2, lemma_power_add, lemma_power_of_product, lemma_power_wf,
    lemma_root_step, lemma_root_values, lemma_square_iter, lemma_square_iter_add, power, root,
};
use crate::field::types::{Field, vals};
use crate::util::bits::{
    lemma_pow2_basics, lemma_pow2_double, lemma_pow2_mono, lemma_rev_bound, lemma_rev_double, rev,
};
use vstd::arithmetic::div_mod::{lemma_fundamental_div_mod, lemma_fundamental_div_mod_converse};
use vstd::arithmetic::power2::{lemma_pow2_adds, lemma_pow2_pos, pow2};
use vstd::prelude::*;

verus! {

/// The polynomial with the coefficients `c[a], c[a + d], ..` (`len` of them) at the point `x`.
pub open spec fn eval_strided(c: Seq<Elt>, a: int, d: int, len: nat, x: Elt) -> Elt
    decreases len,
{
    if len == 0 {
        elt0()
    } else {
        c[a] + x * eval_strided(c, a + d, d, (len - 1) as nat, x)
    }
}

/// The polynomial with the coefficients `c`, lowest degree first, at the point `x`.
pub open spec fn eval_poly(c: Seq<Elt>, x: Elt) -> Elt {
    eval_strided(c, 0, 1, c.len(), x)
}

/// The values of a polynomial on the subgroup of order `2^lg_n`.
pub open spec fn dft(c: Seq<Elt>, lg_n: nat) -> Seq<Elt> {
    Seq::new(pow2(lg_n), |i: int| eval_poly(c, power(root(lg_n), i as nat)))
}

/// The coefficients of the polynomial with the given values on the subgroup of order `2^lg_n`:
/// the transform at the inverse points, divided by their number.
pub open spec fn idft(y: Seq<Elt>, lg_n: nat) -> Seq<Elt> {
    Seq::new(
        pow2(lg_n),
        |i: int|
            eval_poly(
                y,
                power(root(lg_n), mirrored(i, pow2(lg_n) as int) as nat),
            ) * inv_pow2(lg_n),
    )
}

/// The first `m` entries, and zeros in place of the others.
pub open spec fn padded(c: Seq<Elt>, m: int) -> Seq<Elt> {
    Seq::new(
        c.len(),
        |i: int|
            if i < m {
                c[i]
            } else {
                elt0()
            },
    )
}

/// All entries are reduced.
pub open spec fn all_wf(c: Seq<Elt>) -> bool {
    forall|i: int| 0 <= i < c.len() ==> (#[trigger] c[i]).wf()
}

/// A table holds the powers of the roots of unity.
pub open spec fn table_ok<F: Field>(table: Seq<Vec<F>>, lg_n: nat) -> bool {
    &&& table_shape(table, lg_n)
    &&& forall|s: int, k: int|
        0 <= s < lg_n && 0 <= k < pow2(s as nat) ==> (#[trigger] table[s]@[k]).v() == power(
            root((s + 1) as nat),
            k as nat,
        )
}

/// Values of polynomials are reduced.
pub proof fn lemma_eval_wf(c: Seq<Elt>, a: int, d: int, len: nat, x: Elt)
    ensures
        eval_strided(c, a, d, len, x).wf(),
{
    broadcast use group_elt_wf;

}

proof fn lemma_strided_bounds(a: int, d: int, len: int, n: int)
    requires
        0 <= a,
        0 < d,
        len >= 1,
        a + (len - 1) * d < n,
    ensures
        a < n,
        len >= 2 ==> a + d + (len - 2) * d < n,
{
    assert((len - 1) * d >= 0) by (nonlinear_arith)
        requires
            len >= 1,
            d > 0,
    ;
    assert((len - 1) * d == (len - 2) * d + d) by (nonlinear_arith);
}

/// A polynomial splits into its even and its odd part.
pub proof fn lemma_eval_split(c: Seq<Elt>, a: int, d: int, len: nat, x: Elt)
    requires
        all_wf(c),
        x.wf(),
        0 <= a,
        0 < d,
        len > 0 ==> a + (2 * len - 1) * d < c.len(),
    ensures
        eval_strided(c, a, d, 2 * len, x) == eval_strided(c, a, 2 * d, len, x * x) + x
            * eval_strided(c, a + d, 2 * d, len, x * x),
    decreases len,
{
    broadcast use group_elt_wf;

    if len == 0 {
        lemma_mul_one_zero(x);
        lemma_add_zero(elt0());
    } else {
        let m = (len - 1) as nat;
        lemma_strided_bounds(a, d, 2 * len as int, c.len() as int);
        lemma_strided_bounds(a + d, d, 2 * len as int - 1, c.len() as int);
        lemma_eval_split(c, a + 2 * d, d, m, x);
        let y = x * x;
        let rest = eval_strided(c, a + 2 * d, d, 2 * m, x);
        let even = eval_strided(c, a + 2 * d, 2 * d, m, y);
        let odd = eval_strided(c, a + d + 2 * d, 2 * d, m, y);
        lemma_eval_wf(c, a + 2 * d, d, 2 * m, x);
        lemma_eval_wf(c, a + 2 * d, 2 * d, m, y);
        lemma_eval_wf(c, a + d + 2 * d, 2 * d, m, y);
        assert(a + 2 * d + d == a + d + 2 * d);
        assert(a + d + d == a + 2 * d);
        assert(eval_strided(c, a + d, d, (2 * len - 1) as nat, x) == c[a + d] + x * rest) by {
            assert((2 * len - 1 - 1) as nat == 2 * m);
        }
        assert(eval_strided(c, a, d, 2 * len, x) == c[a] + x * (c[a + d] + x * rest)) by {
            assert((2 * len - 1) as nat == (2 * len - 1) as nat);
        }
        assert(eval_strided(c, a, 2 * d, len, y) == c[a] + y * even);
        assert(eval_strided(c, a + d, 2 * d, len, y) == c[a + d] + y * odd);
        lemma_split_step(c[a], c[a + d], even, odd, x);
    }
}

proof fn lemma_split_step(c0: Elt, c1: Elt, even: Elt, odd: Elt, x: Elt)
    requires
        c0.wf(),
        c1.wf(),
        even.wf(),
        odd.wf(),
        x.wf(),
    ensures
        c0 + x * (c1 + x * (even + x * odd)) == (c0 + (x * x) * even) + x * (c1 + (x * x) * odd),
{
    broadcast use group_elt_wf;

    let y = x * x;
    let xo = x * odd;
    lemma_mul_dist(x, even, xo);
    lemma_mul_dist(x, c1, x * even + x * xo);
    lemma_mul_dist(x, x * even, x * xo);
    lemma_mul_assoc(x, x, even);
    lemma_mul_assoc(x, x, xo);
    lemma_mul_dist(x, c1, y * odd);
    lemma_mul_assoc(x, y, odd);
    lemma_mul_assoc(y, x, odd);
    lemma_mul_comm(x, y);
    let (p, q, r) = (x * c1, y * even, y * xo);
    assert(x * (y * odd) == r);
    // c0 + (p + (q + r)) == (c0 + q) + (p + r)
    lemma_add_assoc(p, q, r);
    lemma_add_comm(p, q);
    lemma_add_assoc(q, p, r);
    lemma_add_assoc(c0, q, p + r);
}

/// A polynomial whose coefficients vanish is zero.
pub proof fn lemma_eval_zero(c: Seq<Elt>, a: int, d: int, len: nat, x: Elt)
    requires
        x.wf(),
        forall|j: int| 0 <= j < len ==> #[trigger] c[a + j * d] == elt0(),
    ensures
        eval_strided(c, a, d, len, x) == elt0(),
    decreases len,
{
    if len > 0 {
        assert(c[a + 0 * d] == elt0());
        assert(0 * d == 0);
        assert forall|j: int| 0 <= j < len - 1 implies #[trigger] c[a + d + j * d] == elt0() by {
            assert(c[a + (j + 1) * d] == elt0());
            assert((j + 1) * d == j * d + d) by (nonlinear_arith);
        }
        lemma_eval_zero(c, a + d, d, (len - 1) as nat, x);
        lemma_mul_one_zero(x);
        lemma_add_zero(elt0());
    }
}

/// Half way round the subgroup of order `2^s` lies minus one.
pub proof fn lemma_root_half(s: nat)
    requires
        1 <= s <= 33,
    ensures
        power(root(s), pow2((s - 1) as nat)) == neg(elt1()),
        root(s).wf(),
{
    let g = ext_root_generator();
    lemma_square_iter(g, (33 - s) as nat);
    lemma_square_iter(root(s), (s - 1) as nat);
    lemma_square_iter_add(g, (33 - s) as nat, (s - 1) as nat);
    lemma_root_values();
}

/// The root of unity of order `2^s` has that order.
pub proof fn lemma_root_full(s: nat)
    requires
        s <= 33,
    ensures
        power(root(s), pow2(s)) == elt1(),
        root(s).wf(),
{
    let g = ext_root_generator();
    lemma_square_iter(g, (33 - s) as nat);
    lemma_square_iter(root(s), s);
    lemma_square_iter_add(g, (33 - s) as nat, s);
    lemma_root_values();
}

/// Multiplying by minus one.
pub proof fn lemma_mul_neg_one(y: Elt)
    requires
        y.wf(),
    ensures
        y * neg(elt1()) == neg(y),
        neg(y).wf(),
        neg(y) * neg(y) == y * y,
{
    broadcast use group_elt_wf;

    lemma_mul_dist(y, elt0(), elt1());
    lemma_mul_one_zero(y);
    lemma_reduced_self(y);
    lemma_reduced_sub(0, 0, y.re, y.im);
    assert(elt0() == reduced(0, 0));
    lemma_reduced_mul(-y.re, -y.im, -y.re, -y.im);
    lemma_reduced_mul(y.re, y.im, y.re, y.im);
    let (a, b) = (y.re, y.im);
    assert((-a) * (-a) == a * a && (-b) * (-b) == b * b && (-a) * (-b) == a * b && (-b) * (-a) == b
        * a) by (nonlinear_arith);
}

/// Multiplying by a negation.
pub proof fn lemma_neg_mul(y: Elt, z: Elt)
    requires
        y.wf(),
        z.wf(),
    ensures
        neg(y) * z == neg(y * z),
        neg(y).wf(),
{
    broadcast use group_elt_wf;

    lemma_mul_dist(z, elt0(), y);
    lemma_mul_one_zero(z);
}

/// What entry `i` holds after the layers below `s`: the values of the subsequence of its block.
pub open spec fn stage(c: Seq<Elt>, lg_n: nat, s: nat, i: int) -> Elt {
    eval_strided(
        c,
        rev((i / pow2(s) as int) as nat, (lg_n - s) as nat) as int,
        pow2((lg_n - s) as nat) as int,
        pow2(s),
        power(root(s), (i % pow2(s) as int) as nat),
    )
}

/// Before the first layer, each entry holds a coefficient.
pub proof fn lemma_stage_start(c: Seq<Elt>, lg_n: nat, r: nat, i: int)
    requires
        r <= lg_n <= 33,
        c.len() == pow2(lg_n),
        all_wf(c),
        0 <= i < pow2(lg_n),
        forall|j: int| pow2((lg_n - r) as nat) <= j < c.len() ==> c[j] == elt0(),
    ensures
        stage(c, lg_n, r, i) == c[rev((i / pow2(r) as int) as nat, (lg_n - r) as nat) as int],
{
    let d = pow2((lg_n - r) as nat) as int;
    let b = (i / pow2(r) as int) as nat;
    let a = rev(b, (lg_n - r) as nat) as int;
    let x = power(root(r), (i % pow2(r) as int) as nat);
    lemma_pow2_pos(r);
    lemma_pow2_pos((lg_n - r) as nat);
    lemma_root_full(r);
    lemma_power_wf(root(r), (i % pow2(r) as int) as nat);
    lemma_rev_bound(b, (lg_n - r) as nat);
    lemma_pow2_adds((lg_n - r) as nat, r);
    let len = (pow2(r) - 1) as nat;
    assert forall|j: int| 0 <= j < len implies #[trigger] c[a + d + j * d] == elt0() by {
        assert(j * d >= 0 && (j + 2) * d <= d * pow2(r)) by (nonlinear_arith)
            requires
                0 <= j,
                j + 2 <= pow2(r),
                d > 0,
        ;
        assert((j + 2) * d == j * d + 2 * d) by (nonlinear_arith);
    }
    lemma_eval_zero(c, a + d, d, len, x);
    lemma_mul_one_zero(x);
    assert(a < c.len()) by {
        lemma_pow2_mono((lg_n - r) as nat, lg_n);
    }
    lemma_add_zero(c[a]);
}

proof fn lemma_stage_step(c: Seq<Elt>, lg_n: nat, t: nat, b: int, k: int)
    requires
        t < lg_n <= 33,
        c.len() == pow2(lg_n),
        all_wf(c),
        0 <= k < pow2(t),
        0 <= b < pow2((lg_n - t - 1) as nat),
    ensures
        ({
            let h = pow2(t) as int;
            let i = b * (2 * h) + k;
            let w = power(root(t + 1), k as nat);
            &&& stage(c, lg_n, t + 1, i) == stage(c, lg_n, t, i) + w * stage(c, lg_n, t, i + h)
            &&& stage(c, lg_n, t + 1, i + h) == stage(c, lg_n, t, i) - w * stage(c, lg_n, t, i + h)
        }),
{
    broadcast use group_elt_wf;

    let h = pow2(t) as int;
    let i = b * (2 * h) + k;
    let s = t + 1;
    let rest = (lg_n - s) as nat;
    let d = pow2(rest) as int;
    let w = power(root(s), k as nat);
    lemma_pow2_double(t);
    lemma_pow2_double(rest);
    assert((lg_n - t) as nat == rest + 1);
    lemma_fundamental_div_mod_converse(i, 2 * h, b, k);
    lemma_fundamental_div_mod_converse(i + h, 2 * h, b, k + h);
    assert(b * (2 * h) == (2 * b) * h && (2 * b + 1) * h == (2 * b) * h + h) by (nonlinear_arith);
    lemma_fundamental_div_mod_converse(i, h, 2 * b, k);
    lemma_fundamental_div_mod_converse(i + h, h, 2 * b + 1, k);
    lemma_rev_double(b as nat, rest);
    let a = rev(b as nat, rest) as int;
    lemma_rev_bound(b as nat, rest);
    lemma_root_step(t);
    lemma_root_half(s);
    lemma_power_wf(root(s), k as nat);
    lemma_power_of_product(root(s), root(s), k as nat);
    assert(power(root(t), k as nat) == w * w);
    lemma_pow2_adds(rest, s);
    assert(a + (2 * h - 1) * d < c.len()) by (nonlinear_arith)
        requires
            a < d,
            c.len() == d * (2 * h),
            d > 0,
    ;
    lemma_eval_split(c, a, d, h as nat, w);
    let even = eval_strided(c, a, 2 * d, h as nat, w * w);
    let odd = eval_strided(c, a + d, 2 * d, h as nat, w * w);
    lemma_eval_wf(c, a, 2 * d, h as nat, w * w);
    lemma_eval_wf(c, a + d, 2 * d, h as nat, w * w);
    assert(stage(c, lg_n, t, i) == even);
    assert(stage(c, lg_n, t, i + h) == odd);
    // The second half is taken at the opposite point.
    lemma_power_add(root(s), k as nat, h as nat);
    lemma_mul_neg_one(w);
    let z = power(root(s), (k + h) as nat);
    assert(z == neg(w));
    lemma_eval_split(c, a, d, h as nat, z);
    lemma_neg_mul(w, odd);
    lemma_sub_is_add_neg(even, w * odd);
}

proof fn lemma_stage_words<F: Field>(
    x: Seq<F>,
    table: Seq<Vec<F>>,
    c: Seq<Elt>,
    r: nat,
    s: nat,
    lg_n: nat,
    i: int,
)
    requires
        r <= s <= lg_n <= 33,
        x.len() == pow2(lg_n),
        table_ok(table, lg_n),
        c == padded(vals(x), pow2((lg_n - r) as nat) as int),
        all_wf(c),
        0 <= i < x.len(),
    ensures
        fft_layers(fft_expand(x, r, lg_n), table, r, s)[i].v() == stage(c, lg_n, s, i),
    decreases s,
{
    let e = fft_expand(x, r, lg_n);
    if s == r {
        lemma_stage_start(c, lg_n, r, i);
        let b = (i / pow2(r) as int) as nat;
        lemma_rev_bound(b, (lg_n - r) as nat);
        lemma_pow2_mono((lg_n - r) as nat, lg_n);
    } else {
        let t = (s - 1) as nat;
        let v = fft_layers(e, table, r, t);
        lemma_layers_len(e, table, r, t);
        let h = pow2(t) as int;
        lemma_pow2_double(t);
        lemma_pow2_adds((lg_n - s) as nat, s);
        lemma_fundamental_div_mod(i, 2 * h);
        let (b, q) = (i / (2 * h), i % (2 * h));
        let blocks = pow2((lg_n - s) as nat) as int;
        assert((2 * h) * blocks == blocks * (2 * h)) by (nonlinear_arith);
        lemma_block_fits(i, pow2((lg_n - s) as nat) as int, 2 * h);
        assert(2 * h * b == b * (2 * h)) by (nonlinear_arith);
        assert(0 <= b < pow2((lg_n - s) as nat)) by (nonlinear_arith)
            requires
                2 * h * b + q == i,
                0 <= i < pow2((lg_n - s) as nat) * (2 * h),
                0 <= q < 2 * h,
                h > 0,
        ;
        let row = table[t as int]@;
        if q < h {
            lemma_stage_words(x, table, c, r, t, lg_n, i);
            lemma_stage_words(x, table, c, r, t, lg_n, i + h);
            lemma_stage_step(c, lg_n, t, b, q);
            F::lemma_ops(row[q], v[i + h]);
            F::lemma_ops(v[i], row[q].s_mul(v[i + h]));
            assert(table[t as int]@[q].v() == power(root((t + 1) as nat), q as nat));
        } else {
            lemma_stage_words(x, table, c, r, t, lg_n, i - h);
            lemma_stage_words(x, table, c, r, t, lg_n, i);
            lemma_stage_step(c, lg_n, t, b, q - h);
            F::lemma_ops(row[q - h], v[i]);
            F::lemma_ops(v[i - h], row[q - h].s_mul(v[i]));
            assert(table[t as int]@[q - h].v() == power(root((t + 1) as nat), (q - h) as nat));
        }
    }
}

/// One layer of butterflies takes each entry from one stage to the next.
pub proof fn lemma_stage_butterfly(c: Seq<Elt>, row: Seq<Elt>, lg_n: nat, t: nat, i: int)
    requires
        t < lg_n <= 33,
        c.len() == pow2(lg_n),
        all_wf(c),
        0 <= i < pow2(lg_n),
        forall|k: int|
            0 <= k < pow2(t) ==> #[trigger] row[k] == power(root((t + 1) as nat), k as nat),
    ensures
        ({
            let h = pow2(t) as int;
            let q = i % (2 * h);
            &&& 0 <= q < 2 * h
            &&& q < h ==> i + h < pow2(lg_n) && stage(c, lg_n, t + 1, i) == stage(c, lg_n, t, i)
                + row[q] * stage(c, lg_n, t, i + h)
            &&& q >= h ==> i - h >= 0 && stage(c, lg_n, t + 1, i) == stage(c, lg_n, t, i - h)
                - row[q - h] * stage(c, lg_n, t, i)
        }),
{
    let s = t + 1;
    let h = pow2(t) as int;
    lemma_pow2_double(t);
    lemma_pow2_adds((lg_n - s) as nat, s);
    lemma_fundamental_div_mod(i, 2 * h);
    let (b, q) = (i / (2 * h), i % (2 * h));
    let blocks = pow2((lg_n - s) as nat) as int;
    assert((2 * h) * blocks == blocks * (2 * h)) by (nonlinear_arith);
    lemma_block_fits(i, blocks, 2 * h);
    assert(2 * h * b == b * (2 * h)) by (nonlinear_arith);
    assert(0 <= b < blocks) by (nonlinear_arith)
        requires
            2 * h * b + q == i,
            0 <= i < blocks * (2 * h),
            0 <= q < 2 * h,
            h > 0,
    ;
    assert(b * (2 * h) + 2 * h <= blocks * (2 * h)) by (nonlinear_arith)
        requires
            b + 1 <= blocks,
            h > 0,
    ;
    if q < h {
        lemma_stage_step(c, lg_n, t, b, q);
    } else {
        lemma_stage_step(c, lg_n, t, b, q - h);
    }
}

/// After the last layer, the entries hold the values of the polynomial.
pub proof fn lemma_stage_end(c: Seq<Elt>, lg_n: nat, i: int)
    requires
        lg_n <= 33,
        c.len() == pow2(lg_n),
        0 <= i < pow2(lg_n),
    ensures
        stage(c, lg_n, lg_n, i) == dft(c, lg_n)[i],
{
    lemma_pow2_basics();
    lemma_pow2_pos(lg_n);
    lemma_fundamental_div_mod_converse(i, pow2(lg_n) as int, 0, i);
}

/// With a proper table, the words of a transform stand for the values of the polynomial
/// that the first `2^(lg_n - r)` words give, at the powers of the root of unity.
pub proof fn lemma_fft_words<F: Field>(x: Seq<F>, table: Seq<Vec<F>>, r: nat, lg_n: nat)
    requires
        r <= lg_n <= 33,
        x.len() == pow2(lg_n),
        table_ok(table, lg_n),
    ensures
        vals(fft_words(x, table, r, lg_n)) == dft(
            padded(vals(x), pow2((lg_n - r) as nat) as int),
            lg_n,
        ),
{
    let c = padded(vals(x), pow2((lg_n - r) as nat) as int);
    assert forall|i: int| 0 <= i < c.len() implies (#[trigger] c[i]).wf() by {
        F::lemma_values(x[i]);
    }
    let out = fft_words(x, table, r, lg_n);
    lemma_layers_len(fft_expand(x, r, lg_n), table, r, lg_n);
    lemma_pow2_basics();
    lemma_pow2_pos(lg_n);
    assert forall|i: int| 0 <= i < x.len() implies #[trigger] vals(out)[i] == dft(c, lg_n)[i] by {
        lemma_stage_words(x, table, c, r, lg_n, lg_n, i);
        lemma_fundamental_div_mod_converse(i, pow2(lg_n) as int, 0, i);
    }
    assert(vals(out) =~= dft(c, lg_n));
}

/// Padding with zeros changes nothing where there are zeros already.
pub proof fn lemma_padded_id(c: Seq<Elt>, m: int)
    requires
        forall|i: int| m <= i < c.len() ==> c[i] == elt0(),
    ensures
        padded(c, m) == c,
{
    assert(padded(c, m) =~= c);
}

} // verus!
