//! The radix-two fast Fourier transform, with a shortcut for zero-padded inputs.

use crate::field::dft::{dft, idft, lemma_fft_words, lemma_padded_id, padded, table_ok};
use crate::field::model::lemma_mul_one_zero;
use crate::field::packable::Single;
use crate::field::packed::{
    Packable, PackedField, interleave_left, interleave_right, lemma_lane_index,
};
use crate::field::polynomial::{PolynomialCoeffs, PolynomialValues};
use crate::field::roots::{inv_pow2, lemma_root_step, power, root};
use crate::field::types::{Field, lemma_s_power, powers, s_power, vals};
use crate::util::bits::{
    is_power_of_two, lemma_log2, lemma_pow2_basics, lemma_pow2_double, lemma_pow2_injective,
    lemma_pow2_mono, log2, log2_strict, rev, reverse_index_bits_in_place, two_pow,
};
use vstd::arithmetic::power2::pow2;
use vstd::prelude::*;

verus! {

/// Twiddle factors: row `s` holds the powers of the root of unity of order `2^(s + 1)`.
pub type FftRootTable<F> = Vec<Vec<F>>;

/// Entry `i` after one layer of butterflies on blocks of `2^(s + 1)` entries.
pub open spec fn butterfly<F: Field>(v: Seq<F>, row: Seq<F>, s: nat, i: int) -> F {
    let h = pow2(s) as int;
    let k = i % (2 * h);
    if k < h {
        v[i].s_add(row[k].s_mul(v[i + h]))
    } else {
        v[i - h].s_sub(row[k - h].s_mul(v[i]))
    }
}

/// One layer of butterflies on blocks of `2^(s + 1)` entries.
pub open spec fn fft_layer<F: Field>(v: Seq<F>, row: Seq<F>, s: nat) -> Seq<F> {
    Seq::new(v.len(), |i: int| butterfly(v, row, s, i))
}

/// The layers from `a` up to and without `b`.
pub open spec fn fft_layers<F: Field>(v: Seq<F>, table: Seq<Vec<F>>, a: nat, b: nat) -> Seq<F>
    decreases b,
{
    if b <= a {
        v
    } else {
        fft_layer(fft_layers(v, table, a, (b - 1) as nat), table[b - 1]@, (b - 1) as nat)
    }
}

/// The first `2^(lg_n - r)` entries in bit-reversed order, each repeated `2^r` times.
pub open spec fn fft_expand<F>(x: Seq<F>, r: nat, lg_n: nat) -> Seq<F> {
    Seq::new(x.len(), |i: int| x[rev((i / pow2(r) as int) as nat, (lg_n - r) as nat) as int])
}

/// The words that a transform leaves in its buffer.
pub open spec fn fft_words<F: Field>(x: Seq<F>, table: Seq<Vec<F>>, r: nat, lg_n: nat) -> Seq<F> {
    fft_layers(fft_expand(x, r, lg_n), table, r, lg_n)
}

/// A table has a row for each layer, and each row a factor for each butterfly of a block.
pub open spec fn table_shape<F>(table: Seq<Vec<F>>, lg_n: nat) -> bool {
    &&& table.len() == lg_n
    &&& forall|s: int| 0 <= s < lg_n ==> pow2(s as nat) <= (#[trigger] table[s])@.len()
}

proof fn lemma_butterfly_low<F: Field>(v: Seq<F>, row: Seq<F>, s: nat, k: int, t: int)
    requires
        0 <= k,
        k % (2 * pow2(s) as int) == 0,
        0 <= t < pow2(s),
    ensures
        butterfly(v, row, s, k + t) == v[k + t].s_add(row[t].s_mul(v[k + pow2(s) + t])),
        butterfly(v, row, s, k + pow2(s) + t) == v[k + t].s_sub(
            row[t].s_mul(v[k + pow2(s) + t]),
        ),
{
    let h = pow2(s) as int;
    let m = 2 * h;
    lemma_offset_mod(k, t, m);
    lemma_offset_mod(k, h + t, m);
    assert(k + t + h == k + h + t);
    assert(k + (h + t) == k + h + t);
}

proof fn lemma_offset_mod(k: int, t: int, m: int)
    requires
        m > 0,
        k % m == 0,
        0 <= t < m,
    ensures
        (k + t) % m == t,
{
    vstd::arithmetic::div_mod::lemma_fundamental_div_mod(k, m);
    vstd::arithmetic::div_mod::lemma_mod_multiples_vanish(k / m, t, m);
    vstd::arithmetic::div_mod::lemma_small_mod(t as nat, m as nat);
}

/// The width of a packing is a power of two, and divides every larger one.
proof fn lemma_width_divides(w: nat, s: nat)
    requires
        w == 1 || w == 2 || w == 4 || w == 8 || w == 16,
        w <= pow2(s),
    ensures
        pow2(s) as int % w as int == 0,
{
    lemma_pow2_basics();
    let g: nat = if w == 1 {
        0
    } else if w == 2 {
        1
    } else if w == 4 {
        2
    } else if w == 8 {
        3
    } else {
        4
    };
    if s < g {
        vstd::arithmetic::power2::lemma_pow2_strictly_increases(s, g);
    }
    vstd::arithmetic::power2::lemma_pow2_adds(g, (s - g) as nat);
    vstd::arithmetic::div_mod::lemma_mod_multiples_basic(pow2((s - g) as nat) as int, w as int);
    vstd::arithmetic::mul::lemma_mul_is_commutative(
        pow2((s - g) as nat) as int,
        w as int,
    );
}

proof fn lemma_next_multiple(k: int, n: int, m: int)
    requires
        0 <= k < n,
        m > 0,
        k % m == 0,
        n % m == 0,
    ensures
        k + m <= n,
        (k + m) % m == 0,
{
    vstd::arithmetic::div_mod::lemma_fundamental_div_mod(k, m);
    vstd::arithmetic::div_mod::lemma_fundamental_div_mod(n, m);
    let (a, b) = (k / m, n / m);
    assert(a < b) by (nonlinear_arith)
        requires
            m * a < m * b,
            m > 0,
    ;
    assert(m * (a + 1) <= m * b) by (nonlinear_arith)
        requires
            a + 1 <= b,
            m > 0,
    ;
    assert(m * (a + 1) == m * a + m) by (nonlinear_arith);
    vstd::arithmetic::div_mod::lemma_mod_add_multiples_vanish(k, m);
}

/// Applies one layer of butterflies to `2^lg_len` entries from `lo` on, a vector at a time.
fn fft_wide_layer<P: PackedField>(
    values: &mut [P::Scalar],
    lo: usize,
    lg_len: usize,
    s: usize,
    row: &Vec<P::Scalar>,
)
    requires
        lo + pow2(lg_len as nat) <= old(values)@.len(),
        s < lg_len,
        P::width() <= pow2(s as nat) <= row@.len(),
    ensures
        final(values)@.len() == old(values)@.len(),
        forall|x: int|
            0 <= x < old(values)@.len() ==> #[trigger] final(values)@[x] == (if lo <= x < lo + pow2(
                lg_len as nat,
            ) {
                fft_layer(
                    old(values)@.subrange(lo as int, lo + pow2(lg_len as nat)),
                    row@,
                    s as nat,
                )[x - lo]
            } else {
                old(values)@[x]
            }),
{
    let n: usize = values.len();
    let len: usize = two_pow(lg_len);
    proof {
        let p: P = arbitrary();
        P::lemma_width(p);
        lemma_pow2_mono(s as nat + 1, lg_len as nat);
        lemma_pow2_double(s as nat);
        lemma_width_divides(P::width(), s as nat);
        vstd::arithmetic::power2::lemma_pow2_adds(s as nat + 1, (lg_len - s - 1) as nat);
        let (a, b) = (pow2((lg_len - s - 1) as nat) as int, pow2(s as nat + 1) as int);
        vstd::arithmetic::div_mod::lemma_mod_multiples_basic(a, b);
        vstd::arithmetic::mul::lemma_mul_is_commutative(a, b);
    }
    let w: usize = P::lane_count();
    let half: usize = two_pow(s);
    let m: usize = 2 * half;
    let ghost orig = values@;
    let ghost v0 = orig.subrange(lo as int, lo + len);
    let ghost target = fft_layer(v0, row@, s as nat);
    let mut k: usize = 0;
    while k < len
        invariant
            n == values@.len() == orig.len(),
            lo + len <= n,
            half == pow2(s as nat) <= row@.len(),
            m == 2 * half,
            w == P::width(),
            1 <= w <= half,
            half as int % w as int == 0,
            len as int % m as int == 0,
            k as int % m as int == 0,
            k <= len,
            v0 == orig.subrange(lo as int, lo + len),
            target == fft_layer(v0, row@, s as nat),
            forall|x: int|
                0 <= x < n ==> #[trigger] values@[x] == (if lo <= x < lo + k {
                    target[x - lo]
                } else {
                    orig[x]
                }),
        decreases len - k,
    {
        proof {
            lemma_next_multiple(k as int, len as int, m as int);
        }
        let mut j: usize = 0;
        while j < half
            invariant
                n == values@.len() == orig.len(),
                lo + len <= n,
                half == pow2(s as nat) <= row@.len(),
                m == 2 * half,
                w == P::width(),
                1 <= w <= half,
                half as int % w as int == 0,
                j as int % w as int == 0,
                j <= half,
                k as int % m as int == 0,
                k + m <= len,
                v0 == orig.subrange(lo as int, lo + len),
                target == fft_layer(v0, row@, s as nat),
                forall|x: int|
                    0 <= x < n ==> #[trigger] values@[x] == (if lo <= x < lo + k || lo + k <= x < lo
                        + k + j || lo + k + half <= x < lo + k + half + j {
                        target[x - lo]
                    } else {
                        orig[x]
                    }),
            decreases half - j,
        {
            proof {
                lemma_next_multiple(j as int, half as int, w as int);
            }
            let omega = P::load(row, j);
            let v = P::load(values, lo + k + half + j);
            let t = omega.mul(v);
            let u = P::load(values, lo + k + j);
            let sum = u.add(t);
            let diff = u.sub(t);
            sum.store(values, lo + k + j);
            diff.store(values, lo + k + half + j);
            proof {
                assert forall|q: int| 0 <= q < w implies #[trigger] sum.seq()[q] == target[k + j + q]
                    && diff.seq()[q] == target[k + half + j + q] by {
                    lemma_butterfly_low(v0, row@, s as nat, k as int, j + q);
                    assert(u.seq()[q] == v0[k + (j + q)]);
                    assert(v.seq()[q] == v0[k + half + (j + q)]);
                    assert(omega.seq()[q] == row@[j + q]);
                    assert(k + half + (j + q) == k + half + j + q);
                    assert(k + (j + q) == k + j + q);
                    assert(t.seq()[q] == omega.seq()[q].s_mul(v.seq()[q]));
                }
                assert forall|x: int|
                    0 <= x < n implies #[trigger] values@[x] == (if lo <= x < lo + k || lo + k <= x
                    < lo + k + j + w || lo + k + half <= x < lo + k + half + j + w {
                    target[x - lo]
                } else {
                    orig[x]
                }) by {
                    if lo + k + j <= x < lo + k + j + w {
                        assert(sum.seq()[x - (lo + k + j)] == target[x - lo]);
                    } else if lo + k + half + j <= x < lo + k + half + j + w {
                        let q = x - (lo + k + half + j);
                        assert(sum.seq()[q] == target[k + j + q]);
                        assert(diff.seq()[q] == target[x - lo]);
                    }
                }
            }
            j = j + w;
        }
        k = k + m;
    }
}

/// Layers keep the length.
pub proof fn lemma_layers_len<F: Field>(v: Seq<F>, table: Seq<Vec<F>>, a: nat, b: nat)
    ensures
        fft_layers(v, table, a, b).len() == v.len(),
    decreases b,
{
    if b > a {
        lemma_layers_len(v, table, a, (b - 1) as nat);
    }
}

/// Consecutive runs of layers compose.
pub proof fn lemma_layers_compose<F: Field>(v: Seq<F>, table: Seq<Vec<F>>, a: nat, b: nat, c: nat)
    requires
        a <= b <= c,
    ensures
        fft_layers(fft_layers(v, table, a, b), table, b, c) == fft_layers(v, table, a, c),
    decreases c,
{
    if c > b {
        lemma_layers_compose(v, table, a, b, (c - 1) as nat);
    }
}

/// A layer works on each aligned block of at least its own size by itself.
proof fn lemma_layer_local<F: Field>(v: Seq<F>, row: Seq<F>, s: nat, lo: int, lg_len: nat)
    requires
        s < lg_len,
        0 <= lo,
        lo % pow2(lg_len) as int == 0,
        lo + pow2(lg_len) <= v.len(),
    ensures
        fft_layer(v, row, s).subrange(lo, lo + pow2(lg_len)) == fft_layer(
            v.subrange(lo, lo + pow2(lg_len)),
            row,
            s,
        ),
{
    let len = pow2(lg_len) as int;
    let h = pow2(s) as int;
    let m = 2 * h;
    let sub = v.subrange(lo, lo + len);
    lemma_pow2_double(s);
    lemma_pow2_double(lg_len);
    vstd::arithmetic::power2::lemma_pow2_adds(s + 1, (lg_len - s - 1) as nat);
    let c = pow2((lg_len - s - 1) as nat) as int;
    assert(len == m * c);
    vstd::arithmetic::power2::lemma_pow2_pos((lg_len - s - 1) as nat);
    vstd::arithmetic::div_mod::lemma_fundamental_div_mod(lo, len);
    assert(lo == m * (c * (lo / len))) by (nonlinear_arith)
        requires
            lo == len * (lo / len),
            len == m * c,
    ;
    let lhs = fft_layer(v, row, s).subrange(lo, lo + len);
    let rhs = fft_layer(sub, row, s);
    assert forall|i: int| 0 <= i < len implies lhs[i] == rhs[i] by {
        vstd::arithmetic::div_mod::lemma_mod_multiples_vanish(c * (lo / len), i, m);
        assert((lo + i) % m == i % m);
        lemma_block_fits(i, c, m);
        let k = i % m;
        if k < h {
            assert(i + h < len);
        } else {
            assert(i - h >= 0);
        }
    }
    assert(lhs =~= rhs);
}

/// The block that an index lies in ends within the whole.
pub proof fn lemma_block_fits(i: int, c: int, m: int)
    requires
        0 <= i < m * c,
        m > 0,
    ensures
        0 <= i % m <= i,
        i - i % m + m <= m * c,
{
    vstd::arithmetic::div_mod::lemma_fundamental_div_mod(i, m);
    vstd::arithmetic::div_mod::lemma_mod_bound(i, m);
    let q = i / m;
    assert(q >= 0) by (nonlinear_arith)
        requires
            m * q + i % m == i,
            0 <= i,
            0 <= i % m < m,
            m > 0,
    ;
    assert(q < c) by (nonlinear_arith)
        requires
            m * q + i % m == i,
            i < m * c,
            0 <= i % m,
            m > 0,
    ;
    assert(m * (q + 1) <= m * c) by (nonlinear_arith)
        requires
            q + 1 <= c,
            m > 0,
    ;
    assert(m * (q + 1) == m * q + m) by (nonlinear_arith);
    assert(m * q >= 0) by (nonlinear_arith)
        requires
            q >= 0,
            m > 0,
    ;
}

/// Layers up to the size of an aligned block work on that block by itself.
proof fn lemma_layers_local<F: Field>(
    v: Seq<F>,
    table: Seq<Vec<F>>,
    a: nat,
    b: nat,
    lo: int,
    lg_len: nat,
)
    requires
        b <= lg_len,
        0 <= lo,
        lo % pow2(lg_len) as int == 0,
        lo + pow2(lg_len) <= v.len(),
    ensures
        fft_layers(v, table, a, b).subrange(lo, lo + pow2(lg_len)) == fft_layers(
            v.subrange(lo, lo + pow2(lg_len)),
            table,
            a,
            b,
        ),
    decreases b,
{
    if b > a {
        let c = (b - 1) as nat;
        lemma_layers_local(v, table, a, c, lo, lg_len);
        lemma_layers_len(v, table, a, c);
        lemma_layer_local(fft_layers(v, table, a, c), table[b - 1]@, c, lo, lg_len);
    }
}

/// Applies the layers `start..end` to `2^lg_len` entries from `lo` on.
fn fft_classic_simd_layers<P: PackedField>(
    values: &mut [P::Scalar],
    lo: usize,
    lg_len: usize,
    start: usize,
    end: usize,
    root_table: &FftRootTable<P::Scalar>,
)
    requires
        lo + pow2(lg_len as nat) <= old(values)@.len(),
        start <= end <= lg_len,
        P::width() <= pow2(start as nat),
        end <= root_table@.len(),
        forall|s: int| 0 <= s < end ==> pow2(s as nat) <= (#[trigger] root_table@[s])@.len(),
    ensures
        final(values)@.len() == old(values)@.len(),
        forall|x: int|
            0 <= x < old(values)@.len() ==> #[trigger] final(values)@[x] == (if lo <= x < lo + pow2(
                lg_len as nat,
            ) {
                fft_layers(
                    old(values)@.subrange(lo as int, lo + pow2(lg_len as nat)),
                    root_table@,
                    start as nat,
                    end as nat,
                )[x - lo]
            } else {
                old(values)@[x]
            }),
{
    let ghost orig = values@;
    let ghost len = pow2(lg_len as nat) as int;
    let ghost v0 = orig.subrange(lo as int, lo + len);
    let mut s: usize = start;
    while s < end
        invariant
            start <= s <= end <= lg_len,
            len == pow2(lg_len as nat),
            lo + len <= orig.len() == values@.len(),
            v0 == orig.subrange(lo as int, lo + len),
            P::width() <= pow2(start as nat),
            end <= root_table@.len(),
            forall|s: int| 0 <= s < end ==> pow2(s as nat) <= (#[trigger] root_table@[s])@.len(),
            forall|x: int|
                0 <= x < orig.len() ==> #[trigger] values@[x] == (if lo <= x < lo + len {
                    fft_layers(v0, root_table@, start as nat, s as nat)[x - lo]
                } else {
                    orig[x]
                }),
        decreases end - s,
    {
        proof {
            lemma_pow2_mono(start as nat, s as nat);
            lemma_layers_len(v0, root_table@, start as nat, s as nat);
            assert(values@.subrange(lo as int, lo + len) =~= fft_layers(
                v0,
                root_table@,
                start as nat,
                s as nat,
            ));
        }
        fft_wide_layer::<P>(values, lo, lg_len, s, &root_table[s]);
        s = s + 1;
    }
}

proof fn lemma_interleaved_butterfly<F: Field>(
    a: Seq<F>,
    b: Seq<F>,
    p: Seq<F>,
    d: Seq<F>,
    row: Seq<F>,
    s: nat,
    j: int,
)
    requires
        a.len() == b.len() == p.len() == d.len(),
        a.len() == 2 || a.len() == 4 || a.len() == 8 || a.len() == 16,
        pow2(s) < a.len(),
        0 <= j < a.len(),
        forall|q: int|
            0 <= q < a.len() ==> #[trigger] p[q] == interleave_left(a, b, pow2(s) as int)[q].s_add(
                row[q % pow2(s) as int].s_mul(interleave_right(a, b, pow2(s) as int)[q]),
            ),
        forall|q: int|
            0 <= q < a.len() ==> #[trigger] d[q] == interleave_left(a, b, pow2(s) as int)[q].s_sub(
                row[q % pow2(s) as int].s_mul(interleave_right(a, b, pow2(s) as int)[q]),
            ),
    ensures
        interleave_left(p, d, pow2(s) as int)[j] == butterfly(a + b, row, s, j),
        interleave_right(p, d, pow2(s) as int)[j] == butterfly(a + b, row, s, a.len() + j),
{
    lemma_pow2_basics();
    let w = a.len() as int;
    let h = pow2(s) as int;
    if s >= 4 {
        lemma_pow2_mono(4, s);
    }
    assert(s == 0 || s == 1 || s == 2 || s == 3);
    assert(h == 1 || h == 2 || h == 4 || h == 8);
    let even = (j / h) % 2 == 0;
    lemma_lane_index(j, w, h);
    if even {
        assert(p[j] == a[j].s_add(row[j % h].s_mul(a[j + h])));
        assert(p[j + h] == b[j].s_add(row[(j + h) % h].s_mul(b[j + h])));
    } else {
        assert(d[j - h] == a[j - h].s_sub(row[(j - h) % h].s_mul(a[j])));
        assert(d[j] == b[j - h].s_sub(row[j % h].s_mul(b[j])));
    }
}

/// Applies a layer whose blocks lie within a pair of packed vectors to the whole buffer.
fn fft_narrow_layer<P: PackedField>(
    values: &mut [P::Scalar],
    s: usize,
    row: &Vec<P::Scalar>,
)
    requires
        pow2(s as nat) < P::width(),
        old(values)@.len() as int % (2 * P::width()) as int == 0,
        pow2(s as nat) <= row@.len(),
    ensures
        final(values)@ == fft_layer(old(values)@, row@, s as nat),
{
    let n: usize = values.len();
    let w: usize = P::lane_count();
    proof {
        let p: P = arbitrary();
        P::lemma_width(p);
        lemma_pow2_basics();
        vstd::arithmetic::power2::lemma_pow2_pos(s as nat);
        if s >= 4 {
            lemma_pow2_mono(4, s as nat);
        }
        assert(s == 0 || s == 1 || s == 2 || s == 3);
    }
    let half: usize = two_pow(s);
    let ghost orig = values@;
    let ghost target = fft_layer(orig, row@, s as nat);
    let mut lanes: Vec<P::Scalar> = Vec::with_capacity(w);
    while lanes.len() < w
        invariant
            lanes@.len() <= w,
            0 < half <= row@.len(),
            forall|q: int| 0 <= q < lanes@.len() ==> #[trigger] lanes@[q] == row@[q % half as int],
        decreases w - lanes@.len(),
    {
        let q: usize = lanes.len();
        lanes.push(row[q % half]);
    }
    let omega = P::load(&lanes, 0);
    let mut k: usize = 0;
    while k < n
        invariant
            n == values@.len() == orig.len(),
            half == pow2(s as nat),
            w == P::width(),
            half < w,
            w == 2 || w == 4 || w == 8 || w == 16,
            half == 1 || half == 2 || half == 4 || half == 8,
            n as int % (2 * w) as int == 0,
            k as int % (2 * w) as int == 0,
            k <= n,
            lanes@.len() == w,
            omega.seq() == lanes@.subrange(0, w as int),
            forall|q: int| 0 <= q < w ==> #[trigger] lanes@[q] == row@[q % half as int],
            target == fft_layer(orig, row@, s as nat),
            forall|x: int|
                0 <= x < n ==> #[trigger] values@[x] == (if x < k {
                    target[x]
                } else {
                    orig[x]
                }),
        decreases n - k,
    {
        proof {
            lemma_next_multiple(k as int, n as int, (2 * w) as int);
        }
        let a = P::load(values, k);
        let b = P::load(values, k + w);
        let (u, v) = a.interleave(b, half);
        let t = omega.mul(v);
        let sum = u.add(t);
        let diff = u.sub(t);
        let (x, y) = sum.interleave(diff, half);
        x.store(values, k);
        y.store(values, k + w);
        proof {
            P::lemma_width(a);
            P::lemma_width(b);
            P::lemma_width(sum);
            P::lemma_width(diff);
            let ab = a.seq() + b.seq();
            assert(ab =~= orig.subrange(k as int, k + 2 * w));
            assert forall|q: int| 0 <= q < w implies #[trigger] x.seq()[q] == target[k + q]
                && y.seq()[q] == target[k + w + q] by {
                lemma_interleaved_butterfly(
                    a.seq(),
                    b.seq(),
                    sum.seq(),
                    diff.seq(),
                    row@,
                    s as nat,
                    q,
                );
                lemma_butterfly_shift(orig, row@, s as nat, k as int, 2 * w, q);
                lemma_butterfly_shift(orig, row@, s as nat, k as int, 2 * w, w + q);
            }
            assert forall|z: int| 0 <= z < n implies #[trigger] values@[z] == (if z < k + 2 * w {
                target[z]
            } else {
                orig[z]
            }) by {
                if k <= z < k + w {
                    assert(x.seq()[z - k] == target[k + (z - k)]);
                } else if k + w <= z < k + 2 * w {
                    let q = z - k - w;
                    assert(x.seq()[q] == target[k + q]);
                }
            }
        }
        k = k + 2 * w;
    }
    assert(values@ =~= target);
}

proof fn lemma_butterfly_shift<F: Field>(
    v: Seq<F>,
    row: Seq<F>,
    s: nat,
    k: int,
    len: int,
    i: int,
)
    requires
        0 <= k,
        0 <= i < len,
        k + len <= v.len(),
        k % len == 0,
        len == 2 || len == 4 || len == 8 || len == 16 || len == 32,
        2 * pow2(s) <= len,
        pow2(s) == 1 || pow2(s) == 2 || pow2(s) == 4 || pow2(s) == 8,
    ensures
        butterfly(v.subrange(k, k + len), row, s, i) == butterfly(v, row, s, k + i),
{
    let m = 2 * pow2(s) as int;
    if len == m {
        lemma_butterfly_shift_by(v, row, s, k, len, i, 1);
    } else if len == 2 * m {
        lemma_butterfly_shift_by(v, row, s, k, len, i, 2);
    } else if len == 4 * m {
        lemma_butterfly_shift_by(v, row, s, k, len, i, 4);
    } else if len == 8 * m {
        lemma_butterfly_shift_by(v, row, s, k, len, i, 8);
    } else {
        lemma_butterfly_shift_by(v, row, s, k, len, i, 16);
    }
}

proof fn lemma_butterfly_shift_by<F: Field>(
    v: Seq<F>,
    row: Seq<F>,
    s: nat,
    k: int,
    len: int,
    i: int,
    c: int,
)
    requires
        0 <= k,
        0 <= i < len,
        k + len <= v.len(),
        k % len == 0,
        len == (2 * pow2(s)) * c,
        pow2(s) >= 1,
    ensures
        butterfly(v.subrange(k, k + len), row, s, i) == butterfly(v, row, s, k + i),
{
    let m = 2 * pow2(s) as int;
    vstd::arithmetic::div_mod::lemma_fundamental_div_mod(k, len);
    let q = k / len;
    assert(k == m * (c * q)) by (nonlinear_arith)
        requires
            k == len * q,
            len == m * c,
    ;
    vstd::arithmetic::div_mod::lemma_mod_multiples_vanish(c * q, i, m);
    lemma_block_fits(i, c, m);
}

/// Applies the layers `r..lg_n` to the whole buffer, the narrow ones by exchanging lanes.
fn fft_classic_simd<P: PackedField>(
    values: &mut [P::Scalar],
    r: usize,
    lg_n: usize,
    root_table: &FftRootTable<P::Scalar>,
)
    requires
        old(values)@.len() == pow2(lg_n as nat),
        table_shape(root_table@, lg_n as nat),
        r <= lg_n,
        P::width() == 1 || P::width() < pow2(lg_n as nat),
    ensures
        final(values)@ == fft_layers(old(values)@, root_table@, r as nat, lg_n as nat),
{
    let w: usize = P::lane_count();
    proof {
        let p: P = arbitrary();
        P::lemma_width(p);
        lemma_pow2_basics();
        assert(pow2(0) == w || pow2(1) == w || pow2(2) == w || pow2(3) == w || pow2(4) == w);
    }
    let lg_packed_width: usize = log2_strict(w);
    let ghost orig = values@;
    proof {
        if lg_packed_width > lg_n {
            lemma_pow2_mono(lg_n as nat, lg_packed_width as nat);
            assert(w == 1);
            lemma_pow2_injective(0, lg_packed_width as nat);
        }
        if w > 1 {
            if lg_n <= lg_packed_width {
                lemma_pow2_mono(lg_n as nat, lg_packed_width as nat);
            }
            vstd::arithmetic::power2::lemma_pow2_adds(
                lg_packed_width as nat + 1,
                (lg_n - lg_packed_width - 1) as nat,
            );
            lemma_pow2_double(lg_packed_width as nat);
            let (a, b) = (pow2((lg_n - lg_packed_width - 1) as nat) as int, 2 * w as int);
            vstd::arithmetic::div_mod::lemma_mod_multiples_basic(a, b);
            vstd::arithmetic::mul::lemma_mul_is_commutative(a, b);
        }
    }
    let mut s: usize = r;
    while s < lg_packed_width && s < lg_n
        invariant
            r <= s <= lg_n,
            s <= lg_packed_width || s == r,
            w == P::width() == pow2(lg_packed_width as nat),
            w > 1 ==> orig.len() as int % (2 * w) as int == 0,
            lg_packed_width <= lg_n,
            orig.len() == pow2(lg_n as nat),
            table_shape(root_table@, lg_n as nat),
            values@ == fft_layers(orig, root_table@, r as nat, s as nat),
        decreases lg_n - s,
    {
        proof {
            vstd::arithmetic::power2::lemma_pow2_strictly_increases(
                s as nat,
                lg_packed_width as nat,
            );
            vstd::arithmetic::power2::lemma_pow2_pos(s as nat);
            lemma_layers_len(orig, root_table@, r as nat, s as nat);
        }
        fft_narrow_layer::<P>(values, s, &root_table[s]);
        s = s + 1;
    }
    proof {
        lemma_pow2_mono(lg_packed_width as nat, s as nat);
        lemma_layers_len(orig, root_table@, r as nat, s as nat);
    }
    let ghost mid = values@;
    fft_classic_simd_layers::<P>(values, 0, lg_n, s, lg_n, root_table);
    proof {
        assert(mid.subrange(0, pow2(lg_n as nat) as int) =~= mid);
        lemma_layers_compose(orig, root_table@, r as nat, s as nat, lg_n as nat);
        lemma_layers_len(mid, root_table@, s as nat, lg_n as nat);
        assert(values@ =~= fft_layers(mid, root_table@, s as nat, lg_n as nat));
    }
}

/// Each entry repeated `repeat` times.
pub open spec fn repeated<F>(v: Seq<F>, n: int, repeat: int) -> Seq<F> {
    Seq::new(n as nat, |x: int| v[x / repeat])
}

/// Entry `x` after the entries are repeated `repeat` times and one layer has been applied.
spec fn expanded_butterfly<F: Field>(v: Seq<F>, row: Seq<F>, repeat: int, x: int) -> F {
    let q = x / (2 * repeat);
    let k = x % (2 * repeat);
    if k < repeat {
        v[2 * q].s_add(row[k].s_mul(v[2 * q + 1]))
    } else {
        v[2 * q].s_sub(row[k - repeat].s_mul(v[2 * q + 1]))
    }
}

proof fn lemma_expanded_butterfly<F: Field>(v: Seq<F>, row: Seq<F>, r: nat, n: int, x: int)
    requires
        0 <= x < n,
        n % (2 * pow2(r) as int) == 0,
    ensures
        expanded_butterfly(v, row, pow2(r) as int, x) == butterfly(
            repeated(v, n, pow2(r) as int),
            row,
            r,
            x,
        ),
{
    lemma_pow2_double(r);
    let h = pow2(r) as int;
    let m = 2 * h;
    vstd::arithmetic::div_mod::lemma_fundamental_div_mod(x, m);
    vstd::arithmetic::div_mod::lemma_fundamental_div_mod(n, m);
    let (q, k) = (x / m, x % m);
    lemma_block_fits(x, n / m, m);
    vstd::arithmetic::div_mod::lemma_mod_bound(x, m);
    assert(m * q == (2 * q) * h) by (nonlinear_arith)
        requires
            m == 2 * h,
    ;
    assert((2 * q + 1) * h == (2 * q) * h + h) by (nonlinear_arith);
    if k < h {
        vstd::arithmetic::div_mod::lemma_fundamental_div_mod_converse(x, h, 2 * q, k);
        vstd::arithmetic::div_mod::lemma_fundamental_div_mod_converse(x + h, h, 2 * q + 1, k);
    } else {
        vstd::arithmetic::div_mod::lemma_fundamental_div_mod_converse(x - h, h, 2 * q, k - h);
        vstd::arithmetic::div_mod::lemma_fundamental_div_mod_converse(x, h, 2 * q + 1, k - h);
    }
}

/// Expands pairs of entries, from the last pair down, into runs of `repeat` butterflies.
fn fft_zero_padded_first_layer_block<P: PackedField>(
    values: &mut [P::Scalar],
    source_start: usize,
    nonzero_len: usize,
    destination: usize,
    repeat: usize,
    row: &Vec<P::Scalar>,
)
    requires
        P::width() <= repeat,
        repeat as int % P::width() as int == 0,
        repeat <= row@.len(),
        2 * repeat <= usize::MAX,
        nonzero_len % 2 == 0,
        source_start % 2 == 0,
        destination == source_start * repeat,
        destination + nonzero_len * repeat <= old(values)@.len(),
    ensures
        final(values)@.len() == old(values)@.len(),
        forall|x: int|
            0 <= x < old(values)@.len() ==> #[trigger] final(values)@[x] == (if destination <= x
                < destination + nonzero_len * repeat {
                expanded_butterfly(old(values)@, row@, repeat as int, x)
            } else {
                old(values)@[x]
            }),
{
    let n: usize = values.len();
    let w: usize = P::lane_count();
    let ghost orig = values@;
    let ghost end = destination + nonzero_len * repeat;
    proof {
        let p: P = arbitrary();
        P::lemma_width(p);
        assert((source_start + nonzero_len) * repeat == end) by (nonlinear_arith)
            requires
                destination == source_start * repeat,
                end == destination + nonzero_len * repeat,
        ;
    }
    let mut pair: usize = nonzero_len / 2;
    while pair > 0
        invariant
            n == values@.len() == orig.len(),
            w == P::width(),
            1 <= w <= repeat,
            2 * repeat <= usize::MAX,
            repeat as int % w as int == 0,
            repeat <= row@.len(),
            source_start % 2 == 0,
            destination == source_start * repeat,
            end == (source_start + nonzero_len) * repeat <= n,
            2 * pair <= nonzero_len,
            forall|x: int|
                0 <= x < n ==> #[trigger] values@[x] == (if (source_start + 2 * pair) * repeat <= x
                    < end {
                    expanded_butterfly(orig, row@, repeat as int, x)
                } else {
                    orig[x]
                }),
        decreases pair,
    {
        let ghost top = (source_start + 2 * pair) * repeat;
        pair = pair - 1;
        let ghost start = (source_start + 2 * pair) * repeat;
        let ghost c = (source_start + 2 * pair) / 2;
        proof {
            let (a, b) = (source_start + 2 * pair, source_start + nonzero_len);
            assert((a + 2) * repeat == a * repeat + 2 * repeat) by (nonlinear_arith);
            assert((a + 2) * repeat <= b * repeat) by (nonlinear_arith)
                requires
                    a + 2 <= b,
                    0 <= repeat,
            ;
            assert(a <= a * repeat && a + 1 < (a + 2) * repeat) by (nonlinear_arith)
                requires
                    0 <= a,
                    1 <= repeat,
            ;
            assert(2 * c == a);
            let (h, s, g) = (repeat as int, source_start as int, 2 * pair as int);
            assert(s * h + g * h == (s + g) * h) by (nonlinear_arith);
            assert(g * h == (pair * 2) * h);
            assert(0 <= g * h) by (nonlinear_arith)
                requires
                    0 <= g,
                    0 <= h,
            ;
        }
        let source: usize = source_start + pair * 2;
        let u0 = values[source];
        let v0 = values[source + 1];
        let u = P::broadcast(u0);
        let v = P::broadcast(v0);
        let pair_destination: usize = destination + pair * 2 * repeat;
        assert(pair_destination == start);
        let mut j: usize = 0;
        while j < repeat
            invariant
                n == values@.len() == orig.len(),
                w == P::width(),
                1 <= w <= repeat,
                2 * repeat <= usize::MAX,
                repeat as int % w as int == 0,
                repeat <= row@.len(),
                j as int % w as int == 0,
                j <= repeat,
                pair_destination == start,
                start == (2 * c) * repeat,
                top == start + 2 * repeat <= end <= n,
                c >= 0,
                2 * c + 1 < orig.len(),
                u0 == orig[2 * c],
                v0 == orig[2 * c + 1],
                forall|i: int| 0 <= i < P::width() ==> #[trigger] u.seq()[i] == u0,
                forall|i: int| 0 <= i < P::width() ==> #[trigger] v.seq()[i] == v0,
                forall|x: int|
                    0 <= x < n ==> #[trigger] values@[x] == (if start <= x < start + j || start
                        + repeat <= x < start + repeat + j || top <= x < end {
                        expanded_butterfly(orig, row@, repeat as int, x)
                    } else {
                        orig[x]
                    }),
            decreases repeat - j,
        {
            proof {
                lemma_next_multiple(j as int, repeat as int, w as int);
            }
            let omega = P::load(row, j);
            let t = omega.mul(v);
            let sum = u.add(t);
            let diff = u.sub(t);
            sum.store(values, pair_destination + j);
            diff.store(values, pair_destination + repeat + j);
            proof {
                assert forall|q: int| 0 <= q < w implies #[trigger] sum.seq()[q]
                    == expanded_butterfly(orig, row@, repeat as int, start + j + q)
                    && diff.seq()[q] == expanded_butterfly(
                    orig,
                    row@,
                    repeat as int,
                    start + repeat + j + q,
                ) by {
                    let m = 2 * repeat as int;
                    assert(start == m * c) by (nonlinear_arith)
                        requires
                            start == (2 * c) * repeat,
                            m == 2 * repeat,
                    ;
                    vstd::arithmetic::div_mod::lemma_fundamental_div_mod_converse(
                        start + j + q,
                        m,
                        c,
                        j + q,
                    );
                    vstd::arithmetic::div_mod::lemma_fundamental_div_mod_converse(
                        start + repeat + j + q,
                        m,
                        c,
                        repeat + j + q,
                    );
                    assert(omega.seq()[q] == row@[j + q]);
                    assert(t.seq()[q] == omega.seq()[q].s_mul(v.seq()[q]));
                    assert(diff.seq()[q] == u.seq()[q].s_sub(t.seq()[q]));
                }
                assert forall|x: int| 0 <= x < n implies #[trigger] values@[x] == (if start <= x
                    < start + j + w || start + repeat <= x < start + repeat + j + w || top <= x
                    < end {
                    expanded_butterfly(orig, row@, repeat as int, x)
                } else {
                    orig[x]
                }) by {
                    if start + j <= x < start + j + w {
                        assert(sum.seq()[x - (start + j)] == expanded_butterfly(
                            orig,
                            row@,
                            repeat as int,
                            x,
                        ));
                    } else if start + repeat + j <= x < start + repeat + j + w {
                        let q = x - (start + repeat + j);
                        assert(sum.seq()[q] == expanded_butterfly(
                            orig,
                            row@,
                            repeat as int,
                            start + j + q,
                        ));
                    }
                }
            }
            j = j + w;
        }
    }
    proof {
        assert(source_start + 2 * 0 == source_start);
        if nonzero_len == 0 {
            assert(0 * repeat == 0);
        }
    }
}

/// Expands a bit-reversed prefix and performs its first nontrivial layer in one pass.
fn fft_zero_padded_first_layer<P: PackedField>(
    values: &mut [P::Scalar],
    r: usize,
    lg_n: usize,
    root_table: &FftRootTable<P::Scalar>,
)
    requires
        old(values)@.len() == pow2(lg_n as nat),
        table_shape(root_table@, lg_n as nat),
        r < lg_n,
        P::width() <= pow2(r as nat),
    ensures
        final(values)@ == fft_layer(
            repeated(old(values)@, pow2(lg_n as nat) as int, pow2(r as nat) as int),
            root_table@[r as int]@,
            r as nat,
        ),
{
    let ghost orig = values@;
    let len: usize = values.len();
    let ghost n = len as int;
    proof {
        let p: P = arbitrary();
        P::lemma_width(p);
        lemma_pow2_double(r as nat);
        lemma_pow2_mono(r as nat + 1, lg_n as nat);
        lemma_width_divides(P::width(), r as nat);
        lemma_prefix_shape(r as nat, lg_n as nat);
    }
    let repeat: usize = two_pow(r);
    let nonzero_len: usize = two_pow(lg_n - r);
    assert(0 * repeat == 0);
    fft_zero_padded_first_layer_block::<P>(values, 0, nonzero_len, 0, repeat, &root_table[r]);
    proof {
        let target = fft_layer(repeated(orig, n, repeat as int), root_table@[r as int]@, r as nat);
        assert forall|x: int| 0 <= x < n implies values@[x] == #[trigger] target[x] by {
            lemma_expanded_butterfly(orig, root_table@[r as int]@, r as nat, n, x);
        }
        assert(values@ =~= target);
    }
}

/// The live prefix of a zero-padded buffer has an even number of entries, `2^r` apart.
proof fn lemma_prefix_shape(r: nat, lg_n: nat)
    requires
        r < lg_n,
    ensures
        pow2((lg_n - r) as nat) * pow2(r) == pow2(lg_n),
        pow2((lg_n - r) as nat) % 2 == 0,
        pow2((lg_n - r) as nat) <= pow2(lg_n),
        pow2(lg_n) as int % (2 * pow2(r) as int) == 0,
{
    vstd::arithmetic::power2::lemma_pow2_adds((lg_n - r) as nat, r);
    lemma_pow2_double((lg_n - r - 1) as nat);
    lemma_pow2_mono((lg_n - r) as nat, lg_n);
    let c = pow2((lg_n - r - 1) as nat) as int;
    let m = 2 * pow2(r) as int;
    assert(pow2(lg_n) == c * m) by (nonlinear_arith)
        requires
            pow2(lg_n) == pow2((lg_n - r) as nat) * pow2(r),
            pow2((lg_n - r) as nat) == 2 * c,
            m == 2 * pow2(r) as int,
    ;
    lemma_pow2_double(r);
    vstd::arithmetic::div_mod::lemma_mod_multiples_basic(c, m);
}

/// Expands a bit-reversed prefix block by block, from the last block down, and performs all
/// layers of a block before the next.
fn fft_zero_padded_cache_blocks<P: PackedField>(
    values: &mut [P::Scalar],
    r: usize,
    lg_block_n: usize,
    lg_n: usize,
    root_table: &FftRootTable<P::Scalar>,
)
    requires
        old(values)@.len() == pow2(lg_n as nat),
        table_shape(root_table@, lg_n as nat),
        r + 1 < lg_block_n <= lg_n,
        P::width() <= pow2(r as nat),
    ensures
        final(values)@ == fft_layers(
            repeated(old(values)@, pow2(lg_n as nat) as int, pow2(r as nat) as int),
            root_table@,
            r as nat,
            lg_block_n as nat,
        ),
{
    let ghost orig = values@;
    let len: usize = values.len();
    let ghost n = len as int;
    let ghost table = root_table@;
    proof {
        let p: P = arbitrary();
        P::lemma_width(p);
        lemma_pow2_double(r as nat);
        lemma_pow2_mono(r as nat + 1, lg_block_n as nat);
        lemma_pow2_mono(lg_block_n as nat, lg_n as nat);
        lemma_pow2_mono((lg_n - lg_block_n) as nat, lg_n as nat);
        lemma_width_divides(P::width(), r as nat);
        lemma_prefix_shape(r as nat, lg_block_n as nat);
        lemma_prefix_shape(r as nat, lg_n as nat);
        vstd::arithmetic::power2::lemma_pow2_adds(
            (lg_n - lg_block_n) as nat,
            lg_block_n as nat,
        );
    }
    let repeat: usize = two_pow(r);
    let block_len: usize = two_pow(lg_block_n);
    let nonzero_per_block: usize = two_pow(lg_block_n - r);
    let num_blocks: usize = two_pow(lg_n - lg_block_n);
    let ghost expanded = repeated(orig, n, repeat as int);
    let ghost target = fft_layers(expanded, table, r as nat, lg_block_n as nat);
    let ghost once = fft_layer(expanded, table[r as int]@, r as nat);
    let mut block: usize = num_blocks;
    while block > 0
        invariant
            block <= num_blocks,
            values@.len() == orig.len() == n == pow2(lg_n as nat),
            n <= usize::MAX,
            table == root_table@,
            table_shape(table, lg_n as nat),
            r + 1 < lg_block_n <= lg_n,
            P::width() <= pow2(r as nat),
            repeat == pow2(r as nat),
            repeat as int % P::width() as int == 0,
            block_len == pow2(lg_block_n as nat),
            nonzero_per_block * repeat == block_len,
            nonzero_per_block % 2 == 0,
            num_blocks * block_len == n,
            2 * repeat <= block_len,
            n % (2 * repeat as int) == 0,
            expanded == repeated(orig, n, repeat as int),
            target == fft_layers(expanded, table, r as nat, lg_block_n as nat),
            once == fft_layer(expanded, table[r as int]@, r as nat),
            forall|x: int|
                0 <= x < n ==> #[trigger] values@[x] == (if x >= block * block_len {
                    target[x]
                } else {
                    orig[x]
                }),
        decreases block,
    {
        let ghost top = block * block_len;
        block = block - 1;
        proof {
            vstd::arithmetic::power2::lemma_pow2_pos(r as nat);
            let (b, c, g, h) = (
                block as int,
                nonzero_per_block as int,
                block_len as int,
                repeat as int,
            );
            assert((b + 1) * g == b * g + g) by (nonlinear_arith);
            assert((b + 1) * g <= num_blocks * g) by (nonlinear_arith)
                requires
                    b + 1 <= num_blocks,
                    0 <= g,
            ;
            assert((b * c) * h == b * g) by (nonlinear_arith)
                requires
                    c * h == g,
            ;
            assert(0 <= b * c <= b * g) by (nonlinear_arith)
                requires
                    c * h == g,
                    1 <= h,
                    0 <= c,
                    0 <= b,
            ;
            assert((b * c) % 2 == 0) by {
                let d = c / 2;
                assert(c == 2 * d);
                assert(b * c == 2 * (b * d)) by (nonlinear_arith)
                    requires
                        c == 2 * d,
                ;
            }
            assert(c >= 1) by (nonlinear_arith)
                requires
                    c * h == g,
                    g >= 1,
                    h >= 1,
            ;
        }
        let source_start: usize = block * nonzero_per_block;
        let destination: usize = block * block_len;
        let ghost before = values@;
        fft_zero_padded_first_layer_block::<P>(
            values,
            source_start,
            nonzero_per_block,
            destination,
            repeat,
            &root_table[r],
        );
        let ghost mid = values@;
        proof {
            let row = table[r as int]@;
            let (b, c, h) = (block as int, nonzero_per_block as int, repeat as int);
            let d = c / 2;
            assert(top == (2 * h) * ((b + 1) * d)) by (nonlinear_arith)
                requires
                    top == (b + 1) * (c * h),
                    c == 2 * d,
            ;
            assert forall|x: int| destination <= x < top implies #[trigger] mid[x] == once[x] by {
                lemma_block_fits(x, (b + 1) * d, 2 * h);
                lemma_same_source(before, orig, row, repeat as int, x, top, block_len as int);
                lemma_expanded_butterfly(orig, row, r as nat, n, x);
            }
            lemma_pow2_mono(r as nat, r as nat + 1);
        }
        fft_classic_simd_layers::<P>(
            values,
            destination,
            lg_block_n,
            r + 1,
            lg_block_n,
            root_table,
        );
        proof {
            let lo = destination as int;
            let (lr, lb) = (r as nat, lg_block_n as nat);
            vstd::arithmetic::div_mod::lemma_mod_multiples_basic(block as int, block_len as int);
            assert(fft_layers(expanded, table, lr, lr) == expanded);
            assert(fft_layers(expanded, table, lr, lr + 1) == once);
            lemma_layers_compose(expanded, table, lr, lr + 1, lb);
            lemma_layers_local(once, table, lr + 1, lb, lo, lb);
            lemma_layers_len(once, table, lr + 1, lb);
            assert(mid.subrange(lo, lo + block_len) =~= once.subrange(lo, lo + block_len));
            assert forall|x: int| 0 <= x < n implies #[trigger] values@[x] == (if x >= lo {
                target[x]
            } else {
                orig[x]
            }) by {
                if lo <= x < top {
                    assert(values@[x] == target.subrange(lo, lo + block_len)[x - lo]);
                }
            }
        }
    }
    proof {
        lemma_layers_len(expanded, table, r as nat, lg_block_n as nat);
        assert(0 * block_len == 0);
        assert(values@ =~= target);
    }
}

/// The sources of a destination below `top` lie below `top` too.
proof fn lemma_same_source<F: Field>(
    a: Seq<F>,
    b: Seq<F>,
    row: Seq<F>,
    repeat: int,
    x: int,
    top: int,
    block_len: int,
)
    requires
        0 <= x < top <= a.len() == b.len(),
        1 <= repeat,
        2 * repeat <= block_len,
        forall|i: int| 0 <= i < top ==> a[i] == b[i],
        x - x % (2 * repeat) + 2 * repeat <= top,
    ensures
        expanded_butterfly(a, row, repeat, x) == expanded_butterfly(b, row, repeat, x),
{
    let m = 2 * repeat;
    vstd::arithmetic::div_mod::lemma_fundamental_div_mod(x, m);
    let q = x / m;
    assert(0 <= q && 2 * q + 1 < m * q + m) by (nonlinear_arith)
        requires
            m * q + x % m == x,
            0 <= x % m < m,
            0 <= x,
            m >= 2,
    ;
}

/// Brings a zero-padded buffer into the state after its first layers, without reading the
/// padding, and returns the next layer.
fn prepare_zero_padded_fft<F: Packable>(
    values: &mut [F],
    r: usize,
    lg_n: usize,
    lg_packed_width: usize,
    root_table: &FftRootTable<F>,
) -> (first_layer: usize)
    requires
        old(values)@.len() == pow2(lg_n as nat),
        table_shape(root_table@, lg_n as nat),
        0 < r <= lg_n,
        pow2(lg_packed_width as nat) == F::Packing::width(),
    ensures
        r <= first_layer <= lg_n,
        final(values)@ == fft_layers(
            fft_expand(old(values)@, r as nat, lg_n as nat),
            root_table@,
            r as nat,
            first_layer as nat,
        ),
{
    let ghost orig = values@;
    let n: usize = values.len();
    proof {
        lemma_pow2_mono(r as nat, lg_n as nat);
        lemma_pow2_mono((lg_n - r) as nat, lg_n as nat);
        vstd::arithmetic::power2::lemma_pow2_adds((lg_n - r) as nat, r as nat);
        vstd::arithmetic::power2::lemma_pow2_pos(r as nat);
    }
    let repeat: usize = two_pow(r);
    let nonzero_len: usize = two_pow(lg_n - r);
    reverse_index_bits_in_place(values, nonzero_len, lg_n - r);
    let ghost reversed = values@;
    let ghost expanded = fft_expand(orig, r as nat, lg_n as nat);
    proof {
        assert forall|x: int| 0 <= x < n implies #[trigger] expanded[x] == reversed[x
            / repeat as int] by {
            lemma_source_index(x, repeat as int, nonzero_len as int);
        }
        assert(repeated(reversed, n as int, repeat as int) =~= expanded);
    }
    if r >= lg_packed_width && r < lg_n {
        proof {
            lemma_pow2_mono(lg_packed_width as nat, r as nat);
        }
        let lg_block_n: usize = F::lg_cache_block();
        if r + 1 < lg_block_n && lg_block_n <= lg_n {
            fft_zero_padded_cache_blocks::<F::Packing>(values, r, lg_block_n, lg_n, root_table);
            lg_block_n
        } else {
            fft_zero_padded_first_layer::<F::Packing>(values, r, lg_n, root_table);
            proof {
                assert(fft_layers(expanded, root_table@, r as nat, r as nat) == expanded);
            }
            r + 1
        }
    } else {
        let mut i: usize = nonzero_len;
        proof {
            assert(nonzero_len * repeat == n);
        }
        while i > 0
            invariant
                i <= nonzero_len,
                1 <= repeat,
                nonzero_len * repeat == n,
                values@.len() == n,
                reversed.len() == n,
                forall|x: int|
                    0 <= x < n ==> #[trigger] values@[x] == (if x >= i * repeat {
                        reversed[x / repeat as int]
                    } else {
                        reversed[x]
                    }),
            decreases i,
        {
            let ghost top = i * repeat;
            i = i - 1;
            proof {
                assert((i + 1) * repeat == i * repeat + repeat) by (nonlinear_arith);
                assert((i + 1) * repeat <= nonzero_len * repeat) by (nonlinear_arith)
                    requires
                        i + 1 <= nonzero_len,
                        0 <= repeat,
                ;
                assert(i <= i * repeat) by (nonlinear_arith)
                    requires
                        1 <= repeat,
                        0 <= i,
                ;
            }
            let value = values[i];
            let start: usize = i * repeat;
            let mut j: usize = 0;
            while j < repeat
                invariant
                    1 <= repeat,
                    start == i * repeat,
                    top == start + repeat <= n,
                    values@.len() == n,
                    i < n,
                    value == reversed[i as int],
                    j <= repeat,
                    forall|x: int|
                        0 <= x < n ==> #[trigger] values@[x] == (if x >= top || start <= x < start
                            + j {
                            reversed[x / repeat as int]
                        } else {
                            reversed[x]
                        }),
                decreases repeat - j,
            {
                proof {
                    vstd::arithmetic::div_mod::lemma_fundamental_div_mod_converse(
                        start + j,
                        repeat as int,
                        i as int,
                        j as int,
                    );
                }
                values[start + j] = value;
                j = j + 1;
            }
        }
        proof {
            assert(0 * repeat == 0);
            assert(values@ =~= expanded);
        }
        r
    }
}

proof fn lemma_source_index(x: int, repeat: int, count: int)
    requires
        0 <= x < count * repeat,
        repeat > 0,
    ensures
        0 <= x / repeat < count,
{
    vstd::arithmetic::div_mod::lemma_fundamental_div_mod(x, repeat);
    vstd::arithmetic::div_mod::lemma_mod_bound(x, repeat);
    let q = x / repeat;
    assert(0 <= q < count) by (nonlinear_arith)
        requires
            repeat * q + x % repeat == x,
            0 <= x % repeat < repeat,
            0 <= x < count * repeat,
            repeat > 0,
    ;
}

/// Transforms a buffer in place.
///
/// Only the first `2^(lg_n - r)` entries are read; the others count as zeros.
pub fn fft_classic<F: Packable>(values: &mut [F], r: usize, root_table: &FftRootTable<F>)
    requires
        old(values)@.len() == pow2(root_table@.len()),
        table_shape(root_table@, root_table@.len()),
        r <= root_table@.len(),
    ensures
        final(values)@ == fft_words(
            old(values)@,
            root_table@,
            r as nat,
            root_table@.len(),
        ),
{
    let ghost orig = values@;
    let n: usize = values.len();
    let lg_n: usize = root_table.len();
    let w: usize = F::Packing::lane_count();
    proof {
        let p: F::Packing = arbitrary();
        F::Packing::lemma_width(p);
        lemma_pow2_basics();
        assert(pow2(0) == w || pow2(1) == w || pow2(2) == w || pow2(3) == w || pow2(4) == w);
    }
    let lg_packed_width: usize = log2_strict(w);
    let first_layer: usize = if r == 0 {
        reverse_index_bits_in_place(values, n, lg_n);
        proof {
            let expanded = fft_expand(orig, 0, lg_n as nat);
            assert forall|x: int| 0 <= x < n implies #[trigger] expanded[x] == values@[x] by {
                assert(x / 1 == x);
            }
            assert(values@ =~= expanded);
        }
        0
    } else {
        prepare_zero_padded_fft(values, r, lg_n, lg_packed_width, root_table)
    };
    let ghost mid = values@;
    proof {
        lemma_layers_compose(
            fft_expand(orig, r as nat, lg_n as nat),
            root_table@,
            r as nat,
            first_layer as nat,
            lg_n as nat,
        );
        lemma_layers_len(
            fft_expand(orig, r as nat, lg_n as nat),
            root_table@,
            r as nat,
            first_layer as nat,
        );
    }
    if lg_n <= lg_packed_width {
        fft_classic_simd::<Single<F>>(values, first_layer, lg_n, root_table);
    } else {
        proof {
            vstd::arithmetic::power2::lemma_pow2_strictly_increases(
                lg_packed_width as nat,
                lg_n as nat,
            );
        }
        fft_classic_simd::<F::Packing>(values, first_layer, lg_n, root_table);
    }
}

/// The words of row `s` of the table for transforms of `2^lg_n` elements: the powers of a root of
/// unity of order `2^(s + 1)`, which is the root of order `2^lg_n` squared again and again.
pub open spec fn root_row<F: Field>(lg_n: nat, s: nat) -> Seq<F> {
    Seq::new(
        if s == 0 {
            2
        } else {
            pow2(s)
        },
        |k: int| s_power(F::s_root(lg_n).s_squares((lg_n - s - 1) as nat), k as nat),
    )
}

/// The words of the table for transforms of `2^lg_n` elements.
pub open spec fn is_root_table<F: Field>(table: Seq<Vec<F>>, lg_n: nat) -> bool {
    &&& table.len() == lg_n
    &&& forall|s: int| 0 <= s < lg_n ==> (#[trigger] table[s])@ == root_row::<F>(lg_n, s as nat)
}

/// The twiddle factors for transforms of `n` elements.
pub fn fft_root_table<F: Packable>(n: usize) -> (table: FftRootTable<F>)
    requires
        is_power_of_two(n as nat),
        log2(n as nat) <= F::two_adicity(),
    ensures
        table@.len() == log2(n as nat),
        pow2(table@.len()) == n,
        table_ok(table@, table@.len()),
        is_root_table(table@, table@.len()),
{
    let lg_n: usize = log2_strict(n);
    proof {
        F::lemma_values(F::s_const(0));
        lemma_pow2_basics();
    }
    // bases[i] is the root of unity of order 2^(lg_n - i).
    let mut bases: Vec<F> = Vec::with_capacity(lg_n);
    let mut base = F::primitive_root_of_unity(lg_n);
    bases.push(base);
    let ghost first = base;
    proof {
        F::lemma_squares(first, 0);
    }
    while bases.len() < lg_n
        invariant
            1 <= bases@.len(),
            base == first.s_squares((bases@.len() - 1) as nat),
            forall|i: int| 0 <= i < bases@.len() ==> #[trigger] bases@[i] == first.s_squares(i as nat),
            bases@.len() <= lg_n || bases@.len() == 1,
            lg_n <= F::two_adicity() <= 33,
            base.v() == root((lg_n - (bases@.len() - 1)) as nat),
            forall|i: int|
                0 <= i < bases@.len() && i <= lg_n ==> (#[trigger] bases@[i]).v() == root(
                    (lg_n - i) as nat,
                ),
        decreases lg_n - bases@.len(),
    {
        proof {
            F::lemma_ops(base, base);
            F::lemma_squares(first, (bases@.len() - 1) as nat);
            lemma_root_step((lg_n - bases@.len()) as nat);
        }
        base = base.square();
        bases.push(base);
    }
    let mut root_table: FftRootTable<F> = Vec::with_capacity(lg_n);
    let mut lg_m: usize = 1;
    while lg_m <= lg_n
        invariant
            1 <= lg_m <= lg_n + 1,
            root_table@.len() == lg_m - 1,
            lg_n <= 33,
            pow2(lg_n as nat) == n,
            bases@.len() >= lg_n,
            first == F::s_root(lg_n as nat),
            forall|i: int| 0 <= i < bases@.len() ==> #[trigger] bases@[i] == first.s_squares(i as nat),
            forall|i: int|
                0 <= i < bases@.len() && i <= lg_n ==> (#[trigger] bases@[i]).v() == root(
                    (lg_n - i) as nat,
                ),
            forall|s: int|
                0 <= s < root_table@.len() ==> (#[trigger] root_table@[s])@ == root_row::<F>(
                    lg_n as nat,
                    s as nat,
                ),
            forall|s: int, k: int|
                0 <= s < root_table@.len() && 0 <= k < pow2(s as nat) ==> (#[trigger] root_table@[
                s]@[k]).v() == power(root((s + 1) as nat), k as nat),
        decreases lg_n + 1 - lg_m,
    {
        proof {
            lemma_pow2_basics();
            lemma_pow2_mono((lg_m - 1) as nat, lg_n as nat);
            if lg_m > 1 {
                lemma_pow2_mono(1, (lg_m - 1) as nat);
            }
        }
        let half_m: usize = two_pow(lg_m - 1);
        let row_base = bases[lg_n - lg_m];
        let count: usize = if half_m < 2 {
            2
        } else {
            half_m
        };
        let row = powers(row_base, count);
        proof {
            assert(row@ =~= root_row::<F>(lg_n as nat, (lg_m - 1) as nat));
            assert forall|k: int| 0 <= k < count implies (#[trigger] row@[k]).v() == power(
                root(lg_m as nat),
                k as nat,
            ) by {
                lemma_s_power(row_base, k as nat);
            }
        }
        root_table.push(row);
        lg_m = lg_m + 1;
    }
    proof {
        assert forall|s: int| 0 <= s < lg_n implies pow2(s as nat) <= (#[trigger] root_table@[s])@.len() by {
            lemma_pow2_basics();
        }
    }
    root_table
}

/// The zero factor that an option stands for.
pub open spec fn zero_factor_of(zero_factor: Option<usize>) -> nat {
    match zero_factor {
        Some(r) => r as nat,
        None => 0,
    }
}

/// What a transform needs of its buffer length and of the options it is given.
pub open spec fn fft_ready<F: Packable>(
    n: nat,
    zero_factor: Option<usize>,
    root_table: Option<&FftRootTable<F>>,
) -> bool {
    &&& is_power_of_two(n)
    &&& log2(n) <= F::two_adicity()
    &&& zero_factor_of(zero_factor) <= log2(n)
    &&& match root_table {
        Some(table) => table_shape(table@, log2(n)),
        None => true,
    }
}

/// What a transform leaves: the words that the factors of its table give, and with its own or a
/// proper table the values of the polynomial on the subgroup.
pub open spec fn fft_done<F: Packable>(
    before: Seq<F>,
    after: Seq<F>,
    zero_factor: Option<usize>,
    root_table: Option<&FftRootTable<F>>,
) -> bool {
    let lg_n = log2(before.len());
    let r = zero_factor_of(zero_factor);
    let values = dft(padded(vals(before), pow2((lg_n - r) as nat) as int), lg_n);
    &&& after.len() == before.len()
    &&& match root_table {
        Some(table) => {
            &&& after == fft_words(before, table@, r, lg_n)
            &&& table_ok(table@, lg_n) ==> vals(after) == values
        },
        None => {
            &&& exists|table: Seq<Vec<F>>| #[trigger]
                is_root_table(table, lg_n) && after == fft_words(before, table, r, lg_n)
            &&& vals(after) == values
        },
    }
}

proof fn lemma_same_rows<F: Field>(
    v: Seq<F>,
    s: Seq<Vec<F>>,
    t: Seq<Vec<F>>,
    lg_n: nat,
    a: nat,
    b: nat,
)
    requires
        is_root_table(s, lg_n),
        is_root_table(t, lg_n),
        b <= lg_n,
    ensures
        fft_layers(v, s, a, b) == fft_layers(v, t, a, b),
    decreases b,
{
    if b > a {
        lemma_same_rows(v, s, t, lg_n, a, (b - 1) as nat);
        assert(s[b - 1]@ == t[b - 1]@);
    }
}

/// What a transform leaves is fixed to the word, with a table or without one.
pub proof fn lemma_fft_determined<F: Packable>(
    before: Seq<F>,
    first: Seq<F>,
    second: Seq<F>,
    zero_factor: Option<usize>,
    root_table: Option<&FftRootTable<F>>,
)
    requires
        fft_ready(before.len(), zero_factor, root_table),
        fft_done(before, first, zero_factor, root_table),
        fft_done(before, second, zero_factor, root_table),
    ensures
        first == second,
{
    let lg_n = log2(before.len());
    let r = zero_factor_of(zero_factor);
    if root_table is None {
        let s = choose|table: Seq<Vec<F>>| #[trigger]
            is_root_table(table, lg_n) && first == fft_words(before, table, r, lg_n);
        let t = choose|table: Seq<Vec<F>>| #[trigger]
            is_root_table(table, lg_n) && second == fft_words(before, table, r, lg_n);
        lemma_same_rows(fft_expand(before, r, lg_n), s, t, lg_n, r, lg_n);
    }
}

fn fft_dispatch<F: Packable>(
    input: &mut [F],
    zero_factor: Option<usize>,
    root_table: Option<&FftRootTable<F>>,
)
    requires
        fft_ready(old(input)@.len(), zero_factor, root_table),
    ensures
        fft_done(old(input)@, final(input)@, zero_factor, root_table),
{
    let ghost before = input@;
    let ghost lg_n = log2(before.len());
    let r: usize = match zero_factor {
        Some(r) => r,
        None => 0,
    };
    proof {
        let k = choose|k: nat| pow2(k) == before.len();
        lemma_log2(k);
        F::lemma_values(F::s_const(0));
    }
    match root_table {
        Some(table) => {
            fft_classic(input, r, table);
            proof {
                if table_ok(table@, lg_n) {
                    lemma_fft_words(before, table@, r as nat, lg_n);
                }
            }
        },
        None => {
            let table = fft_root_table(input.len());
            fft_classic(input, r, &table);
            proof {
                lemma_fft_words(before, table@, r as nat, lg_n);
            }
        },
    }
    proof {
        assert(vals(input@).len() == input@.len());
        match root_table {
            Some(table) => {
                lemma_layers_len(fft_expand(before, r as nat, lg_n), table@, r as nat, lg_n);
            },
            None => {},
        }
    }
}

/// Computes a transform in the caller's buffer.
pub fn fft_in_place_with_options<F: Packable>(
    buffer: &mut [F],
    zero_factor: Option<usize>,
    root_table: Option<&FftRootTable<F>>,
)
    requires
        fft_ready(old(buffer)@.len(), zero_factor, root_table),
    ensures
        fft_done(old(buffer)@, final(buffer)@, zero_factor, root_table),
{
    fft_dispatch(buffer, zero_factor, root_table);
}

/// The values of a polynomial on the subgroup of as many elements as it has coefficients.
pub fn fft<F: Packable>(poly: PolynomialCoeffs<F>) -> (r: PolynomialValues<F>)
    requires
        is_power_of_two(poly.coeffs@.len()),
        log2(poly.coeffs@.len()) <= F::two_adicity(),
    ensures
        fft_done(poly.coeffs@, r.values@, None, None),
        vals(r.values@) == dft(vals(poly.coeffs@), log2(poly.coeffs@.len())),
{
    let ghost before = poly.coeffs@;
    let r = fft_with_options(poly, None, None);
    proof {
        let k = choose|k: nat| pow2(k) == before.len();
        lemma_log2(k);
        lemma_padded_id(vals(before), before.len() as int);
    }
    r
}

/// The values of a polynomial, with the padding and the table that the options say.
pub fn fft_with_options<F: Packable>(
    poly: PolynomialCoeffs<F>,
    zero_factor: Option<usize>,
    root_table: Option<&FftRootTable<F>>,
) -> (r: PolynomialValues<F>)
    requires
        fft_ready(poly.coeffs@.len(), zero_factor, root_table),
    ensures
        fft_done(poly.coeffs@, r.values@, zero_factor, root_table),
{
    let mut buffer = poly.coeffs;
    fft_dispatch(buffer.as_mut_slice(), zero_factor, root_table);
    PolynomialValues::new(buffer)
}

/// The coefficients of the polynomial with the given values on the subgroup of that order.
pub fn ifft<F: Packable>(poly: PolynomialValues<F>) -> (r: PolynomialCoeffs<F>)
    requires
        is_power_of_two(poly.values@.len()),
        log2(poly.values@.len()) <= F::two_adicity(),
    ensures
        exists|forward: Seq<F>| #[trigger]
            fft_done(poly.values@, forward, None, None) && r.coeffs@ == Seq::new(
                forward.len(),
                |i: int| ifft_word(forward, i),
            ),
        vals(r.coeffs@) == idft(vals(poly.values@), log2(poly.values@.len())),
{
    let ghost before = poly.values@;
    let r = ifft_with_options(poly, None, None);
    proof {
        let k = choose|k: nat| pow2(k) == before.len();
        lemma_log2(k);
        lemma_padded_id(vals(before), before.len() as int);
        let forward = choose|forward: Seq<F>| #[trigger]
            fft_done(before, forward, None, None) && forall|i: int|
            0 <= i < r.coeffs@.len() ==> (#[trigger] r.coeffs@[i]) == ifft_word(forward, i)
                && r.coeffs@[i].v() == forward[mirrored(i, before.len() as int)].v() * inv_pow2(
                log2(before.len()),
            );
        assert(r.coeffs@ =~= Seq::new(forward.len(), |i: int| ifft_word(forward, i)));
        assert(fft_done(before, forward, None, None));
    }
    r
}

/// The index that an inverse transform reads for its entry `i`.
pub open spec fn mirrored(i: int, n: int) -> int {
    if i == 0 {
        0
    } else {
        n - i
    }
}

/// The word of entry `i` of an inverse transform, from the words of the forward transform: the
/// mirrored entry divided by the number of entries. A single entry is divided by one twice.
pub open spec fn ifft_word<F: Field>(forward: Seq<F>, i: int) -> F {
    let n_inv = F::s_halves(log2(forward.len()));
    let word = forward[mirrored(i, forward.len() as int)].s_mul(n_inv);
    if forward.len() == 1 {
        word.s_mul(n_inv)
    } else {
        word
    }
}

/// The inverse transform, with the padding and the table that the options say: every entry
/// but the first comes from the mirrored entry of the forward transform, and all are divided by
/// their number.
pub fn ifft_with_options<F: Packable>(
    poly: PolynomialValues<F>,
    zero_factor: Option<usize>,
    root_table: Option<&FftRootTable<F>>,
) -> (r: PolynomialCoeffs<F>)
    requires
        fft_ready(poly.values@.len(), zero_factor, root_table),
    ensures
        r.coeffs@.len() == poly.values@.len(),
        exists|forward: Seq<F>| #[trigger]
            fft_done(poly.values@, forward, zero_factor, root_table) && forall|i: int|
            0 <= i < r.coeffs@.len() ==> (#[trigger] r.coeffs@[i]) == ifft_word(forward, i)
                && r.coeffs@[i].v() == forward[mirrored(i, poly.values@.len() as int)].v()
                * inv_pow2(log2(poly.values@.len())),
        root_table is None || table_ok(root_table->0@, log2(poly.values@.len())) ==> vals(r.coeffs@)
            == idft(
            padded(
                vals(poly.values@),
                pow2((log2(poly.values@.len()) - zero_factor_of(zero_factor)) as nat) as int,
            ),
            log2(poly.values@.len()),
        ),
{
    let ghost before = poly.values@;
    let n: usize = poly.len();
    let lg_n: usize = log2_strict(n);
    let n_inv = F::inverse_2exp(lg_n);
    let mut buffer = poly.values;
    fft_dispatch(buffer.as_mut_slice(), zero_factor, root_table);
    let ghost forward = buffer@;
    proof {
        vstd::arithmetic::power2::lemma_pow2_pos(lg_n as nat);
        F::lemma_ops(forward[0], n_inv);
    }
    let first = buffer[0].mul(n_inv);
    buffer[0] = first;
    let half: usize = n / 2;
    proof {
        F::lemma_ops(buffer@[half as int], n_inv);
        if n == 1 {
            lemma_pow2_basics();
            lemma_pow2_injective(0, lg_n as nat);
            F::lemma_values(first);
            F::lemma_values(forward[0]);
            lemma_mul_one_zero(forward[0].v());
        } else {
            lemma_pow2_basics();
            lemma_pow2_double((lg_n - 1) as nat);
        }
    }
    let middle = buffer[half].mul(n_inv);
    buffer[half] = middle;
    let mut i: usize = 1;
    while i < half
        invariant
            1 <= i,
            i <= half || half <= 1,
            n == buffer@.len() == forward.len(),
            half == n / 2,
            n == 1 || n == 2 * half,
            n_inv.v() == inv_pow2(lg_n as nat),
            n_inv == F::s_halves(lg_n as nat),
            lg_n == log2(forward.len()),
            forall|k: int|
                #![trigger buffer@[k]]
                0 <= k < n ==> if k == 0 || k == half || k < i || n - k < i {
                    buffer@[k].v() == forward[mirrored(k, n as int)].v() * inv_pow2(lg_n as nat)
                        && buffer@[k] == ifft_word(forward, k)
                } else {
                    buffer@[k] == forward[k]
                },
        decreases half - i,
    {
        let j: usize = n - i;
        let coeffs_i = buffer[j].mul(n_inv);
        let coeffs_j = buffer[i].mul(n_inv);
        proof {
            F::lemma_ops(buffer@[j as int], n_inv);
            F::lemma_ops(buffer@[i as int], n_inv);
        }
        buffer[i] = coeffs_i;
        buffer[j] = coeffs_j;
        i = i + 1;
    }
    proof {
        assert(fft_done(before, forward, zero_factor, root_table));
        assert forall|k: int| 0 <= k < n implies (#[trigger] buffer@[k]) == ifft_word(forward, k)
            && buffer@[k].v() == forward[mirrored(k, n as int)].v() * inv_pow2(lg_n as nat) by {}
        if root_table is None || table_ok(root_table->0@, lg_n as nat) {
            let c = padded(
                vals(before),
                pow2((lg_n - zero_factor_of(zero_factor)) as nat) as int,
            );
            assert(vals(forward) == dft(c, lg_n as nat));
            assert forall|k: int| 0 <= k < n implies #[trigger] vals(buffer@)[k] == idft(
                c,
                lg_n as nat,
            )[k] by {
                assert(buffer@[k].v() == vals(forward)[mirrored(k, n as int)] * inv_pow2(
                    lg_n as nat,
                ));
            }
            assert(vals(buffer@) =~= idft(c, lg_n as nat));
        }
    }
    PolynomialCoeffs { coeffs: buffer }
}

} // verus!
