//! The two transforms undo each other.

use crate::field::dft::{
    all_wf, dft, eval_poly, eval_strided, idft, lemma_eval_split, lemma_eval_wf, lemma_eval_zero,
    lemma_padded_id, lemma_root_full, lemma_root_half, padded,
};
use crate::field::fft::mirrored;
use crate::field::model::{
    Elt, base, elt0, elt1, group_elt_wf, lemma_add_assoc, lemma_add_comm, lemma_add_zero,
    lemma_mul_assoc, lemma_mul_comm, lemma_mul_dist, lemma_mul_one_zero, lemma_reduced_add,
    lemma_sub_is_add_neg, lemma_sub_self, neg, reduced,
};
use crate::field::roots::{
    inv_pow2, lemma_inv_pow2, lemma_power_add, lemma_power_mul, lemma_power_of_product,
    lemma_power_one, lemma_power_wf, lemma_root_step, power, root,
};
use crate::util::bits::{lemma_pow2_basics, lemma_pow2_double};
use vstd::arithmetic::power2::{lemma_pow2_pos, pow2};
use vstd::prelude::*;

verus! {

/// The values of a polynomial at the first `n` powers of `a`.
spec fn transform(c: Seq<Elt>, a: Elt, n: nat) -> Seq<Elt> {
    Seq::new(n, |j: int| eval_poly(c, power(a, j as nat)))
}

spec fn ones(n: nat) -> Seq<Elt> {
    Seq::new(n, |j: int| elt1())
}

spec fn unit(m: int, n: nat) -> Seq<Elt> {
    Seq::new(
        n,
        |j: int|
            if j == m {
                elt1()
            } else {
                elt0()
            },
    )
}

spec fn geometric(u: Elt, n: nat) -> Seq<Elt> {
    Seq::new(n, |j: int| power(u, j as nat))
}

proof fn lemma_eval_linear(y: Seq<Elt>, z: Seq<Elt>, s: Seq<Elt>, t: Elt, a: int, len: nat, x: Elt)
    requires
        0 <= a,
        a + len <= y.len() == z.len() == s.len(),
        all_wf(y),
        all_wf(z),
        t.wf(),
        x.wf(),
        forall|j: int| 0 <= j < y.len() ==> #[trigger] s[j] == y[j] + t * z[j],
    ensures
        eval_strided(s, a, 1, len, x) == eval_strided(y, a, 1, len, x) + t * eval_strided(
            z,
            a,
            1,
            len,
            x,
        ),
    decreases len,
{
    broadcast use group_elt_wf;

    if len == 0 {
        lemma_mul_one_zero(t);
        lemma_add_zero(elt0());
    } else {
        let m = (len - 1) as nat;
        lemma_eval_linear(y, z, s, t, a + 1, m, x);
        let ey = eval_strided(y, a + 1, 1, m, x);
        let ez = eval_strided(z, a + 1, 1, m, x);
        lemma_eval_wf(y, a + 1, 1, m, x);
        lemma_eval_wf(z, a + 1, 1, m, x);
        lemma_mul_dist(x, ey, t * ez);
        lemma_mul_assoc(x, t, ez);
        lemma_mul_comm(x, t);
        lemma_mul_assoc(t, x, ez);
        lemma_mul_dist(t, z[a], x * ez);
        lemma_add_shuffle(y[a], t * z[a], x * ey, t * (x * ez));
    }
}

/// `(a + b) + (c + d) == (a + c) + (b + d)`.
pub proof fn lemma_add_shuffle(a: Elt, b: Elt, c: Elt, d: Elt)
    requires
        a.wf(),
        b.wf(),
        c.wf(),
        d.wf(),
    ensures
        (a + b) + (c + d) == (a + c) + (b + d),
{
    broadcast use group_elt_wf;

    lemma_add_assoc(a, b, c + d);
    lemma_add_assoc(b, c, d);
    lemma_add_comm(b, c);
    lemma_add_assoc(c, b, d);
    lemma_add_assoc(a, c, b + d);
}

proof fn lemma_eval_unit(m: int, n: nat, a: int, x: Elt)
    requires
        0 <= a <= n,
        0 <= m < n,
        x.wf(),
    ensures
        eval_strided(unit(m, n), a, 1, (n - a) as nat, x) == (if a <= m {
            power(x, (m - a) as nat)
        } else {
            elt0()
        }),
    decreases n - a,
{
    broadcast use group_elt_wf;

    if a < n {
        lemma_eval_unit(m, n, a + 1, x);
        lemma_mul_one_zero(x);
        lemma_add_zero(elt1());
        lemma_add_zero(elt0());
        if a < m {
            let e = (m - a - 1) as nat;
            lemma_power_wf(x, e);
            lemma_mul_comm(x, power(x, e));
            lemma_add_zero(x * power(x, e));
            assert((m - a) as nat == e + 1);
            assert(power(x, e + 1) == power(x, e) * x);
        }
        assert((n - a - 1) as nat == (n - (a + 1)) as nat);
    }
}

proof fn lemma_eval_geometric(u: Elt, n: nat, a: int, len: nat, x: Elt)
    requires
        u.wf(),
        x.wf(),
        0 <= a,
        a + len <= n,
    ensures
        eval_strided(geometric(u, n), a, 1, len, x) == power(u, a as nat) * eval_strided(
            ones(n),
            a,
            1,
            len,
            u * x,
        ),
    decreases len,
{
    broadcast use group_elt_wf;

    let p = power(u, a as nat);
    lemma_power_wf(u, a as nat);
    if len == 0 {
        lemma_mul_one_zero(p);
    } else {
        let m = (len - 1) as nat;
        lemma_eval_geometric(u, n, a + 1, m, x);
        let e = eval_strided(ones(n), a + 1, 1, m, u * x);
        lemma_eval_wf(ones(n), a + 1, 1, m, u * x);
        // p + x * ((p * u) * e) == p * (1 + (u * x) * e)
        assert(power(u, (a + 1) as nat) == p * u);
        lemma_mul_assoc(p, u, e);
        lemma_mul_assoc(x, p, u * e);
        lemma_mul_comm(x, p);
        lemma_mul_assoc(p, x, u * e);
        lemma_mul_assoc(x, u, e);
        lemma_mul_comm(x, u);
        lemma_mul_dist(p, elt1(), (u * x) * e);
        lemma_mul_one_zero(p);
    }
}

proof fn lemma_ones_stride(n: nat, a: int, d: int, len: nat, x: Elt)
    requires
        0 <= a,
        0 < d,
        len > 0 ==> a + (len - 1) * d < n,
    ensures
        eval_strided(ones(n), a, d, len, x) == eval_strided(ones(len), 0, 1, len, x),
    decreases len,
{
    if len > 0 {
        let m = (len - 1) as nat;
        assert((len - 1) * d >= 0) by (nonlinear_arith)
            requires
                len >= 1,
                d > 0,
        ;
        assert(m > 0 ==> a + d + (m - 1) * d == a + (len - 1) * d) by {
            assert((len - 1) * d == (len - 2) * d + d) by (nonlinear_arith);
        }
        lemma_ones_stride(n, a + d, d, m, x);
        lemma_ones_stride(len, 1, 1, m, x);
    }
}

/// The powers of a root of unity other than one add up to zero.
proof fn lemma_geometric_vanishes(lg_n: nat, e: int)
    requires
        lg_n <= 33,
        0 < e < pow2(lg_n),
    ensures
        eval_strided(ones(pow2(lg_n)), 0, 1, pow2(lg_n), power(root(lg_n), e as nat)) == elt0(),
    decreases lg_n,
{
    broadcast use group_elt_wf;

    lemma_pow2_basics();
    if lg_n == 0 {
        assert(false);
    } else {
        let l = (lg_n - 1) as nat;
        let h = pow2(l);
        let n = pow2(lg_n);
        lemma_pow2_double(l);
        lemma_root_half(lg_n);
        lemma_root_step(l);
        let y = power(root(lg_n), e as nat);
        lemma_power_wf(root(lg_n), e as nat);
        let c = ones(n);
        assert(all_wf(c));
        lemma_eval_split(c, 0, 1, h, y);
        lemma_ones_stride(n, 0, 2, h, y * y);
        lemma_ones_stride(n, 1, 2, h, y * y);
        let s = eval_strided(ones(h), 0, 1, h, y * y);
        lemma_eval_wf(ones(h), 0, 1, h, y * y);
        assert(eval_strided(c, 0, 1, n, y) == s + y * s);
        if e == h {
            lemma_mul_dist(s, elt0(), elt1());
            lemma_mul_one_zero(s);
            lemma_mul_comm(s, y);
            lemma_sub_is_add_neg(s, s);
            lemma_sub_self(s);
            assert(y * s == neg(s));
        } else {
            lemma_power_of_product(root(lg_n), root(lg_n), e as nat);
            assert(y * y == power(root(l), e as nat));
            lemma_root_full(l);
            if e < h {
                lemma_geometric_vanishes(l, e);
            } else {
                let f = (e - h) as nat;
                lemma_geometric_vanishes(l, f as int);
                lemma_power_add(root(l), f, h);
                lemma_power_wf(root(l), f);
                lemma_mul_one_zero(power(root(l), f));
                assert(power(root(l), e as nat) == power(root(l), f));
            }
            lemma_mul_one_zero(y);
            lemma_add_zero(elt0());
        }
    }
}

/// The powers of one add up to their number.
proof fn lemma_ones_sum(n: nat, a: int, len: nat)
    requires
        0 <= a,
        a + len <= n,
    ensures
        eval_strided(ones(n), a, 1, len, elt1()) == base(len as int),
    decreases len,
{
    broadcast use group_elt_wf;

    if len > 0 {
        let m = (len - 1) as nat;
        lemma_ones_sum(n, a + 1, m);
        lemma_eval_wf(ones(n), a + 1, 1, m, elt1());
        lemma_mul_one_zero(base(m as int));
        lemma_reduced_add(1, 0, m as int, 0);
        assert(elt1() == reduced(1, 0));
    }
}

/// A primitive root of unity and its inverse, as used by the two transforms.
spec fn mutual(a: Elt, b: Elt, n: nat) -> bool {
    &&& a.wf() && b.wf()
    &&& a * b == elt1()
    &&& forall|e: int|
        0 < e < n ==> eval_strided(ones(n), 0, 1, n, #[trigger] power(a, e as nat)) == elt0()
    &&& forall|e: int|
        0 < e < n ==> eval_strided(ones(n), 0, 1, n, #[trigger] power(b, e as nat)) == elt0()
}

proof fn lemma_mutual_sum(a: Elt, b: Elt, n: nat, m: int, i: int)
    requires
        mutual(a, b, n),
        0 <= m < n,
        0 <= i < n,
    ensures
        eval_strided(ones(n), 0, 1, n, power(a, m as nat) * power(b, i as nat)) == (if m == i {
            base(n as int)
        } else {
            elt0()
        }),
{
    broadcast use group_elt_wf;

    let (pm, pi) = (power(a, m as nat), power(b, i as nat));
    lemma_power_wf(a, m as nat);
    lemma_power_wf(b, i as nat);
    if m >= i {
        let e = (m - i) as nat;
        lemma_power_add(a, e, i as nat);
        lemma_power_wf(a, e);
        lemma_power_wf(a, i as nat);
        lemma_power_of_product(a, b, i as nat);
        lemma_power_one(i as nat);
        lemma_mul_assoc(power(a, e), power(a, i as nat), pi);
        lemma_mul_one_zero(power(a, e));
        assert(pm * pi == power(a, e));
        if m == i {
            lemma_ones_sum(n, 0, n);
        }
    } else {
        let e = (i - m) as nat;
        lemma_power_add(b, m as nat, e);
        lemma_power_wf(b, e);
        lemma_power_wf(b, m as nat);
        lemma_power_of_product(a, b, m as nat);
        lemma_power_one(m as nat);
        lemma_mul_assoc(pm, power(b, m as nat), power(b, e));
        lemma_mul_one_zero(power(b, e));
        assert(pm * pi == power(b, e));
    }
}

proof fn lemma_transform_prefix(c: Seq<Elt>, a: Elt, b: Elt, n: nat, m: int, i: int)
    requires
        c.len() == n,
        all_wf(c),
        mutual(a, b, n),
        0 <= m <= n,
        0 <= i < n,
    ensures
        eval_poly(transform(padded(c, m), a, n), power(b, i as nat)) == base(n as int) * padded(
            c,
            m,
        )[i],
    decreases m,
{
    broadcast use group_elt_wf;

    let x = power(b, i as nat);
    lemma_power_wf(b, i as nat);
    if m == 0 {
        let z = transform(padded(c, 0), a, n);
        assert forall|j: int| 0 <= j < n implies #[trigger] z[0 + j * 1] == elt0() by {
            lemma_power_wf(a, j as nat);
            lemma_eval_zero(padded(c, 0), 0, 1, n, power(a, j as nat));
        }
        lemma_eval_zero(z, 0, 1, n, x);
        lemma_mul_one_zero(base(n as int));
    } else {
        let k = m - 1;
        lemma_transform_prefix(c, a, b, n, k, i);
        let (c0, c1) = (padded(c, k), padded(c, m));
        let (y, s) = (transform(c0, a, n), transform(c1, a, n));
        let u = power(a, k as nat);
        let z = geometric(u, n);
        let t = c[k];
        lemma_power_wf(a, k as nat);
        assert forall|j: int| 0 <= j < n implies #[trigger] z[j].wf() by {
            lemma_power_wf(u, j as nat);
        }
        assert forall|j: int| 0 <= j < n implies #[trigger] y[j].wf() by {
            lemma_eval_wf(c0, 0, 1, n, power(a, j as nat));
        }
        assert forall|j: int| 0 <= j < n implies #[trigger] s[j] == y[j] + t * z[j] by {
            let p = power(a, j as nat);
            lemma_power_wf(a, j as nat);
            let w = unit(k, n);
            assert forall|q: int| 0 <= q < n implies #[trigger] c1[q] == c0[q] + t * w[q] by {
                lemma_mul_one_zero(t);
                lemma_add_zero(t);
                lemma_add_zero(c0[q]);
            }
            lemma_eval_linear(c0, w, c1, t, 0, n, p);
            lemma_eval_unit(k, n, 0, p);
            lemma_power_mul(a, j as nat, k as nat);
            lemma_power_mul(a, k as nat, j as nat);
            assert(j * k == k * j) by (nonlinear_arith);
        }
        lemma_eval_linear(y, z, s, t, 0, n, x);
        lemma_eval_geometric(u, n, 0, n, x);
        lemma_mutual_sum(a, b, n, k, i);
        let g = eval_strided(ones(n), 0, 1, n, u * x);
        lemma_eval_wf(ones(n), 0, 1, n, u * x);
        lemma_mul_one_zero(g);
        assert(eval_poly(z, x) == g);
        lemma_mul_one_zero(t);
        if i == k {
            lemma_mul_comm(t, base(n as int));
            lemma_mul_one_zero(base(n as int));
            lemma_add_zero(base(n as int) * t);
        } else {
            lemma_mul_one_zero(t);
            lemma_add_zero(base(n as int) * c0[i]);
        }
    }
}

proof fn lemma_transform_inverse(c: Seq<Elt>, a: Elt, b: Elt, n: nat, i: int)
    requires
        c.len() == n,
        all_wf(c),
        mutual(a, b, n),
        0 <= i < n,
    ensures
        eval_poly(transform(c, a, n), power(b, i as nat)) == base(n as int) * c[i],
{
    lemma_transform_prefix(c, a, b, n, n as int, i);
    lemma_padded_id(c, n as int);
}

/// The inverse of the root of unity, and its powers.
proof fn lemma_inverse_root(lg_n: nat)
    requires
        lg_n <= 33,
    ensures
        mutual(root(lg_n), power(root(lg_n), (pow2(lg_n) - 1) as nat), pow2(lg_n)),
        mutual(power(root(lg_n), (pow2(lg_n) - 1) as nat), root(lg_n), pow2(lg_n)),
        forall|i: int|
            0 <= i < pow2(lg_n) ==> #[trigger] power(
                power(root(lg_n), (pow2(lg_n) - 1) as nat),
                i as nat,
            ) == power(root(lg_n), mirrored(i, pow2(lg_n) as int) as nat),
{
    let n = pow2(lg_n);
    let a = root(lg_n);
    lemma_pow2_pos(lg_n);
    lemma_root_full(lg_n);
    let b = power(a, (n - 1) as nat);
    lemma_power_wf(a, (n - 1) as nat);
    assert(power(a, n) == b * a);
    lemma_mul_comm(a, b);
    assert forall|i: int| 0 <= i < n implies #[trigger] power(b, i as nat) == power(
        a,
        mirrored(i, n as int) as nat,
    ) by {
        lemma_power_mul(a, (n - 1) as nat, i as nat);
        if i == 0 {
            let m = (n - 1) as nat;
            assert(m * 0nat == 0) by (nonlinear_arith);
        } else {
            let e = (n - i) as nat;
            assert((n - 1) * i == n * (i - 1) + (n - i)) by (nonlinear_arith);
            assert(n * (i - 1) >= 0) by (nonlinear_arith)
                requires
                    i >= 1,
                    n >= 0,
            ;
            lemma_power_add(a, (n * (i - 1)) as nat, e);
            lemma_power_mul(a, n, (i - 1) as nat);
            lemma_power_one((i - 1) as nat);
            lemma_power_wf(a, e);
            lemma_mul_one_zero(power(a, e));
        }
    }
    assert forall|e: int| 0 < e < n implies eval_strided(
        ones(n),
        0,
        1,
        n,
        #[trigger] power(a, e as nat),
    ) == elt0() by {
        lemma_geometric_vanishes(lg_n, e);
    }
    assert forall|e: int| 0 < e < n implies eval_strided(
        ones(n),
        0,
        1,
        n,
        #[trigger] power(b, e as nat),
    ) == elt0() by {
        lemma_geometric_vanishes(lg_n, n - e);
    }
}

proof fn lemma_divide(n: nat, lg_n: nat, x: Elt)
    requires
        n == pow2(lg_n),
        x.wf(),
    ensures
        (base(n as int) * x) * inv_pow2(lg_n) == x,
{
    broadcast use group_elt_wf;

    lemma_inv_pow2(lg_n);
    lemma_mul_comm(base(n as int), x);
    lemma_mul_assoc(x, base(n as int), inv_pow2(lg_n));
    lemma_mul_one_zero(x);
}

/// The inverse transform recovers the coefficients from the values.
pub proof fn lemma_idft_of_dft(c: Seq<Elt>, lg_n: nat)
    requires
        lg_n <= 33,
        c.len() == pow2(lg_n),
        all_wf(c),
    ensures
        idft(dft(c, lg_n), lg_n) == c,
{
    let n = pow2(lg_n);
    let (a, b) = (root(lg_n), power(root(lg_n), (n - 1) as nat));
    lemma_inverse_root(lg_n);
    let y = dft(c, lg_n);
    assert(y =~= transform(c, a, n));
    assert forall|i: int| 0 <= i < n implies idft(y, lg_n)[i] == #[trigger] c[i] by {
        lemma_transform_inverse(c, a, b, n, i);
        assert(power(b, i as nat) == power(a, mirrored(i, n as int) as nat));
        lemma_divide(n, lg_n, c[i]);
    }
    assert(idft(y, lg_n) =~= c);
}

proof fn lemma_eval_scaled(y: Seq<Elt>, z: Seq<Elt>, t: Elt, x: Elt)
    requires
        y.len() == z.len(),
        all_wf(y),
        t.wf(),
        x.wf(),
        forall|j: int| 0 <= j < y.len() ==> #[trigger] z[j] == y[j] * t,
    ensures
        eval_poly(z, x) == eval_poly(y, x) * t,
{
    broadcast use group_elt_wf;

    let zero = Seq::new(y.len(), |j: int| elt0());
    assert forall|j: int| 0 <= j < y.len() implies #[trigger] z[j] == zero[j] + t * y[j] by {
        lemma_mul_comm(t, y[j]);
        lemma_add_zero(t * y[j]);
    }
    lemma_eval_linear(zero, y, z, t, 0, y.len(), x);
    assert forall|j: int| 0 <= j < y.len() implies #[trigger] zero[0 + j * 1] == elt0() by {}
    lemma_eval_zero(zero, 0, 1, y.len(), x);
    lemma_eval_wf(y, 0, 1, y.len(), x);
    lemma_add_zero(t * eval_poly(y, x));
    lemma_mul_comm(t, eval_poly(y, x));
}

/// The forward transform recovers the values from the coefficients.
pub proof fn lemma_dft_of_idft(y: Seq<Elt>, lg_n: nat)
    requires
        lg_n <= 33,
        y.len() == pow2(lg_n),
        all_wf(y),
    ensures
        dft(idft(y, lg_n), lg_n) == y,
{
    let n = pow2(lg_n);
    let (a, b) = (root(lg_n), power(root(lg_n), (n - 1) as nat));
    lemma_inverse_root(lg_n);
    lemma_inv_pow2(lg_n);
    let t = transform(y, b, n);
    let c = idft(y, lg_n);
    assert forall|j: int| 0 <= j < n implies #[trigger] t[j].wf() by {
        lemma_eval_wf(y, 0, 1, n, power(b, j as nat));
    }
    assert forall|j: int| 0 <= j < n implies #[trigger] c[j] == t[j] * inv_pow2(lg_n) by {
        assert(power(b, j as nat) == power(a, mirrored(j, n as int) as nat));
    }
    assert forall|i: int| 0 <= i < n implies dft(c, lg_n)[i] == #[trigger] y[i] by {
        lemma_power_wf(a, i as nat);
        lemma_eval_scaled(t, c, inv_pow2(lg_n), power(a, i as nat));
        lemma_transform_inverse(y, b, a, n, i);
        lemma_divide(n, lg_n, y[i]);
    }
    assert(dft(c, lg_n) =~= y);
}

} // verus!
