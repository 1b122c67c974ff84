//! Fermat's little theorem for the order of the Goldilocks field, and that the quadratic extension
//! is a field: it has no divisors of zero.

use crate::field::dft::{lemma_mul_neg_one, lemma_root_half};
use crate::field::goldilocks_field::POWER_OF_TWO_GENERATOR;
use crate::field::model::{
    Elt, base, elt0, elt1, group_elt_wf, lemma_mul_assoc, lemma_mul_comm, lemma_mul_one_zero,
    lemma_reduced_mul, lemma_reduced_self, lemma_reduced_sub, lemma_sub_zero_iff, modulus, neg,
    reduced,
};
use crate::field::prime::{lemma_base_no_zero_divisors, lemma_inverse_exists, lemma_power_base};
use crate::field::roots::{
    lemma_mul_shuffle, lemma_power_add, lemma_power_mul, lemma_power_small, lemma_root_values,
    power,
};
use crate::util::bits::lemma_pow2_double;
use vstd::arithmetic::div_mod::*;
use vstd::arithmetic::power::*;
use vstd::arithmetic::power2::pow2;
use vstd::prelude::*;

verus! {

/// The number of ways to choose `k` of `n` things.
pub open spec fn binomial(n: nat, k: nat) -> nat
    decreases n,
{
    if k == 0 {
        1
    } else if n == 0 {
        0
    } else {
        binomial((n - 1) as nat, (k - 1) as nat) + binomial((n - 1) as nat, k)
    }
}

/// `k` times a binomial coefficient is `n` times a smaller one.
proof fn lemma_absorb(n: nat, k: nat)
    requires
        n >= 1,
        k >= 1,
    ensures
        k * binomial(n, k) == n * binomial((n - 1) as nat, (k - 1) as nat),
    decreases n,
{
    let m = (n - 1) as nat;
    let j = (k - 1) as nat;
    if n == 1 {
        assert(binomial(1, k) == binomial(0, j) + binomial(0, k));
        if k > 1 {
            assert(binomial(1, k) == 0 && binomial(0, j) == 0);
            assert(k * binomial(1, k) == 0) by (nonlinear_arith)
                requires
                    binomial(1, k) == 0,
            ;
        } else {
            assert(binomial(1, 1) == 1 && binomial(0, 0) == 1);
        }
    } else {
        lemma_absorb(m, k);
        let a = binomial((m - 1) as nat, j) as int;
        if k == 1 {
            assert(a == 1 && binomial(m, 0) == 1);
            assert(1 * binomial(m, 1) == m * 1);
            assert(binomial(n, 1) == binomial(m, 0) + binomial(m, 1));
            assert(m * 1 == m && n * 1 == n);
            assert(k * binomial(n, k) == n);
        } else {
            lemma_absorb(m, j);
            let b = binomial((m - 1) as nat, (j - 1) as nat) as int;
            let (c, d) = (binomial(m, j) as int, binomial(m, k) as int);
            assert(c == b + a);
            assert(binomial(n, k) == c + d);
            assert(k * (c + d) == n * c) by (nonlinear_arith)
                requires
                    k * d == m * a,
                    j * c == m * b,
                    c == b + a,
                    k == j + 1,
                    n == m + 1,
            ;
        }
    }
}

proof fn lemma_binomial_ends(n: nat)
    ensures
        binomial(n, n) == 1,
        forall|k: nat| k > n ==> #[trigger] binomial(n, k) == 0,
    decreases n,
{
    if n > 0 {
        lemma_binomial_ends((n - 1) as nat);
        assert(binomial((n - 1) as nat, n) == 0);
        assert forall|k: nat| k > n implies #[trigger] binomial(n, k) == 0 by {
            assert(binomial((n - 1) as nat, (k - 1) as nat) == 0);
            assert(binomial((n - 1) as nat, k) == 0);
        }
    }
}

/// The order of the field divides its binomial coefficients but the outer ones.
proof fn lemma_binomial_divisible(k: nat)
    requires
        0 < k < modulus(),
    ensures
        binomial(modulus() as nat, k) as int % modulus() == 0,
{
    let p = modulus();
    let b = binomial(p as nat, k) as int;
    let c = binomial((p - 1) as nat, (k - 1) as nat) as int;
    lemma_absorb(p as nat, k);
    lemma_mod_multiples_basic(c, p);
    assert(c * p == p * c) by (nonlinear_arith);
    lemma_reduced_mul(k as int, 0, b, 0);
    assert(k * 0 == 0 && 0 * b == 0);
    lemma_small_mod(0, p as nat);
    assert(base(k as int) * base(b) == elt0());
    lemma_small_mod(k, p as nat);
    lemma_base_no_zero_divisors(base(k as int), base(b));
}

/// The first `k` terms of the binomial expansion of `(x + 1)^n`.
spec fn expansion(x: int, n: nat, k: nat) -> int
    decreases k,
{
    if k == 0 {
        0
    } else {
        expansion(x, n, (k - 1) as nat) + binomial(n, (k - 1) as nat) * pow(x, (k - 1) as nat)
    }
}

proof fn lemma_expansion_step(x: int, n: nat, k: nat)
    requires
        n >= 1,
    ensures
        expansion(x, n, k + 1) == expansion(x, (n - 1) as nat, k + 1) + x * expansion(
            x,
            (n - 1) as nat,
            k,
        ),
    decreases k,
{
    reveal(pow);
    let m = (n - 1) as nat;
    if k == 0 {
        assert(expansion(x, n, 1) == expansion(x, n, 0) + binomial(n, 0) * pow(x, 0));
        assert(expansion(x, m, 1) == expansion(x, m, 0) + binomial(m, 0) * pow(x, 0));
        assert(x * 0 == 0);
    } else {
        let j = (k - 1) as nat;
        lemma_expansion_step(x, n, j);
        let (a, b) = (binomial(m, j) as int, binomial(m, k) as int);
        let (y, z) = (pow(x, j), pow(x, k));
        assert(z == x * y);
        assert((a + b) * z == b * z + x * (a * y)) by (nonlinear_arith)
            requires
                z == x * y,
        ;
        let e = expansion(x, m, j);
        assert(x * (e + a * y) == x * e + x * (a * y)) by (nonlinear_arith);
    }
}

proof fn lemma_binomial_theorem(x: int, n: nat)
    ensures
        pow(x + 1, n) == expansion(x, n, n + 1),
    decreases n,
{
    reveal(pow);
    if n == 0 {
        assert(expansion(x, 0, 1) == expansion(x, 0, 0) + binomial(0, 0) * pow(x, 0));
    } else {
        let m = (n - 1) as nat;
        lemma_binomial_theorem(x, m);
        lemma_expansion_step(x, n, n);
        lemma_binomial_ends(m);
        assert(0 * pow(x, n) == 0);
        let e = expansion(x, m, n);
        assert((x + 1) * e == e + x * e) by (nonlinear_arith);
    }
}

proof fn lemma_expansion_mod(x: int, k: nat)
    requires
        1 <= k <= modulus(),
    ensures
        expansion(x, modulus() as nat, k) % modulus() == 1,
    decreases k,
{
    let p = modulus();
    reveal(pow);
    if k == 1 {
        assert(expansion(x, p as nat, 1) == expansion(x, p as nat, 0) + binomial(p as nat, 0) * pow(
            x,
            0,
        ));
        lemma_small_mod(1, p as nat);
    } else {
        let j = (k - 1) as nat;
        lemma_expansion_mod(x, j);
        lemma_binomial_divisible(j);
        let (b, y) = (binomial(p as nat, j) as int, pow(x, j));
        lemma_mul_mod_noop_left(b, y, p);
        assert(0 * y == 0);
        lemma_small_mod(0, p as nat);
        lemma_add_mod_noop(expansion(x, p as nat, j), b * y, p);
        lemma_small_mod(1, p as nat);
    }
}

/// Fermat's little theorem: `x^p` and `x` leave the same rest.
pub proof fn lemma_fermat(x: int)
    requires
        x >= 0,
    ensures
        pow(x, modulus() as nat) % modulus() == x % modulus(),
    decreases x,
{
    let p = modulus();
    if x == 0 {
        lemma0_pow(p as nat);
    } else {
        let y = x - 1;
        lemma_fermat(y);
        lemma_binomial_theorem(y, p as nat);
        lemma_expansion_mod(y, p as nat);
        lemma_binomial_ends(p as nat);
        let (e, z) = (expansion(y, p as nat, p as nat), pow(y, p as nat));
        assert(pow(x, p as nat) == e + 1 * z);
        lemma_add_mod_noop(e, z, p);
        lemma_add_mod_noop(1, y, p);
        lemma_small_mod(1, p as nat);
    }
}

/// `-1` to an odd power.
proof fn lemma_power_minus_one(m: nat)
    requires
        m % 2 == 1,
    ensures
        power(neg(elt1()), m) == neg(elt1()),
    decreases m,
{
    let e = neg(elt1());
    lemma_mul_neg_one(elt1());
    lemma_mul_one_zero(elt1());
    lemma_mul_neg_one(e);
    if m == 1 {
        lemma_power_small(e);
    } else {
        let k = (m - 2) as nat;
        lemma_power_minus_one(k);
        lemma_power_add(e, k, 2);
        lemma_power_small(e);
        lemma_mul_one_zero(e);
    }
}

/// No element of the prime field has the generator of the subgroup of order `2^32` as its square.
proof fn lemma_generator_not_square(s: int)
    requires
        0 <= s < modulus(),
    ensures
        base(s) * base(s) != base(POWER_OF_TWO_GENERATOR as int),
{
    broadcast use group_elt_wf;

    let p = modulus();
    let x = base(s);
    if x * x == base(POWER_OF_TWO_GENERATOR as int) {
        let h = pow2(31);
        vstd::arithmetic::power2::lemma2_to64();
        lemma_root_half(32);
        lemma_root_values();
        // x^(2^32) == -1
        lemma_power_small(x);
        lemma_power_mul(x, 2, h);
        lemma_pow2_double(31);
        assert(power(x, pow2(32)) == neg(elt1()));
        // x^p == (-1)^(2^32 - 1) * x == -x
        let m = (pow2(32) - 1) as nat;
        lemma_power_mul(x, pow2(32), m);
        lemma_power_minus_one(m);
        lemma_power_add(x, pow2(32) * m, 1);
        assert(pow2(32) * m + 1 == p);
        lemma_mul_comm(neg(elt1()), x);
        lemma_mul_neg_one(x);
        assert(power(x, p as nat) == neg(x));
        // x^p == x
        lemma_power_base(s, p as nat);
        lemma_fermat(s);
        assert(neg(x) == x);
        lemma_small_mod(s as nat, p as nat);
        lemma_reduced_self(x);
        lemma_reduced_sub(0, 0, s, 0);
        assert(elt0() == reduced(0, 0));
        assert((-s) % p == s);
        if s != 0 {
            assert((-s) % p == p - s) by {
                lemma_fundamental_div_mod_converse(-s, p, -1, p - s);
            }
        }
        assert(s == 0);
        lemma_reduced_mul(0, 0, 0, 0);
        lemma_small_mod(POWER_OF_TWO_GENERATOR as nat, p as nat);
    }
}

/// Seven is no square in the prime field: no two elements but zeros have squares in that ratio.
proof fn lemma_norm_nonzero(a: Elt)
    requires
        a.wf(),
        a != elt0(),
    ensures
        base(a.re * a.re - 7 * (a.im * a.im)) != elt0(),
{
    broadcast use group_elt_wf;

    let p = modulus();
    let (u, v) = (base(a.re), base(a.im));
    lemma_small_mod(a.re as nat, p as nat);
    lemma_small_mod(a.im as nat, p as nat);
    lemma_reduced_mul(a.re, 0, a.re, 0);
    lemma_reduced_mul(a.im, 0, a.im, 0);
    assert(a.re * 0 == 0 && 0 * a.re == 0 && a.im * 0 == 0 && 0 * a.im == 0);
    let seven = base(7);
    lemma_reduced_mul(7, 0, a.im * a.im, 0);
    assert(7 * 0 == 0 && 0 * (a.im * a.im) == 0);
    lemma_reduced_sub(a.re * a.re, 0, 7 * (a.im * a.im), 0);
    let norm = base(a.re * a.re - 7 * (a.im * a.im));
    assert(norm == u * u - seven * (v * v));
    if norm == elt0() {
        lemma_sub_zero_iff(u * u, seven * (v * v));
        if a.im == 0 {
            lemma_mul_one_zero(v);
            lemma_mul_one_zero(seven);
            lemma_base_no_zero_divisors(u, u);
            assert(a == elt0());
        } else {
            let r = lemma_inverse_exists(a.im);
            let w = base(r);
            let g: int = 7226896044987257365;
            let k = base(g);
            // (u w k)^2 == 7 (v w)^2 k^2 == 7 k^2, which is the generator
            let t = u * w;
            lemma_mul_shuffle(u, w, u, w);
            lemma_mul_assoc(seven, v * v, w * w);
            lemma_mul_shuffle(v, v, w, w);
            lemma_mul_one_zero(elt1());
            lemma_mul_one_zero(seven);
            assert(t * t == seven);
            let s = t * k;
            lemma_mul_shuffle(t, k, t, k);
            lemma_reduced_mul(g, 0, g, 0);
            lemma_reduced_mul(7, 0, g * g, 0);
            assert(g * 0 == 0 && 0 * g == 0 && 0 * (g * g) == 0);
            assert((7int * (7226896044987257365int * 7226896044987257365int)) % modulus()
                == 7277203076849721926int);
            lemma_small_mod(7277203076849721926, p as nat);
            assert(s * s == base(POWER_OF_TWO_GENERATOR as int));
            // s lies in the prime field
            lemma_reduced_mul(a.re, 0, r, 0);
            assert(0 * r == 0);
            lemma_reduced_mul(a.re * r, 0, g, 0);
            assert((a.re * r) * 0 == 0);
            let n = ((a.re * r) * g) % p;
            lemma_mod_bound((a.re * r) * g, p);
            lemma_small_mod(n as nat, p as nat);
            assert(s == base(n));
            lemma_generator_not_square(n);
        }
    }
}

/// Every element of the extension but zero has an inverse.
pub proof fn lemma_extension_inverse_exists(a: Elt) -> (r: Elt)
    requires
        a.wf(),
        a != elt0(),
    ensures
        r.wf(),
        a * r == elt1(),
{
    broadcast use group_elt_wf;

    lemma_norm_nonzero(a);
    let conjugate = reduced(a.re, -a.im);
    lemma_reduced_self(a);
    lemma_reduced_mul(a.re, a.im, a.re, -a.im);
    let (x, y) = (a.re, a.im);
    assert(7 * (y * (-y)) == -(7 * (y * y)) && x * (-y) + y * x == 0) by (nonlinear_arith);
    let n = x * x - 7 * (y * y);
    assert(a * conjugate == base(n));
    lemma_small_mod(0, modulus() as nat);
    let i = lemma_inverse_exists(n);
    let r = conjugate * base(i);
    lemma_mul_assoc(a, conjugate, base(i));
    r
}

/// The extension is a field: it has no divisors of zero.
pub proof fn lemma_no_zero_divisors(a: Elt, b: Elt)
    requires
        a.wf(),
        b.wf(),
        a * b == elt0(),
    ensures
        a == elt0() || b == elt0(),
{
    broadcast use group_elt_wf;

    if a != elt0() {
        lemma_norm_nonzero(a);
        let conjugate = reduced(a.re, -a.im);
        lemma_reduced_self(a);
        lemma_reduced_mul(a.re, -a.im, a.re, a.im);
        let (x, y) = (a.re, a.im);
        assert(7 * ((-y) * y) == -(7 * (y * y)) && x * y + (-y) * x == 0) by (nonlinear_arith);
        let norm = base(x * x - 7 * (y * y));
        assert(conjugate * a == norm);
        lemma_mul_assoc(conjugate, a, b);
        lemma_mul_one_zero(conjugate);
        lemma_small_mod(0, modulus() as nat);
        lemma_base_no_zero_divisors(norm, b);
    }
}

} // verus!
