//! The order of the Goldilocks field is prime, so every element but zero has an inverse.

use crate::field::dft::lemma_root_half;
use crate::field::goldilocks_field::POWER_OF_TWO_GENERATOR;
use crate::field::model::{
    Elt, base, elt0, elt1, lemma_mul_assoc, lemma_mul_comm, lemma_mul_one_zero, lemma_reduced_mul,
    lemma_reduced_self, lemma_reduced_sub, modulus, reduced,
};
use crate::field::roots::{lemma_root_values, power};
use crate::util::bits::{lemma_pow2_basics, lemma_pow2_double};
use vstd::arithmetic::div_mod::*;
use vstd::arithmetic::power::*;
use vstd::arithmetic::power2::{lemma_pow2_adds, pow2};
use vstd::prelude::*;
use vstd::set_lib::{lemma_int_range, lemma_len_subset, lemma_map_size, set_int_range};

verus! {

/// Powers in the prime field are reduced integer powers.
pub proof fn lemma_power_base(x: int, n: nat)
    ensures
        power(base(x), n) == base(pow(x, n)),
    decreases n,
{
    reveal(pow);
    if n > 0 {
        let m = (n - 1) as nat;
        lemma_power_base(x, m);
        lemma_reduced_mul(pow(x, m), 0, x, 0);
        assert(pow(x, m) * 0 == 0 && 0 * x == 0);
        assert(x * pow(x, m) == pow(x, m) * x) by (nonlinear_arith);
    }
}

proof fn lemma_generator_half()
    ensures
        pow(POWER_OF_TWO_GENERATOR as int, pow2(31)) % modulus() == modulus() - 1,
{
    lemma_root_half(32);
    lemma_root_values();
    lemma_power_base(POWER_OF_TWO_GENERATOR as int, pow2(31));
    lemma_reduced_sub(0, 0, 1, 0);
    assert(elt0() == reduced(0, 0) && elt1() == reduced(1, 0));
}

proof fn lemma_minus_one_odd(m: nat)
    requires
        m % 2 == 1,
    ensures
        pow(-1, m) == -1,
    decreases m,
{
    reveal(pow);
    if m > 1 {
        lemma_minus_one_odd((m - 2) as nat);
        assert(pow(-1, m) == -1 * pow(-1, (m - 1) as nat));
        assert(pow(-1, (m - 1) as nat) == -1 * pow(-1, (m - 2) as nat));
    } else {
        assert(pow(-1, 1) == -1 * pow(-1, 0));
    }
}

/// Modulo an odd number, the generator has no order below `2^32` if half way lies minus one.
proof fn lemma_order(q: int, k: nat, m: nat)
    requires
        q > 1,
        q % 2 == 1,
        pow(POWER_OF_TWO_GENERATOR as int, pow2(31)) % q == (-1) % q,
        k <= 31,
        0 < m < pow2((32 - k) as nat),
    ensures
        pow(POWER_OF_TWO_GENERATOR as int, pow2(k) * m) % q != 1,
    decreases m,
{
    let g = POWER_OF_TWO_GENERATOR as int;
    lemma_pow2_basics();
    lemma_pow2_double(k);
    if m % 2 == 1 {
        let e = pow2((31 - k) as nat);
        let x = pow(g, pow2(k) * m);
        if x % q == 1 {
            lemma_pow_mod_noop(x, e, q);
            lemma1_pow(e);
            lemma_small_mod(1, q as nat);
            assert(pow(x, e) % q == 1);
            lemma_pow_multiplies(g, pow2(k) * m, e);
            lemma_pow2_adds(k, (31 - k) as nat);
            assert((pow2(k) * m) * e == pow2(31) * m) by (nonlinear_arith)
                requires
                    pow2(k) * e == pow2(31),
            ;
            let y = pow(g, pow2(31));
            lemma_pow_multiplies(g, pow2(31), m);
            lemma_pow_mod_noop(y, m, q);
            lemma_pow_mod_noop(-1, m, q);
            lemma_minus_one_odd(m);
            assert(pow(y, m) % q == (-1) % q);
            lemma_mod_add_multiples_vanish(-1, q);
            lemma_small_mod((q - 1) as nat, q as nat);
            assert(false);
        }
    } else {
        let h = m / 2;
        lemma_pow2_double((31 - k) as nat);
        assert((32 - k) as nat == (31 - k) as nat + 1);
        if k == 31 {
            assert(pow2(1) == 2);
        }
        lemma_order(q, k + 1, h);
        assert(pow2(k + 1) * h == pow2(k) * m) by (nonlinear_arith)
            requires
                pow2(k + 1) == 2 * pow2(k),
                m == 2 * h,
        ;
        assert((32 - (k + 1)) as nat == (31 - k) as nat);
    }
}

/// The powers of the generator below the `2^32`-th differ modulo a divisor of the order.
proof fn lemma_powers_differ(q: int, i: nat, j: nat)
    requires
        q > 1,
        q % 2 == 1,
        pow(POWER_OF_TWO_GENERATOR as int, pow2(31)) % q == (-1) % q,
        i < j < pow2(32),
    ensures
        pow(POWER_OF_TWO_GENERATOR as int, i) % q != pow(POWER_OF_TWO_GENERATOR as int, j) % q,
{
    let g = POWER_OF_TWO_GENERATOR as int;
    let n = pow2(32);
    lemma_pow2_basics();
    lemma_pow2_double(31);
    if pow(g, i) % q == pow(g, j) % q {
        let m = (j - i) as nat;
        let c = (n - i) as nat;
        lemma_order(q, 0, m);
        assert(pow2(0) * m == m);
        // Multiplying by g^(n - i) turns the powers into g^n == 1 and g^(n + m) == g^m.
        lemma_pow_adds(g, i, c);
        lemma_pow_adds(g, j, c);
        lemma_pow_adds(g, n, m);
        assert(j + c == n + m);
        lemma_mul_mod_noop_left(pow(g, i), pow(g, c), q);
        lemma_mul_mod_noop_left(pow(g, j), pow(g, c), q);
        assert(pow(g, n) % q == pow(g, n + m) % q);
        let y = pow(g, pow2(31));
        lemma_pow_adds(g, pow2(31), pow2(31));
        lemma_mul_mod_noop_general(y, y, q);
        lemma_mul_mod_noop_general(-1, -1, q);
        lemma_small_mod(1, q as nat);
        assert(y * y == pow(g, n));
        assert(pow(g, n) % q == 1);
        lemma_mul_mod_noop_left(pow(g, n), pow(g, m), q);
        assert(pow(g, n + m) % q == pow(g, m) % q);
        assert(false);
    }
}

/// No number between `1` and `2^32` divides the order of the field.
proof fn lemma_divisor_is_large(q: int)
    requires
        q > 1,
        modulus() % q == 0,
    ensures
        q > 0x1_0000_0000,
{
    let g = POWER_OF_TWO_GENERATOR as int;
    let p = modulus();
    lemma_fundamental_div_mod(p, q);
    let t = p / q;
    assert(q % 2 == 1) by {
        if q % 2 == 0 {
            let h = q / 2;
            assert(p == 2 * (h * t)) by (nonlinear_arith)
                requires
                    p == q * t,
                    q == 2 * h,
            ;
        }
    }
    lemma_generator_half();
    let y = pow(g, pow2(31));
    lemma_fundamental_div_mod(y, p);
    let u = y / p;
    assert(y == -1 + (t * (u + 1)) * q) by (nonlinear_arith)
        requires
            y == p * u + (p - 1),
            p == q * t,
    ;
    lemma_mod_multiples_vanish(t * (u + 1), -1, q);
    assert(q * (t * (u + 1)) == (t * (u + 1)) * q) by (nonlinear_arith);
    assert(y % q == (-1) % q);
    vstd::arithmetic::power2::lemma2_to64();
    let n = 0x1_0000_0000int;
    assert(pow2(32) == n);
    let f = |i: int| pow(g, i as nat) % q;
    let s = set_int_range(0, n);
    let r = set_int_range(1, q);
    lemma_int_range(0, n);
    lemma_int_range(1, q);
    assert forall|i: int, j: int|
        s.contains(i) && s.contains(j) && #[trigger] f(i) == #[trigger] f(j) implies i == j by {
        if i < j {
            lemma_powers_differ(q, i as nat, j as nat);
        } else if j < i {
            lemma_powers_differ(q, j as nat, i as nat);
        }
    }
    assert(s.map(f).subset_of(r)) by {
        assert forall|z: int| s.map(f).contains(z) implies r.contains(z) by {
            let i = choose|i: int| s.contains(i) && f(i) == z;
            lemma_mod_bound(pow(g, i as nat), q);
            if z == 0 {
                lemma_power_nonzero(q, i as nat);
            }
        }
    }
    lemma_map_size(s, s.map(f), f);
    lemma_len_subset(s.map(f), r);
}

proof fn lemma_power_nonzero(q: int, i: nat)
    requires
        q > 1,
        q % 2 == 1,
        pow(POWER_OF_TWO_GENERATOR as int, pow2(31)) % q == (-1) % q,
        i < pow2(32),
    ensures
        pow(POWER_OF_TWO_GENERATOR as int, i) % q != 0,
{
    let g = POWER_OF_TWO_GENERATOR as int;
    lemma_pow2_double(31);
    let x = pow(g, i);
    if x % q == 0 {
        let n = pow2(32);
        let c = (n - i) as nat;
        lemma_pow_adds(g, i, c);
        lemma_mul_mod_noop_left(x, pow(g, c), q);
        assert(0 * pow(g, c) == 0);
        lemma_small_mod(0, q as nat);
        assert(pow(g, n) % q == 0);
        let y = pow(g, pow2(31));
        lemma_pow_adds(g, pow2(31), pow2(31));
        lemma_mul_mod_noop_general(y, y, q);
        lemma_mul_mod_noop_general(-1, -1, q);
        lemma_small_mod(1, q as nat);
        assert(false);
    }
}

/// The order of the field is prime.
pub proof fn lemma_modulus_is_prime(q: int)
    requires
        1 < q < modulus(),
    ensures
        modulus() % q != 0,
{
    let p = modulus();
    if p % q == 0 {
        lemma_divisor_is_large(q);
        lemma_fundamental_div_mod(p, q);
        let t = p / q;
        assert(t > 1) by (nonlinear_arith)
            requires
                p == q * t,
                0 < q < p,
        ;
        lemma_mod_multiples_basic(q, t);
        lemma_divisor_is_large(t);
        assert(q * t > 0x1_0000_0000 * 0x1_0000_0000) by (nonlinear_arith)
            requires
                q > 0x1_0000_0000,
                t > 0x1_0000_0000,
        ;
    }
}

/// Every common divisor of `a` and `b` divides `c`.
pub open spec fn divides_common(a: int, b: int, c: int) -> bool {
    forall|d: int| d > 0 && #[trigger] (a % d) == 0 && b % d == 0 ==> c % d == 0
}

/// A step of the Euclidean algorithm keeps what the common divisors divide.
pub proof fn lemma_euclid_step(a: int, b: int, c: int)
    requires
        b > 0,
        divides_common(a, b, c),
    ensures
        divides_common(b, a % b, c),
{
    assert forall|d: int| d > 0 && #[trigger] (b % d) == 0 && (a % b) % d == 0 implies c % d
        == 0 by {
        lemma_fundamental_div_mod(a, b);
        let t = a / b;
        lemma_mul_mod_noop_left(b, t, d);
        assert(0 * t == 0);
        lemma_small_mod(0, d as nat);
        lemma_add_mod_noop(b * t, a % b, d);
        assert(a % d == 0);
    }
}

/// What the Euclidean algorithm ends with on the order and a smaller number is one.
pub proof fn lemma_euclid_end(g: int, x: int)
    requires
        0 < x < modulus(),
        g > 0,
        divides_common(g, 0, modulus()),
        divides_common(g, 0, x),
    ensures
        g == 1,
{
    lemma_mod_self_0(g);
    lemma_small_mod(0, g as nat);
    assert(g % g == 0);
    assert(modulus() % g == 0 && x % g == 0);
    lemma_fundamental_div_mod(x, g);
    let t = x / g;
    assert(g <= x) by (nonlinear_arith)
        requires
            x == g * t,
            x > 0,
            g > 0,
    ;
    if g > 1 {
        lemma_modulus_is_prime(g);
    }
}

proof fn lemma_bezout(x: int, a: int, b: int, s: int, t: int) -> (r: int)
    requires
        0 < x < modulus(),
        a > 0,
        b >= 0,
        a % modulus() == (s * x) % modulus(),
        b % modulus() == (t * x) % modulus(),
        divides_common(a, b, modulus()),
        divides_common(a, b, x),
    ensures
        (r * x) % modulus() == 1,
    decreases b,
{
    let p = modulus();
    if b == 0 {
        lemma_euclid_end(a, x);
        lemma_small_mod(1, p as nat);
        s
    } else {
        let q = a / b;
        lemma_fundamental_div_mod(a, b);
        lemma_euclid_step(a, b, p);
        lemma_euclid_step(a, b, x);
        lemma_mod_bound(a, b);
        let u = s - q * t;
        assert(a % b == a - q * b) by (nonlinear_arith)
            requires
                a == b * q + a % b,
        ;
        assert(u * x == s * x - q * (t * x)) by (nonlinear_arith)
            requires
                u == s - q * t,
        ;
        lemma_mul_mod_noop_right(q, b, p);
        lemma_mul_mod_noop_right(q, t * x, p);
        lemma_sub_mod_noop(a, q * b, p);
        lemma_sub_mod_noop(s * x, q * (t * x), p);
        lemma_bezout(x, b, a % b, t, u)
    }
}

/// Every element of the prime field but zero has an inverse.
pub proof fn lemma_inverse_exists(x: int) -> (r: int)
    requires
        x % modulus() != 0,
    ensures
        base(x) * base(r) == elt1(),
{
    let p = modulus();
    let y = x % p;
    lemma_mod_self_0(p);
    lemma_small_mod(0, p as nat);
    assert(0 * y == 0 && 1 * y == y);
    assert(divides_common(p, y, p));
    assert(divides_common(p, y, y));
    let r = lemma_bezout(y, p, y, 0, 1);
    lemma_reduced_mul(x, 0, r, 0);
    assert(x * 0 == 0 && 0 * r == 0);
    lemma_mul_mod_noop_left(x, r, p);
    assert(y * r == r * y) by (nonlinear_arith);
    r
}

/// The prime field has no divisors of zero.
pub proof fn lemma_base_no_zero_divisors(a: Elt, b: Elt)
    requires
        a.wf(),
        b.wf(),
        a.im == 0,
        a * b == elt0(),
    ensures
        a == elt0() || b == elt0(),
{
    if a != elt0() {
        lemma_small_mod(a.re as nat, modulus() as nat);
        let r = lemma_inverse_exists(a.re);
        lemma_reduced_self(a);
        let i = base(r);
        lemma_mul_comm(a, i);
        lemma_mul_assoc(i, a, b);
        lemma_mul_one_zero(i);
        lemma_mul_one_zero(b);
    }
}

} // verus!
