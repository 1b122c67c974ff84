//! Powers, roots of unity and inverses of powers of two.

use crate::field::model::{
    Elt, base, elt0, elt1, group_elt_wf, lemma_mul_assoc, lemma_mul_comm, lemma_mul_one_zero,
    lemma_reduced_mul, lemma_reduced_self, lemma_reduced_sub, modulus, neg, reduced,
};
use crate::util::bits::lemma_pow2_basics;
use vstd::arithmetic::power2::{lemma_pow2_unfold, pow2};
use vstd::prelude::*;

verus! {

/// `x^n`.
pub open spec fn power(x: Elt, n: nat) -> Elt
    decreases n,
{
    if n == 0 {
        elt1()
    } else {
        power(x, (n - 1) as nat) * x
    }
}

/// `x^(2^n)`, by repeated squaring.
#[verifier::opaque]
pub open spec fn square_iter(x: Elt, n: nat) -> Elt
    decreases n,
{
    if n == 0 {
        x
    } else {
        square_iter(x, (n - 1) as nat) * square_iter(x, (n - 1) as nat)
    }
}

/// A generator of the subgroup of order `2^33` of the extension.
pub open spec fn ext_root_generator() -> Elt {
    Elt { re: 0, im: 7226896044987257365 }
}

/// The primitive root of unity of order `2^k`, for `k <= 33`; in the prime field for `k <= 32`.
pub open spec fn root(k: nat) -> Elt {
    square_iter(ext_root_generator(), (33 - k) as nat)
}

/// Powers are reduced.
pub proof fn lemma_power_wf(x: Elt, n: nat)
    requires
        x.wf(),
    ensures
        power(x, n).wf(),
{
    broadcast use group_elt_wf;

    reveal_with_fuel(power, 1);
}

/// Exponents add up.
pub proof fn lemma_power_add(x: Elt, a: nat, b: nat)
    requires
        x.wf(),
    ensures
        power(x, a + b) == power(x, a) * power(x, b),
    decreases b,
{
    lemma_power_wf(x, a);
    if b == 0 {
        lemma_mul_one_zero(power(x, a));
    } else {
        let c = (b - 1) as nat;
        lemma_power_add(x, a, c);
        lemma_power_wf(x, c);
        lemma_mul_assoc(power(x, a), power(x, c), x);
        assert((a + b - 1) as nat == a + c);
    }
}

/// A power of a power.
pub proof fn lemma_power_mul(x: Elt, a: nat, b: nat)
    requires
        x.wf(),
    ensures
        power(power(x, a), b) == power(x, a * b),
    decreases b,
{
    if b == 0 {
        assert(a * 0 == 0);
    } else {
        let c = (b - 1) as nat;
        lemma_power_mul(x, a, c);
        lemma_power_add(x, a * c, a);
        assert(a * b == a * c + a) by (nonlinear_arith)
            requires
                b == c + 1,
        ;
    }
}

/// A power of a product.
pub proof fn lemma_power_of_product(x: Elt, y: Elt, n: nat)
    requires
        x.wf(),
        y.wf(),
    ensures
        power(x * y, n) == power(x, n) * power(y, n),
    decreases n,
{
    if n == 0 {
        lemma_mul_one_zero(elt1());
    } else {
        let c = (n - 1) as nat;
        lemma_power_of_product(x, y, c);
        lemma_power_wf(x, c);
        lemma_power_wf(y, c);
        lemma_mul_shuffle(power(x, c), power(y, c), x, y);
    }
}

/// `(a b) (c d) == (a c) (b d)`.
pub proof fn lemma_mul_shuffle(a: Elt, b: Elt, c: Elt, d: Elt)
    requires
        a.wf(),
        b.wf(),
        c.wf(),
        d.wf(),
    ensures
        (a * b) * (c * d) == (a * c) * (b * d),
{
    broadcast use group_elt_wf;

    lemma_mul_assoc(a, b, c * d);
    lemma_mul_assoc(b, c, d);
    lemma_mul_comm(b, c);
    lemma_mul_assoc(c, b, d);
    lemma_mul_assoc(a, c, b * d);
}

/// One to any power.
pub proof fn lemma_power_one(n: nat)
    ensures
        power(elt1(), n) == elt1(),
    decreases n,
{
    if n > 0 {
        lemma_power_one((n - 1) as nat);
        lemma_mul_one_zero(elt1());
    }
}

/// The first powers.
pub proof fn lemma_power_small(x: Elt)
    requires
        x.wf(),
    ensures
        power(x, 0) == elt1(),
        power(x, 1) == x,
        power(x, 2) == x * x,
{
    reveal_with_fuel(power, 3);
    lemma_mul_one_zero(x);
}

/// Repeated squaring is the power of a power of two.
pub proof fn lemma_square_iter(x: Elt, n: nat)
    requires
        x.wf(),
    ensures
        square_iter(x, n) == power(x, pow2(n)),
        square_iter(x, n).wf(),
    decreases n,
{
    reveal(square_iter);
    lemma_pow2_basics();
    lemma_power_small(x);
    lemma_power_wf(x, pow2(n));
    if n > 0 {
        let c = (n - 1) as nat;
        lemma_square_iter(x, c);
        lemma_pow2_unfold(n);
        lemma_power_add(x, pow2(c), pow2(c));
    }
}

/// Squarings add up.
pub proof fn lemma_square_iter_add(x: Elt, a: nat, b: nat)
    ensures
        square_iter(square_iter(x, a), b) == square_iter(x, a + b),
    decreases b,
{
    reveal(square_iter);
    if b > 0 {
        lemma_square_iter_add(x, a, (b - 1) as nat);
        assert((a + b - 1) as nat == a + (b - 1) as nat);
    }
}

/// Each root of unity is the square of the next finer one.
pub proof fn lemma_root_step(k: nat)
    requires
        k < 33,
    ensures
        root(k) == root(k + 1) * root(k + 1),
        root(k).wf(),
        root(k + 1).wf(),
{
    reveal(square_iter);
    lemma_square_iter(ext_root_generator(), (33 - k) as nat);
    lemma_square_iter(ext_root_generator(), (33 - k - 1) as nat);
    assert((33 - k - 1) as nat == (33 - (k + 1)) as nat);
}

proof fn lemma_square_step(j: nat, x: int, y: int)
    requires
        (x * x) % modulus() == y,
        0 <= x < modulus(),
        square_iter(ext_root_generator(), j) == base(x),
    ensures
        square_iter(ext_root_generator(), j + 1) == base(y),
{
    reveal(square_iter);
    lemma_reduced_mul(x, 0, x, 0);
    assert(x * 0 == 0 && 0 * x == 0);
    assert(base(y) == base(x * x));
}

proof fn lemma_generator_square()
    ensures
        square_iter(ext_root_generator(), 1) == base(7277203076849721926),
{
    let g = ext_root_generator();
    reveal_with_fuel(square_iter, 2);
    lemma_reduced_self(g);
    lemma_reduced_mul(0, 7226896044987257365, 0, 7226896044987257365);
    assert((7int * (7226896044987257365int * 7226896044987257365int)) % modulus()
        == 7277203076849721926int);
}

/// The roots of order `2^32`, `2` and `1`.
pub proof fn lemma_root_values()
    ensures
        root(32) == base(7277203076849721926),
        root(1) == neg(elt1()),
        root(0) == elt1(),
{
    lemma_generator_square();
    lemma_square_step(1, 0x64fdd1a46201e246, 0x30eaa905858b619f);
    lemma_square_step(2, 0x30eaa905858b619f, 0x1a708f62d4c6586b);
    lemma_square_step(3, 0x1a708f62d4c6586b, 0x231e5f6a3f50a6bb);
    lemma_square_step(4, 0x231e5f6a3f50a6bb, 0x1dcc93e918decf53);
    lemma_square_step(5, 0x1dcc93e918decf53, 0x44f8e4c2e7cbb309);
    lemma_square_step(6, 0x44f8e4c2e7cbb309, 0x3425b3e207b557bf);
    lemma_square_step(7, 0x3425b3e207b557bf, 0x7b3336e748ac4576);
    lemma_square_step(8, 0x7b3336e748ac4576, 0x259b60f3625bae63);
    lemma_square_step(9, 0x259b60f3625bae63, 0x5262aee151c7655e);
    lemma_square_step(10, 0x5262aee151c7655e, 0x70c12bc56d66855c);
    lemma_square_step(11, 0x70c12bc56d66855c, 0x5af3327dea3a8cb9);
    lemma_square_step(12, 0x5af3327dea3a8cb9, 0x1b5c0ad6b72db3a1);
    lemma_square_step(13, 0x1b5c0ad6b72db3a1, 0x7ca80b47ba4b38bd);
    lemma_square_step(14, 0x7ca80b47ba4b38bd, 0x2f57bb2f67816280);
    lemma_square_step(15, 0x2f57bb2f67816280, 0x4f5aafc1370cc51a);
    lemma_square_step(16, 0x4f5aafc1370cc51a, 0x71578c3fd9199c53);
    lemma_square_step(17, 0x71578c3fd9199c53, 0x1a0037386d98ca5e);
    lemma_square_step(18, 0x1a0037386d98ca5e, 0x62e4b94776c81aaa);
    lemma_square_step(19, 0x62e4b94776c81aaa, 0x3bcab9c3f9dde835);
    lemma_square_step(20, 0x3bcab9c3f9dde835, 0x3c713933c4eb986b);
    lemma_square_step(21, 0x3c713933c4eb986b, 0x7e785a6e2821983e);
    lemma_square_step(22, 0x7e785a6e2821983e, 0x3b0d463d6552a871);
    lemma_square_step(23, 0x3b0d463d6552a871, 0x594c6b9ef1635ca5);
    lemma_square_step(24, 0x594c6b9ef1635ca5, 0x3d212e8cbc8a1ed3);
    lemma_square_step(25, 0x3d212e8cbc8a1ed3, 0x1fffdfffe00);
    lemma_square_step(26, 0x1fffdfffe00, 0x8);
    lemma_square_step(27, 0x8, 0x40);
    lemma_square_step(28, 0x40, 0x1000);
    lemma_square_step(29, 0x1000, 0x1000000);
    lemma_square_step(30, 0x1000000, 0x1000000000000);
    lemma_square_step(31, 0x1000000000000, 0xffffffff00000000);
    assert(root(1) == base(0xffff_ffff_0000_0000));
    lemma_square_step(32, 0xffff_ffff_0000_0000, 1);
    lemma_reduced_sub(0, 0, 1, 0);
    assert(elt0() == reduced(0, 0) && elt1() == reduced(1, 0));
}

/// One half.
pub open spec fn half_elt() -> Elt {
    base(0x7fff_ffff_8000_0001)
}

/// The inverse of `2^k`.
pub open spec fn inv_pow2(k: nat) -> Elt {
    power(half_elt(), k)
}

/// `inv_pow2` is the inverse that its name says.
pub proof fn lemma_inv_pow2(k: nat)
    ensures
        base(pow2(k) as int) * inv_pow2(k) == elt1(),
        inv_pow2(k).wf(),
    decreases k,
{
    lemma_pow2_basics();
    lemma_power_wf(half_elt(), k);
    if k == 0 {
        lemma_mul_one_zero(elt1());
    } else {
        let c = (k - 1) as nat;
        lemma_inv_pow2(c);
        lemma_pow2_unfold(k);
        lemma_reduced_mul(pow2(c) as int, 0, 2, 0);
        assert(pow2(c) * 0 == 0 && 0 * 2 == 0);
        assert(base(pow2(k) as int) == base(pow2(c) as int) * base(2));
        lemma_reduced_mul(2, 0, 0x7fff_ffff_8000_0001, 0);
        assert(base(2) * half_elt() == elt1());
        lemma_mul_shuffle(base(pow2(c) as int), base(2), inv_pow2(c), half_elt());
        lemma_mul_one_zero(elt1());
    }
}

} // verus!
