//! The algebraic model that every contract of this crate speaks about.
//!
//! An [`Elt`] is an element `re + im * X` of the ring `Z_p[X] / (X^2 - 7)` with
//! `p = 2^64 - 2^32 + 1`, written with both coordinates reduced. The prime field
//! itself is the part with `im == 0`.

use vstd::arithmetic::div_mod::*;
use vstd::prelude::*;

verus! {

/// The order of the Goldilocks field, `2^64 - 2^32 + 1`.
pub open spec fn modulus() -> int {
    0xffff_ffff_0000_0001
}

/// The constant `X^2` of the quadratic extension.
pub open spec fn ext_w() -> int {
    7
}

/// An element of the quadratic extension, in reduced coordinates.
pub struct Elt {
    pub re: int,
    pub im: int,
}

/// The element with the given, not necessarily reduced, coordinates.
pub open spec fn reduced(re: int, im: int) -> Elt {
    Elt { re: re % modulus(), im: im % modulus() }
}

/// The prime-field element `x mod p`.
pub open spec fn base(x: int) -> Elt {
    reduced(x, 0)
}

/// The additive identity.
pub open spec fn elt0() -> Elt {
    Elt { re: 0, im: 0 }
}

/// The multiplicative identity.
pub open spec fn elt1() -> Elt {
    Elt { re: 1, im: 0 }
}

impl Elt {
    /// Both coordinates are reduced.
    pub open spec fn wf(self) -> bool {
        0 <= self.re < modulus() && 0 <= self.im < modulus()
    }

    /// Addition, written `a + b`.
    #[verifier::opaque]
    pub open spec fn spec_add(self, rhs: Elt) -> Elt {
        reduced(self.re + rhs.re, self.im + rhs.im)
    }

    /// Subtraction, written `a - b`.
    #[verifier::opaque]
    pub open spec fn spec_sub(self, rhs: Elt) -> Elt {
        reduced(self.re - rhs.re, self.im - rhs.im)
    }

    /// Multiplication, written `a * b`.
    #[verifier::opaque]
    pub open spec fn spec_mul(self, rhs: Elt) -> Elt {
        reduced(
            self.re * rhs.re + ext_w() * (self.im * rhs.im),
            self.re * rhs.im + self.im * rhs.re,
        )
    }
}

/// The additive inverse.
pub open spec fn neg(a: Elt) -> Elt {
    elt0() - a
}

/// Sums of reduced elements are the reduced sums of any representatives.
pub proof fn lemma_reduced_add(a: int, b: int, c: int, d: int)
    ensures
        reduced(a, b) + reduced(c, d) == reduced(a + c, b + d),
{
    reveal(Elt::spec_add);
    lemma_add_mod_noop(a, c, modulus());
    lemma_add_mod_noop(b, d, modulus());
}

/// Differences of reduced elements are the reduced differences of any representatives.
pub proof fn lemma_reduced_sub(a: int, b: int, c: int, d: int)
    ensures
        reduced(a, b) - reduced(c, d) == reduced(a - c, b - d),
{
    reveal(Elt::spec_sub);
    lemma_sub_mod_noop(a, c, modulus());
    lemma_sub_mod_noop(b, d, modulus());
}

/// `x` and `y` have the same residue when they differ by a multiple of `p`.
pub proof fn lemma_cong(x: int, y: int, k: int)
    requires
        x == y + k * modulus(),
    ensures
        x % modulus() == y % modulus(),
{
    lemma_mod_multiples_vanish(k, y, modulus());
    assert(modulus() * k + y == x);
}

/// Products of reduced elements are the reduced products of any representatives.
pub proof fn lemma_reduced_mul(a: int, b: int, c: int, d: int)
    ensures
        reduced(a, b) * reduced(c, d) == reduced(a * c + ext_w() * (b * d), a * d + b * c),
{
    reveal(Elt::spec_mul);
    let p = modulus();
    let (a1, b1, c1, d1) = (a % p, b % p, c % p, d % p);
    let (a2, b2, c2, d2) = (a / p, b / p, c / p, d / p);
    lemma_fundamental_div_mod(a, p);
    lemma_fundamental_div_mod(b, p);
    lemma_fundamental_div_mod(c, p);
    lemma_fundamental_div_mod(d, p);
    lemma_product_cong(a, a1, a2, c, c1, c2);
    lemma_product_cong(b, b1, b2, d, d1, d2);
    lemma_product_cong(a, a1, a2, d, d1, d2);
    lemma_product_cong(b, b1, b2, c, c1, c2);
    let k1 = a1 * c2 + a2 * c1 + a2 * c2 * p;
    let k2 = b1 * d2 + b2 * d1 + b2 * d2 * p;
    let k3 = a1 * d2 + a2 * d1 + a2 * d2 * p;
    let k4 = b1 * c2 + b2 * c1 + b2 * c2 * p;
    lemma_cong(a * c + ext_w() * (b * d), a1 * c1 + ext_w() * (b1 * d1), k1 + ext_w() * k2);
    lemma_cong(a * d + b * c, a1 * d1 + b1 * c1, k3 + k4);
}

proof fn lemma_product_cong(x: int, x1: int, x2: int, y: int, y1: int, y2: int)
    requires
        x == modulus() * x2 + x1,
        y == modulus() * y2 + y1,
    ensures
        x * y == x1 * y1 + (x1 * y2 + x2 * y1 + x2 * y2 * modulus()) * modulus(),
{
    lemma_expand(modulus(), x1, x2, y1, y2);
}

proof fn lemma_expand(p: int, x1: int, x2: int, y1: int, y2: int)
    ensures
        (p * x2 + x1) * (p * y2 + y1) == x1 * y1 + (x1 * y2 + x2 * y1 + x2 * y2 * p) * p,
{
    let y = p * y2 + y1;
    assert((p * x2 + x1) * y == (p * x2) * y + x1 * y) by (nonlinear_arith);
    assert(x1 * y == x1 * (p * y2) + x1 * y1) by (nonlinear_arith)
        requires
            y == p * y2 + y1,
    ;
    assert((p * x2) * y == (p * x2) * (p * y2) + (p * x2) * y1) by (nonlinear_arith)
        requires
            y == p * y2 + y1,
    ;
    assert(x1 * (p * y2) == (x1 * y2) * p) by (nonlinear_arith);
    assert((p * x2) * (p * y2) == (x2 * y2 * p) * p) by (nonlinear_arith);
    assert((p * x2) * y1 == (x2 * y1) * p) by (nonlinear_arith);
    let (u, v, t) = (x1 * y2, x2 * y1, x2 * y2 * p);
    assert((u + v + t) * p == u * p + v * p + t * p) by (nonlinear_arith);
}

proof fn lemma_int_assoc(w: int, a0: int, a1: int, b0: int, b1: int, c0: int, c1: int)
    ensures
        (a0 * b0 + w * (a1 * b1)) * c0 + w * ((a0 * b1 + a1 * b0) * c1) == a0 * (b0 * c0 + w * (b1
            * c1)) + w * (a1 * (b0 * c1 + b1 * c0)),
        (a0 * b0 + w * (a1 * b1)) * c1 + (a0 * b1 + a1 * b0) * c0 == a0 * (b0 * c1 + b1 * c0) + a1
            * (b0 * c0 + w * (b1 * c1)),
{
    lemma_dist_two(a0 * b0, w * (a1 * b1), c0);
    lemma_dist_two(a0 * b0, w * (a1 * b1), c1);
    lemma_dist_two(a0 * b1, a1 * b0, c0);
    lemma_dist_two(a0 * b1, a1 * b0, c1);
    lemma_dist_two((a0 * b1) * c1, (a1 * b0) * c1, w);
    lemma_dist_two(b0 * c0, w * (b1 * c1), a0);
    lemma_dist_two(b0 * c0, w * (b1 * c1), a1);
    lemma_dist_two(b0 * c1, b1 * c0, a0);
    lemma_dist_two(b0 * c1, b1 * c0, a1);
    lemma_dist_two(a1 * (b0 * c1), a1 * (b1 * c0), w);
    vstd::arithmetic::mul::lemma_mul_is_associative(a0, b0, c0);
    vstd::arithmetic::mul::lemma_mul_is_associative(a0, b0, c1);
    vstd::arithmetic::mul::lemma_mul_is_associative(a0, b1, c0);
    vstd::arithmetic::mul::lemma_mul_is_associative(a0, b1, c1);
    vstd::arithmetic::mul::lemma_mul_is_associative(a1, b0, c0);
    vstd::arithmetic::mul::lemma_mul_is_associative(a1, b0, c1);
    vstd::arithmetic::mul::lemma_mul_is_associative(a1, b1, c0);
    vstd::arithmetic::mul::lemma_mul_is_associative(a1, b1, c1);
    vstd::arithmetic::mul::lemma_mul_is_associative(w, a1 * b1, c0);
    vstd::arithmetic::mul::lemma_mul_is_associative(w, a1 * b1, c1);
    let (m, n) = (b1 * c1, a1 * (b1 * c1));
    assert(a0 * (w * m) == w * (a0 * m)) by (nonlinear_arith);
    assert(a1 * (w * m) == w * (a1 * m)) by (nonlinear_arith);
}

proof fn lemma_dist_two(x: int, y: int, z: int)
    by (nonlinear_arith)
    ensures
        (x + y) * z == x * z + y * z,
        z * (x + y) == z * x + z * y,
{
}

/// A reduced element is the reduction of its own coordinates.
pub proof fn lemma_reduced_self(a: Elt)
    requires
        a.wf(),
    ensures
        reduced(a.re, a.im) == a,
{
    lemma_small_mod(a.re as nat, modulus() as nat);
    lemma_small_mod(a.im as nat, modulus() as nat);
}

/// Every operation returns a reduced element.
pub broadcast proof fn lemma_add_wf(a: Elt, b: Elt)
    ensures
        #[trigger] (a + b).wf(),
{
    reveal(Elt::spec_add);
}

/// Every operation returns a reduced element.
pub broadcast proof fn lemma_sub_wf(a: Elt, b: Elt)
    ensures
        #[trigger] (a - b).wf(),
{
    reveal(Elt::spec_sub);
}

/// Every operation returns a reduced element.
pub broadcast proof fn lemma_mul_wf(a: Elt, b: Elt)
    ensures
        #[trigger] (a * b).wf(),
{
    reveal(Elt::spec_mul);
}

pub broadcast group group_elt_wf {
    lemma_add_wf,
    lemma_sub_wf,
    lemma_mul_wf,
}

/// Addition is commutative.
pub proof fn lemma_add_comm(a: Elt, b: Elt)
    ensures
        a + b == b + a,
{
    reveal(Elt::spec_add);
}

/// Addition is associative.
pub proof fn lemma_add_assoc(a: Elt, b: Elt, c: Elt)
    requires
        a.wf(),
        b.wf(),
        c.wf(),
    ensures
        (a + b) + c == a + (b + c),
{
    lemma_reduced_self(a);
    lemma_reduced_self(b);
    lemma_reduced_self(c);
    lemma_reduced_add(a.re, a.im, b.re, b.im);
    lemma_reduced_add(b.re, b.im, c.re, c.im);
    lemma_reduced_add(a.re + b.re, a.im + b.im, c.re, c.im);
    lemma_reduced_add(a.re, a.im, b.re + c.re, b.im + c.im);
}

/// Zero is neutral for addition.
pub proof fn lemma_add_zero(a: Elt)
    requires
        a.wf(),
    ensures
        a + elt0() == a,
        elt0() + a == a,
        a - elt0() == a,
{
    reveal(Elt::spec_add);
    reveal(Elt::spec_sub);
    lemma_reduced_self(a);
}

/// An element minus itself is zero.
pub proof fn lemma_sub_self(a: Elt)
    ensures
        a - a == elt0(),
{
    reveal(Elt::spec_sub);
}

/// Subtraction undoes addition.
pub proof fn lemma_add_sub_cancel(a: Elt, b: Elt)
    requires
        a.wf(),
        b.wf(),
    ensures
        (a + b) - b == a,
        (a - b) + b == a,
        (b + a) - b == a,
{
    lemma_add_comm(a, b);
    lemma_reduced_self(a);
    lemma_reduced_self(b);
    lemma_reduced_add(a.re, a.im, b.re, b.im);
    lemma_reduced_sub(a.re, a.im, b.re, b.im);
    lemma_reduced_sub(a.re + b.re, a.im + b.im, b.re, b.im);
    lemma_reduced_add(a.re - b.re, a.im - b.im, b.re, b.im);
}

/// A difference is zero exactly when the operands agree.
pub proof fn lemma_sub_zero_iff(a: Elt, b: Elt)
    requires
        a.wf(),
        b.wf(),
    ensures
        (a - b == elt0()) == (a == b),
{
    lemma_sub_self(a);
    if a - b == elt0() {
        lemma_add_sub_cancel(a, b);
        lemma_add_zero(b);
    }
}

/// Subtracting is adding the negation.
pub proof fn lemma_sub_is_add_neg(a: Elt, b: Elt)
    requires
        a.wf(),
        b.wf(),
    ensures
        a - b == a + neg(b),
{
    lemma_reduced_self(a);
    lemma_reduced_self(b);
    lemma_reduced_sub(0, 0, b.re, b.im);
    lemma_reduced_sub(a.re, a.im, b.re, b.im);
    lemma_reduced_add(a.re, a.im, -b.re, -b.im);
    assert(reduced(0, 0) == elt0());
}

/// Multiplication is commutative.
pub proof fn lemma_mul_comm(a: Elt, b: Elt)
    ensures
        a * b == b * a,
{
    reveal(Elt::spec_mul);
    vstd::arithmetic::mul::lemma_mul_is_commutative(a.re, b.re);
    vstd::arithmetic::mul::lemma_mul_is_commutative(a.im, b.im);
    vstd::arithmetic::mul::lemma_mul_is_commutative(a.re, b.im);
    vstd::arithmetic::mul::lemma_mul_is_commutative(a.im, b.re);
}

/// Multiplication is associative.
pub proof fn lemma_mul_assoc(a: Elt, b: Elt, c: Elt)
    requires
        a.wf(),
        b.wf(),
        c.wf(),
    ensures
        (a * b) * c == a * (b * c),
{
    let (a0, a1, b0, b1, c0, c1) = (a.re, a.im, b.re, b.im, c.re, c.im);
    let w = ext_w();
    lemma_reduced_self(a);
    lemma_reduced_self(b);
    lemma_reduced_self(c);
    lemma_reduced_mul(a0, a1, b0, b1);
    lemma_reduced_mul(b0, b1, c0, c1);
    lemma_reduced_mul(a0 * b0 + w * (a1 * b1), a0 * b1 + a1 * b0, c0, c1);
    lemma_reduced_mul(a0, a1, b0 * c0 + w * (b1 * c1), b0 * c1 + b1 * c0);
    lemma_int_assoc(w, a0, a1, b0, b1, c0, c1);
}

/// Multiplication distributes over addition and subtraction.
pub proof fn lemma_mul_dist(a: Elt, b: Elt, c: Elt)
    requires
        a.wf(),
        b.wf(),
        c.wf(),
    ensures
        a * (b + c) == a * b + a * c,
        (b + c) * a == b * a + c * a,
        a * (b - c) == a * b - a * c,
        (b - c) * a == b * a - c * a,
{
    let (a0, a1, b0, b1, c0, c1) = (a.re, a.im, b.re, b.im, c.re, c.im);
    let w = ext_w();
    lemma_reduced_self(a);
    lemma_reduced_self(b);
    lemma_reduced_self(c);
    lemma_reduced_add(b0, b1, c0, c1);
    lemma_reduced_sub(b0, b1, c0, c1);
    lemma_reduced_mul(a0, a1, b0, b1);
    lemma_reduced_mul(a0, a1, c0, c1);
    lemma_reduced_mul(a0, a1, b0 + c0, b1 + c1);
    lemma_reduced_mul(a0, a1, b0 - c0, b1 - c1);
    let (x0, x1) = (a0 * b0 + w * (a1 * b1), a0 * b1 + a1 * b0);
    let (y0, y1) = (a0 * c0 + w * (a1 * c1), a0 * c1 + a1 * c0);
    lemma_reduced_add(x0, x1, y0, y1);
    lemma_reduced_sub(x0, x1, y0, y1);
    assert(a0 * (b0 + c0) + w * (a1 * (b1 + c1)) == x0 + y0 && a0 * (b1 + c1) + a1 * (b0 + c0) == x1
        + y1) by (nonlinear_arith)
        requires
            x0 == a0 * b0 + w * (a1 * b1),
            x1 == a0 * b1 + a1 * b0,
            y0 == a0 * c0 + w * (a1 * c1),
            y1 == a0 * c1 + a1 * c0,
    ;
    assert(a0 * (b0 - c0) + w * (a1 * (b1 - c1)) == x0 - y0 && a0 * (b1 - c1) + a1 * (b0 - c0) == x1
        - y1) by (nonlinear_arith)
        requires
            x0 == a0 * b0 + w * (a1 * b1),
            x1 == a0 * b1 + a1 * b0,
            y0 == a0 * c0 + w * (a1 * c1),
            y1 == a0 * c1 + a1 * c0,
    ;
    lemma_mul_comm(a, b);
    lemma_mul_comm(a, c);
    lemma_mul_comm(a, b + c);
    lemma_mul_comm(a, b - c);
}

/// One is neutral and zero absorbing for multiplication.
pub proof fn lemma_mul_one_zero(a: Elt)
    requires
        a.wf(),
    ensures
        a * elt1() == a,
        elt1() * a == a,
        a * elt0() == elt0(),
        elt0() * a == elt0(),
{
    reveal(Elt::spec_mul);
    lemma_reduced_self(a);
    assert(a.re * 1 == a.re && a.im * 1 == a.im && 1 * a.re == a.re && 1 * a.im == a.im);
    assert(a.re * 0 == 0 && a.im * 0 == 0 && 0 * a.re == 0 && 0 * a.im == 0);
}

} // verus!
