//! The interface of a field whose elements are modelled by [`Elt`].

use crate::field::model::{Elt, base, elt0, elt1, neg};
use crate::field::roots::{half_elt, inv_pow2, power, root, square_iter};
use vstd::prelude::*;

verus! {

/// A field element with exact machine semantics.
///
/// The `s_` functions say which machine value an operation returns; [`Field::v`] says
/// which field element a machine value stands for. Distinct machine values may stand for
/// the same element.
pub trait Field: Copy {
    /// The field element that this machine value stands for.
    spec fn v(self) -> Elt;

    /// The machine value of a sum.
    spec fn s_add(self, rhs: Self) -> Self;

    /// The machine value of a difference.
    spec fn s_sub(self, rhs: Self) -> Self;

    /// The machine value of a product.
    spec fn s_mul(self, rhs: Self) -> Self;

    /// The machine value of a negation.
    spec fn s_neg(self) -> Self;

    /// The machine value of `self + x * y` computed in one step.
    spec fn s_mac(self, x: Self, y: Self) -> Self;

    /// The machine value of a small constant.
    spec fn s_const(n: u64) -> Self;

    /// The largest `k` for which the field has a root of unity of order `2^k`.
    spec fn two_adicity() -> nat;

    /// Machine values stand for reduced elements, and the constants for theirs.
    proof fn lemma_values(a: Self)
        ensures
            a.v().wf(),
            Self::s_const(0).v() == elt0(),
            Self::s_const(1).v() == elt1(),
            Self::two_adicity() <= 33,
    ;

    /// Machine operations compute the field operations.
    proof fn lemma_ops(a: Self, b: Self)
        ensures
            a.s_add(b).v() == a.v() + b.v(),
            a.s_sub(b).v() == a.v() - b.v(),
            a.s_mul(b).v() == a.v() * b.v(),
            a.s_neg().v() == neg(a.v()),
    ;

    /// The fused operation computes the same element as its two steps.
    proof fn lemma_mac(a: Self, x: Self, y: Self)
        ensures
            a.s_mac(x, y).v() == a.v() + x.v() * y.v(),
    ;

    /// Constants stand for their residues.
    proof fn lemma_const(n: u64)
        ensures
            Self::s_const(n).v() == base(n as int),
    ;

    /// The machine value of `self^(2^n)`, squared one time after the other.
    spec fn s_squares(self, n: nat) -> Self;

    /// The machine value of the generator of the subgroup of order `2^n_log`.
    spec fn s_root(n_log: nat) -> Self;

    /// The machine value of the inverse of `2^n`, halved one time after the other.
    spec fn s_halves(n: nat) -> Self;

    /// Each half is taken of the one before it.
    proof fn lemma_halves(n: nat)
        ensures
            Self::s_halves(0) == Self::s_const(1),
            Self::s_halves(n + 1) == Self::s_halves(n).s_mul(Self::s_const(0x7fff_ffff_8000_0001)),
    ;

    /// Each square is taken of the one before it.
    proof fn lemma_squares(a: Self, n: nat)
        ensures
            a.s_squares(0) == a,
            a.s_squares(n + 1) == a.s_squares(n).s_mul(a.s_squares(n)),
    ;

    /// Zero.
    fn zero() -> (r: Self)
        ensures
            r == Self::s_const(0),
    ;

    /// One.
    fn one() -> (r: Self)
        ensures
            r == Self::s_const(1),
    ;

    /// The element `n mod p`.
    fn from_noncanonical_u64(n: u64) -> (r: Self)
        ensures
            r == Self::s_const(n),
    ;

    /// Sum.
    fn add(self, rhs: Self) -> (r: Self)
        ensures
            r == self.s_add(rhs),
    ;

    /// Difference.
    fn sub(self, rhs: Self) -> (r: Self)
        ensures
            r == self.s_sub(rhs),
    ;

    /// Product.
    fn mul(self, rhs: Self) -> (r: Self)
        ensures
            r == self.s_mul(rhs),
    ;

    /// Negation.
    fn neg(self) -> (r: Self)
        ensures
            r == self.s_neg(),
    ;

    /// `self + x * y` in one step.
    fn multiply_accumulate(self, x: Self, y: Self) -> (r: Self)
        ensures
            r == self.s_mac(x, y),
    ;

    /// Whether two machine values stand for the same element.
    fn equals(self, rhs: Self) -> (r: bool)
        ensures
            r == (self.v() == rhs.v()),
    ;

    /// The generator of the subgroup of order `2^n_log`.
    fn primitive_root_of_unity(n_log: usize) -> (r: Self)
        requires
            n_log <= Self::two_adicity(),
        ensures
            r == Self::s_root(n_log as nat),
            r.v() == root(n_log as nat),
    ;

    /// The inverse of `2^exp`.
    fn inverse_2exp(exp: usize) -> (r: Self)
        ensures
            r == Self::s_halves(exp as nat),
            r.v() == inv_pow2(exp as nat),
    {
        let half = Self::from_noncanonical_u64(0x7fff_ffff_8000_0001);
        let mut r = Self::one();
        let mut i: usize = 0;
        proof {
            Self::lemma_values(r);
            Self::lemma_const(0x7fff_ffff_8000_0001);
            Self::lemma_halves(0);
        }
        while i < exp
            invariant
                i <= exp,
                half == Self::s_const(0x7fff_ffff_8000_0001),
                half.v() == half_elt(),
                r == Self::s_halves(i as nat),
                r.v() == inv_pow2(i as nat),
            decreases exp - i,
        {
            proof {
                Self::lemma_ops(r, half);
                Self::lemma_halves(i as nat);
            }
            r = r.mul(half);
            i = i + 1;
        }
        r
    }

    /// `self^(2^k)`.
    fn exp_power_of_2(self, k: usize) -> (r: Self)
        ensures
            r == self.s_squares(k as nat),
            r.v() == square_iter(self.v(), k as nat),
    {
        let mut r = self;
        let mut i: usize = 0;
        proof {
            reveal(square_iter);
            Self::lemma_squares(self, 0);
        }
        while i < k
            invariant
                i <= k,
                r == self.s_squares(i as nat),
                r.v() == square_iter(self.v(), i as nat),
            decreases k - i,
        {
            proof {
                reveal(square_iter);
                Self::lemma_ops(r, r);
                Self::lemma_squares(self, i as nat);
            }
            r = r.square();
            i = i + 1;
        }
        r
    }

    /// Square.
    fn square(self) -> (r: Self)
        ensures
            r == self.s_mul(self),
    {
        self.mul(self)
    }

    /// Double.
    fn double(self) -> (r: Self)
        ensures
            r == self.s_add(self),
    {
        self.add(self)
    }

    /// Whether the element is zero.
    fn is_zero(self) -> (r: bool)
        ensures
            r == (self.v() == elt0()),
    {
        proof {
            Self::lemma_values(self);
        }
        self.equals(Self::zero())
    }

    /// Whether the element is one.
    fn is_one(self) -> (r: bool)
        ensures
            r == (self.v() == elt1()),
    {
        proof {
            Self::lemma_values(self);
        }
        self.equals(Self::one())
    }
}

/// The elements that a sequence of machine values stands for.
pub open spec fn vals<F: Field>(s: Seq<F>) -> Seq<Elt> {
    s.map_values(|x: F| x.v())
}

/// The machine value of the `n`-th power, multiplied up one factor at a time.
pub open spec fn s_power<F: Field>(x: F, n: nat) -> F
    decreases n,
{
    if n == 0 {
        F::s_const(1)
    } else {
        s_power(x, (n - 1) as nat).s_mul(x)
    }
}

/// The repeated product stands for the power.
pub proof fn lemma_s_power<F: Field>(x: F, n: nat)
    ensures
        s_power(x, n).v() == power(x.v(), n),
    decreases n,
{
    F::lemma_values(x);
    if n > 0 {
        lemma_s_power(x, (n - 1) as nat);
        F::lemma_ops(s_power(x, (n - 1) as nat), x);
    }
}

/// The first `n` powers of `x`, from the zeroth on.
pub fn powers<F: Field>(x: F, n: usize) -> (r: Vec<F>)
    ensures
        r@.len() == n,
        forall|i: int| 0 <= i < n ==> #[trigger] r@[i] == s_power(x, i as nat),
{
    let mut r: Vec<F> = Vec::with_capacity(n);
    let mut current = F::one();
    while r.len() < n
        invariant
            r@.len() <= n,
            current == s_power(x, r@.len()),
            forall|i: int| 0 <= i < r@.len() ==> #[trigger] r@[i] == s_power(x, i as nat),
        decreases n - r@.len(),
    {
        r.push(current);
        current = current.mul(x);
    }
    r
}

} // verus!
