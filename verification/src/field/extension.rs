//! The quadratic extension of the Goldilocks field by a square root of 7.

use crate::field::goldilocks_field::GoldilocksField;
use crate::field::model::{
    Elt, elt0, lemma_reduced_add, lemma_reduced_mul, lemma_reduced_sub, modulus, reduced,
};
use crate::field::roots::ext_root_generator;
use crate::field::types::Field;
use vstd::arithmetic::div_mod::{lemma_add_mod_noop, lemma_mul_mod_noop_right};
use vstd::prelude::*;

verus! {

/// The square of the generator of the extension.
pub const EXT_W: u64 = 7;

/// A generator of the subgroup of order `2^33` is this multiple of the extension's generator.
pub const EXT_POWER_OF_TWO_GENERATOR: u64 = 7226896044987257365;

/// An element `a + b * X` of the extension, with `X * X == 7`.
#[derive(Clone, Copy, Debug)]
pub struct QuadraticExtension(pub [GoldilocksField; 2]);

/// The element with the given coordinates.
pub open spec fn pair(a: GoldilocksField, b: GoldilocksField) -> QuadraticExtension {
    QuadraticExtension([a, b])
}

impl QuadraticExtension {
    /// The element of the prime field, seen in the extension.
    pub fn from_basefield(x: GoldilocksField) -> (r: Self)
        ensures
            r.0[0] == x,
            r.0[1].0 == 0,
            r.v() == x.v(),
    {
        QuadraticExtension([x, GoldilocksField(0)])
    }
}

impl PartialEq for QuadraticExtension {
    /// Equality of both coordinates as residues.
    fn eq(&self, other: &Self) -> (r: bool) {
        self.0[0] == other.0[0] && self.0[1] == other.0[1]
    }
}

impl Eq for QuadraticExtension {

}

impl vstd::std_specs::cmp::PartialEqSpecImpl for QuadraticExtension {
    open spec fn obeys_eq_spec() -> bool {
        true
    }

    open spec fn eq_spec(&self, other: &Self) -> bool {
        self.0[0].0 as int % modulus() == other.0[0].0 as int % modulus() && self.0[1].0 as int
            % modulus() == other.0[1].0 as int % modulus()
    }
}

impl Default for QuadraticExtension {
    fn default() -> (r: Self)
        ensures
            r.0[0].0 == 0,
            r.0[1].0 == 0,
    {
        QuadraticExtension([GoldilocksField(0), GoldilocksField(0)])
    }
}

/// The words of a product in the extension.
pub open spec fn ext_mul(a: QuadraticExtension, b: QuadraticExtension) -> QuadraticExtension {
    pair(
        a.0[0].s_mul(b.0[0]).s_add(GoldilocksField(EXT_W).s_mul(a.0[1].s_mul(b.0[1]))),
        a.0[0].s_mul(b.0[1]).s_add(a.0[1].s_mul(b.0[0])),
    )
}

proof fn lemma_base_ops(a: GoldilocksField, b: GoldilocksField)
    ensures
        a.s_mul(b).v().re == (a.0 * b.0) % modulus(),
        a.s_mul(b).v().im == 0,
        a.s_add(b).v().re == (a.0 + b.0) % modulus(),
        a.s_sub(b).v().re == (a.0 - b.0) % modulus(),
        a.s_neg().v().re == (-a.0) % modulus(),
{
    GoldilocksField::lemma_ops(a, b);
    lemma_reduced_mul(a.0 as int, 0, b.0 as int, 0);
    assert(a.0 * 0 == 0 && 0 * b.0 == 0);
    lemma_reduced_add(a.0 as int, 0, b.0 as int, 0);
    lemma_reduced_sub(a.0 as int, 0, b.0 as int, 0);
    lemma_reduced_sub(0, 0, a.0 as int, 0);
    assert(elt0() == reduced(0, 0));
}

proof fn lemma_ext_mul(a: QuadraticExtension, b: QuadraticExtension)
    ensures
        ext_mul(a, b).v() == a.v() * b.v(),
{
    let (a0, a1, b0, b1) = (a.0[0], a.0[1], b.0[0], b.0[1]);
    let w = GoldilocksField(EXT_W);
    lemma_base_ops(a1, b1);
    lemma_base_ops(a0, b0);
    lemma_base_ops(a0, b1);
    lemma_base_ops(a1, b0);
    let (t11, t00, t01, t10) = (a1.s_mul(b1), a0.s_mul(b0), a0.s_mul(b1), a1.s_mul(b0));
    lemma_base_ops(w, t11);
    let t = w.s_mul(t11);
    lemma_base_ops(t00, t);
    lemma_base_ops(t01, t10);
    lemma_reduced_mul(a0.0 as int, a1.0 as int, b0.0 as int, b1.0 as int);
    let p = modulus();
    let (i00, i11, i01, i10) = (a0.0 * b0.0, a1.0 * b1.0, a0.0 * b1.0, a1.0 * b0.0);
    assert((7 * t11.0) % p == (7 * i11) % p) by {
        lemma_mul_mod_noop_right(7, t11.0 as int, p);
        lemma_mul_mod_noop_right(7, i11, p);
    }
    assert((t00.0 + t.0) % p == (i00 + 7 * i11) % p) by {
        lemma_add_mod_noop(t00.0 as int, t.0 as int, p);
        lemma_add_mod_noop(i00, 7 * i11, p);
    }
    assert((t01.0 + t10.0) % p == (i01 + i10) % p) by {
        lemma_add_mod_noop(t01.0 as int, t10.0 as int, p);
        lemma_add_mod_noop(i01, i10, p);
    }
}

impl Field for QuadraticExtension {
    open spec fn v(self) -> Elt {
        reduced(self.0[0].0 as int, self.0[1].0 as int)
    }

    open spec fn s_add(self, rhs: Self) -> Self {
        pair(self.0[0].s_add(rhs.0[0]), self.0[1].s_add(rhs.0[1]))
    }

    open spec fn s_sub(self, rhs: Self) -> Self {
        pair(self.0[0].s_sub(rhs.0[0]), self.0[1].s_sub(rhs.0[1]))
    }

    open spec fn s_mul(self, rhs: Self) -> Self {
        ext_mul(self, rhs)
    }

    open spec fn s_neg(self) -> Self {
        pair(self.0[0].s_neg(), self.0[1].s_neg())
    }

    open spec fn s_mac(self, x: Self, y: Self) -> Self {
        self.s_add(ext_mul(x, y))
    }

    open spec fn s_const(n: u64) -> Self {
        pair(GoldilocksField(n), GoldilocksField(0))
    }

    open spec fn two_adicity() -> nat {
        33
    }

    proof fn lemma_values(a: Self) {
        assert(Self::two_adicity() == 33);
        assert(QuadraticExtension::s_const(0) == pair(GoldilocksField(0), GoldilocksField(0)));
        assert(QuadraticExtension::s_const(1) == pair(GoldilocksField(1), GoldilocksField(0)));
    }

    proof fn lemma_ops(a: Self, b: Self) {
        lemma_base_ops(a.0[0], b.0[0]);
        lemma_base_ops(a.0[1], b.0[1]);
        lemma_ext_mul(a, b);
        lemma_reduced_add(a.0[0].0 as int, a.0[1].0 as int, b.0[0].0 as int, b.0[1].0 as int);
        lemma_reduced_sub(a.0[0].0 as int, a.0[1].0 as int, b.0[0].0 as int, b.0[1].0 as int);
        lemma_reduced_sub(0, 0, a.0[0].0 as int, a.0[1].0 as int);
        assert(elt0() == reduced(0, 0));
        assert(a.s_mul(b) == ext_mul(a, b));
        assert(a.s_add(b) == pair(a.0[0].s_add(b.0[0]), a.0[1].s_add(b.0[1])));
        assert(a.s_sub(b) == pair(a.0[0].s_sub(b.0[0]), a.0[1].s_sub(b.0[1])));
        assert(a.s_neg() == pair(a.0[0].s_neg(), a.0[1].s_neg()));
    }

    proof fn lemma_mac(a: Self, x: Self, y: Self) {
        Self::lemma_ops(x, y);
        Self::lemma_ops(a, ext_mul(x, y));
        assert(a.s_mac(x, y) == a.s_add(x.s_mul(y)));
    }

    proof fn lemma_const(n: u64) {
        assert(QuadraticExtension::s_const(n) == pair(GoldilocksField(n), GoldilocksField(0)));
    }

    fn zero() -> (r: Self)
        ensures
            r == Self::s_const(0),
    {
        QuadraticExtension([GoldilocksField(0), GoldilocksField(0)])
    }

    fn one() -> (r: Self)
        ensures
            r == Self::s_const(1),
    {
        QuadraticExtension([GoldilocksField(1), GoldilocksField(0)])
    }

    fn from_noncanonical_u64(n: u64) -> (r: Self)
        ensures
            r == Self::s_const(n),
    {
        QuadraticExtension([GoldilocksField(n), GoldilocksField(0)])
    }

    fn add(self, rhs: Self) -> (r: Self)
        ensures
            r == self.s_add(rhs),
    {
        QuadraticExtension([self.0[0].add(rhs.0[0]), self.0[1].add(rhs.0[1])])
    }

    fn sub(self, rhs: Self) -> (r: Self)
        ensures
            r == self.s_sub(rhs),
    {
        QuadraticExtension([self.0[0].sub(rhs.0[0]), self.0[1].sub(rhs.0[1])])
    }

    fn mul(self, rhs: Self) -> (r: Self)
        ensures
            r == self.s_mul(rhs),
    {
        let tail = GoldilocksField(EXT_W).mul(self.0[1].mul(rhs.0[1]));
        let c0 = self.0[0].mul(rhs.0[0]).add(tail);
        let c1 = self.0[0].mul(rhs.0[1]).add(self.0[1].mul(rhs.0[0]));
        QuadraticExtension([c0, c1])
    }

    fn neg(self) -> (r: Self)
        ensures
            r == self.s_neg(),
    {
        QuadraticExtension([self.0[0].neg(), self.0[1].neg()])
    }

    fn multiply_accumulate(self, x: Self, y: Self) -> (r: Self)
        ensures
            r == self.s_mac(x, y),
    {
        self.add(x.mul(y))
    }

    open spec fn s_squares(self, n: nat) -> Self
        decreases n,
    {
        if n == 0 {
            self
        } else {
            let half = self.s_squares((n - 1) as nat);
            half.s_mul(half)
        }
    }

    open spec fn s_root(n_log: nat) -> Self {
        QuadraticExtension(
            [GoldilocksField(0), GoldilocksField(EXT_POWER_OF_TWO_GENERATOR)],
        ).s_squares((33 - n_log) as nat)
    }

    open spec fn s_halves(n: nat) -> Self
        decreases n,
    {
        if n == 0 {
            Self::s_const(1)
        } else {
            Self::s_halves((n - 1) as nat).s_mul(Self::s_const(0x7fff_ffff_8000_0001))
        }
    }

    proof fn lemma_halves(n: nat) {
    }

    proof fn lemma_squares(a: Self, n: nat) {
    }

    fn primitive_root_of_unity(n_log: usize) -> (r: Self) {
        assert(Self::two_adicity() == 33);
        let generator = QuadraticExtension(
            [GoldilocksField(0), GoldilocksField(EXT_POWER_OF_TWO_GENERATOR)],
        );
        assert(generator.v() == ext_root_generator());
        generator.exp_power_of_2(33 - n_log)
    }

    fn equals(self, rhs: Self) -> (r: bool)
        ensures
            r == (self.v() == rhs.v()),
    {
        self.0[0].to_canonical_u64() == rhs.0[0].to_canonical_u64()
            && self.0[1].to_canonical_u64() == rhs.0[1].to_canonical_u64()
    }
}

} // verus!
