//! The prime field of order `2^64 - 2^32 + 1`, on possibly non-canonical 64-bit words.

use crate::field::model::{
    Elt, base, elt0, lemma_cong, lemma_reduced_add, lemma_reduced_mul, lemma_reduced_sub, modulus,
    reduced,
};
use crate::field::roots::{ext_root_generator, lemma_root_values, lemma_square_iter_add};
use crate::field::types::Field;
use vstd::arithmetic::div_mod::*;
use vstd::prelude::*;

verus! {

/// The order of the field.
pub const ORDER: u64 = 0xffff_ffff_0000_0001;

/// `2^64 - ORDER`, which is also `2^64` as a field element.
pub const EPSILON: u64 = 0xffff_ffff;

/// A generator of the whole multiplicative group.
pub const MULTIPLICATIVE_GROUP_GENERATOR: u64 = 14293326489335486720;

/// A generator of the subgroup of order `2^32`.
pub const POWER_OF_TWO_GENERATOR: u64 = 7277203076849721926;

/// A field element, stored as any 64-bit representative of its residue.
#[derive(Clone, Copy, Debug)]
pub struct GoldilocksField(pub u64);

/// `2^64`.
pub open spec fn two64() -> int {
    0x1_0000_0000_0000_0000
}

/// A word that carried out of 64 bits at most once is folded back by adding `2^64 mod p`.
pub open spec fn fold_carry(x: int) -> int {
    if x < two64() {
        x
    } else {
        x - two64() + EPSILON
    }
}

/// A word that borrowed out of 64 bits at most once is folded back by subtracting `2^64 mod p`.
pub open spec fn fold_borrow(x: int) -> int {
    if x >= 0 {
        x
    } else {
        x + two64() - EPSILON
    }
}

/// The word that the addition of two words yields.
pub open spec fn word_add(a: int, b: int) -> int {
    fold_carry(fold_carry(a + b))
}

/// The word that the subtraction of two words yields.
pub open spec fn word_sub(a: int, b: int) -> int {
    fold_borrow(fold_borrow(a - b))
}

/// The word that the reduction of a 96-bit number yields.
pub open spec fn word_reduce96(x: int) -> int {
    fold_carry(x % two64() + (x / two64()) * EPSILON)
}

/// The word that the reduction of a 128-bit number yields.
pub open spec fn word_reduce128(x: int) -> int {
    let hi = x / two64();
    let low = fold_borrow(x % two64() - hi / 0x1_0000_0000);
    fold_carry(low + (hi % 0x1_0000_0000) * EPSILON)
}

/// Adds two words whose sum, once folded, does not carry again.
fn add_no_canonicalize(x: u64, y: u64) -> (r: u64)
    requires
        x + y < two64() + modulus(),
    ensures
        r == fold_carry(x + y),
{
    let sum: u64 = x.wrapping_add(y);
    if sum < x {
        sum + EPSILON
    } else {
        sum
    }
}

/// Reduces a 96-bit number to a 64-bit representative of its residue.
pub fn reduce96(x_lo: u64, x_hi: u32) -> (r: u64)
    ensures
        r == word_reduce96(x_lo + x_hi * two64()),
        r as int % modulus() == (x_lo + x_hi * two64()) % modulus(),
{
    let ghost x = x_lo + x_hi * two64();
    proof {
        lemma_fundamental_div_mod_converse(x, two64(), x_hi as int, x_lo as int);
        lemma_word_reduce96(x);
        assert(x_hi * 0xffff_ffffint <= 0xffff_ffff * 0xffff_ffff) by (nonlinear_arith)
            requires
                x_hi <= 0xffff_ffff,
        ;
    }
    let t1: u64 = x_hi as u64 * EPSILON;
    add_no_canonicalize(x_lo, t1)
}

proof fn lemma_word_reduce96(x: int)
    requires
        0 <= x < two64() * 0x1_0000_0000,
    ensures
        0 <= word_reduce96(x) < two64(),
        word_reduce96(x) % modulus() == x % modulus(),
{
    let (lo, hi) = (x % two64(), x / two64());
    let t = lo + hi * EPSILON;
    lemma_fundamental_div_mod(x, two64());
    assert(0 <= hi < 0x1_0000_0000) by (nonlinear_arith)
        requires
            0 <= x < two64() * 0x1_0000_0000,
            x == two64() * hi + lo,
            0 <= lo < two64(),
    ;
    assert(x == t + hi * modulus());
    lemma_cong(x, t, hi);
    if t >= two64() {
        lemma_cong(t, t - two64() + EPSILON, 1);
    }
}

proof fn lemma_word_reduce128(x: int)
    requires
        0 <= x < two64() * two64(),
    ensures
        0 <= word_reduce128(x) < two64(),
        word_reduce128(x) % modulus() == x % modulus(),
{
    let (lo, hi) = (x % two64(), x / two64());
    lemma_fundamental_div_mod(x, two64());
    assert(0 <= hi < two64()) by (nonlinear_arith)
        requires
            0 <= x < two64() * two64(),
            x == two64() * hi + lo,
            0 <= lo < two64(),
    ;
    let (hl, hh) = (hi % 0x1_0000_0000, hi / 0x1_0000_0000);
    let t0 = lo - hh;
    let t1 = fold_borrow(t0);
    let t = t1 + hl * EPSILON;
    assert(x == t0 + hl * EPSILON + (hl + hh * 0x1_0000_0001) * modulus());
    lemma_cong(x, t0 + hl * EPSILON, hl + hh * 0x1_0000_0001);
    if t0 < 0 {
        lemma_cong(t, t0 + hl * EPSILON, 1);
    }
    if t >= two64() {
        lemma_cong(t, t - two64() + EPSILON, 1);
    }
}

/// Reduces a 128-bit number to a 64-bit representative of its residue.
pub fn reduce128(x: u128) -> (r: u64)
    ensures
        r == word_reduce128(x as int),
        r as int % modulus() == x as int % modulus(),
{
    proof {
        lemma_word_reduce128(x as int);
    }
    let x_lo: u64 = (x % 0x1_0000_0000_0000_0000) as u64;
    let x_hi: u64 = (x / 0x1_0000_0000_0000_0000) as u64;
    let x_hi_hi: u64 = x_hi / 0x1_0000_0000;
    let x_hi_lo: u64 = x_hi % 0x1_0000_0000;
    let diff: u64 = x_lo.wrapping_sub(x_hi_hi);
    let t0: u64 = if x_lo < x_hi_hi {
        diff - EPSILON
    } else {
        diff
    };
    assert(x_hi_lo * EPSILON <= 0xffff_ffff * 0xffff_ffff);
    let t1: u64 = x_hi_lo * EPSILON;
    add_no_canonicalize(t0, t1)
}


proof fn lemma_word_add(a: int, b: int)
    requires
        0 <= a < two64(),
        0 <= b < two64(),
    ensures
        0 <= word_add(a, b) < two64(),
        word_add(a, b) % modulus() == (a + b) % modulus(),
{
    let s = a + b;
    if s >= two64() {
        let t = s - two64() + EPSILON;
        lemma_cong(s, t, 1);
        if t >= two64() {
            lemma_cong(t, t - two64() + EPSILON, 1);
        }
    }
}

proof fn lemma_word_sub(a: int, b: int)
    requires
        0 <= a < two64(),
        0 <= b < two64(),
    ensures
        0 <= word_sub(a, b) < two64(),
        word_sub(a, b) % modulus() == (a - b) % modulus(),
{
    let s = a - b;
    if s < 0 {
        let t = s + two64() - EPSILON;
        lemma_cong(t, s, 1);
        if t < 0 {
            lemma_cong(t + two64() - EPSILON, t, 1);
        }
    }
}

/// The product of two words fits two words.
pub proof fn lemma_word_product(a: int, b: int)
    requires
        0 <= a < two64(),
        0 <= b < two64(),
    ensures
        0 <= a * b <= two64() * two64() - 2 * two64() + 1,
{
    assert(0 <= a * b <= 0xffff_ffff_ffff_ffff * 0xffff_ffff_ffff_ffff) by (nonlinear_arith)
        requires
            0 <= a <= 0xffff_ffff_ffff_ffff,
            0 <= b <= 0xffff_ffff_ffff_ffff,
    ;
}

/// The word that a negation yields.
pub open spec fn word_neg(a: int) -> int {
    if a % modulus() == 0 {
        0
    } else {
        modulus() - a % modulus()
    }
}

impl GoldilocksField {
    /// The element `n`, which has to be below the order.
    pub fn from_canonical_u64(n: u64) -> (r: Self)
        requires
            n < ORDER,
        ensures
            r.0 == n,
            r.v() == base(n as int),
    {
        GoldilocksField(n)
    }

    /// The stored word.
    pub fn to_noncanonical_u64(self) -> (r: u64)
        ensures
            r == self.0,
    {
        self.0
    }

    /// The representative below the order.
    pub fn to_canonical_u64(self) -> (r: u64)
        ensures
            r < ORDER,
            r == self.0 as int % modulus(),
            r == self.v().re,
    {
        let c: u64 = self.0;
        if c >= ORDER {
            proof {
                lemma_cong(c as int, c - ORDER, 1);
                lemma_small_mod((c - ORDER) as nat, modulus() as nat);
            }
            c - ORDER
        } else {
            proof {
                lemma_small_mod(c as nat, modulus() as nat);
            }
            c
        }
    }

    /// Reduces a number of at most 96 bits.
    pub fn from_noncanonical_u128_with_96_bits(n: u128) -> (r: Self)
        requires
            n < 0x1_0000_0000_0000_0000_0000_0000,
        ensures
            r.0 == word_reduce96(n as int),
            r.v() == base(n as int),
    {
        let lo: u64 = (n % 0x1_0000_0000_0000_0000) as u64;
        let hi: u32 = (n / 0x1_0000_0000_0000_0000) as u32;
        GoldilocksField(reduce96(lo, hi))
    }

    /// Adds a canonical word without a second carry.
    pub fn add_canonical_u64(self, rhs: u64) -> (r: Self)
        requires
            rhs < ORDER,
        ensures
            r.0 == fold_carry(self.0 + rhs),
            r.v() == self.v() + base(rhs as int),
    {
        proof {
            lemma_reduced_add(self.0 as int, 0, rhs as int, 0);
            let s = self.0 + rhs;
            if s >= two64() {
                lemma_cong(s, s - two64() + EPSILON, 1);
            }
        }
        GoldilocksField(add_no_canonicalize(self.0, rhs))
    }
}

impl PartialEq for GoldilocksField {
    /// Two words are equal when they have the same residue.
    fn eq(&self, other: &Self) -> (r: bool) {
        self.to_canonical_u64() == other.to_canonical_u64()
    }
}

impl Eq for GoldilocksField {

}

impl vstd::std_specs::cmp::PartialEqSpecImpl for GoldilocksField {
    open spec fn obeys_eq_spec() -> bool {
        true
    }

    open spec fn eq_spec(&self, other: &Self) -> bool {
        self.0 as int % modulus() == other.0 as int % modulus()
    }
}

impl Default for GoldilocksField {
    fn default() -> (r: Self)
        ensures
            r.0 == 0,
    {
        GoldilocksField(0)
    }
}

impl Field for GoldilocksField {
    open spec fn v(self) -> Elt {
        base(self.0 as int)
    }

    open spec fn s_add(self, rhs: Self) -> Self {
        GoldilocksField(word_add(self.0 as int, rhs.0 as int) as u64)
    }

    open spec fn s_sub(self, rhs: Self) -> Self {
        GoldilocksField(word_sub(self.0 as int, rhs.0 as int) as u64)
    }

    open spec fn s_mul(self, rhs: Self) -> Self {
        GoldilocksField(word_reduce128(self.0 * rhs.0) as u64)
    }

    open spec fn s_neg(self) -> Self {
        GoldilocksField(word_neg(self.0 as int) as u64)
    }

    open spec fn s_mac(self, x: Self, y: Self) -> Self {
        GoldilocksField(word_reduce128(self.0 + x.0 * y.0) as u64)
    }

    open spec fn s_const(n: u64) -> Self {
        GoldilocksField(n)
    }

    open spec fn two_adicity() -> nat {
        32
    }

    proof fn lemma_values(a: Self) {
        assert(Self::two_adicity() == 32);
        assert(GoldilocksField::s_const(0) == GoldilocksField(0));
        assert(GoldilocksField::s_const(1) == GoldilocksField(1));
    }

    proof fn lemma_ops(a: Self, b: Self) {
        let (x, y) = (a.0 as int, b.0 as int);
        lemma_word_add(x, y);
        lemma_word_sub(x, y);
        lemma_word_product(x, y);
        lemma_word_reduce128(x * y);
        lemma_reduced_add(x, 0, y, 0);
        lemma_reduced_sub(x, 0, y, 0);
        lemma_reduced_mul(x, 0, y, 0);
        assert(x * 0 == 0 && 0 * y == 0);
        lemma_reduced_sub(0, 0, x, 0);
        assert(elt0() == reduced(0, 0));
        let c = x % modulus();
        lemma_fundamental_div_mod(x, modulus());
        if c == 0 {
            lemma_cong(-x, 0, -(x / modulus()));
        } else {
            lemma_cong(-x, modulus() - c, -(x / modulus()) - 1);
            lemma_small_mod((modulus() - c) as nat, modulus() as nat);
        }
    }

    proof fn lemma_mac(a: Self, x: Self, y: Self) {
        let (p, q) = (x.0 as int, y.0 as int);
        lemma_word_product(p, q);
        lemma_word_reduce128(a.0 + p * q);
        lemma_reduced_mul(p, 0, q, 0);
        assert(p * 0 == 0 && 0 * q == 0);
        lemma_reduced_add(a.0 as int, 0, p * q, 0);
    }

    proof fn lemma_const(n: u64) {
    }

    fn zero() -> (r: Self)
        ensures
            r == Self::s_const(0),
    {
        GoldilocksField(0)
    }

    fn one() -> (r: Self)
        ensures
            r == Self::s_const(1),
    {
        GoldilocksField(1)
    }

    fn from_noncanonical_u64(n: u64) -> (r: Self)
        ensures
            r == Self::s_const(n),
    {
        GoldilocksField(n)
    }

    fn add(self, rhs: Self) -> (r: Self)
        ensures
            r == self.s_add(rhs),
    {
        let sum: u64 = self.0.wrapping_add(rhs.0);
        if sum < self.0 {
            let folded: u64 = sum.wrapping_add(EPSILON);
            if folded < sum {
                GoldilocksField(folded + EPSILON)
            } else {
                GoldilocksField(folded)
            }
        } else {
            GoldilocksField(sum)
        }
    }

    fn sub(self, rhs: Self) -> (r: Self)
        ensures
            r == self.s_sub(rhs),
    {
        let diff: u64 = self.0.wrapping_sub(rhs.0);
        if self.0 < rhs.0 {
            let folded: u64 = diff.wrapping_sub(EPSILON);
            if diff < EPSILON {
                GoldilocksField(folded - EPSILON)
            } else {
                GoldilocksField(folded)
            }
        } else {
            GoldilocksField(diff)
        }
    }

    fn mul(self, rhs: Self) -> (r: Self)
        ensures
            r == self.s_mul(rhs),
    {
        proof {
            lemma_word_product(self.0 as int, rhs.0 as int);
        }
        GoldilocksField(reduce128(self.0 as u128 * rhs.0 as u128))
    }

    fn neg(self) -> (r: Self)
        ensures
            r == self.s_neg(),
    {
        let c: u64 = self.to_canonical_u64();
        if c == 0 {
            GoldilocksField(0)
        } else {
            GoldilocksField(ORDER - c)
        }
    }

    fn multiply_accumulate(self, x: Self, y: Self) -> (r: Self)
        ensures
            r == self.s_mac(x, y),
    {
        proof {
            lemma_word_product(x.0 as int, y.0 as int);
        }
        GoldilocksField(reduce128(self.0 as u128 + x.0 as u128 * y.0 as u128))
    }

    open spec fn s_squares(self, n: nat) -> Self
        decreases n,
    {
        if n == 0 {
            self
        } else {
            let half = self.s_squares((n - 1) as nat);
            half.s_mul(half)
        }
    }

    open spec fn s_root(n_log: nat) -> Self {
        GoldilocksField(POWER_OF_TWO_GENERATOR).s_squares((32 - n_log) as nat)
    }

    open spec fn s_halves(n: nat) -> Self
        decreases n,
    {
        if n == 0 {
            Self::s_const(1)
        } else {
            Self::s_halves((n - 1) as nat).s_mul(Self::s_const(0x7fff_ffff_8000_0001))
        }
    }

    proof fn lemma_halves(n: nat) {
    }

    proof fn lemma_squares(a: Self, n: nat) {
    }

    fn primitive_root_of_unity(n_log: usize) -> (r: Self) {
        assert(Self::two_adicity() == 32);
        let generator = GoldilocksField(POWER_OF_TWO_GENERATOR);
        let r = generator.exp_power_of_2(32 - n_log);
        proof {
            lemma_root_values();
            lemma_square_iter_add(ext_root_generator(), 1, (32 - n_log) as nat);
        }
        r
    }

    fn equals(self, rhs: Self) -> (r: bool) {
        self.to_canonical_u64() == rhs.to_canonical_u64()
    }
}

} // verus!
