//! Pairs of Goldilocks elements.

use crate::field::goldilocks_field::{EPSILON, GoldilocksField, lemma_word_product, word_reduce128};
use crate::field::model::{elt0, modulus};
use crate::field::packed::{
    PackedField, interleave_left, interleave_right, is_inverse_of, lane_product, lane_sum,
    packed_div, packed_product, packed_sum,
};
use crate::field::types::Field;
use vstd::prelude::*;
use vstd::std_specs::cmp::PartialEqSpec;

verus! {

/// Two independent Goldilocks field elements evaluated side by side.
#[derive(Clone, Copy, Debug)]
pub struct NeonGoldilocksField(pub [GoldilocksField; 2]);

/// Multiplies two independent pairs of words and reduces both products.
///
/// Each result is the very word that the scalar reduction of the product yields, not just
/// a word of the same residue: the two conditional folds stay separate.
pub fn mul_reduce_pair(a0: u64, b0: u64, a1: u64, b1: u64) -> (r: (u64, u64))
    ensures
        r.0 == word_reduce128(a0 * b0),
        r.1 == word_reduce128(a1 * b1),
{
    proof {
        lemma_word_product(a0 as int, b0 as int);
        lemma_word_product(a1 as int, b1 as int);
    }
    let p0: u128 = a0 as u128 * b0 as u128;
    let p1: u128 = a1 as u128 * b1 as u128;
    let hi0: u64 = (p0 / 0x1_0000_0000_0000_0000) as u64;
    let hi1: u64 = (p1 / 0x1_0000_0000_0000_0000) as u64;
    let lo0: u64 = (p0 % 0x1_0000_0000_0000_0000) as u64;
    let lo1: u64 = (p1 % 0x1_0000_0000_0000_0000) as u64;
    let scratch0: u64 = (hi0 % 0x1_0000_0000) * EPSILON;
    let scratch1: u64 = (hi1 % 0x1_0000_0000) * EPSILON;
    let top0: u64 = hi0 / 0x1_0000_0000;
    let top1: u64 = hi1 / 0x1_0000_0000;
    let borrow0: u64 = if lo0 < top0 {
        EPSILON
    } else {
        0
    };
    let borrow1: u64 = if lo1 < top1 {
        EPSILON
    } else {
        0
    };
    let low0: u64 = lo0.wrapping_sub(top0).wrapping_sub(borrow0);
    let low1: u64 = lo1.wrapping_sub(top1).wrapping_sub(borrow1);
    let sum0: u64 = low0.wrapping_add(scratch0);
    let sum1: u64 = low1.wrapping_add(scratch1);
    let carry0: u64 = if sum0 < low0 {
        EPSILON
    } else {
        0
    };
    let carry1: u64 = if sum1 < low1 {
        EPSILON
    } else {
        0
    };
    (sum0.wrapping_add(carry0), sum1.wrapping_add(carry1))
}

impl PartialEq for NeonGoldilocksField {
    /// Lane-wise equality of residues.
    fn eq(&self, other: &Self) -> (r: bool) {
        self.0[0] == other.0[0] && self.0[1] == other.0[1]
    }
}

impl Eq for NeonGoldilocksField {

}

impl vstd::std_specs::cmp::PartialEqSpecImpl for NeonGoldilocksField {
    open spec fn obeys_eq_spec() -> bool {
        true
    }

    open spec fn eq_spec(&self, other: &Self) -> bool {
        self.0[0].0 as int % modulus() == other.0[0].0 as int % modulus() && self.0[1].0 as int
            % modulus() == other.0[1].0 as int % modulus()
    }
}

impl Default for NeonGoldilocksField {
    fn default() -> (r: Self)
        ensures
            r.0[0].0 == 0,
            r.0[1].0 == 0,
    {
        NeonGoldilocksField([GoldilocksField(0), GoldilocksField(0)])
    }
}

impl PackedField for NeonGoldilocksField {
    type Scalar = GoldilocksField;

    open spec fn width() -> nat {
        2
    }

    open spec fn seq(self) -> Seq<GoldilocksField> {
        self.0@
    }

    open spec fn s_fused(
        a: GoldilocksField,
        x: GoldilocksField,
        y: GoldilocksField,
    ) -> GoldilocksField {
        a.s_add(x.s_mul(y))
    }

    proof fn lemma_width(a: Self) {
        assert(Self::width() == 2);
    }

    fn lane_count() -> (r: usize) {
        assert(Self::width() == 2);
        2
    }

    fn load(values: &[GoldilocksField], start: usize) -> (r: Self) {
        let r = NeonGoldilocksField([values[start], values[start + 1]]);
        assert(r.seq() =~= values@.subrange(start as int, start + 2));
        r
    }

    fn lane(self, i: usize) -> (r: GoldilocksField) {
        assert(self.seq().len() == Self::width());
        self.0[i]
    }

    fn broadcast(x: GoldilocksField) -> (r: Self)
        ensures
            r.seq().len() == Self::width(),
    {
        NeonGoldilocksField([x, x])
    }

    fn add(self, rhs: Self) -> (r: Self) {
        assert(self.seq().len() == Self::width());
        NeonGoldilocksField([self.0[0].add(rhs.0[0]), self.0[1].add(rhs.0[1])])
    }

    fn sub(self, rhs: Self) -> (r: Self) {
        assert(self.seq().len() == Self::width());
        NeonGoldilocksField([self.0[0].sub(rhs.0[0]), self.0[1].sub(rhs.0[1])])
    }

    fn mul(self, rhs: Self) -> (r: Self) {
        assert(self.seq().len() == Self::width());
        let (lane0, lane1) = mul_reduce_pair(self.0[0].0, rhs.0[0].0, self.0[1].0, rhs.0[1].0);
        let r = NeonGoldilocksField([GoldilocksField(lane0), GoldilocksField(lane1)]);
        assert(r.seq()[0] == self.seq()[0].s_mul(rhs.seq()[0]));
        assert(r.seq()[1] == self.seq()[1].s_mul(rhs.seq()[1]));
        r
    }

    fn neg(self) -> (r: Self) {
        assert(self.seq().len() == Self::width());
        NeonGoldilocksField([self.0[0].neg(), self.0[1].neg()])
    }

    fn multiply_accumulate(self, x: Self, y: Self) -> (r: Self)
        ensures
            forall|i: int|
                0 <= i < 2 ==> #[trigger] r.seq()[i] == Self::s_fused(
                    self.seq()[i],
                    x.seq()[i],
                    y.seq()[i],
                ),
    {
        let product = x.mul(y);
        let r = self.add(product);
        proof {
            assert forall|i: int| 0 <= i < 2 implies (#[trigger] r.seq()[i]).v()
                == self.seq()[i].v() + x.seq()[i].v() * y.seq()[i].v() by {
                GoldilocksField::lemma_ops(x.seq()[i], y.seq()[i]);
                GoldilocksField::lemma_ops(self.seq()[i], product.seq()[i]);
            }
        }
        r
    }

    fn interleave(self, other: Self, block_len: usize) -> (r: (Self, Self)) {
        if block_len == 1 {
            let r = (
                NeonGoldilocksField([self.0[0], other.0[0]]),
                NeonGoldilocksField([self.0[1], other.0[1]]),
            );
            assert(r.0.seq() =~= interleave_left(self.seq(), other.seq(), 1));
            assert(r.1.seq() =~= interleave_right(self.seq(), other.seq(), 1));
            r
        } else {
            assert(self.seq() =~= interleave_left(self.seq(), other.seq(), 2));
            assert(other.seq() =~= interleave_right(self.seq(), other.seq(), 2));
            (self, other)
        }
    }
}

impl NeonGoldilocksField {
    /// Every lane divided by a scalar.
    pub fn div(self, rhs: GoldilocksField) -> (r: Self)
        requires
            rhs.v() != elt0(),
        ensures
            exists|inverse: GoldilocksField| #[trigger]
                is_inverse_of(inverse, rhs) && forall|l: int|
                0 <= l < 2 ==> #[trigger] r.seq()[l] == self.seq()[l].s_mul(inverse),
            forall|l: int|
                0 <= l < 2 ==> (#[trigger] r.seq()[l]).v() * rhs.v() == self.seq()[l].v(),
    {
        packed_div(self, rhs)
    }

    /// Divides every lane by a scalar.
    pub fn div_assign(&mut self, rhs: GoldilocksField)
        requires
            rhs.v() != elt0(),
        ensures
            exists|inverse: GoldilocksField| #[trigger]
                is_inverse_of(inverse, rhs) && forall|l: int|
                0 <= l < 2 ==> #[trigger] final(self).seq()[l] == old(self).seq()[l].s_mul(inverse),
            forall|l: int|
                0 <= l < 2 ==> (#[trigger] final(self).seq()[l]).v() * rhs.v() == old(
                    self,
                ).seq()[l].v(),
    {
        *self = self.div(rhs);
    }

    /// The sum of vectors; zeros where there are none.
    pub fn sum(items: &[Self]) -> (r: Self)
        ensures
            forall|l: int|
                0 <= l < 2 ==> #[trigger] r.seq()[l] == lane_sum(items@, l, items@.len()),
    {
        packed_sum(items)
    }

    /// The product of vectors; ones where there are none.
    pub fn product(items: &[Self]) -> (r: Self)
        ensures
            forall|l: int|
                0 <= l < 2 ==> #[trigger] r.seq()[l] == lane_product(items@, l, items@.len()),
    {
        packed_product(items)
    }
}

/// Vectors are equal exactly if all of their lanes stand for the same elements.
pub proof fn lemma_neon_equality(a: NeonGoldilocksField, b: NeonGoldilocksField)
    ensures
        a.eq_spec(&b) <==> forall|l: int|
            0 <= l < NeonGoldilocksField::width() ==> (#[trigger] a.seq()[l]).v() == b.seq()[l].v(),
{
    NeonGoldilocksField::lemma_width(a);
    NeonGoldilocksField::lemma_width(b);
    assert forall|l: int| 0 <= l < 2 implies ((#[trigger] a.seq()[l]).v() == b.seq()[l].v()) == (
    a.seq()[l].0 as int % modulus() == b.seq()[l].0 as int % modulus()) by {
        GoldilocksField::lemma_values(a.seq()[l]);
        GoldilocksField::lemma_values(b.seq()[l]);
    }
    let x0 = a.seq()[0];
    let x1 = a.seq()[1];
}

} // verus!
