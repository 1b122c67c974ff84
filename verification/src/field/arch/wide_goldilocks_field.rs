//! Quadruples of Goldilocks elements.

use crate::field::arch::neon_goldilocks_field::NeonGoldilocksField;
use crate::field::goldilocks_field::GoldilocksField;
use crate::field::model::{elt0, modulus};
use crate::field::packed::{
    PackedField, interleave_left, interleave_right, is_inverse_of, lane_product, lane_sum,
    packed_div, packed_product, packed_sum,
};
use crate::field::types::Field;
use vstd::prelude::*;
use vstd::std_specs::cmp::PartialEqSpec;

verus! {

/// Four packed Goldilocks elements, held as two independent lane pairs.
#[derive(Clone, Copy, Debug)]
pub struct WideGoldilocksField([NeonGoldilocksField; 2]);

proof fn lemma_lane(a: WideGoldilocksField, i: int)
    requires
        0 <= i < 4,
    ensures
        a.seq()[i] == a.0[i / 2].seq()[i % 2],
{
    assert(i == 0 || i == 1 || i == 2 || i == 3);
}

impl WideGoldilocksField {
    /// The vector with the given lanes.
    pub fn from_lanes(lanes: [GoldilocksField; 4]) -> (r: Self)
        ensures
            r.seq() == lanes@,
    {
        let r = WideGoldilocksField(
            [
                NeonGoldilocksField([lanes[0], lanes[1]]),
                NeonGoldilocksField([lanes[2], lanes[3]]),
            ],
        );
        assert(r.seq() =~= lanes@);
        r
    }

    /// The four lanes in order.
    pub fn lanes(self) -> (r: [GoldilocksField; 4])
        ensures
            r@ == self.seq(),
    {
        let r = [self.0[0].0[0], self.0[0].0[1], self.0[1].0[0], self.0[1].0[1]];
        assert(r@ =~= self.seq());
        r
    }
}

impl PartialEq for WideGoldilocksField {
    /// Lane-wise equality of residues.
    fn eq(&self, other: &Self) -> (r: bool) {
        self.0[0] == other.0[0] && self.0[1] == other.0[1]
    }
}

impl Eq for WideGoldilocksField {

}

impl vstd::std_specs::cmp::PartialEqSpecImpl for WideGoldilocksField {
    open spec fn obeys_eq_spec() -> bool {
        true
    }

    closed spec fn eq_spec(&self, other: &Self) -> bool {
        self.0[0].0[0].0 as int % modulus() == other.0[0].0[0].0 as int % modulus()
            && self.0[0].0[1].0 as int % modulus() == other.0[0].0[1].0 as int % modulus()
            && self.0[1].0[0].0 as int % modulus() == other.0[1].0[0].0 as int % modulus()
            && self.0[1].0[1].0 as int % modulus() == other.0[1].0[1].0 as int % modulus()
    }
}

impl Default for WideGoldilocksField {
    fn default() -> (r: Self)
        ensures
            forall|i: int| 0 <= i < 4 ==> (#[trigger] r.seq()[i]).0 == 0,
    {
        WideGoldilocksField::broadcast(GoldilocksField(0))
    }
}

impl PackedField for WideGoldilocksField {
    type Scalar = GoldilocksField;

    open spec fn width() -> nat {
        4
    }

    closed spec fn seq(self) -> Seq<GoldilocksField> {
        seq![self.0[0].0[0], self.0[0].0[1], self.0[1].0[0], self.0[1].0[1]]
    }

    open spec fn s_fused(
        a: GoldilocksField,
        x: GoldilocksField,
        y: GoldilocksField,
    ) -> GoldilocksField {
        a.s_mac(x, y)
    }

    proof fn lemma_width(a: Self) {
        assert(Self::width() == 4);
    }

    fn lane_count() -> (r: usize) {
        assert(Self::width() == 4);
        4
    }

    fn load(values: &[GoldilocksField], start: usize) -> (r: Self) {
        let r = WideGoldilocksField::from_lanes(
            [values[start], values[start + 1], values[start + 2], values[start + 3]],
        );
        assert(r.seq() =~= values@.subrange(start as int, start + 4));
        r
    }

    fn lane(self, i: usize) -> (r: GoldilocksField) {
        assert(self.seq().len() == Self::width());
        self.0[i / 2].0[i % 2]
    }

    fn broadcast(x: GoldilocksField) -> (r: Self)
        ensures
            r.seq().len() == Self::width(),
    {
        WideGoldilocksField([NeonGoldilocksField::broadcast(x), NeonGoldilocksField::broadcast(x)])
    }

    fn add(self, rhs: Self) -> (r: Self) {
        assert(self.seq().len() == Self::width());
        let r = WideGoldilocksField([self.0[0].add(rhs.0[0]), self.0[1].add(rhs.0[1])]);
        assert forall|i: int| 0 <= i < 4 implies #[trigger] r.seq()[i] == self.seq()[i].s_add(
            rhs.seq()[i],
        ) by {
            lemma_lane(r, i);
            lemma_lane(self, i);
            lemma_lane(rhs, i);
        }
        r
    }

    fn sub(self, rhs: Self) -> (r: Self) {
        assert(self.seq().len() == Self::width());
        let r = WideGoldilocksField([self.0[0].sub(rhs.0[0]), self.0[1].sub(rhs.0[1])]);
        assert forall|i: int| 0 <= i < 4 implies #[trigger] r.seq()[i] == self.seq()[i].s_sub(
            rhs.seq()[i],
        ) by {
            lemma_lane(r, i);
            lemma_lane(self, i);
            lemma_lane(rhs, i);
        }
        r
    }

    fn mul(self, rhs: Self) -> (r: Self) {
        assert(self.seq().len() == Self::width());
        let r = WideGoldilocksField([self.0[0].mul(rhs.0[0]), self.0[1].mul(rhs.0[1])]);
        assert forall|i: int| 0 <= i < 4 implies #[trigger] r.seq()[i] == self.seq()[i].s_mul(
            rhs.seq()[i],
        ) by {
            lemma_lane(r, i);
            lemma_lane(self, i);
            lemma_lane(rhs, i);
        }
        r
    }

    fn neg(self) -> (r: Self) {
        assert(self.seq().len() == Self::width());
        let r = WideGoldilocksField([self.0[0].neg(), self.0[1].neg()]);
        assert forall|i: int| 0 <= i < 4 implies #[trigger] r.seq()[i] == self.seq()[i].s_neg() by {
            lemma_lane(r, i);
            lemma_lane(self, i);
        }
        r
    }

    fn multiply_accumulate(self, x: Self, y: Self) -> (r: Self)
        ensures
            forall|i: int|
                0 <= i < 4 ==> #[trigger] r.seq()[i] == Self::s_fused(
                    self.seq()[i],
                    x.seq()[i],
                    y.seq()[i],
                ),
    {
        let out = self.lanes();
        let lhs = x.lanes();
        let rhs = y.lanes();
        let r = WideGoldilocksField::from_lanes(
            [
                out[0].multiply_accumulate(lhs[0], rhs[0]),
                out[1].multiply_accumulate(lhs[1], rhs[1]),
                out[2].multiply_accumulate(lhs[2], rhs[2]),
                out[3].multiply_accumulate(lhs[3], rhs[3]),
            ],
        );
        proof {
            assert forall|i: int| 0 <= i < 4 implies (#[trigger] r.seq()[i]).v()
                == self.seq()[i].v() + x.seq()[i].v() * y.seq()[i].v() by {
                GoldilocksField::lemma_mac(self.seq()[i], x.seq()[i], y.seq()[i]);
            }
        }
        r
    }

    fn interleave(self, other: Self, block_len: usize) -> (r: (Self, Self)) {
        let a = self.lanes();
        let b = other.lanes();
        let ghost (s, t) = (self.seq(), other.seq());
        if block_len == 1 {
            let r = (
                WideGoldilocksField::from_lanes([a[0], b[0], a[2], b[2]]),
                WideGoldilocksField::from_lanes([a[1], b[1], a[3], b[3]]),
            );
            assert(r.0.seq() =~= interleave_left(s, t, 1));
            assert(r.1.seq() =~= interleave_right(s, t, 1));
            r
        } else if block_len == 2 {
            let r = (
                WideGoldilocksField::from_lanes([a[0], a[1], b[0], b[1]]),
                WideGoldilocksField::from_lanes([a[2], a[3], b[2], b[3]]),
            );
            assert(r.0.seq() =~= interleave_left(s, t, 2));
            assert(r.1.seq() =~= interleave_right(s, t, 2));
            r
        } else {
            assert(s =~= interleave_left(s, t, 4));
            assert(t =~= interleave_right(s, t, 4));
            (self, other)
        }
    }
}

impl WideGoldilocksField {
    /// Every lane divided by a scalar.
    pub fn div(self, rhs: GoldilocksField) -> (r: Self)
        requires
            rhs.v() != elt0(),
        ensures
            exists|inverse: GoldilocksField| #[trigger]
                is_inverse_of(inverse, rhs) && forall|l: int|
                0 <= l < 4 ==> #[trigger] r.seq()[l] == self.seq()[l].s_mul(inverse),
            forall|l: int|
                0 <= l < 4 ==> (#[trigger] r.seq()[l]).v() * rhs.v() == self.seq()[l].v(),
    {
        packed_div(self, rhs)
    }

    /// The sum of vectors; zeros where there are none.
    pub fn sum(items: &[Self]) -> (r: Self)
        ensures
            forall|l: int|
                0 <= l < 4 ==> #[trigger] r.seq()[l] == lane_sum(items@, l, items@.len()),
    {
        packed_sum(items)
    }

    /// The product of vectors; ones where there are none.
    pub fn product(items: &[Self]) -> (r: Self)
        ensures
            forall|l: int|
                0 <= l < 4 ==> #[trigger] r.seq()[l] == lane_product(items@, l, items@.len()),
    {
        packed_product(items)
    }
}

/// Vectors are equal exactly if all of their lanes stand for the same elements.
pub proof fn lemma_wide_equality(a: WideGoldilocksField, b: WideGoldilocksField)
    ensures
        a.eq_spec(&b) <==> forall|l: int|
            0 <= l < WideGoldilocksField::width() ==> (#[trigger] a.seq()[l]).v() == b.seq()[l].v(),
{
    WideGoldilocksField::lemma_width(a);
    WideGoldilocksField::lemma_width(b);
    assert forall|l: int| 0 <= l < 4 implies ((#[trigger] a.seq()[l]).v() == b.seq()[l].v()) == (
    a.seq()[l].0 as int % modulus() == b.seq()[l].0 as int % modulus()) by {
        GoldilocksField::lemma_values(a.seq()[l]);
        GoldilocksField::lemma_values(b.seq()[l]);
    }
    let x0 = a.seq()[0];
    let x1 = a.seq()[1];
    let x2 = a.seq()[2];
    let x3 = a.seq()[3];
}

} // verus!
