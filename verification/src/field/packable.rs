//! The packing of each field.

use crate::field::arch::wide_goldilocks_field::WideGoldilocksField;
use crate::field::extension::QuadraticExtension;
use crate::field::goldilocks_field::GoldilocksField;
use crate::field::packed::{Packable, PackedField, interleave_left, interleave_right};
use crate::field::types::Field;
use vstd::prelude::*;

verus! {

/// A vector of one lane, for fields without a wider packing.
#[derive(Debug)]
pub struct Single<F: Field>(pub F);

impl<F: Field> Clone for Single<F> {
    fn clone(&self) -> (r: Self)
        ensures
            r == *self,
    {
        *self
    }
}

impl<F: Field> Copy for Single<F> {

}

impl<F: Field> PackedField for Single<F> {
    type Scalar = F;

    open spec fn width() -> nat {
        1
    }

    open spec fn seq(self) -> Seq<F> {
        seq![self.0]
    }

    open spec fn s_fused(a: F, x: F, y: F) -> F {
        a.s_mac(x, y)
    }

    proof fn lemma_width(a: Self) {
        assert(Self::width() == 1);
        assert(a.seq().len() == 1);
    }

    fn lane_count() -> (r: usize) {
        assert(Self::width() == 1);
        1
    }

    fn load(values: &[F], start: usize) -> (r: Self) {
        let r = Single(values[start]);
        assert(r.seq() =~= values@.subrange(start as int, start + Self::width()));
        r
    }

    fn lane(self, i: usize) -> (r: F)
        ensures
            r == self.seq()[0],
    {
        assert(Self::width() == 1);
        self.0
    }

    fn broadcast(x: F) -> (r: Self)
        ensures
            r.seq() == seq![x],
    {
        assert(Self::width() == 1);
        Single(x)
    }

    fn add(self, rhs: Self) -> (r: Self)
        ensures
            r.seq() == seq![self.seq()[0].s_add(rhs.seq()[0])],
    {
        assert(Self::width() == 1);
        Single(self.0.add(rhs.0))
    }

    fn sub(self, rhs: Self) -> (r: Self)
        ensures
            r.seq() == seq![self.seq()[0].s_sub(rhs.seq()[0])],
    {
        assert(Self::width() == 1);
        Single(self.0.sub(rhs.0))
    }

    fn mul(self, rhs: Self) -> (r: Self)
        ensures
            r.seq() == seq![self.seq()[0].s_mul(rhs.seq()[0])],
    {
        assert(Self::width() == 1);
        Single(self.0.mul(rhs.0))
    }

    fn neg(self) -> (r: Self)
        ensures
            r.seq() == seq![self.seq()[0].s_neg()],
    {
        assert(Self::width() == 1);
        Single(self.0.neg())
    }

    fn multiply_accumulate(self, x: Self, y: Self) -> (r: Self)
        ensures
            r.seq() == seq![Self::s_fused(self.seq()[0], x.seq()[0], y.seq()[0])],
    {
        assert(Self::width() == 1);
        proof {
            F::lemma_mac(self.0, x.0, y.0);
        }
        Single(self.0.multiply_accumulate(x.0, y.0))
    }

    fn interleave(self, other: Self, block_len: usize) -> (r: (Self, Self)) {
        assert(Self::width() == 1);
        assert(self.seq() =~= interleave_left(self.seq(), other.seq(), 1));
        assert(other.seq() =~= interleave_right(self.seq(), other.seq(), 1));
        (self, other)
    }
}

impl Packable for GoldilocksField {
    type Packing = WideGoldilocksField;

    fn lg_cache_block() -> (r: usize) {
        13
    }
}

impl Packable for QuadraticExtension {
    type Packing = Single<QuadraticExtension>;

    fn lg_cache_block() -> (r: usize) {
        12
    }
}

} // verus!
