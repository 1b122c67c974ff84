//! Values that gates are evaluated on: one point of a field, or several points at once.

use crate::field::extension::QuadraticExtension;
use crate::field::goldilocks_field::GoldilocksField;
use crate::field::model::{Elt, base};
use crate::field::packed::PackedField;
use crate::field::types::Field;
use vstd::prelude::*;

verus! {

/// A value at each of a fixed number of points.
pub trait GateValue: Copy {
    /// The number of points.
    spec fn points() -> nat;

    /// The element at point `l`.
    spec fn at(self, l: int) -> Elt;

    /// There is a point, and the elements are reduced.
    proof fn lemma_at(a: Self, l: int)
        requires
            0 <= l < Self::points(),
        ensures
            a.at(l).wf(),
    ;

    /// The same constant at every point.
    fn constant(n: u64) -> (r: Self)
        ensures
            forall|l: int| 0 <= l < Self::points() ==> #[trigger] r.at(l) == base(n as int),
    ;

    /// Sum.
    fn plus(self, rhs: Self) -> (r: Self)
        ensures
            forall|l: int|
                0 <= l < Self::points() ==> #[trigger] r.at(l) == self.at(l) + rhs.at(l),
    ;

    /// Difference.
    fn minus(self, rhs: Self) -> (r: Self)
        ensures
            forall|l: int|
                0 <= l < Self::points() ==> #[trigger] r.at(l) == self.at(l) - rhs.at(l),
    ;

    /// Product.
    fn times(self, rhs: Self) -> (r: Self)
        ensures
            forall|l: int|
                0 <= l < Self::points() ==> #[trigger] r.at(l) == self.at(l) * rhs.at(l),
    ;

    /// `self + x * y`.
    fn plus_times(self, x: Self, y: Self) -> (r: Self)
        ensures
            forall|l: int|
                0 <= l < Self::points() ==> #[trigger] r.at(l) == self.at(l) + x.at(l) * y.at(l),
    ;
}

impl GateValue for GoldilocksField {
    open spec fn points() -> nat {
        1
    }

    open spec fn at(self, l: int) -> Elt {
        self.v()
    }

    proof fn lemma_at(a: Self, l: int) {
        GoldilocksField::lemma_values(a);
        assert(a.at(l) == a.v());
    }

    fn constant(n: u64) -> (r: Self)
        ensures
            r.at(0) == base(n as int),
    {
        GoldilocksField(n)
    }

    fn plus(self, rhs: Self) -> (r: Self)
        ensures
            r.at(0) == self.at(0) + rhs.at(0),
    {
        proof {
            GoldilocksField::lemma_ops(self, rhs);
        }
        self.add(rhs)
    }

    fn minus(self, rhs: Self) -> (r: Self)
        ensures
            r.at(0) == self.at(0) - rhs.at(0),
    {
        proof {
            GoldilocksField::lemma_ops(self, rhs);
        }
        self.sub(rhs)
    }

    fn times(self, rhs: Self) -> (r: Self)
        ensures
            r.at(0) == self.at(0) * rhs.at(0),
    {
        proof {
            GoldilocksField::lemma_ops(self, rhs);
        }
        self.mul(rhs)
    }

    fn plus_times(self, x: Self, y: Self) -> (r: Self)
        ensures
            r.at(0) == self.at(0) + x.at(0) * y.at(0),
    {
        proof {
            GoldilocksField::lemma_mac(self, x, y);
        }
        self.multiply_accumulate(x, y)
    }
}

impl GateValue for QuadraticExtension {
    open spec fn points() -> nat {
        1
    }

    open spec fn at(self, l: int) -> Elt {
        self.v()
    }

    proof fn lemma_at(a: Self, l: int) {
        QuadraticExtension::lemma_values(a);
        assert(a.at(l) == a.v());
    }

    fn constant(n: u64) -> (r: Self)
        ensures
            r.at(0) == base(n as int),
    {
        proof {
            QuadraticExtension::lemma_const(n);
        }
        QuadraticExtension::from_noncanonical_u64(n)
    }

    fn plus(self, rhs: Self) -> (r: Self)
        ensures
            r.at(0) == self.at(0) + rhs.at(0),
    {
        proof {
            QuadraticExtension::lemma_ops(self, rhs);
        }
        self.add(rhs)
    }

    fn minus(self, rhs: Self) -> (r: Self)
        ensures
            r.at(0) == self.at(0) - rhs.at(0),
    {
        proof {
            QuadraticExtension::lemma_ops(self, rhs);
        }
        self.sub(rhs)
    }

    fn times(self, rhs: Self) -> (r: Self)
        ensures
            r.at(0) == self.at(0) * rhs.at(0),
    {
        proof {
            QuadraticExtension::lemma_ops(self, rhs);
        }
        self.mul(rhs)
    }

    fn plus_times(self, x: Self, y: Self) -> (r: Self)
        ensures
            r.at(0) == self.at(0) + x.at(0) * y.at(0),
    {
        proof {
            QuadraticExtension::lemma_mac(self, x, y);
        }
        self.multiply_accumulate(x, y)
    }
}

impl<P: PackedField> GateValue for P {
    open spec fn points() -> nat {
        P::width()
    }

    open spec fn at(self, l: int) -> Elt {
        self.seq()[l].v()
    }

    proof fn lemma_at(a: Self, l: int) {
        P::lemma_width(a);
        <P::Scalar as Field>::lemma_values(a.seq()[l]);
        assert(a.at(l) == a.seq()[l].v());
    }

    fn constant(n: u64) -> (r: Self) {
        let r = P::broadcast(<P::Scalar as Field>::from_noncanonical_u64(n));
        proof {
            <P::Scalar as Field>::lemma_const(n);
            assert forall|l: int| 0 <= l < Self::points() implies #[trigger] r.at(l) == base(
                n as int,
            ) by {
                assert(r.at(l) == r.seq()[l].v());
            }
        }
        r
    }

    fn plus(self, rhs: Self) -> (r: Self) {
        let r = self.add(rhs);
        proof {
            assert forall|l: int| 0 <= l < Self::points() implies #[trigger] r.at(l) == self.at(l)
                + rhs.at(l) by {
                <P::Scalar as Field>::lemma_ops(self.seq()[l], rhs.seq()[l]);
                assert(r.at(l) == r.seq()[l].v());
            }
        }
        r
    }

    fn minus(self, rhs: Self) -> (r: Self) {
        let r = self.sub(rhs);
        proof {
            assert forall|l: int| 0 <= l < Self::points() implies #[trigger] r.at(l) == self.at(l)
                - rhs.at(l) by {
                <P::Scalar as Field>::lemma_ops(self.seq()[l], rhs.seq()[l]);
                assert(r.at(l) == r.seq()[l].v());
            }
        }
        r
    }

    fn times(self, rhs: Self) -> (r: Self) {
        let r = self.mul(rhs);
        proof {
            assert forall|l: int| 0 <= l < Self::points() implies #[trigger] r.at(l) == self.at(l)
                * rhs.at(l) by {
                <P::Scalar as Field>::lemma_ops(self.seq()[l], rhs.seq()[l]);
                assert(r.at(l) == r.seq()[l].v());
            }
        }
        r
    }

    fn plus_times(self, x: Self, y: Self) -> (r: Self) {
        let r = self.multiply_accumulate(x, y);
        proof {
            assert forall|l: int| 0 <= l < Self::points() implies #[trigger] r.at(l) == self.at(l)
                + x.at(l) * y.at(l) by {
                assert(r.at(l) == r.seq()[l].v());
            }
        }
        r
    }
}

} // verus!
