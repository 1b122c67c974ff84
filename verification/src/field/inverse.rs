//! Inverses in the Goldilocks field, by the Euclidean algorithm.

use crate::field::goldilocks_field::{GoldilocksField, MULTIPLICATIVE_GROUP_GENERATOR, ORDER};
use crate::field::model::{
    base, elt0, elt1, group_elt_wf, lemma_mul_assoc, lemma_mul_comm, lemma_mul_dist,
    lemma_mul_one_zero, lemma_reduced_mul, lemma_reduced_sub, modulus,
};
use crate::field::prime::{divides_common, lemma_euclid_end, lemma_euclid_step};
use crate::field::types::Field;
use vstd::arithmetic::div_mod::{
    lemma_fundamental_div_mod, lemma_mod_bound, lemma_mod_self_0, lemma_small_mod,
};
use vstd::prelude::*;

verus! {

impl GoldilocksField {
    /// The inverse, which every element but zero has.
    pub fn try_inverse(self) -> (r: Option<Self>)
        ensures
            r is Some <==> self.v() != elt0(),
            r matches Some(i) ==> self.v() * i.v() == elt1(),
    {
        let x: u64 = self.to_canonical_u64();
        if x == 0 {
            return None;
        }
        let mut a: u64 = ORDER;
        let mut b: u64 = x;
        let mut s = GoldilocksField(0);
        let mut t = GoldilocksField(1);
        proof {
            lemma_mod_self_0(modulus());
            lemma_small_mod(x as nat, modulus() as nat);
            assert(self.v() == base(x as int));
            lemma_mul_one_zero(self.v());
            assert(elt0() == base(ORDER as int));
        }
        while b != 0
            invariant
                0 < x < modulus(),
                self.v() == base(x as int),
                a > 0,
                self.v() * s.v() == base(a as int),
                self.v() * t.v() == base(b as int),
                divides_common(a as int, b as int, modulus()),
                divides_common(a as int, b as int, x as int),
            decreases b,
        {
            let q: u64 = a / b;
            let rest: u64 = a % b;
            let factor = GoldilocksField(q);
            let u = s.sub(factor.mul(t));
            proof {
                lemma_euclid_step(a as int, b as int, modulus());
                lemma_euclid_step(a as int, b as int, x as int);
                lemma_mod_bound(a as int, b as int);
                lemma_fundamental_div_mod(a as int, b as int);
                GoldilocksField::lemma_ops(factor, t);
                GoldilocksField::lemma_ops(s, factor.s_mul(t));
                let (y, f) = (self.v(), factor.v());
                broadcast use group_elt_wf;

                lemma_mul_dist(y, s.v(), f * t.v());
                lemma_mul_assoc(y, f, t.v());
                lemma_mul_comm(y, f);
                lemma_mul_assoc(f, y, t.v());
                lemma_reduced_mul(q as int, 0, b as int, 0);
                assert(q * 0 == 0 && 0 * b == 0);
                lemma_reduced_sub(a as int, 0, q * b, 0);
                assert(a - q * b == rest) by (nonlinear_arith)
                    requires
                        a as int == b as int * q as int + rest,
                ;
            }
            s = t;
            t = u;
            a = b;
            b = rest;
        }
        proof {
            lemma_euclid_end(a as int, x as int);
            lemma_small_mod(1, modulus() as nat);
        }
        Some(s)
    }

    /// The inverse of an element that is not zero.
    pub fn inverse(self) -> (r: Self)
        requires
            self.v() != elt0(),
        ensures
            self.v() * r.v() == elt1(),
    {
        match self.try_inverse() {
            Some(r) => r,
            None => self,
        }
    }

    /// The generator of the multiplicative group, by which cosets are shifted.
    pub fn coset_shift() -> (r: Self)
        ensures
            r.0 == MULTIPLICATIVE_GROUP_GENERATOR,
    {
        GoldilocksField(MULTIPLICATIVE_GROUP_GENERATOR)
    }
}

} // verus!
