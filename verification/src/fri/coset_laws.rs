//! The coset that values are taken on lies outside every subgroup that they are transformed on.

use crate::field::dft::lemma_root_full;
use crate::field::goldilocks_field::{GoldilocksField, MULTIPLICATIVE_GROUP_GENERATOR};
use crate::field::model::{
    Elt, base, elt1, group_elt_wf, lemma_mul_one_zero, lemma_reduced_mul, modulus,
};
use crate::field::roots::{
    lemma_power_add, lemma_power_mul, lemma_power_of_product, lemma_power_one, lemma_power_small,
    lemma_power_wf, power, root,
};
use crate::field::types::Field;
use crate::fri::lde::coset_shift_elt;
use crate::util::bits::{lemma_pow2_basics, lemma_pow2_double};
use vstd::arithmetic::power2::{lemma_pow2_adds, pow2};
use vstd::prelude::*;

verus! {

proof fn lemma_squared(n: nat, x: int, y: int)
    requires
        power(coset_shift_elt(), pow2(n)) == base(x),
        (x * x) % modulus() == y,
    ensures
        power(coset_shift_elt(), pow2(n + 1)) == base(y),
{
    let s = coset_shift_elt();
    GoldilocksField::lemma_values(GoldilocksField(MULTIPLICATIVE_GROUP_GENERATOR));
    lemma_pow2_double(n);
    lemma_power_add(s, pow2(n), pow2(n));
    lemma_reduced_mul(x, 0, x, 0);
    assert(x * 0 == 0 && 0 * x == 0);
    assert(base(y) == base(x * x));
}

proof fn lemma_shift_powers()
    ensures
        power(coset_shift_elt(), pow2(32)) == base(901137371075495226),
        coset_shift_elt() == base(14293326489335486720),
{
    let s = coset_shift_elt();
    GoldilocksField::lemma_values(GoldilocksField(MULTIPLICATIVE_GROUP_GENERATOR));
    lemma_pow2_basics();
    lemma_power_small(s);
    lemma_squared(0, 14293326489335486720, 4700049436776250445);
    lemma_squared(1, 4700049436776250445, 18196947516708736925);
    lemma_squared(2, 18196947516708736925, 6203009912824666656);
    lemma_squared(3, 6203009912824666656, 11796957557555108937);
    lemma_squared(4, 11796957557555108937, 1633629184600895140);
    lemma_squared(5, 1633629184600895140, 4330207543506945610);
    lemma_squared(6, 4330207543506945610, 2740048426097633992);
    lemma_squared(7, 2740048426097633992, 3400848380421331992);
    lemma_squared(8, 3400848380421331992, 414749938251020672);
    lemma_squared(9, 414749938251020672, 10833034178274742998);
    lemma_squared(10, 10833034178274742998, 9919693248077566522);
    lemma_squared(11, 9919693248077566522, 7795323304124012563);
    lemma_squared(12, 7795323304124012563, 3381059501616120826);
    lemma_squared(13, 3381059501616120826, 11308612296268856151);
    lemma_squared(14, 11308612296268856151, 504510147067613426);
    lemma_squared(15, 504510147067613426, 16182078048758273251);
    lemma_squared(16, 16182078048758273251, 2171882672185704069);
    lemma_squared(17, 2171882672185704069, 2589324600504459444);
    lemma_squared(18, 2589324600504459444, 10397070764592422752);
    lemma_squared(19, 10397070764592422752, 8102471719609872973);
    lemma_squared(20, 8102471719609872973, 13137967968879141756);
    lemma_squared(21, 13137967968879141756, 12739533886404094389);
    lemma_squared(22, 12739533886404094389, 6812145577251448486);
    lemma_squared(23, 6812145577251448486, 13771859974914086783);
    lemma_squared(24, 13771859974914086783, 3641880429844993710);
    lemma_squared(25, 3641880429844993710, 16248045628142304314);
    lemma_squared(26, 16248045628142304314, 1176422176342373693);
    lemma_squared(27, 1176422176342373693, 58309498189794084);
    lemma_squared(28, 58309498189794084, 13742823261604758307);
    lemma_squared(29, 13742823261604758307, 8826086337531522517);
    lemma_squared(30, 8826086337531522517, 1090814248941969078);
    lemma_squared(31, 1090814248941969078, 901137371075495226);
}

proof fn lemma_one_stays(x: Elt, k: nat, n: nat)
    requires
        x.wf(),
        k <= n,
        power(x, pow2(k)) == elt1(),
    ensures
        power(x, pow2(n)) == elt1(),
{
    lemma_pow2_adds(k, (n - k) as nat);
    lemma_power_mul(x, pow2(k), pow2((n - k) as nat));
    lemma_power_one(pow2((n - k) as nat));
}

/// No point of the coset is in the subgroup, whatever its order: otherwise the shift would be, and
/// some power of two of it would be one.
pub proof fn lemma_coset_outside_subgroup(lg_n: nat, i: nat, j: nat)
    requires
        lg_n <= 32,
    ensures
        coset_shift_elt() == base(14293326489335486720),
        power(coset_shift_elt(), pow2(lg_n)) != elt1(),
        coset_shift_elt() * power(root(lg_n), i) != power(root(lg_n), j),
{
    broadcast use group_elt_wf;

    let s = coset_shift_elt();
    GoldilocksField::lemma_values(GoldilocksField(MULTIPLICATIVE_GROUP_GENERATOR));
    lemma_shift_powers();
    if power(s, pow2(lg_n)) == elt1() {
        lemma_one_stays(s, lg_n, 32);
    }
    let n = pow2(lg_n);
    let r = root(lg_n);
    lemma_root_full(lg_n);
    lemma_power_wf(r, i);
    lemma_power_wf(r, j);
    if s * power(r, i) == power(r, j) {
        lemma_power_of_product(s, power(r, i), n);
        lemma_power_mul(r, i, n);
        lemma_power_mul(r, n, i);
        lemma_power_mul(r, j, n);
        lemma_power_mul(r, n, j);
        assert(i * n == n * i && j * n == n * j) by (nonlinear_arith);
        lemma_power_one(i);
        lemma_power_one(j);
        lemma_power_wf(s, n);
        lemma_mul_one_zero(power(s, n));
    }
}

} // verus!
