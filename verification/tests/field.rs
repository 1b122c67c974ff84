//! Field arithmetic, packed and batched.

use plonky2::field::arch::neon_goldilocks_field::{mul_reduce_pair, NeonGoldilocksField};
use plonky2::field::arch::wide_goldilocks_field::WideGoldilocksField;
use plonky2::field::batch_util::{
    batch_add_inplace, batch_multiply_add_inplace, batch_multiply_inplace,
    pack_slice_with_leftovers, pack_with_leftovers_split_point,
};
use plonky2::field::extension::QuadraticExtension;
use plonky2::field::goldilocks_field::{
    reduce128, reduce96, GoldilocksField, EPSILON, MULTIPLICATIVE_GROUP_GENERATOR, ORDER,
};
use plonky2::field::packed::PackedField;
use plonky2::field::types::{powers, Field};

type F = GoldilocksField;

fn f(x: u64) -> F {
    F::from_noncanonical_u64(x)
}

fn values() -> [F; 12] {
    [
        F::zero(),
        F::one(),
        f(2),
        f(ORDER - 1),
        f(ORDER),
        f(ORDER + 1),
        f(u32::MAX as u64),
        f(1 << 32),
        f(u64::MAX),
        f(14_479_013_849_828_404_771),
        f(9_087_029_921_428_221_768),
        f(2_441_288_194_761_790_662),
    ]
}

fn lanes(p: WideGoldilocksField) -> Vec<F> {
    (0..4).map(|i| p.lane(i)).collect()
}

#[test]
fn arithmetic_matches_scalar_field() {
    let values = values();
    for i in 0..values.len() {
        for j in 0..values.len() {
            let a = NeonGoldilocksField([values[i], values[(i + 5) % values.len()]]);
            let b = NeonGoldilocksField([values[j], values[(j + 7) % values.len()]]);
            let scalar = values[(i + j) % values.len()];

            assert_eq!(a.add(b).0, [a.0[0].add(b.0[0]), a.0[1].add(b.0[1])]);
            assert_eq!(a.sub(b).0, [a.0[0].sub(b.0[0]), a.0[1].sub(b.0[1])]);
            assert_eq!(a.mul(b).0, [a.0[0].mul(b.0[0]), a.0[1].mul(b.0[1])]);
            assert_eq!(
                a.mul(NeonGoldilocksField::broadcast(scalar)).0,
                [a.0[0].mul(scalar), a.0[1].mul(scalar)]
            );
            assert_eq!(a.neg().0, [a.0[0].neg(), a.0[1].neg()]);
            assert_eq!(a.square().0, [a.0[0].square(), a.0[1].square()]);
        }
    }
}

#[test]
fn packed_values_are_divided_summed_and_multiplied() {
    let values = values();
    let items: Vec<WideGoldilocksField> =
        (0..3).map(|i| WideGoldilocksField::load(&values, 4 * i)).collect();
    let pairs: Vec<NeonGoldilocksField> =
        (0..6).map(|i| NeonGoldilocksField::load(&values, 2 * i)).collect();
    let raw = |x: F| x.0;
    for divisor in [f(7), f(ORDER - 1), f(u64::MAX), f(3).mul(f(ORDER + 2))] {
        for item in &items {
            let quotient = item.div(divisor);
            for l in 0..4 {
                assert_eq!(quotient.lane(l).mul(divisor), item.lane(l));
            }
        }
        for pair in &pairs {
            let quotient = pair.div(divisor);
            let mut assigned = *pair;
            assigned.div_assign(divisor);
            for l in 0..2 {
                assert_eq!(quotient.lane(l), pair.lane(l).mul(divisor.inverse()));
                assert_eq!(raw(assigned.lane(l)), raw(quotient.lane(l)));
            }
        }
    }
    let (sum, product) = (WideGoldilocksField::sum(&items), WideGoldilocksField::product(&items));
    for l in 0..4 {
        let lane: Vec<F> = items.iter().map(|x| x.lane(l)).collect();
        assert_eq!(raw(sum.lane(l)), raw(lane[0].add(lane[1]).add(lane[2])));
        assert_eq!(raw(product.lane(l)), raw(lane[0].mul(lane[1]).mul(lane[2])));
    }
    // A single vector is left as it is, and there are neutral elements.
    assert_eq!(raw(NeonGoldilocksField::sum(&pairs[4..5]).lane(0)), u64::MAX);
    assert_eq!(raw(NeonGoldilocksField::product(&pairs[4..5]).lane(0)), u64::MAX);
    assert_eq!(NeonGoldilocksField::sum(&[]), NeonGoldilocksField::broadcast(F::zero()));
    assert_eq!(WideGoldilocksField::product(&[]), WideGoldilocksField::broadcast(F::one()));
    let total = NeonGoldilocksField::sum(&pairs[1..3]);
    assert_eq!(total.lane(1), pairs[1].lane(1).add(pairs[2].lane(1)));
    let factor = NeonGoldilocksField::product(&pairs[1..3]);
    assert_eq!(factor.lane(0), pairs[1].lane(0).mul(pairs[2].lane(0)));
}

#[test]
fn packed_views_and_interleave_preserve_lane_order() {
    let mut values = [
        F::from_canonical_u64(0),
        F::from_canonical_u64(1),
        F::from_canonical_u64(10),
        F::from_canonical_u64(11),
    ];
    let packed = [
        NeonGoldilocksField::load(&values, 0),
        NeonGoldilocksField::load(&values, 2),
    ];
    let (left, right) = packed[0].interleave(packed[1], 1);
    assert_eq!(left.0, [values[0], values[2]]);
    assert_eq!(right.0, [values[1], values[3]]);
    assert_eq!(left.interleave(right, 1), (packed[0], packed[1]));

    let one = NeonGoldilocksField::broadcast(F::one());
    packed[1].add(one).store(&mut values, 2);
    assert_eq!(values[2], F::from_canonical_u64(11));
    assert_eq!(values[3], F::from_canonical_u64(12));
}

#[test]
fn four_lane_operations_match_scalar_field() {
    let a = [F::zero(), F::one(), f(ORDER), f(u64::MAX)];
    let b = [
        f(14_479_013_849_828_404_771),
        f(9_087_029_921_428_221_768),
        f(2_441_288_194_761_790_662),
        f(2),
    ];
    let packed_a = WideGoldilocksField::load(&a, 0);
    let packed_b = WideGoldilocksField::load(&b, 0);
    let each = |op: &dyn Fn(usize) -> F| (0..4).map(op).collect::<Vec<_>>();
    assert_eq!(lanes(packed_a.add(packed_b)), each(&|i| a[i].add(b[i])));
    assert_eq!(lanes(packed_a.sub(packed_b)), each(&|i| a[i].sub(b[i])));
    assert_eq!(lanes(packed_a.mul(packed_b)), each(&|i| a[i].mul(b[i])));
    assert_eq!(lanes(packed_a.square()), each(&|i| a[i].square()));
    assert_eq!(
        lanes(packed_a.multiply_accumulate(packed_b, packed_a)),
        each(&|i| a[i].add(b[i].mul(a[i])))
    );

    for block_len in [1, 2, 4] {
        let (left, right) = packed_a.interleave(packed_b, block_len);
        assert_eq!(left.interleave(right, block_len), (packed_a, packed_b));
    }
}

#[test]
fn fused_reduction_matches_scalar_boundary_products() {
    let values = values();
    for i in 0..values.len() {
        for j in 0..values.len() {
            let a: [F; 4] = core::array::from_fn(|lane| values[(i + 2 * lane) % values.len()]);
            let b: [F; 4] = core::array::from_fn(|lane| values[(j + 3 * lane) % values.len()]);
            let packed_a = WideGoldilocksField::load(&a, 0);
            let packed_b = WideGoldilocksField::load(&b, 0);

            assert_eq!(
                lanes(packed_a.mul(packed_b)),
                (0..4).map(|lane| a[lane].mul(b[lane])).collect::<Vec<_>>()
            );
            assert_eq!(
                lanes(packed_a.square()),
                (0..4).map(|lane| a[lane].square()).collect::<Vec<_>>()
            );
        }
    }
}

#[test]
fn batch_multiply_add_matches_scalar_with_packed_leftovers() {
    let mut out = (0..11).map(|i| f(i + 1)).collect::<Vec<_>>();
    let a = (0..11).map(|i| f(2 * i + 3)).collect::<Vec<_>>();
    let b = (0..11).map(|i| f(3 * i + 5)).collect::<Vec<_>>();
    let expected = out
        .iter()
        .zip(&a)
        .zip(&b)
        .map(|((&x_out, &x_a), &x_b)| x_out.add(x_a.mul(x_b)))
        .collect::<Vec<_>>();

    batch_multiply_add_inplace(&mut out, &a, &b);

    assert_eq!(out, expected);
}

#[test]
fn batch_products_and_sums_match_scalar_words() {
    for n in 0..10u64 {
        let start = (0..n).map(|i| f(u64::MAX - i)).collect::<Vec<_>>();
        let a = (0..n).map(|i| f(ORDER - 3 + i)).collect::<Vec<_>>();
        let mut product = start.clone();
        batch_multiply_inplace(&mut product, &a);
        let mut sum = start.clone();
        batch_add_inplace(&mut sum, &a);
        for i in 0..n as usize {
            assert_eq!(product[i].0, start[i].mul(a[i]).0);
            assert_eq!(sum[i].0, start[i].add(a[i]).0);
        }
    }
}

#[test]
fn packing_keeps_leftovers_apart() {
    let values = (0..11).map(f).collect::<Vec<_>>();
    assert_eq!(
        pack_with_leftovers_split_point::<WideGoldilocksField>(&values),
        8
    );
    let (packed, leftovers) = pack_slice_with_leftovers::<WideGoldilocksField>(&values);
    assert_eq!(packed.len(), 2);
    assert_eq!(lanes(packed[1]), values[4..8].to_vec());
    assert_eq!(leftovers, values[8..].to_vec());
}

#[test]
fn reductions_agree_with_wide_arithmetic() {
    let p = ORDER as u128;
    for x in [0u128, 1, p - 1, p, p + 1, (1 << 96) - 1, 1 << 95] {
        let r = reduce96(x as u64, (x >> 64) as u32);
        assert_eq!(r as u128 % p, x % p);
    }
    for x in [0u128, 1, p * p, u128::MAX, (u64::MAX as u128) * (u64::MAX as u128)] {
        assert_eq!(reduce128(x) as u128 % p, x % p);
    }
    assert_eq!(EPSILON, (1 << 32) - 1);
    assert_eq!(ORDER, u64::MAX - EPSILON + 1);
    assert_eq!(
        F::from_noncanonical_u128_with_96_bits((1 << 96) - 1).to_canonical_u64() as u128,
        ((1u128 << 96) - 1) % p
    );
}

#[test]
fn paired_products_are_the_two_products() {
    let (r0, r1) = mul_reduce_pair(u64::MAX, u64::MAX, ORDER - 1, 2);
    assert_eq!(r0, f(u64::MAX).mul(f(u64::MAX)).0);
    assert_eq!(r1, f(ORDER - 1).mul(f(2)).0);
    assert_eq!(f(r1), f(ORDER - 2));
}

#[test]
fn canonical_words_are_reduced() {
    assert_eq!(f(u64::MAX).to_canonical_u64(), EPSILON - 1);
    assert_eq!(f(ORDER).to_canonical_u64(), 0);
    assert_eq!(f(ORDER).to_noncanonical_u64(), ORDER);
    assert!(f(ORDER).is_zero());
    assert!(f(ORDER + 1).is_one());
    assert_eq!(f(u64::MAX).add_canonical_u64(ORDER - 1), f(EPSILON - 2));
    assert_eq!(f(5).neg(), f(ORDER - 5));
}

#[test]
fn inverses_multiply_to_one() {
    for x in [1, 2, 3, ORDER - 1, ORDER + 7, u64::MAX] {
        assert!(f(x).mul(f(x).inverse()).is_one());
    }
    assert!(f(0).try_inverse().is_none());
    assert!(f(ORDER).try_inverse().is_none());
    assert_eq!(f(2).inverse(), f(0x7fff_ffff_8000_0001));
    assert_eq!(F::inverse_2exp(3), f(8).inverse());
    assert_eq!(F::coset_shift().0, MULTIPLICATIVE_GROUP_GENERATOR);
}

#[test]
fn roots_of_unity_have_their_order() {
    for n_log in [0, 1, 2, 5, 32] {
        let g = F::primitive_root_of_unity(n_log);
        assert!(g.exp_power_of_2(n_log).is_one());
        if n_log > 0 {
            assert_eq!(g.exp_power_of_2(n_log - 1), f(ORDER - 1));
        }
    }
    let g = QuadraticExtension::primitive_root_of_unity(33);
    assert!(g.exp_power_of_2(33).is_one());
    assert!(!g.exp_power_of_2(32).is_one());
}

#[test]
fn extension_multiplies_modulo_its_polynomial() {
    let x = QuadraticExtension([f(0), f(1)]);
    assert_eq!(x.mul(x), QuadraticExtension([f(7), f(0)]));
    let a = QuadraticExtension([f(3), f(5)]);
    let b = QuadraticExtension([f(11), f(13)]);
    assert_eq!(a.mul(b), QuadraticExtension([f(33 + 7 * 65), f(39 + 55)]));
    assert_eq!(a.add(b), QuadraticExtension([f(14), f(18)]));
    assert_eq!(a.sub(a), QuadraticExtension::zero());
    assert_eq!(a.multiply_accumulate(a, b), a.add(a.mul(b)));
    assert_eq!(
        QuadraticExtension::from_basefield(f(9)),
        QuadraticExtension([f(9), f(0)])
    );
}

#[test]
fn powers_start_at_one() {
    assert_eq!(powers(f(3), 5), [1, 3, 9, 27, 81].map(f).to_vec());
    assert_eq!(powers(f(3), 0), vec![]);
}
