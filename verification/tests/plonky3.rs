//! The permutation against an independent implementation.

use p3_field::{AbstractField, PrimeField64};
use p3_goldilocks::{DiffusionMatrixGoldilocks, Goldilocks, MATRIX_DIAG_12_GOLDILOCKS_U64};
use p3_poseidon2::{Poseidon2 as P3Poseidon2, Poseidon2ExternalMatrixGeneral};
use p3_symmetric::Permutation;
use plonky2::field::goldilocks_field::GoldilocksField;
use plonky2::hash::hashing::hash_n_to_m_no_pad;
use plonky2::hash::poseidon2::config::{
    EXTERNAL_CONSTANTS, INTERNAL_CONSTANTS, MATRIX_DIAG_12_U64, ROUNDS_F, ROUNDS_P,
};
use plonky2::hash::poseidon2::permutation::Poseidon2;

type P3 = P3Poseidon2<
    Goldilocks,
    Poseidon2ExternalMatrixGeneral,
    DiffusionMatrixGoldilocks,
    12,
    7,
>;

fn p3() -> P3 {
    let g = Goldilocks::from_canonical_u64;
    P3::new(
        ROUNDS_F,
        EXTERNAL_CONSTANTS.iter().map(|row| row.map(g)).collect(),
        Poseidon2ExternalMatrixGeneral,
        ROUNDS_P,
        INTERNAL_CONSTANTS.iter().map(|&x| g(x)).collect(),
        DiffusionMatrixGoldilocks::default(),
    )
}

fn p3_poseidon2_hash_n_to_m_no_pad(inputs: &[Goldilocks], num_outputs: usize) -> Vec<Goldilocks> {
    let p3 = p3();
    let mut state = [Goldilocks::zero(); 12];
    for chunk in inputs.chunks(8) {
        state[..chunk.len()].copy_from_slice(chunk);
        p3.permute_mut(&mut state);
    }
    let mut outputs = Vec::new();
    loop {
        for &item in &state[..8] {
            outputs.push(item);
            if outputs.len() == num_outputs {
                return outputs;
            }
        }
        p3.permute_mut(&mut state);
    }
}

fn input(seed: u64) -> [u32; 12] {
    core::array::from_fn(|i| {
        (seed + i as u64).wrapping_mul(0x9e37_79b9_7f4a_7c15).rotate_left(17) as u32
    })
}

#[test]
fn test_poseidon2_with_plonky3() {
    assert_eq!(MATRIX_DIAG_12_U64, MATRIX_DIAG_12_GOLDILOCKS_U64);
    for seed in 0..20 {
        let input = input(seed);

        let input_f = input
            .iter()
            .map(|&x| GoldilocksField::from_canonical_u64((x as u64) + 1073741824))
            .collect::<Vec<_>>();
        let expected_output_f = hash_n_to_m_no_pad(&input_f, 12);

        let input_f3 = input
            .iter()
            .map(|&x| Goldilocks::from_canonical_u64((x as u64) + 1073741824))
            .collect::<Vec<Goldilocks>>();
        let expected_output_f3 = p3_poseidon2_hash_n_to_m_no_pad(&input_f3, 12);

        for i in 0..12 {
            assert_eq!(
                expected_output_f[i].to_canonical_u64(),
                expected_output_f3[i].as_canonical_u64()
            );
        }
    }
}

#[test]
fn single_permutations_agree() {
    for seed in 100..110 {
        let words = input(seed).map(|x| x as u64 * 0xffff_fffe);
        let mut expected = words.map(Goldilocks::from_canonical_u64);
        p3().permute_mut(&mut expected);
        let actual = GoldilocksField::poseidon2(words.map(GoldilocksField::from_canonical_u64));
        assert_eq!(
            actual.map(|x| x.to_canonical_u64()),
            expected.map(|x| x.as_canonical_u64())
        );
    }
}
