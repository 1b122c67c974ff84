//! Transforms against references that take one stage after the other.

use plonky2::field::coset::coset_fft_zero_tail;
use plonky2::field::extension::QuadraticExtension;
use plonky2::field::fft::{
    fft, fft_classic, fft_in_place_with_options, fft_root_table, fft_with_options, ifft,
    FftRootTable,
};
use plonky2::field::goldilocks_field::GoldilocksField;
use plonky2::field::packed::Packable;
use plonky2::field::polynomial::{PolynomialCoeffs, PolynomialValues};
use plonky2::field::types::{powers, Field};
use plonky2::util::bits::{log2_strict, reverse_bits, reverse_index_bits_in_place};

type F = GoldilocksField;

fn f(x: u64) -> F {
    F::from_noncanonical_u64(x)
}

fn evaluate_at_naive<E: Field>(coefficients: &[E], point: E) -> E {
    let mut sum = E::zero();
    let mut point_power = E::one();
    for &c in coefficients {
        sum = sum.add(c.mul(point_power));
        point_power = point_power.mul(point);
    }
    sum
}

fn evaluate_naive(coefficients: &[F]) -> Vec<F> {
    let degree_log = log2_strict(coefficients.len());
    let g = F::primitive_root_of_unity(degree_log);
    powers(g, coefficients.len())
        .into_iter()
        .map(|x| evaluate_at_naive(coefficients, x))
        .collect()
}

#[test]
fn fft_and_ifft() {
    let degree = 200usize;
    let degree_padded = degree.next_power_of_two();

    // Create a vector of coeffs; the first degree of them are
    // "random", the last degree_padded-degree of them are zero.
    let coeffs = (0..degree)
        .map(|i| f((i * 1337 % 100) as u64))
        .chain(core::iter::repeat_n(F::zero(), degree_padded - degree))
        .collect::<Vec<_>>();
    assert_eq!(coeffs.len(), degree_padded);

    let points = fft(PolynomialCoeffs::new(coeffs.clone()));
    assert_eq!(points.values, evaluate_naive(&coeffs));

    let interpolated_coefficients = ifft(points);
    for i in 0..degree {
        assert_eq!(interpolated_coefficients.coeffs[i], coeffs[i]);
    }
    for i in degree..degree_padded {
        assert_eq!(interpolated_coefficients.coeffs[i], F::zero());
    }

    for r in 0..4 {
        // expand coefficients by factor 2^r by filling with zeros
        let coefficients = PolynomialCoeffs::new(coeffs.clone());
        assert_eq!(
            fft(coefficients.lde(r)).values,
            fft_with_options(coefficients.lde(r), Some(r), None).values
        );
    }
}

/// One stage of butterflies after the other, over the whole buffer.
fn fft_classic_reference<E: Field>(values: &mut [E], r: usize, root_table: &FftRootTable<E>) {
    let n = values.len();
    let lg_n = log2_strict(n);
    let before = values.to_vec();
    for i in 0..n {
        values[i] = before[reverse_bits(i, lg_n)];
    }
    if r > 0 {
        let mask = !((1 << r) - 1);
        for i in 0..n {
            values[i] = values[i & mask];
        }
    }
    for lg_half_m in r..lg_n {
        let half_m = 1 << lg_half_m;
        for k in (0..n).step_by(2 * half_m) {
            for j in 0..half_m {
                let t = root_table[lg_half_m][j].mul(values[k + half_m + j]);
                let u = values[k + j];
                values[k + j] = u.add(t);
                values[k + half_m + j] = u.sub(t);
            }
        }
    }
}

fn deterministic_value(i: usize) -> F {
    F::from_canonical_u64((i as u64).wrapping_mul(0x9e37_79b9).rotate_left(13) % 1_000_000_007)
}

fn deterministic_values(n: usize) -> Vec<F> {
    (0..n).map(deterministic_value).collect()
}

fn shifted(coeffs: &[F], shift: F) -> Vec<F> {
    coeffs
        .iter()
        .zip(powers(shift, coeffs.len()))
        .map(|(&coefficient, power)| coefficient.mul(power))
        .collect()
}

fn ifft_reference(mut values: Vec<F>, root_table: &FftRootTable<F>) -> Vec<F> {
    let n = values.len();
    let lg_n = log2_strict(n);
    let n_inv = F::inverse_2exp(lg_n);
    fft_classic_reference(&mut values, 0, root_table);

    values[0] = values[0].mul(n_inv);
    values[n / 2] = values[n / 2].mul(n_inv);
    for i in 1..n / 2 {
        let j = n - i;
        let coeff_i = values[j].mul(n_inv);
        let coeff_j = values[i].mul(n_inv);
        values[i] = coeff_i;
        values[j] = coeff_j;
    }
    values
}

#[test]
fn fft_matches_stage_major_reference_across_sizes() {
    for lg_n in [0, 1, 2, 3, 4, 5, 8, 11, 12, 13, 14, 16, 18] {
        let n = 1 << lg_n;
        let roots = fft_root_table(n);
        let mut expected = deterministic_values(n);
        let mut actual = expected.clone();

        fft_classic_reference(&mut expected, 0, &roots);
        fft_classic(&mut actual, 0, &roots);
        assert_eq!(actual, expected, "FFT mismatch at 2^{lg_n}");
    }
}

#[test]
fn coset_fft_and_ifft_match_stage_major_reference() {
    let shift = F::coset_shift();

    for lg_n in [3, 8, 12, 15] {
        let n = 1 << lg_n;
        let roots = fft_root_table(n);
        let coeffs = deterministic_values(n);

        let mut expected_fft = shifted(&coeffs, shift);
        fft_classic_reference(&mut expected_fft, 0, &roots);
        let actual_fft = PolynomialCoeffs::new(coeffs).coset_fft(shift).values;
        assert_eq!(actual_fft, expected_fft, "coset FFT mismatch at 2^{lg_n}");

        let values = deterministic_values(n);
        let expected_ifft = shifted(&ifft_reference(values.clone(), &roots), shift.inverse());
        let actual_ifft = PolynomialValues::new(values).coset_ifft(shift).coeffs;
        assert_eq!(
            actual_ifft, expected_ifft,
            "coset IFFT mismatch at 2^{lg_n}"
        );
    }
}

#[test]
fn zero_padded_lde_shapes_match_full_and_shortcut_references() {
    let shift = F::coset_shift();

    for (base_lg_n, r) in [(3, 1), (8, 2), (10, 3), (12, 3), (13, 3), (15, 3)] {
        let lg_n = base_lg_n + r;
        let n = 1 << lg_n;
        let nonzero_len = 1 << base_lg_n;
        let roots = fft_root_table(n);
        let padded = deterministic_values(nonzero_len)
            .into_iter()
            .chain(core::iter::repeat_n(F::zero(), n - nonzero_len))
            .collect::<Vec<_>>();

        let mut expected_shortcut = padded.clone();
        fft_classic_reference(&mut expected_shortcut, r, &roots);
        let mut expected_full = padded.clone();
        fft_classic_reference(&mut expected_full, 0, &roots);
        assert_eq!(
            expected_shortcut, expected_full,
            "reference shortcut mismatch for 2^{base_lg_n} -> 2^{lg_n}"
        );

        let mut actual = padded.clone();
        fft_classic(&mut actual, r, &roots);
        assert_eq!(
            actual, expected_full,
            "zero-padded FFT mismatch for 2^{base_lg_n} -> 2^{lg_n}"
        );

        let mut expected_coset = shifted(&padded, shift);
        fft_classic_reference(&mut expected_coset, 0, &roots);
        let actual_coset = PolynomialCoeffs::new(padded)
            .coset_fft_with_options(shift, Some(r), Some(&roots))
            .values;
        assert_eq!(
            actual_coset, expected_coset,
            "zero-padded coset FFT mismatch for 2^{base_lg_n} -> 2^{lg_n}"
        );
    }
}

#[test]
fn zero_padded_extension_fft_matches_reference() {
    let base_lg_n = 10;
    let r = 3;
    let n = 1 << (base_lg_n + r);
    let nonzero_len = 1 << base_lg_n;
    let roots = fft_root_table(n);
    let mut actual = (0..nonzero_len)
        .map(|i| QuadraticExtension([deterministic_value(i), deterministic_value(i + nonzero_len)]))
        .chain(core::iter::repeat_n(QuadraticExtension::zero(), n - nonzero_len))
        .collect::<Vec<_>>();
    let mut expected = actual.clone();

    fft_classic_reference(&mut expected, r, &roots);
    fft_classic(&mut actual, r, &roots);
    assert_eq!(actual, expected);
}

fn random_values<E: Field>(n: usize, seed: u64) -> Vec<E> {
    (0..n as u64)
        .map(|i| {
            E::from_noncanonical_u64(
                (seed + i)
                    .wrapping_mul(0x9e37_79b9_7f4a_7c15)
                    .rotate_left(29)
                    .wrapping_mul(0xbf58_476d_1ce4_e5b9),
            )
        })
        .collect()
}

/// The zero-tail coset FFT is value-identical to the full-length coset scaling for every
/// polynomial whose coefficients from `live` on are zero.
fn check_zero_tail<E: Packable + PartialEq + core::fmt::Debug>() {
    for lg_n in [1usize, 2, 4, 6, 9] {
        let n = 1usize << lg_n;
        for rate_bits in 1..=3usize.min(lg_n) {
            let support = n >> rate_bits;
            for live in [support, support / 2, support.saturating_sub(1)] {
                let mut coeffs = random_values::<E>(live, 17);
                coeffs.resize(n, E::zero());
                let poly = PolynomialCoeffs::new(coeffs);
                let shift = random_values::<E>(1, 5)[0];
                let expected = poly.coset_fft_with_options(shift, Some(rate_bits), None);
                let actual = coset_fft_zero_tail(&poly, shift, live, Some(rate_bits), None);
                assert_eq!(actual.values, expected.values);
            }
        }
        // `rate_bits = 0` is the degenerate no-tail case.
        let poly = PolynomialCoeffs::new(random_values::<E>(n, 23));
        let shift = random_values::<E>(1, 29)[0];
        assert_eq!(
            coset_fft_zero_tail(&poly, shift, n, None, None).values,
            poly.coset_fft_with_options(shift, None, None).values
        );
    }
}

#[test]
fn coset_fft_zero_tail_matches_classic() {
    check_zero_tail::<GoldilocksField>();
    check_zero_tail::<QuadraticExtension>();
}

#[test]
fn zero_tails_take_any_table_to_the_word() {
    let n = 16;
    let live = 4;
    let mut coeffs = random_values::<F>(live, 31);
    coeffs.resize(n, F::zero());
    let poly = PolynomialCoeffs::new(coeffs);
    let shift = random_values::<F>(1, 37)[0];
    // Not the powers of a root of unity, but of the right shape.
    let table: FftRootTable<F> =
        (0..4).map(|s| random_values::<F>(2usize.max(1 << s), 41 + s as u64)).collect();
    let mut scaled = powers(shift, live)
        .into_iter()
        .zip(&poly.coeffs)
        .map(|(power, &c)| power.mul(c))
        .collect::<Vec<_>>();
    scaled.resize(n, F::zero());
    fft_classic(&mut scaled, 2, &table);
    let actual = coset_fft_zero_tail(&poly, shift, live, Some(2), Some(&table)).values;
    assert_eq!(
        actual.iter().map(|x| x.0).collect::<Vec<_>>(),
        scaled.iter().map(|x| x.0).collect::<Vec<_>>()
    );
}

#[test]
fn transforms_without_a_table_use_the_root_table() {
    for lg_n in 0..8 {
        let n = 1usize << lg_n;
        let coeffs = random_values::<F>(n, 43);
        let table = fft_root_table::<F>(n);
        let with = fft_with_options(PolynomialCoeffs::new(coeffs.clone()), None, Some(&table));
        let without = fft(PolynomialCoeffs::new(coeffs));
        assert_eq!(
            with.values.iter().map(|x| x.0).collect::<Vec<_>>(),
            without.values.iter().map(|x| x.0).collect::<Vec<_>>()
        );
        for (s, row) in table.iter().enumerate() {
            assert_eq!(row.len(), 2usize.max(1 << s));
            assert_eq!(row[1], F::primitive_root_of_unity(s + 1));
        }
    }
}

#[test]
fn transforms_of_four_values_are_exact() {
    // The root of unity of order four is 2^48.
    let points = fft(PolynomialCoeffs::new([1, 2, 3, 4].map(f).to_vec())).values;
    let i = f(1 << 48);
    assert_eq!(points[0], f(10));
    assert_eq!(points[1], f(1).add(f(2).mul(i)).sub(f(3)).sub(f(4).mul(i)));
    assert_eq!(points[2], f(2).neg());
    assert_eq!(points[3], f(1).sub(f(2).mul(i)).sub(f(3)).add(f(4).mul(i)));
}

#[test]
fn in_place_transform_equals_the_owning_one() {
    let coeffs = deterministic_values(64);
    let mut buffer = coeffs.clone();
    fft_in_place_with_options(&mut buffer, None, None);
    assert_eq!(buffer, fft(PolynomialCoeffs::new(coeffs)).values);
}

#[test]
fn coset_transforms_invert_each_other() {
    let coeffs = deterministic_values(32);
    let shift = F::coset_shift();
    let values = PolynomialCoeffs::new(coeffs.clone()).coset_fft(shift);
    assert_eq!(
        values.values[1],
        evaluate_at_naive(&coeffs, shift.mul(F::primitive_root_of_unity(5)))
    );
    assert_eq!(values.coset_ifft(shift).coeffs, coeffs);
}

#[test]
fn bit_reversal_reorders_indices() {
    assert_eq!(reverse_bits(0b0011, 4), 0b1100);
    assert_eq!(reverse_bits(0b10011, 4), 0b1100);
    assert_eq!(reverse_bits(0, 0), 0);
    let mut v: Vec<usize> = (0..8).collect();
    reverse_index_bits_in_place(&mut v, 8, 3);
    assert_eq!(v, vec![0, 4, 2, 6, 1, 5, 3, 7]);
}
