//! Commitments to polynomials and low-degree proofs.

use plonky2::field::extension::QuadraticExtension;
use plonky2::field::fft::{fft_root_table, ifft};
use plonky2::field::goldilocks_field::{GoldilocksField, ORDER};
use plonky2::field::packed::{Packable, PackedField};
use plonky2::field::polynomial::{PolynomialCoeffs, PolynomialValues};
use plonky2::field::types::{powers, Field};
use plonky2::fri::commit_phase::{bitrev_flatten, fold_coeffs, reduce_with_powers};
use plonky2::fri::lookup::BatchLayout;
use plonky2::fri::oracle::PolynomialBatch;
use plonky2::fri::proof_of_work::fri_proof_of_work;
use plonky2::fri::prover::fri_proof;
use plonky2::fri::query::unflatten;
use plonky2::fri::quotient::accumulate_linear_quotient;
use plonky2::fri::reducing::ReducingFactor;
use plonky2::fri::structure::{
    final_poly_coeff_len, FriBatchInfo, FriConfig, FriInstanceInfo, FriParams, FriPolynomialInfo,
    FriProof,
};
use plonky2::hash::columns::ColumnStore;
use plonky2::hash::merkle_tree::{verify_merkle_proof_to_cap, MerkleTree};
use plonky2::hash::poseidon2::permutation::Poseidon2;
use plonky2::iop::challenger::Challenger;
use plonky2::plonk::config::Poseidon2GoldilocksConfig;
use plonky2::util::bits::reverse_bits;

const D: usize = 2;
type F = GoldilocksField;
type FE = QuadraticExtension;
type C = Poseidon2GoldilocksConfig;
type Batch = PolynomialBatch<C, D>;

fn f(x: u64) -> F {
    F::from_noncanonical_u64(x)
}

struct Values(u64);

impl Values {
    fn word(&mut self) -> u64 {
        self.0 = self.0.wrapping_add(0x9e37_79b9_7f4a_7c15);
        let mut z = self.0;
        z = (z ^ (z >> 30)).wrapping_mul(0xbf58_476d_1ce4_e5b9);
        z = (z ^ (z >> 27)).wrapping_mul(0x94d0_49bb_1331_11eb);
        z ^ (z >> 31)
    }

    fn base(&mut self) -> F {
        f(self.word())
    }

    fn bases(&mut self, n: usize) -> Vec<F> {
        (0..n).map(|_| self.base()).collect()
    }

    fn ext(&mut self) -> FE {
        QuadraticExtension([self.base(), self.base()])
    }

    fn exts(&mut self, n: usize) -> Vec<FE> {
        (0..n).map(|_| self.ext()).collect()
    }
}

fn polys(coeffs: &[Vec<F>]) -> Vec<PolynomialCoeffs<F>> {
    coeffs.iter().map(|c| PolynomialCoeffs::new(c.clone())).collect()
}

fn eval<E: Field>(coeffs: &[E], x: E) -> E {
    coeffs.iter().rev().fold(E::zero(), |acc, &c| acc.mul(x).add(c))
}

#[test]
fn shared_coset_powers_match_per_polynomial_shifts() {
    const RATE_BITS: usize = 3;

    let mut values = Values(1);
    let polynomials = (0..7)
        .map(|_| PolynomialCoeffs::new(values.bases(1 << 8)))
        .collect::<Vec<_>>();
    let expected = polynomials
        .iter()
        .map(|polynomial| {
            polynomial
                .lde(RATE_BITS)
                .coset_fft_with_options(F::coset_shift(), Some(RATE_BITS), None)
                .values
        })
        .collect::<Vec<_>>();
    let actual = Batch::lde_values(&polynomials, RATE_BITS, vec![], None);

    assert_eq!(actual, expected);
}

#[test]
fn retained_lde_fill_matches_legacy_vec_raw_words() {
    for degree in [1usize, 2, 8, 64] {
        let polynomials = (0..5)
            .map(|column| {
                PolynomialCoeffs::new(
                    (0..degree)
                        .map(|row| {
                            let raw = match (column * degree + row) & 7 {
                                0 => 0,
                                1 => 1,
                                2 => ORDER - 1,
                                3 => ORDER,
                                4 => ORDER + 1,
                                5 => u64::MAX,
                                _ => ((column + 1) as u64)
                                    .wrapping_mul(0x9e37_79b9_7f4a_7c15)
                                    .wrapping_add(row as u64),
                            };
                            GoldilocksField(raw)
                        })
                        .collect(),
                )
            })
            .collect::<Vec<_>>();

        for rate_bits in 0..=3 {
            let lde_len = degree << rate_bits;
            let roots = fft_root_table::<F>(lde_len);
            for root_table in [None, Some(&roots)] {
                let expected = Batch::lde_values(&polynomials, rate_bits, vec![], root_table);
                let mut retained = ColumnStore::Owned(
                    (0..polynomials.len())
                        .map(|_| vec![GoldilocksField(u64::MAX); lde_len])
                        .collect(),
                );
                assert!(Batch::fill_lde_column_store(
                    &mut retained,
                    &polynomials,
                    rate_bits,
                    root_table,
                ));

                for (column, expected) in expected.iter().enumerate() {
                    let actual = retained.col(column);
                    let actual_raw = actual
                        .iter()
                        .map(|value| value.to_noncanonical_u64())
                        .collect::<Vec<_>>();
                    let expected_raw = expected
                        .iter()
                        .map(|value| value.to_noncanonical_u64())
                        .collect::<Vec<_>>();
                    assert_eq!(
                        actual_raw, expected_raw,
                        "degree {degree}, rate_bits {rate_bits}, column {column}"
                    );
                }
            }
        }
    }
}

/// The same values, kept in rows and in columns.
fn row_and_column_batches(degree_log: usize, rate_bits: usize) -> (Batch, Batch, Vec<Vec<F>>) {
    let rows_len = 1usize << (degree_log + rate_bits);
    let columns = (0..5)
        .map(|column| {
            (0..rows_len)
                .map(|row| {
                    GoldilocksField(
                        ((column + 1) as u64)
                            .wrapping_mul(0x9e37_79b9_7f4a_7c15)
                            .wrapping_add(row as u64),
                    )
                })
                .collect::<Vec<_>>()
        })
        .collect::<Vec<_>>();
    let rows = (0..rows_len)
        .map(|leaf| {
            let natural = reverse_bits(leaf, degree_log + rate_bits);
            columns.iter().map(|column| column[natural]).collect::<Vec<_>>()
        })
        .collect::<Vec<_>>();
    let row_batch = PolynomialBatch {
        polynomials: Vec::new(),
        merkle_tree: MerkleTree::new(rows, 0),
        degree_log,
        rate_bits,
        blinding: false,
    };
    let column_batch = PolynomialBatch {
        polynomials: Vec::new(),
        merkle_tree: MerkleTree::new_columns(columns.clone(), 0),
        degree_log,
        rate_bits,
        blinding: false,
    };
    (row_batch, column_batch, columns)
}

#[test]
fn batches_are_equal_whatever_the_layout() {
    let (mut row_batch, mut column_batch, _) = row_and_column_batches(3, 2);
    assert!(row_batch == column_batch);
    row_batch.polynomials.push(PolynomialCoeffs::new(vec![F::one(), F::one()]));
    assert!(row_batch != column_batch);
    column_batch
        .polynomials
        .push(PolynomialCoeffs::new(vec![F::one(), GoldilocksField(ORDER + 1), F::zero()]));
    assert!(row_batch == column_batch);
    column_batch.polynomials[0].coeffs[2] = F::one();
    assert!(row_batch != column_batch);
    column_batch.polynomials[0].coeffs.truncate(1);
    assert!(row_batch != column_batch);
    let (first, _, _) = row_and_column_batches(3, 2);
    let (second, _, _) = row_and_column_batches(4, 1);
    assert!(first != second);
    let (mut third, _, _) = row_and_column_batches(3, 2);
    third.blinding = true;
    assert!(first != third);
}

#[test]
fn packed_gather_reaches_the_last_index() {
    type P = <F as Packable>::Packing;

    let (row_batch, column_batch, columns) = row_and_column_batches(3, 2);
    let rows_len = columns[0].len();
    let index_start = usize::MAX - (P::lane_count() - 1);
    for batch in [&row_batch, &column_batch] {
        let packed = batch.get_lde_values_packed::<P>(index_start, 1);
        for l in 0..P::lane_count() {
            assert_eq!(packed[2].lane(l), columns[2][(index_start + l) % rows_len]);
        }
    }
}

#[test]
fn retained_columns_packed_gather_matches_rows_across_domain_wrap() {
    type P = <F as Packable>::Packing;

    let degree_log = 4;
    let rate_bits = 2;
    let rows_len = 1usize << (degree_log + rate_bits);
    let (row_batch, column_batch, columns) = row_and_column_batches(degree_log, rate_bits);

    for step in [1usize, 2, 4] {
        let logical_len = rows_len / step;
        for index_start in [0, logical_len - 1, logical_len - P::lane_count() / 2] {
            let expected = row_batch.get_lde_values_packed::<P>(index_start, step);
            let actual = column_batch.get_lde_values_packed::<P>(index_start, step);
            let raw = |packed: &[P]| {
                packed
                    .iter()
                    .flat_map(|p| (0..4).map(|l| p.lane(l).to_noncanonical_u64()))
                    .collect::<Vec<_>>()
            };
            assert_eq!(raw(&actual), raw(&expected), "step {step}, start {index_start}");
            assert_eq!(
                actual[3].lane(1),
                columns[3][(index_start + 1) * step % rows_len]
            );
        }
    }
}

#[test]
fn batches_are_gathered_in_both_layouts() {
    let (row_batch, column_batch, columns) = row_and_column_batches(3, 2);
    assert_eq!(row_batch.lde_row_width(), 5);
    assert_eq!(row_batch.get_lde_values(3, 2)[4], columns[4][6]);
    for (indices, step) in [
        (vec![4, 5, 6], 1),
        (vec![7, 1, 30], 1),
        (vec![2, 3], 4),
        (vec![], 1),
    ] {
        for batch in [&row_batch, &column_batch] {
            let mut out = vec![f(9); 100];
            batch.fill_lde_batch(&indices, step, 1..4, BatchLayout::PointMajor, &mut out);
            assert_eq!(out.len(), indices.len() * 3);
            for (k, &i) in indices.iter().enumerate() {
                for c in 0..3 {
                    assert_eq!(out[k * 3 + c], columns[c + 1][i * step]);
                }
            }
            batch.fill_lde_batch(&indices, step, 1..4, BatchLayout::PolyMajor, &mut out);
            for (k, &i) in indices.iter().enumerate() {
                for c in 0..3 {
                    assert_eq!(out[c * indices.len() + k], columns[c + 1][i * step]);
                }
            }
        }
    }
    let mut out = vec![];
    column_batch.fill_lde_batch_contiguous(10, 4, 0..2, &mut out);
    assert_eq!(out[..4], columns[0][10..14]);
    assert_eq!(out[4..], columns[1][10..14]);
}

/// The passes that the fused accumulation replaces: a division, a multiplication, a sum.
fn reference_accumulation(initial: &[FE], composition: &[FE], z: FE, shift: FE) -> Vec<FE> {
    let d = composition.len();
    let mut quotient = vec![FE::zero(); d];
    let mut acc = FE::zero();
    for i in (0..d.saturating_sub(1)).rev() {
        acc = acc.mul(z).add(composition[i + 1]);
        quotient[i] = acc;
    }
    let mut expected: Vec<FE> = initial.iter().map(|x| x.mul(shift)).collect();
    if expected.len() < d {
        expected.resize(d, FE::zero());
    }
    for i in 0..d {
        expected[i] = expected[i].add(quotient[i]);
    }
    expected
}

#[test]
fn fused_quotient_accumulation_matches_reference() {
    fn raw(values: &[FE]) -> Vec<u64> {
        values
            .iter()
            .flat_map(|x| x.0)
            .map(|c| c.to_noncanonical_u64())
            .collect()
    }

    let mut values = Values(2);
    for &(old_len, d) in &[
        (0usize, 1usize),
        (0, 8),
        (1, 1),
        (8, 8),
        (4, 8),
        (8, 4),
        (256, 256),
    ] {
        let initial = values.exts(old_len);
        let composition = values.exts(d);
        let z = values.ext();
        let shift = values.ext();

        let expected = reference_accumulation(&initial, &composition, z, shift);
        let mut actual = PolynomialCoeffs::new(initial);
        let composition_poly = PolynomialCoeffs::new(composition);
        accumulate_linear_quotient(&mut actual, &composition_poly, z, shift);

        assert_eq!(raw(&actual.coeffs), raw(&expected));
    }
}

#[test]
fn quotients_divide_exactly() {
    let mut values = Values(3);
    let p = values.exts(9);
    let (z, x) = (values.ext(), values.ext());
    let mut quotient = PolynomialCoeffs::empty();
    accumulate_linear_quotient(&mut quotient, &PolynomialCoeffs::new(p.clone()), z, FE::one());
    assert_eq!(
        eval(&quotient.coeffs, x).mul(x.sub(z)),
        eval(&p, x).sub(eval(&p, z))
    );
    assert!(quotient.coeffs[8].is_zero());
}

#[test]
fn bitrev_flatten_matches_serial_gather() {
    // Sizes below, on and past a block of 2^10.
    for log_n in [0usize, 1, 5, 10, 11, 13] {
        let n = 1usize << log_n;
        let values: Vec<FE> = Values(4).exts(n);

        let mut expected: Vec<F> = Vec::with_capacity(n * D);
        for i in 0..n {
            expected.extend_from_slice(&values[reverse_bits(i, log_n)].0);
        }

        let actual = bitrev_flatten(&values);
        assert_eq!(actual.len(), expected.len(), "length for n = {n}");
        for (k, (a, e)) in actual.iter().zip(expected.iter()).enumerate() {
            assert_eq!(a.0, e.0, "limb {k} of {n}");
        }
        assert_eq!(unflatten(&actual)[n - 1], values[n - 1]);
    }
}

#[test]
fn reducing_factor_combines_by_powers() {
    let mut values = Values(5);
    let coeffs = [values.bases(3), values.bases(5), values.bases(4)];
    let polynomials = polys(&coeffs);
    let alpha = values.ext();
    let mut factor = ReducingFactor::new(alpha);
    let sum = factor.reduce_polys_base(&polynomials.iter().collect());
    assert_eq!(sum.coeffs.len(), 5);
    let p = powers(alpha, 4);
    for i in 0..5 {
        let mut expected = FE::zero();
        for j in 0..3 {
            if i < coeffs[j].len() {
                expected = expected.add(p[j].mul(FE::from_basefield(coeffs[j][i])));
            }
        }
        assert_eq!(sum.coeffs[i], expected);
    }
    assert_eq!(factor.shift_factor(), p[3]);
    assert_eq!(factor.shift_factor(), FE::one());
}

#[test]
fn folding_combines_the_parts_of_a_polynomial() {
    let mut values = Values(6);
    let c = values.exts(8);
    let beta = values.ext();
    let y = values.ext();
    assert_eq!(reduce_with_powers(&c, beta), eval(&c, beta));
    let folded = fold_coeffs(&c, beta, 4);
    assert_eq!(folded.len(), 2);
    let mut expected = FE::zero();
    for i in 0..4 {
        let part = [c[i], c[i + 4]];
        expected = expected.add(powers(beta, 4)[i].mul(eval(&part, y)));
    }
    assert_eq!(eval(&folded, y), expected);
}

#[test]
fn final_length_follows_the_reductions() {
    assert_eq!(final_poly_coeff_len(12, &vec![4, 4]), 16);
    assert_eq!(final_poly_coeff_len(5, &vec![]), 32);
    assert_eq!(final_poly_coeff_len(5, &vec![2, 3]), 1);
}

#[test]
fn committed_values_are_evaluations() {
    let mut values = Values(7);
    let coeffs: Vec<Vec<F>> = (0..3).map(|_| values.bases(16)).collect();
    let salt: Vec<Vec<F>> = (0..4).map(|_| values.bases(64)).collect();
    let plain = Batch::from_coeffs(polys(&coeffs), 2, false, vec![], 1, None);
    let blinded = Batch::from_coeffs(polys(&coeffs), 2, true, salt.clone(), 1, None);
    assert_eq!((plain.degree_log, plain.rate_bits), (4, 2));
    assert_eq!(plain.lde_row_width(), 3);
    assert_eq!(blinded.lde_row_width(), 3);
    assert_eq!(blinded.merkle_tree.leaf_width(), 7);
    assert_eq!(plain.merkle_tree.cap.len(), 2);
    let g = F::primitive_root_of_unity(6);
    let points = powers(g, 64);
    for batch in [&plain, &blinded] {
        let mut out = vec![];
        batch.fill_lde_batch(&[0, 1, 63], 1, 0..3, BatchLayout::PointMajor, &mut out);
        for (k, &i) in [0usize, 1, 63].iter().enumerate() {
            for j in 0..3 {
                assert_eq!(out[3 * k + j], eval(&coeffs[j], F::coset_shift().mul(points[i])));
            }
        }
    }
    let leaf = blinded.merkle_tree.leaf_vec(5);
    assert_eq!(leaf[4], salt[1][reverse_bits(5, 6)]);

    // From values on the subgroup.
    let on_subgroup: Vec<PolynomialValues<F>> = coeffs
        .iter()
        .map(|c| PolynomialCoeffs::new(c.clone()).coset_fft(F::one()))
        .collect();
    let from_values = Batch::from_values(on_subgroup, 2, false, vec![], 1, None);
    for j in 0..3 {
        assert_eq!(from_values.polynomials[j].coeffs, coeffs[j]);
    }
    assert_eq!(from_values.merkle_tree.cap.0, plain.merkle_tree.cap.0);
}

#[test]
fn empty_batches_are_the_default() {
    let batch = Batch::default();
    assert!(batch.polynomials.is_empty());
    assert_eq!(batch.merkle_tree.num_leaves, 0);
    assert!(!batch.blinding);
}

#[test]
fn challenges_depend_on_everything_observed() {
    let mut challenger = Challenger::new();
    for i in 0..3 {
        challenger.observe_element(f(i));
    }
    let mut state = [F::zero(); 12];
    state[..3].copy_from_slice(&[f(0), f(1), f(2)]);
    let state = F::poseidon2(state);
    // Challenges come from the last output to the first.
    assert_eq!(challenger.get_challenge(), state[7]);
    assert_eq!(
        challenger.get_extension_challenge(),
        QuadraticExtension([state[6], state[5]])
    );
    assert_eq!(challenger.get_n_challenges(5), [4, 3, 2, 1, 0].map(|i| state[i]).to_vec());
    // No outputs are left: the state is permuted once more.
    assert_eq!(challenger.get_challenge(), F::poseidon2(state)[7]);

    // A full block is absorbed at once.
    let mut challenger = Challenger::new();
    challenger.observe_elements(&(0..8).map(f).collect::<Vec<_>>());
    assert!(challenger.input_buffer.is_empty());
    let state = F::poseidon2(core::array::from_fn(|i| f(if i < 8 { i as u64 } else { 0 })));
    assert_eq!(challenger.get_challenge(), state[7]);
    challenger.observe_extension_element(&QuadraticExtension([f(3), f(4)]));
    assert_eq!(challenger.input_buffer, vec![f(3), f(4)]);
    assert!(challenger.output_buffer.is_empty());
}

#[test]
fn work_is_found_and_observed() {
    let config =
        FriConfig { rate_bits: 1, cap_height: 0, proof_of_work_bits: 6, num_query_rounds: 1 };
    for pending in [0, 3, 7] {
        let mut challenger = Challenger::new();
        for i in 0..pending {
            challenger.observe_element(f(100 + i));
        }
        let mut replay = Challenger::new();
        for i in 0..pending {
            replay.observe_element(f(100 + i));
        }
        let witness = fri_proof_of_work(&mut challenger, &config).unwrap();
        replay.observe_element(witness);
        let response = replay.get_challenge();
        assert!(response.to_canonical_u64().leading_zeros() >= 6);
        assert_eq!(replay.get_challenge(), challenger.get_challenge());
    }
}

/// The value at `beta` of the polynomial of least degree through the given points.
fn interpolate(points: &[FE], values: &[FE], beta: FE, inverse: &dyn Fn(FE) -> FE) -> FE {
    let mut sum = FE::zero();
    for i in 0..points.len() {
        let mut term = values[i];
        for j in 0..points.len() {
            if j != i {
                let below = inverse(points[i].sub(points[j]));
                term = term.mul(beta.sub(points[j])).mul(below);
            }
        }
        sum = sum.add(term);
    }
    sum
}

fn inverse(x: FE) -> FE {
    // (a + b X)^-1 == (a - b X) / (a^2 - 7 b^2)
    let [a, b] = x.0;
    let norm = a.mul(a).sub(f(7).mul(b.mul(b))).inverse();
    QuadraticExtension([a.mul(norm), b.neg().mul(norm)])
}

struct Setting {
    batches: Vec<Batch>,
    instance: FriInstanceInfo,
    params: FriParams,
}

fn setting() -> Setting {
    let mut values = Values(8);
    let rate_bits = 2;
    let cap_height = 1;
    let first: Vec<Vec<F>> = (0..3).map(|_| values.bases(32)).collect();
    let second: Vec<Vec<F>> = (0..2).map(|_| values.bases(32)).collect();
    let salt: Vec<Vec<F>> = (0..4).map(|_| values.bases(128)).collect();
    let batches = vec![
        Batch::from_coeffs(polys(&first), rate_bits, false, vec![], cap_height, None),
        Batch::from_coeffs(polys(&second), rate_bits, true, salt, cap_height, None),
    ];
    let at = |oracle_index, polynomial_index| FriPolynomialInfo { oracle_index, polynomial_index };
    let instance = FriInstanceInfo {
        batches: vec![
            FriBatchInfo {
                point: values.ext(),
                polynomials: vec![at(0, 0), at(0, 1), at(0, 2), at(1, 0), at(1, 1)],
            },
            FriBatchInfo { point: values.ext(), polynomials: vec![at(1, 1), at(0, 2)] },
        ],
    };
    let params = FriParams {
        config: FriConfig { rate_bits, cap_height, proof_of_work_bits: 3, num_query_rounds: 6 },
        reduction_arity_bits: vec![2, 1],
    };
    Setting { batches, instance, params }
}

fn observe_batches(setting: &Setting, challenger: &mut Challenger) {
    for batch in &setting.batches {
        challenger.observe_cap(&batch.merkle_tree.cap);
    }
}

/// The sum of the openings, reduced by the powers of `alpha`, at a point.
fn opened_at(setting: &Setting, alpha: FE, x: FE) -> FE {
    let mut sum = FE::zero();
    for batch in &setting.instance.batches {
        let p = powers(alpha, batch.polynomials.len() + 1);
        let combined = |x: FE| {
            batch.polynomials.iter().enumerate().fold(FE::zero(), |acc, (j, info)| {
                let poly = &setting.batches[info.oracle_index].polynomials[info.polynomial_index];
                let coeffs: Vec<FE> = poly.coeffs.iter().map(|&c| FE::from_basefield(c)).collect();
                acc.add(p[j].mul(eval(&coeffs, x)))
            })
        };
        let quotient = combined(x).sub(combined(batch.point)).mul(inverse(x.sub(batch.point)));
        sum = sum.mul(p[batch.polynomials.len()]).add(quotient);
    }
    sum
}

/// Replays a proof as a verifier does.
fn check_proof(
    setting: &Setting,
    proof: &FriProof,
    idle_rounds: usize,
    missing_coeffs: usize,
) {
    let config = &setting.params.config;
    let arities = &setting.params.reduction_arity_bits;
    let lg_n = 7;
    let mut challenger = Challenger::new();
    observe_batches(setting, &mut challenger);
    let alpha = challenger.get_extension_challenge();
    let mut betas = vec![];
    for cap in &proof.commit_phase_merkle_caps {
        challenger.observe_cap(cap);
        betas.push(challenger.get_extension_challenge());
    }
    for _ in 0..idle_rounds {
        challenger.observe_elements(&vec![F::zero(); 4 << config.cap_height]);
        challenger.get_extension_challenge();
    }
    challenger.observe_extension_elements(&proof.final_poly.coeffs);
    for _ in 0..missing_coeffs {
        challenger.observe_extension_element(&FE::zero());
    }
    challenger.observe_element(proof.pow_witness);
    let response = challenger.get_challenge();
    assert!(response.to_canonical_u64().leading_zeros() >= config.proof_of_work_bits);
    assert_eq!(proof.final_poly.coeffs.len(), 1 << (5 - 3));
    assert_eq!(proof.query_round_proofs.len(), config.num_query_rounds);

    for round in &proof.query_round_proofs {
        let mut index = challenger.get_challenge().to_canonical_u64() as usize % (1 << lg_n);
        for (j, (leaf, path)) in round.initial_trees_proof.evals_proofs.iter().enumerate() {
            let cap = &setting.batches[j].merkle_tree.cap;
            assert!(verify_merkle_proof_to_cap(leaf, index, cap, path));
        }
        // The point that the index stands for, and the value there.
        let mut lg = lg_n;
        let mut shift = F::coset_shift();
        let natural = reverse_bits(index, lg);
        let x = shift.mul(powers(F::primitive_root_of_unity(lg), natural + 1)[natural]);
        let mut value = opened_at(setting, alpha, FE::from_basefield(x));
        for (i, step) in round.steps.iter().enumerate() {
            let arity = 1 << arities[i];
            let group = index / arity;
            assert_eq!(step.evals.len(), arity);
            assert_eq!(step.evals[index % arity], value);
            let flat: Vec<F> = step.evals.iter().flat_map(|e| e.0).collect();
            let cap = &proof.commit_phase_merkle_caps[i];
            assert!(verify_merkle_proof_to_cap(&flat, group, cap, &step.merkle_proof));
            // Fold the group by interpolation.
            let g = powers(F::primitive_root_of_unity(lg), 1 << lg);
            let points: Vec<FE> = (0..arity)
                .map(|k| {
                    let natural = reverse_bits(group * arity + k, lg);
                    FE::from_basefield(shift.mul(g[natural]))
                })
                .collect();
            value = interpolate(&points, &step.evals, betas[i], &inverse);
            shift = shift.exp_power_of_2(arities[i]);
            lg -= arities[i];
            index = group;
        }
        let natural = reverse_bits(index, lg);
        let x = shift.mul(powers(F::primitive_root_of_unity(lg), natural + 1)[natural]);
        assert_eq!(eval(&proof.final_poly.coeffs, FE::from_basefield(x)), value);
    }
}

#[test]
fn openings_are_proved_to_a_verifier() {
    let setting = setting();
    let oracles: Vec<&Batch> = setting.batches.iter().collect();
    for (final_len, max_steps, idle, missing) in
        [(None, None, 0, 0), (Some(7), Some(4), 2, 3), (Some(2), Some(1), 0, 0)]
    {
        let mut challenger = Challenger::new();
        observe_batches(&setting, &mut challenger);
        let proof = Batch::prove_openings(
            &setting.instance,
            &oracles,
            &mut challenger,
            &setting.params,
            final_len,
            max_steps,
        )
        .unwrap();
        check_proof(&setting, &proof, idle, missing);
    }
}

#[test]
fn initial_trees_may_have_more_leaves() {
    let mut values = Values(15);
    let coeffs: Vec<FE> = (0..16).map(|_| values.ext()).collect();
    let params = FriParams {
        config: FriConfig { rate_bits: 1, cap_height: 1, proof_of_work_bits: 2, num_query_rounds: 3 },
        reduction_arity_bits: vec![1],
    };
    let mut poly = coeffs[..8].to_vec();
    poly.resize(16, FE::zero());
    let poly = PolynomialCoeffs::new(poly);
    let extended = poly.coset_fft(FE::from_basefield(F::coset_shift()));
    let leaves: Vec<Vec<F>> = (0..64).map(|_| values.bases(5)).collect();
    let tree = MerkleTree::new(leaves.clone(), 2);
    let proof = fri_proof(
        &vec![&tree],
        poly,
        extended,
        &mut Challenger::new(),
        &params,
        None,
        None,
    )
    .unwrap();
    assert_eq!(proof.query_round_proofs.len(), 3);
    for round in &proof.query_round_proofs {
        let (leaf, path) = &round.initial_trees_proof.evals_proofs[0];
        let index = leaves.iter().position(|l| l == leaf).unwrap();
        assert!(index < 16);
        assert!(verify_merkle_proof_to_cap(leaf, index, &tree.cap, path));
    }
}

#[test]
fn interpolation_recovers_coefficients() {
    let coeffs = Values(9).bases(8);
    let values = PolynomialCoeffs::new(coeffs.clone()).coset_fft(F::one());
    assert_eq!(ifft(values).coeffs, coeffs);
}
