//! Plans for the device, run by a device in software.

use plonky2::field::fft::ifft;
use plonky2::field::goldilocks_field::{GoldilocksField, ORDER};
use plonky2::field::polynomial::{PolynomialCoeffs, PolynomialValues};
use plonky2::field::types::Field;
use plonky2::hash::columns::{ColumnStore, MetalColumns};
use plonky2::hash::hash_types::HashOut;
use plonky2::hash::merkle_tree::{merkle_tree_prove, transpose_to_bitrev_flat, MerkleTree};
use plonky2::hash::poseidon2::config::{EXTERNAL_CONSTANTS, MATRIX_DIAG_12_U64};
use plonky2::hash::poseidon2::hash::Poseidon2Hash;
use plonky2::hash::poseidon2::metal::commitment_plan::{
    build_commitment_from_coeffs, build_commitment_from_values, build_from_coeffs,
    build_from_values, split_columns,
};
use plonky2::hash::poseidon2::metal::plan::{gpu_worthwhile, Dispatch, MetalError, Store};
use plonky2::hash::poseidon2::metal::pool::{
    group_width, needs_new_buffer, Acquired, BufferPool,
};
use plonky2::hash::poseidon2::metal::readback::tree_from_levels;
use plonky2::hash::poseidon2::metal::tables::{
    inverse_count, ones_for, parameter_values, roots_for, shift_powers_for,
};
use plonky2::hash::poseidon2::metal::tree_plan::{
    allocate_columns, build, build_merkle_tree, build_merkle_tree_columns,
    build_merkle_tree_shared, stage_columns, stage_leaves, LeafSource,
};
use plonky2::plonk::config::Hasher;
use plonky2::util::bits::reverse_bits;

type F = GoldilocksField;

/// The buffers of a device in software.
#[derive(Default)]
struct Device {
    input: Vec<u64>,
    output: Vec<u64>,
    columns: Vec<u64>,
    coefficients: Vec<u64>,
    shift_powers: Vec<u64>,
    ones: Vec<u64>,
    roots: Vec<u64>,
}

impl Device {
    fn read(&self, store: Store) -> &Vec<u64> {
        match store {
            Store::Input => &self.input,
            Store::Output => &self.output,
            Store::Columns => &self.columns,
            Store::Coefficients => &self.coefficients,
            Store::ShiftPowers => &self.shift_powers,
            Store::Ones => &self.ones,
        }
    }

    fn write_digest(&mut self, at: usize, digest: HashOut) {
        for i in 0..4 {
            self.output[at + i] = digest.elements[i].to_canonical_u64();
        }
    }

    fn digest(&self, at: usize) -> HashOut {
        HashOut { elements: core::array::from_fn(|i| GoldilocksField(self.output[at + i])) }
    }

    fn run(&mut self, dispatch: Dispatch) {
        match dispatch {
            Dispatch::NttPrepare {
                input,
                factors,
                output,
                degree,
                size,
                log_degree,
                rate_bits,
                width,
                height,
            } => {
                assert_eq!(output, Store::Columns);
                assert_eq!(width, size as usize);
                let mut columns = self.columns.clone();
                for j in 0..height {
                    for x in 0..width {
                        let k = reverse_bits(x >> rate_bits, log_degree as usize);
                        let a = GoldilocksField(self.read(factors)[k]);
                        let b = GoldilocksField(self.read(input)[j * degree as usize + k]);
                        columns[j * width + x] = a.mul(b).0;
                    }
                }
                self.columns = columns;
            }
            Dispatch::NttStage { roots_offset, size, stage, canonicalize, width, height } => {
                assert_eq!(2 * width, size as usize);
                let h = 1usize << stage;
                for j in 0..height {
                    for b in 0..width {
                        let (block, k) = (b / h, b % h);
                        let i = j * size as usize + block * 2 * h + k;
                        let w = GoldilocksField(self.roots[roots_offset / 8 + k]);
                        let t = w.mul(GoldilocksField(self.columns[i + h]));
                        let u = GoldilocksField(self.columns[i]);
                        let (mut x, mut y) = (u.add(t).0, u.sub(t).0);
                        if canonicalize == 1 {
                            x = GoldilocksField(x).to_canonical_u64();
                            y = GoldilocksField(y).to_canonical_u64();
                        }
                        self.columns[i] = x;
                        self.columns[i + h] = y;
                    }
                }
            }
            Dispatch::IfftFinalize { degree, factor, width, height } => {
                let n = degree as usize;
                assert_eq!(width, n);
                for j in 0..height {
                    for i in 0..n {
                        let from = GoldilocksField(self.columns[j * n + (n - i) % n]);
                        self.coefficients[j * n + i] =
                            from.mul(GoldilocksField(factor)).to_canonical_u64();
                    }
                }
            }
            Dispatch::HashLeaves { input, leaf_width, leaf_count, threads } => {
                assert_eq!(threads, leaf_count as usize);
                let w = leaf_width as usize;
                for i in 0..threads {
                    let leaf: Vec<F> = self.read(input)[i * w..(i + 1) * w]
                        .iter()
                        .map(|&x| GoldilocksField(x))
                        .collect();
                    self.write_digest(4 * i, Poseidon2Hash::hash_or_noop(&leaf));
                }
            }
            Dispatch::HashLeavesColumns {
                input,
                leaf_width,
                leaf_count,
                log_leaf_count,
                threads,
            } => {
                assert_eq!(threads, leaf_count as usize);
                for i in 0..threads {
                    let natural = reverse_bits(i, log_leaf_count as usize);
                    let leaf: Vec<F> = (0..leaf_width as usize)
                        .map(|j| GoldilocksField(self.read(input)[j * threads + natural]))
                        .collect();
                    self.write_digest(4 * i, Poseidon2Hash::hash_or_noop(&leaf));
                }
            }
            Dispatch::HashParents { child_offset, parent_offset, parent_count, threads } => {
                assert_eq!(threads, parent_count as usize);
                for i in 0..threads {
                    let child = child_offset / 8 + 8 * i;
                    let digest = Poseidon2Hash::two_to_one(self.digest(child), self.digest(child + 4));
                    self.write_digest(parent_offset / 8 + 4 * i, digest);
                }
            }
        }
    }
}

type Tree = (Vec<HashOut>, Vec<HashOut>);

fn run_tree(
    source: LeafSource,
    leaf_width: usize,
    leaf_count: usize,
    cap_height: usize,
) -> Tree {
    let plan = build(&source, leaf_width, leaf_count, cap_height).unwrap();
    let columns = match &source {
        LeafSource::Shared(columns) => {
            (0..columns.cols()).flat_map(|j| columns.col(j).to_vec()).map(|x| x.0).collect()
        }
        _ => vec![],
    };
    let staged = stage_leaves(&source);
    assert_eq!(plan.staging, !matches!(source, LeafSource::Shared(_)));
    if plan.staging {
        assert_eq!(staged.len(), plan.input_len);
    }
    assert_eq!(plan.input_bytes, (8 * plan.input_len).max(8));
    assert_eq!(plan.output_bytes, 8 * plan.output_len);
    let mut device = Device {
        input: staged,
        output: vec![u64::MAX; plan.output_len],
        columns,
        ..Device::default()
    };
    for &dispatch in &plan.dispatches {
        device.run(dispatch);
    }
    tree_from_levels(&device.output, &plan.level_offsets, leaf_count, cap_height)
}

fn cpu_tree(leaves: &[Vec<F>], cap_height: usize) -> Tree {
    let tree = MerkleTree::<Poseidon2Hash>::new(leaves.to_vec(), cap_height);
    (tree.digests, tree.cap.0)
}

struct Words(u64);

impl Words {
    fn next(&mut self) -> u64 {
        self.0 = self.0.wrapping_add(0x9e37_79b9_7f4a_7c15);
        let mut z = self.0;
        z = (z ^ (z >> 30)).wrapping_mul(0xbf58_476d_1ce4_e5b9);
        z ^ (z >> 27)
    }
}

fn boundary_word(i: usize, words: &mut Words) -> F {
    GoldilocksField(match i & 7 {
        0 => 0,
        1 => 1,
        2 => ORDER - 1,
        3 => ORDER,
        4 => ORDER + 1,
        5 => u64::MAX,
        _ => words.next(),
    })
}

fn columns_of(count: usize, len: usize, words: &mut Words) -> Vec<Vec<F>> {
    (0..count)
        .map(|_| (0..len).map(|_| GoldilocksField(words.next() % ORDER)).collect())
        .collect()
}

#[test]
fn metal_merkle_matches_cpu_across_sponge_boundaries() {
    let mut words = Words(0x4d45_5441_4c32);
    for width in [0, 1, 4, 5, 8, 9, 16, 17, 31, 64, 137] {
        let leaves: Vec<Vec<F>> = (0..64)
            .map(|leaf| {
                (0..width).map(|column| boundary_word(leaf * width + column, &mut words)).collect()
            })
            .collect();
        let flat = leaves.concat();
        let log_rows = 6;
        let columns: Vec<Vec<F>> = (0..width)
            .map(|column| {
                // Natural row i must hold what bit-reversed leaf rev(i) holds.
                (0..leaves.len())
                    .map(|natural| leaves[reverse_bits(natural, log_rows)][column])
                    .collect()
            })
            .collect();

        for cap_height in [0, 3, 6] {
            let cpu = cpu_tree(&leaves, cap_height);
            let rows = run_tree(LeafSource::Rows(&flat), width, leaves.len(), cap_height);
            assert_eq!(rows, cpu, "width {width}, cap height {cap_height}");
            let cols = run_tree(LeafSource::Columns(&columns), width, leaves.len(), cap_height);
            assert_eq!(cols, cpu, "width {width}, cap height {cap_height}");
        }
    }
}

/// The words of digests.
fn raw(digests: &[HashOut]) -> Vec<[u64; 4]> {
    digests.iter().map(|h| h.elements.map(|x| x.to_noncanonical_u64())).collect()
}

#[test]
fn shared_column_hash_matches_staged_full_tree_and_paths() {
    let mut words = Words(0x5348_4152_4544);
    for (rows, cap_height) in [(32usize, 0usize), (256, 3), (1024, 10)] {
        for cols in [1usize, 4, 5, 8, 9, 16, 17, 31] {
            let columns: Vec<Vec<F>> = (0..cols)
                .map(|column| {
                    (0..rows).map(|row| boundary_word(column * rows + row, &mut words)).collect()
                })
                .collect();
            let staged = run_tree(LeafSource::Columns(&columns), cols, rows, cap_height);
            let mut shared =
                MetalColumns::from_flat(vec![GoldilocksField(u64::MAX); rows * cols], rows, cols);
            for (j, column) in columns.iter().enumerate() {
                shared.set_col(j, column);
            }
            let direct = run_tree(LeafSource::Shared(&shared), cols, rows, cap_height);
            assert_eq!(raw(&direct.0), raw(&staged.0), "cols {cols}, cap height {cap_height}");
            assert_eq!(raw(&direct.1), raw(&staged.1), "cols {cols}, cap height {cap_height}");
            for leaf in 0..rows {
                assert_eq!(
                    raw(&merkle_tree_prove::<Poseidon2Hash>(leaf, rows, cap_height, &direct.0)),
                    raw(&merkle_tree_prove::<Poseidon2Hash>(leaf, rows, cap_height, &staged.0)),
                    "leaf {leaf}"
                );
            }
        }
    }
}

fn lde(coeffs: &[F], rate_bits: usize) -> Vec<F> {
    PolynomialCoeffs::new(coeffs.to_vec())
        .lde(rate_bits)
        .coset_fft_with_options(F::coset_shift(), Some(rate_bits), None)
        .values
}

fn tree_over_columns(columns: &[Vec<F>], log_rows: usize, cap_height: usize) -> Tree {
    let flat = transpose_to_bitrev_flat(&ColumnStore::Owned(columns.to_vec()), log_rows);
    let rows: Vec<Vec<F>> = flat.chunks(columns.len()).map(|row| row.to_vec()).collect();
    cpu_tree(&rows, cap_height)
}

fn slices(columns: &[Vec<F>]) -> Vec<&[F]> {
    columns.iter().map(|c| c.as_slice()).collect()
}

fn device_for(input: Vec<u64>, log_degree: usize, rate_bits: usize, cols: usize) -> Device {
    let degree = 1 << log_degree;
    Device {
        input,
        columns: vec![u64::MAX; (degree << rate_bits) * cols],
        coefficients: vec![u64::MAX; degree * cols],
        shift_powers: shift_powers_for(degree),
        ones: ones_for(degree),
        roots: roots_for(log_degree + rate_bits).0,
        ..Device::default()
    }
}

#[test]
fn metal_ntt_commitment_matches_cpu() {
    let mut words = Words(0x4e54_5432);
    for (log_degree, rate_bits, cols) in [(6, 3, 5usize), (8, 3, 3), (7, 2, 9)] {
        let degree = 1usize << log_degree;
        let lde_size = degree << rate_bits;
        let coeffs = columns_of(cols, degree, &mut words);
        let cpu_columns: Vec<Vec<F>> = coeffs.iter().map(|c| lde(c, rate_bits)).collect();

        for cap_height in [0, 3] {
            let plan = build_from_coeffs(degree, rate_bits, cap_height, cols).unwrap();
            assert_eq!(plan.lde_size, lde_size);
            let mut device =
                device_for(stage_columns(&slices(&coeffs)), log_degree, rate_bits, cols);
            assert_eq!(device.input.len(), plan.input_len);
            assert_eq!(8 * device.columns.len(), plan.column_bytes);
            device.output = vec![u64::MAX; plan.output_len];
            for &dispatch in &plan.dispatches {
                device.run(dispatch);
            }
            for j in 0..cols {
                for i in 0..lde_size {
                    assert_eq!(
                        device.columns[j * lde_size + i],
                        cpu_columns[j][i].to_canonical_u64(),
                        "column {j} row {i} (log_degree {log_degree}, rate {rate_bits})"
                    );
                }
            }
            let tree = tree_from_levels(&device.output, &plan.level_offsets, lde_size, cap_height);
            assert_eq!(
                tree,
                tree_over_columns(&cpu_columns, log_degree + rate_bits, cap_height)
            );
        }
    }
}

#[test]
fn metal_values_commitment_matches_cpu() {
    let mut words = Words(0x4946_4654);
    for (log_degree, rate_bits, cols) in [(6, 3, 5usize), (7, 3, 3)] {
        let degree = 1usize << log_degree;
        let lde_size = degree << rate_bits;
        let values = columns_of(cols, degree, &mut words);
        let cpu_coeffs: Vec<Vec<F>> = values
            .iter()
            .map(|v| ifft(PolynomialValues::new(v.clone())).coeffs)
            .collect();
        let cpu_columns: Vec<Vec<F>> = cpu_coeffs.iter().map(|c| lde(c, rate_bits)).collect();

        let cap_height = 3;
        let plan = build_from_values(degree, rate_bits, cap_height, cols).unwrap();
        let mut device = device_for(stage_columns(&slices(&values)), log_degree, rate_bits, cols);
        device.output = vec![u64::MAX; plan.output_len];
        for &dispatch in &plan.dispatches {
            device.run(dispatch);
        }
        let coeffs = split_columns(&device.coefficients, degree, cols);
        for j in 0..cols {
            for k in 0..degree {
                assert_eq!(
                    coeffs[j][k].to_canonical_u64(),
                    cpu_coeffs[j][k].to_canonical_u64(),
                    "coeff column {j} index {k} (log_degree {log_degree})"
                );
            }
            for i in 0..lde_size {
                assert_eq!(
                    device.columns[j * lde_size + i],
                    cpu_columns[j][i].to_canonical_u64(),
                    "LDE column {j} row {i} (log_degree {log_degree})"
                );
            }
        }
        let tree = tree_from_levels(&device.output, &plan.level_offsets, lde_size, cap_height);
        assert_eq!(
            tree,
            tree_over_columns(&cpu_columns, log_degree + rate_bits, cap_height)
        );
    }
}

#[test]
fn only_large_trees_are_worth_it() {
    // Leaves of up to four elements are not hashed at all.
    assert!(!gpu_worthwhile(4, 1 << 19, 0));
    assert!(gpu_worthwhile(4, 1 << 20, 4));
    // One permutation for each leaf, and almost one for each parent.
    assert!(gpu_worthwhile(5, 1 << 19, 0));
    assert!(!gpu_worthwhile(8, 1 << 18, 0));
    assert!(gpu_worthwhile(9, 1 << 18, 0));
    assert!(gpu_worthwhile(137, 1 << 15, 4));

    let small = vec![GoldilocksField(1); 64];
    assert!(build_merkle_tree(&small, 8, 8, 0).unwrap().is_none());
    assert!(build_merkle_tree_columns(&vec![], 0).unwrap().is_none());
    assert!(build_merkle_tree_columns(&vec![small.clone(); 3], 2).unwrap().is_none());
    let shared = MetalColumns::from_flat(small.clone(), 8, 8);
    assert!(build_merkle_tree_shared(&shared, 0).unwrap().is_none());
    assert!(allocate_columns(0, 8, 0).unwrap().is_none());
    assert!(allocate_columns(8, 7, 0).unwrap().is_none());
    assert!(allocate_columns(8, 8, 4).unwrap().is_none());
    assert!(build_commitment_from_coeffs(&vec![&small], 3, 0).unwrap().is_none());
    assert!(build_commitment_from_values(&vec![&small], 3, 0).unwrap().is_none());
}

#[test]
fn large_trees_get_plans() {
    let rows = 1usize << 16;
    let leaves = vec![GoldilocksField(1); rows * 64];
    let plan = build_merkle_tree(&leaves, 64, rows, 4).unwrap().unwrap();
    assert_eq!(plan.dispatches.len(), 1 + 12);
    assert_eq!(plan.level_offsets[..3], [0, 4 * rows, 4 * rows + 2 * rows]);
    assert_eq!(plan.output_len, 4 * (2 * rows - 16));
    // One row too few.
    assert!(build_merkle_tree(&leaves[1..], 64, rows, 4).unwrap().is_none());

    let columns = allocate_columns(64, rows, 4).unwrap().unwrap();
    assert_eq!((columns.rows(), columns.cols()), (rows, 64));
    assert!(build_merkle_tree_shared(&columns, 4).unwrap().is_some());

    let column = vec![GoldilocksField(3); rows];
    let owned = vec![column.clone(); 64];
    assert!(build_merkle_tree_columns(&owned, 4).unwrap().is_some());
    let mut ragged = owned.clone();
    ragged[5].pop();
    assert!(build_merkle_tree_columns(&ragged, 4).unwrap().is_none());

    let plan = build_commitment_from_coeffs(&slices(&owned), 1, 4).unwrap().unwrap();
    // A gather, the stages from the first on, the leaves, and the levels above them.
    assert_eq!(plan.dispatches.len(), 1 + 16 + 1 + 13);
    let plan = build_commitment_from_values(&slices(&owned), 1, 4).unwrap().unwrap();
    assert_eq!(plan.dispatches.len(), (1 + 16 + 1) + (1 + 16 + 1 + 13));
    assert!(build_commitment_from_coeffs(&slices(&owned), 0, 4).unwrap().is_none());
    // What does not suit is answered whatever the cap.
    assert!(build_merkle_tree_columns(&ragged, 60).unwrap().is_none());
    assert!(build_commitment_from_coeffs(&slices(&ragged), 1, 60).unwrap().is_none());
    assert!(build_commitment_from_values(&slices(&ragged), 70, 60).unwrap().is_none());
    assert!(build_commitment_from_coeffs(&slices(&owned), 0, 60).unwrap().is_none());
    assert!(build_commitment_from_values(&slices(&owned), 40, 60).unwrap().is_none());
    assert!(build_merkle_tree(&owned[0], 3, 5, 60).unwrap().is_none());
    assert!(build_merkle_tree(&owned[0][..15], 3, 5, 2).unwrap().is_none());
}

#[test]
fn sizes_that_overflow_are_reported() {
    // The product of the two largest counts fits, but not its size in bytes.
    let width = u32::MAX as usize;
    let count = 1usize << 31;
    let error = build(&LeafSource::Rows(&[]), width, count, 0).unwrap_err();
    assert_eq!(error, MetalError::LeafInputSize);
    assert_eq!(error.message(), "Metal leaf input size overflow");
    assert_eq!(
        allocate_columns(width, count, 0).unwrap_err(),
        MetalError::ColumnSize
    );
    assert_eq!(
        build_from_coeffs(count, 0, 0, width).unwrap_err().message(),
        "NTT coefficient size overflow"
    );
    assert_eq!(
        build_from_values(count / 8, 3, 0, width).unwrap_err().message(),
        "NTT column size overflow"
    );
}

#[test]
fn tables_hold_canonical_words() {
    let parameters = parameter_values();
    assert_eq!(parameters.len(), 130);
    assert_eq!(parameters[13], EXTERNAL_CONSTANTS[1][1]);
    assert_eq!(parameters[129], MATRIX_DIAG_12_U64[11]);

    let (roots, offsets) = roots_for(3);
    assert_eq!(offsets, vec![0, 1, 3]);
    let eighth = F::primitive_root_of_unity(3);
    let fourth = eighth.square();
    assert_eq!(roots.len(), 7);
    assert_eq!(roots[..3], [1, 1, fourth.to_canonical_u64()]);
    assert_eq!(roots[6], eighth.mul(fourth).to_canonical_u64());
    assert_eq!(roots_for(0), (vec![], vec![]));

    let shifts = shift_powers_for(3);
    assert_eq!(shifts[0], 1);
    assert_eq!(shifts[2], F::coset_shift().square().to_canonical_u64());
    assert_eq!(ones_for(2), vec![1, 1]);
    assert_eq!(GoldilocksField(inverse_count(4)).mul(GoldilocksField(16)), F::one());
}

#[test]
fn one_build_is_in_flight_at_a_time() {
    let mut pool = BufferPool::new();
    assert_eq!(pool.acquire_set(), Acquired::Create);
    assert_eq!(pool.acquire_set(), Acquired::Wait);
    pool.release_set();
    assert_eq!(pool.acquire_set(), Acquired::Reuse);
    assert_eq!(pool.acquire_set(), Acquired::Wait);

    assert!(needs_new_buffer(None, 8));
    assert!(needs_new_buffer(Some(7), 8));
    assert!(!needs_new_buffer(Some(8), 8));
    assert_eq!(group_width(1024, 32), 64);
    assert_eq!(group_width(48, 32), 48);
    assert_eq!(group_width(16, 32), 32);
}
