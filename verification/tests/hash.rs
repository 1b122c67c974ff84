//! The hash function, digests and Merkle trees.

use plonky2::field::goldilocks_field::{GoldilocksField, ORDER};
use plonky2::field::types::Field;
use plonky2::hash::columns::{ColumnStore, MetalColumns};
use plonky2::hash::hash_types::{GenericHashOut, HashOut};
use plonky2::hash::hashing::{
    compress, hash_n_to_hash_no_pad, hash_n_to_m_no_pad, Poseidon2Permutation,
};
use plonky2::hash::merkle_tree::{
    fill_digests_buf, fill_digests_buf_flat, merkle_tree_prove, transpose_to_bitrev_flat,
    verify_merkle_proof_to_cap, MerkleCap, MerkleLeaves, MerkleProof, MerkleTree,
};
use plonky2::hash::poseidon2::hash::Poseidon2Hash;
use plonky2::hash::poseidon2::permutation::Poseidon2;
use plonky2::plonk::config::Hasher;
use plonky2::util::bits::reverse_bits;

type F = GoldilocksField;

fn f(x: u64) -> F {
    F::from_noncanonical_u64(x)
}

fn words(n: usize, seed: u64) -> Vec<F> {
    (0..n as u64)
        .map(|i| {
            f((seed * 1000 + i)
                .wrapping_mul(0x9e37_79b9_7f4a_7c15)
                .rotate_left(31)
                .wrapping_mul(0xbf58_476d_1ce4_e5b9))
        })
        .collect()
}

fn random_data(n: usize, k: usize) -> Vec<Vec<F>> {
    (0..n).map(|i| words(k, i as u64)).collect()
}

fn verify_all_leaves(leaves: Vec<Vec<F>>, cap_height: usize) {
    let tree = MerkleTree::<Poseidon2Hash>::new(leaves.clone(), cap_height);
    for (i, leaf) in leaves.iter().enumerate() {
        let proof = tree.prove(i);
        assert!(verify_merkle_proof_to_cap(leaf, i, &tree.cap, &proof));
    }
}

#[test]
fn test_cap_height_eq_log2_len() {
    let log_n = 8;
    let n = 1 << log_n;
    verify_all_leaves(random_data(n, 7), log_n);
}

#[test]
fn test_merkle_trees() {
    let log_n = 8;
    let n = 1 << log_n;
    verify_all_leaves(random_data(n, 7), 1);
}

#[test]
fn permutation_of_the_first_twelve_numbers() {
    let input: [F; 12] = core::array::from_fn(|i| f(i as u64));
    let expected = [
        0x2098486c2b0418e8,
        0x50601ba1d7bc5a74,
        0xed1a4a77bf1a7634,
        0x6ef7efbc51f893e6,
        0x4a719987b7bb363d,
        0x567d1a6f026105bb,
        0x4a3a7f8d0368d419,
        0x2acc05e34106160a,
        0x5c4f2fce60c08e5e,
        0x82040af10c0ed47e,
        0x9a4cc837a0c43da8,
        0x8c1b6007dd2cb33e,
    ];
    let output = F::poseidon2(input);
    assert_eq!(output.map(|x| x.to_canonical_u64()), expected);

    let mut state = Poseidon2Permutation::new(&input);
    state.permute();
    assert_eq!(state.state, output);
    assert_eq!(state.squeeze(), output[..8].to_vec());
}

#[test]
fn permutation_does_not_depend_on_the_representation() {
    let small: [F; 12] = core::array::from_fn(|i| f(i as u64));
    let large: [F; 12] = core::array::from_fn(|i| f(ORDER + i as u64));
    assert_eq!(F::poseidon2(small), F::poseidon2(large));
}

#[test]
fn sponge_absorbs_eight_at_a_time() {
    let input = words(12, 1);
    let mut state = [F::zero(); 12];
    state[..8].copy_from_slice(&input[..8]);
    state = F::poseidon2(state);
    state[..4].copy_from_slice(&input[8..]);
    state = F::poseidon2(state);
    assert_eq!(hash_n_to_m_no_pad(&input, 8), state[..8].to_vec());
    let mut twelve = state[..8].to_vec();
    twelve.extend(&F::poseidon2(state)[..4]);
    assert_eq!(hash_n_to_m_no_pad(&input, 12), twelve);
    assert_eq!(hash_n_to_hash_no_pad(&input).elements[..], state[..4]);
    assert_eq!(Poseidon2Hash::hash_no_pad(&input).elements[..], state[..4]);
}

#[test]
fn padding_adds_a_one_zeros_and_a_one() {
    for n in [0, 5, 6, 7, 8, 14] {
        let input = words(n, 2);
        let mut padded = input.clone();
        padded.push(F::one());
        while (padded.len() + 1) % 8 != 0 {
            padded.push(F::zero());
        }
        padded.push(F::one());
        assert_eq!(Poseidon2Hash::hash_pad(&input), Poseidon2Hash::hash_no_pad(&padded));
    }
}

#[test]
fn short_inputs_are_their_own_digest() {
    let input = [f(ORDER + 3), f(5)];
    let digest = Poseidon2Hash::hash_or_noop(&input);
    assert_eq!(digest.elements.map(|x| x.0), [3, 5, 0, 0]);
    let long = words(5, 3);
    assert_eq!(Poseidon2Hash::hash_or_noop(&long), Poseidon2Hash::hash_no_pad(&long));
    let four = words(4, 4);
    assert_eq!(Poseidon2Hash::hash_or_noop(&four).elements[..], four[..]);
}

#[test]
fn interleaved_hashes_equal_single_ones() {
    let inputs = random_data(4, 9);
    let single = |i: usize| Poseidon2Hash::hash_or_noop(&inputs[i]);
    assert_eq!(
        Poseidon2Hash::hash_or_noop_pair(&inputs[0], &inputs[1]),
        (single(0), single(1))
    );
    assert_eq!(
        Poseidon2Hash::hash_or_noop_quad(&inputs[0], &inputs[1], &inputs[2], &inputs[3]),
        (single(0), single(1), single(2), single(3))
    );
    assert_eq!(
        Poseidon2Hash::two_to_one_pair(single(0), single(1), single(2), single(3)),
        (
            Poseidon2Hash::two_to_one(single(0), single(1)),
            Poseidon2Hash::two_to_one(single(2), single(3))
        )
    );
}

#[test]
fn hashing_many_digests_folds_from_the_left() {
    let digests: Vec<HashOut> = (0..4)
        .map(|i| Poseidon2Hash::hash_no_pad(&words(5, 10 + i)))
        .collect();
    assert_eq!(Poseidon2Hash::hash_n_to_one(&digests[..1]), digests[0]);
    let two = compress(digests[0], digests[1]);
    assert_eq!(Poseidon2Hash::hash_n_to_one(&digests[..2]), two);
    let three = compress(two, digests[2]);
    assert_eq!(Poseidon2Hash::hash_n_to_one(&digests), compress(three, digests[3]));
}

#[test]
fn digests_survive_bytes() {
    let digest = HashOut { elements: [f(1), f(256), f(ORDER - 1), f(ORDER + 2)] };
    let bytes = digest.to_bytes();
    assert_eq!(bytes.len(), 32);
    assert_eq!(bytes[..10], [1, 0, 0, 0, 0, 0, 0, 0, 0, 1]);
    assert_eq!(HashOut::from_bytes(&bytes), digest);
    assert_eq!(digest.to_vec()[3], f(2));
}

#[test]
fn caps_list_their_elements() {
    let tree = MerkleTree::<Poseidon2Hash>::new(random_data(8, 5), 2);
    assert_eq!(tree.cap.len(), 4);
    assert!(!tree.cap.is_empty());
    assert_eq!(tree.cap.height(), 2);
    assert_eq!(tree.cap.flatten().len(), 16);
    assert_eq!(tree.cap.flatten()[4..8], tree.cap.0[1].elements);
    assert!(MerkleCap::<Poseidon2Hash>::default().is_empty());
}

#[test]
fn a_tree_of_four_leaves_keeps_siblings_together() {
    let leaves = random_data(4, 5);
    let leaf = |i: usize| Poseidon2Hash::hash_no_pad(&leaves[i]);
    let tree = MerkleTree::<Poseidon2Hash>::new(leaves.clone(), 0);
    let left = compress(leaf(0), leaf(1));
    let right = compress(leaf(2), leaf(3));
    assert_eq!(
        tree.digests,
        vec![leaf(0), leaf(1), left, right, leaf(2), leaf(3)]
    );
    assert_eq!(tree.cap.0, vec![compress(left, right)]);
    assert_eq!(tree.prove(3).siblings, vec![leaf(2), left]);
    assert_eq!(
        merkle_tree_prove::<Poseidon2Hash>(3, 4, 0, &tree.digests),
        vec![leaf(2), left]
    );
}

#[test]
fn all_constructors_build_the_same_tree() {
    let log_n = 5;
    let n = 1 << log_n;
    let width = 6;
    let leaves = random_data(n, width);
    let flat = leaves.concat();
    let columns: Vec<Vec<F>> = (0..width)
        .map(|j| (0..n).map(|i| leaves[reverse_bits(i, log_n)][j]).collect())
        .collect();
    let rows_tree = MerkleTree::<Poseidon2Hash>::new(leaves.clone(), 2);
    let flat_tree = MerkleTree::<Poseidon2Hash>::new_flat(flat.clone(), width, 2);
    let column_tree = MerkleTree::<Poseidon2Hash>::new_columns(columns.clone(), 2);
    let shared = ColumnStore::Shared(MetalColumns::from_flat(columns.concat(), n, width));
    let shared_tree = MerkleTree::<Poseidon2Hash>::new_column_store(shared, 2);
    let prebuilt = MerkleTree::<Poseidon2Hash>::from_prebuilt_columns(
        ColumnStore::Owned(columns.clone()),
        column_tree.digests.clone(),
        column_tree.cap.0.clone(),
    );
    for tree in [&flat_tree, &column_tree, &shared_tree, &prebuilt] {
        assert_eq!(tree.digests, rows_tree.digests);
        assert_eq!(tree.cap.0, rows_tree.cap.0);
        assert_eq!(tree.leaf_width(), width);
        assert!(tree.leaves == rows_tree.leaves);
        for i in 0..n {
            assert_eq!(tree.leaf_vec(i), leaves[i]);
        }
    }
    assert_eq!(rows_tree.get(3).to_vec(), leaves[3]);
    assert_eq!(
        transpose_to_bitrev_flat(&ColumnStore::Owned(columns), log_n),
        flat
    );

    let other = MerkleLeaves::Rows { data: words(n * width, 99), width };
    assert!(other != rows_tree.leaves);

    let blank = HashOut::zero();
    let mut digests = vec![blank; rows_tree.digests.len()];
    let mut cap = vec![blank; 4];
    fill_digests_buf::<Poseidon2Hash>(&mut digests, &mut cap, &leaves, 2);
    assert_eq!((&digests, &cap), (&rows_tree.digests, &rows_tree.cap.0));
    let mut digests = vec![blank; rows_tree.digests.len()];
    fill_digests_buf_flat::<Poseidon2Hash>(&mut digests, &mut cap, &flat, width, n, 2);
    assert_eq!((&digests, &cap), (&rows_tree.digests, &rows_tree.cap.0));
}

#[test]
fn leaves_are_equal_by_content() {
    let log_n = 4;
    let n = 1 << log_n;
    let width = 5;
    let leaves = random_data(n, width);
    let columns: Vec<Vec<F>> = (0..width)
        .map(|j| (0..n).map(|i| leaves[reverse_bits(i, log_n)][j]).collect())
        .collect();
    let rows = MerkleLeaves::Rows { data: leaves.concat(), width };
    let owned =
        MerkleLeaves::Columns { columns: ColumnStore::Owned(columns.clone()), log_rows: log_n };
    let shared = MerkleLeaves::Columns {
        columns: ColumnStore::Shared(MetalColumns::from_flat(columns.concat(), n, width)),
        log_rows: log_n,
    };
    for a in [&rows, &owned, &shared] {
        for b in [&rows, &owned, &shared] {
            assert!(a == b);
        }
        assert!(*a == a.clone());
    }

    // Another number of leaves, another width, another value.
    let short = MerkleLeaves::Rows { data: leaves[..n / 2].concat(), width };
    let reshaped = MerkleLeaves::Rows { data: leaves.concat(), width: 1 };
    let half: Vec<Vec<F>> = columns.iter().map(|c| c[..n / 2].to_vec()).collect();
    let short_columns =
        MerkleLeaves::Columns { columns: ColumnStore::Owned(half), log_rows: log_n - 1 };
    let narrow = MerkleLeaves::Columns {
        columns: ColumnStore::Owned(columns[1..].to_vec()),
        log_rows: log_n,
    };
    let mut changed = columns.clone();
    changed[2][3] = changed[2][3].add(F::one());
    let changed =
        MerkleLeaves::Columns { columns: ColumnStore::Owned(changed), log_rows: log_n };
    for a in [&rows, &owned, &shared] {
        for b in [&short, &reshaped, &short_columns, &narrow, &changed] {
            assert!(a != b);
            assert!(b != a);
        }
    }

    // Two words of the same residue are the same value.
    let one_row = |x: F| MerkleLeaves::Rows { data: vec![x], width: 1 };
    assert!(one_row(GoldilocksField(3)) == one_row(GoldilocksField(ORDER + 3)));
    assert!(one_row(GoldilocksField(3)) != one_row(GoldilocksField(4)));

    // Without columns there is nothing to tell apart but the widths.
    let none = MerkleLeaves::Columns { columns: ColumnStore::Owned(vec![]), log_rows: 2 };
    assert!(none == MerkleLeaves::Rows { data: vec![], width: 0 });
    assert!(none != rows);

    // What columns hold beyond their leaves does not matter to rows.
    let long: Vec<Vec<F>> =
        columns.iter().map(|c| [c.clone(), vec![f(77); 3]].concat()).collect();
    let long = MerkleLeaves::Columns { columns: ColumnStore::Owned(long), log_rows: log_n };
    assert!(long == rows);
    assert!(rows == long);

    // Columns of another height than is said are no leaves of that tree.
    let ragged = MerkleLeaves::Columns { columns: ColumnStore::Owned(columns), log_rows: 9 };
    assert!(ragged != rows);
}

#[test]
fn stores_of_columns_are_equal_by_kind() {
    let columns = random_data(3, 4);
    let owned = ColumnStore::Owned(columns.clone());
    let flat = columns.concat();
    let shared = |values: Vec<F>| ColumnStore::Shared(MetalColumns::from_flat(values, 4, 3));
    assert!(owned == owned.clone());
    assert!(shared(flat.clone()) == shared(flat.clone()));
    // Columns of their own and retained ones differ, though their entries are the same.
    assert!(owned != shared(flat.clone()));
    assert!(shared(flat.clone()) != owned);
    // Columns of their own are compared by value, and retained ones by word.
    let word = |x: u64| vec![GoldilocksField(x); 12];
    let one = |x: u64| ColumnStore::Owned(vec![vec![GoldilocksField(x)]]);
    assert!(one(3) == one(ORDER + 3));
    assert!(one(3) != one(4));
    assert!(shared(word(3)) == shared(word(3)));
    assert!(shared(word(3)) != shared(word(ORDER + 3)));
    let turned = ColumnStore::Shared(MetalColumns::from_flat(flat.clone(), 3, 4));
    assert!(shared(flat) != turned);
    assert!(owned != ColumnStore::Owned(columns[1..].to_vec()));
}

#[test]
fn hooks_build_nothing_by_themselves() {
    let columns = random_data(2, 4);
    let slices: Vec<&[F]> = columns.iter().map(|c| c.as_slice()).collect();
    assert!(Poseidon2Hash::try_build_merkle_tree(&columns.concat(), 2, 4, 1).is_none());
    assert!(Poseidon2Hash::try_build_merkle_tree_columns(&columns, 1).is_none());
    assert!(Poseidon2Hash::try_allocate_merkle_tree_columns(2, 4, 1).is_none());
    assert!(Poseidon2Hash::try_build_commitment_from_coeffs(&slices, 1, 1).is_none());
    assert!(Poseidon2Hash::try_build_commitment_from_values(&slices, 1, 1).is_none());
    let store = ColumnStore::Owned(columns.clone());
    assert!(Poseidon2Hash::try_build_merkle_tree_column_store(&store, 1).is_none());
}

#[test]
fn trees_are_equal_whatever_the_layout() {
    let log_n = 4;
    let n = 1 << log_n;
    let leaves = random_data(n, 6);
    let columns: Vec<Vec<F>> = (0..6)
        .map(|j| (0..n).map(|i| leaves[reverse_bits(i, log_n)][j]).collect())
        .collect();
    let tree = MerkleTree::<Poseidon2Hash>::new(leaves.clone(), 1);
    let column_tree = MerkleTree::<Poseidon2Hash>::new_columns(columns, 1);
    assert!(tree == column_tree);
    assert!(tree == tree.clone());
    assert!(tree.cap == column_tree.cap.clone());
    let other = MerkleTree::<Poseidon2Hash>::new(leaves, 2);
    assert!(tree != other);
    assert!(tree.cap != other.cap);
}

#[test]
fn proofs_reject_other_leaves() {
    let leaves = random_data(16, 5);
    let tree = MerkleTree::<Poseidon2Hash>::new(leaves.clone(), 1);
    let proof = tree.prove(6);
    assert_eq!(proof.siblings.len(), 3);
    assert!(verify_merkle_proof_to_cap(&leaves[6], 6, &tree.cap, &proof));
    assert!(!verify_merkle_proof_to_cap(&leaves[7], 6, &tree.cap, &proof));
    assert!(!verify_merkle_proof_to_cap(&leaves[6], 7, &tree.cap, &proof));
    let mut siblings = proof.siblings;
    siblings[1] = HashOut::zero();
    let changed = MerkleProof { siblings };
    assert!(!verify_merkle_proof_to_cap(&leaves[6], 6, &tree.cap, &changed));
}

#[test]
fn column_stores_give_their_columns() {
    let columns = random_data(3, 4);
    let owned = ColumnStore::Owned(columns.clone());
    let mut shared = ColumnStore::Shared(MetalColumns::from_flat(columns.concat(), 4, 3));
    for store in [&owned, &shared] {
        assert_eq!(store.num_cols(), 3);
        assert_eq!(store.num_rows(), 4);
        assert_eq!(store.col(2).to_vec(), columns[2]);
    }
    shared.set_col(1, words(4, 77));
    assert_eq!(shared.col(0).to_vec(), columns[0]);
    assert_eq!(shared.col(1).to_vec(), words(4, 77));
    assert_eq!(shared.col(2).to_vec(), columns[2]);
}
