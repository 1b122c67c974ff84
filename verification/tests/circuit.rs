//! Circuits: selections, the permutation, and arithmetic on extension targets.

use std::collections::HashMap;

use plonky2::field::extension::QuadraticExtension;
use plonky2::field::goldilocks_field::{GoldilocksField, ORDER};
use plonky2::field::types::Field;
use plonky2::gates::gate::{CircuitConfig, Gate};
use plonky2::gates::poseidon2::{Poseidon2Gate, WIRE_SWAP};
use plonky2::gates::poseidon2_witness::Poseidon2Generator;
use plonky2::hash::hashing::{hash_n_to_m_no_pad, Poseidon2Permutation};
use plonky2::hash::poseidon2::hash::Poseidon2Hash;
use plonky2::hash::poseidon2::matmul_circuit::matmul_m4_circuit;
use plonky2::iop::target::{BoolTarget, Target};
use plonky2::iop::witness::{GeneratedValues, PartitionWitness};
use plonky2::plonk::circuit_builder::{CircuitBuilder, ExtensionNode, GateKind};
use plonky2::plonk::config::AlgebraicHasher;

type F = GoldilocksField;
type FF = QuadraticExtension;

fn f(x: u64) -> F {
    F::from_noncanonical_u64(x)
}

fn rand(seed: u64) -> F {
    f(seed.wrapping_mul(0x9e37_79b9_7f4a_7c15).rotate_left(23).wrapping_mul(0xbf58_476d_1ce4_e5b9))
}

fn node_values(builder: &CircuitBuilder, base: &HashMap<usize, F>, inputs: &[FF]) -> Vec<FF> {
    let mut r: Vec<FF> = Vec::new();
    let mut next = 0;
    for node in &builder.nodes {
        let value = match *node {
            ExtensionNode::Input => {
                next += 1;
                inputs[next - 1]
            }
            ExtensionNode::Constant(c) => c,
            ExtensionNode::FromBase(Target::VirtualTarget { index }) => {
                FF::from_basefield(base[&index])
            }
            ExtensionNode::FromBase(_) => panic!("no wires here"),
            ExtensionNode::Sum(a, b) => r[a].add(r[b]),
            ExtensionNode::Difference(a, b) => r[a].sub(r[b]),
            ExtensionNode::Product(a, b) => r[a].mul(r[b]),
            ExtensionNode::ProductPlus(a, b, c) => r[a].mul(r[b]).add(r[c]),
            ExtensionNode::ProductMinus(a, b, c) => r[a].mul(r[b]).sub(r[c]),
        };
        r.push(value);
    }
    r
}

#[test]
fn test_select() {
    let config = CircuitConfig::standard_recursion_config();
    let mut builder = CircuitBuilder::new(config);

    let (x, y) = (FF::from_noncanonical_u64(11), QuadraticExtension([rand(1), rand(2)]));
    let xt = builder.add_virtual_extension_target();
    let yt = builder.add_virtual_extension_target();
    let truet = BoolTarget::new_unsafe(builder.add_virtual_target());
    let falset = BoolTarget::new_unsafe(builder.add_virtual_target());

    let should_be_x = builder.select_ext(truet, xt, yt);
    let should_be_y = builder.select_ext(falset, xt, yt);

    let base = HashMap::from([(0, F::one()), (1, F::zero())]);
    let values = node_values(&builder, &base, &[x, y]);
    assert_eq!(values[should_be_x.index], x);
    assert_eq!(values[should_be_y.index], y);
}

#[test]
fn generalized_selection_interpolates() {
    let mut builder = CircuitBuilder::new(CircuitConfig::standard_recursion_config());
    let b = builder.add_virtual_extension_target();
    let x = builder.add_virtual_extension_target();
    let y = builder.add_virtual_extension_target();
    let r = builder.select_ext_generalized(b, x, y);
    let inputs = [FF::from_noncanonical_u64(3), FF::from_noncanonical_u64(10), FF::from_noncanonical_u64(4)];
    let values = node_values(&builder, &HashMap::new(), &inputs);
    // 3 * 10 - (3 * 4 - 4)
    assert_eq!(values[r.index], FF::from_noncanonical_u64(22));
}

/// The values that the arithmetic of a circuit gives its targets.
fn run_base(builder: &CircuitBuilder, known: &mut HashMap<usize, F>) {
    for op in &builder.base_operations {
        let value = |t: Target| match t {
            Target::VirtualTarget { index } => known[&index],
            Target::Wire { .. } => panic!("no wires here"),
        };
        let result = value(op.a).mul(value(op.b)).sub(value(op.c));
        match op.out {
            Target::VirtualTarget { index } => known.insert(index, result),
            Target::Wire { .. } => panic!("no wires here"),
        };
    }
}

#[test]
fn base_selection_by_arithmetic() {
    let mut builder = CircuitBuilder::new(CircuitConfig::standard_recursion_config());
    let b = builder.add_virtual_target();
    let x = builder.add_virtual_target();
    let y = builder.add_virtual_target();
    let r = builder.select(BoolTarget::new_unsafe(b), x, y);
    let again = builder.select(BoolTarget::new_unsafe(b), x, y);
    assert_eq!(r, again);
    assert_eq!(builder.base_operations.len(), 2);
    assert_eq!(r, Target::VirtualTarget { index: 4 });
    let other = builder.select(BoolTarget::new_unsafe(b), y, x);
    assert_ne!(r, other);
    for (flag, expected) in [(1, 70), (0, 80)] {
        let mut known = HashMap::from([(0, f(flag)), (1, f(70)), (2, f(80))]);
        run_base(&builder, &mut known);
        assert_eq!(known[&4], f(expected));
        assert_eq!(known[&6], f(150 - expected));
    }
}

#[test]
fn base_selection_by_gate() {
    let config = CircuitConfig {
        use_select_gate: true,
        num_routed_wires: 9,
        ..CircuitConfig::standard_recursion_config()
    };
    let mut builder = CircuitBuilder::new(config);
    let targets: Vec<Target> = (0..4).map(|_| builder.add_virtual_target()).collect();
    let b = BoolTarget::new_unsafe(targets[0]);
    // Two selections fit into a row.
    let first = builder.select(b, targets[1], targets[2]);
    let second = builder.select(b, targets[2], targets[1]);
    let third = builder.select(b, targets[1], targets[3]);
    assert_eq!(first, Target::wire(0, 3));
    assert_eq!(second, Target::wire(0, 7));
    assert_eq!(third, Target::wire(1, 3));
    assert_eq!(builder.rows.len(), 2);
    assert!(builder.rows.iter().all(|row| matches!(row, GateKind::Selection(g) if g.num_ops == 2)));
    assert_eq!(
        builder.connections[3..6],
        [
            (targets[0], Target::wire(0, 4)),
            (targets[2], Target::wire(0, 5)),
            (targets[1], Target::wire(0, 6)),
        ]
    );
    assert_eq!(builder.select(b, targets[1], targets[2]), first);
    assert_eq!(builder.connections.len(), 9);
}

/// A circuit that hashes eight inputs: the outputs of the row that the generator fills are the
/// hash.
fn check_hash_circuit(inputs: &[F; 8]) {
    let expected = hash_n_to_m_no_pad(inputs, 4);

    let mut builder = CircuitBuilder::new(CircuitConfig::standard_recursion_config());
    let zero = builder.add_virtual_target();
    let targets: Vec<Target> = inputs.iter().map(|_| builder.add_virtual_target()).collect();
    let mut state = Poseidon2Permutation { state: [zero; 12] };
    state.set_from_slice(&targets, 0);
    let out = Poseidon2Hash::permute_swapped(state, BoolTarget::new_unsafe(zero), &mut builder);
    assert_eq!(builder.rows.len(), 1);
    assert_eq!(builder.connections.len(), 13);
    assert_eq!(builder.connections[0], (zero, Target::wire(0, WIRE_SWAP)));

    // Carry the values of the connected targets to the row, and let its generator run.
    let mut row = vec![F::zero(); 135];
    for (from, to) in &builder.connections {
        if let (Target::VirtualTarget { index }, Target::Wire { column, .. }) = (from, to) {
            row[*column] = if *index == 0 { F::zero() } else { inputs[index - 1] };
        }
    }
    let mut witness = PartitionWitness { rows: vec![row] };
    let mut generated = GeneratedValues::empty();
    Poseidon2Generator { row: 0 }.run_once(&witness, &mut generated);
    for (target, value) in generated.target_values {
        if let Target::Wire { row, column } = target {
            witness.rows[row][column] = value;
        }
    }
    let constraints = Poseidon2Gate::new().eval_unfiltered_base_one(&witness.rows[0], &[]);
    assert!(constraints.iter().all(|x| x.is_zero()));
    for i in 0..4 {
        assert_eq!(out.state[i], Target::wire(0, 12 + i));
        assert_eq!(witness.get_wire(0, 12 + i), expected[i]);
    }
}

#[test]
fn test_poseidon2_gate() {
    let input: [u32; 8] = core::array::from_fn(|i| rand(i as u64 + 9).0 as u32);
    check_hash_circuit(&input.map(|x| F::from_canonical_u64(x as u64 + 1073741824)));
}

#[test]
fn test_poseidon2_gate_big() {
    check_hash_circuit(&[F::from_canonical_u64(ORDER - 1); 8]);
}

#[test]
fn matrix_circuit_multiplies_blocks_of_four() {
    let mut builder = CircuitBuilder::new(CircuitConfig::standard_recursion_config());
    let targets = core::array::from_fn(|_| builder.add_virtual_extension_target());
    let out = matmul_m4_circuit(&mut builder, targets);
    let inputs: Vec<FF> = (0..12).map(|i| QuadraticExtension([rand(i), rand(i + 50)])).collect();
    let values = node_values(&builder, &HashMap::new(), &inputs);
    let rows = [[5, 7, 1, 3], [4, 6, 1, 1], [1, 3, 5, 7], [1, 1, 4, 6]];
    for i in 0..12 {
        let mut expected = FF::zero();
        for j in 0..4 {
            let factor = FF::from_noncanonical_u64(rows[i % 4][j]);
            expected = expected.add(factor.mul(inputs[i - i % 4 + j]));
        }
        assert_eq!(values[out[i].index], expected);
    }
}

#[test]
fn products_of_no_targets_are_one() {
    let mut builder = CircuitBuilder::new(CircuitConfig::standard_recursion_config());
    let r = builder.mul_many_extension(&[]);
    assert_eq!(node_values(&builder, &HashMap::new(), &[])[r.index], FF::one());
}
