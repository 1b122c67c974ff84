//! Gates: their constraints on all kinds of values, and the rows that generators fill.

use plonky2::field::batch_util::batch_multiply_add_inplace;
use plonky2::field::extension::QuadraticExtension;
use plonky2::field::fft::ifft;
use plonky2::field::goldilocks_field::{GoldilocksField, ORDER};
use plonky2::field::packed::PackedField;
use plonky2::field::packed::Packable;
use plonky2::field::polynomial::{PolynomialCoeffs, PolynomialValues};
use plonky2::field::types::Field;
use plonky2::gates::addition_base::{AdditionBaseGenerator, AdditionGate};
use plonky2::gates::equality_base::{EqualityBaseGenerator, EqualityGate};
use plonky2::gates::gate::{
    eval_unfiltered_base_batch, CircuitConfig, EvaluationVarsBaseBatch, Gate,
};
use plonky2::gates::poseidon2::{Poseidon2Gate, WIRE_SWAP};
use plonky2::gates::poseidon2_witness::{swap_deltas, Poseidon2Generator};
use plonky2::gates::random_access::{RandomAccessGate, RandomAccessGenerator};
use plonky2::gates::serialization::{Buffer, IoError, Serialized};
use plonky2::hash::poseidon2::permutation::Poseidon2;
use plonky2::iop::target::Target;
use plonky2::iop::witness::{GeneratedValues, PartitionWitness};
use plonky2::plonk::circuit_builder::{CircuitBuilder, ExtensionNode, ExtensionTarget};

type F = GoldilocksField;
type FE = QuadraticExtension;
type P = <F as Packable>::Packing;

const WIDTH: usize = 12;

fn f(x: u64) -> F {
    F::from_noncanonical_u64(x)
}

fn ext(x: F) -> FE {
    FE::from_basefield(x)
}

/// A fixed sequence without visible pattern.
struct Values(u64);

impl Values {
    fn word(&mut self) -> u64 {
        self.0 = self.0.wrapping_add(0x9e37_79b9_7f4a_7c15);
        let mut z = self.0;
        z = (z ^ (z >> 30)).wrapping_mul(0xbf58_476d_1ce4_e5b9);
        z = (z ^ (z >> 27)).wrapping_mul(0x94d0_49bb_1331_11eb);
        z ^ (z >> 31)
    }

    fn base(&mut self) -> F {
        f(self.word())
    }

    fn bases(&mut self, n: usize) -> Vec<F> {
        (0..n).map(|_| self.base()).collect()
    }

    fn ext(&mut self) -> FE {
        QuadraticExtension([self.base(), self.base()])
    }

    fn exts(&mut self, n: usize) -> Vec<FE> {
        (0..n).map(|_| self.ext()).collect()
    }
}

fn batch<'a>(n: usize, constants: &'a [F], wires: &'a [F]) -> EvaluationVarsBaseBatch<'a> {
    EvaluationVarsBaseBatch { batch_size: n, local_constants: constants, local_wires: wires }
}

/// The constraints, evaluated on polynomials of low degree, are polynomials whose degree is at
/// most a multiple of theirs, by the degree that is stated.
fn check_low_degree<G: Gate>(gate: G, degree: usize) {
    let witness_size = 1usize << 5;
    let rate_bits = (degree + 1).next_power_of_two().trailing_zeros() as usize;
    let n = witness_size << rate_bits;
    let mut values = Values(1);
    let mut columns = |count: usize| {
        (0..count)
            .map(|_| {
                PolynomialCoeffs::new(values.bases(witness_size))
                    .lde(rate_bits)
                    .coset_fft(F::one())
                    .values
            })
            .collect::<Vec<_>>()
    };
    let wires = columns(gate.num_wires());
    let constants = columns(gate.num_constants());
    let rows = (0..n)
        .map(|i| {
            let w = wires.iter().map(|c| c[i]).collect::<Vec<_>>();
            let c = constants.iter().map(|c| c[i]).collect::<Vec<_>>();
            gate.eval_unfiltered_base_one(&w, &c)
        })
        .collect::<Vec<_>>();
    for k in 0..gate.num_constraints() {
        let column = rows.iter().map(|row| row[k]).collect::<Vec<_>>();
        let coeffs = ifft(PolynomialValues::new(column)).coeffs;
        let found = coeffs.iter().rposition(|c| !c.is_zero()).unwrap_or(0);
        assert!(
            found <= degree * (witness_size - 1),
            "constraint {k} has degree {found}"
        );
    }
}

fn node_values(builder: &CircuitBuilder, inputs: &[FE]) -> Vec<FE> {
    let mut r: Vec<FE> = Vec::new();
    let mut next = 0;
    for node in &builder.nodes {
        let value = match *node {
            ExtensionNode::Input => {
                next += 1;
                inputs[next - 1]
            }
            ExtensionNode::Constant(c) => c,
            ExtensionNode::FromBase(_) => panic!("no base targets here"),
            ExtensionNode::Sum(a, b) => r[a].add(r[b]),
            ExtensionNode::Difference(a, b) => r[a].sub(r[b]),
            ExtensionNode::Product(a, b) => r[a].mul(r[b]),
            ExtensionNode::ProductPlus(a, b, c) => r[a].mul(r[b]).add(r[c]),
            ExtensionNode::ProductMinus(a, b, c) => r[a].mul(r[b]).sub(r[c]),
        };
        r.push(value);
    }
    r
}

type CircuitFn<'a> = &'a dyn Fn(
    &mut CircuitBuilder,
    &[ExtensionTarget],
    &[ExtensionTarget],
) -> Vec<ExtensionTarget>;

/// All ways to evaluate a gate agree.
fn check_eval_fns<G: Gate>(gate: G, circuit: CircuitFn) {
    let mut values = Values(2);
    let wires = values.bases(gate.num_wires());
    let constants = values.bases(gate.num_constants());

    // The base field within the extension.
    let base = gate.eval_unfiltered_base_one(&wires, &constants);
    assert_eq!(base.len(), gate.num_constraints());
    let ext_wires = wires.iter().map(|&x| ext(x)).collect::<Vec<_>>();
    let ext_constants = constants.iter().map(|&x| ext(x)).collect::<Vec<_>>();
    let extension = gate.eval_unfiltered(&ext_wires, &ext_constants);
    assert_eq!(extension, base.iter().map(|&x| ext(x)).collect::<Vec<_>>());

    // A batch of points, and packed points.
    let n = 11;
    let batch_wires = values.bases(gate.num_wires() * n);
    let batch_constants = values.bases(gate.num_constants() * n);
    let all = eval_unfiltered_base_batch(&gate, &batch(n, &batch_constants, &batch_wires));
    for p in 0..n {
        let w = (0..gate.num_wires()).map(|i| batch_wires[i * n + p]).collect::<Vec<_>>();
        let c = (0..gate.num_constants())
            .map(|i| batch_constants[i * n + p])
            .collect::<Vec<_>>();
        let one = gate.eval_unfiltered_base_one(&w, &c);
        for k in 0..gate.num_constraints() {
            assert_eq!(all[k * n + p], one[k], "constraint {k} at point {p}");
        }
    }
    let packed_wires = (0..gate.num_wires())
        .map(|i| P::load(&batch_wires, i * n))
        .collect::<Vec<_>>();
    let packed_constants = (0..gate.num_constants())
        .map(|i| P::load(&batch_constants, i * n))
        .collect::<Vec<_>>();
    let packed = gate.eval_unfiltered_base_packed(&packed_wires, &packed_constants);
    for k in 0..gate.num_constraints() {
        for lane in 0..4 {
            assert_eq!(packed[k].lane(lane), all[k * n + lane]);
        }
    }

    // The circuit.
    let mut builder = CircuitBuilder::new(CircuitConfig::standard_recursion_config());
    let wire_targets = (0..gate.num_wires())
        .map(|_| builder.add_virtual_extension_target())
        .collect::<Vec<_>>();
    let constant_targets = (0..gate.num_constants())
        .map(|_| builder.add_virtual_extension_target())
        .collect::<Vec<_>>();
    let outputs = circuit(&mut builder, &wire_targets, &constant_targets);
    let wires = values.exts(gate.num_wires());
    let constants = values.exts(gate.num_constants());
    let inputs = [wires.clone(), constants.clone()].concat();
    let computed = node_values(&builder, &inputs);
    let expected = gate.eval_unfiltered(&wires, &constants);
    assert_eq!(
        outputs.iter().map(|t| computed[t.index]).collect::<Vec<_>>(),
        expected
    );
}

/// Wires and constants beyond those of a gate change nothing, whichever way it is evaluated.
fn check_wider_rows<G: Gate>(gate: G, circuit: CircuitFn) {
    let mut values = Values(12);
    let (num_wires, num_constants) = (gate.num_wires(), gate.num_constants());
    let (all_wires, all_constants) = (num_wires + 8, num_constants + 2);

    let wires = values.exts(all_wires);
    let constants = values.exts(all_constants);
    let expected = gate.eval_unfiltered(&wires[..num_wires], &constants[..num_constants]);
    assert_eq!(gate.eval_unfiltered(&wires, &constants), expected);

    let n = 7;
    let batch_wires = values.bases(all_wires * n);
    let batch_constants = values.bases(all_constants * n);
    let wide = batch(n, &batch_constants, &batch_wires);
    let narrow = batch(
        n,
        &batch_constants[..num_constants * n],
        &batch_wires[..num_wires * n],
    );
    let all = eval_unfiltered_base_batch(&gate, &wide);
    assert_eq!(all, eval_unfiltered_base_batch(&gate, &narrow));
    for p in 0..n {
        let w = (0..all_wires).map(|i| batch_wires[i * n + p]).collect::<Vec<_>>();
        let c = (0..all_constants).map(|i| batch_constants[i * n + p]).collect::<Vec<_>>();
        let one = gate.eval_unfiltered_base_one(&w, &c);
        for k in 0..gate.num_constraints() {
            assert_eq!(all[k * n + p], one[k]);
        }
    }

    let mut builder = CircuitBuilder::new(CircuitConfig::standard_recursion_config());
    let wire_targets = (0..all_wires)
        .map(|_| builder.add_virtual_extension_target())
        .collect::<Vec<_>>();
    let constant_targets = (0..all_constants)
        .map(|_| builder.add_virtual_extension_target())
        .collect::<Vec<_>>();
    let outputs = circuit(&mut builder, &wire_targets, &constant_targets);
    let computed = node_values(&builder, &[wires, constants].concat());
    assert_eq!(
        outputs.iter().map(|t| computed[t.index]).collect::<Vec<_>>(),
        expected
    );
}

#[test]
fn rows_may_be_wider_than_a_gate() {
    let config = CircuitConfig::standard_recursion_config();
    let addition = AdditionGate::new_from_config(&config);
    check_wider_rows(addition, &|b, w, c| addition.eval_unfiltered_circuit(b, w, c));
    let equality = EqualityGate::new_from_config(&config);
    check_wider_rows(equality, &|b, w, c| equality.eval_unfiltered_circuit(b, w, c));
    let access = RandomAccessGate::new(4, 4, 1);
    check_wider_rows(access, &|b, w, c| access.eval_unfiltered_circuit(b, w, c));
    let poseidon2 = Poseidon2Gate::new();
    check_wider_rows(poseidon2, &|b, w, c| poseidon2.eval_unfiltered_circuit(b, w, c));
}

#[test]
fn accumulation_reads_a_batch_of_wider_rows() {
    let n = 5;
    let mut values = Values(13);
    let wires = values.bases(143 * n);
    let constants = values.bases(2 * n);
    let filters = values.bases(n);
    let vars = batch(n, &constants, &wires);

    let gate = Poseidon2Gate::new();
    let mut combined = vec![F::zero(); gate.num_constraints() * n];
    gate.eval_unfiltered_base_batch_accumulate(&vars, &filters, &mut combined);
    let all = gate.eval_unfiltered_base_batch(&vars);
    for x in 0..all.len() {
        assert_eq!(combined[x], all[x].mul(filters[x % n]));
    }

    let access = RandomAccessGate::new(4, 4, 1);
    let mut combined = vec![F::zero(); access.num_constraints() * n];
    access.eval_unfiltered_base_batch_accumulate(&vars, &filters, &mut combined);
    let all = access.eval_unfiltered_base_batch(&vars);
    for x in 0..all.len() {
        assert_eq!(combined[x], all[x].mul(filters[x % n]));
    }
}

#[test]
fn addition_base_low_degree() {
    let gate = AdditionGate::new_from_config(&CircuitConfig::standard_recursion_config());
    check_low_degree(gate, gate.degree());
}

#[test]
fn addition_base_eval_fns() {
    let gate = AdditionGate::new_from_config(&CircuitConfig::standard_recursion_config());
    check_eval_fns(gate, &|b, w, c| gate.eval_unfiltered_circuit(b, w, c));
}

#[test]
fn equality_base_low_degree() {
    let gate = EqualityGate::new_from_config(&CircuitConfig::standard_recursion_config());
    check_low_degree(gate, gate.degree());
}

#[test]
fn equality_base_eval_fns() {
    let gate = EqualityGate::new_from_config(&CircuitConfig::standard_recursion_config());
    check_eval_fns(gate, &|b, w, c| gate.eval_unfiltered_circuit(b, w, c));
}

#[test]
fn poseidon2_low_degree() {
    let gate = Poseidon2Gate::new();
    check_low_degree(gate, gate.degree());
}

#[test]
fn poseidon2_eval_fns() {
    let gate = Poseidon2Gate::new();
    check_eval_fns(gate, &|b, w, c| gate.eval_unfiltered_circuit(b, w, c));
}

#[test]
fn random_access_low_degree() {
    let gate = RandomAccessGate::new(4, 4, 1);
    check_low_degree(gate, gate.degree());
}

#[test]
fn random_access_eval_fns() {
    let gate = RandomAccessGate::new(4, 4, 1);
    check_eval_fns(gate, &|b, w, c| gate.eval_unfiltered_circuit(b, w, c));
}

/// Fills generated values into the rows.
fn fill(witness: &mut PartitionWitness, generated: GeneratedValues) {
    for (target, value) in generated.target_values {
        match target {
            Target::Wire { row, column } => witness.rows[row][column] = value,
            Target::VirtualTarget { .. } => panic!("generators fill in wires"),
        }
    }
}

#[test]
fn gates_and_generators_are_named() {
    let addition = AdditionGate { num_ops: 20 };
    assert_eq!(addition.id(), "AdditionGate { num_ops: 20 }");
    assert_eq!(addition.id(), format!("{addition:?}"));
    let equality = EqualityGate { num_ops: 1_000_709 };
    assert_eq!(equality.id(), format!("{equality:?}"));
    assert_eq!(EqualityGate { num_ops: 0 }.id(), "EqualityGate { num_ops: 0 }");
    let access = RandomAccessGate::new(4, 5, 16);
    let field = "_phantom: PhantomData<plonky2_field::goldilocks_field::GoldilocksField>";
    assert_eq!(
        access.id(),
        format!("RandomAccessGate {{ bits: 5, num_copies: 4, num_extra_constants: 16, {field} }}<D=2>")
    );
    assert_eq!(Poseidon2Gate::new().id(), format!("Poseidon2Gate {{ {field} }}<WIDTH=12>"));
    assert_eq!(Poseidon2Gate::new().generators(3)[0].id(), "Poseidon2Generator");
    let adder = AdditionBaseGenerator { row: 0, const_0: f(1), const_1: f(1), i: 0 };
    assert_eq!(adder.id(), "AdditionBaseGenerator");
    let comparer = EqualityBaseGenerator { gate: equality, row: 0, const_0: f(1), i: 0 };
    assert_eq!(comparer.id(), "EqualityBaseGenerator");
    let reader = RandomAccessGenerator { row: 0, gate: access, copy: 0 };
    assert_eq!(reader.id(), "RandomAccessGenerator");
}

#[test]
fn wire_indices() {
    assert_eq!(Poseidon2Gate::wire_input(0), 0);
    assert_eq!(Poseidon2Gate::wire_input(11), 11);
    assert_eq!(Poseidon2Gate::wire_output(0), 12);
    assert_eq!(Poseidon2Gate::wire_output(11), 23);
    assert_eq!(WIRE_SWAP, 24);
    assert_eq!(Poseidon2Gate::wire_delta(0), 25);
    assert_eq!(Poseidon2Gate::wire_delta(3), 28);
    assert_eq!(Poseidon2Gate::wire_full_sbox_0(1, 0), 29);
    assert_eq!(Poseidon2Gate::wire_full_sbox_0(3, 0), 53);
    assert_eq!(Poseidon2Gate::wire_full_sbox_0(3, 11), 64);
    assert_eq!(Poseidon2Gate::wire_partial_sbox(0), 65);
    assert_eq!(Poseidon2Gate::wire_partial_sbox(21), 86);
    assert_eq!(Poseidon2Gate::wire_full_sbox_1(0, 0), 87);
    assert_eq!(Poseidon2Gate::wire_full_sbox_1(3, 0), 123);
    assert_eq!(Poseidon2Gate::wire_full_sbox_1(3, 11), 134);
}

/// A row of the Poseidon2 gate with its inputs, after the generator has run.
fn generated_row(inputs: &[F; WIDTH], swap: F) -> Vec<F> {
    let mut row = vec![F::zero(); 143];
    row[..WIDTH].copy_from_slice(inputs);
    row[WIRE_SWAP] = swap;
    let mut witness = PartitionWitness { rows: vec![row] };
    let generators = Poseidon2Gate::new().generators(0);
    assert_eq!(generators.len(), 1);
    let mut generated = GeneratedValues::empty();
    generators[0].run_once(&witness, &mut generated);
    fill(&mut witness, generated);
    witness.rows.remove(0)
}

#[test]
fn generated_output() {
    let inputs: [F; WIDTH] = core::array::from_fn(|i| f(i as u64));
    let row = generated_row(&inputs, F::zero());
    let expected_outputs = F::poseidon2(inputs);
    for i in 0..WIDTH {
        assert_eq!(row[Poseidon2Gate::wire_output(i)], expected_outputs[i]);
    }
}

#[test]
fn generated_deltas_and_outputs_for_both_swap_values() {
    for swap_value in [F::zero(), F::one()] {
        let inputs: [F; WIDTH] = core::array::from_fn(|i| f(7 * i as u64 + 3));
        let row = generated_row(&inputs, swap_value);

        let mut swapped = inputs;
        if swap_value == F::one() {
            for i in 0..4 {
                swapped.swap(i, 4 + i);
            }
        }
        let expected_outputs = F::poseidon2(swapped);

        for i in 0..4 {
            let expected = swap_value.mul(inputs[i + 4].sub(inputs[i]));
            let got = row[Poseidon2Gate::wire_delta(i)];
            assert_eq!(got.0, expected.0, "delta {i} for swap = {swap_value:?}");
        }
        for i in 0..WIDTH {
            let got = row[Poseidon2Gate::wire_output(i)];
            assert_eq!(
                got.0, expected_outputs[i].0,
                "output {i} for swap = {swap_value:?}"
            );
        }

        let constraints = Poseidon2Gate::new().eval_unfiltered_base_one(&row, &[]);
        assert!(constraints.iter().all(|x| x.is_zero()));
    }
}

#[test]
fn poseidon2_constraints_reject_a_wrong_output() {
    let inputs: [F; WIDTH] = core::array::from_fn(|i| f(5 * i as u64 + 1));
    for column in [12, 24, 25, 29, 65, 87, 134] {
        let mut row = generated_row(&inputs, F::zero());
        row[column] = row[column].add(f(2));
        let constraints = Poseidon2Gate::new().eval_unfiltered_base_one(&row, &[]);
        assert!(!constraints.iter().all(|x| x.is_zero()));
    }
}

#[test]
fn swap_deltas_matches_product_form() {
    let mut values = Values(3);
    let mut swaps = vec![F::zero(), F::one(), f(2), f(ORDER - 1)];
    swaps.extend((0..8).map(|_| values.base()));

    for trial in 0..16 {
        let state: [F; WIDTH] =
            core::array::from_fn(|i| f((trial * WIDTH + i) as u64).mul(values.base()));

        for &swap_value in &swaps {
            let expected: [F; 4] =
                core::array::from_fn(|i| swap_value.mul(state[i + 4].sub(state[i])));
            let expected_swap = swap_value == F::one();

            let (actual, do_swap) = swap_deltas(&state, swap_value);
            assert_eq!(do_swap, expected_swap, "swap flag for {swap_value:?}");
            for i in 0..4 {
                assert_eq!(actual[i].0, expected[i].0, "delta {i} for {swap_value:?}");
            }
        }
    }
}

#[test]
fn direct_filtered_accumulation_matches_materialized_batch() {
    const N: usize = 11;

    let gate = Poseidon2Gate::new();
    let wires = (0..gate.num_wires() * N).map(|i| f(3 * i as u64 + 5)).collect::<Vec<_>>();
    let vars = batch(N, &[], &wires);
    let filters = (0..N).map(|i| f(2 * i as u64 + 1)).collect::<Vec<_>>();
    let mut expected = vec![F::zero(); gate.num_constraints() * N];
    let materialized = gate.eval_unfiltered_base_batch(&vars);
    for (acc, constraints) in expected.chunks_exact_mut(N).zip(materialized.chunks_exact(N)) {
        batch_multiply_add_inplace(acc, constraints, &filters);
    }
    let mut actual = vec![F::zero(); expected.len()];
    gate.eval_unfiltered_base_batch_accumulate(&vars, &filters, &mut actual);
    assert_eq!(actual, expected);
}

#[test]
fn packed_batch_matches_scalar_per_point() {
    let gate = Poseidon2Gate::new();
    let n = 32; // several 4-lane packed groups; covers leftovers too
    let wires = Values(4).bases(gate.num_wires() * n);
    let vars = batch(n, &[], &wires);

    let packed = gate.eval_unfiltered_base_batch(&vars);

    let mut scalar = vec![F::zero(); n * gate.num_constraints()];
    for p in 0..n {
        let one = (0..gate.num_wires()).map(|w| wires[w * n + p]).collect::<Vec<_>>();
        for (k, value) in gate.eval_unfiltered_base_one(&one, &[]).into_iter().enumerate() {
            scalar[k * n + p] = value;
        }
    }
    assert_eq!(
        packed, scalar,
        "packed batch eval diverges from scalar per-point eval"
    );
}

#[test]
fn addition_accumulation_adds_filtered_constraints() {
    let gate = AdditionGate::new_from_config(&CircuitConfig::standard_recursion_config());
    let n = 6;
    let mut values = Values(5);
    let wires = values.bases(gate.num_wires() * n);
    let constants = values.bases(gate.num_constants() * n);
    let filters = values.bases(n);
    let start = values.bases(gate.num_constraints() * n + 2);
    let vars = batch(n, &constants, &wires);
    let mut combined = start.clone();
    gate.eval_unfiltered_base_batch_accumulate(&vars, &filters, &mut combined);
    let all = gate.eval_unfiltered_base_batch(&vars);
    for x in 0..all.len() {
        assert_eq!(combined[x], start[x].add(all[x].mul(filters[x % n])));
    }
    assert_eq!(combined[all.len()..], start[all.len()..]);
}

#[test]
fn direct_accumulation_matches_materialized_mirror_raw_words() {
    // Small canonical values and ORDER + small represent the same field elements with different
    // raw words.
    fn value(i: usize) -> F {
        let small = ((i as u64).wrapping_mul(0x9e37_79b9) ^ 0x5a5a_a5a5) & 0xffff;
        if i % 3 == 0 {
            GoldilocksField(ORDER + small)
        } else {
            F::from_canonical_u64(small)
        }
    }

    let packing_width = P::lane_count();
    let mut batch_sizes = vec![
        1,
        3,
        5,
        7,
        11,
        31,
        32,
        33,
        packing_width.saturating_sub(1).max(1),
        packing_width,
        packing_width + 1,
        packing_width + 2,
        2 * packing_width - 1,
        2 * packing_width,
        2 * packing_width + 1,
    ];
    // Hit every possible scalar-tail length after one and two complete packed groups.
    batch_sizes.extend((0..packing_width).map(|remainder| packing_width + remainder));
    batch_sizes.extend((0..packing_width).map(|remainder| 2 * packing_width + remainder));
    batch_sizes.sort_unstable();
    batch_sizes.dedup();
    for bits in [0, 1, 2, 3, 4, 6] {
        for &n in &batch_sizes {
            let gate = RandomAccessGate::new(3, bits, 2);
            let wires = (0..gate.num_wires() * n).map(|i| value(i + 1)).collect::<Vec<_>>();
            let constants = (0..gate.num_constants() * n)
                .map(|i| value(i + 10_001))
                .collect::<Vec<_>>();
            let filters = (0..n)
                .map(|i| match i % 7 {
                    0 => F::zero(),
                    1 => GoldilocksField(ORDER), // noncanonical zero
                    _ => value(i + 20_001),
                })
                .collect::<Vec<_>>();
            let vars = batch(n, &constants, &wires);

            let materialized = gate.eval_unfiltered_base_batch(&vars);
            let initial = (0..gate.num_constraints() * n)
                .map(|i| match i % 11 {
                    0 => F::zero(),
                    1 => GoldilocksField(ORDER), // noncanonical zero
                    _ => value(i + 30_001),
                })
                .collect::<Vec<_>>();
            let mut expected = initial.clone();
            for (acc, constraints) in
                expected.chunks_exact_mut(n).zip(materialized.chunks_exact(n))
            {
                batch_multiply_add_inplace(acc, constraints, &filters);
            }

            let mut actual = initial;
            gate.eval_unfiltered_base_batch_accumulate(&vars, &filters, &mut actual);

            for (i, (&expected, &actual)) in expected.iter().zip(&actual).enumerate() {
                assert_eq!(
                    actual.to_noncanonical_u64(),
                    expected.to_noncanonical_u64(),
                    "bits={bits}, n={n}, output={i}"
                );
            }
        }
    }
}

/// The local wires for a random access gate given the vectors, elements to compare, and indices.
fn get_wires(
    bits: usize,
    lists: &[Vec<F>],
    access_indices: &[usize],
    claimed_elements: &[F],
    constants: &[F],
) -> Vec<FE> {
    let mut v = Vec::new();
    let mut bit_vals = Vec::new();
    for copy in 0..lists.len() {
        let access_index = access_indices[copy];
        v.push(f(access_index as u64));
        v.push(claimed_elements[copy]);
        v.extend(&lists[copy]);
        for i in 0..bits {
            bit_vals.push(f(((access_index >> i) & 1) as u64));
        }
    }
    v.extend(constants);
    v.extend(bit_vals);
    v.into_iter().map(ext).collect()
}

#[test]
fn test_gate_constraint() {
    let bits = 3;
    let vec_size = 1 << bits;
    let num_copies = 4;
    let mut values = Values(6);
    let lists = (0..num_copies).map(|_| values.bases(vec_size)).collect::<Vec<_>>();
    let access_indices = (0..num_copies)
        .map(|_| values.word() as usize % vec_size)
        .collect::<Vec<_>>();
    let gate = RandomAccessGate { bits, num_copies, num_extra_constants: 1 };
    let constants = values.bases(gate.num_constants());

    let good_claimed_elements = lists
        .iter()
        .zip(&access_indices)
        .map(|(l, &i)| l[i])
        .collect::<Vec<_>>();
    let ext_constants = constants.iter().map(|&x| ext(x)).collect::<Vec<_>>();
    let good_wires = get_wires(bits, &lists, &access_indices, &good_claimed_elements, &constants);
    let bad_claimed_elements = values.bases(4);
    let bad_wires = get_wires(bits, &lists, &access_indices, &bad_claimed_elements, &constants);

    assert!(
        gate.eval_unfiltered(&good_wires, &ext_constants).iter().all(|x| x.is_zero()),
        "Gate constraints are not satisfied."
    );
    assert!(
        !gate.eval_unfiltered(&bad_wires, &ext_constants).iter().all(|x| x.is_zero()),
        "Gate constraints are satisfied but should not be."
    );
}

#[test]
fn extension_rows_tell_whether_elements_are_equal() {
    let gate = EqualityGate { num_ops: 1 };
    let mut values = Values(14);
    let x = values.ext();
    let d = QuadraticExtension([f(0), f(1)]);
    // The square of the generator of the extension is 7.
    assert_eq!(d.mul(d), ext(f(7)));
    let inverse = d.mul(ext(f(7).inverse()));
    let row = |equal: FE, inverse: FE, product: FE| {
        vec![x.add(d), x, equal, d, inverse, product]
    };
    let met = |row: &[FE]| {
        gate.eval_unfiltered(row, &[FE::one()]).iter().all(|c| c.is_zero())
    };
    assert!(met(&row(FE::zero(), inverse, FE::one())));
    assert!(!met(&row(FE::one(), inverse, FE::one())));
    assert!(!met(&row(FE::one(), FE::zero(), FE::zero())));
    let same = vec![x, x, FE::one(), FE::zero(), d, FE::zero()];
    assert!(met(&same));
}

#[test]
fn random_access_generators_fill_a_row_that_meets_the_constraints() {
    let gate = RandomAccessGate::new(3, 3, 2);
    let mut values = Values(7);
    let constants = values.bases(2);
    let mut row = values.bases(gate.num_wires());
    for copy in 0..3 {
        row[gate.wire_access_index(copy)] = f(2 * copy as u64 + 1);
    }
    for i in 0..2 {
        row[gate.wire_extra_constant(i)] = constants[i];
    }
    let mut witness = PartitionWitness { rows: vec![row] };
    let generators = gate.generators(0);
    assert_eq!(generators.len(), 3);
    for generator in &generators {
        assert_eq!(generator.dependencies().len(), 1 + 8);
        let mut generated = GeneratedValues::empty();
        generator.run_once(&witness, &mut generated);
        fill(&mut witness, generated);
    }
    let row = &witness.rows[0];
    for copy in 0..3 {
        assert_eq!(
            row[gate.wire_claimed_element(copy)],
            row[gate.wire_list_item(2 * copy + 1, copy)]
        );
    }
    let constraints = gate.eval_unfiltered_base_one(row, &constants);
    assert!(constraints.iter().all(|x| x.is_zero()));
}

#[test]
fn random_access_sizes_follow_the_configuration() {
    let gate = RandomAccessGate::new_from_config(&CircuitConfig::standard_recursion_config(), 4);
    assert_eq!((gate.bits, gate.num_copies, gate.num_extra_constants), (4, 4, 2));
    assert_eq!(gate.num_routed_wires(), 18 * 4 + 2);
    assert_eq!(gate.num_wires(), 74 + 16);
    assert_eq!(gate.num_constraints(), 4 * 6 + 2);
    assert_eq!(gate.degree(), 5);
    assert_eq!(gate.extra_constant_wires(), vec![(0, 72), (1, 73)]);
}

#[test]
fn test_succes() {
    let config = CircuitConfig::standard_recursion_config();
    let gate = EqualityGate::new_from_config(&config);
    let constants = [F::one()];

    let value1 = F::from_canonical_u64(17);
    let value2 = F::from_canonical_u64(18);
    for (x, y, equal) in [(value1, value2, false), (value1, value1, true)] {
        let mut row = vec![F::zero(); gate.num_wires()];
        for i in 0..gate.num_ops {
            row[gate.wire_ith_element_0(i)] = x;
            row[gate.wire_ith_element_1(i)] = y;
        }
        let mut witness = PartitionWitness { rows: vec![row] };
        for generator in gate.generators(0, &constants) {
            let mut generated = GeneratedValues::empty();
            generator.run_once(&witness, &mut generated);
            fill(&mut witness, generated);
        }
        let row = &witness.rows[0];
        for i in 0..gate.num_ops {
            assert_eq!(row[gate.wire_ith_output(i)], f(equal as u64));
        }
        let constraints = gate.eval_unfiltered_base_one(row, &constants);
        assert!(constraints.iter().all(|x| x.is_zero()));
    }
}

#[test]
fn equality_constraints_reject_a_wrong_answer() {
    let gate = EqualityGate { num_ops: 1 };
    let constants = [F::one()];
    let mut row = vec![F::zero(); gate.num_wires()];
    row[gate.wire_ith_element_0(0)] = f(17);
    row[gate.wire_ith_element_1(0)] = f(18);
    row[gate.wire_ith_output(0)] = F::one();
    let constraints = gate.eval_unfiltered_base_one(&row, &constants);
    assert!(!constraints.iter().all(|x| x.is_zero()));
    assert_eq!(gate.num_constraints(), 4);
}

#[test]
fn addition_generators_compute_weighted_sums() {
    let gate = AdditionGate::new_from_config(&CircuitConfig::standard_recursion_config());
    assert_eq!(gate.num_ops, 26);
    let constants = [f(3), f(5)];
    let mut row = vec![F::zero(); gate.num_wires()];
    for i in 0..gate.num_ops {
        row[AdditionGate::wire_ith_addend_0(i)] = f(i as u64);
        row[AdditionGate::wire_ith_addend_1(i)] = f(7);
    }
    let mut witness = PartitionWitness { rows: vec![row] };
    for generator in gate.generators(0, &constants) {
        let mut generated = GeneratedValues::empty();
        generator.run_once(&witness, &mut generated);
        fill(&mut witness, generated);
    }
    let row = &witness.rows[0];
    for i in 0..gate.num_ops {
        assert_eq!(row[AdditionGate::wire_ith_output(i)], f(3 * i as u64 + 35));
    }
    let constraints = gate.eval_unfiltered_base_one(row, &constants);
    assert!(constraints.iter().all(|x| x.is_zero()));
}

#[test]
fn gates_and_generators_survive_serialization() {
    let mut bytes = vec![];
    AdditionGate { num_ops: 26 }.serialize(&mut bytes);
    assert_eq!(bytes, vec![26, 0, 0, 0, 0, 0, 0, 0]);
    let generator = AdditionBaseGenerator { row: 9, const_0: f(ORDER + 4), const_1: f(6), i: 2 };
    generator.serialize(&mut bytes);
    let gate = EqualityGate { num_ops: 5 };
    gate.serialize(&mut bytes);
    EqualityBaseGenerator { gate, row: 7, const_0: f(1), i: 3 }.serialize(&mut bytes);
    let access = RandomAccessGate::new(4, 3, 1);
    access.serialize(&mut bytes);
    RandomAccessGenerator { row: 300, gate: access, copy: 2 }.serialize(&mut bytes);
    Poseidon2Gate::new().serialize(&mut bytes);
    Poseidon2Generator { row: 11 }.serialize(&mut bytes);
    assert_eq!(bytes.len(), 8 * (1 + 4 + 1 + 4 + 3 + 5 + 0 + 1));

    let mut src = Buffer::new(&bytes);
    assert_eq!(AdditionGate::deserialize(&mut src).unwrap().num_ops, 26);
    let read = AdditionBaseGenerator::deserialize(&mut src).unwrap();
    assert_eq!((read.row, read.const_0.0, read.const_1.0, read.i), (9, 4, 6, 2));
    assert_eq!(EqualityGate::deserialize(&mut src).unwrap().num_ops, 5);
    let read = EqualityBaseGenerator::deserialize(&mut src).unwrap();
    assert_eq!((read.gate.num_ops, read.row, read.const_0, read.i), (5, 7, f(1), 3));
    let read = RandomAccessGate::deserialize(&mut src).unwrap();
    assert_eq!((read.bits, read.num_copies, read.num_extra_constants), (3, 4, 1));
    let read = RandomAccessGenerator::deserialize(&mut src).unwrap();
    assert_eq!((read.row, read.copy, read.gate.bits), (300, 2, 3));
    assert!(Poseidon2Gate::deserialize(&mut src).is_ok());
    assert_eq!(Poseidon2Generator::deserialize(&mut src).unwrap().row, 11);
    assert_eq!(src.pos, bytes.len());
    assert_eq!(Poseidon2Generator::deserialize(&mut src).unwrap_err(), IoError);
    let mut short = Buffer::new(&bytes[..23]);
    assert_eq!(AdditionBaseGenerator::deserialize(&mut short).unwrap_err(), IoError);
}
