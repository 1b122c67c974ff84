//! The Poseidon2 hash function.

use crate::field::goldilocks_field::GoldilocksField;
use crate::field::model::{Elt, elt0, elt1, lemma_reduced_self};
use crate::field::types::vals;
use crate::gates::poseidon2::{Poseidon2Gate, WIRE_SWAP};
use crate::gates::poseidon2_laws::lemma_constraints_sound;
use crate::gates::poseidon2_witness::permuted_inputs;
use crate::hash::hash_types::{
    GenericHashOut, HashOut, canonical, element_bytes, lemma_element_bytes_at,
    lemma_element_bytes_len,
};
use crate::hash::hashing::{
    Poseidon2Permutation, compress, compressed, hash_n_to_hash_no_pad, sponge,
};
use crate::hash::poseidon2::config::{RATE, WIDTH};
use crate::hash::poseidon2::permutation::permutation;
use crate::iop::target::{BoolTarget, Target};
use crate::plonk::circuit_builder::{Assignment, CircuitBuilder, GateKind};
use crate::plonk::config::{AlgebraicHasher, Hasher, base_values, noop_bytes};
use crate::plonk::routing::{row_holds, row_values, satisfied};
use crate::util::bytes::{from_le, lemma_le_round_trip, lemma_pow256_8};
use vstd::prelude::*;

verus! {

/// Poseidon2 hash function.
#[derive(Clone, Copy, Debug, PartialEq, Eq)]
pub struct Poseidon2Hash;

impl Hasher for Poseidon2Hash {
    type Hash = HashOut;

    open spec fn rate() -> nat {
        8
    }

    open spec fn hash_spec(input: Seq<Elt>) -> Seq<Elt> {
        sponge(input, 4)
    }

    open spec fn two_spec(left: Seq<Elt>, right: Seq<Elt>) -> Seq<Elt> {
        compressed(left, right)
    }

    open spec fn leaf_spec(input: Seq<Elt>) -> Seq<Elt> {
        if 8 * input.len() <= 32 {
            HashOut::parsed(noop_bytes(input, 32))
        } else {
            sponge(input, 4)
        }
    }

    proof fn lemma_leaf(input: Seq<Elt>) {
        assert(HashOut::byte_len() == 32);
        assert(Self::hash_spec(input) == sponge(input, 4));
        assert(Self::leaf_spec(input) == (if 8 * input.len() <= 32 {
            HashOut::parsed(noop_bytes(input, 32))
        } else {
            sponge(input, 4)
        }));
    }

    fn absorb_rate() -> (r: usize) {
        assert(Self::rate() == 8);
        RATE
    }

    fn hash_size() -> (r: usize) {
        assert(HashOut::byte_len() == 32);
        32
    }

    fn hash_no_pad(input: &[GoldilocksField]) -> (r: HashOut)
        ensures
            r.digest() == Self::hash_spec(vals(input@)),
    {
        hash_n_to_hash_no_pad(input)
    }

    fn two_to_one(left: HashOut, right: HashOut) -> (r: HashOut)
        ensures
            r.digest() == Self::two_spec(left.digest(), right.digest()),
    {
        compress(left, right)
    }
}

/// The digest that the first `n` of a sequence of digests are folded to.
pub open spec fn folded(input: Seq<HashOut>, n: nat) -> Seq<Elt>
    decreases n,
{
    if n <= 1 {
        input[0].digest()
    } else {
        compressed(folded(input, (n - 1) as nat), input[n - 1].digest())
    }
}

impl Poseidon2Hash {
    /// Hashes a sequence of digests to one, from the left.
    pub fn hash_n_to_one(input: &[HashOut]) -> (r: HashOut)
        requires
            input@.len() > 0,
        ensures
            r.digest() == folded(input@, input@.len()),
    {
        let mut result = input[0];
        let mut i: usize = 1;
        while i < input.len()
            invariant
                1 <= i <= input@.len(),
                result.digest() == folded(input@, i as nat),
            decreases input@.len() - i,
        {
            result = compress(result, input[i]);
            i = i + 1;
        }
        result
    }
}

/// A leaf that fits into a digest is its own digest, filled up with zeros.
pub proof fn lemma_short_leaf(input: Seq<Elt>)
    requires
        input.len() <= 4,
        forall|i: int| 0 <= i < input.len() ==> (#[trigger] input[i]).wf() && input[i].im == 0,
    ensures
        Poseidon2Hash::leaf_spec(input) == Seq::new(
            4,
            |i: int|
                if i < input.len() {
                    input[i]
                } else {
                    elt0()
                },
        ),
{
    let bytes = noop_bytes(input, 32);
    let head = element_bytes(input, input.len());
    lemma_element_bytes_len(input, input.len());
    let target = Seq::new(
        4,
        |i: int|
            if i < input.len() {
                input[i]
            } else {
                elt0()
            },
    );
    lemma_pow256_8();
    assert forall|i: int| 0 <= i < 4 implies #[trigger] HashOut::parsed(bytes)[i] == target[i] by {
        let part = bytes.subrange(8 * i, 8 * i + 8);
        if i < input.len() {
            lemma_element_bytes_at(input, input.len(), i);
            assert(part =~= head.subrange(8 * i, 8 * i + 8));
            lemma_le_round_trip(canonical(input[i]), 8);
            lemma_reduced_self(input[i]);
        } else {
            assert(part =~= Seq::new(8, |k: int| 0u8));
            lemma_from_le_zero(part);
        }
    }
    assert(HashOut::parsed(bytes) =~= target);
}

proof fn lemma_from_le_zero(s: Seq<u8>)
    requires
        forall|i: int| 0 <= i < s.len() ==> #[trigger] s[i] == 0,
    ensures
        from_le(s) == 0,
    decreases s.len(),
{
    if s.len() > 0 {
        lemma_from_le_zero(s.skip(1));
    }
}

/// What a permutation adds to a circuit: a row, with its swap wire and its input wires connected.
pub open spec fn permutation_row_added(
    before: CircuitBuilder,
    after: CircuitBuilder,
    inputs: Seq<Target>,
    swap: Target,
    outputs: Seq<Target>,
) -> bool {
    let row = before.rows@.len() as usize;
    &&& after.rows@ == before.rows@.push(GateKind::Poseidon2)
    &&& after.connections@ == before.connections@ + seq![
        (swap, Target::Wire { row, column: 24 }),
    ] + Seq::new(12, |i: int| (inputs[i], Target::Wire { row, column: i as usize }))
    &&& outputs == Seq::new(12, |i: int| Target::Wire { row, column: (12 + i) as usize })
}

impl AlgebraicHasher for Poseidon2Hash {
    type AlgebraicPermutation = Poseidon2Permutation<Target>;

    open spec fn state_targets(state: Poseidon2Permutation<Target>) -> Seq<Target> {
        state.state@
    }

    open spec fn permuted(inputs: Seq<Elt>, swap: Elt) -> Seq<Elt> {
        permutation(permuted_inputs(inputs, swap))
    }

    fn permute_swapped(
        inputs: Poseidon2Permutation<Target>,
        swap: BoolTarget,
        builder: &mut CircuitBuilder,
    ) -> (r: Poseidon2Permutation<Target>)
        ensures
            permutation_row_added(
                *old(builder),
                *final(builder),
                inputs.state@,
                swap.target,
                r.state@,
            ),
            forall|asg: Assignment| #[trigger]
                satisfied(*final(builder), asg) ==> {
                    &&& (asg.base)(swap.target) == elt0() || (asg.base)(swap.target) == elt1()
                    &&& base_values(asg, Self::state_targets(r)) == Self::permuted(
                        base_values(asg, Self::state_targets(inputs)),
                        (asg.base)(swap.target),
                    )
                },
    {
        let ghost start = *builder;
        let row: usize = builder.add_gate(GateKind::Poseidon2);
        let swap_wire = Target::wire(row, WIRE_SWAP);
        builder.connect(swap.target, swap_wire);
        let ghost head = builder.connections@;
        let ghost wired = Seq::new(
            12,
            |i: int| (inputs.state@[i], Target::Wire { row, column: i as usize }),
        );
        let mut outputs = inputs;
        let mut i: usize = 0;
        assert(head =~= head + wired.take(0));
        // Route input wires, and collect output wires.
        while i < WIDTH
            invariant
                i <= 12,
                builder.base_wf(),
                builder.rows@ == start.rows@.push(GateKind::Poseidon2),
                row == start.rows@.len(),
                head == start.connections@.push((swap.target, swap_wire)),
                swap_wire == (Target::Wire { row, column: 24 }),
                wired == Seq::new(
                    12,
                    |k: int| (inputs.state@[k], Target::Wire { row, column: k as usize }),
                ),
                builder.connections@ == head + wired.take(i as int),
                *builder == (CircuitBuilder {
                    rows: builder.rows,
                    connections: builder.connections,
                    ..start
                }),
                forall|k: int|
                    0 <= k < i ==> #[trigger] outputs.state@[k] == (Target::Wire {
                        row,
                        column: (12 + k) as usize,
                    }),
            decreases 12 - i,
        {
            let in_wire = Target::wire(row, Poseidon2Gate::wire_input(i));
            builder.connect(inputs.state[i], in_wire);
            let out_wire = Target::wire(row, Poseidon2Gate::wire_output(i));
            outputs.set_elt(out_wire, i);
            i = i + 1;
            assert(builder.connections@ =~= head + wired.take(i as int));
        }
        proof {
            let c = builder.connections@;
            let n = start.connections@.len() as int;
            assert(wired.take(12) =~= wired);
            assert(c =~= start.connections@ + seq![(swap.target, swap_wire)] + wired);
            assert(outputs.state@ =~= Seq::new(
                12,
                |k: int| Target::Wire { row, column: (12 + k) as usize },
            ));
            assert forall|asg: Assignment| #[trigger] satisfied(*builder, asg) implies {
                &&& (asg.base)(swap.target) == elt0() || (asg.base)(swap.target) == elt1()
                &&& base_values(asg, Self::state_targets(outputs)) == Self::permuted(
                    base_values(asg, Self::state_targets(inputs)),
                    (asg.base)(swap.target),
                )
            } by {
                let w = row_values(asg, row, 135);
                assert(row_holds(builder.rows@[row as int], asg, row));
                assert(c[n] == (swap.target, swap_wire));
                assert forall|k: int| 0 <= k < 135 implies (#[trigger] w[k]).im == 0 by {
                    assert((asg.base)(Target::Wire { row, column: k as usize }).im == 0);
                }
                lemma_constraints_sound(w);
                assert forall|k: int| 0 <= k < 12 implies #[trigger] w.take(12)[k] == base_values(
                    asg,
                    inputs.state@,
                )[k] by {
                    assert(c[n + 1 + k] == wired[k]);
                }
                assert(w.take(12) =~= base_values(asg, inputs.state@));
                assert(base_values(asg, outputs.state@) =~= w.subrange(12, 24));
            }
        }
        outputs
    }
}

} // verus!
