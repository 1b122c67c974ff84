//! The answers to the queries of the low-degree proof.

use crate::field::extension::QuadraticExtension;
use crate::field::goldilocks_field::GoldilocksField;
use crate::field::types::vals;
use crate::fri::structure::{FriInitialTreeProof, FriParams, FriQueryRound, FriQueryStep, bits_sum};
use crate::hash::hash_types::{GenericHashOut, canonical};
use crate::hash::merkle_model::path_end;
use crate::hash::merkle_tree::{MerkleProof, MerkleTree, digests_seq, sibling_index, two_of};
use crate::hash::poseidon2::hash::Poseidon2Hash;
use crate::iop::challenger::{Challenger, Transcript};
use crate::plonk::config::Hasher;
use crate::util::bits::{lemma_pow2_basics, lemma_pow2_double, log2};
use vstd::arithmetic::power2::{lemma_pow2_adds, lemma_pow2_pos, pow2};
use vstd::prelude::*;

verus! {

/// A Merkle proof holds the siblings on the path of a leaf, and leads from the leaf to the cap.
pub open spec fn proves_leaf(
    tree: MerkleTree<Poseidon2Hash>,
    index: nat,
    proof: MerkleProof<Poseidon2Hash>,
) -> bool {
    &&& proof.siblings@.len() == log2(tree.num_leaves as nat) - log2(tree.cap.0@.len())
    &&& forall|i: int|
        0 <= i < proof.siblings@.len() ==> #[trigger] proof.siblings@[i]
            == tree.digests@[sibling_index(index, proof.siblings@.len(), i as nat)]
    &&& index as int / (pow2(proof.siblings@.len()) as int) < tree.cap.0@.len()
    &&& path_end(
        two_of::<Poseidon2Hash>(),
        Poseidon2Hash::leaf_spec(vals(tree.leaves.leaf(index as int))),
        index,
        digests_seq(proof.siblings@),
    ) == tree.cap.0@[index as int / pow2(proof.siblings@.len()) as int].digest()
}

/// The elements of the extension field with the given coordinates, one pair after the other.
pub fn unflatten(coords: &[GoldilocksField]) -> (r: Vec<QuadraticExtension>)
    requires
        coords@.len() % 2 == 0,
    ensures
        r@.len() == coords@.len() / 2,
        forall|i: int|
            0 <= i < r@.len() ==> (#[trigger] r@[i]).0@ == coords@.subrange(2 * i, 2 * i + 2),
{
    let n: usize = coords.len() / 2;
    let mut r: Vec<QuadraticExtension> = Vec::with_capacity(n);
    while r.len() < n
        invariant
            n == coords@.len() / 2,
            coords@.len() % 2 == 0,
            coords@.len() <= usize::MAX,
            r@.len() <= n,
            forall|i: int|
                0 <= i < r@.len() ==> (#[trigger] r@[i]).0@ == coords@.subrange(2 * i, 2 * i + 2),
        decreases n - r@.len(),
    {
        let i: usize = r.len();
        let x = QuadraticExtension([coords[2 * i], coords[2 * i + 1]]);
        assert(x.0@ =~= coords@.subrange(2 * i, 2 * i + 2));
        r.push(x);
    }
    r
}

/// Trees that can answer the queries of a proof: every initial tree has a leaf for each index, and
/// each tree of the commit phase has one for each index of its round.
pub open spec fn trees_ready(
    initial: Seq<&MerkleTree<Poseidon2Hash>>,
    trees: Seq<MerkleTree<Poseidon2Hash>>,
    n: nat,
    bits: Seq<usize>,
) -> bool {
    &&& trees.len() == bits.len()
    &&& forall|j: int|
        0 <= j < initial.len() ==> (#[trigger] initial[j]).wf() && n <= initial[j].num_leaves
    &&& forall|i: int|
        0 <= i < trees.len() ==> {
            &&& (#[trigger] trees[i]).wf()
            &&& trees[i].leaves is Rows
            &&& trees[i].leaves.width() % 2 == 0
            &&& trees[i].num_leaves * pow2(bits_sum(bits, (i + 1) as nat)) == n
        }
}

/// The answers to a query: the leaves of the initial trees at the index, and for each round the
/// evaluations in the leaf that the index, reduced by the arities so far, falls into.
pub open spec fn answers(
    round: FriQueryRound,
    initial: Seq<&MerkleTree<Poseidon2Hash>>,
    trees: Seq<MerkleTree<Poseidon2Hash>>,
    x_index: nat,
    bits: Seq<usize>,
) -> bool {
    &&& round.initial_trees_proof.evals_proofs@.len() == initial.len()
    &&& forall|j: int|
        0 <= j < initial.len() ==> {
            let entry = #[trigger] round.initial_trees_proof.evals_proofs@[j];
            &&& entry.0@ == initial[j].leaves.leaf(x_index as int)
            &&& proves_leaf(*initial[j], x_index, entry.1)
        }
    &&& round.steps@.len() == trees.len()
    &&& forall|i: int|
        0 <= i < trees.len() ==> step_answers(
            #[trigger] round.steps@[i],
            trees[i],
            (x_index as int / pow2(bits_sum(bits, (i + 1) as nat)) as int) as nat,
        )
}

/// The answer of one round.
pub open spec fn step_answers(
    step: FriQueryStep,
    tree: MerkleTree<Poseidon2Hash>,
    index: nat,
) -> bool {
    let leaf = tree.leaves.leaf(index as int);
    &&& step.evals@.len() == leaf.len() / 2
    &&& forall|k: int|
        0 <= k < step.evals@.len() ==> (#[trigger] step.evals@[k]).0@ == leaf.subrange(
            2 * k,
            2 * k + 2,
        )
    &&& proves_leaf(tree, index, step.merkle_proof)
}

proof fn lemma_shifted_index(x: nat, a: nat, b: nat, leaves: nat, n: nat)
    requires
        x < n,
        leaves * pow2(a + b) == n,
    ensures
        (x as int / pow2(a) as int) / (pow2(b) as int) == x as int / pow2(a + b) as int,
        x as int / (pow2(a + b) as int) < leaves,
{
    lemma_pow2_pos(a);
    lemma_pow2_pos(b);
    lemma_pow2_adds(a, b);
    vstd::arithmetic::div_mod::lemma_div_denominator(x as int, pow2(a) as int, pow2(b) as int);
    let p = pow2(a + b) as int;
    lemma_pow2_pos(a + b);
    vstd::arithmetic::div_mod::lemma_fundamental_div_mod(x as int, p);
    vstd::arithmetic::div_mod::lemma_mod_bound(x as int, p);
    let q = x as int / p;
    assert(q < leaves) by (nonlinear_arith)
        requires
            p * q + x as int % p == x,
            0 <= x as int % p,
            x < leaves * p,
            p > 0,
    ;
}

/// The width of the leaves of a row-major tree.
proof fn lemma_leaf_len(tree: MerkleTree<Poseidon2Hash>, i: int)
    requires
        tree.leaves is Rows,
        tree.leaves.holds(tree.num_leaves as nat),
        0 <= i < tree.num_leaves,
    ensures
        tree.leaves.leaf(i).len() == tree.leaves.width(),
{
    let (n, w) = (tree.num_leaves as int, tree.leaves.width() as int);
    assert(0 <= i * w && i * w + w <= n * w) by (nonlinear_arith)
        requires
            0 <= i,
            i + 1 <= n,
            0 <= w,
    ;
}

/// `x / 2^bits`, bit by bit.
fn shift_right(x: usize, bits: usize) -> (r: usize)
    ensures
        r == x as int / pow2(bits as nat) as int,
{
    let mut r: usize = x;
    let mut i: usize = 0;
    proof {
        lemma_pow2_basics();
        assert(x as int / 1 == x);
    }
    while i < bits
        invariant
            i <= bits,
            r == x as int / pow2(i as nat) as int,
        decreases bits - i,
    {
        proof {
            lemma_pow2_double(i as nat);
            lemma_pow2_pos(i as nat);
            vstd::arithmetic::div_mod::lemma_div_denominator(x as int, pow2(i as nat) as int, 2);
            assert(pow2(i as nat) * 2 == 2 * pow2(i as nat));
        }
        r = r / 2;
        i = i + 1;
    }
    r
}

/// Answers one query.
pub fn fri_prover_query_round(
    initial_merkle_trees: &Vec<&MerkleTree<Poseidon2Hash>>,
    trees: &Vec<MerkleTree<Poseidon2Hash>>,
    x_index: usize,
    fri_params: &FriParams,
) -> (r: FriQueryRound)
    requires
        exists|n: nat|
            x_index < n && #[trigger] trees_ready(
                initial_merkle_trees@,
                trees@,
                n,
                fri_params.reduction_arity_bits@,
            ),
    ensures
        answers(
            r,
            initial_merkle_trees@,
            trees@,
            x_index as nat,
            fri_params.reduction_arity_bits@,
        ),
{
    let ghost bits = fri_params.reduction_arity_bits@;
    let ghost n = choose|n: nat|
        x_index < n && #[trigger] trees_ready(initial_merkle_trees@, trees@, n, bits);
    let mut evals_proofs: Vec<(Vec<GoldilocksField>, MerkleProof<Poseidon2Hash>)> = Vec::new();
    let count: usize = initial_merkle_trees.len();
    while evals_proofs.len() < count
        invariant
            count == initial_merkle_trees@.len(),
            x_index < n,
            trees_ready(initial_merkle_trees@, trees@, n, bits),
            evals_proofs@.len() <= count,
            forall|j: int|
                0 <= j < evals_proofs@.len() ==> (#[trigger] evals_proofs@[j]).0@
                    == initial_merkle_trees@[j].leaves.leaf(x_index as int) && proves_leaf(
                    *initial_merkle_trees@[j],
                    x_index as nat,
                    evals_proofs@[j].1,
                ),
        decreases count - evals_proofs@.len(),
    {
        let j: usize = evals_proofs.len();
        let tree = initial_merkle_trees[j];
        assert(initial_merkle_trees@[j as int].wf());
        let leaf = tree.leaf_vec(x_index);
        let proof_of_leaf = tree.prove(x_index);
        evals_proofs.push((leaf, proof_of_leaf));
    }
    let mut steps: Vec<FriQueryStep> = Vec::new();
    let rounds: usize = trees.len();
    let mut index: usize = x_index;
    proof {
        lemma_pow2_basics();
        assert(x_index as int / 1 == x_index);
    }
    while steps.len() < rounds
        invariant
            rounds == trees@.len() == bits.len(),
            bits == fri_params.reduction_arity_bits@,
            x_index < n,
            trees_ready(initial_merkle_trees@, trees@, n, bits),
            steps@.len() <= rounds,
            index == x_index as int / pow2(bits_sum(bits, steps@.len())) as int,
            forall|i: int|
                0 <= i < steps@.len() ==> step_answers(
                    #[trigger] steps@[i],
                    trees@[i],
                    (x_index as int / pow2(bits_sum(bits, (i + 1) as nat)) as int) as nat,
                ),
        decreases rounds - steps@.len(),
    {
        let i: usize = steps.len();
        let arity_bits: usize = fri_params.reduction_arity_bits[i];
        let tree = &trees[i];
        proof {
            assert(trees@[i as int].wf());
            lemma_shifted_index(
                x_index as nat,
                bits_sum(bits, i as nat),
                arity_bits as nat,
                tree.num_leaves as nat,
                n,
            );
            lemma_leaf_len(
                *tree,
                x_index as int / pow2(bits_sum(bits, (i + 1) as nat)) as int,
            );
        }
        let next: usize = shift_right(index, arity_bits);
        let evals = unflatten(tree.get(next));
        let merkle_proof = tree.prove(next);
        steps.push(FriQueryStep { evals, merkle_proof });
        index = next;
    }
    FriQueryRound { initial_trees_proof: FriInitialTreeProof { evals_proofs }, steps }
}

/// Answers the queries that the challenger asks for.
pub fn fri_prover_query_rounds(
    initial_merkle_trees: &Vec<&MerkleTree<Poseidon2Hash>>,
    trees: &Vec<MerkleTree<Poseidon2Hash>>,
    challenger: &mut Challenger,
    n: usize,
    fri_params: &FriParams,
) -> (r: Vec<FriQueryRound>)
    requires
        old(challenger).wf(),
        n > 0,
        trees_ready(
            initial_merkle_trees@,
            trees@,
            n as nat,
            fri_params.reduction_arity_bits@,
        ),
    ensures
        final(challenger).wf(),
        final(challenger).transcript() == old(challenger).transcript().drawn_n(
            fri_params.config.num_query_rounds as nat,
        ),
        r@.len() == fri_params.config.num_query_rounds,
        forall|q: int|
            0 <= q < r@.len() ==> answers(
                #[trigger] r@[q],
                initial_merkle_trees@,
                trees@,
                query_index(old(challenger).transcript(), q, n as nat),
                fri_params.reduction_arity_bits@,
            ),
{
    let ghost t = challenger.transcript();
    let rounds: usize = fri_params.config.num_query_rounds;
    let challenges = challenger.get_n_challenges(rounds);
    let mut r: Vec<FriQueryRound> = Vec::with_capacity(rounds);
    assert(vals(challenges@).len() == rounds);
    while r.len() < rounds
        invariant
            n > 0,
            trees_ready(
                initial_merkle_trees@,
                trees@,
                n as nat,
                fri_params.reduction_arity_bits@,
            ),
            rounds == challenges@.len(),
            vals(challenges@) == t.challenges(rounds as nat),
            r@.len() <= rounds,
            forall|q: int|
                0 <= q < r@.len() ==> answers(
                    #[trigger] r@[q],
                    initial_merkle_trees@,
                    trees@,
                    query_index(t, q, n as nat),
                    fri_params.reduction_arity_bits@,
                ),
        decreases rounds - r@.len(),
    {
        let q: usize = r.len();
        let word: u64 = challenges[q].to_canonical_u64();
        let x_index: usize = (word % n as u64) as usize;
        proof {
            assert(vals(challenges@)[q as int] == t.challenges(rounds as nat)[q as int]);
            assert(x_index == query_index(t, q as int, n as nat));
            assert(x_index < n);
        }
        r.push(fri_prover_query_round(initial_merkle_trees, trees, x_index, fri_params));
    }
    r
}

/// The index that query `q` asks for, in a domain of `n` points.
pub open spec fn query_index(t: Transcript, q: int, n: nat) -> nat {
    (canonical(t.drawn_n(q as nat).challenge()) as int % n as int) as nat
}

} // verus!
