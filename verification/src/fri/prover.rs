//! The prover of the low-degree proof.

use crate::field::extension::QuadraticExtension;
use crate::field::goldilocks_field::GoldilocksField;
use crate::field::model::Elt;
use crate::field::polynomial::{PolynomialCoeffs, PolynomialValues, copy_vec};
use crate::field::types::{Field, vals};
use crate::fri::commit_phase::{
    cap_elements, committed, committed_transcript, round_coeffs, round_tree, round_values, sizes_ok,
};
use crate::fri::committed_trees::{fri_committed_trees, lemma_round_sizes};
use crate::fri::proof_of_work::{fri_proof_of_work, pow_accepted, pow_response};
use crate::fri::query::{answers, fri_prover_query_rounds, query_index, trees_ready};
use crate::fri::structure::{FriParams, FriProof, bits_sum};
use crate::hash::merkle_tree::{MerkleCap, MerkleTree};
use crate::hash::poseidon2::hash::Poseidon2Hash;
use crate::iop::challenger::{Challenger, Transcript};
use crate::util::bits::{is_power_of_two, lemma_log2, log2};
use vstd::arithmetic::power2::{lemma_pow2_adds, lemma_pow2_pos, pow2};
use vstd::prelude::*;

verus! {

/// The number of coefficients and of values at the start of round `i`.
pub proof fn lemma_round_lens(
    c: Seq<Elt>,
    values: Seq<Elt>,
    t: Transcript,
    caps: Seq<Seq<Elt>>,
    params: FriParams,
    lg_n: nat,
    i: nat,
)
    requires
        sizes_ok(params, lg_n),
        c.len() == pow2(lg_n),
        values.len() == pow2(lg_n),
        i <= params.reduction_arity_bits@.len(),
    ensures
        bits_sum(params.reduction_arity_bits@, i) <= lg_n,
        round_coeffs(c, t, caps, params.reduction_arity_bits@, i).len() == pow2(
            (lg_n - bits_sum(params.reduction_arity_bits@, i)) as nat,
        ),
        round_values(
            c,
            values,
            t,
            caps,
            params.reduction_arity_bits@,
            params.config.rate_bits as nat,
            i,
        ).len() == pow2((lg_n - bits_sum(params.reduction_arity_bits@, i)) as nat),
    decreases i,
{
    let bits = params.reduction_arity_bits@;
    if i > 0 {
        let j = (i - 1) as nat;
        lemma_round_lens(c, values, t, caps, params, lg_n, j);
        let k = (lg_n - bits_sum(bits, j)) as nat;
        let b = bits[j as int] as nat;
        assert(bits_sum(bits, i) <= lg_n);
        lemma_round_sizes(k, b);
        lemma_log2((k - b) as nat);
    }
}

/// A proof is what the prover makes of a polynomial, with the trees of the commit phase.
pub open spec fn proof_made(
    proof: FriProof,
    initial: Seq<&MerkleTree<Poseidon2Hash>>,
    c: Seq<Elt>,
    values: Seq<Elt>,
    start: Transcript,
    end: Transcript,
    params: FriParams,
    final_poly_coeff_len: Option<usize>,
    max_num_query_steps: Option<usize>,
    trees: Seq<MerkleTree<Poseidon2Hash>>,
) -> bool {
    let bits = params.reduction_arity_bits@;
    let last = vals(proof.final_poly.coeffs@);
    let t1 = committed_transcript(
        start,
        params,
        trees,
        last,
        final_poly_coeff_len,
        max_num_query_steps,
    );
    let witness = proof.pow_witness.v();
    let t2 = t1.observed(witness).drawn();
    &&& committed(c, values, start, params, trees, last)
    &&& proof.commit_phase_merkle_caps@.len() == trees.len()
    &&& forall|i: int|
        0 <= i < trees.len() ==> (#[trigger] proof.commit_phase_merkle_caps@[i]).0@
            == trees[i].cap.0@
    &&& pow_accepted(pow_response(t1, witness), params.config.proof_of_work_bits)
    &&& proof.query_round_proofs@.len() == params.config.num_query_rounds
    &&& forall|q: int|
        0 <= q < proof.query_round_proofs@.len() ==> answers(
            #[trigger] proof.query_round_proofs@[q],
            initial,
            trees,
            query_index(t2, q, values.len()),
            bits,
        )
    &&& end == t2.drawn_n(params.config.num_query_rounds as nat)
}

/// No witness does the work that the commit phase of a polynomial asks for, and nothing follows that
/// phase.
pub open spec fn work_impossible(
    c: Seq<Elt>,
    values: Seq<Elt>,
    start: Transcript,
    end: Transcript,
    params: FriParams,
    final_poly_coeff_len: Option<usize>,
    max_num_query_steps: Option<usize>,
    trees: Seq<MerkleTree<Poseidon2Hash>>,
    last: Seq<Elt>,
) -> bool {
    let t1 = committed_transcript(
        start,
        params,
        trees,
        last,
        final_poly_coeff_len,
        max_num_query_steps,
    );
    &&& committed(c, values, start, params, trees, last)
    &&& forall|w: GoldilocksField|
        !pow_accepted(
            #[trigger] pow_response(t1, w.v()),
            params.config.proof_of_work_bits,
        )
    &&& end == t1
}

/// The sizes of a tree of the commit phase.
proof fn lemma_round_tree(
    tree: MerkleTree<Poseidon2Hash>,
    values: Seq<Elt>,
    arity_bits: nat,
    cap_height: nat,
)
    requires
        round_tree(tree, values, arity_bits, cap_height),
    ensures
        tree.wf(),
        tree.leaves is Rows,
        tree.leaves.width() % 2 == 0,
        tree.num_leaves * pow2(arity_bits) == values.len(),
{
    reveal(round_tree);
}

proof fn lemma_trees_ready(
    initial: Seq<&MerkleTree<Poseidon2Hash>>,
    c: Seq<Elt>,
    values: Seq<Elt>,
    t: Transcript,
    params: FriParams,
    lg_n: nat,
    trees: Seq<MerkleTree<Poseidon2Hash>>,
    last: Seq<Elt>,
)
    requires
        sizes_ok(params, lg_n),
        c.len() == pow2(lg_n),
        values.len() == pow2(lg_n),
        committed(c, values, t, params, trees, last),
        forall|j: int|
            0 <= j < initial.len() ==> (#[trigger] initial[j]).wf() && initial[j].num_leaves
                >= pow2(lg_n),
    ensures
        trees_ready(initial, trees, pow2(lg_n), params.reduction_arity_bits@),
{
    let bits = params.reduction_arity_bits@;
    let caps = cap_elements(trees);
    assert forall|i: int| 0 <= i < trees.len() implies {
        &&& (#[trigger] trees[i]).wf()
        &&& trees[i].leaves is Rows
        &&& trees[i].leaves.width() % 2 == 0
        &&& trees[i].num_leaves * pow2(bits_sum(bits, (i + 1) as nat)) == pow2(lg_n)
    } by {
        let now = round_values(
            c,
            values,
            t,
            caps,
            bits,
            params.config.rate_bits as nat,
            i as nat,
        );
        lemma_round_tree(trees[i], now, bits[i] as nat, params.config.cap_height as nat);
        lemma_round_lens(c, values, t, caps, params, lg_n, i as nat);
        lemma_round_lens(c, values, t, caps, params, lg_n, (i + 1) as nat);
        let (s, b) = (bits_sum(bits, i as nat), bits[i] as nat);
        let k = (lg_n - s) as nat;
        lemma_pow2_adds(s, b);
        lemma_pow2_adds(k, s);
        let (m, ps, pb) = (trees[i].num_leaves as int, pow2(s) as int, pow2(b) as int);
        assert(m * pb == pow2(k));
        assert(m * (ps * pb) == (m * pb) * ps) by (nonlinear_arith);
    }
}

/// Builds a FRI proof. Returns nothing exactly if no witness does the work that is asked for.
pub fn fri_proof(
    initial_merkle_trees: &Vec<&MerkleTree<Poseidon2Hash>>,
    // Coefficients of the polynomial on which the low-degree test is performed.
    lde_polynomial_coeffs: PolynomialCoeffs<QuadraticExtension>,
    // Evaluation of the polynomial on the large domain.
    lde_polynomial_values: PolynomialValues<QuadraticExtension>,
    challenger: &mut Challenger,
    fri_params: &FriParams,
    final_poly_coeff_len: Option<usize>,
    max_num_query_steps: Option<usize>,
) -> (r: Option<FriProof>)
    requires
        old(challenger).wf(),
        is_power_of_two(lde_polynomial_coeffs.coeffs@.len()),
        lde_polynomial_values.values@.len() == lde_polynomial_coeffs.coeffs@.len(),
        sizes_ok(*fri_params, log2(lde_polynomial_coeffs.coeffs@.len())),
        max_num_query_steps is Some ==> pow2(fri_params.config.cap_height as nat) * 4
            <= usize::MAX,
        forall|j: int|
            0 <= j < initial_merkle_trees@.len() ==> (#[trigger] initial_merkle_trees@[j]).wf()
                && initial_merkle_trees@[j].num_leaves >= lde_polynomial_values.values@.len(),
    ensures
        final(challenger).wf(),
        match r {
            Some(proof) => exists|trees: Seq<MerkleTree<Poseidon2Hash>>| #[trigger]
                proof_made(
                    proof,
                    initial_merkle_trees@,
                    vals(lde_polynomial_coeffs.coeffs@),
                    vals(lde_polynomial_values.values@),
                    old(challenger).transcript(),
                    final(challenger).transcript(),
                    *fri_params,
                    final_poly_coeff_len,
                    max_num_query_steps,
                    trees,
                ),
            None => exists|trees: Seq<MerkleTree<Poseidon2Hash>>, last: Seq<Elt>| #[trigger]
                work_impossible(
                    vals(lde_polynomial_coeffs.coeffs@),
                    vals(lde_polynomial_values.values@),
                    old(challenger).transcript(),
                    final(challenger).transcript(),
                    *fri_params,
                    final_poly_coeff_len,
                    max_num_query_steps,
                    trees,
                    last,
                ),
        },
{
    let ghost c = vals(lde_polynomial_coeffs.coeffs@);
    let ghost v = vals(lde_polynomial_values.values@);
    let ghost t = challenger.transcript();
    let ghost lg_n = log2(c.len());
    let n: usize = lde_polynomial_values.len();
    proof {
        lemma_pow2_pos(lg_n);
        assert(c.len() == n && v.len() == n);
        assert(n == pow2(lg_n));
    }
    // Commit phase
    let (trees, final_poly) = fri_committed_trees(
        lde_polynomial_coeffs,
        lde_polynomial_values,
        challenger,
        fri_params,
        final_poly_coeff_len,
        max_num_query_steps,
    );
    proof {
        lemma_trees_ready(
            initial_merkle_trees@,
            c,
            v,
            t,
            *fri_params,
            lg_n,
            trees@,
            vals(final_poly.coeffs@),
        );
    }
    let ghost t1 = challenger.transcript();
    // PoW phase
    let pow_witness = match fri_proof_of_work(challenger, &fri_params.config) {
        Some(witness) => witness,
        None => {
            proof {
                let end = challenger.transcript();
                assert(work_impossible(
                    c,
                    v,
                    t,
                    end,
                    *fri_params,
                    final_poly_coeff_len,
                    max_num_query_steps,
                    trees@,
                    vals(final_poly.coeffs@),
                ));
            }
            return None;
        },
    };
    // Query phase
    let query_round_proofs = fri_prover_query_rounds(
        initial_merkle_trees,
        &trees,
        challenger,
        n,
        fri_params,
    );
    let mut commit_phase_merkle_caps: Vec<MerkleCap<Poseidon2Hash>> = Vec::new();
    let rounds: usize = trees.len();
    while commit_phase_merkle_caps.len() < rounds
        invariant
            rounds == trees@.len(),
            commit_phase_merkle_caps@.len() <= rounds,
            forall|i: int|
                0 <= i < commit_phase_merkle_caps@.len() ==> (
                #[trigger] commit_phase_merkle_caps@[i]).0@ == trees@[i].cap.0@,
        decreases rounds - commit_phase_merkle_caps@.len(),
    {
        let i: usize = commit_phase_merkle_caps.len();
        commit_phase_merkle_caps.push(MerkleCap(copy_vec(&trees[i].cap.0)));
    }
    let r = Some(
        FriProof { commit_phase_merkle_caps, query_round_proofs, final_poly, pow_witness },
    );
    proof {
        let end = challenger.transcript();
        assert(proof_made(
            r->0,
            initial_merkle_trees@,
            c,
            v,
            t,
            end,
            *fri_params,
            final_poly_coeff_len,
            max_num_query_steps,
            trees@,
        ));
    }
    r
}

} // verus!
