//! What the transcript of a proof has seen, which indices it asks for, and how the answers of one
//! query fit together.

use crate::field::coset::coset_dft;
use crate::field::dft::{all_wf, eval_poly};
use crate::field::extension::QuadraticExtension;
use crate::field::model::{Elt, base, elt0, lemma_reduced_self};
use crate::field::types::{Field, vals};
use crate::fri::commit_laws::{
    folds_to, leaf_value, lemma_place_in_leaf, lemma_rounds_are_consistent,
    lemma_tree_sizes_of_rounds, lemma_tree_values, of_low_degree, round_point,
};
use crate::fri::commit_phase::{
    cap_elements, committed, committed_transcript, idle_count, idle_rounds, missing_count,
    round_beta, round_transcript, sizes_ok,
};
use crate::fri::lde::coset_shift_elt;
use crate::fri::proof_of_work::{pow_accepted, pow_response};
use crate::fri::prover::proof_made;
use crate::fri::query::{answers, proves_leaf, query_index, step_answers};
use crate::fri::structure::{FriParams, FriProof, FriQueryRound, FriQueryStep, bits_sum};
use crate::hash::hash_types::{GenericHashOut, HashOut, canonical};
use crate::hash::merkle_laws::lemma_cap_elements_in_order;
use crate::hash::merkle_model::path_end;
use crate::hash::merkle_tree::{MerkleTree, digests_seq, two_of};
use crate::hash::poseidon2::hash::Poseidon2Hash;
use crate::iop::challenger::{Transcript, coordinates, lemma_extension_coordinates};
use crate::iop::challenger_laws::{
    lemma_challenges_wf, lemma_drawing_composes, lemma_observed_outputs_wf,
    lemma_observing_composes, lemma_observing_in_order, lemma_transcript_stays_wf,
};
use crate::plonk::config::Hasher;
use crate::util::bits::{lemma_pow2_basics, lemma_pow2_double};
use vstd::arithmetic::power2::{lemma_pow2_adds, lemma_pow2_pos, pow2};
use vstd::prelude::*;
use vstd::std_specs::bits::u64_leading_zeros;

verus! {

/// The larger of two numbers.
pub open spec fn at_least(n: nat, least: Option<usize>) -> nat {
    match least {
        Some(k) => if n < k as nat {
            k as nat
        } else {
            n
        },
        None => n,
    }
}

/// A sequence, filled up with copies of an entry to a length.
pub open spec fn filled_up<A>(s: Seq<A>, filler: A, len: nat) -> Seq<A> {
    Seq::new(
        len,
        |i: int|
            if i < s.len() {
                s[i]
            } else {
                filler
            },
    )
}

proof fn lemma_idle(t: Transcript, caps: Seq<Seq<Elt>>, all: Seq<Seq<Elt>>, cap_len: nat, n: nat)
    requires
        all.len() >= caps.len() + n,
        forall|i: int| 0 <= i < caps.len() ==> #[trigger] all[i] == caps[i],
        forall|i: int|
            caps.len() <= i < all.len() ==> #[trigger] all[i] == Seq::new(cap_len, |k: int| elt0()),
    ensures
        round_transcript(t, all, caps.len() + n) == idle_rounds(
            round_transcript(t, caps, caps.len()),
            cap_len,
            n,
        ),
    decreases n,
{
    if n == 0 {
        lemma_transcript_prefix(t, caps, all, caps.len());
    } else {
        let m = (n - 1) as nat;
        lemma_idle(t, caps, all, cap_len, m);
        assert(all[caps.len() + n - 1] == Seq::new(cap_len, |k: int| elt0()));
        assert((caps.len() + n - 1) as nat == caps.len() + m);
    }
}

proof fn lemma_transcript_prefix(t: Transcript, caps: Seq<Seq<Elt>>, all: Seq<Seq<Elt>>, n: nat)
    requires
        n <= caps.len(),
        n <= all.len(),
        forall|i: int| 0 <= i < n ==> #[trigger] all[i] == caps[i],
    ensures
        round_transcript(t, all, n) == round_transcript(t, caps, n),
    decreases n,
{
    if n > 0 {
        lemma_transcript_prefix(t, caps, all, (n - 1) as nat);
        assert(all[n - 1] == caps[n - 1]);
    }
}

/// The transcript after the commit phase is that of a proof with as many rounds and as many final
/// coefficients as are asked for: caps and coefficients that are missing are observed as zeros.
#[verifier::spinoff_prover]
#[verifier::rlimit(30)]
pub proof fn lemma_committed_transcript(
    t: Transcript,
    params: FriParams,
    trees: Seq<MerkleTree<Poseidon2Hash>>,
    last: Seq<Elt>,
    final_poly_coeff_len: Option<usize>,
    max_num_query_steps: Option<usize>,
)
    ensures
        ({
            let rounds = at_least(trees.len(), max_num_query_steps);
            let zero_cap = Seq::new(
                4 * pow2(params.config.cap_height as nat),
                |i: int| elt0(),
            );
            committed_transcript(
                t,
                params,
                trees,
                last,
                final_poly_coeff_len,
                max_num_query_steps,
            ) == round_transcript(
                t,
                filled_up(cap_elements(trees), zero_cap, rounds),
                rounds,
            ).observed_all(
                coordinates(
                    filled_up(last, elt0(), at_least(last.len(), final_poly_coeff_len)),
                ),
            )
        }),
{
    let caps = cap_elements(trees);
    let rounds = at_least(trees.len(), max_num_query_steps);
    let cap_len = pow2(params.config.cap_height as nat) * 4;
    let zero_cap = Seq::new(4 * pow2(params.config.cap_height as nat), |i: int| elt0());
    let all = filled_up(caps, zero_cap, rounds);
    let idle = idle_count(max_num_query_steps, trees.len());
    assert(zero_cap =~= Seq::new(cap_len, |k: int| elt0()));
    lemma_idle(t, caps, all, cap_len, idle);
    assert(caps.len() + idle == rounds);
    let missing = missing_count(final_poly_coeff_len, last.len());
    let tail = Seq::new(2 * missing, |i: int| elt0());
    let whole = coordinates(filled_up(last, elt0(), at_least(last.len(), final_poly_coeff_len)));
    assert(base(0) == elt0());
    assert(whole =~= coordinates(last) + tail);
    lemma_observing_composes(
        idle_rounds(round_transcript(t, caps, trees.len()), cap_len, idle),
        coordinates(last),
        tail,
    );
}

/// Query `q` asks for the index that challenge `q` says, reduced by the number of points.
pub proof fn lemma_query_index(t: Transcript, q: nat, n: nat)
    requires
        n > 0,
        t.challenges(q + 1)[q as int].wf(),
    ensures
        query_index(t, q as int, n) < n,
        (t.challenges(q + 1)[q as int].re - query_index(t, q as int, n)) % (n as int) == 0,
{
    let x = t.challenges(q + 1)[q as int].re;
    assert(query_index(t, q as int, n) == x % (n as int));
    vstd::arithmetic::div_mod::lemma_mod_bound(x, n as int);
    vstd::arithmetic::div_mod::lemma_fundamental_div_mod(x, n as int);
    vstd::arithmetic::div_mod::lemma_mod_multiples_basic(x / (n as int), n as int);
    assert(n * (x / (n as int)) == (x / (n as int)) * n) by (nonlinear_arith);
}

proof fn lemma_leading_zeros(x: u64, bits: nat)
    requires
        bits <= 64,
    ensures
        u64_leading_zeros(x) <= 64,
        u64_leading_zeros(x) >= bits <==> x < pow2((64 - bits) as nat),
    decreases x,
{
    reveal(u64_leading_zeros);
    lemma_pow2_basics();
    lemma_pow2_pos((64 - bits) as nat);
    if x > 0 {
        if bits < 64 {
            lemma_leading_zeros(x / 2, bits + 1);
            lemma_pow2_double((63 - bits) as nat);
            assert((64 - bits - 1) as nat == (63 - bits) as nat);
        } else {
            lemma_leading_zeros(x / 2, 64);
        }
    }
}

/// A response is accepted exactly if it is below `2^(64 - bits)`: its first `bits` bits, of
/// sixty-four, are zeros.
pub proof fn lemma_pow_accepted(response: Elt, proof_of_work_bits: u32)
    requires
        response.wf(),
    ensures
        proof_of_work_bits <= 64 ==> (pow_accepted(response, proof_of_work_bits) <==> response.re
            < pow2((64 - proof_of_work_bits) as nat)),
        proof_of_work_bits > 64 ==> !pow_accepted(response, proof_of_work_bits),
{
    let x = canonical(response) as u64;
    assert(x == response.re);
    if proof_of_work_bits <= 64 {
        lemma_leading_zeros(x, proof_of_work_bits as nat);
    } else {
        lemma_leading_zeros(x, 64);
    }
}

/// The response to a witness is the challenge that follows it.
pub proof fn lemma_pow_response(t: Transcript, witness: Elt)
    ensures
        pow_response(t, witness) == t.observed_all(seq![witness]).challenges(1)[0],
{
    lemma_observing_in_order(t, Seq::empty(), witness);
    lemma_observing_composes(t, Seq::empty(), Seq::empty());
    assert(Seq::<Elt>::empty().push(witness) =~= seq![witness]);
    lemma_drawing_composes(t.observed_all(seq![witness]), 0, 1);
}

#[verifier::spinoff_prover]
#[verifier::rlimit(30)]
proof fn lemma_step_values(step: FriQueryStep, tree: MerkleTree<Poseidon2Hash>, index: nat)
    requires
        step_answers(step, tree, index),
        tree.leaves.leaf(index as int).len() % 2 == 0,
    ensures
        2 * step.evals@.len() == tree.leaves.leaf(index as int).len(),
        forall|k: int|
            0 <= k < step.evals@.len() ==> (#[trigger] step.evals@[k]).v() == leaf_value(
                tree,
                index as int,
                k,
            ),
        vals(tree.leaves.leaf(index as int)) == coordinates(vals(step.evals@)),
{
    let leaf = tree.leaves.leaf(index as int);
    assert forall|k: int| 0 <= k < step.evals@.len() implies (#[trigger] step.evals@[k]).v()
        == leaf_value(tree, index as int, k) && leaf[2 * k].v() == base(step.evals@[k].v().re)
        && leaf[2 * k + 1].v() == base(step.evals@[k].v().im) by {
        let x = step.evals@[k];
        let pair = leaf.subrange(2 * k, 2 * k + 2);
        assert(x.0@ == pair);
        assert(x.0@[0] == x.0[0] && x.0@[1] == x.0[1]);
        assert(pair[0] == leaf[2 * k] && pair[1] == leaf[2 * k + 1]);
        lemma_extension_coordinates(x);
        QuadraticExtension::lemma_values(x);
        lemma_reduced_self(x.v());
    }
    let co = coordinates(vals(step.evals@));
    assert forall|j: int| 0 <= j < leaf.len() implies #[trigger] vals(leaf)[j] == co[j] by {
        let k = j / 2;
        let x = step.evals@[k];
        assert(leaf[2 * k].v() == base(x.v().re) && leaf[2 * k + 1].v() == base(x.v().im));
        assert(j == 2 * k || j == 2 * k + 1);
    }
    assert(vals(leaf) =~= co);
}

/// What a verifier checks of round `i` of one query. The evaluations lead, by their Merkle path, to
/// the cap of the round; and they fold, by the challenge of the round, to the evaluation of the next
/// round at the place that the index falls on, and in the last round to the value of the final
/// polynomial.
pub open spec fn step_checks(
    round: FriQueryRound,
    cap: Seq<HashOut>,
    beta: Elt,
    bits: Seq<usize>,
    lg_n: nat,
    last: Seq<Elt>,
    x_index: nat,
    i: int,
) -> bool {
    let arity = pow2(bits[i] as nat);
    let l = (x_index as int / pow2(bits_sum(bits, (i + 1) as nat)) as int) as nat;
    let step = round.steps@[i];
    let depth = step.merkle_proof.siblings@.len();
    let points = Seq::new(
        arity,
        |e: int| round_point(bits, lg_n, i as nat, (l * arity + e) as nat),
    );
    let next = if i + 1 < bits.len() {
        round.steps@[i + 1].evals@[l as int % pow2(bits[i + 1] as nat) as int].v()
    } else {
        eval_poly(last, round_point(bits, lg_n, (i + 1) as nat, l))
    };
    &&& step.evals@.len() == arity
    &&& folds_to(points, vals(step.evals@), beta, next)
    &&& path_end(
        two_of::<Poseidon2Hash>(),
        Poseidon2Hash::leaf_spec(coordinates(vals(step.evals@))),
        l,
        digests_seq(step.merkle_proof.siblings@),
    ) == cap[l as int / pow2(depth) as int].digest()
}

/// What a verifier checks of one query holds of the answers, in every round.
#[verifier::spinoff_prover]
#[verifier::rlimit(30)]
pub proof fn lemma_answers_are_consistent(
    c: Seq<Elt>,
    values: Seq<Elt>,
    t: Transcript,
    params: FriParams,
    trees: Seq<MerkleTree<Poseidon2Hash>>,
    last: Seq<Elt>,
    lg_n: nat,
    initial: Seq<&MerkleTree<Poseidon2Hash>>,
    round: FriQueryRound,
    x_index: nat,
    i: int,
)
    requires
        sizes_ok(params, lg_n),
        of_low_degree(c, lg_n, params.config.rate_bits as nat),
        values == coset_dft(c, coset_shift_elt(), lg_n),
        committed(c, values, t, params, trees, last),
        x_index < pow2(lg_n),
        answers(round, initial, trees, x_index, params.reduction_arity_bits@),
        0 <= i < trees.len(),
    ensures
        round.steps@.len() == trees.len(),
        step_checks(
            round,
            trees[i].cap.0@,
            round_beta(t, cap_elements(trees), i as nat),
            params.reduction_arity_bits@,
            lg_n,
            last,
            x_index,
            i,
        ),
{
    let bits = params.reduction_arity_bits@;
    let arity = pow2(bits[i] as nat);
    let l = (x_index as int / pow2(bits_sum(bits, (i + 1) as nat)) as int) as nat;
    let evals = vals(round.steps@[i].evals@);
    lemma_next_place(x_index, bits_sum(bits, (i + 1) as nat), 0);
    lemma_leaf_of_round(c, values, t, params, trees, last, lg_n, x_index, i, l);
    lemma_answer_of_round(initial, trees, bits, round, x_index, i, l);
    lemma_rounds_are_consistent(c, values, t, params, trees, last, lg_n, i, l);
    assert(evals =~= Seq::new(arity, |e: int| leaf_value(trees[i], l as int, e)));
    if i + 1 < trees.len() {
        let b = bits[i + 1] as nat;
        let q = (l as int / pow2(b) as int) as nat;
        lemma_next_place(x_index, bits_sum(bits, (i + 1) as nat), b);
        lemma_leaf_of_round(c, values, t, params, trees, last, lg_n, x_index, i + 1, q);
        lemma_answer_of_round(initial, trees, bits, round, x_index, i + 1, q);
        assert(round.steps@[i + 1].evals@[l as int % pow2(b) as int].v() == leaf_value(
            trees[i + 1],
            q as int,
            l as int % pow2(b) as int,
        ));
    }
}

proof fn lemma_next_place(x: nat, sum: nat, b: nat)
    ensures
        x as int / pow2(sum) as int >= 0,
        (x as int / pow2(sum) as int) / (pow2(b) as int) == x as int / pow2(sum + b) as int,
        0 <= (x as int / pow2(sum) as int) % (pow2(b) as int) < pow2(b),
{
    lemma_pow2_pos(sum);
    lemma_pow2_pos(b);
    lemma_pow2_adds(sum, b);
    vstd::arithmetic::div_mod::lemma_div_pos_is_pos(x as int, pow2(sum) as int);
    vstd::arithmetic::div_mod::lemma_div_denominator(x as int, pow2(sum) as int, pow2(b) as int);
    vstd::arithmetic::div_mod::lemma_mod_bound(x as int / pow2(sum) as int, pow2(b) as int);
}

#[verifier::spinoff_prover]
#[verifier::rlimit(30)]
proof fn lemma_answer_of_round(
    initial: Seq<&MerkleTree<Poseidon2Hash>>,
    trees: Seq<MerkleTree<Poseidon2Hash>>,
    bits: Seq<usize>,
    round: FriQueryRound,
    x_index: nat,
    i: int,
    l: nat,
)
    requires
        answers(round, initial, trees, x_index, bits),
        0 <= i < trees.len(),
        l == x_index as int / pow2(bits_sum(bits, (i + 1) as nat)) as int,
        trees[i].leaves.leaf(l as int).len() == 2 * pow2(bits[i] as nat),
    ensures
        round.steps@.len() == trees.len(),
        proves_leaf(trees[i], l, round.steps@[i].merkle_proof),
        round.steps@[i].evals@.len() == pow2(bits[i] as nat),
        forall|k: int|
            0 <= k < round.steps@[i].evals@.len() ==> (#[trigger] round.steps@[i].evals@[k]).v()
                == leaf_value(trees[i], l as int, k),
        vals(trees[i].leaves.leaf(l as int)) == coordinates(vals(round.steps@[i].evals@)),
{
    let step = round.steps@[i];
    assert(step_answers(step, trees[i], l));
    lemma_step_values(step, trees[i], l);
}

#[verifier::spinoff_prover]
#[verifier::rlimit(30)]
proof fn lemma_leaf_of_round(
    c: Seq<Elt>,
    values: Seq<Elt>,
    t: Transcript,
    params: FriParams,
    trees: Seq<MerkleTree<Poseidon2Hash>>,
    last: Seq<Elt>,
    lg_n: nat,
    x_index: nat,
    i: int,
    l: nat,
)
    requires
        sizes_ok(params, lg_n),
        of_low_degree(c, lg_n, params.config.rate_bits as nat),
        values == coset_dft(c, coset_shift_elt(), lg_n),
        committed(c, values, t, params, trees, last),
        x_index < pow2(lg_n),
        0 <= i < trees.len(),
        l == x_index as int / pow2(bits_sum(params.reduction_arity_bits@, (i + 1) as nat)) as int,
    ensures
        l < trees[i].num_leaves,
        trees[i].leaves.leaf(l as int).len() == 2 * pow2(params.reduction_arity_bits@[i] as nat),
{
    let bits = params.reduction_arity_bits@;
    let sum = bits_sum(bits, (i + 1) as nat);
    assert(sum <= lg_n);
    let m = (lg_n - sum) as nat;
    assert(l < pow2(m)) by {
        assert(m + sum == lg_n);
        lemma_place_in_leaf(x_index, m, sum);
    }
    lemma_tree_sizes_of_rounds(c, values, t, params, trees, last, lg_n, i);
    lemma_pow2_pos(bits[i] as nat);
    lemma_tree_values(c, values, t, params, trees, last, lg_n, i, l, 0);
}

/// The transcripts of a verifier that observes each cap of a proof, and zeros for the caps that are
/// missing, and draws a challenge after each.
pub open spec fn replays(
    proof: FriProof,
    start: Transcript,
    cap_len: nat,
    max_num_query_steps: Option<usize>,
    replay: Seq<Transcript>,
    observed_caps: Seq<Seq<Elt>>,
) -> bool {
    let caps = proof.commit_phase_merkle_caps@;
    &&& observed_caps.len() == at_least(caps.len(), max_num_query_steps)
    &&& replay.len() == observed_caps.len() + 1
    &&& replay[0] == start
    &&& forall|k: int|
        0 <= k < caps.len() ==> (#[trigger] observed_caps[k]).len() == 4 * caps[k].0@.len()
    &&& forall|k: int, m: int|
        0 <= k < caps.len() && 0 <= m < 4 * caps[k].0@.len() ==> #[trigger] observed_caps[k][m]
            == caps[k].0@[m / 4].digest()[m % 4]
    &&& forall|k: int|
        caps.len() <= k < observed_caps.len() ==> #[trigger] observed_caps[k] == Seq::new(
            cap_len,
            |m: int| elt0(),
        )
    &&& forall|k: int|
        0 <= k < observed_caps.len() ==> #[trigger] replay[k + 1] == replay[k].observed_all(
            observed_caps[k],
        ).extension_drawn()
}

/// The transcript of a verifier that has observed the rounds, the coefficients of the final
/// polynomial, with zeros for those that are missing, and the witness of the proof of work.
pub open spec fn all_observed(
    proof: FriProof,
    rounds_end: Transcript,
    final_poly_coeff_len: Option<usize>,
) -> Transcript {
    let last = vals(proof.final_poly.coeffs@);
    rounds_end.observed_all(
        coordinates(filled_up(last, elt0(), at_least(last.len(), final_poly_coeff_len))),
    ).observed(proof.pow_witness.v())
}

/// A verifier that replays the transcript of a proof gets a response that starts with enough zeros,
/// the challenges that the rounds have folded by, and as many queries as the parameters say. It ends
/// with the transcript that the prover ends with.
#[verifier::spinoff_prover]
#[verifier::rlimit(30)]
pub proof fn lemma_proof_replayed(
    proof: FriProof,
    initial: Seq<&MerkleTree<Poseidon2Hash>>,
    c: Seq<Elt>,
    values: Seq<Elt>,
    start: Transcript,
    end: Transcript,
    params: FriParams,
    final_poly_coeff_len: Option<usize>,
    max_num_query_steps: Option<usize>,
    trees: Seq<MerkleTree<Poseidon2Hash>>,
    replay: Seq<Transcript>,
    observed_caps: Seq<Seq<Elt>>,
)
    requires
        proof_made(
            proof,
            initial,
            c,
            values,
            start,
            end,
            params,
            final_poly_coeff_len,
            max_num_query_steps,
            trees,
        ),
        start.wf(),
        replays(
            proof,
            start,
            4 * pow2(params.config.cap_height as nat),
            max_num_query_steps,
            replay,
            observed_caps,
        ),
    ensures
        ({
            let answered = all_observed(proof, replay.last(), final_poly_coeff_len);
            let count = params.config.num_query_rounds as nat;
            &&& proof.commit_phase_merkle_caps@.len() == params.reduction_arity_bits@.len()
            &&& proof.query_round_proofs@.len() == count
            &&& params.config.proof_of_work_bits <= 64
            &&& answered.challenge().re < pow2((64 - params.config.proof_of_work_bits) as nat)
            &&& end == answered.drawn().drawn_n(count)
            &&& answered == committed_transcript(
                start,
                params,
                trees,
                vals(proof.final_poly.coeffs@),
                final_poly_coeff_len,
                max_num_query_steps,
            ).observed(proof.pow_witness.v())
            &&& answered.wf()
            &&& all_wf(answered.output)
            &&& forall|i: int|
                0 <= i < trees.len() ==> #[trigger] round_beta(
                    start,
                    cap_elements(trees),
                    i as nat,
                ) == replay[i].observed_all(observed_caps[i]).extension_challenge()
        }),
{
    let last = vals(proof.final_poly.coeffs@);
    let caps = cap_elements(trees);
    let rounds = observed_caps.len();
    lemma_replay(start, observed_caps, replay, rounds);
    lemma_observed_caps(
        trees,
        observed_caps,
        4 * pow2(params.config.cap_height as nat),
        max_num_query_steps,
    );
    lemma_committed_transcript(
        start,
        params,
        trees,
        last,
        final_poly_coeff_len,
        max_num_query_steps,
    );
    let whole = coordinates(filled_up(last, elt0(), at_least(last.len(), final_poly_coeff_len)));
    let sent = replay.last().observed_all(whole);
    let answered = sent.observed(proof.pow_witness.v());
    lemma_rounds_wf(start, observed_caps, rounds);
    lemma_transcript_stays_wf(replay.last(), whole);
    lemma_observed_outputs_wf(sent, proof.pow_witness.v());
    lemma_challenges_wf(answered, 0);
    lemma_pow_accepted(answered.challenge(), params.config.proof_of_work_bits);
    assert forall|i: int| 0 <= i < trees.len() implies #[trigger] round_beta(start, caps, i as nat)
        == replay[i].observed_all(observed_caps[i]).extension_challenge() by {
        lemma_replay(start, observed_caps, replay, i as nat);
        lemma_transcript_prefix(start, caps, observed_caps, i as nat);
        assert(observed_caps[i] == caps[i]);
    }
}

/// A proof of a polynomial of low degree is accepted: for each query, at the index that the replayed
/// transcript says, every round passes its checks, and the leaf of every initial tree leads to the
/// cap of that tree.
#[verifier::spinoff_prover]
#[verifier::rlimit(30)]
pub proof fn lemma_proof_is_accepted(
    proof: FriProof,
    initial: Seq<&MerkleTree<Poseidon2Hash>>,
    c: Seq<Elt>,
    values: Seq<Elt>,
    start: Transcript,
    end: Transcript,
    params: FriParams,
    final_poly_coeff_len: Option<usize>,
    max_num_query_steps: Option<usize>,
    trees: Seq<MerkleTree<Poseidon2Hash>>,
    replay: Seq<Transcript>,
    observed_caps: Seq<Seq<Elt>>,
    lg_n: nat,
    q: int,
)
    requires
        sizes_ok(params, lg_n),
        of_low_degree(c, lg_n, params.config.rate_bits as nat),
        values == coset_dft(c, coset_shift_elt(), lg_n),
        proof_made(
            proof,
            initial,
            c,
            values,
            start,
            end,
            params,
            final_poly_coeff_len,
            max_num_query_steps,
            trees,
        ),
        start.wf(),
        replays(
            proof,
            start,
            4 * pow2(params.config.cap_height as nat),
            max_num_query_steps,
            replay,
            observed_caps,
        ),
        0 <= q < params.config.num_query_rounds,
    ensures
        ({
            let answered = all_observed(proof, replay.last(), final_poly_coeff_len);
            let count = params.config.num_query_rounds as nat;
            let x = (answered.drawn().challenges(count)[q].re % (pow2(lg_n) as int)) as nat;
            let round = proof.query_round_proofs@[q];
            let opened_leaves = round.initial_trees_proof.evals_proofs@;
            &&& x < pow2(lg_n)
            &&& round.steps@.len() == params.reduction_arity_bits@.len()
            &&& forall|i: int|
                0 <= i < round.steps@.len() ==> #[trigger] step_checks(
                    round,
                    proof.commit_phase_merkle_caps@[i].0@,
                    replay[i].observed_all(observed_caps[i]).extension_challenge(),
                    params.reduction_arity_bits@,
                    lg_n,
                    vals(proof.final_poly.coeffs@),
                    x,
                    i,
                )
            &&& opened_leaves.len() == initial.len()
            &&& forall|j: int|
                0 <= j < initial.len() ==> {
                    &&& (#[trigger] opened_leaves[j]).0@ == initial[j].leaves.leaf(x as int)
                    &&& path_end(
                        two_of::<Poseidon2Hash>(),
                        Poseidon2Hash::leaf_spec(vals(opened_leaves[j].0@)),
                        x,
                        digests_seq(opened_leaves[j].1.siblings@),
                    ) == initial[j].cap.0@[x as int / pow2(
                        opened_leaves[j].1.siblings@.len(),
                    ) as int].digest()
                }
        }),
{
    lemma_proof_replayed(
        proof,
        initial,
        c,
        values,
        start,
        end,
        params,
        final_poly_coeff_len,
        max_num_query_steps,
        trees,
        replay,
        observed_caps,
    );
    let bits = params.reduction_arity_bits@;
    let last = vals(proof.final_poly.coeffs@);
    let answered = all_observed(proof, replay.last(), final_poly_coeff_len);
    let count = params.config.num_query_rounds as nat;
    let asked = answered.drawn().challenges(count)[q];
    let x = (asked.re % (pow2(lg_n) as int)) as nat;
    lemma_challenges_wf(answered, 0);
    assert(answered.drawn_n(1) == answered.drawn()) by {
        reveal_with_fuel(Transcript::drawn_n, 2);
    }
    lemma_challenges_wf(answered, 1);
    lemma_challenges_wf(answered.drawn(), q as nat);
    lemma_pow2_pos(lg_n);
    vstd::arithmetic::div_mod::lemma_mod_bound(asked.re, pow2(lg_n) as int);
    assert(x == query_index(answered.drawn(), q, values.len()));
    let round = proof.query_round_proofs@[q];
    assert(answers(round, initial, trees, x, bits));
    assert forall|i: int| 0 <= i < round.steps@.len() implies #[trigger] step_checks(
        round,
        proof.commit_phase_merkle_caps@[i].0@,
        replay[i].observed_all(observed_caps[i]).extension_challenge(),
        bits,
        lg_n,
        last,
        x,
        i,
    ) by {
        lemma_answers_are_consistent(
            c,
            values,
            start,
            params,
            trees,
            last,
            lg_n,
            initial,
            round,
            x,
            i,
        );
        assert(proof.commit_phase_merkle_caps@[i].0@ == trees[i].cap.0@);
        assert(round_beta(start, cap_elements(trees), i as nat) == replay[i].observed_all(
            observed_caps[i],
        ).extension_challenge());
    }
    lemma_initial_answers(round, initial, trees, x, bits);
}

proof fn lemma_initial_answers(
    round: FriQueryRound,
    initial: Seq<&MerkleTree<Poseidon2Hash>>,
    trees: Seq<MerkleTree<Poseidon2Hash>>,
    x: nat,
    bits: Seq<usize>,
)
    requires
        answers(round, initial, trees, x, bits),
    ensures
        ({
            let opened_leaves = round.initial_trees_proof.evals_proofs@;
            &&& opened_leaves.len() == initial.len()
            &&& forall|j: int|
                0 <= j < initial.len() ==> {
                    &&& (#[trigger] opened_leaves[j]).0@ == initial[j].leaves.leaf(x as int)
                    &&& path_end(
                        two_of::<Poseidon2Hash>(),
                        Poseidon2Hash::leaf_spec(vals(opened_leaves[j].0@)),
                        x,
                        digests_seq(opened_leaves[j].1.siblings@),
                    ) == initial[j].cap.0@[x as int / pow2(
                        opened_leaves[j].1.siblings@.len(),
                    ) as int].digest()
                }
        }),
{
    let opened_leaves = round.initial_trees_proof.evals_proofs@;
    assert forall|j: int| 0 <= j < initial.len() implies {
        &&& (#[trigger] opened_leaves[j]).0@ == initial[j].leaves.leaf(x as int)
        &&& path_end(
            two_of::<Poseidon2Hash>(),
            Poseidon2Hash::leaf_spec(vals(opened_leaves[j].0@)),
            x,
            digests_seq(opened_leaves[j].1.siblings@),
        ) == initial[j].cap.0@[x as int / pow2(
            opened_leaves[j].1.siblings@.len(),
        ) as int].digest()
    } by {
        assert(proves_leaf(*initial[j], x, opened_leaves[j].1));
    }
}

proof fn lemma_replay(start: Transcript, caps: Seq<Seq<Elt>>, replay: Seq<Transcript>, n: nat)
    requires
        replay.len() == caps.len() + 1,
        replay[0] == start,
        n <= caps.len(),
        forall|k: int|
            0 <= k < caps.len() ==> #[trigger] replay[k + 1] == replay[k].observed_all(
                caps[k],
            ).extension_drawn(),
    ensures
        replay[n as int] == round_transcript(start, caps, n),
    decreases n,
{
    if n > 0 {
        lemma_replay(start, caps, replay, (n - 1) as nat);
        assert(replay[(n - 1) + 1] == replay[n - 1].observed_all(caps[n - 1]).extension_drawn());
    }
}

proof fn lemma_rounds_wf(start: Transcript, caps: Seq<Seq<Elt>>, n: nat)
    requires
        start.wf(),
    ensures
        round_transcript(start, caps, n).wf(),
    decreases n,
{
    if n > 0 {
        reveal(Transcript::extension_drawn);
        lemma_rounds_wf(start, caps, (n - 1) as nat);
        let t = round_transcript(start, caps, (n - 1) as nat);
        let u = t.observed_all(caps[n - 1]);
        lemma_transcript_stays_wf(t, caps[n - 1]);
        lemma_transcript_stays_wf(u, Seq::empty());
        lemma_transcript_stays_wf(u.drawn(), Seq::empty());
    }
}

proof fn lemma_observed_caps(
    trees: Seq<MerkleTree<Poseidon2Hash>>,
    observed_caps: Seq<Seq<Elt>>,
    cap_len: nat,
    max_num_query_steps: Option<usize>,
)
    requires
        observed_caps.len() == at_least(trees.len(), max_num_query_steps),
        forall|k: int|
            0 <= k < trees.len() ==> (#[trigger] observed_caps[k]).len() == 4
                * trees[k].cap.0@.len(),
        forall|k: int, m: int|
            0 <= k < trees.len() && 0 <= m < 4 * trees[k].cap.0@.len()
                ==> #[trigger] observed_caps[k][m] == trees[k].cap.0@[m / 4].digest()[m % 4],
        forall|k: int|
            trees.len() <= k < observed_caps.len() ==> #[trigger] observed_caps[k] == Seq::new(
                cap_len,
                |m: int| elt0(),
            ),
    ensures
        observed_caps == filled_up(
            cap_elements(trees),
            Seq::new(cap_len, |m: int| elt0()),
            observed_caps.len(),
        ),
        forall|k: int| 0 <= k < trees.len() ==> #[trigger] observed_caps[k] == cap_elements(trees)[k],
{
    let caps = cap_elements(trees);
    assert forall|k: int| 0 <= k < trees.len() implies #[trigger] observed_caps[k] == caps[k] by {
        let cap = trees[k].cap.0@;
        let n = cap.len();
        if n > 0 {
            lemma_cap_elements_in_order(cap, n, 0, 0);
        }
        assert forall|m: int| 0 <= m < 4 * n implies #[trigger] caps[k][m] == observed_caps[k][m] by {
            lemma_cap_elements_in_order(cap, n, m / 4, m % 4);
        }
        assert(caps[k] =~= observed_caps[k]);
    }
    assert(observed_caps =~= filled_up(
        caps,
        Seq::new(cap_len, |m: int| elt0()),
        observed_caps.len(),
    ));
}

} // verus!
