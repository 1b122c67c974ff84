//! The proof-of-work (a.k.a. grinding) step of the low-degree proof.

use crate::field::goldilocks_field::{GoldilocksField, ORDER};
use crate::field::model::{Elt, base, lemma_reduced_self};
use crate::field::types::{Field, vals};
use crate::fri::structure::FriConfig;
use crate::hash::hash_types::canonical;
use crate::hash::hashing::{lemma_overwritten_vals, overwritten};
use crate::hash::poseidon2::permutation::permutation;
use crate::iop::challenger::{Challenger, Transcript};
use vstd::prelude::*;
use vstd::std_specs::bits::u64_leading_zeros;

verus! {

/// The response that a transcript gives to a witness.
pub open spec fn pow_response(t: Transcript, witness: Elt) -> Elt {
    t.observed(witness).challenge()
}

/// A response has enough leading zeros.
pub open spec fn pow_accepted(response: Elt, proof_of_work_bits: u32) -> bool {
    u64_leading_zeros(canonical(response) as u64) >= proof_of_work_bits
}

/// The response can be had by writing the witness over one element of the state that all other
/// pending elements have been written over.
proof fn lemma_response(t: Transcript, witness: Elt)
    requires
        t.wf(),
    ensures
        pow_response(t, witness) == permutation(
            overwritten(t.state, t.input, 0).update(t.input.len() as int, witness),
        )[7],
        permutation(
            overwritten(t.state, t.input, 0).update(t.input.len() as int, witness),
        ).len() == 12,
{
    let n = t.input.len() as int;
    let u = t.input.push(witness);
    assert(overwritten(t.state, u, 0) =~= overwritten(t.state, t.input, 0).update(n, witness));
    let o = t.observed(witness);
    assert(o.ready().output == permutation(overwritten(t.state, u, 0)).take(8));
    lemma_permutation_len(overwritten(t.state, u, 0));
}

/// The permutation keeps the width.
proof fn lemma_permutation_len(s: Seq<Elt>)
    requires
        s.len() == 12,
    ensures
        permutation(s).len() == 12,
{
    assert(permutation(s).len() == 12);
}

/// Performs the proof-of-work step: finds a witness whose response has enough leading zeros, and
/// lets the challenger observe it. Returns nothing, and leaves the challenger as it was, exactly
/// if there is no such witness.
pub fn fri_proof_of_work(challenger: &mut Challenger, config: &FriConfig) -> (r: Option<
    GoldilocksField,
>)
    requires
        old(challenger).wf(),
    ensures
        final(challenger).wf(),
        match r {
            Some(witness) => {
                &&& pow_accepted(
                    pow_response(old(challenger).transcript(), witness.v()),
                    config.proof_of_work_bits,
                )
                &&& final(challenger).transcript() == old(challenger).transcript().observed(
                    witness.v(),
                ).drawn()
            },
            None => {
                &&& *final(challenger) == *old(challenger)
                &&& forall|w: GoldilocksField|
                    !pow_accepted(
                        #[trigger] pow_response(old(challenger).transcript(), w.v()),
                        config.proof_of_work_bits,
                    )
            },
        },
{
    let ghost t = challenger.transcript();
    // A duplex is performed right after the witness is sent. It has two steps: overwriting the
    // state with the pending inputs, which is done once, and overwriting one more element with a
    // candidate and permuting, which is done for each candidate.
    let mut intermediate = challenger.sponge_state;
    let position: usize = challenger.input_buffer.len();
    proof {
        assert(t.input.len() == position);
        lemma_overwritten_vals(challenger.sponge_state.state@, challenger.input_buffer@, 0);
    }
    intermediate.set_from_slice(challenger.input_buffer.as_slice(), 0);
    let ghost written = overwritten(t.state, t.input, 0);
    let mut candidate: u64 = 0;
    while candidate < ORDER
        invariant
            candidate <= ORDER,
            *challenger == *old(challenger),
            challenger.wf(),
            t == challenger.transcript(),
            position == t.input.len(),
            position < 8,
            written == overwritten(t.state, t.input, 0),
            vals(intermediate.state@) == written,
            forall|c: u64|
                c < candidate ==> !pow_accepted(
                    #[trigger] pow_response(t, base(c as int)),
                    config.proof_of_work_bits,
                ),
        decreases ORDER - candidate,
    {
        let witness = GoldilocksField::from_canonical_u64(candidate);
        let mut duplex_state = intermediate;
        duplex_state.set_elt(witness, position);
        proof {
            assert(vals(duplex_state.state@) =~= written.update(position as int, witness.v()));
        }
        duplex_state.permute();
        proof {
            lemma_response(t, witness.v());
            assert(vals(duplex_state.state@)[7] == duplex_state.state@[7].v());
        }
        let response: u64 = duplex_state.state[7].to_canonical_u64();
        if response.leading_zeros() >= config.proof_of_work_bits {
            challenger.observe_element(witness);
            let pow_challenge = challenger.get_challenge();
            return Some(witness);
        }
        candidate = candidate + 1;
    }
    proof {
        assert forall|w: GoldilocksField| !pow_accepted(
            #[trigger] pow_response(t, w.v()),
            config.proof_of_work_bits,
        ) by {
            GoldilocksField::lemma_values(w);
            lemma_reduced_self(w.v());
            let c = w.v().re as u64;
            assert(w.v() == base(c as int));
            assert(!pow_accepted(pow_response(t, base(c as int)), config.proof_of_work_bits));
        }
    }
    None
}

} // verus!
