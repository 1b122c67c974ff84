//! Proofs of openings: many polynomials at several points, reduced to one low-degree proof.

use crate::field::coset::{coset_dft, coset_fft_zero_tail};
use crate::field::dft::lemma_padded_id;
use crate::field::extension::QuadraticExtension;
use crate::field::goldilocks_field::GoldilocksField;
use crate::field::model::{Elt, elt0};
use crate::field::polynomial::PolynomialCoeffs;
use crate::field::roots::power;
use crate::field::types::{Field, vals};
use crate::fri::commit_phase::sizes_ok;
use crate::fri::lde::{coset_shift_elt, lemma_lde_sizes};
use crate::fri::oracle::PolynomialBatch;
use crate::fri::prover::{fri_proof, proof_made, work_impossible};
use crate::fri::quotient::{accumulate_linear_quotient, longer, with_quotient};
use crate::fri::reducing::{ReducingFactor, combined, combined_len, poly_vals};
use crate::fri::structure::{FriBatchInfo, FriInstanceInfo, FriParams, FriProof};
use crate::hash::merkle_tree::MerkleTree;
use crate::hash::poseidon2::hash::Poseidon2Hash;
use crate::iop::challenger::Challenger;
use crate::plonk::config::Poseidon2GoldilocksConfig;
use crate::util::bits::{is_power_of_two, log2};
use vstd::arithmetic::power2::pow2;
use vstd::prelude::*;

verus! {

/// A batch of polynomials with its commitment.
pub type Oracle = PolynomialBatch<Poseidon2GoldilocksConfig, 2>;

/// The coefficients of the polynomials that are opened at a point.
pub open spec fn batch_polys(batch: FriBatchInfo, oracles: Seq<&Oracle>) -> Seq<Seq<Elt>> {
    Seq::new(
        batch.polynomials@.len(),
        |j: int|
            vals(
                oracles[batch.polynomials@[j].oracle_index as int].polynomials@[
                batch.polynomials@[j].polynomial_index as int].coeffs@,
            ),
    )
}

/// The polynomial that the openings of the first `n` batches are reduced to: for each batch with
/// its point `z`, the combination `F` of its polynomials by the powers of `alpha`, and
/// `(F(X) - F(z)) / (X - z)` added to what the batches before it have given, which is multiplied by
/// the next power of `alpha`.
pub open spec fn opened(
    alpha: Elt,
    batches: Seq<FriBatchInfo>,
    oracles: Seq<&Oracle>,
    n: nat,
) -> Seq<Elt>
    decreases n,
{
    if n == 0 {
        Seq::empty()
    } else {
        let polys = batch_polys(batches[n - 1], oracles);
        with_quotient(
            opened(alpha, batches, oracles, (n - 1) as nat),
            combined(alpha, polys, polys.len()),
            batches[n - 1].point.v(),
            power(alpha, polys.len()),
        )
    }
}

/// The number of coefficients of that polynomial.
pub open spec fn opened_len(batches: Seq<FriBatchInfo>, oracles: Seq<&Oracle>, n: nat) -> nat
    decreases n,
{
    if n == 0 {
        0
    } else {
        let polys = batch_polys(batches[n - 1], oracles);
        longer(opened_len(batches, oracles, (n - 1) as nat), combined_len(polys, polys.len()))
    }
}

/// The number of coefficients does not depend on the challenge.
pub proof fn lemma_opened_len(
    alpha: Elt,
    batches: Seq<FriBatchInfo>,
    oracles: Seq<&Oracle>,
    n: nat,
)
    ensures
        opened(alpha, batches, oracles, n).len() == opened_len(batches, oracles, n),
    decreases n,
{
    if n > 0 {
        lemma_opened_len(alpha, batches, oracles, (n - 1) as nat);
    }
}

/// Every polynomial that is to be opened exists.
pub open spec fn instance_ok(batches: Seq<FriBatchInfo>, oracles: Seq<&Oracle>) -> bool {
    forall|b: int, j: int|
        0 <= b < batches.len() && 0 <= j < batches[b].polynomials@.len() ==> {
            let info = #[trigger] batches[b].polynomials@[j];
            info.oracle_index < oracles.len() && info.polynomial_index
                < oracles[info.oracle_index as int].polynomials@.len()
        }
}

/// A polynomial followed by zeros, `2^rate_bits` times as long.
pub open spec fn extended_poly(c: Seq<Elt>, rate_bits: nat) -> Seq<Elt> {
    c + Seq::new((c.len() * pow2(rate_bits) - c.len()) as nat, |i: int| elt0())
}

/// The trees of the commitments.
pub open spec fn oracle_trees(oracles: Seq<&Oracle>) -> Seq<&MerkleTree<Poseidon2Hash>> {
    Seq::new(oracles.len(), |j: int| &oracles[j].merkle_tree)
}

/// The polynomials of a batch of openings, borrowed.
fn borrow_polys<'a>(batch: &FriBatchInfo, oracles: &Vec<&'a Oracle>) -> (r: Vec<
    &'a PolynomialCoeffs<GoldilocksField>,
>)
    requires
        forall|j: int|
            0 <= j < batch.polynomials@.len() ==> {
                let info = #[trigger] batch.polynomials@[j];
                info.oracle_index < oracles@.len() && info.polynomial_index
                    < oracles@[info.oracle_index as int].polynomials@.len()
            },
    ensures
        poly_vals(r@) == batch_polys(*batch, oracles@),
        r@.len() == batch.polynomials@.len(),
{
    let n: usize = batch.polynomials.len();
    let mut r: Vec<&'a PolynomialCoeffs<GoldilocksField>> = Vec::with_capacity(n);
    while r.len() < n
        invariant
            n == batch.polynomials@.len(),
            forall|j: int|
                0 <= j < batch.polynomials@.len() ==> {
                    let info = #[trigger] batch.polynomials@[j];
                    info.oracle_index < oracles@.len() && info.polynomial_index
                        < oracles@[info.oracle_index as int].polynomials@.len()
                },
            r@.len() <= n,
            forall|j: int|
                0 <= j < r@.len() ==> vals((#[trigger] r@[j]).coeffs@) == batch_polys(
                    *batch,
                    oracles@,
                )[j],
        decreases n - r@.len(),
    {
        let j: usize = r.len();
        let info = batch.polynomials[j];
        let oracle = oracles[info.oracle_index];
        r.push(&oracle.polynomials[info.polynomial_index]);
    }
    assert(poly_vals(r@) =~= batch_polys(*batch, oracles@));
    r
}

impl PolynomialBatch<Poseidon2GoldilocksConfig, 2> {
    /// Produces a batch opening proof. Returns nothing exactly if no witness does the work that is
    /// asked for.
    pub fn prove_openings(
        instance: &FriInstanceInfo,
        oracles: &Vec<&Self>,
        challenger: &mut Challenger,
        fri_params: &FriParams,
        final_poly_coeff_len: Option<usize>,
        max_num_query_steps: Option<usize>,
    ) -> (r: Option<FriProof>)
        requires
            old(challenger).wf(),
            instance_ok(instance.batches@, oracles@),
            ({
                let live = opened_len(instance.batches@, oracles@, instance.batches@.len());
                let rate_bits = fri_params.config.rate_bits as nat;
                &&& is_power_of_two(live)
                &&& live * pow2(rate_bits) <= usize::MAX
                &&& sizes_ok(*fri_params, log2(live) + rate_bits)
                &&& forall|j: int|
                    0 <= j < oracles@.len() ==> (#[trigger] oracles@[j]).merkle_tree.wf()
                        && oracles@[j].merkle_tree.num_leaves >= live * pow2(rate_bits)
            }),
            max_num_query_steps is Some ==> pow2(fri_params.config.cap_height as nat) * 4
                <= usize::MAX,
        ensures
            final(challenger).wf(),
            ({
                let start = old(challenger).transcript();
                let alpha = start.extension_challenge();
                let rate_bits = fri_params.config.rate_bits as nat;
                let poly = opened(alpha, instance.batches@, oracles@, instance.batches@.len());
                let c = extended_poly(poly, rate_bits);
                let values = coset_dft(c, coset_shift_elt(), log2(c.len()));
                match r {
                    Some(proof) => exists|trees: Seq<MerkleTree<Poseidon2Hash>>| #[trigger]
                        proof_made(
                            proof,
                            oracle_trees(oracles@),
                            c,
                            values,
                            start.extension_drawn(),
                            final(challenger).transcript(),
                            *fri_params,
                            final_poly_coeff_len,
                            max_num_query_steps,
                            trees,
                        ),
                    None => exists|trees: Seq<MerkleTree<Poseidon2Hash>>, last: Seq<Elt>| #[trigger]
                        work_impossible(
                            c,
                            values,
                            start.extension_drawn(),
                            final(challenger).transcript(),
                            *fri_params,
                            final_poly_coeff_len,
                            max_num_query_steps,
                            trees,
                            last,
                        ),
                }
            }),
    {
        let ghost start = challenger.transcript();
        let ghost batches = instance.batches@;
        let ghost rate = fri_params.config.rate_bits as nat;
        let rate_bits: usize = fri_params.config.rate_bits;
        let alpha = challenger.get_extension_challenge();
        let mut factor = ReducingFactor::new(alpha);
        // Final low-degree polynomial that goes into FRI.
        let mut final_poly: PolynomialCoeffs<QuadraticExtension> = PolynomialCoeffs::empty();
        assert(vals(final_poly.coeffs@) =~= opened(alpha.v(), batches, oracles@, 0));
        let n: usize = instance.batches.len();
        let mut b: usize = 0;
        while b < n
            invariant
                b <= n == batches.len(),
                batches == instance.batches@,
                instance_ok(batches, oracles@),
                factor.base == alpha,
                factor.count == 0,
                vals(final_poly.coeffs@) == opened(alpha.v(), batches, oracles@, b as nat),
            decreases n - b,
        {
            let batch = &instance.batches[b];
            assert forall|j: int| 0 <= j < batch.polynomials@.len() implies {
                let info = #[trigger] batch.polynomials@[j];
                info.oracle_index < oracles@.len() && info.polynomial_index
                    < oracles@[info.oracle_index as int].polynomials@.len()
            } by {
                assert(batches[b as int].polynomials@[j] == batch.polynomials@[j]);
            }
            let polys = borrow_polys(batch, oracles);
            let count: usize = polys.len();
            let composition_poly = factor.reduce_polys_base(&polys);
            let shift = factor.shift_factor();
            accumulate_linear_quotient(&mut final_poly, &composition_poly, batch.point, shift);
            b = b + 1;
        }
        let live: usize = final_poly.coeffs.len();
        let ghost poly = vals(final_poly.coeffs@);
        let ghost c = extended_poly(poly, rate);
        let ghost lg_n = log2(live as nat) + rate;
        proof {
            lemma_opened_len(alpha.v(), batches, oracles@, n as nat);
            assert(poly.len() == live);
            lemma_lde_sizes(live as nat, rate);
        }
        let lde_final_poly = final_poly.lde(rate_bits);
        let shift = QuadraticExtension::from_basefield(GoldilocksField::coset_shift());
        proof {
            let words = lde_final_poly.coeffs@;
            assert forall|i: int| 0 <= i < words.len() implies vals(words)[i]
                == #[trigger] c[i] by {
                QuadraticExtension::lemma_values(QuadraticExtension::s_const(0));
            }
            assert(vals(words) =~= c);
            assert forall|i: int| live <= i < words.len() implies (#[trigger] words[i]).v()
                == elt0() by {
                assert(vals(words)[i] == c[i]);
            }
            lemma_padded_id(c, live as int);
        }
        let lde_final_values = coset_fft_zero_tail(
            &lde_final_poly,
            shift,
            live,
            Some(rate_bits),
            None,
        );
        let mut trees: Vec<&MerkleTree<Poseidon2Hash>> = Vec::with_capacity(oracles.len());
        while trees.len() < oracles.len()
            invariant
                trees@.len() <= oracles@.len(),
                forall|j: int|
                    0 <= j < trees@.len() ==> #[trigger] trees@[j] == &oracles@[j].merkle_tree,
            decreases oracles@.len() - trees@.len(),
        {
            let oracle = oracles[trees.len()];
            trees.push(&oracle.merkle_tree);
        }
        proof {
            assert(trees@ =~= oracle_trees(oracles@));
            assert(vals(lde_final_values.values@) == coset_dft(c, coset_shift_elt(), lg_n));
        }
        fri_proof(
            &trees,
            lde_final_poly,
            lde_final_values,
            challenger,
            fri_params,
            final_poly_coeff_len,
            max_num_query_steps,
        )
    }
}

} // verus!
