//! The parameters of the low-degree proof, and what a proof consists of.

use crate::field::extension::QuadraticExtension;
use crate::field::goldilocks_field::GoldilocksField;
use crate::field::polynomial::PolynomialCoeffs;
use crate::hash::merkle_tree::{MerkleCap, MerkleProof};
use crate::hash::poseidon2::hash::Poseidon2Hash;
use crate::util::bits::two_pow;
use vstd::arithmetic::power2::pow2;
use vstd::prelude::*;

verus! {

/// The parameters of the low-degree proof that do not depend on the degree.
#[derive(Clone, Copy, Debug)]
pub struct FriConfig {
    /// `rate = 2^{-rate_bits}`.
    pub rate_bits: usize,
    /// Height of Merkle tree caps.
    pub cap_height: usize,
    /// Number of bits used for grinding.
    pub proof_of_work_bits: u32,
    /// Number of query rounds to perform.
    pub num_query_rounds: usize,
}

/// The parameters of the low-degree proof.
#[derive(Debug)]
pub struct FriParams {
    /// The parameters that do not depend on the degree.
    pub config: FriConfig,
    /// The degree of each reduction, logarithmically: a polynomial is folded by two to the power
    /// of each of these in turn.
    pub reduction_arity_bits: Vec<usize>,
}

/// The sum of the first `n` numbers.
pub open spec fn bits_sum(bits: Seq<usize>, n: nat) -> nat
    decreases n,
{
    if n == 0 {
        0
    } else {
        bits_sum(bits, (n - 1) as nat) + bits[n - 1] as nat
    }
}

/// Sums only grow.
pub proof fn lemma_bits_sum_mono(bits: Seq<usize>, a: nat, b: nat)
    requires
        a <= b,
    ensures
        bits_sum(bits, a) <= bits_sum(bits, b),
    decreases b,
{
    if a < b {
        lemma_bits_sum_mono(bits, a, (b - 1) as nat);
    }
}

/// The sum over a list and another is the sum of both sums, and the sum over one number is that
/// number.
pub proof fn lemma_bits_sum_concat(a: Seq<usize>, b: Seq<usize>, n: nat, x: usize)
    requires
        n <= b.len(),
    ensures
        bits_sum(a + b, a.len() + n) == bits_sum(a, a.len()) + bits_sum(b, n),
        bits_sum(seq![x], 1) == x,
    decreases n,
{
    reveal_with_fuel(bits_sum, 2);
    if n == 0 {
        lemma_bits_sum_prefix(a, a + b, a.len());
    } else {
        lemma_bits_sum_concat(a, b, (n - 1) as nat, x);
        assert((a + b)[(a.len() + n - 1) as int] == b[n - 1]);
        assert((a.len() + n - 1) as nat == a.len() + (n - 1) as nat);
    }
}

proof fn lemma_bits_sum_prefix(a: Seq<usize>, b: Seq<usize>, n: nat)
    requires
        n <= a.len(),
        n <= b.len(),
        forall|i: int| 0 <= i < n ==> a[i] == #[trigger] b[i],
    ensures
        bits_sum(a, n) == bits_sum(b, n),
    decreases n,
{
    if n > 0 {
        lemma_bits_sum_prefix(a, b, (n - 1) as nat);
        assert(a[n - 1] == b[n - 1]);
    }
}

/// The number of coefficients of the polynomial that is left after all reductions.
pub fn final_poly_coeff_len(degree_bits: usize, reduction_arity_bits: &Vec<usize>) -> (r: usize)
    requires
        bits_sum(reduction_arity_bits@, reduction_arity_bits@.len()) <= degree_bits,
        pow2(
            (degree_bits - bits_sum(reduction_arity_bits@, reduction_arity_bits@.len())) as nat,
        ) <= usize::MAX,
    ensures
        r == pow2(
            (degree_bits - bits_sum(reduction_arity_bits@, reduction_arity_bits@.len())) as nat,
        ),
{
    let mut rest: usize = degree_bits;
    let mut i: usize = 0;
    while i < reduction_arity_bits.len()
        invariant
            i <= reduction_arity_bits@.len(),
            bits_sum(reduction_arity_bits@, reduction_arity_bits@.len()) <= degree_bits,
            rest == degree_bits - bits_sum(reduction_arity_bits@, i as nat),
        decreases reduction_arity_bits@.len() - i,
    {
        proof {
            lemma_bits_sum_mono(
                reduction_arity_bits@,
                (i + 1) as nat,
                reduction_arity_bits@.len(),
            );
        }
        rest = rest - reduction_arity_bits[i];
        i = i + 1;
    }
    two_pow(rest)
}

/// The evaluations that one reduction folds into one, and the proof that they were committed to.
#[derive(Debug)]
pub struct FriQueryStep {
    pub evals: Vec<QuadraticExtension>,
    pub merkle_proof: MerkleProof<Poseidon2Hash>,
}

/// The leaves of the initial trees at a queried point, and the proofs that they were committed to.
#[derive(Debug)]
pub struct FriInitialTreeProof {
    pub evals_proofs: Vec<(Vec<GoldilocksField>, MerkleProof<Poseidon2Hash>)>,
}

/// The answers to one query.
#[derive(Debug)]
pub struct FriQueryRound {
    pub initial_trees_proof: FriInitialTreeProof,
    pub steps: Vec<FriQueryStep>,
}

/// A proof that a committed polynomial has low degree.
#[derive(Debug)]
pub struct FriProof {
    /// A Merkle cap for each reduced polynomial in the commit phase.
    pub commit_phase_merkle_caps: Vec<MerkleCap<Poseidon2Hash>>,
    /// Query rounds proofs.
    pub query_round_proofs: Vec<FriQueryRound>,
    /// The final polynomial in coefficient form.
    pub final_poly: PolynomialCoeffs<QuadraticExtension>,
    /// Witness showing that the prover did the work.
    pub pow_witness: GoldilocksField,
}

/// A polynomial of a committed batch.
#[derive(Clone, Copy, Debug)]
pub struct FriPolynomialInfo {
    /// Index into the list of batches.
    pub oracle_index: usize,
    /// Index of the polynomial within the batch.
    pub polynomial_index: usize,
}

/// A batch of openings at a particular point.
#[derive(Debug)]
pub struct FriBatchInfo {
    pub point: QuadraticExtension,
    pub polynomials: Vec<FriPolynomialInfo>,
}

/// All openings of a proof.
#[derive(Debug)]
pub struct FriInstanceInfo {
    pub batches: Vec<FriBatchInfo>,
}

} // verus!
