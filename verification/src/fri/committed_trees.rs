//! The prover's side of the commit phase.

use crate::field::coset::coset_dft;
use crate::field::dft::padded;
use crate::field::extension::QuadraticExtension;
use crate::field::goldilocks_field::GoldilocksField;
use crate::field::model::{Elt, base, elt0, lemma_reduced_self};
use crate::field::polynomial::{PolynomialCoeffs, PolynomialValues, filled};
use crate::field::roots::{lemma_square_iter, power};
use crate::field::types::{Field, vals};
use crate::fri::commit_phase::{
    NUM_HASH_OUT_ELTS, bitrev_flatten, cap_elements, committed, committed_transcript, fold_coeffs,
    fold_poly, idle_rounds, missing_count, round_coeffs, round_shift, round_transcript, round_tree,
    round_values, sizes_ok,
};
use crate::fri::structure::{FriParams, bits_sum};
use crate::hash::merkle_tree::{MerkleTree, flat_elements};
use crate::hash::poseidon2::hash::Poseidon2Hash;
use crate::iop::challenger::{Challenger, Transcript};
use crate::util::bits::{is_power_of_two, lemma_log2, lemma_pow2_mono, log2, two_pow};
use vstd::arithmetic::power2::{lemma_pow2_adds, lemma_pow2_pos, pow2};
use vstd::prelude::*;

verus! {

/// What happens up to round `i` only depends on the caps before it.
proof fn lemma_rounds_prefix(
    c: Seq<Elt>,
    values: Seq<Elt>,
    t: Transcript,
    caps: Seq<Seq<Elt>>,
    more: Seq<Seq<Elt>>,
    bits: Seq<usize>,
    rate_bits: nat,
    i: nat,
)
    requires
        i <= caps.len(),
        i <= more.len(),
        forall|k: int| 0 <= k < i ==> #[trigger] caps[k] == more[k],
    ensures
        round_transcript(t, caps, i) == round_transcript(t, more, i),
        round_coeffs(c, t, caps, bits, i) == round_coeffs(c, t, more, bits, i),
        round_values(c, values, t, caps, bits, rate_bits, i) == round_values(
            c,
            values,
            t,
            more,
            bits,
            rate_bits,
            i,
        ),
    decreases i,
{
    if i > 0 {
        lemma_rounds_prefix(c, values, t, caps, more, bits, rate_bits, (i - 1) as nat);
        assert(caps[i - 1] == more[i - 1]);
    }
}

/// The sizes of a round over `2^k` values that folds by `2^b`.
pub proof fn lemma_round_sizes(k: nat, b: nat)
    requires
        b <= k,
    ensures
        pow2(k) == pow2((k - b) as nat) * pow2(b),
        pow2(k) / pow2(b) == pow2((k - b) as nat),
        (2 * pow2(k)) as int % (2 * pow2(b)) as int == 0,
        (2 * pow2(k)) / (2 * pow2(b)) == pow2((k - b) as nat),
        1 <= pow2(b) <= pow2(k),
        1 <= pow2((k - b) as nat) <= pow2(k),
{
    let (p, q, n) = (pow2((k - b) as nat) as int, pow2(b) as int, pow2(k) as int);
    lemma_pow2_adds((k - b) as nat, b);
    lemma_pow2_pos(b);
    lemma_pow2_pos((k - b) as nat);
    lemma_pow2_mono(b, k);
    lemma_pow2_mono((k - b) as nat, k);
    vstd::arithmetic::div_mod::lemma_fundamental_div_mod_converse(n, q, p, 0);
    assert(2 * n == p * (2 * q)) by (nonlinear_arith)
        requires
            n == p * q,
    ;
    vstd::arithmetic::div_mod::lemma_fundamental_div_mod_converse(2 * n, 2 * q, p, 0);
}

/// Observes `count` pairs of zeros.
fn observe_zeros(challenger: &mut Challenger, count: usize)
    requires
        old(challenger).wf(),
    ensures
        final(challenger).wf(),
        final(challenger).transcript() == old(challenger).transcript().observed_all(
            Seq::new(2 * count as nat, |i: int| elt0()),
        ),
{
    let ghost t = challenger.transcript();
    let ghost zeros = Seq::new(2 * count as nat, |i: int| elt0());
    let zero = QuadraticExtension::zero();
    proof {
        reveal(Transcript::observed_all);
        QuadraticExtension::lemma_values(zero);
        lemma_reduced_self(elt0());
    }
    let mut i: usize = 0;
    while i < count
        invariant
            i <= count,
            zero.v() == elt0(),
            base(0) == elt0(),
            zeros == Seq::new(2 * count as nat, |i: int| elt0()),
            challenger.wf(),
            challenger.transcript() == t.observed_to(zeros, (2 * i) as nat),
        decreases count - i,
    {
        challenger.observe_extension_element(&zero);
        proof {
            let k = 2 * i;
            assert(t.observed_to(zeros, (k + 1) as nat) == t.observed_to(
                zeros,
                k as nat,
            ).observed(zeros[k as int]));
            assert(t.observed_to(zeros, (k + 2) as nat) == t.observed_to(
                zeros,
                (k + 1) as nat,
            ).observed(zeros[k + 1]));
        }
        i = i + 1;
    }
}

/// Runs `count` idle rounds.
fn idle(challenger: &mut Challenger, cap_height: usize, count: usize)
    requires
        old(challenger).wf(),
        pow2(cap_height as nat) * 4 <= usize::MAX,
    ensures
        final(challenger).wf(),
        final(challenger).transcript() == idle_rounds(
            old(challenger).transcript(),
            pow2(cap_height as nat) * 4,
            count as nat,
        ),
{
    let ghost t = challenger.transcript();
    let cap_len: usize = two_pow(cap_height) * NUM_HASH_OUT_ELTS;
    let zero_cap = filled(GoldilocksField(0), cap_len);
    proof {
        GoldilocksField::lemma_values(GoldilocksField(0));
        assert(vals(zero_cap@) =~= Seq::new(cap_len as nat, |i: int| elt0()));
    }
    let mut i: usize = 0;
    while i < count
        invariant
            i <= count,
            challenger.wf(),
            vals(zero_cap@) == Seq::new(cap_len as nat, |i: int| elt0()),
            challenger.transcript() == idle_rounds(t, cap_len as nat, i as nat),
        decreases count - i,
    {
        challenger.observe_elements(zero_cap.as_slice());
        let dummy = challenger.get_extension_challenge();
        i = i + 1;
    }
}

/// The state of the commit phase at the start of a round.
spec fn at_round(
    c: Seq<Elt>,
    values: Seq<Elt>,
    t: Transcript,
    params: FriParams,
    lg_n: nat,
    trees: Seq<MerkleTree<Poseidon2Hash>>,
    now: (Seq<Elt>, Seq<Elt>, Elt, Transcript),
) -> bool {
    let bits = params.reduction_arity_bits@;
    let caps = cap_elements(trees);
    let i = trees.len();
    let rate_bits = params.config.rate_bits as nat;
    &&& i <= bits.len()
    &&& bits_sum(bits, i) <= lg_n
    &&& now.0 == round_coeffs(c, t, caps, bits, i)
    &&& now.1 == round_values(c, values, t, caps, bits, rate_bits, i)
    &&& now.2 == round_shift(bits, i)
    &&& now.3 == round_transcript(t, caps, i)
    &&& now.0.len() == pow2((lg_n - bits_sum(bits, i)) as nat)
    &&& now.1.len() == now.0.len()
    &&& forall|j: int|
        0 <= j < i ==> round_tree(
            #[trigger] trees[j],
            round_values(c, values, t, caps, bits, rate_bits, j as nat),
            bits[j] as nat,
            params.config.cap_height as nat,
        )
}

proof fn lemma_round_step(
    c: Seq<Elt>,
    values: Seq<Elt>,
    t: Transcript,
    params: FriParams,
    lg_n: nat,
    trees: Seq<MerkleTree<Poseidon2Hash>>,
    now: (Seq<Elt>, Seq<Elt>, Elt, Transcript),
    tree: MerkleTree<Poseidon2Hash>,
    next: (Seq<Elt>, Seq<Elt>, Elt, Transcript),
)
    requires
        at_round(c, values, t, params, lg_n, trees, now),
        trees.len() < params.reduction_arity_bits@.len(),
        bits_sum(params.reduction_arity_bits@, trees.len() + 1) <= lg_n,
        round_tree(
            tree,
            now.1,
            params.reduction_arity_bits@[trees.len() as int] as nat,
            params.config.cap_height as nat,
        ),
        ({
            let cap = flat_elements(tree.cap.0@, tree.cap.0@.len());
            let b = params.reduction_arity_bits@[trees.len() as int] as nat;
            let lg = log2(next.0.len());
            &&& next.0 == fold_poly(
                now.0,
                now.3.observed_all(cap).extension_challenge(),
                pow2(b),
            )
            &&& next.1 == coset_dft(
                padded(next.0, pow2((lg - params.config.rate_bits) as nat) as int),
                next.2,
                lg,
            )
            &&& next.2 == power(now.2, pow2(b))
            &&& next.3 == now.3.observed_all(cap).extension_drawn()
        }),
    ensures
        at_round(c, values, t, params, lg_n, trees.push(tree), next),
{
    let bits = params.reduction_arity_bits@;
    let rate_bits = params.config.rate_bits as nat;
    let i = trees.len();
    let all = trees.push(tree);
    let (caps, more) = (cap_elements(trees), cap_elements(all));
    assert forall|k: int| 0 <= k < i implies #[trigger] caps[k] == more[k] by {
        assert(all[k] == trees[k]);
    }
    lemma_rounds_prefix(c, values, t, caps, more, bits, rate_bits, i);
    let k = (lg_n - bits_sum(bits, i)) as nat;
    let b = bits[i as int] as nat;
    lemma_round_sizes(k, b);
    lemma_log2((k - b) as nat);
    assert forall|j: int| 0 <= j < all.len() implies round_tree(
        #[trigger] all[j],
        round_values(c, values, t, more, bits, rate_bits, j as nat),
        bits[j] as nat,
        params.config.cap_height as nat,
    ) by {
        if j < i {
            assert(all[j] == trees[j]);
            lemma_rounds_prefix(c, values, t, caps, more, bits, rate_bits, j as nat);
        }
    }
}

/// Commits to the codeword of each round, and folds the polynomial by the challenge that follows.
pub fn fri_committed_trees(
    coeffs: PolynomialCoeffs<QuadraticExtension>,
    values: PolynomialValues<QuadraticExtension>,
    challenger: &mut Challenger,
    fri_params: &FriParams,
    final_poly_coeff_len: Option<usize>,
    max_num_query_steps: Option<usize>,
) -> (r: (Vec<MerkleTree<Poseidon2Hash>>, PolynomialCoeffs<QuadraticExtension>))
    requires
        old(challenger).wf(),
        is_power_of_two(coeffs.coeffs@.len()),
        values.values@.len() == coeffs.coeffs@.len(),
        sizes_ok(*fri_params, log2(coeffs.coeffs@.len())),
        max_num_query_steps is Some ==> pow2(fri_params.config.cap_height as nat) * 4
            <= usize::MAX,
    ensures
        final(challenger).wf(),
        committed(
            vals(coeffs.coeffs@),
            vals(values.values@),
            old(challenger).transcript(),
            *fri_params,
            r.0@,
            vals(r.1.coeffs@),
        ),
        final(challenger).transcript() == committed_transcript(
            old(challenger).transcript(),
            *fri_params,
            r.0@,
            vals(r.1.coeffs@),
            final_poly_coeff_len,
            max_num_query_steps,
        ),
{
    let ghost c = vals(coeffs.coeffs@);
    let ghost v = vals(values.values@);
    let ghost t = challenger.transcript();
    let ghost lg_n = log2(coeffs.coeffs@.len());
    let ghost bits = fri_params.reduction_arity_bits@;
    let rate_bits: usize = fri_params.config.rate_bits;
    let cap_height: usize = fri_params.config.cap_height;
    let rounds: usize = fri_params.reduction_arity_bits.len();
    let mut coeffs = coeffs;
    let mut values = values;
    let mut trees: Vec<MerkleTree<Poseidon2Hash>> = Vec::with_capacity(rounds);
    let mut shift = GoldilocksField::coset_shift();
    while trees.len() < rounds
        invariant
            rounds == bits.len(),
            bits == fri_params.reduction_arity_bits@,
            rate_bits == fri_params.config.rate_bits,
            cap_height == fri_params.config.cap_height,
            sizes_ok(*fri_params, lg_n),
            challenger.wf(),
            coeffs.coeffs@.len() == vals(coeffs.coeffs@).len(),
            values.values@.len() == vals(values.values@).len(),
            at_round(
                c,
                v,
                t,
                *fri_params,
                lg_n,
                trees@,
                (
                    vals(coeffs.coeffs@),
                    vals(values.values@),
                    shift.v(),
                    challenger.transcript(),
                ),
            ),
        decreases rounds - trees@.len(),
    {
        let ghost i = trees@.len();
        let ghost now = (
            vals(coeffs.coeffs@),
            vals(values.values@),
            shift.v(),
            challenger.transcript(),
        );
        let arity_bits: usize = fri_params.reduction_arity_bits[trees.len()];
        let ghost k = (lg_n - bits_sum(bits, i)) as nat;
        proof {
            assert(bits_sum(bits, i + 1) == bits_sum(bits, i) + arity_bits);
            assert(cap_height + bits_sum(bits, (i + 1) as nat) <= lg_n);
            lemma_round_sizes(k, arity_bits as nat);
            lemma_pow2_mono(k, lg_n);
            lemma_log2(k);
            lemma_log2((k - arity_bits) as nat);
        }
        let arity: usize = two_pow(arity_bits);
        let flat_values = bitrev_flatten(values.values.as_slice());
        let tree = MerkleTree::<Poseidon2Hash>::new_flat(flat_values, arity * 2, cap_height);
        challenger.observe_cap(&tree.cap);
        proof {
            assert(round_tree(tree, now.1, arity_bits as nat, cap_height as nat)) by {
                reveal(round_tree);
            }
        }
        let beta = challenger.get_extension_challenge();
        let folded_coeffs = fold_coeffs(&coeffs.coeffs, beta, arity);
        proof {
            assert(vals(folded_coeffs@).len() == pow2((k - arity_bits) as nat));
            lemma_square_iter(shift.v(), arity_bits as nat);
            GoldilocksField::lemma_values(shift);
        }
        coeffs = PolynomialCoeffs::new(folded_coeffs);
        shift = shift.exp_power_of_2(arity_bits);
        let next_values = coeffs.coset_fft_with_options(
            QuadraticExtension::from_basefield(shift),
            Some(rate_bits),
            None,
        );
        values = next_values;
        let ghost before = trees@;
        trees.push(tree);
        proof {
            lemma_round_step(
                c,
                v,
                t,
                *fri_params,
                lg_n,
                before,
                now,
                tree,
                (
                    vals(coeffs.coeffs@),
                    vals(values.values@),
                    shift.v(),
                    challenger.transcript(),
                ),
            );
        }
    }
    // When verifying this proof in a circuit with a different number of query steps, the
    // challenger has to stay in sync with the verifier. Therefore, it must observe the additional
    // hash caps and generate dummy challenges.
    match max_num_query_steps {
        Some(step_count) => {
            if rounds < step_count {
                idle(challenger, cap_height, step_count - rounds);
            }
        },
        None => {},
    }
    let ghost before = coeffs.coeffs@;
    proof {
        let k = (lg_n - bits_sum(bits, rounds as nat)) as nat;
        lemma_pow2_pos(rate_bits as nat);
        if rounds > 0 {
            assert(rate_bits + bits_sum(bits, rounds as nat) <= lg_n);
        }
        lemma_round_sizes(k, rate_bits as nat);
    }
    let live: usize = coeffs.coeffs.len() / two_pow(rate_bits);
    let last = PolynomialCoeffs::new(truncated(&coeffs.coeffs, live));
    assert(vals(last.coeffs@) =~= vals(before).take(live as int));
    challenger.observe_extension_elements(last.coeffs.as_slice());
    // When verifying this proof in a circuit with a different final polynomial length, the
    // challenger needs to observe the full length of the final polynomial.
    let current_len: usize = last.coeffs.len();
    let missing: usize = match final_poly_coeff_len {
        Some(len) => if current_len < len {
            len - current_len
        } else {
            0
        },
        None => 0,
    };
    observe_zeros(challenger, missing);
    proof {
        assert(vals(last.coeffs@).len() == current_len);
        assert(missing == missing_count(final_poly_coeff_len, current_len as nat));
    }
    (trees, last)
}

/// The first `n` elements.
fn truncated(v: &Vec<QuadraticExtension>, n: usize) -> (r: Vec<QuadraticExtension>)
    requires
        n <= v@.len(),
    ensures
        r@ == v@.take(n as int),
{
    let mut r: Vec<QuadraticExtension> = Vec::with_capacity(n);
    while r.len() < n
        invariant
            r@.len() <= n <= v@.len(),
            r@ == v@.take(r@.len() as int),
        decreases n - r@.len(),
    {
        let i: usize = r.len();
        r.push(v[i]);
        assert(r@ =~= v@.take(r@.len() as int));
    }
    r
}

} // verus!
