//! The commit phase of the low-degree proof: a polynomial is folded round by round, and each round
//! commits to the values of the polynomial that it folds.

use crate::field::coset::coset_dft;
use crate::field::dft::{eval_poly, eval_strided, padded};
use crate::field::extension::QuadraticExtension;
use crate::field::goldilocks_field::GoldilocksField;
use crate::field::model::{Elt, elt0, lemma_add_comm, lemma_mul_comm};
use crate::field::roots::power;
use crate::field::types::{Field, vals};
use crate::fri::lde::coset_shift_elt;
use crate::fri::structure::{FriParams, bits_sum};
use crate::hash::merkle_tree::{MerkleLeaves, MerkleTree, flat_elements};
use crate::hash::poseidon2::hash::Poseidon2Hash;
use crate::iop::challenger::{Transcript, coordinates, lemma_extension_coordinates};
use crate::util::bits::{is_power_of_two, lemma_rev_bound, log2, log2_strict, rev, reverse_bits};
use vstd::arithmetic::power2::pow2;
use vstd::prelude::*;
use vstd::slice::slice_subrange;

verus! {

/// The number of field elements of a digest.
pub const NUM_HASH_OUT_ELTS: usize = 4;

/// A codeword in bit-reversed order.
pub open spec fn bit_reversed<A>(values: Seq<A>) -> Seq<A> {
    Seq::new(values.len(), |i: int| values[rev(i as nat, log2(values.len())) as int])
}

/// Bit-reversal and flattening in one pass: the coordinates of the codeword in bit-reversed order.
pub fn bitrev_flatten(values: &[QuadraticExtension]) -> (r: Vec<GoldilocksField>)
    requires
        is_power_of_two(values@.len()),
        2 * values@.len() <= usize::MAX,
    ensures
        r@.len() == 2 * values@.len(),
        forall|i: int|
            0 <= i < values@.len() ==> r@.subrange(2 * i, 2 * i + 2) == (#[trigger] bit_reversed(
                values@,
            )[i]).0@,
        vals(r@) == coordinates(bit_reversed(vals(values@))),
{
    let n: usize = values.len();
    let log_n: usize = log2_strict(n);
    let mut flat: Vec<GoldilocksField> = Vec::with_capacity(2 * n);
    let ghost turned = bit_reversed(values@);
    let mut i: usize = 0;
    while i < n
        invariant
            i <= n == values@.len(),
            n == pow2(log_n as nat),
            log_n == log2(n as nat),
            turned == bit_reversed(values@),
            flat@.len() == 2 * i,
            forall|k: int|
                0 <= k < i ==> flat@.subrange(2 * k, 2 * k + 2) == (#[trigger] turned[k]).0@,
        decreases n - i,
    {
        let ghost before = flat@;
        let j: usize = reverse_bits(i, log_n);
        let limbs = values[j].0;
        flat.push(limbs[0]);
        flat.push(limbs[1]);
        proof {
            assert forall|k: int| 0 <= k < i + 1 implies flat@.subrange(2 * k, 2 * k + 2) == (
            #[trigger] turned[k]).0@ by {
                if k < i {
                    assert(flat@.subrange(2 * k, 2 * k + 2) =~= before.subrange(2 * k, 2 * k + 2));
                } else {
                    assert(flat@.subrange(2 * k, 2 * k + 2) =~= turned[k].0@);
                }
            }
        }
        i = i + 1;
    }
    proof {
        let target = coordinates(bit_reversed(vals(values@)));
        assert forall|x: int| 0 <= x < 2 * n implies vals(flat@)[x] == #[trigger] target[x] by {
            let k = x / 2;
            let e = turned[k];
            lemma_rev_bound(k as nat, log_n as nat);
            assert(flat@.subrange(2 * k, 2 * k + 2) == e.0@);
            assert(flat@[x] == flat@.subrange(2 * k, 2 * k + 2)[x - 2 * k]);
            lemma_extension_coordinates(e);
            assert(bit_reversed(vals(values@))[k] == e.v());
        }
        assert(vals(flat@) =~= target);
    }
    flat
}

/// The sum of the elements of a chunk, each multiplied by the next power of `beta`.
pub fn reduce_with_powers(chunk: &[QuadraticExtension], beta: QuadraticExtension) -> (r:
    QuadraticExtension)
    ensures
        r.v() == eval_poly(vals(chunk@), beta.v()),
{
    let ghost c = vals(chunk@);
    let n: usize = chunk.len();
    let mut r = QuadraticExtension::zero();
    let mut i: usize = n;
    proof {
        QuadraticExtension::lemma_values(r);
    }
    while i > 0
        invariant
            i <= n == chunk@.len(),
            c == vals(chunk@),
            r.v() == eval_strided(c, i as int, 1, (n - i) as nat, beta.v()),
        decreases i,
    {
        i = i - 1;
        let product = r.mul(beta);
        proof {
            QuadraticExtension::lemma_ops(r, beta);
            QuadraticExtension::lemma_ops(product, chunk@[i as int]);
            lemma_mul_comm(r.v(), beta.v());
            lemma_add_comm(product.v(), chunk@[i as int].v());
        }
        r = product.add(chunk[i]);
    }
    r
}

/// `P(x) = sum_{i<r} x^i * P_i(x^r)` becomes `sum_{i<r} beta^i * P_i(x)`.
pub open spec fn fold_poly(c: Seq<Elt>, beta: Elt, arity: nat) -> Seq<Elt> {
    Seq::new(
        c.len() / arity,
        |i: int| eval_poly(c.subrange(i * arity, i * arity + arity), beta),
    )
}

/// Folds a polynomial by a challenge.
pub fn fold_coeffs(coeffs: &Vec<QuadraticExtension>, beta: QuadraticExtension, arity: usize) -> (r: Vec<
    QuadraticExtension,
>)
    requires
        arity > 0,
    ensures
        vals(r@) == fold_poly(vals(coeffs@), beta.v(), arity as nat),
{
    let n: usize = coeffs.len() / arity;
    let ghost c = vals(coeffs@);
    let ghost target = fold_poly(c, beta.v(), arity as nat);
    let mut r: Vec<QuadraticExtension> = Vec::with_capacity(n);
    while r.len() < n
        invariant
            arity > 0,
            n == coeffs@.len() / arity as nat,
            c == vals(coeffs@),
            target == fold_poly(c, beta.v(), arity as nat),
            r@.len() <= n,
            forall|i: int| 0 <= i < r@.len() ==> (#[trigger] r@[i]).v() == target[i],
        decreases n - r@.len(),
    {
        let i: usize = r.len();
        let len: usize = coeffs.len();
        proof {
            vstd::arithmetic::div_mod::lemma_fundamental_div_mod(len as int, arity as int);
            assert(0 <= i * arity && i * arity + arity <= len) by (nonlinear_arith)
                requires
                    0 <= i,
                    i + 1 <= n,
                    arity * n + (len as int % arity as int) == len,
                    0 <= len as int % arity as int,
                    arity > 0,
            ;
        }
        let lo: usize = i * arity;
        let chunk = slice_subrange(coeffs.as_slice(), lo, lo + arity);
        assert(vals(chunk@) =~= c.subrange(i * arity, i * arity + arity));
        r.push(reduce_with_powers(chunk, beta));
    }
    assert(vals(r@) =~= target);
    r
}

/// The transcript at the start of round `i`, after the caps of the rounds before it.
pub open spec fn round_transcript(t: Transcript, caps: Seq<Seq<Elt>>, i: nat) -> Transcript
    decreases i,
{
    if i == 0 {
        t
    } else {
        round_transcript(t, caps, (i - 1) as nat).observed_all(caps[i - 1]).extension_drawn()
    }
}

/// The challenge that round `i` folds by.
pub open spec fn round_beta(t: Transcript, caps: Seq<Seq<Elt>>, i: nat) -> Elt {
    round_transcript(t, caps, i).observed_all(caps[i as int]).extension_challenge()
}

/// The coefficients at the start of round `i`.
pub open spec fn round_coeffs(
    c: Seq<Elt>,
    t: Transcript,
    caps: Seq<Seq<Elt>>,
    bits: Seq<usize>,
    i: nat,
) -> Seq<Elt>
    decreases i,
{
    if i == 0 {
        c
    } else {
        fold_poly(
            round_coeffs(c, t, caps, bits, (i - 1) as nat),
            round_beta(t, caps, (i - 1) as nat),
            pow2(bits[i - 1] as nat),
        )
    }
}

/// The shift of the coset of round `i`.
pub open spec fn round_shift(bits: Seq<usize>, i: nat) -> Elt
    decreases i,
{
    if i == 0 {
        coset_shift_elt()
    } else {
        power(round_shift(bits, (i - 1) as nat), pow2(bits[i - 1] as nat))
    }
}

/// The values that round `i` commits to: those that are given, and in later rounds those of the
/// folded polynomial on its coset.
pub open spec fn round_values(
    c: Seq<Elt>,
    values: Seq<Elt>,
    t: Transcript,
    caps: Seq<Seq<Elt>>,
    bits: Seq<usize>,
    rate_bits: nat,
    i: nat,
) -> Seq<Elt> {
    if i == 0 {
        values
    } else {
        let coeffs = round_coeffs(c, t, caps, bits, i);
        let lg_n = log2(coeffs.len());
        coset_dft(
            padded(coeffs, pow2((lg_n - rate_bits) as nat) as int),
            round_shift(bits, i),
            lg_n,
        )
    }
}

/// The field elements of the caps of some trees.
pub open spec fn cap_elements(trees: Seq<MerkleTree<Poseidon2Hash>>) -> Seq<Seq<Elt>> {
    Seq::new(trees.len(), |i: int| flat_elements(trees[i].cap.0@, trees[i].cap.0@.len()))
}

/// Tree `i` of the commit phase is over the codeword of round `i`, in leaves that are folded into
/// one value each.
#[verifier::opaque]
pub open spec fn round_tree(
    tree: MerkleTree<Poseidon2Hash>,
    values: Seq<Elt>,
    arity_bits: nat,
    cap_height: nat,
) -> bool {
    &&& tree.wf()
    &&& tree.cap.0@.len() == pow2(cap_height)
    &&& tree.num_leaves * pow2(arity_bits) == values.len()
    &&& tree.leaves matches MerkleLeaves::Rows { data, width } && width == 2 * pow2(arity_bits)
        && vals(data@) == coordinates(bit_reversed(values))
}

/// What the sizes in a proof over `2^lg_n` values have to meet: each round leaves a polynomial that
/// the cap and the rate fit.
pub open spec fn sizes_ok(params: FriParams, lg_n: nat) -> bool {
    let bits = params.reduction_arity_bits@;
    &&& lg_n <= 33
    &&& 2 * pow2(lg_n) <= usize::MAX
    &&& params.config.rate_bits <= lg_n
    &&& forall|i: nat|
        0 < i <= bits.len() ==> params.config.cap_height + (#[trigger] bits_sum(bits, i)) <= lg_n
            && params.config.rate_bits + bits_sum(bits, i) <= lg_n
}

/// The transcript after the steps that stand in for rounds that a larger circuit has: in each, a
/// cap of zeros is observed and a challenge is drawn.
pub open spec fn idle_rounds(t: Transcript, cap_len: nat, n: nat) -> Transcript
    decreases n,
{
    if n == 0 {
        t
    } else {
        idle_rounds(t, cap_len, (n - 1) as nat).observed_all(
            Seq::new(cap_len, |i: int| elt0()),
        ).extension_drawn()
    }
}

/// The number of idle rounds after `done` rounds.
pub open spec fn idle_count(max_num_query_steps: Option<usize>, done: nat) -> nat {
    match max_num_query_steps {
        Some(steps) => if done <= steps {
            (steps - done) as nat
        } else {
            0
        },
        None => 0,
    }
}

/// The number of zeros that stand in for the coefficients that a longer final polynomial has.
pub open spec fn missing_count(final_poly_coeff_len: Option<usize>, len: nat) -> nat {
    match final_poly_coeff_len {
        Some(full) => if len <= full {
            (full - len) as nat
        } else {
            0
        },
        None => 0,
    }
}

/// The commit phase: one tree for each round, and the coefficients that are left.
pub open spec fn committed(
    c: Seq<Elt>,
    values: Seq<Elt>,
    t: Transcript,
    params: FriParams,
    trees: Seq<MerkleTree<Poseidon2Hash>>,
    last: Seq<Elt>,
) -> bool {
    let bits = params.reduction_arity_bits@;
    let caps = cap_elements(trees);
    &&& trees.len() == bits.len()
    &&& forall|i: int|
        0 <= i < trees.len() ==> round_tree(
            #[trigger] trees[i],
            round_values(c, values, t, caps, bits, params.config.rate_bits as nat, i as nat),
            bits[i] as nat,
            params.config.cap_height as nat,
        )
    &&& last == ({
        let coeffs = round_coeffs(c, t, caps, bits, bits.len());
        coeffs.take(coeffs.len() as int / pow2(params.config.rate_bits as nat) as int)
    })
}

/// The transcript after the commit phase.
pub open spec fn committed_transcript(
    t: Transcript,
    params: FriParams,
    trees: Seq<MerkleTree<Poseidon2Hash>>,
    last: Seq<Elt>,
    final_poly_coeff_len: Option<usize>,
    max_num_query_steps: Option<usize>,
) -> Transcript {
    let caps = cap_elements(trees);
    let cap_len = pow2(params.config.cap_height as nat) * 4;
    let rounds = round_transcript(t, caps, trees.len());
    let idle = idle_rounds(rounds, cap_len, idle_count(max_num_query_steps, trees.len()));
    idle.observed_all(coordinates(last)).observed_all(
        Seq::new(2 * missing_count(final_poly_coeff_len, last.len()), |i: int| elt0()),
    )
}

} // verus!
