//! What the commit phase leaves behind: the values in its trees, how each round follows from the
//! one before it, and the polynomial at the end.

use crate::field::coset::coset_dft;
use crate::field::dft::{all_wf, eval_poly, eval_strided, lemma_eval_wf, lemma_root_full, padded};
use crate::field::goldilocks_field::{GoldilocksField, MULTIPLICATIVE_GROUP_GENERATOR};
use crate::field::model::{
    Elt, base, elt0, group_elt_wf, lemma_mul_one_zero, lemma_reduced_self, reduced,
};
use crate::field::poly_laws::lemma_eval_push;
use crate::field::roots::{
    ext_root_generator, lemma_power_add, lemma_power_mul, lemma_power_of_product, lemma_power_one,
    lemma_power_small, lemma_power_wf, lemma_square_iter, lemma_square_iter_add, power, root,
};
use crate::field::types::{Field, vals};
use crate::fri::commit_phase::{
    bit_reversed, cap_elements, committed, fold_poly, round_beta, round_coeffs, round_shift,
    round_transcript, round_tree, round_values, sizes_ok,
};
use crate::fri::committed_trees::lemma_round_sizes;
use crate::fri::laws::{
    lemma_dropped_coefficients_are_zero, lemma_fold_is_combination, lemma_poly_is_sum_of_parts,
    parts_sum,
};
use crate::fri::lde::{coset_shift_elt, lemma_eval_zero_tail};
use crate::fri::prover::lemma_round_lens;
use crate::fri::structure::{FriParams, bits_sum};
use crate::hash::hash_types::GenericHashOut;
use crate::hash::merkle_laws::lemma_cap_elements_in_order;
use crate::hash::merkle_tree::{MerkleLeaves, MerkleTree};
use crate::hash::poseidon2::hash::Poseidon2Hash;
use crate::iop::challenger::{Transcript, coordinates};
use crate::util::bits::{
    lemma_log2, lemma_pow2_basics, lemma_pow2_double, lemma_pow2_mono, lemma_rev_bound, rev,
};
use vstd::arithmetic::power2::{lemma_pow2_adds, lemma_pow2_pos, pow2};
use vstd::prelude::*;

verus! {

/// All but the first `2^(lg_n - rate_bits)` of `2^lg_n` coefficients are zero.
pub open spec fn of_low_degree(c: Seq<Elt>, lg_n: nat, rate_bits: nat) -> bool {
    &&& c.len() == pow2(lg_n)
    &&& all_wf(c)
    &&& forall|j: int| pow2((lg_n - rate_bits) as nat) <= j < c.len() ==> #[trigger] c[j] == elt0()
}

/// The element of the extension field at place `e` of leaf `l`.
pub open spec fn leaf_value(tree: MerkleTree<Poseidon2Hash>, l: int, e: int) -> Elt {
    let leaf = tree.leaves.leaf(l);
    reduced(leaf[2 * e].v().re, leaf[2 * e + 1].v().re)
}

/// The point that belongs to place `p` of the codeword of round `i`: a point of the coset whose
/// shift is the first shift to the power of all arities so far, in bit-reversed order.
pub open spec fn round_point(bits: Seq<usize>, lg_n: nat, i: nat, p: nat) -> Elt {
    let left = (lg_n - bits_sum(bits, i)) as nat;
    power(coset_shift_elt(), pow2(bits_sum(bits, i))) * power(root(left), rev(p, left))
}

/// Values at some points fold to a value by a challenge: a polynomial with as many coefficients as
/// there are points goes through these values, and is worth the folded value at the challenge.
pub open spec fn folds_to(
    points: Seq<Elt>,
    values: Seq<Elt>,
    beta: Elt,
    folded_value: Elt,
) -> bool {
    exists|g: Seq<Elt>|
        #![trigger all_wf(g)]
        {
            &&& all_wf(g)
            &&& g.len() == points.len()
            &&& forall|e: int|
                0 <= e < points.len() ==> eval_poly(g, #[trigger] points[e]) == values[e]
            &&& eval_poly(g, beta) == folded_value
        }
}

proof fn lemma_shift(bits: Seq<usize>, i: nat)
    requires
        i <= bits.len(),
    ensures
        round_shift(bits, i) == power(coset_shift_elt(), pow2(bits_sum(bits, i))),
        coset_shift_elt().wf(),
        round_shift(bits, i).wf(),
    decreases i,
{
    let s = coset_shift_elt();
    GoldilocksField::lemma_values(GoldilocksField(MULTIPLICATIVE_GROUP_GENERATOR));
    if i == 0 {
        lemma_pow2_basics();
        lemma_power_small(s);
    } else {
        let j = (i - 1) as nat;
        lemma_shift(bits, j);
        lemma_power_mul(s, pow2(bits_sum(bits, j)), pow2(bits[j as int] as nat));
        lemma_pow2_adds(bits_sum(bits, j), bits[j as int] as nat);
    }
    lemma_power_wf(s, pow2(bits_sum(bits, i)));
}

proof fn lemma_root_power(k: nat, b: nat)
    requires
        k + b <= 33,
    ensures
        power(root(k + b), pow2(b)) == root(k),
        root(k).wf(),
        root(k + b).wf(),
{
    let g = ext_root_generator();
    lemma_square_iter(g, (33 - (k + b)) as nat);
    lemma_square_iter(g, (33 - k) as nat);
    lemma_square_iter(root(k + b), b);
    lemma_square_iter_add(g, (33 - (k + b)) as nat, b);
    assert((33 - (k + b)) as nat + b == (33 - k) as nat);
}

proof fn lemma_rev_concat(l: nat, e: nat, m: nat, b: nat)
    requires
        e < pow2(b),
    ensures
        rev(l * pow2(b) + e, m + b) == rev(e, b) * pow2(m) + rev(l, m),
    decreases b,
{
    lemma_pow2_basics();
    if b == 0 {
        assert(l * pow2(0) == l) by (nonlinear_arith)
            requires
                pow2(0) == 1,
        ;
        assert(0 * pow2(m) == 0);
    } else {
        let a = (b - 1) as nat;
        lemma_pow2_double(a);
        let x = l * pow2(b) + e;
        assert(l * pow2(b) == 2 * (l * pow2(a))) by (nonlinear_arith)
            requires
                pow2(b) == 2 * pow2(a),
        ;
        assert(x % 2 == e % 2);
        assert(x / 2 == l * pow2(a) + e / 2);
        lemma_rev_concat(l, e / 2, m, a);
        lemma_pow2_adds(m, a);
        assert((m + b - 1) as nat == m + a);
        assert((e % 2) * pow2(m + a) + rev(e / 2, a) * pow2(m) == ((e % 2) * pow2(a) + rev(
            e / 2,
            a,
        )) * pow2(m)) by (nonlinear_arith)
            requires
                pow2(m + a) == pow2(m) * pow2(a),
        ;
    }
}

/// The points of a leaf are the points whose power, by the arity, is the point that the leaf folds
/// into in the next round.
pub proof fn lemma_points_of_a_leaf(bits: Seq<usize>, lg_n: nat, i: nat, l: nat, e: nat)
    requires
        lg_n <= 33,
        i < bits.len(),
        bits_sum(bits, i + 1) <= lg_n,
        e < pow2(bits[i as int] as nat),
    ensures
        power(
            round_point(bits, lg_n, i, l * pow2(bits[i as int] as nat) + e),
            pow2(bits[i as int] as nat),
        ) == round_point(bits, lg_n, i + 1, l),
        round_point(bits, lg_n, i, l * pow2(bits[i as int] as nat) + e).wf(),
        round_point(bits, lg_n, i + 1, l).wf(),
{
    broadcast use group_elt_wf;

    let b = bits[i as int] as nat;
    let a = pow2(b);
    let left = (lg_n - bits_sum(bits, i)) as nat;
    let m = (lg_n - bits_sum(bits, i + 1)) as nat;
    assert(left == m + b);
    let k = rev(l * a + e, left);
    let s = power(coset_shift_elt(), pow2(bits_sum(bits, i)));
    lemma_shift(bits, i);
    lemma_shift(bits, i + 1);
    assert(power(s, a) == power(coset_shift_elt(), pow2(bits_sum(bits, i + 1))));
    lemma_root_power(m, b);
    let (fine, coarse) = (root(left), root(m));
    lemma_power_wf(fine, k);
    lemma_power_of_product(s, power(fine, k), a);
    lemma_power_mul(fine, k, a);
    lemma_power_mul(fine, a, k);
    assert(k * a == a * k) by (nonlinear_arith);
    lemma_rev_concat(l, e, m, b);
    let (hi, lo) = (rev(e, b), rev(l, m));
    lemma_power_add(coarse, hi * pow2(m), lo);
    assert(hi * pow2(m) == pow2(m) * hi) by (nonlinear_arith);
    lemma_power_mul(coarse, pow2(m), hi);
    lemma_root_full(m);
    lemma_power_one(hi);
    lemma_power_wf(coarse, lo);
    lemma_mul_one_zero(power(coarse, lo));
}

proof fn lemma_fold_wf(c: Seq<Elt>, beta: Elt, r: nat)
    requires
        r > 0,
    ensures
        all_wf(fold_poly(c, beta, r)),
{
    let s = fold_poly(c, beta, r);
    assert forall|k: int| 0 <= k < s.len() implies (#[trigger] s[k]).wf() by {
        let chunk = c.subrange(k * r, k * r + r);
        assert(s[k] == eval_poly(chunk, beta));
        lemma_eval_wf(chunk, 0, 1, chunk.len(), beta);
    }
}

proof fn lemma_round_coeffs_wf(
    c: Seq<Elt>,
    t: Transcript,
    caps: Seq<Seq<Elt>>,
    bits: Seq<usize>,
    i: nat,
)
    requires
        all_wf(c),
    ensures
        all_wf(round_coeffs(c, t, caps, bits, i)),
{
    if i > 0 {
        let j = (i - 1) as nat;
        lemma_pow2_pos(bits[j as int] as nat);
        lemma_fold_wf(
            round_coeffs(c, t, caps, bits, j),
            round_beta(t, caps, j),
            pow2(bits[j as int] as nat),
        );
    }
}

proof fn lemma_parts_are_a_polynomial(c: Seq<Elt>, r: int, len: nat, b: Elt, y: Elt, n: nat)
    requires
        b.wf(),
    ensures
        ({
            let g = Seq::new(n, |j: int| eval_strided(c, j, r, len, y));
            all_wf(g) && parts_sum(c, r, len, b, y, n) == eval_poly(g, b)
        }),
    decreases n,
{
    let g = Seq::new(n, |j: int| eval_strided(c, j, r, len, y));
    assert forall|j: int| 0 <= j < n implies (#[trigger] g[j]).wf() by {
        lemma_eval_wf(c, j, r, len, y);
    }
    if n > 0 {
        let m = (n - 1) as nat;
        let h = Seq::new(m, |j: int| eval_strided(c, j, r, len, y));
        lemma_parts_are_a_polynomial(c, r, len, b, y, m);
        lemma_eval_wf(c, m as int, r, len, y);
        lemma_eval_push(h, eval_strided(c, m as int, r, len, y), b);
        assert(h.push(eval_strided(c, m as int, r, len, y)) =~= g);
    }
}

/// A round folds as a verifier expects it: the values, at the points of a leaf, of the polynomial
/// that a round starts with fold, by the challenge of the round, to the value of the polynomial
/// that the round ends with, at the point that belongs to the leaf. The first round starts with the
/// polynomial that is given.
#[verifier::spinoff_prover]
#[verifier::rlimit(30)]
pub proof fn lemma_round_folds(
    c: Seq<Elt>,
    t: Transcript,
    caps: Seq<Seq<Elt>>,
    params: FriParams,
    lg_n: nat,
    i: nat,
    l: nat,
)
    requires
        sizes_ok(params, lg_n),
        c.len() == pow2(lg_n),
        all_wf(c),
        i < params.reduction_arity_bits@.len(),
    ensures
        ({
            let bits = params.reduction_arity_bits@;
            let arity = pow2(bits[i as int] as nat);
            let points = Seq::new(
                arity,
                |e: int| round_point(bits, lg_n, i, (l * arity + e) as nat),
            );
            folds_to(
                points,
                Seq::new(
                    arity,
                    |e: int| eval_poly(round_coeffs(c, t, caps, bits, i), points[e]),
                ),
                round_beta(t, caps, i),
                eval_poly(
                    round_coeffs(c, t, caps, bits, i + 1),
                    round_point(bits, lg_n, i + 1, l),
                ),
            )
        }),
        round_coeffs(c, t, caps, params.reduction_arity_bits@, 0) == c,
{
    let bits = params.reduction_arity_bits@;
    let b = bits[i as int] as nat;
    let arity = pow2(b);
    let points = Seq::new(arity, |e: int| round_point(bits, lg_n, i, (l * arity + e) as nat));
    let coeffs = round_coeffs(c, t, caps, bits, i);
    let values = Seq::new(arity, |e: int| eval_poly(coeffs, points[e]));
    let beta = round_beta(t, caps, i);
    let y = round_point(bits, lg_n, i + 1, l);
    assert(bits_sum(bits, i + 1) <= lg_n);
    lemma_round_lens(c, c, t, caps, params, lg_n, i);
    lemma_round_coeffs_wf(c, t, caps, bits, i);
    let m = (lg_n - bits_sum(bits, i + 1)) as nat;
    let len = pow2(m);
    lemma_pow2_adds(m, b);
    lemma_pow2_pos(b);
    assert(coeffs.len() == len * arity);
    assert(beta.wf()) by {
        reveal(Transcript::extension_challenge);
    }
    lemma_points_of_a_leaf(bits, lg_n, i, l, 0);
    let g = Seq::new(arity, |j: int| eval_strided(coeffs, j, arity as int, len, y));
    assert forall|e: int| 0 <= e < arity implies eval_poly(g, #[trigger] points[e]) == values[e] by {
        lemma_points_of_a_leaf(bits, lg_n, i, l, e as nat);
        lemma_poly_is_sum_of_parts(coeffs, arity, len, points[e]);
        lemma_parts_are_a_polynomial(coeffs, arity as int, len, points[e], y, arity);
    }
    lemma_fold_is_combination(coeffs, arity, len, beta, y);
    lemma_parts_are_a_polynomial(coeffs, arity as int, len, beta, y, arity);
    assert(all_wf(g) && g.len() == points.len());
    assert(eval_poly(g, beta) == eval_poly(round_coeffs(c, t, caps, bits, i + 1), y));
}

#[verifier::spinoff_prover]
#[verifier::rlimit(30)]
proof fn lemma_low_degree_rounds(
    c: Seq<Elt>,
    t: Transcript,
    caps: Seq<Seq<Elt>>,
    params: FriParams,
    lg_n: nat,
    i: nat,
)
    requires
        sizes_ok(params, lg_n),
        of_low_degree(c, lg_n, params.config.rate_bits as nat),
        i <= params.reduction_arity_bits@.len(),
    ensures
        ({
            let coeffs = round_coeffs(c, t, caps, params.reduction_arity_bits@, i);
            let left = (lg_n - bits_sum(params.reduction_arity_bits@, i)) as nat;
            let live = pow2((left - params.config.rate_bits) as nat);
            &&& bits_sum(params.reduction_arity_bits@, i) + params.config.rate_bits <= lg_n
            &&& coeffs.len() == pow2(left)
            &&& all_wf(coeffs)
            &&& coeffs.len() as int / pow2(params.config.rate_bits as nat) as int == live
            &&& live <= coeffs.len()
            &&& forall|k: int| live <= k < coeffs.len() ==> #[trigger] coeffs[k] == elt0()
        }),
{
    let bits = params.reduction_arity_bits@;
    let rate = params.config.rate_bits as nat;
    let coeffs = round_coeffs(c, t, caps, bits, i);
    lemma_round_lens(c, c, t, caps, params, lg_n, i);
    lemma_round_coeffs_wf(c, t, caps, bits, i);
    let left = (lg_n - bits_sum(bits, i)) as nat;
    if i > 0 {
        assert(rate + bits_sum(bits, i) <= lg_n);
    }
    lemma_round_sizes(left, rate);
    let live = pow2((left - rate) as nat);
    lemma_pow2_mono((left - rate) as nat, left);
    assert forall|k: int| live <= k < coeffs.len() implies #[trigger] coeffs[k] == elt0() by {
        lemma_dropped_coefficients_are_zero(c, t, caps, params, lg_n, i, k);
    }
}

/// The codeword of a round is made of the values of the polynomial that the round starts with, on
/// the coset whose shift is the first shift to the power of all arities so far.
#[verifier::spinoff_prover]
#[verifier::rlimit(30)]
pub proof fn lemma_round_codeword(
    c: Seq<Elt>,
    values: Seq<Elt>,
    t: Transcript,
    caps: Seq<Seq<Elt>>,
    params: FriParams,
    lg_n: nat,
    i: nat,
)
    requires
        sizes_ok(params, lg_n),
        of_low_degree(c, lg_n, params.config.rate_bits as nat),
        values == coset_dft(c, coset_shift_elt(), lg_n),
        i <= params.reduction_arity_bits@.len(),
    ensures
        bits_sum(params.reduction_arity_bits@, i) <= lg_n,
        round_values(
            c,
            values,
            t,
            caps,
            params.reduction_arity_bits@,
            params.config.rate_bits as nat,
            i,
        ) == coset_dft(
            round_coeffs(c, t, caps, params.reduction_arity_bits@, i),
            power(coset_shift_elt(), pow2(bits_sum(params.reduction_arity_bits@, i))),
            (lg_n - bits_sum(params.reduction_arity_bits@, i)) as nat,
        ),
{
    let bits = params.reduction_arity_bits@;
    let rate = params.config.rate_bits as nat;
    let coeffs = round_coeffs(c, t, caps, bits, i);
    let left = (lg_n - bits_sum(bits, i)) as nat;
    lemma_low_degree_rounds(c, t, caps, params, lg_n, i);
    lemma_log2(left);
    lemma_shift(bits, i);
    if i > 0 {
        assert(padded(coeffs, pow2((left - rate) as nat) as int) =~= coeffs);
    }
}

#[verifier::spinoff_prover]
#[verifier::rlimit(30)]
proof fn lemma_leaf_of_codeword(
    tree: MerkleTree<Poseidon2Hash>,
    vs: Seq<Elt>,
    b: nat,
    cap_height: nat,
    l: nat,
    e: nat,
)
    requires
        round_tree(tree, vs, b, cap_height),
        l < tree.num_leaves,
        e < pow2(b),
        bit_reversed(vs)[(l * pow2(b) + e) as int].wf(),
    ensures
        tree.leaves.leaf(l as int).len() == 2 * pow2(b),
        leaf_value(tree, l as int, e as int) == bit_reversed(vs)[(l * pow2(b) + e) as int],
{
    reveal(round_tree);
    let r = pow2(b);
    let p = l * r + e;
    let x = bit_reversed(vs)[p as int];
    let n = tree.num_leaves as int;
    assert(l * (2 * r) == 2 * (l * r)) by (nonlinear_arith);
    assert(l * r + r <= n * r) by (nonlinear_arith)
        requires
            l + 1 <= n,
    ;
    let leaf = tree.leaves.leaf(l as int);
    let co = coordinates(bit_reversed(vs));
    match tree.leaves {
        MerkleLeaves::Rows { data, width: w } => {
            assert(data@.len() == vals(data@).len());
            assert(leaf == data@.subrange(l * w, l * w + w));
            assert(leaf[2 * e as int] == data@[2 * p as int]);
            assert(leaf[2 * e as int + 1] == data@[2 * p as int + 1]);
            assert(data@[2 * p as int].v() == vals(data@)[2 * p as int]);
            assert(data@[2 * p as int + 1].v() == vals(data@)[2 * p as int + 1]);
            assert(co[2 * p as int] == base(x.re));
            assert(co[2 * p as int + 1] == base(x.im));
            lemma_reduced_self(x);
            lemma_reduced_self(reduced(x.re, x.im));
        },
        _ => {},
    }
}

proof fn lemma_round_tree_leaves(
    tree: MerkleTree<Poseidon2Hash>,
    vs: Seq<Elt>,
    b: nat,
    cap_height: nat,
)
    requires
        round_tree(tree, vs, b, cap_height),
    ensures
        tree.num_leaves * pow2(b) == vs.len(),
{
    reveal(round_tree);
}

/// Each tree of the commit phase holds the values of the polynomial that its round starts with: at
/// place `e` of leaf `l`, the value at the point that belongs to this place.
#[verifier::spinoff_prover]
#[verifier::rlimit(30)]
pub proof fn lemma_tree_values(
    c: Seq<Elt>,
    values: Seq<Elt>,
    t: Transcript,
    params: FriParams,
    trees: Seq<MerkleTree<Poseidon2Hash>>,
    last: Seq<Elt>,
    lg_n: nat,
    i: int,
    l: nat,
    e: nat,
)
    requires
        sizes_ok(params, lg_n),
        of_low_degree(c, lg_n, params.config.rate_bits as nat),
        values == coset_dft(c, coset_shift_elt(), lg_n),
        committed(c, values, t, params, trees, last),
        0 <= i < trees.len(),
        l < trees[i].num_leaves,
        e < pow2(params.reduction_arity_bits@[i] as nat),
    ensures
        trees[i].num_leaves == pow2(
            (lg_n - bits_sum(params.reduction_arity_bits@, (i + 1) as nat)) as nat,
        ),
        trees[i].leaves.leaf(l as int).len() == 2 * pow2(params.reduction_arity_bits@[i] as nat),
        leaf_value(trees[i], l as int, e as int) == eval_poly(
            round_coeffs(c, t, cap_elements(trees), params.reduction_arity_bits@, i as nat),
            round_point(
                params.reduction_arity_bits@,
                lg_n,
                i as nat,
                l * pow2(params.reduction_arity_bits@[i] as nat) + e,
            ),
        ),
{
    let bits = params.reduction_arity_bits@;
    let caps = cap_elements(trees);
    let rate = params.config.rate_bits as nat;
    let cap_height = params.config.cap_height as nat;
    let vs = round_values(c, values, t, caps, bits, rate, i as nat);
    let coeffs = round_coeffs(c, t, caps, bits, i as nat);
    lemma_committed_round(c, values, t, params, trees, last, i);
    lemma_round_codeword(c, values, t, caps, params, lg_n, i as nat);
    lemma_tree_sizes_of_rounds(c, values, t, params, trees, last, lg_n, i);
    assert(bits_sum(bits, (i + 1) as nat) <= lg_n);
    lemma_value_in_leaf(trees[i], vs, coeffs, bits, lg_n, i as nat, cap_height, l, e);
}

proof fn lemma_committed_round(
    c: Seq<Elt>,
    values: Seq<Elt>,
    t: Transcript,
    params: FriParams,
    trees: Seq<MerkleTree<Poseidon2Hash>>,
    last: Seq<Elt>,
    i: int,
)
    requires
        committed(c, values, t, params, trees, last),
        0 <= i < trees.len(),
    ensures
        trees.len() == params.reduction_arity_bits@.len(),
        round_tree(
            trees[i],
            round_values(
                c,
                values,
                t,
                cap_elements(trees),
                params.reduction_arity_bits@,
                params.config.rate_bits as nat,
                i as nat,
            ),
            params.reduction_arity_bits@[i] as nat,
            params.config.cap_height as nat,
        ),
{
}

proof fn lemma_value_in_leaf(
    tree: MerkleTree<Poseidon2Hash>,
    vs: Seq<Elt>,
    coeffs: Seq<Elt>,
    bits: Seq<usize>,
    lg_n: nat,
    i: nat,
    cap_height: nat,
    l: nat,
    e: nat,
)
    requires
        i < bits.len(),
        bits_sum(bits, i + 1) <= lg_n,
        round_tree(tree, vs, bits[i as int] as nat, cap_height),
        vs == coset_dft(
            coeffs,
            power(coset_shift_elt(), pow2(bits_sum(bits, i))),
            (lg_n - bits_sum(bits, i)) as nat,
        ),
        tree.num_leaves == pow2((lg_n - bits_sum(bits, i + 1)) as nat),
        l < tree.num_leaves,
        e < pow2(bits[i as int] as nat),
    ensures
        tree.leaves.leaf(l as int).len() == 2 * pow2(bits[i as int] as nat),
        leaf_value(tree, l as int, e as int) == eval_poly(
            coeffs,
            round_point(bits, lg_n, i, l * pow2(bits[i as int] as nat) + e),
        ),
{
    let b = bits[i as int] as nat;
    let r = pow2(b);
    let m = (lg_n - bits_sum(bits, i + 1)) as nat;
    let left = (lg_n - bits_sum(bits, i)) as nat;
    assert(left == m + b);
    lemma_pow2_adds(m, b);
    lemma_log2(left);
    let p = l * r + e;
    assert(p < pow2(left)) by (nonlinear_arith)
        requires
            p == l * r + e,
            l < pow2(m),
            e < r,
            pow2(left) == pow2(m) * r,
    ;
    lemma_rev_bound(p, left);
    let x = round_point(bits, lg_n, i, p);
    assert(bit_reversed(vs)[p as int] == vs[rev(p, left) as int]);
    assert(vs[rev(p, left) as int] == eval_poly(coeffs, x));
    lemma_eval_wf(coeffs, 0, 1, coeffs.len(), x);
    lemma_leaf_of_codeword(tree, vs, b, cap_height, l, e);
}

/// The first tree holds the values that are given, whatever they are: at place `e` of leaf `l`, the
/// value at this place in bit-reversed order.
#[verifier::spinoff_prover]
pub proof fn lemma_first_tree_values(
    c: Seq<Elt>,
    values: Seq<Elt>,
    t: Transcript,
    params: FriParams,
    trees: Seq<MerkleTree<Poseidon2Hash>>,
    last: Seq<Elt>,
    lg_n: nat,
    l: nat,
    e: nat,
)
    requires
        values.len() == pow2(lg_n),
        all_wf(values),
        committed(c, values, t, params, trees, last),
        trees.len() > 0,
        l < trees[0].num_leaves,
        e < pow2(params.reduction_arity_bits@[0] as nat),
    ensures
        trees[0].num_leaves * pow2(params.reduction_arity_bits@[0] as nat) == pow2(lg_n),
        leaf_value(trees[0], l as int, e as int) == values[rev(
            l * pow2(params.reduction_arity_bits@[0] as nat) + e,
            lg_n,
        ) as int],
{
    let b = params.reduction_arity_bits@[0] as nat;
    let r = pow2(b);
    let cap_height = params.config.cap_height as nat;
    lemma_committed_round(c, values, t, params, trees, last, 0);
    let tree = trees[0];
    assert(round_tree(tree, values, b, cap_height));
    lemma_round_tree_leaves(tree, values, b, cap_height);
    lemma_log2(lg_n);
    let p = l * r + e;
    let n = tree.num_leaves as int;
    assert(p < pow2(lg_n)) by (nonlinear_arith)
        requires
            p == l * r + e,
            l < n,
            e < r,
            pow2(lg_n) == n * r,
    ;
    lemma_rev_bound(p, lg_n);
    assert(bit_reversed(values)[p as int] == values[rev(p, lg_n) as int]);
    lemma_leaf_of_codeword(tree, values, b, cap_height, l, e);
}

/// The codeword of a later round, whatever polynomial is given: the values, on the coset of the
/// round, of the first coefficients that the round starts with, as many as the rate leaves.
#[verifier::spinoff_prover]
pub proof fn lemma_later_codeword(
    c: Seq<Elt>,
    values: Seq<Elt>,
    t: Transcript,
    caps: Seq<Seq<Elt>>,
    params: FriParams,
    lg_n: nat,
    i: nat,
    k: nat,
)
    requires
        sizes_ok(params, lg_n),
        c.len() == pow2(lg_n),
        values.len() == pow2(lg_n),
        all_wf(c),
        0 < i <= params.reduction_arity_bits@.len(),
        k < pow2((lg_n - bits_sum(params.reduction_arity_bits@, i)) as nat),
    ensures
        ({
            let bits = params.reduction_arity_bits@;
            let left = (lg_n - bits_sum(bits, i)) as nat;
            let live = pow2((left - params.config.rate_bits) as nat);
            &&& bits_sum(bits, i) + params.config.rate_bits <= lg_n
            &&& round_values(
                c,
                values,
                t,
                caps,
                bits,
                params.config.rate_bits as nat,
                i,
            )[k as int] == eval_poly(
                round_coeffs(c, t, caps, bits, i).take(live as int),
                power(coset_shift_elt(), pow2(bits_sum(bits, i))) * power(root(left), k),
            )
        }),
{
    broadcast use group_elt_wf;

    let bits = params.reduction_arity_bits@;
    let rate = params.config.rate_bits as nat;
    let left = (lg_n - bits_sum(bits, i)) as nat;
    assert(rate + bits_sum(bits, i) <= lg_n);
    let live = pow2((left - rate) as nat);
    let coeffs = round_coeffs(c, t, caps, bits, i);
    lemma_round_lens(c, values, t, caps, params, lg_n, i);
    lemma_round_coeffs_wf(c, t, caps, bits, i);
    lemma_log2(left);
    lemma_shift(bits, i);
    lemma_pow2_mono((left - rate) as nat, left);
    let x = round_shift(bits, i) * power(root(left), k);
    let short = coeffs.take(live as int);
    assert forall|j: int| 0 <= j < short.len() implies (#[trigger] short[j]).wf() by {
        assert(coeffs[j].wf());
    }
    lemma_eval_zero_tail(short, padded(coeffs, live as int), x);
}

/// The final polynomial is as long as the rate and the arities say, and at every point it has the
/// value of the polynomial that all rounds have folded.
#[verifier::spinoff_prover]
#[verifier::rlimit(30)]
pub proof fn lemma_final_polynomial(
    c: Seq<Elt>,
    values: Seq<Elt>,
    t: Transcript,
    params: FriParams,
    trees: Seq<MerkleTree<Poseidon2Hash>>,
    last: Seq<Elt>,
    lg_n: nat,
    y: Elt,
)
    requires
        sizes_ok(params, lg_n),
        of_low_degree(c, lg_n, params.config.rate_bits as nat),
        committed(c, values, t, params, trees, last),
        y.wf(),
    ensures
        ({
            let bits = params.reduction_arity_bits@;
            let sum = bits_sum(bits, bits.len());
            &&& sum + params.config.rate_bits <= lg_n
            &&& last.len() == pow2((lg_n - params.config.rate_bits - sum) as nat)
            &&& eval_poly(last, y) == eval_poly(
                round_coeffs(c, t, cap_elements(trees), bits, bits.len()),
                y,
            )
        }),
{
    let bits = params.reduction_arity_bits@;
    let caps = cap_elements(trees);
    lemma_low_degree_rounds(c, t, caps, params, lg_n, bits.len());
    let coeffs = round_coeffs(c, t, caps, bits, bits.len());
    assert forall|k: int| 0 <= k < last.len() implies (#[trigger] last[k]).wf() by {
        assert(coeffs[k].wf());
    }
    lemma_eval_zero_tail(last, coeffs, y);
    assert(lg_n - bits_sum(bits, bits.len()) - params.config.rate_bits == lg_n
        - params.config.rate_bits - bits_sum(bits, bits.len()));
}

/// What a verifier checks of each round holds of the trees: the values in leaf `l` of a round fold,
/// by the challenge of the round, to the value at place `l` of the next round's codeword, and in
/// the last round to the value of the final polynomial at the point that belongs to place `l`.
#[verifier::spinoff_prover]
#[verifier::rlimit(30)]
pub proof fn lemma_rounds_are_consistent(
    c: Seq<Elt>,
    values: Seq<Elt>,
    t: Transcript,
    params: FriParams,
    trees: Seq<MerkleTree<Poseidon2Hash>>,
    last: Seq<Elt>,
    lg_n: nat,
    i: int,
    l: nat,
)
    requires
        sizes_ok(params, lg_n),
        of_low_degree(c, lg_n, params.config.rate_bits as nat),
        values == coset_dft(c, coset_shift_elt(), lg_n),
        committed(c, values, t, params, trees, last),
        0 <= i < trees.len(),
        l < trees[i].num_leaves,
    ensures
        ({
            let bits = params.reduction_arity_bits@;
            let arity = pow2(bits[i] as nat);
            let points = Seq::new(
                arity,
                |e: int| round_point(bits, lg_n, i as nat, (l * arity + e) as nat),
            );
            let next = if i + 1 < trees.len() {
                let more = pow2(bits[i + 1] as nat) as int;
                leaf_value(trees[i + 1], l as int / more, l as int % more)
            } else {
                eval_poly(last, round_point(bits, lg_n, (i + 1) as nat, l))
            };
            folds_to(
                points,
                Seq::new(arity, |e: int| leaf_value(trees[i], l as int, e)),
                round_beta(t, cap_elements(trees), i as nat),
                next,
            )
        }),
{
    let bits = params.reduction_arity_bits@;
    let caps = cap_elements(trees);
    let arity = pow2(bits[i] as nat);
    let points = Seq::new(
        arity,
        |e: int| round_point(bits, lg_n, i as nat, (l * arity + e) as nat),
    );
    let coeffs = round_coeffs(c, t, caps, bits, i as nat);
    let found = Seq::new(arity, |e: int| leaf_value(trees[i], l as int, e));
    let expected = Seq::new(arity, |e: int| eval_poly(coeffs, points[e]));
    assert forall|e: int| 0 <= e < arity implies #[trigger] found[e] == expected[e] by {
        lemma_tree_values(c, values, t, params, trees, last, lg_n, i, l, e as nat);
    }
    assert(found =~= expected);
    lemma_round_folds(c, t, caps, params, lg_n, i as nat, l);
    lemma_tree_sizes_of_rounds(c, values, t, params, trees, last, lg_n, i);
    if i + 1 < trees.len() {
        lemma_next_value(c, values, t, params, trees, last, lg_n, i, l);
    } else {
        lemma_last_value(c, values, t, params, trees, last, lg_n, i, l);
    }
}

/// A place is a leaf and a place in that leaf.
pub proof fn lemma_place_in_leaf(l: nat, m: nat, b: nat)
    requires
        l < pow2(m + b),
    ensures
        0 <= l as int / (pow2(b) as int) < pow2(m),
        0 <= l as int % (pow2(b) as int) < pow2(b),
        (l as int / pow2(b) as int) * pow2(b) + l as int % (pow2(b) as int) == l,
{
    let more = pow2(b) as int;
    lemma_pow2_pos(b);
    let (q, e) = (l as int / more, l as int % more);
    vstd::arithmetic::div_mod::lemma_fundamental_div_mod(l as int, more);
    vstd::arithmetic::div_mod::lemma_mod_bound(l as int, more);
    vstd::arithmetic::div_mod::lemma_div_pos_is_pos(l as int, more);
    lemma_pow2_adds(m, b);
    assert(q * more + e == l) by (nonlinear_arith)
        requires
            more * q + e == l,
    ;
    assert(q < pow2(m)) by (nonlinear_arith)
        requires
            more * q + e == l,
            0 <= e,
            l < pow2(m) * more,
            more > 0,
    ;
}

#[verifier::spinoff_prover]
#[verifier::rlimit(30)]
proof fn lemma_next_value(
    c: Seq<Elt>,
    values: Seq<Elt>,
    t: Transcript,
    params: FriParams,
    trees: Seq<MerkleTree<Poseidon2Hash>>,
    last: Seq<Elt>,
    lg_n: nat,
    i: int,
    l: nat,
)
    requires
        sizes_ok(params, lg_n),
        of_low_degree(c, lg_n, params.config.rate_bits as nat),
        values == coset_dft(c, coset_shift_elt(), lg_n),
        committed(c, values, t, params, trees, last),
        0 <= i,
        i + 1 < trees.len(),
        l < pow2((lg_n - bits_sum(params.reduction_arity_bits@, (i + 1) as nat)) as nat),
    ensures
        ({
            let bits = params.reduction_arity_bits@;
            let more = pow2(bits[i + 1] as nat) as int;
            leaf_value(trees[i + 1], l as int / more, l as int % more) == eval_poly(
                round_coeffs(c, t, cap_elements(trees), bits, (i + 1) as nat),
                round_point(bits, lg_n, (i + 1) as nat, l),
            )
        }),
{
    let bits = params.reduction_arity_bits@;
    let b = bits[i + 1] as nat;
    let more = pow2(b) as int;
    let q = (l as int / more) as nat;
    let e = (l as int % more) as nat;
    let m = (lg_n - bits_sum(bits, (i + 2) as nat)) as nat;
    assert(bits_sum(bits, (i + 2) as nat) <= lg_n);
    assert(m + b == lg_n - bits_sum(bits, (i + 1) as nat));
    lemma_tree_sizes_of_rounds(c, values, t, params, trees, last, lg_n, i + 1);
    lemma_place_in_leaf(l, m, b);
    assert(q * pow2(b) + e == l);
    lemma_tree_values(c, values, t, params, trees, last, lg_n, i + 1, q, e);
}

#[verifier::spinoff_prover]
#[verifier::rlimit(30)]
proof fn lemma_last_value(
    c: Seq<Elt>,
    values: Seq<Elt>,
    t: Transcript,
    params: FriParams,
    trees: Seq<MerkleTree<Poseidon2Hash>>,
    last: Seq<Elt>,
    lg_n: nat,
    i: int,
    l: nat,
)
    requires
        sizes_ok(params, lg_n),
        of_low_degree(c, lg_n, params.config.rate_bits as nat),
        values == coset_dft(c, coset_shift_elt(), lg_n),
        committed(c, values, t, params, trees, last),
        0 <= i,
        i + 1 == trees.len(),
    ensures
        eval_poly(
            last,
            round_point(params.reduction_arity_bits@, lg_n, (i + 1) as nat, l),
        ) == eval_poly(
            round_coeffs(
                c,
                t,
                cap_elements(trees),
                params.reduction_arity_bits@,
                (i + 1) as nat,
            ),
            round_point(params.reduction_arity_bits@, lg_n, (i + 1) as nat, l),
        ),
{
    let bits = params.reduction_arity_bits@;
    let y = round_point(bits, lg_n, (i + 1) as nat, l);
    assert(bits_sum(bits, (i + 1) as nat) <= lg_n);
    assert(y.wf()) by {
        lemma_pow2_pos(bits[i] as nat);
        lemma_points_of_a_leaf(bits, lg_n, i as nat, l, 0);
    }
    lemma_final_polynomial(c, values, t, params, trees, last, lg_n, y);
}

/// The number of leaves of the tree of a round.
#[verifier::spinoff_prover]
#[verifier::rlimit(30)]
pub proof fn lemma_tree_sizes_of_rounds(
    c: Seq<Elt>,
    values: Seq<Elt>,
    t: Transcript,
    params: FriParams,
    trees: Seq<MerkleTree<Poseidon2Hash>>,
    last: Seq<Elt>,
    lg_n: nat,
    i: int,
)
    requires
        sizes_ok(params, lg_n),
        c.len() == pow2(lg_n),
        values.len() == pow2(lg_n),
        committed(c, values, t, params, trees, last),
        0 <= i < trees.len(),
    ensures
        trees[i].num_leaves == pow2(
            (lg_n - bits_sum(params.reduction_arity_bits@, (i + 1) as nat)) as nat,
        ),
{
    let bits = params.reduction_arity_bits@;
    let caps = cap_elements(trees);
    let rate = params.config.rate_bits as nat;
    let vs = round_values(c, values, t, caps, bits, rate, i as nat);
    lemma_committed_round(c, values, t, params, trees, last, i);
    lemma_round_lens(c, values, t, caps, params, lg_n, i as nat);
    assert(bits_sum(bits, (i + 1) as nat) <= lg_n);
    lemma_leaves_of_round(trees[i], vs, bits, lg_n, i as nat, params.config.cap_height as nat);
}

proof fn lemma_leaves_of_round(
    tree: MerkleTree<Poseidon2Hash>,
    vs: Seq<Elt>,
    bits: Seq<usize>,
    lg_n: nat,
    i: nat,
    cap_height: nat,
)
    requires
        i < bits.len(),
        bits_sum(bits, i + 1) <= lg_n,
        round_tree(tree, vs, bits[i as int] as nat, cap_height),
        vs.len() == pow2((lg_n - bits_sum(bits, i)) as nat),
    ensures
        tree.num_leaves == pow2((lg_n - bits_sum(bits, i + 1)) as nat),
{
    let b = bits[i as int] as nat;
    let r = pow2(b);
    let m = (lg_n - bits_sum(bits, i + 1)) as nat;
    lemma_round_tree_leaves(tree, vs, b, cap_height);
    assert((lg_n - bits_sum(bits, i)) as nat == m + b);
    lemma_pow2_adds(m, b);
    lemma_pow2_pos(b);
    assert(tree.num_leaves == pow2(m)) by (nonlinear_arith)
        requires
            tree.num_leaves * r == pow2(m) * r,
            r > 0,
    ;
}

/// A verifier that replays the transcript gets the challenges that the rounds have folded by: it
/// observes the digests of each cap in turn, and draws one challenge after each.
pub proof fn lemma_challenges_replayed(
    start: Transcript,
    trees: Seq<MerkleTree<Poseidon2Hash>>,
    replay: Seq<Transcript>,
    observed_caps: Seq<Seq<Elt>>,
    i: int,
)
    requires
        replay.len() == trees.len() + 1,
        replay[0] == start,
        observed_caps.len() == trees.len(),
        forall|k: int|
            0 <= k < trees.len() ==> (#[trigger] observed_caps[k]).len() == 4
                * trees[k].cap.0@.len(),
        forall|k: int, j: int|
            0 <= k < trees.len() && 0 <= j < 4 * trees[k].cap.0@.len()
                ==> #[trigger] observed_caps[k][j] == trees[k].cap.0@[j / 4].digest()[j % 4],
        forall|k: int|
            0 <= k < trees.len() ==> #[trigger] replay[k + 1] == replay[k].observed_all(
                observed_caps[k],
            ).extension_drawn(),
        0 <= i <= trees.len(),
    ensures
        round_transcript(start, cap_elements(trees), i as nat) == replay[i],
        i < trees.len() ==> round_beta(start, cap_elements(trees), i as nat)
            == replay[i].observed_all(observed_caps[i]).extension_challenge(),
    decreases i,
{
    let caps = cap_elements(trees);
    assert forall|k: int| 0 <= k < trees.len() implies #[trigger] caps[k] == observed_caps[k] by {
        let cap = trees[k].cap.0@;
        let n = cap.len();
        if n > 0 {
            lemma_cap_elements_in_order(cap, n, 0, 0);
        }
        assert(observed_caps[k].len() == 4 * n);
        assert forall|j: int| 0 <= j < 4 * n implies #[trigger] caps[k][j] == observed_caps[k][j] by {
            lemma_cap_elements_in_order(cap, n, j / 4, j % 4);
        }
        assert(caps[k] =~= observed_caps[k]);
    }
    if i > 0 {
        lemma_challenges_replayed(start, trees, replay, observed_caps, i - 1);
        assert(replay[(i - 1) + 1] == replay[i - 1].observed_all(
            observed_caps[i - 1],
        ).extension_drawn());
        assert(caps[i - 1] == observed_caps[i - 1]);
    }
    if i < trees.len() {
        assert(caps[i] == observed_caps[i]);
    }
}

} // verus!
