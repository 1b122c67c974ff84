//! The permutation is one: no two states of prime-field elements are permuted to the same state.

use crate::field::fermat::lemma_fermat;
use crate::field::model::{
    Elt, base, lemma_add_sub_cancel, lemma_reduced_add, lemma_reduced_mul, lemma_reduced_self,
    modulus,
};
use crate::field::prime::lemma_power_base;
use crate::field::roots::{
    lemma_power_add, lemma_power_mul, lemma_power_small, lemma_power_wf, power,
};
use crate::hash::poseidon2::config::{EXTERNAL_CONSTANTS, INTERNAL_CONSTANTS, MATRIX_DIAG_12_U64};
use crate::hash::poseidon2::layers::{
    add_constants, external_layer, internal_layer, mix_four, sbox, sbox_layer, sum_to,
};
use crate::hash::poseidon2::permutation::{
    external_round, external_rounds, internal_round, internal_rounds, permutation,
};
use vstd::prelude::*;

verus! {

/// A state of twelve elements of the prime field.
pub open spec fn base_state(s: Seq<Elt>) -> bool {
    &&& s.len() == 12
    &&& forall|i: int| 0 <= i < 12 ==> (#[trigger] s[i]).wf() && s[i].im == 0
}

/// A multiple of the modulus.
spec fn vanishes(x: int) -> bool {
    x % modulus() == 0
}

proof fn lemma_vanishes_add(x: int, y: int)
    requires
        vanishes(x),
        vanishes(y),
    ensures
        vanishes(x + y),
        vanishes(x - y),
{
    vstd::arithmetic::div_mod::lemma_add_mod_noop(x, y, modulus());
    vstd::arithmetic::div_mod::lemma_sub_mod_noop(x, y, modulus());
}

proof fn lemma_vanishes_scale(k: int, x: int)
    requires
        vanishes(x),
    ensures
        vanishes(k * x),
{
    vstd::arithmetic::div_mod::lemma_mul_mod_noop_right(k, x, modulus());
    assert(k * 0 == 0);
}

proof fn lemma_vanishes_multiple(k: int)
    ensures
        vanishes(k * modulus()),
{
    vstd::arithmetic::div_mod::lemma_mod_multiples_basic(k, modulus());
}

/// A factor with an inverse can be left out.
proof fn lemma_vanishes_cancel(k: int, inverse: int, c: int, x: int)
    requires
        k * inverse == 1 + c * modulus(),
        vanishes(k * x),
    ensures
        vanishes(x),
{
    let p = modulus();
    lemma_vanishes_scale(inverse, k * x);
    lemma_vanishes_multiple(c * x);
    assert(inverse * (k * x) - (c * x) * p == x) by (nonlinear_arith)
        requires
            k * inverse == 1 + c * p,
    ;
    lemma_vanishes_add(inverse * (k * x), (c * x) * p);
}

/// Two residues whose difference is a multiple of the modulus are equal.
proof fn lemma_vanishing_difference(x: int, y: int)
    requires
        0 <= x < modulus(),
        0 <= y < modulus(),
        vanishes(x - y),
    ensures
        x == y,
{
    let p = modulus();
    vstd::arithmetic::div_mod::lemma_fundamental_div_mod(x - y, p);
    let q = (x - y) / p;
    assert(q == 0) by (nonlinear_arith)
        requires
            x - y == p * q,
            -p < x - y < p,
            p > 0,
    ;
    assert(p * 0 == 0);
}

/// Elements with equal residues have representatives that differ by a multiple of the modulus.
proof fn lemma_equal_residues(x: int, y: int)
    requires
        base(x) == base(y),
    ensures
        vanishes(x - y),
{
    let p = modulus();
    assert(x % p == y % p);
    vstd::arithmetic::div_mod::lemma_sub_mod_noop(x, y, p);
}

/// The combination of a block of four, before it is reduced.
spec fn mixed(a: int, b: int, c: int, d: int, k: int) -> int {
    if k == 0 {
        2 * a + 3 * b + c + d
    } else if k == 1 {
        a + 2 * b + 3 * c + d
    } else if k == 2 {
        a + b + 2 * c + 3 * d
    } else {
        3 * a + b + c + 2 * d
    }
}

/// Entry `i` of the mixed blocks of a state, before it is reduced.
spec fn mixed_at(s: Seq<Elt>, i: int) -> int {
    let b = i - i % 4;
    mixed(s[b].re, s[b + 1].re, s[b + 2].re, s[b + 3].re, i % 4)
}

proof fn lemma_external_entry(s: Seq<Elt>, i: int)
    requires
        base_state(s),
        0 <= i < 12,
    ensures
        external_layer(s)[i] == base(
            mixed_at(s, i) + (mixed_at(s, i % 4) + mixed_at(s, i % 4 + 4) + mixed_at(s, i % 4 + 8)),
        ),
{
    let k = i % 4;
    lemma_mixed_entry(s, i);
    lemma_mixed_entry(s, k);
    lemma_mixed_entry(s, k + 4);
    lemma_mixed_entry(s, k + 8);
    let (x, y, z) = (mixed_at(s, k), mixed_at(s, k + 4), mixed_at(s, k + 8));
    lemma_reduced_add(x, 0, y, 0);
    lemma_reduced_add(x + y, 0, z, 0);
    lemma_reduced_add(mixed_at(s, i), 0, x + y + z, 0);
}

proof fn lemma_mixed_entry(s: Seq<Elt>, i: int)
    requires
        base_state(s),
        0 <= i < 12,
    ensures
        mix_four(s, i) == base(mixed_at(s, i)),
{
    let b = i - i % 4;
    assert(0 <= b && b + 3 < 12);
    assert(s[b].im == 0 && s[b + 1].im == 0 && s[b + 2].im == 0 && s[b + 3].im == 0);
}

/// What the matrix on blocks of four does can be undone.
proof fn lemma_block_injective(a: int, b: int, c: int, d: int)
    requires
        vanishes(mixed(a, b, c, d, 0)),
        vanishes(mixed(a, b, c, d, 1)),
        vanishes(mixed(a, b, c, d, 2)),
        vanishes(mixed(a, b, c, d, 3)),
    ensures
        vanishes(a),
        vanishes(b),
        vanishes(c),
        vanishes(d),
{
    let (n0, n1, n2, n3) = (
        mixed(a, b, c, d, 0),
        mixed(a, b, c, d, 1),
        mixed(a, b, c, d, 2),
        mixed(a, b, c, d, 3),
    );
    lemma_four_vanish(4, n0, -3, n1, 11, n2, -17, n3);
    assert(4 * n0 + (-3) * n1 + (11) * n2 + (-17) * n3 == (-35) * a);
    lemma_vanishes_cancel(-35, 3162298983328214455, -6, a);
    lemma_four_vanish(-17, n0, 4, n1, -3, n2, 11, n3);
    assert(-17 * n0 + (4) * n1 + (-3) * n2 + (11) * n3 == (-35) * b);
    lemma_vanishes_cancel(-35, 3162298983328214455, -6, b);
    lemma_four_vanish(11, n0, -17, n1, 4, n2, -3, n3);
    assert(11 * n0 + (-17) * n1 + (4) * n2 + (-3) * n3 == (-35) * c);
    lemma_vanishes_cancel(-35, 3162298983328214455, -6, c);
    lemma_four_vanish(-3, n0, 11, n1, -17, n2, 4, n3);
    assert(-3 * n0 + (11) * n1 + (-17) * n2 + (4) * n3 == (-35) * d);
    lemma_vanishes_cancel(-35, 3162298983328214455, -6, d);
}

proof fn lemma_four_vanish(
    k0: int,
    x0: int,
    k1: int,
    x1: int,
    k2: int,
    x2: int,
    k3: int,
    x3: int,
)
    requires
        vanishes(x0),
        vanishes(x1),
        vanishes(x2),
        vanishes(x3),
    ensures
        vanishes(k0 * x0 + k1 * x1 + k2 * x2 + k3 * x3),
{
    lemma_vanishes_scale(k0, x0);
    lemma_vanishes_scale(k1, x1);
    lemma_vanishes_scale(k2, x2);
    lemma_vanishes_scale(k3, x3);
    lemma_vanishes_add(k0 * x0, k1 * x1);
    lemma_vanishes_add(k0 * x0 + k1 * x1, k2 * x2);
    lemma_vanishes_add(k0 * x0 + k1 * x1 + k2 * x2, k3 * x3);
}

/// What two states differ by at entry `i` of their mixed blocks, before it is reduced.
spec fn mixed_diff(a: Seq<Elt>, b: Seq<Elt>, i: int) -> int {
    mixed_at(a, i) - mixed_at(b, i)
}

/// What two states differ by in the sum of the blocks at place `k`.
spec fn sum_diff(a: Seq<Elt>, b: Seq<Elt>, k: int) -> int {
    mixed_diff(a, b, k) + mixed_diff(a, b, k + 4) + mixed_diff(a, b, k + 8)
}

proof fn lemma_entry_diff(a: Seq<Elt>, b: Seq<Elt>, i: int)
    requires
        base_state(a),
        base_state(b),
        external_layer(a)[i] == external_layer(b)[i],
        0 <= i < 12,
    ensures
        vanishes(mixed_diff(a, b, i) + sum_diff(a, b, i % 4)),
{
    let k = i % 4;
    lemma_external_entry(a, i);
    lemma_external_entry(b, i);
    let (x, y) = (
        mixed_at(a, i) + (mixed_at(a, k) + mixed_at(a, k + 4) + mixed_at(a, k + 8)),
        mixed_at(b, i) + (mixed_at(b, k) + mixed_at(b, k + 4) + mixed_at(b, k + 8)),
    );
    lemma_equal_residues(x, y);
    assert(x - y == mixed_diff(a, b, i) + sum_diff(a, b, k));
}

proof fn lemma_sum_diff(a: Seq<Elt>, b: Seq<Elt>, k: int)
    requires
        base_state(a),
        base_state(b),
        external_layer(a) == external_layer(b),
        0 <= k < 4,
    ensures
        vanishes(sum_diff(a, b, k)),
{
    lemma_entry_diff(a, b, k);
    lemma_entry_diff(a, b, k + 4);
    lemma_entry_diff(a, b, k + 8);
    assert(k % 4 == k && (k + 4) % 4 == k && (k + 8) % 4 == k);
    let t = sum_diff(a, b, k);
    let (x, y, z) = (mixed_diff(a, b, k), mixed_diff(a, b, k + 4), mixed_diff(a, b, k + 8));
    lemma_vanishes_add(x + t, y + t);
    lemma_vanishes_add(x + t + (y + t), z + t);
    assert(x + t + (y + t) + (z + t) == 4 * t);
    lemma_vanishes_cancel(4, 13835058052060938241, 3, t);
}

proof fn lemma_mixed_diff(a: Seq<Elt>, b: Seq<Elt>, i: int)
    requires
        base_state(a),
        base_state(b),
        external_layer(a) == external_layer(b),
        0 <= i < 12,
    ensures
        vanishes(mixed_diff(a, b, i)),
{
    lemma_entry_diff(a, b, i);
    lemma_sum_diff(a, b, i % 4);
    let t = sum_diff(a, b, i % 4);
    lemma_vanishes_add(mixed_diff(a, b, i) + t, t);
}

/// The external linear layer keeps states apart.
pub proof fn lemma_external_layer_injective(a: Seq<Elt>, b: Seq<Elt>)
    requires
        base_state(a),
        base_state(b),
        external_layer(a) == external_layer(b),
    ensures
        a == b,
{
    lemma_block_equal(a, b, 0);
    lemma_block_equal(a, b, 4);
    lemma_block_equal(a, b, 8);
    assert forall|i: int| 0 <= i < 12 implies #[trigger] a[i] == b[i] by {
        assert(a[i].im == 0 && b[i].im == 0);
    }
    assert(a =~= b);
}

proof fn lemma_block_equal(a: Seq<Elt>, b: Seq<Elt>, k: int)
    requires
        base_state(a),
        base_state(b),
        external_layer(a) == external_layer(b),
        k == 0 || k == 4 || k == 8,
    ensures
        a[k].re == b[k].re,
        a[k + 1].re == b[k + 1].re,
        a[k + 2].re == b[k + 2].re,
        a[k + 3].re == b[k + 3].re,
{
    let (d0, d1, d2, d3) = (
        a[k].re - b[k].re,
        a[k + 1].re - b[k + 1].re,
        a[k + 2].re - b[k + 2].re,
        a[k + 3].re - b[k + 3].re,
    );
    lemma_mixed_diff(a, b, k);
    lemma_mixed_diff(a, b, k + 1);
    lemma_mixed_diff(a, b, k + 2);
    lemma_mixed_diff(a, b, k + 3);
    assert(mixed_diff(a, b, k) == mixed(d0, d1, d2, d3, 0));
    assert(mixed_diff(a, b, k + 1) == mixed(d0, d1, d2, d3, 1));
    assert(mixed_diff(a, b, k + 2) == mixed(d0, d1, d2, d3, 2));
    assert(mixed_diff(a, b, k + 3) == mixed(d0, d1, d2, d3, 3));
    lemma_block_injective(d0, d1, d2, d3);
    assert(a[k].wf() && a[k + 1].wf() && a[k + 2].wf() && a[k + 3].wf());
    assert(b[k].wf() && b[k + 1].wf() && b[k + 2].wf() && b[k + 3].wf());
    lemma_vanishing_difference(a[k].re, b[k].re);
    lemma_vanishing_difference(a[k + 1].re, b[k + 1].re);
    lemma_vanishing_difference(a[k + 2].re, b[k + 2].re);
    lemma_vanishing_difference(a[k + 3].re, b[k + 3].re);
}

/// The sum of the first `n` entries, before it is reduced.
spec fn entries_sum(s: Seq<Elt>, n: nat) -> int
    decreases n,
{
    if n == 0 {
        0
    } else {
        entries_sum(s, (n - 1) as nat) + s[n - 1].re
    }
}

proof fn lemma_entries_sum(s: Seq<Elt>, n: nat)
    requires
        base_state(s),
        n <= 12,
    ensures
        sum_to(s, n) == base(entries_sum(s, n)),
    decreases n,
{
    if n > 0 {
        lemma_entries_sum(s, (n - 1) as nat);
        let x = s[n - 1];
        lemma_reduced_self(x);
        lemma_reduced_add(entries_sum(s, (n - 1) as nat), 0, x.re, 0);
    }
}

proof fn lemma_internal_entry(s: Seq<Elt>, i: int)
    requires
        base_state(s),
        0 <= i < 12,
    ensures
        internal_layer(s)[i] == base(entries_sum(s, 12) + s[i].re * MATRIX_DIAG_12_U64[i]),
{
    lemma_entries_sum(s, 12);
    let x = s[i];
    let g = MATRIX_DIAG_12_U64[i] as int;
    lemma_reduced_self(x);
    lemma_reduced_mul(x.re, 0, g, 0);
    assert(0 * g == 0 && x.re * 0 == 0);
    lemma_reduced_add(entries_sum(s, 12), 0, x.re * g, 0);
}

/// One row of the internal linear layer: with the inverse of its diagonal entry.
proof fn lemma_internal_row(sum: int, d: int, g: int, inverse: int, c: int)
    requires
        vanishes(sum + d * g),
        g * inverse == 1 + c * modulus(),
    ensures
        vanishes(sum * inverse + d),
{
    let p = modulus();
    lemma_vanishes_scale(inverse, sum + d * g);
    lemma_vanishes_multiple(c * d);
    assert(inverse * (sum + d * g) - (c * d) * p == sum * inverse + d) by (nonlinear_arith)
        requires
            g * inverse == 1 + c * p,
    ;
    lemma_vanishes_add(inverse * (sum + d * g), (c * d) * p);
}

/// The internal linear layer keeps states apart.
pub proof fn lemma_internal_layer_injective(a: Seq<Elt>, b: Seq<Elt>)
    requires
        base_state(a),
        base_state(b),
        internal_layer(a) == internal_layer(b),
    ensures
        a == b,
{
    let d = |i: int| a[i].re - b[i].re;
    let sum = entries_sum(a, 12) - entries_sum(b, 12);
    assert forall|i: int| 0 <= i < 12 implies vanishes(
        sum + #[trigger] d(i) * MATRIX_DIAG_12_U64[i],
    ) by {
        let g = MATRIX_DIAG_12_U64[i] as int;
        lemma_internal_entry(a, i);
        lemma_internal_entry(b, i);
        lemma_equal_residues(
            entries_sum(a, 12) + a[i].re * g,
            entries_sum(b, 12) + b[i].re * g,
        );
        assert(a[i].re * g - b[i].re * g == (a[i].re - b[i].re) * g) by (nonlinear_arith);
    }
    assert(sum == d(0) + d(1) + d(2) + d(3) + d(4) + d(5) + d(6) + d(7) + d(8) + d(9) + d(10) + d(
        11,
    )) by {
        reveal_with_fuel(entries_sum, 13);
    }
    lemma_internal_sum(sum, d);
    assert forall|i: int| 0 <= i < 12 implies #[trigger] a[i] == b[i] by {
        assert(vanishes(d(i)));
        assert(a[i].wf() && b[i].wf() && a[i].im == 0 && b[i].im == 0);
        lemma_vanishing_difference(a[i].re, b[i].re);
    }
    assert(a =~= b);
}

proof fn lemma_internal_sum(sum: int, d: spec_fn(int) -> int)
    requires
        forall|i: int| 0 <= i < 12 ==> vanishes(sum + #[trigger] d(i) * MATRIX_DIAG_12_U64[i]),
        sum == d(0) + d(1) + d(2) + d(3) + d(4) + d(5) + d(6) + d(7) + d(8) + d(9) + d(10) + d(11),
    ensures
        forall|i: int| 0 <= i < 12 ==> vanishes(#[trigger] d(i)),
{
    let s = sum;
    let x0 = s * 13806053890864727292 + d(0);
    assert(vanishes(s + d(0) * MATRIX_DIAG_12_U64[0]));
    lemma_internal_row(s, d(0), MATRIX_DIAG_12_U64[0] as int, 13806053890864727292, 10554829356158727167);
    let x1 = s * 16039304555552744694 + d(1);
    assert(vanishes(s + d(1) * MATRIX_DIAG_12_U64[1]));
    lemma_internal_row(s, d(1), MATRIX_DIAG_12_U64[1] as int, 16039304555552744694, 13551608530064978147);
    let x2 = s * 18000805539296046064 + d(2);
    assert(vanishes(s + d(2) * MATRIX_DIAG_12_U64[2]));
    lemma_internal_row(s, d(2), MATRIX_DIAG_12_U64[2] as int, 18000805539296046064, 917458582526381839);
    let x3 = s * 1120712292707969966 + d(3);
    assert(vanishes(s + d(3) * MATRIX_DIAG_12_U64[3]));
    lemma_internal_row(s, d(3), MATRIX_DIAG_12_U64[3] as int, 1120712292707969966, 531438136348041825);
    let x4 = s * 18151938884699337764 + d(4);
    assert(vanishes(s + d(4) * MATRIX_DIAG_12_U64[4]));
    lemma_internal_row(s, d(4), MATRIX_DIAG_12_U64[4] as int, 18151938884699337764, 6642756716116592267);
    let x5 = s * 16223473244271871235 + d(5);
    assert(vanishes(s + d(5) * MATRIX_DIAG_12_U64[5]));
    lemma_internal_row(s, d(5), MATRIX_DIAG_12_U64[5] as int, 16223473244271871235, 6544181017771420164);
    let x6 = s * 7784472447174841387 + d(6);
    assert(vanishes(s + d(6) * MATRIX_DIAG_12_U64[6]));
    lemma_internal_row(s, d(6), MATRIX_DIAG_12_U64[6] as int, 7784472447174841387, 2589525319219624911);
    let x7 = s * 11935060317972544447 + d(7);
    assert(vanishes(s + d(7) * MATRIX_DIAG_12_U64[7]));
    lemma_internal_row(s, d(7), MATRIX_DIAG_12_U64[7] as int, 11935060317972544447, 8031595585309129396);
    let x8 = s * 12400051796508006841 + d(8);
    assert(vanishes(s + d(8) * MATRIX_DIAG_12_U64[8]));
    lemma_internal_row(s, d(8), MATRIX_DIAG_12_U64[8] as int, 12400051796508006841, 7848324999041205708);
    let x9 = s * 5848187894058753806 + d(9);
    assert(vanishes(s + d(9) * MATRIX_DIAG_12_U64[9]));
    lemma_internal_row(s, d(9), MATRIX_DIAG_12_U64[9] as int, 5848187894058753806, 5573578777917434755);
    let x10 = s * 1664410347336977730 + d(10);
    assert(vanishes(s + d(10) * MATRIX_DIAG_12_U64[10]));
    lemma_internal_row(s, d(10), MATRIX_DIAG_12_U64[10] as int, 1664410347336977730, 80547089074378949);
    let x11 = s * 1496632066239311320 + d(11);
    assert(vanishes(s + d(11) * MATRIX_DIAG_12_U64[11]));
    lemma_internal_row(s, d(11), MATRIX_DIAG_12_U64[11] as int, 1496632066239311320, 1230577309494278399);
    lemma_vanishes_add(x0, x1);
    lemma_vanishes_add(x0 + x1, x2);
    lemma_vanishes_add(x0 + x1 + x2, x3);
    lemma_vanishes_add(x0 + x1 + x2 + x3, x4);
    lemma_vanishes_add(x0 + x1 + x2 + x3 + x4, x5);
    lemma_vanishes_add(x0 + x1 + x2 + x3 + x4 + x5, x6);
    lemma_vanishes_add(x0 + x1 + x2 + x3 + x4 + x5 + x6, x7);
    lemma_vanishes_add(x0 + x1 + x2 + x3 + x4 + x5 + x6 + x7, x8);
    lemma_vanishes_add(x0 + x1 + x2 + x3 + x4 + x5 + x6 + x7 + x8, x9);
    lemma_vanishes_add(x0 + x1 + x2 + x3 + x4 + x5 + x6 + x7 + x8 + x9, x10);
    lemma_vanishes_add(x0 + x1 + x2 + x3 + x4 + x5 + x6 + x7 + x8 + x9 + x10, x11);
    assert(124471103276683132547 * s == x0 + x1 + x2 + x3 + x4 + x5 + x6 + x7 + x8 + x9 + x10 + x11);
    lemma_vanishes_cancel(124471103276683132547, 12305863381627227842, 83034945685777369413, s);
    assert forall|i: int| 0 <= i < 12 implies vanishes(#[trigger] d(i)) by {
        if i == 0 {
            lemma_vanishes_scale(13806053890864727292, s);
            lemma_vanishes_add(x0, 13806053890864727292 * s);
        }
        if i == 1 {
            lemma_vanishes_scale(16039304555552744694, s);
            lemma_vanishes_add(x1, 16039304555552744694 * s);
        }
        if i == 2 {
            lemma_vanishes_scale(18000805539296046064, s);
            lemma_vanishes_add(x2, 18000805539296046064 * s);
        }
        if i == 3 {
            lemma_vanishes_scale(1120712292707969966, s);
            lemma_vanishes_add(x3, 1120712292707969966 * s);
        }
        if i == 4 {
            lemma_vanishes_scale(18151938884699337764, s);
            lemma_vanishes_add(x4, 18151938884699337764 * s);
        }
        if i == 5 {
            lemma_vanishes_scale(16223473244271871235, s);
            lemma_vanishes_add(x5, 16223473244271871235 * s);
        }
        if i == 6 {
            lemma_vanishes_scale(7784472447174841387, s);
            lemma_vanishes_add(x6, 7784472447174841387 * s);
        }
        if i == 7 {
            lemma_vanishes_scale(11935060317972544447, s);
            lemma_vanishes_add(x7, 11935060317972544447 * s);
        }
        if i == 8 {
            lemma_vanishes_scale(12400051796508006841, s);
            lemma_vanishes_add(x8, 12400051796508006841 * s);
        }
        if i == 9 {
            lemma_vanishes_scale(5848187894058753806, s);
            lemma_vanishes_add(x9, 5848187894058753806 * s);
        }
        if i == 10 {
            lemma_vanishes_scale(1664410347336977730, s);
            lemma_vanishes_add(x10, 1664410347336977730 * s);
        }
        if i == 11 {
            lemma_vanishes_scale(1496632066239311320, s);
            lemma_vanishes_add(x11, 1496632066239311320 * s);
        }
    }
}

proof fn lemma_fermat_power(x: Elt, k: nat)
    requires
        x.wf(),
        x.im == 0,
    ensures
        power(x, 1 + k * ((modulus() - 1) as nat)) == x,
    decreases k,
{
    let q = (modulus() - 1) as nat;
    if k == 0 {
        lemma_power_small(x);
        assert(0 * q == 0);
    } else {
        let m = (k - 1) as nat;
        lemma_fermat_power(x, m);
        lemma_fermat(x.re);
        lemma_power_base(x.re, modulus() as nat);
        lemma_reduced_self(x);
        assert(power(x, modulus() as nat) == x);
        lemma_power_add(x, m * q, modulus() as nat);
        lemma_power_add(x, m * q, 1);
        lemma_power_small(x);
        assert(1 + k * q == m * q + (q + 1)) by (nonlinear_arith)
            requires
                k == m + 1,
        ;
        assert((q + 1) as nat == modulus() as nat);
    }
}

/// The substitution keeps elements of the prime field apart.
pub proof fn lemma_sbox_injective(x: Elt, y: Elt)
    requires
        x.wf(),
        y.wf(),
        x.im == 0,
        y.im == 0,
        sbox(x) == sbox(y),
    ensures
        x == y,
{
    let d: nat = 10540996611094048183;
    lemma_power_mul(x, 7, d);
    lemma_power_mul(y, 7, d);
    lemma_fermat_power(x, 4);
    lemma_fermat_power(y, 4);
    assert(7 * d == 1 + 4 * ((modulus() - 1) as nat));
}

proof fn lemma_base_power(x: Elt, n: nat)
    requires
        x.wf(),
        x.im == 0,
    ensures
        power(x, n).wf(),
        power(x, n).im == 0,
{
    lemma_reduced_self(x);
    lemma_power_base(x.re, n);
    lemma_power_wf(x, n);
}

proof fn lemma_layers_keep_base(s: Seq<Elt>)
    requires
        base_state(s),
    ensures
        base_state(external_layer(s)),
        base_state(internal_layer(s)),
        base_state(sbox_layer(s)),
{
    assert forall|i: int| 0 <= i < 12 implies (#[trigger] external_layer(s)[i]).wf()
        && external_layer(s)[i].im == 0 by {
        lemma_external_entry(s, i);
    }
    assert forall|i: int| 0 <= i < 12 implies (#[trigger] internal_layer(s)[i]).wf()
        && internal_layer(s)[i].im == 0 by {
        lemma_internal_entry(s, i);
    }
    assert forall|i: int| 0 <= i < 12 implies (#[trigger] sbox_layer(s)[i]).wf()
        && sbox_layer(s)[i].im == 0 by {
        assert(s[i].wf() && s[i].im == 0);
        lemma_base_power(s[i], 7);
    }
}

proof fn lemma_base_add(x: Elt, c: int)
    requires
        x.wf(),
        x.im == 0,
    ensures
        (x + base(c)).wf(),
        (x + base(c)).im == 0,
{
    lemma_reduced_self(x);
    lemma_reduced_add(x.re, 0, c, 0);
}

proof fn lemma_add_injective(x: Elt, y: Elt, c: int)
    requires
        x.wf(),
        y.wf(),
        x + base(c) == y + base(c),
    ensures
        x == y,
{
    lemma_add_sub_cancel(x, base(c));
    lemma_add_sub_cancel(y, base(c));
}

/// An external round keeps states apart.
proof fn lemma_external_round_injective(a: Seq<Elt>, b: Seq<Elt>, r: int)
    requires
        base_state(a),
        base_state(b),
        0 <= r < 8,
    ensures
        base_state(external_round(a, r)),
        base_state(external_round(b, r)),
        external_round(a, r) == external_round(b, r) ==> a == b,
{
    let (x, y) = (add_constants(a, r), add_constants(b, r));
    assert forall|i: int| 0 <= i < 12 implies (#[trigger] x[i]).wf() && x[i].im == 0 by {
        assert(a[i].wf() && a[i].im == 0);
        lemma_base_add(a[i], EXTERNAL_CONSTANTS[r][i] as int);
    }
    assert forall|i: int| 0 <= i < 12 implies (#[trigger] y[i]).wf() && y[i].im == 0 by {
        assert(b[i].wf() && b[i].im == 0);
        lemma_base_add(b[i], EXTERNAL_CONSTANTS[r][i] as int);
    }
    lemma_layers_keep_base(x);
    lemma_layers_keep_base(y);
    lemma_layers_keep_base(sbox_layer(x));
    lemma_layers_keep_base(sbox_layer(y));
    if external_round(a, r) == external_round(b, r) {
        lemma_external_layer_injective(sbox_layer(x), sbox_layer(y));
        assert forall|i: int| 0 <= i < 12 implies #[trigger] a[i] == b[i] by {
            assert(x[i].wf() && y[i].wf() && x[i].im == 0 && y[i].im == 0);
            assert(sbox_layer(x)[i] == sbox_layer(y)[i]);
            lemma_sbox_injective(x[i], y[i]);
            assert(a[i].wf() && b[i].wf());
            lemma_add_injective(a[i], b[i], EXTERNAL_CONSTANTS[r][i] as int);
        }
        assert(a =~= b);
    }
}

/// An internal round keeps states apart.
proof fn lemma_internal_round_injective(a: Seq<Elt>, b: Seq<Elt>, r: int)
    requires
        base_state(a),
        base_state(b),
        0 <= r < 22,
    ensures
        base_state(internal_round(a, r)),
        base_state(internal_round(b, r)),
        internal_round(a, r) == internal_round(b, r) ==> a == b,
{
    let c = INTERNAL_CONSTANTS[r] as int;
    assert(a[0].wf() && a[0].im == 0 && b[0].wf() && b[0].im == 0);
    let (u, v) = (a[0] + base(c), b[0] + base(c));
    lemma_base_add(a[0], c);
    lemma_base_add(b[0], c);
    lemma_base_power(u, 7);
    lemma_base_power(v, 7);
    let (x, y) = (a.update(0, sbox(u)), b.update(0, sbox(v)));
    assert forall|i: int| 0 <= i < 12 implies (#[trigger] x[i]).wf() && x[i].im == 0 by {
        assert(a[i].wf() && a[i].im == 0);
    }
    assert forall|i: int| 0 <= i < 12 implies (#[trigger] y[i]).wf() && y[i].im == 0 by {
        assert(b[i].wf() && b[i].im == 0);
    }
    lemma_layers_keep_base(x);
    lemma_layers_keep_base(y);
    if internal_round(a, r) == internal_round(b, r) {
        lemma_internal_layer_injective(x, y);
        assert(x[0] == y[0]);
        lemma_sbox_injective(u, v);
        lemma_add_injective(a[0], b[0], c);
        assert forall|i: int| 0 <= i < 12 implies #[trigger] a[i] == b[i] by {
            if i > 0 {
                assert(x[i] == a[i] && y[i] == b[i]);
            }
        }
        assert(a =~= b);
    }
}

proof fn lemma_external_rounds_injective(a: Seq<Elt>, b: Seq<Elt>, from: nat, to: nat)
    requires
        base_state(a),
        base_state(b),
        to <= 8,
    ensures
        base_state(external_rounds(a, from, to)),
        base_state(external_rounds(b, from, to)),
        external_rounds(a, from, to) == external_rounds(b, from, to) ==> a == b,
    decreases to,
{
    if to > from {
        let m = (to - 1) as nat;
        lemma_external_rounds_injective(a, b, from, m);
        lemma_external_round_injective(
            external_rounds(a, from, m),
            external_rounds(b, from, m),
            m as int,
        );
    }
}

proof fn lemma_internal_rounds_injective(a: Seq<Elt>, b: Seq<Elt>, n: nat)
    requires
        base_state(a),
        base_state(b),
        n <= 22,
    ensures
        base_state(internal_rounds(a, n)),
        base_state(internal_rounds(b, n)),
        internal_rounds(a, n) == internal_rounds(b, n) ==> a == b,
    decreases n,
{
    if n > 0 {
        let m = (n - 1) as nat;
        lemma_internal_rounds_injective(a, b, m);
        lemma_internal_round_injective(internal_rounds(a, m), internal_rounds(b, m), m as int);
    }
}

/// The permutation maps states of the prime field to such states, and no two of them to the same
/// one.
pub proof fn lemma_permutation_injective(a: Seq<Elt>, b: Seq<Elt>)
    requires
        base_state(a),
        base_state(b),
    ensures
        base_state(permutation(a)),
        permutation(a) == permutation(b) ==> a == b,
{
    lemma_layers_keep_base(a);
    lemma_layers_keep_base(b);
    let (a0, b0) = (external_layer(a), external_layer(b));
    lemma_external_rounds_injective(a0, b0, 0, 4);
    let (a1, b1) = (external_rounds(a0, 0, 4), external_rounds(b0, 0, 4));
    lemma_internal_rounds_injective(a1, b1, 22);
    let (a2, b2) = (internal_rounds(a1, 22), internal_rounds(b1, 22));
    lemma_external_rounds_injective(a2, b2, 4, 8);
    if permutation(a) == permutation(b) {
        lemma_external_layer_injective(a, b);
    }
}

} // verus!
