//! What sums and products over packed values are worth.

use crate::field::dft::{all_wf, eval_poly};
use crate::field::model::{
    Elt, elt1, group_elt_wf, lemma_add_zero, lemma_mul_assoc, lemma_mul_one_zero,
};
use crate::field::packed::{PackedField, interleave_left, interleave_right, lane_product, lane_sum};
use crate::field::poly_laws::lemma_eval_push;
use crate::field::roots::lemma_power_one;
use crate::field::types::Field;
use crate::plonk::circuit_builder::product_to;
use vstd::prelude::*;

verus! {

/// A lane of a sum of any number of vectors is worth the sum of their lanes: the polynomial with
/// these as coefficients, at one.
pub proof fn lemma_lane_sum_value<P: PackedField>(items: Seq<P>, l: int, n: nat)
    requires
        n <= items.len(),
        0 <= l < P::width(),
    ensures
        lane_sum(items, l, n).v() == eval_poly(
            Seq::new(n, |i: int| items[i].seq()[l].v()),
            elt1(),
        ),
    decreases n,
{
    let c = Seq::new(n, |i: int| items[i].seq()[l].v());
    if n == 0 {
        <P::Scalar as Field>::lemma_values(<P::Scalar as Field>::s_const(0));
    } else {
        let m = (n - 1) as nat;
        let d = Seq::new(m, |i: int| items[i].seq()[l].v());
        let x = items[m as int].seq()[l];
        lemma_lane_sum_value(items, l, m);
        assert forall|i: int| 0 <= i < m implies (#[trigger] d[i]).wf() by {
            <P::Scalar as Field>::lemma_values(items[i].seq()[l]);
        }
        <P::Scalar as Field>::lemma_values(x);
        lemma_eval_push(d, x.v(), elt1());
        assert(c =~= d.push(x.v()));
        lemma_power_one(m);
        lemma_mul_one_zero(x.v());
        if n == 1 {
            assert(d.len() == 0);
            lemma_add_zero(x.v());
        } else {
            <P::Scalar as Field>::lemma_ops(lane_sum(items, l, m), x);
        }
    }
}

/// A lane of a product of any number of vectors is worth the product of their lanes.
pub proof fn lemma_lane_product_value<P: PackedField>(items: Seq<P>, l: int, n: nat)
    requires
        n <= items.len(),
        0 <= l < P::width(),
    ensures
        lane_product(items, l, n).v() == product_to(
            Seq::new(items.len(), |i: int| items[i].seq()[l].v()),
            n,
        ),
    decreases n,
{
    let c = Seq::new(items.len(), |i: int| items[i].seq()[l].v());
    if n == 0 {
        <P::Scalar as Field>::lemma_values(<P::Scalar as Field>::s_const(1));
    } else {
        let m = (n - 1) as nat;
        let x = items[m as int].seq()[l];
        lemma_lane_product_value(items, l, m);
        <P::Scalar as Field>::lemma_values(x);
        lemma_mul_one_zero(x.v());
        if n > 1 {
            <P::Scalar as Field>::lemma_ops(lane_product(items, l, m), x);
        }
    }
}

/// The product over a list and another is the product of both products, and the product over one
/// element is that element.
pub proof fn lemma_product_concat(a: Seq<Elt>, b: Seq<Elt>, x: Elt)
    requires
        all_wf(a),
        all_wf(b),
        x.wf(),
    ensures
        product_to(a + b, a.len() + b.len()) == product_to(a, a.len()) * product_to(b, b.len()),
        product_to(seq![x], 1) == x,
        product_to(a, a.len()).wf(),
    decreases b.len(),
{
    broadcast use group_elt_wf;

    reveal_with_fuel(product_to, 2);
    lemma_mul_one_zero(x);
    lemma_product_wf(a, a.len());
    if b.len() == 0 {
        assert(a + b =~= a);
        lemma_mul_one_zero(product_to(a, a.len()));
    } else {
        let rest = b.drop_last();
        let last = b.last();
        assert forall|i: int| 0 <= i < rest.len() implies (#[trigger] rest[i]).wf() by {
            assert(b[i].wf());
        }
        assert(b[b.len() - 1].wf());
        lemma_product_concat(a, rest, x);
        lemma_product_same(a + b, a + rest, a.len() + rest.len());
        lemma_product_same(b, rest, rest.len());
        lemma_product_wf(rest, rest.len());
        lemma_mul_assoc(product_to(a, a.len()), product_to(rest, rest.len()), last);
        assert((a + b)[(a.len() + b.len() - 1) as int] == last);
    }
}

proof fn lemma_product_wf(a: Seq<Elt>, n: nat)
    ensures
        product_to(a, n).wf(),
{
    broadcast use group_elt_wf;

}

proof fn lemma_product_same(a: Seq<Elt>, b: Seq<Elt>, n: nat)
    requires
        n <= a.len(),
        n <= b.len(),
        forall|i: int| 0 <= i < n ==> a[i] == #[trigger] b[i],
    ensures
        product_to(a, n) == product_to(b, n),
    decreases n,
{
    if n > 0 {
        lemma_product_same(a, b, (n - 1) as nat);
        assert(a[n - 1] == b[n - 1]);
    }
}

/// Interleaving two vectors in blocks: with the blocks of each vector taken in pairs, the first
/// result has the first block of each pair, that of the first vector before that of the second, and
/// the second result has the second block of each pair, in the same order.
pub proof fn lemma_interleaved_blocks<T>(a: Seq<T>, b: Seq<T>, h: int, q: int, j: int)
    requires
        a.len() == b.len(),
        0 < h,
        0 <= q,
        (2 * q + 2) * h <= a.len(),
        0 <= j < h,
    ensures
        interleave_left(a, b, h).len() == a.len(),
        interleave_left(a, b, h)[2 * q * h + j] == a[2 * q * h + j],
        interleave_left(a, b, h)[(2 * q + 1) * h + j] == b[2 * q * h + j],
        interleave_right(a, b, h)[2 * q * h + j] == a[(2 * q + 1) * h + j],
        interleave_right(a, b, h)[(2 * q + 1) * h + j] == b[(2 * q + 1) * h + j],
{
    let (x, y) = (2 * q * h + j, (2 * q + 1) * h + j);
    assert((2 * q + 1) * h == 2 * q * h + h) by (nonlinear_arith);
    assert((2 * q + 2) * h == 2 * q * h + 2 * h) by (nonlinear_arith);
    assert(0 <= 2 * q * h) by (nonlinear_arith)
        requires
            0 <= q,
            0 < h,
    ;
    vstd::arithmetic::div_mod::lemma_fundamental_div_mod_converse(x, h, 2 * q, j);
    vstd::arithmetic::div_mod::lemma_fundamental_div_mod_converse(y, h, 2 * q + 1, j);
}

} // verus!
