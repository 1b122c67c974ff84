//! Element-wise operations on slices, a packed vector at a time.

use crate::field::goldilocks_field::GoldilocksField;
use crate::field::packed::{Packable, PackedField};
use crate::field::types::Field;
use vstd::prelude::*;

verus! {

/// The number of leading scalars that fill whole packed vectors.
pub fn pack_with_leftovers_split_point<P: PackedField>(slice: &[P::Scalar]) -> (r: usize)
    ensures
        r <= slice@.len(),
        r == slice@.len() - slice@.len() as int % (P::width() as int),
        r as int % P::width() as int == 0,
        slice@.len() - r < P::width(),
{
    let w: usize = P::lane_count();
    proof {
        let p: P = arbitrary();
        P::lemma_width(p);
        lemma_split(slice@.len() as int, w as int);
    }
    let n: usize = slice.len();
    let n_leftover: usize = n % w;
    n - n_leftover
}

proof fn lemma_split(n: int, w: int)
    requires
        0 <= n,
        w > 0,
    ensures
        0 <= n % w <= n,
        n % w < w,
        (n - n % w) % w == 0,
        (n - n % w) / w == n / w,
{
    vstd::arithmetic::div_mod::lemma_fundamental_div_mod(n, w);
    vstd::arithmetic::div_mod::lemma_mod_bound(n, w);
    vstd::arithmetic::div_mod::lemma_mod_multiples_basic(n / w, w);
    vstd::arithmetic::div_mod::lemma_div_by_multiple(n / w, w);
    vstd::arithmetic::mul::lemma_mul_is_commutative(n / w, w);
    vstd::arithmetic::div_mod::lemma_mod_decreases(n as nat, w as nat);
}

/// The whole packed vectors of a slice, and the scalars that are left over.
pub fn pack_slice_with_leftovers<P: PackedField>(slice: &[P::Scalar]) -> (r: (
    Vec<P>,
    Vec<P::Scalar>,
))
    ensures
        r.0@.len() == slice@.len() / P::width(),
        forall|k: int|
            0 <= k < r.0@.len() ==> (#[trigger] r.0@[k]).seq() == slice@.subrange(
                k * P::width(),
                k * P::width() + P::width(),
            ),
        r.1@ == slice@.skip(((slice@.len() / P::width()) * P::width()) as int),
{
    let w: usize = P::lane_count();
    proof {
        let p: P = arbitrary();
        P::lemma_width(p);
        lemma_split(slice@.len() as int, w as int);
        vstd::arithmetic::div_mod::lemma_fundamental_div_mod(slice@.len() as int, w as int);
        vstd::arithmetic::mul::lemma_mul_is_commutative(slice@.len() as int / w as int, w as int);
    }
    let split: usize = pack_with_leftovers_split_point::<P>(slice);
    let mut packed: Vec<P> = Vec::new();
    let mut i: usize = 0;
    assert(split == (slice@.len() / P::width()) * P::width()) by {
        let (n, k) = (slice@.len() as int, split as int);
        vstd::arithmetic::div_mod::lemma_fundamental_div_mod(k, w as int);
        let (a, b) = (n / w as int, k / w as int);
        assert(a == b) by (nonlinear_arith)
            requires
                w > 0,
                k == w * b,
                0 <= n - k < w,
                n == w * a + n % (w as int),
                0 <= n % (w as int) < w,
        ;
    }
    assert(0 * w == 0);
    while i < split
        invariant
            w == P::width(),
            w > 0,
            i == packed@.len() * w,
            i <= split <= slice@.len(),
            split == (slice@.len() / P::width()) * P::width(),
            forall|k: int|
                0 <= k < packed@.len() ==> (#[trigger] packed@[k]).seq() == slice@.subrange(
                    k * P::width(),
                    k * P::width() + P::width(),
                ),
        decreases split - i,
    {
        proof {
            let (m, n) = (packed@.len() as int, slice@.len() / P::width());
            assert(m < n) by (nonlinear_arith)
                requires
                    m * w < n * w,
                    w > 0,
            ;
            assert((m + 1) * w == m * w + w) by (nonlinear_arith);
            assert((m + 1) * w <= n * w) by (nonlinear_arith)
                requires
                    m + 1 <= n,
                    w > 0,
            ;
        }
        packed.push(P::load(slice, i));
        i = i + w;
    }
    proof {
        let (m, n) = (packed@.len() as int, slice@.len() / P::width());
        assert(m == n) by (nonlinear_arith)
            requires
                m * w == n * w,
                w > 0,
        ;
    }
    let mut leftovers: Vec<P::Scalar> = Vec::new();
    while i < slice.len()
        invariant
            split <= i <= slice@.len(),
            leftovers@ == slice@.subrange(split as int, i as int),
        decreases slice@.len() - i,
    {
        leftovers.push(slice[i]);
        i = i + 1;
        assert(leftovers@ =~= slice@.subrange(split as int, i as int));
    }
    (packed, leftovers)
}

/// Element-wise in-place multiplication of two slices of the same length.
pub fn batch_multiply_inplace<F: Packable>(out: &mut [F], a: &[F])
    requires
        old(out)@.len() == a@.len(),
    ensures
        final(out)@.len() == old(out)@.len(),
        forall|i: int|
            0 <= i < a@.len() ==> #[trigger] final(out)@[i] == old(out)@[i].s_mul(a@[i]),
{
    let w: usize = F::Packing::lane_count();
    proof {
        let p: F::Packing = arbitrary();
        F::Packing::lemma_width(p);
    }
    let ghost out0 = out@;
    let split: usize = pack_with_leftovers_split_point::<F::Packing>(a);
    let mut i: usize = 0;
    while i < split
        invariant
            w == F::Packing::width(),
            w > 0,
            0 <= i <= split <= a@.len(),
            (split - i) % w as int == 0,
            out@.len() == a@.len() == out0.len(),
            forall|k: int|
                0 <= k < out0.len() ==> #[trigger] out@[k] == (if k < i {
                    out0[k].s_mul(a@[k])
                } else {
                    out0[k]
                }),
        decreases split - i,
    {
        proof {
            lemma_next_block(split - i, w as int);
        }
        let x = F::Packing::load(out, i).mul(F::Packing::load(a, i));
        x.store(out, i);
        i = i + w;
    }
    while i < a.len()
        invariant
            0 <= i <= a@.len(),
            out@.len() == a@.len() == out0.len(),
            forall|k: int|
                0 <= k < out0.len() ==> #[trigger] out@[k] == (if k < i {
                    out0[k].s_mul(a@[k])
                } else {
                    out0[k]
                }),
        decreases a@.len() - i,
    {
        out[i] = out[i].mul(a[i]);
        i = i + 1;
    }
}

proof fn lemma_next_block(rest: int, w: int)
    requires
        rest > 0,
        w > 0,
        rest % w == 0,
    ensures
        rest >= w,
        (rest - w) % w == 0,
{
    if rest < w {
        vstd::arithmetic::div_mod::lemma_small_mod(rest as nat, w as nat);
    }
    vstd::arithmetic::div_mod::lemma_mod_sub_multiples_vanish(rest, w);
}

/// The machine value of entry `i` of `n` after a product has been added: fused in whole packed
/// vectors, and in two steps in what is left over.
pub open spec fn multiply_add_word<F: Packable>(out: F, a: F, b: F, i: int, n: int) -> F {
    if i < n - n % (F::Packing::width() as int) {
        F::Packing::s_fused(out, a, b)
    } else {
        out.s_add(a.s_mul(b))
    }
}

/// In the prime field, both ways add the product.
pub proof fn lemma_multiply_add_word(
    out: GoldilocksField,
    a: GoldilocksField,
    b: GoldilocksField,
    i: int,
    n: int,
)
    ensures
        multiply_add_word(out, a, b, i, n).v() == out.v() + a.v() * b.v(),
{
    GoldilocksField::lemma_mac(out, a, b);
    GoldilocksField::lemma_ops(a, b);
    GoldilocksField::lemma_ops(out, a.s_mul(b));
}

/// Multiplies two slices element by element and adds the products to an output slice.
pub fn batch_multiply_add_inplace<F: Packable>(out: &mut [F], a: &[F], b: &[F])
    requires
        old(out)@.len() == a@.len(),
        old(out)@.len() == b@.len(),
    ensures
        final(out)@.len() == old(out)@.len(),
        forall|i: int|
            0 <= i < a@.len() ==> (#[trigger] final(out)@[i]).v() == old(out)@[i].v() + a@[i].v()
                * b@[i].v(),
        forall|i: int|
            0 <= i < a@.len() ==> #[trigger] final(out)@[i] == multiply_add_word(
                old(out)@[i],
                a@[i],
                b@[i],
                i,
                a@.len() as int,
            ),
{
    batch_multiply_add_at(out, 0, a, b);
}

/// Multiplies two slices element by element and adds the products to the entries of an output
/// slice from `lo` on.
pub fn batch_multiply_add_at<F: Packable>(out: &mut [F], lo: usize, a: &[F], b: &[F])
    requires
        lo + a@.len() <= old(out)@.len(),
        a@.len() == b@.len(),
    ensures
        final(out)@.len() == old(out)@.len(),
        forall|i: int|
            lo <= i < lo + a@.len() ==> (#[trigger] final(out)@[i]).v() == old(out)@[i].v() + a@[i
                - lo].v() * b@[i - lo].v(),
        forall|i: int|
            lo <= i < lo + a@.len() ==> #[trigger] final(out)@[i] == multiply_add_word(
                old(out)@[i],
                a@[i - lo],
                b@[i - lo],
                i - lo,
                a@.len() as int,
            ),
        forall|i: int|
            0 <= i < old(out)@.len() && !(lo <= i < lo + a@.len()) ==> #[trigger] final(out)@[i]
                == old(out)@[i],
{
    let size: usize = out.len();
    let w: usize = F::Packing::lane_count();
    proof {
        let p: F::Packing = arbitrary();
        F::Packing::lemma_width(p);
    }
    let ghost out0 = out@;
    let split: usize = pack_with_leftovers_split_point::<F::Packing>(a);
    let mut i: usize = 0;
    while i < split
        invariant
            w == F::Packing::width(),
            w > 0,
            0 <= i <= split <= a@.len(),
            (split - i) % w as int == 0,
            a@.len() == b@.len(),
            out@.len() == out0.len() == size,
            lo + a@.len() <= size,
            split == a@.len() - a@.len() as int % (F::Packing::width() as int),
            forall|k: int|
                lo <= k < lo + i ==> (#[trigger] out@[k]).v() == out0[k].v() + a@[k - lo].v()
                    * b@[k - lo].v(),
            forall|k: int|
                lo <= k < lo + i ==> #[trigger] out@[k] == multiply_add_word(
                    out0[k],
                    a@[k - lo],
                    b@[k - lo],
                    k - lo,
                    a@.len() as int,
                ),
            forall|k: int|
                0 <= k < size && !(lo <= k < lo + i) ==> #[trigger] out@[k] == out0[k],
        decreases split - i,
    {
        proof {
            lemma_next_block(split - i, w as int);
        }
        let (x, y) = (F::Packing::load(a, i), F::Packing::load(b, i));
        let z = F::Packing::load(out, lo + i).multiply_accumulate(x, y);
        z.store(out, lo + i);
        proof {
            assert forall|k: int| lo <= k < lo + i + w implies (#[trigger] out@[k]).v()
                == out0[k].v() + a@[k - lo].v() * b@[k - lo].v() && out@[k] == multiply_add_word(
                out0[k],
                a@[k - lo],
                b@[k - lo],
                k - lo,
                a@.len() as int,
            ) by {
                if k >= lo + i {
                    assert(out@[k] == z.seq()[k - (lo + i)]);
                }
            }
        }
        i = i + w;
    }
    while i < a.len()
        invariant
            split <= i <= a@.len(),
            a@.len() == b@.len(),
            out@.len() == out0.len() == size,
            lo + a@.len() <= size,
            split == a@.len() - a@.len() as int % (F::Packing::width() as int),
            forall|k: int|
                lo <= k < lo + i ==> (#[trigger] out@[k]).v() == out0[k].v() + a@[k - lo].v()
                    * b@[k - lo].v(),
            forall|k: int|
                lo <= k < lo + i ==> #[trigger] out@[k] == multiply_add_word(
                    out0[k],
                    a@[k - lo],
                    b@[k - lo],
                    k - lo,
                    a@.len() as int,
                ),
            forall|k: int|
                0 <= k < size && !(lo <= k < lo + i) ==> #[trigger] out@[k] == out0[k],
        decreases a@.len() - i,
    {
        proof {
            F::lemma_ops(a@[i as int], b@[i as int]);
            F::lemma_ops(out@[lo + i], a@[i as int].s_mul(b@[i as int]));
        }
        out[lo + i] = out[lo + i].add(a[i].mul(b[i]));
        i = i + 1;
    }
}

/// Element-wise in-place addition of two slices of the same length.
pub fn batch_add_inplace<F: Packable>(out: &mut [F], a: &[F])
    requires
        old(out)@.len() == a@.len(),
    ensures
        final(out)@.len() == old(out)@.len(),
        forall|i: int|
            0 <= i < a@.len() ==> #[trigger] final(out)@[i] == old(out)@[i].s_add(a@[i]),
{
    let w: usize = F::Packing::lane_count();
    proof {
        let p: F::Packing = arbitrary();
        F::Packing::lemma_width(p);
    }
    let ghost out0 = out@;
    let split: usize = pack_with_leftovers_split_point::<F::Packing>(a);
    let mut i: usize = 0;
    while i < split
        invariant
            w == F::Packing::width(),
            w > 0,
            0 <= i <= split <= a@.len(),
            (split - i) % w as int == 0,
            out@.len() == a@.len() == out0.len(),
            forall|k: int|
                0 <= k < out0.len() ==> #[trigger] out@[k] == (if k < i {
                    out0[k].s_add(a@[k])
                } else {
                    out0[k]
                }),
        decreases split - i,
    {
        proof {
            lemma_next_block(split - i, w as int);
        }
        let x = F::Packing::load(out, i).add(F::Packing::load(a, i));
        x.store(out, i);
        i = i + w;
    }
    while i < a.len()
        invariant
            0 <= i <= a@.len(),
            out@.len() == a@.len() == out0.len(),
            forall|k: int|
                0 <= k < out0.len() ==> #[trigger] out@[k] == (if k < i {
                    out0[k].s_add(a@[k])
                } else {
                    out0[k]
                }),
        decreases a@.len() - i,
    {
        out[i] = out[i].add(a[i]);
        i = i + 1;
    }
}

} // verus!
