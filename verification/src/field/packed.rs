//! Short vectors of field elements that are worked on lane by lane.

use crate::field::goldilocks_field::GoldilocksField;
use crate::field::model::{elt0, elt1, lemma_mul_assoc, lemma_mul_comm, lemma_mul_one_zero};
use crate::field::types::Field;
use vstd::prelude::*;

verus! {

/// The first result of interleaving two vectors in blocks of `block_len` lanes.
pub open spec fn interleave_left<T>(a: Seq<T>, b: Seq<T>, block_len: int) -> Seq<T> {
    Seq::new(
        a.len(),
        |j: int|
            if (j / block_len) % 2 == 0 {
                (a + b)[j]
            } else {
                (a + b)[a.len() + j - block_len]
            },
    )
}

/// The second result of interleaving two vectors in blocks of `block_len` lanes.
pub open spec fn interleave_right<T>(a: Seq<T>, b: Seq<T>, block_len: int) -> Seq<T> {
    Seq::new(
        a.len(),
        |j: int|
            if (j / block_len) % 2 == 0 {
                (a + b)[j + block_len]
            } else {
                (a + b)[a.len() + j]
            },
    )
}

/// The block lengths that a vector of the given width can be interleaved by.
pub open spec fn valid_block_len(block_len: int, width: int) -> bool {
    (block_len == 1 || block_len == 2 || block_len == 4 || block_len == 8 || block_len == 16)
        && block_len <= width
}

/// Where lane `j` lies within its pair of blocks of `h` lanes.
pub proof fn lemma_lane_index(j: int, w: int, h: int)
    requires
        w == 2 || w == 4 || w == 8 || w == 16,
        h == 1 || h == 2 || h == 4 || h == 8,
        h < w,
        0 <= j < w,
    ensures
        (j / h) % 2 == 0 ==> j + h < w && ((j + h) / h) % 2 == 1 && (j + h) % h == j % h && j % (2
            * h) == j % h && (w + j) % (2 * h) == j % h && j % (2 * h) < h,
        (j / h) % 2 == 1 ==> j - h >= 0 && ((j - h) / h) % 2 == 0 && (j - h) % h == j % h && j % (2
            * h) == j % h + h && (w + j) % (2 * h) == j % h + h,
{
}

/// Interleaving twice in the same blocks gives back the two vectors.
pub proof fn lemma_interleave_involution<T>(a: Seq<T>, b: Seq<T>, block_len: int)
    requires
        a.len() == b.len(),
        a.len() == 1 || a.len() == 2 || a.len() == 4 || a.len() == 8 || a.len() == 16,
        valid_block_len(block_len, a.len() as int),
    ensures
        interleave_left(
            interleave_left(a, b, block_len),
            interleave_right(a, b, block_len),
            block_len,
        ) == a,
        interleave_right(
            interleave_left(a, b, block_len),
            interleave_right(a, b, block_len),
            block_len,
        ) == b,
{
    let (n, h) = (a.len() as int, block_len);
    let u = interleave_left(a, b, h);
    let w = interleave_right(a, b, h);
    let left = interleave_left(u, w, h);
    let right = interleave_right(u, w, h);
    if h == n {
        assert forall|j: int| 0 <= j < n implies u[j] == a[j] && w[j] == b[j] && left[j] == a[j]
            && right[j] == b[j] by {
            vstd::arithmetic::div_mod::lemma_basic_div(j, h);
        }
    } else {
        assert forall|j: int| 0 <= j < n implies left[j] == a[j] && right[j] == b[j] by {
            lemma_lane_index(j, n, h);
            if (j / h) % 2 == 0 {
                assert(left[j] == u[j]);
                assert(right[j] == u[j + h]);
            } else {
                assert(left[j] == w[j - h]);
                assert(right[j] == w[j]);
            }
        }
    }
    assert(left =~= a);
    assert(right =~= b);
}

/// A fixed number of field elements, the lanes, on which every operation acts at once.
pub trait PackedField: Copy {
    /// The type of a lane.
    type Scalar: Field;

    /// The number of lanes.
    spec fn width() -> nat;

    /// The lanes in order.
    spec fn seq(self) -> Seq<Self::Scalar>;

    /// The machine value of one lane of `a + x * y`.
    spec fn s_fused(a: Self::Scalar, x: Self::Scalar, y: Self::Scalar) -> Self::Scalar;

    /// There are as many lanes as the width says, and the width is a small power of two.
    proof fn lemma_width(a: Self)
        ensures
            a.seq().len() == Self::width(),
            Self::width() == 1 || Self::width() == 2 || Self::width() == 4 || Self::width() == 8
                || Self::width() == 16,
    ;

    /// The number of lanes.
    fn lane_count() -> (r: usize)
        ensures
            r == Self::width(),
    ;

    /// Reads consecutive scalars as lanes.
    fn load(values: &[Self::Scalar], start: usize) -> (r: Self)
        requires
            start + Self::width() <= values@.len(),
        ensures
            r.seq() == values@.subrange(start as int, start + Self::width()),
    ;

    /// Lane `i`.
    fn lane(self, i: usize) -> (r: Self::Scalar)
        requires
            i < Self::width(),
        ensures
            r == self.seq()[i as int],
    ;

    /// The same scalar in every lane.
    fn broadcast(x: Self::Scalar) -> (r: Self)
        ensures
            forall|i: int| 0 <= i < Self::width() ==> #[trigger] r.seq()[i] == x,
    ;

    /// Lane-wise sum.
    fn add(self, rhs: Self) -> (r: Self)
        ensures
            forall|i: int|
                0 <= i < Self::width() ==> #[trigger] r.seq()[i] == self.seq()[i].s_add(
                    rhs.seq()[i],
                ),
    ;

    /// Lane-wise difference.
    fn sub(self, rhs: Self) -> (r: Self)
        ensures
            forall|i: int|
                0 <= i < Self::width() ==> #[trigger] r.seq()[i] == self.seq()[i].s_sub(
                    rhs.seq()[i],
                ),
    ;

    /// Lane-wise product.
    fn mul(self, rhs: Self) -> (r: Self)
        ensures
            forall|i: int|
                0 <= i < Self::width() ==> #[trigger] r.seq()[i] == self.seq()[i].s_mul(
                    rhs.seq()[i],
                ),
    ;

    /// Lane-wise negation.
    fn neg(self) -> (r: Self)
        ensures
            forall|i: int|
                0 <= i < Self::width() ==> #[trigger] r.seq()[i] == self.seq()[i].s_neg(),
    ;

    /// Lane-wise `self + x * y`.
    fn multiply_accumulate(self, x: Self, y: Self) -> (r: Self)
        ensures
            forall|i: int|
                0 <= i < Self::width() ==> #[trigger] r.seq()[i] == Self::s_fused(
                    self.seq()[i],
                    x.seq()[i],
                    y.seq()[i],
                ),
            forall|i: int|
                0 <= i < Self::width() ==> (#[trigger] r.seq()[i]).v() == self.seq()[i].v()
                    + x.seq()[i].v() * y.seq()[i].v(),
    ;

    /// Exchanges blocks of `block_len` lanes between two vectors: seen side by side, the odd
    /// blocks of the first change places with the even blocks of the second.
    fn interleave(self, other: Self, block_len: usize) -> (r: (Self, Self))
        requires
            valid_block_len(block_len as int, Self::width() as int),
        ensures
            r.0.seq() == interleave_left(self.seq(), other.seq(), block_len as int),
            r.1.seq() == interleave_right(self.seq(), other.seq(), block_len as int),
    ;

    /// Lane-wise square.
    fn square(self) -> (r: Self)
        ensures
            forall|i: int|
                0 <= i < Self::width() ==> #[trigger] r.seq()[i] == self.seq()[i].s_mul(
                    self.seq()[i],
                ),
    {
        self.mul(self)
    }

    /// Writes the lanes over consecutive scalars.
    fn store(self, values: &mut [Self::Scalar], start: usize)
        requires
            start + Self::width() <= old(values)@.len(),
        ensures
            final(values)@.len() == old(values)@.len(),
            forall|i: int|
                0 <= i < old(values)@.len() ==> #[trigger] final(values)@[i] == (if start <= i
                    < start + Self::width() {
                    self.seq()[i - start]
                } else {
                    old(values)@[i]
                }),
    {
        let mut i: usize = 0;
        let w: usize = Self::lane_count();
        let ghost v0 = values@;
        let n: usize = values.len();
        while i < w
            invariant
                n == v0.len(),
                w == Self::width(),
                i <= w,
                start + w <= v0.len(),
                values@.len() == v0.len(),
                forall|k: int|
                    0 <= k < v0.len() ==> #[trigger] values@[k] == (if start <= k < start + i {
                        self.seq()[k - start]
                    } else {
                        v0[k]
                    }),
            decreases w - i,
        {
            values[start + i] = self.lane(i);
            i = i + 1;
        }
    }
}

/// A field with the packing that suits it.
pub trait Packable: Field {
    /// The packing.
    type Packing: PackedField<Scalar = Self>;

    /// The logarithm of the number of elements in a cache-sized block of a transform.
    fn lg_cache_block() -> (r: usize)
        ensures
            11 <= r <= 13,
    ;
}

/// Lane `l` of the sum of the first `n` vectors, from the left: the first one as it is.
pub open spec fn lane_sum<P: PackedField>(items: Seq<P>, l: int, n: nat) -> P::Scalar
    decreases n,
{
    if n == 0 {
        <P::Scalar as Field>::s_const(0)
    } else if n == 1 {
        items[0].seq()[l]
    } else {
        lane_sum(items, l, (n - 1) as nat).s_add(items[n - 1].seq()[l])
    }
}

/// Lane `l` of the product of the first `n` vectors, from the left: the first one as it is.
pub open spec fn lane_product<P: PackedField>(items: Seq<P>, l: int, n: nat) -> P::Scalar
    decreases n,
{
    if n == 0 {
        <P::Scalar as Field>::s_const(1)
    } else if n == 1 {
        items[0].seq()[l]
    } else {
        lane_product(items, l, (n - 1) as nat).s_mul(items[n - 1].seq()[l])
    }
}

/// The sum of vectors, lane by lane.
pub fn packed_sum<P: PackedField>(items: &[P]) -> (r: P)
    ensures
        forall|l: int|
            0 <= l < P::width() ==> #[trigger] r.seq()[l] == lane_sum(items@, l, items@.len()),
{
    if items.len() == 0 {
        return P::broadcast(<P::Scalar as Field>::zero());
    }
    let n: usize = items.len();
    let mut r = items[0];
    let mut i: usize = 1;
    while i < n
        invariant
            1 <= i <= n == items@.len(),
            forall|l: int|
                0 <= l < P::width() ==> #[trigger] r.seq()[l] == lane_sum(items@, l, i as nat),
        decreases n - i,
    {
        r = r.add(items[i]);
        i = i + 1;
    }
    r
}

/// The product of vectors, lane by lane.
pub fn packed_product<P: PackedField>(items: &[P]) -> (r: P)
    ensures
        forall|l: int|
            0 <= l < P::width() ==> #[trigger] r.seq()[l] == lane_product(items@, l, items@.len()),
{
    if items.len() == 0 {
        return P::broadcast(<P::Scalar as Field>::one());
    }
    let n: usize = items.len();
    let mut r = items[0];
    let mut i: usize = 1;
    while i < n
        invariant
            1 <= i <= n == items@.len(),
            forall|l: int|
                0 <= l < P::width() ==> #[trigger] r.seq()[l] == lane_product(items@, l, i as nat),
        decreases n - i,
    {
        r = r.mul(items[i]);
        i = i + 1;
    }
    r
}

/// Every lane divided by a scalar: multiplied by its inverse.
pub fn packed_div<P: PackedField<Scalar = GoldilocksField>>(x: P, rhs: GoldilocksField) -> (r: P)
    requires
        rhs.v() != elt0(),
    ensures
        exists|inverse: GoldilocksField| #[trigger]
            is_inverse_of(inverse, rhs) && forall|l: int|
            0 <= l < P::width() ==> #[trigger] r.seq()[l] == x.seq()[l].s_mul(inverse),
        forall|l: int|
            0 <= l < P::width() ==> (#[trigger] r.seq()[l]).v() * rhs.v() == x.seq()[l].v(),
{
    let inverse = rhs.inverse();
    let r = x.mul(P::broadcast(inverse));
    proof {
        assert(is_inverse_of(inverse, rhs));
        assert forall|l: int| 0 <= l < P::width() implies (#[trigger] r.seq()[l]).v() * rhs.v()
            == x.seq()[l].v() by {
            let a = x.seq()[l];
            GoldilocksField::lemma_values(a);
            GoldilocksField::lemma_values(rhs);
            GoldilocksField::lemma_values(inverse);
            GoldilocksField::lemma_ops(a, inverse);
            lemma_mul_assoc(a.v(), inverse.v(), rhs.v());
            lemma_mul_comm(inverse.v(), rhs.v());
            lemma_mul_one_zero(a.v());
        }
    }
    r
}

/// The product of the two is one.
pub open spec fn is_inverse_of(inverse: GoldilocksField, x: GoldilocksField) -> bool {
    x.v() * inverse.v() == elt1()
}

} // verus!
