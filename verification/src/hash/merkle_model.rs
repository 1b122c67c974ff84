//! What a Merkle tree is: the digests of its nodes, and where they are kept.

use crate::field::model::Elt;
use crate::hash::hash_types::GenericHashOut;
use crate::util::bits::{lemma_pow2_basics, lemma_pow2_double, lemma_pow2_mono};
use vstd::arithmetic::power2::{lemma_pow2_adds, lemma_pow2_pos, pow2};
use vstd::prelude::*;

verus! {

/// The digest of the root over the given leaf digests.
pub open spec fn root_of(
    two: spec_fn(Seq<Elt>, Seq<Elt>) -> Seq<Elt>,
    leaves: Seq<Seq<Elt>>,
) -> Seq<Elt>
    decreases leaves.len(),
{
    if leaves.len() <= 1 {
        leaves[0]
    } else {
        let h = (leaves.len() / 2) as int;
        two(root_of(two, leaves.take(h)), root_of(two, leaves.skip(h)))
    }
}

/// The digests below the root over the given leaf digests, in the order in which they are kept:
/// those below the left child, the left child, the right child, those below the right child.
pub open spec fn subtree_layout(
    two: spec_fn(Seq<Elt>, Seq<Elt>) -> Seq<Elt>,
    leaves: Seq<Seq<Elt>>,
) -> Seq<Seq<Elt>>
    decreases leaves.len(),
{
    if leaves.len() <= 1 {
        Seq::empty()
    } else {
        let h = (leaves.len() / 2) as int;
        let (left, right) = (leaves.take(h), leaves.skip(h));
        subtree_layout(two, left) + seq![root_of(two, left), root_of(two, right)]
            + subtree_layout(two, right)
    }
}

/// The leaf digests below entry `i` of a cap over subtrees of `m` leaves.
pub open spec fn cap_leaves(leaves: Seq<Seq<Elt>>, m: int, i: int) -> Seq<Seq<Elt>> {
    leaves.subrange(i * m, i * m + m)
}

/// Digests and cap are those of the tree over the given leaf digests.
pub open spec fn is_tree<D: GenericHashOut>(
    two: spec_fn(Seq<Elt>, Seq<Elt>) -> Seq<Elt>,
    leaves: Seq<Seq<Elt>>,
    cap_height: nat,
    digests: Seq<D>,
    cap: Seq<D>,
) -> bool {
    let caps = pow2(cap_height) as int;
    let m = leaves.len() as int / caps;
    let t = 2 * (m - 1);
    &&& cap.len() == caps
    &&& digests.len() == 2 * (leaves.len() - caps)
    &&& forall|i: int|
        0 <= i < caps ==> (#[trigger] cap[i]).digest() == root_of(two, cap_leaves(leaves, m, i))
    &&& forall|i: int, x: int|
        0 <= i < caps && 0 <= x < t ==> (#[trigger] digests[i * t + x]).digest() == (
        #[trigger] subtree_layout(two, cap_leaves(leaves, m, i))[x])
}

/// A subtree of `n` leaves keeps `2 * (n - 1)` digests.
pub proof fn lemma_layout_len(
    two: spec_fn(Seq<Elt>, Seq<Elt>) -> Seq<Elt>,
    leaves: Seq<Seq<Elt>>,
)
    requires
        leaves.len() >= 1,
    ensures
        subtree_layout(two, leaves).len() == 2 * (leaves.len() - 1),
    decreases leaves.len(),
{
    if leaves.len() > 1 {
        let h = (leaves.len() / 2) as int;
        lemma_layout_len(two, leaves.take(h));
        lemma_layout_len(two, leaves.skip(h));
    }
}

/// A subtree of two leaves keeps just these.
pub proof fn lemma_layout_two(
    two: spec_fn(Seq<Elt>, Seq<Elt>) -> Seq<Elt>,
    leaves: Seq<Seq<Elt>>,
)
    requires
        leaves.len() == 2,
    ensures
        subtree_layout(two, leaves) == seq![leaves[0], leaves[1]],
        root_of(two, leaves) == two(leaves[0], leaves[1]),
{
    let (l, r) = (leaves.take(1), leaves.skip(1));
    assert(leaves.len() / 2 == 1);
    assert(root_of(two, l) == leaves[0]);
    assert(root_of(two, r) == leaves[1]);
    assert(subtree_layout(two, l) == Seq::<Seq<Elt>>::empty());
    assert(subtree_layout(two, r) == Seq::<Seq<Elt>>::empty());
    assert(subtree_layout(two, leaves) =~= seq![leaves[0], leaves[1]]);
}

/// Sizes of the parts of a tree.
pub proof fn lemma_tree_sizes(log_leaves: nat, cap_height: nat)
    requires
        cap_height <= log_leaves,
    ensures
        pow2(log_leaves) == pow2(cap_height) * pow2((log_leaves - cap_height) as nat),
        pow2(log_leaves) as int / pow2(cap_height) as int == pow2(
            (log_leaves - cap_height) as nat,
        ),
        pow2(cap_height) <= pow2(log_leaves),
        2 * (pow2(log_leaves) - pow2(cap_height)) == pow2(cap_height) * (2 * (pow2(
            (log_leaves - cap_height) as nat,
        ) - 1)),
{
    let (c, m) = (pow2(cap_height) as int, pow2((log_leaves - cap_height) as nat) as int);
    lemma_pow2_adds(cap_height, (log_leaves - cap_height) as nat);
    lemma_pow2_pos(cap_height);
    lemma_pow2_mono(cap_height, log_leaves);
    vstd::arithmetic::div_mod::lemma_div_multiples_vanish(m, c);
    assert(2 * (c * m - c) == c * (2 * (m - 1))) by (nonlinear_arith);
}

/// The index, in a subtree, of a node: layer `i` counts from the leaves, and `q` counts the
/// pairs of siblings of that layer; `b` tells the left sibling from the right one.
pub open spec fn node_index(i: nat, q: int, b: int) -> int {
    2 * (q * pow2(i + 1) + pow2(i) - 1) + b
}

/// The layout puts the siblings of pair `q` of layer `i` where [`node_index`] says.
pub proof fn lemma_layout_index(
    two: spec_fn(Seq<Elt>, Seq<Elt>) -> Seq<Elt>,
    leaves: Seq<Seq<Elt>>,
    k: nat,
    i: nat,
    q: int,
    b: int,
)
    requires
        leaves.len() == pow2(k),
        i < k,
        0 <= q < pow2((k - i - 1) as nat),
        0 <= b <= 1,
    ensures
        0 <= node_index(i, q, b) < 2 * (pow2(k) - 1),
        subtree_layout(two, leaves)[node_index(i, q, b)] == root_of(
            two,
            leaves.subrange((2 * q + b) * pow2(i), (2 * q + b) * pow2(i) + pow2(i)),
        ),
        0 <= (2 * q + b) * pow2(i),
        (2 * q + b) * pow2(i) + pow2(i) <= pow2(k),
    decreases k,
{
    let l = (k - 1) as nat;
    let h = pow2(l) as int;
    let w = pow2(i) as int;
    lemma_pow2_double(l);
    lemma_pow2_double(i);
    lemma_pow2_pos(i);
    let (left, right) = (leaves.take(h), leaves.skip(h));
    lemma_layout_len(two, left);
    lemma_layout_len(two, right);
    assert(leaves.len() / 2 == h);
    if i == l {
        lemma_pow2_basics();
        assert(q == 0);
        assert(0 * pow2(i + 1) == 0);
        assert((2 * q + b) * w == b * w) by (nonlinear_arith)
            requires
                q == 0,
        ;
        if b == 0 {
            assert(0 * w == 0);
            assert(leaves.subrange(0, w) =~= left);
        } else {
            assert(1 * w == w);
            assert(leaves.subrange(w, w + w) =~= right);
        }
    } else {
        let j = (l - i - 1) as nat;
        let c = pow2(j) as int;
        lemma_pow2_double(j);
        lemma_pow2_adds(j, i + 1);
        assert((k - i - 1) as nat == j + 1);
        let x = q * pow2(i + 1);
        if q < c {
            lemma_layout_index(two, left, l, i, q, b);
            let lo = (2 * q + b) * w;
            assert(left.subrange(lo, lo + w) =~= leaves.subrange(lo, lo + w));
        } else {
            let p = q - c;
            lemma_layout_index(two, right, l, i, p, b);
            assert(q * pow2(i + 1) == p * pow2(i + 1) + h) by (nonlinear_arith)
                requires
                    q == p + c,
                    c * pow2(i + 1) == h,
            ;
            assert((2 * q + b) * w == (2 * p + b) * w + h) by (nonlinear_arith)
                requires
                    q == p + c,
                    c * (2 * w) == h,
            ;
            let lo = (2 * p + b) * w;
            assert(right.subrange(lo, lo + w) =~= leaves.subrange(lo + h, lo + h + w));
        }
    }
}

/// The digest at the end of a path: siblings are hashed in, on the side that the bits of the
/// index say.
pub open spec fn path_end(
    two: spec_fn(Seq<Elt>, Seq<Elt>) -> Seq<Elt>,
    digest: Seq<Elt>,
    index: nat,
    siblings: Seq<Seq<Elt>>,
) -> Seq<Elt>
    decreases siblings.len(),
{
    if siblings.len() == 0 {
        digest
    } else {
        let parent = if index % 2 == 1 {
            two(siblings[0], digest)
        } else {
            two(digest, siblings[0])
        };
        path_end(two, parent, index / 2, siblings.skip(1))
    }
}

/// The siblings on the path of leaf `index` from layer `i` to the root of its subtree.
pub open spec fn path_siblings(
    two: spec_fn(Seq<Elt>, Seq<Elt>) -> Seq<Elt>,
    leaves: Seq<Seq<Elt>>,
    k: nat,
    index: nat,
) -> Seq<Seq<Elt>> {
    Seq::new(
        k,
        |i: int|
            {
                let q = index as int / pow2(i as nat) as int;
                let sibling = if q % 2 == 1 {
                    q - 1
                } else {
                    q + 1
                };
                root_of(
                    two,
                    leaves.subrange(
                        sibling * pow2(i as nat),
                        sibling * pow2(i as nat) + pow2(i as nat),
                    ),
                )
            },
    )
}

/// From any layer on, the path of a leaf leads to the root.
proof fn lemma_path_from(
    two: spec_fn(Seq<Elt>, Seq<Elt>) -> Seq<Elt>,
    leaves: Seq<Seq<Elt>>,
    k: nat,
    index: nat,
    i: nat,
)
    requires
        leaves.len() == pow2(k),
        index < pow2(k),
        i <= k,
    ensures
        ({
            let q = index as int / pow2(i) as int;
            path_end(
                two,
                root_of(two, leaves.subrange(q * pow2(i), q * pow2(i) + pow2(i))),
                q as nat,
                path_siblings(two, leaves, k, index).skip(i as int),
            ) == root_of(two, leaves)
        }),
    decreases k - i,
{
    let w = pow2(i) as int;
    lemma_pow2_double(i);
    let q = index as int / w;
    let sib = path_siblings(two, leaves, k, index);
    let rest = sib.skip(i as int);
    vstd::arithmetic::div_mod::lemma_fundamental_div_mod(index as int, w);
    vstd::arithmetic::div_mod::lemma_div_pos_is_pos(index as int, w);
    if i == k {
        assert(q == 0) by {
            vstd::arithmetic::div_mod::lemma_basic_div(index as int, w);
        }
        assert(0 * w == 0);
        assert(leaves.subrange(0, w) =~= leaves);
        assert(rest.len() == 0);
    } else {
        let p = q / 2;
        let w2 = pow2(i + 1) as int;
        assert(index as int / w2 == p) by {
            vstd::arithmetic::div_mod::lemma_div_denominator(index as int, w, 2);
            assert(w * 2 == w2);
        }
        lemma_path_from(two, leaves, k, index, i + 1);
        assert(rest.skip(1) =~= sib.skip((i + 1) as int));
        // The pair of q and its sibling covers the leaves of p.
        lemma_pow2_adds(i + 1, (k - i - 1) as nat);
        let c = pow2((k - i - 1) as nat) as int;
        assert(p < c) by (nonlinear_arith)
            requires
                index == w * q + index as int % w,
                0 <= index as int % w,
                index < w2 * c,
                w2 == 2 * w,
                q >= 2 * p,
                w > 0,
        ;
        assert(0 <= p * w2 && p * w2 + w2 <= w2 * c) by (nonlinear_arith)
            requires
                0 <= p,
                p + 1 <= c,
                w2 > 0,
        ;
        assert((2 * p) * w == p * w2 && (2 * p + 1) * w == p * w2 + w) by (nonlinear_arith)
            requires
                w2 == 2 * w,
        ;
        let whole = leaves.subrange(p * w2, p * w2 + w2);
        assert(whole.take(w) =~= leaves.subrange((2 * p) * w, (2 * p) * w + w));
        assert(whole.skip(w) =~= leaves.subrange((2 * p + 1) * w, (2 * p + 1) * w + w));
        assert(whole.len() / 2 == w);
        assert(root_of(two, whole) == two(
            root_of(two, whole.take(w)),
            root_of(two, whole.skip(w)),
        ));
        assert(rest[0] == sib[i as int]);
        if q % 2 == 1 {
            assert(q == 2 * p + 1);
        } else {
            assert(q == 2 * p);
        }
    }
}

/// Hashing a leaf together with the siblings on its path gives the root.
pub proof fn lemma_path_end(
    two: spec_fn(Seq<Elt>, Seq<Elt>) -> Seq<Elt>,
    leaves: Seq<Seq<Elt>>,
    k: nat,
    index: nat,
)
    requires
        leaves.len() == pow2(k),
        index < pow2(k),
    ensures
        path_end(two, leaves[index as int], index, path_siblings(two, leaves, k, index)) == root_of(
            two,
            leaves,
        ),
{
    lemma_pow2_basics();
    lemma_path_from(two, leaves, k, index, 0);
    assert(index as int / 1 == index);
    let sib = path_siblings(two, leaves, k, index);
    assert(sib.skip(0) =~= sib);
    assert(index * 1 == index);
    assert(leaves.subrange(index as int, (index + 1) as int)[0] == leaves[index as int]);
}

/// The first `done` subtrees of a tree are in place.
pub open spec fn subtrees_filled<D: GenericHashOut>(
    two: spec_fn(Seq<Elt>, Seq<Elt>) -> Seq<Elt>,
    leaves: Seq<Seq<Elt>>,
    m: int,
    digests: Seq<D>,
    cap: Seq<D>,
    done: int,
) -> bool {
    &&& forall|i: int|
        0 <= i < done ==> (#[trigger] cap[i]).digest() == root_of(two, cap_leaves(leaves, m, i))
    &&& forall|i: int, x: int|
        0 <= i < done && 0 <= x < 2 * (m - 1) ==> (#[trigger] digests[i * (2 * (m - 1))
            + x]).digest() == (#[trigger] subtree_layout(two, cap_leaves(leaves, m, i))[x])
}

/// Filling one more subtree and its cap entry.
pub proof fn lemma_subtrees_step<D: GenericHashOut>(
    two: spec_fn(Seq<Elt>, Seq<Elt>) -> Seq<Elt>,
    leaves: Seq<Seq<Elt>>,
    m: int,
    before: Seq<D>,
    after: Seq<D>,
    cap_before: Seq<D>,
    cap_after: Seq<D>,
    done: int,
)
    requires
        m >= 1,
        0 <= done < cap_before.len(),
        cap_leaves(leaves, m, done).len() == m,
        done * (2 * (m - 1)) + 2 * (m - 1) <= before.len(),
        subtrees_filled(two, leaves, m, before, cap_before, done),
        subtree_filled(
            two,
            cap_leaves(leaves, m, done),
            before,
            after,
            done * (2 * (m - 1)),
        ),
        cap_after == cap_before.update(done, cap_after[done]),
        cap_after[done].digest() == root_of(two, cap_leaves(leaves, m, done)),
    ensures
        subtrees_filled(two, leaves, m, after, cap_after, done + 1),
{
    let t = 2 * (m - 1);
    assert(0 <= done * t) by (nonlinear_arith)
        requires
            0 <= done,
            0 <= t,
    ;
    assert forall|i: int, x: int| 0 <= i < done + 1 && 0 <= x < t implies (#[trigger] after[i * t
        + x]).digest() == (#[trigger] subtree_layout(two, cap_leaves(leaves, m, i))[x]) by {
        if i < done {
            assert(0 <= i * t && i * t + t <= done * t) by (nonlinear_arith)
                requires
                    0 <= i,
                    i + 1 <= done,
                    0 <= t,
            ;
            assert(before[i * t + x].digest() == subtree_layout(two, cap_leaves(leaves, m, i))[x]);
            assert(after[i * t + x] == before[i * t + x]);
        }
    }
}

/// What filling a subtree leaves in the buffer of digests.
pub open spec fn subtree_filled<D: GenericHashOut>(
    two: spec_fn(Seq<Elt>, Seq<Elt>) -> Seq<Elt>,
    leaves: Seq<Seq<Elt>>,
    before: Seq<D>,
    after: Seq<D>,
    lo: int,
) -> bool {
    &&& after.len() == before.len()
    &&& forall|x: int|
        0 <= x < before.len() ==> if lo <= x < lo + 2 * (leaves.len() - 1) {
            (#[trigger] after[x]).digest() == subtree_layout(two, leaves)[x - lo]
        } else {
            after[x] == before[x]
        }
}

/// The two children and the subtrees below them make up a subtree.
pub proof fn lemma_subtree_joined<D: GenericHashOut>(
    two: spec_fn(Seq<Elt>, Seq<Elt>) -> Seq<Elt>,
    leaves: Seq<Seq<Elt>>,
    half: int,
    before: Seq<D>,
    after: Seq<D>,
    lo: int,
)
    requires
        leaves.len() == 2 * half,
        half >= 1,
        0 <= lo,
        lo + 2 * (leaves.len() - 1) <= before.len(),
        after.len() == before.len(),
        forall|x: int|
            0 <= x < before.len() && !(lo <= x < lo + 2 * (leaves.len() - 1)) ==> #[trigger] after[x]
                == before[x],
        forall|x: int|
            lo <= x < lo + 2 * (half - 1) ==> (#[trigger] after[x]).digest() == subtree_layout(
                two,
                leaves.take(half),
            )[x - lo],
        after[lo + 2 * half - 2].digest() == root_of(two, leaves.take(half)),
        after[lo + 2 * half - 1].digest() == root_of(two, leaves.skip(half)),
        forall|x: int|
            lo + 2 * half <= x < lo + 4 * half - 2 ==> (#[trigger] after[x]).digest()
                == subtree_layout(two, leaves.skip(half))[x - lo - 2 * half],
    ensures
        subtree_filled(two, leaves, before, after, lo),
{
    let (left, right) = (leaves.take(half), leaves.skip(half));
    lemma_layout_len(two, left);
    lemma_layout_len(two, right);
    assert(leaves.len() / 2 == half);
}

/// The children that were filled in turn, and then written between their subtrees.
pub proof fn lemma_subtree_children<D: GenericHashOut>(
    two: spec_fn(Seq<Elt>, Seq<Elt>) -> Seq<Elt>,
    leaves: Seq<Seq<Elt>>,
    half: int,
    before: Seq<D>,
    mid: Seq<D>,
    late: Seq<D>,
    after: Seq<D>,
    lo: int,
)
    requires
        leaves.len() == 2 * half,
        half >= 1,
        0 <= lo,
        lo + 2 * (leaves.len() - 1) <= before.len(),
        subtree_filled(two, leaves.take(half), before, mid, lo),
        subtree_filled(two, leaves.skip(half), mid, late, lo + 2 * half),
        after == late.update(lo + 2 * half - 2, after[lo + 2 * half - 2]).update(
            lo + 2 * half - 1,
            after[lo + 2 * half - 1],
        ),
        after[lo + 2 * half - 2].digest() == root_of(two, leaves.take(half)),
        after[lo + 2 * half - 1].digest() == root_of(two, leaves.skip(half)),
    ensures
        subtree_filled(two, leaves, before, after, lo),
{
    let (left, right) = (leaves.take(half), leaves.skip(half));
    lemma_layout_len(two, left);
    lemma_layout_len(two, right);
    assert forall|x: int| lo <= x < lo + 2 * (half - 1) implies (#[trigger] after[x]).digest()
        == subtree_layout(two, left)[x - lo] by {
        assert(late[x] == mid[x]);
    }
    assert forall|x: int| 0 <= x < before.len() && !(lo <= x < lo + 2 * (leaves.len() - 1)) implies #[trigger] after[x]
        == before[x] by {
        assert(late[x] == mid[x]);
    }
    assert forall|x: int|
        lo + 2 * half <= x < lo + 4 * half - 2 implies (#[trigger] after[x]).digest()
        == subtree_layout(two, right)[x - lo - 2 * half] by {
        assert(late[x] == after[x]);
    }
    lemma_subtree_joined(two, leaves, half, before, after, lo);
}

} // verus!
