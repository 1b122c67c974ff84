//! What the root of a tree and the end of a path say of the leaves.

use crate::field::goldilocks_field::GoldilocksField;
use crate::field::model::Elt;
use crate::field::types::{Field, vals};
use crate::hash::columns::ColumnStore;
use crate::hash::hash_types::{GenericHashOut, HashOut};
use crate::hash::merkle_model::{path_end, root_of};
use crate::hash::merkle_tree::flat_elements;
use crate::plonk::config::{column_digests, row_digests};
use crate::util::bits::{lemma_log2, lemma_pow2_basics, lemma_pow2_double, rev};
use vstd::arithmetic::power2::{lemma_pow2_pos, pow2};
use vstd::prelude::*;

verus! {

/// No two pairs of digests are hashed to the same digest.
pub open spec fn no_collision(two: spec_fn(Seq<Elt>, Seq<Elt>) -> Seq<Elt>) -> bool {
    forall|a: Seq<Elt>, b: Seq<Elt>, c: Seq<Elt>, d: Seq<Elt>|
        #![trigger two(a, b), two(c, d)]
        two(a, b) == two(c, d) ==> a == c && b == d
}

/// The root over two halves of the same size is the hash of their roots, at every size.
pub proof fn lemma_root_of_halves(
    two: spec_fn(Seq<Elt>, Seq<Elt>) -> Seq<Elt>,
    left: Seq<Seq<Elt>>,
    right: Seq<Seq<Elt>>,
)
    requires
        left.len() == right.len(),
        left.len() > 0,
    ensures
        root_of(two, left + right) == two(root_of(two, left), root_of(two, right)),
{
    let h = left.len() as int;
    assert((left + right).take(h) =~= left);
    assert((left + right).skip(h) =~= right);
}

/// Every leaf counts: as long as no two pairs of digests collide, a root fixes the digests of all
/// leaves below it.
pub proof fn lemma_root_binds_leaves(
    two: spec_fn(Seq<Elt>, Seq<Elt>) -> Seq<Elt>,
    a: Seq<Seq<Elt>>,
    b: Seq<Seq<Elt>>,
)
    requires
        no_collision(two),
        a.len() == b.len(),
        a.len() > 0,
        root_of(two, a) == root_of(two, b),
    ensures
        a == b,
    decreases a.len(),
{
    if a.len() <= 1 {
        assert(a =~= b);
    } else {
        let h = (a.len() / 2) as int;
        lemma_root_binds_leaves(two, a.take(h), b.take(h));
        lemma_root_binds_leaves(two, a.skip(h), b.skip(h));
        assert(a =~= a.take(h) + a.skip(h));
        assert(b =~= b.take(h) + b.skip(h));
    }
}

/// One more sibling at the end of a path: it is hashed with the end of the rest of the path, on
/// the side that the bit of the index above that rest says.
pub proof fn lemma_path_last_sibling(
    two: spec_fn(Seq<Elt>, Seq<Elt>) -> Seq<Elt>,
    digest: Seq<Elt>,
    index: nat,
    siblings: Seq<Seq<Elt>>,
    last: Seq<Elt>,
)
    ensures
        (index as int / pow2(siblings.len()) as int) % 2 == 0 ==> path_end(
            two,
            digest,
            index,
            siblings.push(last),
        ) == two(path_end(two, digest, index, siblings), last),
        (index as int / pow2(siblings.len()) as int) % 2 == 1 ==> path_end(
            two,
            digest,
            index,
            siblings.push(last),
        ) == two(last, path_end(two, digest, index, siblings)),
    decreases siblings.len(),
{
    if siblings.len() == 0 {
        lemma_pow2_basics();
        assert(index as int / 1 == index);
        let more = siblings.push(last);
        assert(more.skip(1).len() == 0);
        assert(path_end(two, two(last, digest), index / 2, more.skip(1)) == two(last, digest));
        assert(path_end(two, two(digest, last), index / 2, more.skip(1)) == two(digest, last));
    } else {
        let m = (siblings.len() - 1) as nat;
        let parent = if index % 2 == 1 {
            two(siblings[0], digest)
        } else {
            two(digest, siblings[0])
        };
        assert(siblings.push(last).skip(1) =~= siblings.skip(1).push(last));
        lemma_path_last_sibling(two, parent, index / 2, siblings.skip(1), last);
        lemma_pow2_double(m);
        lemma_pow2_pos(m);
        vstd::arithmetic::div_mod::lemma_div_denominator(index as int, 2, pow2(m) as int);
        assert(siblings.skip(1).len() == m);
    }
}

/// A proof binds a leaf: as long as no two pairs of digests collide, two paths from the same index
/// that are equally long and end in the same digest start from the same leaf and have the same
/// siblings.
pub proof fn lemma_path_binds_leaf(
    two: spec_fn(Seq<Elt>, Seq<Elt>) -> Seq<Elt>,
    digest: Seq<Elt>,
    other: Seq<Elt>,
    index: nat,
    siblings: Seq<Seq<Elt>>,
    others: Seq<Seq<Elt>>,
)
    requires
        no_collision(two),
        siblings.len() == others.len(),
        path_end(two, digest, index, siblings) == path_end(two, other, index, others),
    ensures
        digest == other,
        siblings == others,
    decreases siblings.len(),
{
    if siblings.len() == 0 {
        assert(siblings =~= others);
    } else {
        let parent = if index % 2 == 1 {
            two(siblings[0], digest)
        } else {
            two(digest, siblings[0])
        };
        let other_parent = if index % 2 == 1 {
            two(others[0], other)
        } else {
            two(other, others[0])
        };
        lemma_path_binds_leaf(
            two,
            parent,
            other_parent,
            index / 2,
            siblings.skip(1),
            others.skip(1),
        );
        assert(siblings =~= seq![siblings[0]] + siblings.skip(1));
        assert(others =~= seq![others[0]] + others.skip(1));
    }
}

/// The elements of a cap are those of its digests, one digest after the other.
pub proof fn lemma_cap_elements_in_order(cap: Seq<HashOut>, n: nat, i: int, k: int)
    requires
        n <= cap.len(),
        0 <= i < n,
        0 <= k < 4,
    ensures
        flat_elements(cap, n).len() == 4 * n,
        flat_elements(cap, n)[4 * i + k] == cap[i].digest()[k],
    decreases n,
{
    let m = (n - 1) as nat;
    assert(flat_elements(cap, 0).len() == 0);
    if i < m {
        lemma_cap_elements_in_order(cap, m, i, k);
    } else if m > 0 {
        lemma_cap_elements_in_order(cap, m, 0, 0);
    }
}

/// The digests of leaves that lie in rows, or in natural-order columns: leaf `i` of columns has the
/// entry of each column at `i` with its bits reversed.
pub proof fn lemma_leaf_digests(
    leaf: spec_fn(Seq<Elt>) -> Seq<Elt>,
    rows: Seq<GoldilocksField>,
    width: int,
    n: nat,
    columns: ColumnStore<GoldilocksField>,
    log_rows: nat,
    i: int,
)
    requires
        0 <= i < n,
        0 <= width,
        rows.len() == n * width,
        columns.height() == pow2(log_rows),
        columns.rectangular(),
    ensures
        row_digests(leaf, rows, width, n).len() == n,
        row_digests(leaf, rows, width, n)[i] == leaf(
            Seq::new(width as nat, |j: int| rows[i * width + j].v()),
        ),
        column_digests(leaf, columns).len() == pow2(log_rows),
        i < pow2(log_rows) ==> column_digests(leaf, columns)[i] == leaf(
            Seq::new(
                columns.width(),
                |j: int| columns.column(j)[rev(i as nat, log_rows) as int].v(),
            ),
        ),
{
    assert(0 <= i * width && i * width + width <= n * width) by (nonlinear_arith)
        requires
            0 <= i,
            i + 1 <= n,
            0 <= width,
    ;
    assert(vals(rows.subrange(i * width, i * width + width)) =~= Seq::new(
        width as nat,
        |j: int| rows[i * width + j].v(),
    ));
    lemma_log2(log_rows);
    if i < pow2(log_rows) {
        assert(vals(columns.leaf(i, log_rows)) =~= Seq::new(
            columns.width(),
            |j: int| columns.column(j)[rev(i as nat, log_rows) as int].v(),
        ));
    }
}

} // verus!
