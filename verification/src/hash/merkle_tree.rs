//! Merkle trees with caps, over row-major and column-major leaves.

use crate::field::goldilocks_field::GoldilocksField;
use crate::field::model::Elt;
use crate::field::polynomial::{copy_vec, filled};
use crate::field::types::vals;
use crate::gates::gate::lemma_flat_split;
use crate::hash::columns::ColumnStore;
use crate::hash::hash_types::GenericHashOut;
use crate::hash::merkle_model::{
    cap_leaves, is_tree, lemma_layout_index, lemma_layout_two, lemma_path_end,
    lemma_subtree_children, lemma_subtree_joined, lemma_subtrees_step, lemma_tree_sizes, node_index,
    path_end, path_siblings, root_of, subtree_filled, subtree_layout, subtrees_filled,
};
use crate::plonk::config::{Hasher, column_digests, row_digests};
use crate::util::bits::{
    is_power_of_two, lemma_log2, lemma_pow2_basics, lemma_pow2_double, lemma_pow2_mono, log2,
    log2_strict, rev, reverse_bits, two_pow,
};
use vstd::arithmetic::power2::{lemma_pow2_pos, pow2};
use vstd::prelude::*;
use vstd::slice::slice_subrange;

verus! {

/// The compression function of a hasher.
pub open spec fn two_of<H: Hasher>() -> spec_fn(Seq<Elt>, Seq<Elt>) -> Seq<Elt> {
    |a: Seq<Elt>, b: Seq<Elt>| H::two_spec(a, b)
}

/// The digests of `n` rows of `width` elements, from row `first` on.
pub open spec fn leaf_range<H: Hasher>(
    leaves: Seq<GoldilocksField>,
    width: int,
    first: int,
    n: nat,
) -> Seq<Seq<Elt>> {
    Seq::new(
        n,
        |i: int|
            H::leaf_spec(
                vals(leaves.subrange((first + i) * width, (first + i) * width + width)),
            ),
    )
}

/// Row `k` of a row-major buffer.
fn row(leaves: &[GoldilocksField], width: usize, k: usize) -> (r: &[GoldilocksField])
    requires
        (k + 1) * width <= leaves@.len(),
    ensures
        r@ == leaves@.subrange(k * width, k * width + width),
{
    let n: usize = leaves.len();
    proof {
        assert((k + 1) * width == k * width + width) by (nonlinear_arith);
        assert(0 <= k * width) by (nonlinear_arith)
            requires
                0 <= k,
                0 <= width,
        ;
    }
    slice_subrange(leaves, k * width, k * width + width)
}

proof fn lemma_rows_fit(k: int, n: int, width: int)
    requires
        k <= n,
        0 <= width,
    ensures
        k * width <= n * width,
{
    assert(k * width <= n * width) by (nonlinear_arith)
        requires
            k <= n,
            0 <= width,
    ;
}

proof fn lemma_leaf_range_halves<H: Hasher>(
    leaves: Seq<GoldilocksField>,
    width: int,
    first: int,
    half: nat,
)
    ensures
        leaf_range::<H>(leaves, width, first, 2 * half).take(half as int) == leaf_range::<H>(
            leaves,
            width,
            first,
            half,
        ),
        leaf_range::<H>(leaves, width, first, 2 * half).skip(half as int) == leaf_range::<H>(
            leaves,
            width,
            first + half,
            half,
        ),
{
    let whole = leaf_range::<H>(leaves, width, first, 2 * half);
    assert(whole.take(half as int) =~= leaf_range::<H>(leaves, width, first, half));
    assert forall|i: int| 0 <= i < half implies whole.skip(half as int)[i] == #[trigger] leaf_range::<
        H,
    >(leaves, width, first + half, half)[i] by {
        assert(first + (half + i) == first + half + i);
    }
    assert(whole.skip(half as int) =~= leaf_range::<H>(leaves, width, first + half, half));
}

/// Fills the digests of a subtree over row-major leaves, and returns its root.
pub fn fill_subtree_flat<H: Hasher>(
    digests: &mut [H::Hash],
    lo: usize,
    leaves: &[GoldilocksField],
    first: usize,
    leaf_width: usize,
    num_leaves: usize,
) -> (root: H::Hash)
    requires
        is_power_of_two(num_leaves as nat),
        (first + num_leaves) * leaf_width <= leaves@.len(),
        first + num_leaves <= usize::MAX,
        lo + 2 * (num_leaves - 1) <= old(digests)@.len(),
    ensures
        subtree_filled(
            two_of::<H>(),
            leaf_range::<H>(leaves@, leaf_width as int, first as int, num_leaves as nat),
            old(digests)@,
            final(digests)@,
            lo as int,
        ),
        root.digest() == root_of(
            two_of::<H>(),
            leaf_range::<H>(leaves@, leaf_width as int, first as int, num_leaves as nat),
        ),
    decreases num_leaves,
{
    let ghost two = two_of::<H>();
    let ghost all = leaf_range::<H>(leaves@, leaf_width as int, first as int, num_leaves as nat);
    let ghost before = digests@;
    let size: usize = digests.len();
    let ghost k = choose|k: nat| pow2(k) == num_leaves;
    proof {
        lemma_pow2_basics();
        lemma_pow2_pos(k);
        if k > 0 {
            lemma_pow2_double((k - 1) as nat);
        }
    }
    if num_leaves == 1 {
        let leaf = row(leaves, leaf_width, first);
        return H::hash_or_noop(leaf);
    }
    let half: usize = num_leaves / 2;
    let ghost (left_all, right_all) = (all.take(half as int), all.skip(half as int));
    proof {
        assert(half == pow2((k - 1) as nat));
        lemma_log2((k - 1) as nat);
        lemma_leaf_range_halves::<H>(leaves@, leaf_width as int, first as int, half as nat);
        lemma_rows_fit(first + half, first + num_leaves, leaf_width as int);
        lemma_rows_fit(first + 1, first + num_leaves, leaf_width as int);
        lemma_rows_fit(first + 2, first + num_leaves, leaf_width as int);
        assert(all.len() / 2 == half);
    }
    if num_leaves == 2 {
        let (left, right) = H::hash_or_noop_pair(
            row(leaves, leaf_width, first),
            row(leaves, leaf_width, first + 1),
        );
        digests[lo] = left;
        digests[lo + 1] = right;
        proof {
            assert(left_all[0] == left.digest());
            assert(right_all[0] == right.digest());
            lemma_subtree_joined(two, all, 1, before, digests@, lo as int);
        }
        return H::two_to_one(left, right);
    }
    if num_leaves == 4 {
        proof {
            lemma_rows_fit(first + 3, first + num_leaves, leaf_width as int);
            lemma_leaf_range_halves::<H>(leaves@, leaf_width as int, first as int, 1);
            lemma_leaf_range_halves::<H>(leaves@, leaf_width as int, first + 2, 1);
        }
        let (h0, h1, h2, h3) = H::hash_or_noop_quad(
            row(leaves, leaf_width, first),
            row(leaves, leaf_width, first + 1),
            row(leaves, leaf_width, first + 2),
            row(leaves, leaf_width, first + 3),
        );
        digests[lo] = h0;
        digests[lo + 1] = h1;
        digests[lo + 4] = h2;
        digests[lo + 5] = h3;
        let (left, right) = H::two_to_one_pair(h0, h1, h2, h3);
        digests[lo + 2] = left;
        digests[lo + 3] = right;
        proof {
            assert(left_all[0] == h0.digest() && left_all[1] == h1.digest());
            assert(right_all[0] == h2.digest() && right_all[1] == h3.digest());
            lemma_layout_two(two, left_all);
            lemma_layout_two(two, right_all);
            assert(root_of(two, left_all) == left.digest());
            assert(root_of(two, right_all) == right.digest());
            lemma_subtree_joined(two, all, 2, before, digests@, lo as int);
        }
        return H::two_to_one(left, right);
    }
    let left = fill_subtree_flat::<H>(digests, lo, leaves, first, leaf_width, half);
    let ghost mid = digests@;
    let right = fill_subtree_flat::<H>(
        digests,
        lo + 2 * half,
        leaves,
        first + half,
        leaf_width,
        half,
    );
    let ghost late = digests@;
    digests[lo + 2 * half - 2] = left;
    digests[lo + 2 * half - 1] = right;
    proof {
        lemma_subtree_children(
            two,
            all,
            half as int,
            before,
            mid,
            late,
            digests@,
            lo as int,
        );
    }
    H::two_to_one(left, right)
}

/// Fills the digests of a subtree over separate leaves, and returns its root.
pub fn fill_subtree<H: Hasher>(
    digests: &mut [H::Hash],
    lo: usize,
    leaves: &[Vec<GoldilocksField>],
    first: usize,
    num_leaves: usize,
) -> (root: H::Hash)
    requires
        is_power_of_two(num_leaves as nat),
        first + num_leaves <= leaves@.len(),
        lo + 2 * (num_leaves - 1) <= old(digests)@.len(),
    ensures
        subtree_filled(
            two_of::<H>(),
            separate_leaves::<H>(leaves@.subrange(first as int, first + num_leaves)),
            old(digests)@,
            final(digests)@,
            lo as int,
        ),
        root.digest() == root_of(
            two_of::<H>(),
            separate_leaves::<H>(leaves@.subrange(first as int, first + num_leaves)),
        ),
    decreases num_leaves,
{
    let ghost two = two_of::<H>();
    let ghost all = separate_leaves::<H>(leaves@.subrange(first as int, first + num_leaves));
    let ghost before = digests@;
    let size: usize = digests.len();
    let count: usize = leaves.len();
    let ghost k = choose|k: nat| pow2(k) == num_leaves;
    proof {
        lemma_pow2_basics();
        lemma_pow2_pos(k);
        if k > 0 {
            lemma_pow2_double((k - 1) as nat);
        }
    }
    if num_leaves == 1 {
        return H::hash_or_noop(leaves[first].as_slice());
    }
    let half: usize = num_leaves / 2;
    proof {
        assert(half == pow2((k - 1) as nat));
        lemma_log2((k - 1) as nat);
        assert(all.take(half as int) =~= separate_leaves::<H>(
            leaves@.subrange(first as int, first + half),
        ));
        assert(all.skip(half as int) =~= separate_leaves::<H>(
            leaves@.subrange(first + half, first + half + half),
        ));
        assert(all.len() / 2 == half);
    }
    let left = fill_subtree::<H>(digests, lo, leaves, first, half);
    let ghost mid = digests@;
    let right = fill_subtree::<H>(digests, lo + 2 * half, leaves, first + half, half);
    let ghost late = digests@;
    digests[lo + 2 * half - 2] = left;
    digests[lo + 2 * half - 1] = right;
    proof {
        lemma_subtree_children(
            two,
            all,
            half as int,
            before,
            mid,
            late,
            digests@,
            lo as int,
        );
    }
    H::two_to_one(left, right)
}

/// The digests of separate leaves.
pub open spec fn separate_leaves<H: Hasher>(leaves: Seq<Vec<GoldilocksField>>) -> Seq<Seq<Elt>> {
    Seq::new(leaves.len(), |i: int| H::leaf_spec(vals(leaves[i]@)))
}

/// Fills the digests and the cap of a tree over row-major leaves.
pub fn fill_digests_buf_flat<H: Hasher>(
    digests: &mut [H::Hash],
    cap: &mut [H::Hash],
    leaves: &[GoldilocksField],
    leaf_width: usize,
    num_leaves: usize,
    cap_height: usize,
)
    requires
        is_power_of_two(num_leaves as nat),
        cap_height <= log2(num_leaves as nat),
        num_leaves * leaf_width <= leaves@.len(),
        old(cap)@.len() == pow2(cap_height as nat),
        old(digests)@.len() == 2 * (num_leaves - pow2(cap_height as nat)),
    ensures
        is_tree(
            two_of::<H>(),
            leaf_range::<H>(leaves@, leaf_width as int, 0, num_leaves as nat),
            cap_height as nat,
            final(digests)@,
            final(cap)@,
        ),
{
    let ghost two = two_of::<H>();
    let ghost all = leaf_range::<H>(leaves@, leaf_width as int, 0, num_leaves as nat);
    let ghost log_leaves = log2(num_leaves as nat);
    let caps: usize = cap.len();
    let size: usize = digests.len();
    proof {
        lemma_tree_sizes(log_leaves, cap_height as nat);
        lemma_pow2_mono((log_leaves - cap_height) as nat, log_leaves);
        lemma_log2((log_leaves - cap_height) as nat);
        lemma_pow2_pos((log_leaves - cap_height) as nat);
        lemma_pow2_pos(cap_height as nat);
    }
    let subtree_leaves: usize = num_leaves / caps;
    let ghost m = subtree_leaves as int;
    let ghost t = 2 * (m - 1);
    let mut i: usize = 0;
    while i < caps
        invariant
            i <= caps,
            two == two_of::<H>(),
            all == leaf_range::<H>(leaves@, leaf_width as int, 0, num_leaves as nat),
            cap@.len() == caps,
            digests@.len() == size,
            subtree_leaves == m,
            t == 2 * (m - 1),
            m >= 1,
            is_power_of_two(m as nat),
            caps * m == num_leaves,
            size == caps * t,
            num_leaves * leaf_width <= leaves@.len(),
            subtrees_filled(two, all, m, digests@, cap@, i as int),
        decreases caps - i,
    {
        proof {
            let c = i as int;
            assert(0 <= c * m && c * m + m <= caps * m) by (nonlinear_arith)
                requires
                    0 <= c,
                    c + 1 <= caps,
                    0 <= m,
            ;
            assert(0 <= c * t && c * t + t <= caps * t) by (nonlinear_arith)
                requires
                    0 <= c,
                    c + 1 <= caps,
                    0 <= t,
            ;
            lemma_rows_fit(c * m + m, num_leaves as int, leaf_width as int);
            let part = cap_leaves(all, m, c);
            let range = leaf_range::<H>(leaves@, leaf_width as int, c * m, m as nat);
            assert forall|k: int| 0 <= k < m implies part[k] == #[trigger] range[k] by {
                assert(0 + (c * m + k) == c * m + k);
            }
            assert(part =~= range);
        }
        let ghost before = digests@;
        let ghost cap_before = cap@;
        let width: usize = 2 * (subtree_leaves - 1);
        let root = fill_subtree_flat::<H>(
            digests,
            i * width,
            leaves,
            i * subtree_leaves,
            leaf_width,
            subtree_leaves,
        );
        cap[i] = root;
        proof {
            lemma_subtrees_step(two, all, m, before, digests@, cap_before, cap@, i as int);
        }
        i = i + 1;
    }
}

/// Fills the digests and the cap of a tree over separate leaves.
pub fn fill_digests_buf<H: Hasher>(
    digests: &mut [H::Hash],
    cap: &mut [H::Hash],
    leaves: &[Vec<GoldilocksField>],
    cap_height: usize,
)
    requires
        is_power_of_two(leaves@.len()),
        cap_height <= log2(leaves@.len()),
        old(cap)@.len() == pow2(cap_height as nat),
        old(digests)@.len() == 2 * (leaves@.len() - pow2(cap_height as nat)),
    ensures
        is_tree(
            two_of::<H>(),
            separate_leaves::<H>(leaves@),
            cap_height as nat,
            final(digests)@,
            final(cap)@,
        ),
{
    let ghost two = two_of::<H>();
    let ghost all = separate_leaves::<H>(leaves@);
    let ghost log_leaves = log2(leaves@.len());
    let num_leaves: usize = leaves.len();
    let caps: usize = cap.len();
    let size: usize = digests.len();
    proof {
        lemma_tree_sizes(log_leaves, cap_height as nat);
        lemma_pow2_mono((log_leaves - cap_height) as nat, log_leaves);
        lemma_log2((log_leaves - cap_height) as nat);
        lemma_pow2_pos((log_leaves - cap_height) as nat);
        lemma_pow2_pos(cap_height as nat);
    }
    let subtree_leaves: usize = num_leaves / caps;
    let ghost m = subtree_leaves as int;
    let ghost t = 2 * (m - 1);
    let mut i: usize = 0;
    while i < caps
        invariant
            i <= caps,
            two == two_of::<H>(),
            all == separate_leaves::<H>(leaves@),
            cap@.len() == caps,
            digests@.len() == size,
            subtree_leaves == m,
            t == 2 * (m - 1),
            m >= 1,
            is_power_of_two(m as nat),
            caps * m == num_leaves == leaves@.len(),
            size == caps * t,
            subtrees_filled(two, all, m, digests@, cap@, i as int),
        decreases caps - i,
    {
        proof {
            let c = i as int;
            assert(0 <= c * m && c * m + m <= caps * m) by (nonlinear_arith)
                requires
                    0 <= c,
                    c + 1 <= caps,
                    0 <= m,
            ;
            assert(0 <= c * t && c * t + t <= caps * t) by (nonlinear_arith)
                requires
                    0 <= c,
                    c + 1 <= caps,
                    0 <= t,
            ;
            assert(cap_leaves(all, m, c) =~= separate_leaves::<H>(
                leaves@.subrange(c * m, c * m + m),
            ));
        }
        let ghost before = digests@;
        let ghost cap_before = cap@;
        let width: usize = 2 * (subtree_leaves - 1);
        let root = fill_subtree::<H>(
            digests,
            i * width,
            leaves,
            i * subtree_leaves,
            subtree_leaves,
        );
        cap[i] = root;
        proof {
            lemma_subtrees_step(two, all, m, before, digests@, cap_before, cap@, i as int);
        }
        i = i + 1;
    }
}

/// The Merkle cap of height `h` of a Merkle tree is the `h`-th layer (from the root) of the tree.
/// It can be used in place of the root to verify Merkle paths, which are `h` elements shorter.
#[derive(Clone, Debug)]
pub struct MerkleCap<H: Hasher>(pub Vec<H::Hash>);

impl<H: Hasher> Default for MerkleCap<H> {
    fn default() -> (r: Self)
        ensures
            r.0@.len() == 0,
    {
        MerkleCap(Vec::new())
    }
}

/// The field elements of the first `n` digests.
pub open spec fn flat_elements<D: GenericHashOut>(digests: Seq<D>, n: nat) -> Seq<Elt>
    decreases n,
{
    if n == 0 {
        Seq::empty()
    } else {
        flat_elements(digests, (n - 1) as nat) + digests[n - 1].field_elements()
    }
}

impl<H: Hasher> MerkleCap<H> {
    /// The number of digests.
    pub fn len(&self) -> (r: usize)
        ensures
            r == self.0@.len(),
    {
        self.0.len()
    }

    /// Whether there are no digests.
    pub fn is_empty(&self) -> (r: bool)
        ensures
            r == (self.0@.len() == 0),
    {
        self.0.len() == 0
    }

    /// The layer that the cap is.
    pub fn height(&self) -> (r: usize)
        requires
            is_power_of_two(self.0@.len()),
        ensures
            r == log2(self.0@.len()),
            pow2(r as nat) == self.0@.len(),
    {
        log2_strict(self.0.len())
    }

    /// The field elements of all digests.
    pub fn flatten(&self) -> (r: Vec<GoldilocksField>)
        ensures
            vals(r@) == flat_elements(self.0@, self.0@.len()),
    {
        let mut r: Vec<GoldilocksField> = Vec::new();
        let mut i: usize = 0;
        assert(vals(r@) =~= Seq::<Elt>::empty());
        while i < self.0.len()
            invariant
                i <= self.0@.len(),
                vals(r@) == flat_elements(self.0@, i as nat),
            decreases self.0@.len() - i,
        {
            let mut part = self.0[i].to_vec();
            let ghost (a, b) = (r@, part@);
            r.append(&mut part);
            proof {
                assert(vals(r@) =~= vals(a) + vals(b));
            }
            i = i + 1;
        }
        r
    }
}

/// Backing storage for the Merkle tree leaves.
#[derive(Clone, Debug)]
pub enum MerkleLeaves {
    /// One flat row-major buffer: leaf `i` occupies `data[i * width..(i + 1) * width]`.
    Rows { data: Vec<GoldilocksField>, width: usize },
    /// Natural-order columns: leaf `i` holds entry `reverse_bits(i, log_rows)` of each column.
    Columns { columns: ColumnStore<GoldilocksField>, log_rows: usize },
}

impl MerkleLeaves {
    /// The number of elements in a leaf.
    pub open spec fn width(self) -> nat {
        match self {
            MerkleLeaves::Rows { data, width } => width as nat,
            MerkleLeaves::Columns { columns, log_rows } => columns.width(),
        }
    }

    /// Leaf `i`.
    pub open spec fn leaf(self, i: int) -> Seq<GoldilocksField> {
        match self {
            MerkleLeaves::Rows { data, width } => data@.subrange(i * width, i * width + width),
            MerkleLeaves::Columns { columns, log_rows } => columns.leaf(i, log_rows as nat),
        }
    }

    /// The storage holds `n` leaves.
    pub open spec fn holds(self, n: nat) -> bool {
        match self {
            MerkleLeaves::Rows { data, width } => data@.len() == n * width,
            MerkleLeaves::Columns { columns, log_rows } => {
                &&& columns.rectangular()
                &&& columns.height() == n
                &&& n == pow2(log_rows as nat)
            },
        }
    }

    /// The number of elements in a leaf.
    pub fn leaf_width(&self) -> (r: usize)
        ensures
            r == self.width(),
    {
        match self {
            MerkleLeaves::Rows { data, width } => *width,
            MerkleLeaves::Columns { columns, log_rows } => columns.num_cols(),
        }
    }

    /// A copy of leaf `i`.
    pub fn leaf_vec(&self, i: usize, num_leaves: usize) -> (r: Vec<GoldilocksField>)
        requires
            self.holds(num_leaves as nat),
            i < num_leaves,
        ensures
            r@ == self.leaf(i as int),
            r@.len() == self.width(),
    {
        let mut r: Vec<GoldilocksField> = Vec::new();
        match self {
            MerkleLeaves::Rows { data, width } => {
                proof {
                    lemma_rows_fit(i + 1, num_leaves as int, *width as int);
                }
                let leaf = row(data.as_slice(), *width, i);
                let mut j: usize = 0;
                while j < leaf.len()
                    invariant
                        j <= leaf@.len(),
                        r@ == leaf@.take(j as int),
                    decreases leaf@.len() - j,
                {
                    r.push(leaf[j]);
                    j = j + 1;
                    assert(r@ =~= leaf@.take(j as int));
                }
                assert(r@ =~= leaf@);
                assert(leaf@.len() == *width) by {
                    assert((i + 1) * *width == i * *width + *width) by (nonlinear_arith);
                    assert(0 <= i * *width) by (nonlinear_arith)
                        requires
                            0 <= i,
                            0 <= *width,
                    ;
                }
            },
            MerkleLeaves::Columns { columns, log_rows } => {
                let natural: usize = reverse_bits(i, *log_rows);
                let cols: usize = columns.num_cols();
                while r.len() < cols
                    invariant
                        r@.len() <= cols == columns.width(),
                        columns.rectangular(),
                        natural < columns.height(),
                        natural == rev(i as nat, *log_rows as nat),
                        forall|j: int|
                            0 <= j < r@.len() ==> #[trigger] r@[j] == columns.column(
                                j,
                            )[natural as int],
                    decreases cols - r@.len(),
                {
                    let j: usize = r.len();
                    let column = columns.col(j);
                    assert(columns.column(j as int).len() == columns.height());
                    r.push(column[natural]);
                }
                assert(r@ =~= columns.leaf(i as int, *log_rows as nat));
            },
        }
        r
    }
}

/// A Merkle tree with its leaves.
#[derive(Clone, Debug)]
pub struct MerkleTree<H: Hasher> {
    /// The data in the leaves of the Merkle tree.
    pub leaves: MerkleLeaves,
    /// The number of leaves.
    pub num_leaves: usize,
    /// The digests in the tree. Consists of `cap.len()` sub-trees, each corresponding to one
    /// element in `cap`. Within each subtree, siblings are stored next to each other, between the
    /// digests below the left and those below the right one.
    pub digests: Vec<H::Hash>,
    /// The Merkle cap.
    pub cap: MerkleCap<H>,
}

impl<H: Hasher> Default for MerkleTree<H> {
    fn default() -> (r: Self)
        ensures
            r.leaves matches MerkleLeaves::Rows { data, width } && data@.len() == 0 && width == 0,
            r.num_leaves == 0,
            r.digests@.len() == 0,
            r.cap.0@.len() == 0,
    {
        MerkleTree {
            leaves: MerkleLeaves::Rows { data: Vec::new(), width: 0 },
            num_leaves: 0,
            digests: Vec::new(),
            cap: MerkleCap(Vec::new()),
        }
    }
}

/// The digests of the leaves of a tree.
pub open spec fn tree_leaves<H: Hasher>(leaves: MerkleLeaves, n: nat) -> Seq<Seq<Elt>> {
    Seq::new(n, |i: int| H::leaf_spec(vals(leaves.leaf(i))))
}

/// The digests and the cap of a tree over row-major leaves.
fn cpu_digests<H: Hasher>(
    leaves: &[GoldilocksField],
    leaf_width: usize,
    num_leaves: usize,
    cap_height: usize,
) -> (r: (Vec<H::Hash>, Vec<H::Hash>))
    requires
        is_power_of_two(num_leaves as nat),
        cap_height <= log2(num_leaves as nat),
        num_leaves * leaf_width <= leaves@.len(),
        2 * num_leaves <= usize::MAX,
    ensures
        is_tree(
            two_of::<H>(),
            leaf_range::<H>(leaves@, leaf_width as int, 0, num_leaves as nat),
            cap_height as nat,
            r.0@,
            r.1@,
        ),
{
    proof {
        lemma_pow2_mono(cap_height as nat, log2(num_leaves as nat));
    }
    let len_cap: usize = two_pow(cap_height);
    let num_digests: usize = 2 * (num_leaves - len_cap);
    let zero_bytes = filled(0u8, H::hash_size());
    let blank = <H::Hash as GenericHashOut>::from_bytes(zero_bytes.as_slice());
    let mut digests = filled(blank, num_digests);
    let mut cap = filled(blank, len_cap);
    fill_digests_buf_flat::<H>(
        digests.as_mut_slice(),
        cap.as_mut_slice(),
        leaves,
        leaf_width,
        num_leaves,
        cap_height,
    );
    (digests, cap)
}

/// The row-major matrix of the leaves of a column store.
pub fn transpose_to_bitrev_flat(columns: &ColumnStore<GoldilocksField>, log_rows: usize) -> (r: Vec<
    GoldilocksField,
>)
    requires
        columns.rectangular(),
        columns.height() == pow2(log_rows as nat),
        columns.height() * columns.width() <= usize::MAX,
    ensures
        r@.len() == columns.height() * columns.width(),
        forall|i: int|
            0 <= i < columns.height() ==> #[trigger] r@.subrange(
                i * columns.width(),
                i * columns.width() + columns.width(),
            ) == columns.leaf(i, log_rows as nat),
{
    let rows: usize = columns.num_rows();
    let cols: usize = columns.num_cols();
    let mut r: Vec<GoldilocksField> = Vec::with_capacity(rows * cols);
    let mut i: usize = 0;
    assert(0 * cols == 0);
    while i < rows
        invariant
            i <= rows == columns.height(),
            cols == columns.width(),
            rows == pow2(log_rows as nat),
            columns.rectangular(),
            r@.len() == i * cols,
            forall|k: int|
                0 <= k < i ==> #[trigger] r@.subrange(k * cols, k * cols + cols) == columns.leaf(
                    k,
                    log_rows as nat,
                ),
        decreases rows - i,
    {
        let natural: usize = reverse_bits(i, log_rows);
        let ghost before = r@;
        let mut j: usize = 0;
        assert(before + columns.leaf(i as int, log_rows as nat).take(0) =~= before);
        while j < cols
            invariant
                j <= cols == columns.width(),
                columns.rectangular(),
                natural < columns.height(),
                natural == rev(i as nat, log_rows as nat),
                r@ == before + columns.leaf(i as int, log_rows as nat).take(j as int),
            decreases cols - j,
        {
            let column = columns.col(j);
            assert(columns.column(j as int).len() == columns.height());
            r.push(column[natural]);
            j = j + 1;
            assert(r@ =~= before + columns.leaf(i as int, log_rows as nat).take(j as int));
        }
        proof {
            let leaf = columns.leaf(i as int, log_rows as nat);
            assert(leaf.take(cols as int) =~= leaf);
            assert((i + 1) * cols == i * cols + cols) by (nonlinear_arith);
            assert forall|k: int| 0 <= k < i + 1 implies #[trigger] r@.subrange(
                k * cols,
                k * cols + cols,
            ) == columns.leaf(k, log_rows as nat) by {
                if k < i {
                    assert(0 <= k * cols && k * cols + cols <= i * cols) by (nonlinear_arith)
                        requires
                            0 <= k,
                            k + 1 <= i,
                            0 <= cols,
                    ;
                    assert(r@.subrange(k * cols, k * cols + cols) =~= before.subrange(
                        k * cols,
                        k * cols + cols,
                    ));
                } else {
                    assert(r@.subrange(k * cols, k * cols + cols) =~= leaf);
                }
            }
        }
        i = i + 1;
    }
    r
}

/// A Merkle proof: the siblings on the path from a leaf to the cap.
#[derive(Clone, Debug)]
pub struct MerkleProof<H: Hasher> {
    pub siblings: Vec<H::Hash>,
}

/// What the digests of a sequence of nodes are.
pub open spec fn digests_seq<D: GenericHashOut>(s: Seq<D>) -> Seq<Seq<Elt>> {
    Seq::new(s.len(), |i: int| s[i].digest())
}

/// The index, among all digests, of the sibling at layer `i` of the path of a leaf in a tree with
/// subtrees of `2^k` leaves.
pub open spec fn sibling_index(leaf_index: nat, k: nat, i: nat) -> int {
    let tree = leaf_index as int / pow2(k) as int;
    let node = (leaf_index as int % pow2(k) as int) / pow2(i) as int;
    tree * (2 * (pow2(k) - 1)) + node_index(i, node / 2, 1 - node % 2)
}

proof fn lemma_sibling_index(leaf_index: nat, k: nat, i: nat, caps: int)
    requires
        i < k,
        leaf_index < caps * pow2(k),
    ensures
        ({
            let node = (leaf_index as int % pow2(k) as int) / pow2(i) as int;
            let tree = leaf_index as int / pow2(k) as int;
            &&& 0 <= tree < caps
            &&& 0 <= node / 2 < pow2((k - i - 1) as nat)
            &&& 0 <= node_index(i, node / 2, 1 - node % 2) < 2 * (pow2(k) - 1)
            &&& 0 <= sibling_index(leaf_index, k, i) < caps * (2 * (pow2(k) - 1))
            &&& 0 <= (node / 2) * pow2(i + 1)
            &&& (node / 2) * pow2(i + 1) + pow2(i) - 1 <= pow2(k) - 1
        }),
{
    let m = pow2(k) as int;
    let w = pow2(i) as int;
    lemma_pow2_pos(k);
    lemma_pow2_pos(i);
    lemma_pow2_double(i);
    vstd::arithmetic::div_mod::lemma_fundamental_div_mod(leaf_index as int, m);
    let (tree, idx) = (leaf_index as int / m, leaf_index as int % m);
    vstd::arithmetic::div_mod::lemma_div_pos_is_pos(leaf_index as int, m);
    assert(tree < caps) by (nonlinear_arith)
        requires
            m * tree + idx == leaf_index,
            0 <= idx,
            leaf_index < caps * m,
            m > 0,
    ;
    vstd::arithmetic::div_mod::lemma_fundamental_div_mod(idx, w);
    vstd::arithmetic::div_mod::lemma_div_pos_is_pos(idx, w);
    let node = idx / w;
    let c = pow2((k - i - 1) as nat) as int;
    vstd::arithmetic::power2::lemma_pow2_adds(i + 1, (k - i - 1) as nat);
    let q = node / 2;
    assert(q < c) by (nonlinear_arith)
        requires
            w * node + idx % w == idx,
            0 <= idx % w,
            idx < (2 * w) * c,
            node >= 2 * q,
            w > 0,
    ;
    let w2 = 2 * w;
    assert(0 <= q * w2 && q * w2 + w2 <= w2 * c) by (nonlinear_arith)
        requires
            0 <= q,
            q + 1 <= c,
            w2 > 0,
    ;
    let t = 2 * (m - 1);
    assert(0 <= tree * t && tree * t + t <= caps * t) by (nonlinear_arith)
        requires
            0 <= tree,
            tree + 1 <= caps,
            0 <= t,
    ;
}

/// The siblings on the path of a leaf, from the layer of the leaves up to the cap.
pub fn merkle_tree_prove<H: Hasher>(
    leaf_index: usize,
    leaves_len: usize,
    cap_height: usize,
    digests: &[H::Hash],
) -> (r: Vec<H::Hash>)
    requires
        is_power_of_two(leaves_len as nat),
        cap_height <= log2(leaves_len as nat),
        leaf_index < leaves_len,
        digests@.len() == 2 * (leaves_len - pow2(cap_height as nat)),
    ensures
        r@.len() == log2(leaves_len as nat) - cap_height,
        forall|i: int|
            0 <= i < r@.len() ==> #[trigger] r@[i] == digests@[sibling_index(
                leaf_index as nat,
                (log2(leaves_len as nat) - cap_height) as nat,
                i as nat,
            )],
{
    let ghost caps = pow2(cap_height as nat) as int;
    let log_leaves: usize = log2_strict(leaves_len);
    let num_layers: usize = log_leaves - cap_height;
    let ghost k = num_layers as nat;
    proof {
        lemma_tree_sizes(log_leaves as nat, cap_height as nat);
        lemma_pow2_mono(k, log_leaves as nat);
        lemma_pow2_pos(k);
        lemma_pow2_basics();
    }
    let size: usize = digests.len();
    let subtree: usize = two_pow(num_layers);
    let tree_index: usize = leaf_index / subtree;
    proof {
        let t = 2 * (subtree - 1);
        lemma_pow2_pos(cap_height as nat);
        assert(t <= size) by (nonlinear_arith)
            requires
                size == caps * t,
                caps >= 1,
                t >= 0,
        ;
    }
    let tree_len: usize = 2 * (subtree - 1);
    let start: usize = if num_layers == 0 {
        assert(tree_index * 0 == 0);
        0
    } else {
        proof {
            lemma_sibling_index(leaf_index as nat, k, 0, caps);
            assert(tree_index * tree_len <= size) by (nonlinear_arith)
                requires
                    0 <= tree_index < caps,
                    size == caps * tree_len,
            ;
        }
        tree_index * tree_len
    };
    let ghost idx = (leaf_index as int % subtree as int) as nat;
    let mut node: usize = leaf_index % subtree;
    let mut r: Vec<H::Hash> = Vec::with_capacity(num_layers);
    let mut width: usize = 1;
    let mut i: usize = 0;
    assert(idx as int / 1 == idx);
    while i < num_layers
        invariant
            i <= num_layers,
            k == num_layers,
            num_layers == log_leaves - cap_height,
            log_leaves == log2(leaves_len as nat),
            r@.len() == i,
            subtree == pow2(k),
            tree_len == 2 * (subtree - 1),
            tree_index == leaf_index as int / subtree as int,
            idx == leaf_index as int % subtree as int,
            start == tree_index * tree_len,
            width == pow2(i as nat),
            node == idx as int / pow2(i as nat) as int,
            leaf_index < caps * pow2(k),
            size == caps * tree_len == digests@.len(),
            forall|j: int|
                0 <= j < i ==> #[trigger] r@[j] == digests@[sibling_index(
                    leaf_index as nat,
                    k,
                    j as nat,
                )],
        decreases num_layers - i,
    {
        proof {
            lemma_sibling_index(leaf_index as nat, k, i as nat, caps);
            lemma_pow2_double(i as nat);
            lemma_pow2_mono(i as nat + 1, k);
        }
        let parity: usize = node % 2;
        let pair: usize = node / 2;
        let siblings_index: usize = pair * (2 * width) + width - 1;
        let sibling: usize = 2 * siblings_index + (1 - parity);
        r.push(digests[start + sibling]);
        proof {
            vstd::arithmetic::div_mod::lemma_div_denominator(idx as int, width as int, 2);
            assert(width * 2 == pow2(i as nat + 1));
        }
        node = pair;
        width = 2 * width;
        i = i + 1;
    }
    r
}

/// Only the lowest bits of an index matter to a path.
proof fn lemma_path_mod(
    two: spec_fn(Seq<Elt>, Seq<Elt>) -> Seq<Elt>,
    digest: Seq<Elt>,
    index: nat,
    siblings: Seq<Seq<Elt>>,
)
    ensures
        path_end(two, digest, index, siblings) == path_end(
            two,
            digest,
            (index as int % pow2(siblings.len()) as int) as nat,
            siblings,
        ),
    decreases siblings.len(),
{
    let n = siblings.len();
    lemma_pow2_pos(n);
    if n > 0 {
        let m = (n - 1) as nat;
        let p = pow2(m) as int;
        lemma_pow2_double(m);
        let small = index as int % (2 * p);
        assert(small % 2 == index % 2 && small / 2 == (index as int / 2) % p) by {
            vstd::arithmetic::div_mod::lemma_fundamental_div_mod(index as int, 2 * p);
            let c = index as int / (2 * p);
            assert((2 * p) * c == 2 * (p * c)) by (nonlinear_arith);
            assert(index as int / 2 == p * c + small / 2);
            assert(0 <= small / 2 < p);
            assert(p * c == c * p) by (nonlinear_arith);
            assert(index as int / 2 == c * p + small / 2);
            vstd::arithmetic::div_mod::lemma_fundamental_div_mod_converse(
                index as int / 2,
                p,
                c,
                small / 2,
            );
        }
        let parent = if index % 2 == 1 {
            two(siblings[0], digest)
        } else {
            two(digest, siblings[0])
        };
        lemma_path_mod(two, parent, index / 2, siblings.skip(1));
        assert(siblings.skip(1).len() == m);
    }
}

/// In a tree, the siblings that a proof holds lead from the digest of the leaf to the entry of
/// the cap above it.
pub proof fn lemma_proof_leads_to_cap<H: Hasher>(
    leaves: Seq<Seq<Elt>>,
    log_leaves: nat,
    cap_height: nat,
    digests: Seq<H::Hash>,
    cap: Seq<H::Hash>,
    leaf_index: nat,
    siblings: Seq<H::Hash>,
)
    requires
        leaves.len() == pow2(log_leaves),
        cap_height <= log_leaves,
        is_tree(two_of::<H>(), leaves, cap_height, digests, cap),
        leaf_index < leaves.len(),
        siblings.len() == log_leaves - cap_height,
        forall|i: int|
            0 <= i < siblings.len() ==> #[trigger] siblings[i] == digests[sibling_index(
                leaf_index,
                (log_leaves - cap_height) as nat,
                i as nat,
            )],
    ensures
        path_end(
            two_of::<H>(),
            leaves[leaf_index as int],
            leaf_index,
            digests_seq(siblings),
        ) == cap[leaf_index as int / pow2((log_leaves - cap_height) as nat) as int].digest(),
        0 <= leaf_index as int / (pow2((log_leaves - cap_height) as nat) as int) < cap.len(),
{
    let two = two_of::<H>();
    let k = (log_leaves - cap_height) as nat;
    let m = pow2(k) as int;
    let caps = pow2(cap_height) as int;
    lemma_tree_sizes(log_leaves, cap_height);
    lemma_pow2_pos(k);
    let tree = leaf_index as int / m;
    let idx = (leaf_index as int % m) as nat;
    vstd::arithmetic::div_mod::lemma_fundamental_div_mod(leaf_index as int, m);
    vstd::arithmetic::div_mod::lemma_div_pos_is_pos(leaf_index as int, m);
    assert(tree < caps) by (nonlinear_arith)
        requires
            m * tree + idx == leaf_index,
            0 <= idx,
            leaf_index < caps * m,
            m > 0,
    ;
    assert(0 <= tree * m && tree * m + m <= caps * m) by (nonlinear_arith)
        requires
            0 <= tree,
            tree + 1 <= caps,
            m > 0,
    ;
    assert(m * tree == tree * m) by (nonlinear_arith);
    let part = cap_leaves(leaves, m, tree);
    let path = path_siblings(two, part, k, idx);
    let t = 2 * (m - 1);
    assert forall|i: int| 0 <= i < k implies #[trigger] digests_seq(siblings)[i] == path[i] by {
        lemma_sibling_index(leaf_index, k, i as nat, caps);
        let node = idx as int / pow2(i as nat) as int;
        let (q, b) = (node / 2, 1 - node % 2);
        lemma_layout_index(two, part, k, i as nat, q, b);
        let x = node_index(i as nat, q, b);
        assert(siblings[i] == digests[tree * t + x]);
        assert(digests[tree * t + x].digest() == subtree_layout(two, part)[x]);
        if node % 2 == 1 {
            assert(2 * q + b == node - 1);
        } else {
            assert(2 * q + b == node + 1);
        }
    }
    assert(digests_seq(siblings) =~= path);
    lemma_path_end(two, part, k, idx);
    assert(part[idx as int] == leaves[leaf_index as int]);
    lemma_path_mod(two, leaves[leaf_index as int], leaf_index, path);
}

/// Whether a Merkle proof shows that a leaf with the given data is at the given index.
pub fn verify_merkle_proof_to_cap<H: Hasher>(
    leaf_data: &[GoldilocksField],
    leaf_index: usize,
    cap: &MerkleCap<H>,
    proof_path: &MerkleProof<H>,
) -> (r: bool)
    requires
        leaf_index as int / (pow2(proof_path.siblings@.len()) as int) < cap.0@.len(),
    ensures
        r == (path_end(
            two_of::<H>(),
            H::leaf_spec(vals(leaf_data@)),
            leaf_index as nat,
            digests_seq(proof_path.siblings@),
        ) == cap.0@[leaf_index as int / pow2(proof_path.siblings@.len()) as int].digest()),
{
    let ghost two = two_of::<H>();
    let ghost all = digests_seq(proof_path.siblings@);
    let n: usize = proof_path.siblings.len();
    let mut digest = H::hash_or_noop(leaf_data);
    let ghost start = digest.digest();
    let mut index: usize = leaf_index;
    let mut i: usize = 0;
    proof {
        assert(all.skip(0) =~= all);
        lemma_pow2_basics();
        assert(leaf_index as int / 1 == leaf_index);
    }
    while i < n
        invariant
            i <= n == proof_path.siblings@.len(),
            two == two_of::<H>(),
            all == digests_seq(proof_path.siblings@),
            index == leaf_index as int / pow2(i as nat) as int,
            path_end(two, digest.digest(), index as nat, all.skip(i as int)) == path_end(
                two,
                start,
                leaf_index as nat,
                all,
            ),
        decreases n - i,
    {
        let sibling = proof_path.siblings[i];
        let ghost rest = all.skip(i as int);
        let ghost before = digest.digest();
        if index % 2 == 1 {
            digest = H::two_to_one(sibling, digest);
        } else {
            digest = H::two_to_one(digest, sibling);
        }
        proof {
            assert(rest[0] == sibling.digest());
            assert(rest.skip(1) =~= all.skip(i + 1));
            lemma_pow2_double(i as nat);
            vstd::arithmetic::div_mod::lemma_div_denominator(
                leaf_index as int,
                pow2(i as nat) as int,
                2,
            );
        }
        index = index / 2;
        i = i + 1;
    }
    digest.same(&cap.0[index])
}

impl<H: Hasher> MerkleTree<H> {
    /// The digests and the cap belong to the leaves.
    pub open spec fn wf(self) -> bool {
        &&& is_power_of_two(self.num_leaves as nat)
        &&& is_power_of_two(self.cap.0@.len())
        &&& log2(self.cap.0@.len()) <= log2(self.num_leaves as nat)
        &&& self.leaves.holds(self.num_leaves as nat)
        &&& is_tree(
            two_of::<H>(),
            tree_leaves::<H>(self.leaves, self.num_leaves as nat),
            log2(self.cap.0@.len()),
            self.digests@,
            self.cap.0@,
        )
    }

    /// Build a tree from per-leaf vectors. All leaves must have the same width.
    pub fn new(leaves: Vec<Vec<GoldilocksField>>, cap_height: usize) -> (r: Self)
        requires
            is_power_of_two(leaves@.len()),
            cap_height <= log2(leaves@.len()),
            2 * leaves@.len() <= usize::MAX,
            leaves@.len() * leaves@[0]@.len() <= usize::MAX,
            forall|i: int|
                0 <= i < leaves@.len() ==> (#[trigger] leaves@[i])@.len() == leaves@[0]@.len(),
        ensures
            r.wf(),
            r.num_leaves == leaves@.len(),
            r.cap.0@.len() == pow2(cap_height as nat),
            r.leaves is Rows,
            forall|i: int| 0 <= i < leaves@.len() ==> r.leaves.leaf(i) == (#[trigger] leaves@[i])@,
    {
        let num_leaves: usize = leaves.len();
        proof {
            let k = choose|k: nat| pow2(k) == num_leaves;
            lemma_pow2_pos(k);
        }
        let leaf_width: usize = leaves[0].len();
        let mut flat: Vec<GoldilocksField> = Vec::with_capacity(num_leaves * leaf_width);
        let mut i: usize = 0;
        assert(0 * leaf_width == 0);
        while i < num_leaves
            invariant
                i <= num_leaves == leaves@.len(),
                flat@.len() == i * leaf_width,
                forall|k: int|
                    0 <= k < num_leaves ==> (#[trigger] leaves@[k])@.len() == leaf_width,
                forall|k: int|
                    0 <= k < i ==> flat@.subrange(k * leaf_width, k * leaf_width + leaf_width) == (
                    #[trigger] leaves@[k])@,
            decreases num_leaves - i,
        {
            let mut part = copy_vec(&leaves[i]);
            let ghost (before, tail) = (flat@, part@);
            flat.append(&mut part);
            proof {
                let w = leaf_width as int;
                assert((i + 1) * w == i * w + w) by (nonlinear_arith);
                assert forall|k: int| 0 <= k < i + 1 implies flat@.subrange(k * w, k * w + w) == (
                #[trigger] leaves@[k])@ by {
                    if k < i {
                        assert(0 <= k * w && k * w + w <= i * w) by (nonlinear_arith)
                            requires
                                0 <= k,
                                k + 1 <= i,
                                0 <= w,
                        ;
                        assert(flat@.subrange(k * w, k * w + w) =~= before.subrange(
                            k * w,
                            k * w + w,
                        ));
                    } else {
                        assert(flat@.subrange(k * w, k * w + w) =~= tail);
                    }
                }
            }
            i = i + 1;
        }
        Self::from_flat_parts(flat, leaf_width, num_leaves, cap_height)
    }

    /// Build a tree from one flat row-major buffer of `leaves.len() / leaf_width` leaves.
    pub fn new_flat(leaves: Vec<GoldilocksField>, leaf_width: usize, cap_height: usize) -> (r: Self)
        requires
            leaf_width > 0,
            leaves@.len() as int % leaf_width as int == 0,
            is_power_of_two((leaves@.len() / leaf_width as nat) as nat),
            cap_height <= log2((leaves@.len() / leaf_width as nat) as nat),
            2 * (leaves@.len() / leaf_width as nat) <= usize::MAX,
        ensures
            r.wf(),
            r.num_leaves == leaves@.len() / leaf_width as nat,
            r.cap.0@.len() == pow2(cap_height as nat),
            r.leaves == (MerkleLeaves::Rows { data: leaves, width: leaf_width }),
    {
        let num_leaves: usize = leaves.len() / leaf_width;
        proof {
            vstd::arithmetic::div_mod::lemma_fundamental_div_mod(
                leaves@.len() as int,
                leaf_width as int,
            );
            assert(leaf_width * num_leaves == num_leaves * leaf_width) by (nonlinear_arith);
        }
        Self::from_flat_parts(leaves, leaf_width, num_leaves, cap_height)
    }

    fn from_flat_parts(
        leaves: Vec<GoldilocksField>,
        leaf_width: usize,
        num_leaves: usize,
        cap_height: usize,
    ) -> (r: Self)
        requires
            is_power_of_two(num_leaves as nat),
            cap_height <= log2(num_leaves as nat),
            leaves@.len() == num_leaves * leaf_width,
            2 * num_leaves <= usize::MAX,
        ensures
            r.wf(),
            r.num_leaves == num_leaves,
            r.cap.0@.len() == pow2(cap_height as nat),
            r.leaves == (MerkleLeaves::Rows { data: leaves, width: leaf_width }),
    {
        let ghost two = two_of::<H>();
        let ghost range = leaf_range::<H>(leaves@, leaf_width as int, 0, num_leaves as nat);
        proof {
            lemma_log2(cap_height as nat);
        }
        let (digests, cap) = match H::try_build_merkle_tree(
            leaves.as_slice(),
            leaf_width,
            num_leaves,
            cap_height,
        ) {
            Some((digests, cap)) => {
                proof {
                    let two2 = |a: Seq<Elt>, b: Seq<Elt>| H::two_spec(a, b);
                    assert(two2 =~= two);
                    let rows = row_digests(
                        |x: Seq<Elt>| H::leaf_spec(x),
                        leaves@,
                        leaf_width as int,
                        num_leaves as nat,
                    );
                    assert(rows =~= range);
                }
                (digests, cap)
            },
            None => cpu_digests::<H>(leaves.as_slice(), leaf_width, num_leaves, cap_height),
        };
        let r = MerkleTree {
            leaves: MerkleLeaves::Rows { data: leaves, width: leaf_width },
            num_leaves,
            digests,
            cap: MerkleCap(cap),
        };
        proof {
            assert(tree_leaves::<H>(r.leaves, num_leaves as nat) =~= range);
        }
        r
    }

    /// Build a tree directly from natural-order columns. Leaf `i` is entry
    /// `reverse_bits(i, log_rows)` of each column.
    pub fn new_columns(columns: Vec<Vec<GoldilocksField>>, cap_height: usize) -> (r: Self)
        requires
            ColumnStore::Owned(columns).rectangular(),
            is_power_of_two(ColumnStore::Owned(columns).height()),
            cap_height <= log2(ColumnStore::Owned(columns).height()),
            2 * ColumnStore::Owned(columns).height() <= usize::MAX,
            ColumnStore::Owned(columns).height() * columns@.len() <= usize::MAX,
        ensures
            r.wf(),
            r.num_leaves == ColumnStore::Owned(columns).height(),
            r.cap.0@.len() == pow2(cap_height as nat),
            r.leaves matches MerkleLeaves::Columns { columns: c, log_rows: l } && c
                == ColumnStore::Owned(columns) && l == log2(r.num_leaves as nat),
    {
        Self::new_column_store(ColumnStore::Owned(columns), cap_height)
    }

    /// Build a tree from retained natural-order column storage.
    pub fn new_column_store(columns: ColumnStore<GoldilocksField>, cap_height: usize) -> (r: Self)
        requires
            columns.rectangular(),
            is_power_of_two(columns.height()),
            cap_height <= log2(columns.height()),
            2 * columns.height() <= usize::MAX,
            columns.height() * columns.width() <= usize::MAX,
        ensures
            r.wf(),
            r.num_leaves == columns.height(),
            r.cap.0@.len() == pow2(cap_height as nat),
            r.leaves matches MerkleLeaves::Columns { columns: c, log_rows: l } && c == columns && l
                == log2(r.num_leaves as nat),
    {
        let num_leaves: usize = columns.num_rows();
        let log_rows: usize = log2_strict(num_leaves);
        let ghost two = two_of::<H>();
        let ghost all = Seq::new(
            num_leaves as nat,
            |i: int| H::leaf_spec(vals(columns.leaf(i, log_rows as nat))),
        );
        proof {
            lemma_log2(cap_height as nat);
        }
        let (digests, cap) = match H::try_build_merkle_tree_column_store(&columns, cap_height) {
            Some((digests, cap)) => {
                proof {
                    let two2 = |a: Seq<Elt>, b: Seq<Elt>| H::two_spec(a, b);
                    assert(two2 =~= two);
                    assert(column_digests(|x: Seq<Elt>| H::leaf_spec(x), columns) =~= all);
                }
                (digests, cap)
            },
            None => {
                let num_columns: usize = columns.num_cols();
                let flat = transpose_to_bitrev_flat(&columns, log_rows);
                proof {
                    let range = leaf_range::<H>(
                        flat@,
                        num_columns as int,
                        0,
                        num_leaves as nat,
                    );
                    assert forall|i: int| 0 <= i < num_leaves implies range[i] == #[trigger] all[i] by {
                        assert(0 + i == i);
                        assert(flat@.subrange(
                            i * columns.width(),
                            i * columns.width() + columns.width(),
                        ) == columns.leaf(i, log_rows as nat));
                    }
                    assert(range =~= all);
                }
                cpu_digests::<H>(flat.as_slice(), num_columns, num_leaves, cap_height)
            },
        };
        let r = MerkleTree {
            leaves: MerkleLeaves::Columns { columns, log_rows },
            num_leaves,
            digests,
            cap: MerkleCap(cap),
        };
        proof {
            assert(tree_leaves::<H>(r.leaves, num_leaves as nat) =~= all);
        }
        r
    }

    /// Wraps an already-hashed column store into a tree, which is as good as its digests.
    pub fn from_prebuilt_columns(
        columns: ColumnStore<GoldilocksField>,
        digests: Vec<H::Hash>,
        cap: Vec<H::Hash>,
    ) -> (r: Self)
        requires
            is_power_of_two(columns.height()),
            digests@.len() == 2 * (columns.height() - cap@.len()),
        ensures
            r.num_leaves == columns.height(),
            r.digests == digests,
            r.cap.0 == cap,
            r.leaves matches MerkleLeaves::Columns { columns: c, log_rows: l } && c == columns && l
                == log2(columns.height()),
            columns.rectangular() && is_power_of_two(cap@.len()) && log2(cap@.len()) <= log2(
                columns.height(),
            ) && is_tree(
                two_of::<H>(),
                column_digests(|x: Seq<Elt>| H::leaf_spec(x), columns),
                log2(cap@.len()),
                digests@,
                cap@,
            ) ==> r.wf(),
    {
        let num_leaves: usize = columns.num_rows();
        let log_rows: usize = log2_strict(num_leaves);
        let r = MerkleTree {
            leaves: MerkleLeaves::Columns { columns, log_rows },
            num_leaves,
            digests,
            cap: MerkleCap(cap),
        };
        proof {
            assert(tree_leaves::<H>(r.leaves, num_leaves as nat) =~= column_digests(
                |x: Seq<Elt>| H::leaf_spec(x),
                columns,
            ));
        }
        r
    }

    /// Whether the leaves are kept as columns.
    pub fn is_columns(&self) -> (r: bool)
        ensures
            r == self.leaves is Columns,
    {
        match &self.leaves {
            MerkleLeaves::Rows { data, width } => false,
            MerkleLeaves::Columns { columns, log_rows } => true,
        }
    }

    /// The number of field elements per leaf.
    pub fn leaf_width(&self) -> (r: usize)
        ensures
            r == self.leaves.width(),
    {
        self.leaves.leaf_width()
    }

    /// Borrow leaf `i`. Only available for row-major storage.
    pub fn get(&self, i: usize) -> (r: &[GoldilocksField])
        requires
            self.leaves is Rows,
            self.leaves.holds(self.num_leaves as nat),
            i < self.num_leaves,
        ensures
            r@ == self.leaves.leaf(i as int),
    {
        match &self.leaves {
            MerkleLeaves::Rows { data, width } => {
                proof {
                    lemma_rows_fit(i + 1, self.num_leaves as int, *width as int);
                }
                row(data.as_slice(), *width, i)
            },
            MerkleLeaves::Columns { columns, log_rows } => columns.col(0),
        }
    }

    /// Copy leaf `i` out of either storage layout.
    pub fn leaf_vec(&self, i: usize) -> (r: Vec<GoldilocksField>)
        requires
            self.leaves.holds(self.num_leaves as nat),
            i < self.num_leaves,
        ensures
            r@ == self.leaves.leaf(i as int),
    {
        self.leaves.leaf_vec(i, self.num_leaves)
    }

    /// Create a Merkle proof from a leaf index.
    pub fn prove(&self, leaf_index: usize) -> (r: MerkleProof<H>)
        requires
            is_power_of_two(self.num_leaves as nat),
            is_power_of_two(self.cap.0@.len()),
            log2(self.cap.0@.len()) <= log2(self.num_leaves as nat),
            self.digests@.len() == 2 * (self.num_leaves - self.cap.0@.len()),
            leaf_index < self.num_leaves,
        ensures
            r.siblings@.len() == log2(self.num_leaves as nat) - log2(self.cap.0@.len()),
            forall|i: int|
                0 <= i < r.siblings@.len() ==> #[trigger] r.siblings@[i]
                    == self.digests@[sibling_index(leaf_index as nat, r.siblings@.len(), i as nat)],
            self.wf() ==> path_end(
                two_of::<H>(),
                H::leaf_spec(vals(self.leaves.leaf(leaf_index as int))),
                leaf_index as nat,
                digests_seq(r.siblings@),
            ) == self.cap.0@[leaf_index as int / pow2(r.siblings@.len()) as int].digest(),
            self.wf() ==> leaf_index as int / (pow2(r.siblings@.len()) as int) < self.cap.0@.len(),
    {
        let cap_height: usize = log2_strict(self.cap.0.len());
        let siblings = merkle_tree_prove::<H>(
            leaf_index,
            self.num_leaves,
            cap_height,
            self.digests.as_slice(),
        );
        proof {
            if self.wf() {
                let leaves = tree_leaves::<H>(self.leaves, self.num_leaves as nat);
                lemma_proof_leads_to_cap::<H>(
                    leaves,
                    log2(self.num_leaves as nat),
                    cap_height as nat,
                    self.digests@,
                    self.cap.0@,
                    leaf_index as nat,
                    siblings@,
                );
            }
        }
        MerkleProof { siblings }
    }
}

/// The leaves and the height of the cap determine the digests and the cap.
pub proof fn lemma_tree_determined<D: GenericHashOut>(
    two: spec_fn(Seq<Elt>, Seq<Elt>) -> Seq<Elt>,
    leaves: Seq<Seq<Elt>>,
    cap_height: nat,
    digests: Seq<D>,
    cap: Seq<D>,
    other_digests: Seq<D>,
    other_cap: Seq<D>,
)
    requires
        is_power_of_two(leaves.len()),
        cap_height <= log2(leaves.len()),
        is_tree(two, leaves, cap_height, digests, cap),
        is_tree(two, leaves, cap_height, other_digests, other_cap),
    ensures
        digests_seq(digests) == digests_seq(other_digests),
        digests_seq(cap) == digests_seq(other_cap),
{
    let n = leaves.len();
    let caps = pow2(cap_height) as int;
    let m = n as int / caps;
    let t = 2 * (m - 1);
    lemma_tree_sizes(log2(n), cap_height);
    assert forall|i: int| 0 <= i < caps implies digests_seq(cap)[i] == #[trigger] digests_seq(
        other_cap,
    )[i] by {
        assert(cap[i].digest() == root_of(two, cap_leaves(leaves, m, i)));
        assert(other_cap[i].digest() == root_of(two, cap_leaves(leaves, m, i)));
    }
    assert(digests_seq(cap) =~= digests_seq(other_cap));
    assert forall|d: int| 0 <= d < digests.len() implies digests_seq(digests)[d]
        == #[trigger] digests_seq(other_digests)[d] by {
        assert(t > 0) by (nonlinear_arith)
            requires
                0 <= d < caps * t,
                caps > 0,
        ;
        lemma_flat_split(d, t, caps);
        let (i, x) = (d / t, d % t);
        let node = subtree_layout(two, cap_leaves(leaves, m, i))[x];
        assert(digests[i * t + x].digest() == node);
        assert(other_digests[i * t + x].digest() == node);
    }
    assert(digests_seq(digests) =~= digests_seq(other_digests));
}

/// Trees over the same leaves have the same digests and the same cap, whatever the layout of their
/// leaves.
pub proof fn lemma_leaves_determine_tree<H: Hasher>(a: MerkleTree<H>, b: MerkleTree<H>)
    requires
        a.wf(),
        b.wf(),
        a.num_leaves == b.num_leaves,
        a.cap.0@.len() == b.cap.0@.len(),
        forall|i: int|
            0 <= i < a.num_leaves ==> vals(#[trigger] a.leaves.leaf(i)) == vals(b.leaves.leaf(i)),
    ensures
        digests_seq(a.digests@) == digests_seq(b.digests@),
        digests_seq(a.cap.0@) == digests_seq(b.cap.0@),
{
    let n = a.num_leaves as nat;
    let two = two_of::<H>();
    let leaves = tree_leaves::<H>(a.leaves, n);
    assert forall|i: int| 0 <= i < n implies leaves[i] == #[trigger] tree_leaves::<H>(
        b.leaves,
        n,
    )[i] by {
        assert(vals(a.leaves.leaf(i)) == vals(b.leaves.leaf(i)));
    }
    assert(leaves =~= tree_leaves::<H>(b.leaves, n));
    lemma_tree_determined(
        two,
        leaves,
        log2(a.cap.0@.len()),
        a.digests@,
        a.cap.0@,
        b.digests@,
        b.cap.0@,
    );
}

} // verus!
