//! When leaves, caps and trees are equal.

use crate::field::goldilocks_field::GoldilocksField;
use crate::field::types::{Field, vals};
use crate::gates::gate::lemma_flat_split;
use crate::hash::columns::ColumnStore;
use crate::hash::hash_types::GenericHashOut;
use crate::hash::merkle_tree::{
    MerkleCap, MerkleLeaves, MerkleTree, digests_seq, lemma_leaves_determine_tree,
};
use crate::plonk::config::Hasher;
use crate::util::bits::{
    lemma_pow2_basics, lemma_pow2_double, lemma_rev_bound, lemma_rev_involution, log2, rev,
    reverse_bits,
};
use vstd::arithmetic::power2::{lemma_pow2_pos, lemma_pow2_strictly_increases, pow2};
use vstd::prelude::*;

verus! {

/// Whether two sequences of words stand for the same elements.
pub fn same_values(a: &[GoldilocksField], b: &[GoldilocksField]) -> (r: bool)
    ensures
        r == (vals(a@) == vals(b@)),
{
    if a.len() != b.len() {
        assert(vals(a@).len() != vals(b@).len());
        return false;
    }
    let n: usize = a.len();
    let mut i: usize = 0;
    while i < n
        invariant
            i <= n == a@.len() == b@.len(),
            forall|k: int| 0 <= k < i ==> (#[trigger] a@[k]).v() == b@[k].v(),
        decreases n - i,
    {
        if !a[i].equals(b[i]) {
            assert(vals(a@)[i as int] != vals(b@)[i as int]);
            return false;
        }
        i = i + 1;
    }
    assert(vals(a@) =~= vals(b@));
    true
}

/// Whether two sequences of digests are equal.
pub fn same_digests<D: GenericHashOut>(a: &[D], b: &[D]) -> (r: bool)
    ensures
        r == (digests_seq(a@) == digests_seq(b@)),
{
    if a.len() != b.len() {
        assert(digests_seq(a@).len() != digests_seq(b@).len());
        return false;
    }
    let n: usize = a.len();
    let mut i: usize = 0;
    while i < n
        invariant
            i <= n == a@.len() == b@.len(),
            forall|k: int| 0 <= k < i ==> (#[trigger] a@[k]).digest() == b@[k].digest(),
        decreases n - i,
    {
        if !a[i].same(&b[i]) {
            assert(digests_seq(a@)[i as int] != digests_seq(b@)[i as int]);
            return false;
        }
        i = i + 1;
    }
    assert(digests_seq(a@) =~= digests_seq(b@));
    true
}

/// Columns of their own hold the same values.
pub open spec fn equal_owned(
    a: Seq<Vec<GoldilocksField>>,
    b: Seq<Vec<GoldilocksField>>,
) -> bool {
    &&& a.len() == b.len()
    &&& forall|j: int| 0 <= j < a.len() ==> vals((#[trigger] a[j])@) == vals(b[j]@)
}

/// Two stores are equal: both hold columns of their own with the same values, or both hold retained
/// columns of the same sizes with the same words.
pub open spec fn equal_stores(
    a: ColumnStore<GoldilocksField>,
    b: ColumnStore<GoldilocksField>,
) -> bool {
    match (a, b) {
        (ColumnStore::Owned(x), ColumnStore::Owned(y)) => equal_owned(x@, y@),
        (ColumnStore::Shared(x), ColumnStore::Shared(y)) => {
            &&& x.spec_rows() == y.spec_rows()
            &&& x.spec_cols() == y.spec_cols()
            &&& x.flat() == y.flat()
        },
        _ => false,
    }
}

/// Whether columns of their own hold the same values.
fn same_owned(a: &Vec<Vec<GoldilocksField>>, b: &Vec<Vec<GoldilocksField>>) -> (r: bool)
    ensures
        r == equal_owned(a@, b@),
{
    if a.len() != b.len() {
        return false;
    }
    let n: usize = a.len();
    let mut j: usize = 0;
    while j < n
        invariant
            j <= n == a@.len() == b@.len(),
            forall|k: int| 0 <= k < j ==> vals((#[trigger] a@[k])@) == vals(b@[k]@),
        decreases n - j,
    {
        if !same_values(a[j].as_slice(), b[j].as_slice()) {
            return false;
        }
        j = j + 1;
    }
    true
}

impl PartialEq for ColumnStore<GoldilocksField> {
    /// Columns of their own are compared by value, and retained columns by word.
    fn eq(&self, other: &Self) -> (r: bool) {
        match (self, other) {
            (ColumnStore::Owned(x), ColumnStore::Owned(y)) => same_owned(x, y),
            (ColumnStore::Shared(x), ColumnStore::Shared(y)) => *x == *y,
            _ => false,
        }
    }
}

impl Eq for ColumnStore<GoldilocksField> {

}

impl vstd::std_specs::cmp::PartialEqSpecImpl for ColumnStore<GoldilocksField> {
    open spec fn obeys_eq_spec() -> bool {
        true
    }

    open spec fn eq_spec(&self, other: &Self) -> bool {
        equal_stores(*self, *other)
    }
}

/// Two stores hold columns of the same values, wherever they are kept.
pub open spec fn matching_columns(
    a: ColumnStore<GoldilocksField>,
    b: ColumnStore<GoldilocksField>,
) -> bool {
    &&& a.whole()
    &&& b.whole()
    &&& a.width() == b.width()
    &&& forall|j: int|
        0 <= j < a.width() ==> vals(#[trigger] a.column(j)) == vals(b.column(j))
}

/// Whether two stores hold columns of the same values.
fn same_columns(a: &ColumnStore<GoldilocksField>, b: &ColumnStore<GoldilocksField>) -> (r: bool)
    ensures
        r == matching_columns(*a, *b),
{
    if !a.is_whole() || !b.is_whole() || a.num_cols() != b.num_cols() {
        return false;
    }
    let n: usize = a.num_cols();
    let mut j: usize = 0;
    while j < n
        invariant
            j <= n == a.width() == b.width(),
            a.whole(),
            b.whole(),
            forall|k: int| 0 <= k < j ==> vals(#[trigger] a.column(k)) == vals(b.column(k)),
        decreases n - j,
    {
        if !same_values(a.col(j), b.col(j)) {
            return false;
        }
        j = j + 1;
    }
    true
}

/// Every column has at least `n` entries.
pub open spec fn columns_reach(columns: ColumnStore<GoldilocksField>, n: nat) -> bool {
    &&& columns.whole()
    &&& forall|j: int| 0 <= j < columns.width() ==> n <= (#[trigger] columns.column(j)).len()
}

/// Row-major leaves are the first `2^log_rows` leaves of columns; what the columns hold beyond them
/// does not matter.
pub open spec fn rows_equal_columns(
    data: Seq<GoldilocksField>,
    width: nat,
    columns: ColumnStore<GoldilocksField>,
    log_rows: nat,
) -> bool {
    if width == 0 {
        columns.width() == 0 && data.len() == 0
    } else {
        &&& data.len() == pow2(log_rows) * width
        &&& columns.width() == width
        &&& columns_reach(columns, pow2(log_rows))
        &&& forall|i: int|
            0 <= i < pow2(log_rows) ==> row_is_leaf(data, width, columns, log_rows, i)
    }
}

/// Row `i` of row-major leaves is leaf `i` of columns.
pub open spec fn row_is_leaf(
    data: Seq<GoldilocksField>,
    width: nat,
    columns: ColumnStore<GoldilocksField>,
    log_rows: nat,
    i: int,
) -> bool {
    vals(data.subrange(i * width, i * width + width)) == vals(columns.leaf(i, log_rows))
}

/// Equality is by logical leaf content, not storage layout.
pub open spec fn equal_leaves(a: MerkleLeaves, b: MerkleLeaves) -> bool {
    match (a, b) {
        (MerkleLeaves::Rows { data: x, width: m }, MerkleLeaves::Rows { data: y, width: n }) => m
            == n && vals(x@) == vals(y@),
        (
            MerkleLeaves::Columns { columns: x, log_rows: m },
            MerkleLeaves::Columns { columns: y, log_rows: n },
        ) => m == n && matching_columns(x, y),
        (MerkleLeaves::Rows { data, width }, MerkleLeaves::Columns { columns, log_rows })
        | (MerkleLeaves::Columns { columns, log_rows }, MerkleLeaves::Rows { data, width }) => {
            rows_equal_columns(data@, width as nat, columns, log_rows as nat)
        },
    }
}

/// Whether `n` is `2^k`.
fn is_pow2_of(n: usize, k: usize) -> (r: bool)
    ensures
        r == (n == pow2(k as nat)),
{
    let mut p: usize = 1;
    let mut i: usize = 0;
    proof {
        lemma_pow2_basics();
    }
    while i < k
        invariant
            i <= k,
            p == pow2(i as nat),
        decreases k - i,
    {
        proof {
            lemma_pow2_double(i as nat);
        }
        if p > n / 2 {
            proof {
                if i + 1 < k {
                    lemma_pow2_strictly_increases((i + 1) as nat, k as nat);
                }
            }
            return false;
        }
        p = 2 * p;
        i = i + 1;
    }
    n == p
}

/// Whether every column has at least `n` entries.
fn check_reach(columns: &ColumnStore<GoldilocksField>, n: usize) -> (r: bool)
    ensures
        r == columns_reach(*columns, n as nat),
{
    if !columns.is_whole() {
        return false;
    }
    let cols: usize = columns.num_cols();
    let mut j: usize = 0;
    while j < cols
        invariant
            j <= cols == columns.width(),
            columns.whole(),
            forall|k: int| 0 <= k < j ==> n <= (#[trigger] columns.column(k)).len(),
        decreases cols - j,
    {
        if columns.col(j).len() < n {
            return false;
        }
        j = j + 1;
    }
    true
}

/// Whether row `i` of row-major leaves is leaf `i` of columns.
#[verifier::spinoff_prover]
fn check_row(
    data: &[GoldilocksField],
    width: usize,
    columns: &ColumnStore<GoldilocksField>,
    log_rows: usize,
    i: usize,
) -> (r: bool)
    requires
        (i + 1) * width <= data@.len(),
        columns.width() == width,
        columns_reach(*columns, pow2(log_rows as nat)),
        pow2(log_rows as nat) <= usize::MAX,
    ensures
        r == row_is_leaf(data@, width as nat, *columns, log_rows as nat, i as int),
{
    let ghost row = data@.subrange(i * width, i * width + width);
    let ghost leaf = columns.leaf(i as int, log_rows as nat);
    let n: usize = data.len();
    proof {
        assert((i + 1) * width == i * width + width && 0 <= i * width) by (nonlinear_arith)
            requires
                i >= 0,
                width >= 0,
        ;
    }
    let at: usize = reverse_bits(i, log_rows);
    let mut j: usize = 0;
    while j < width
        invariant
            j <= width,
            n == data@.len(),
            i * width + width <= n,
            0 <= i * width,
            columns.width() == width,
            columns_reach(*columns, pow2(log_rows as nat)),
            at == rev(i as nat, log_rows as nat),
            at < pow2(log_rows as nat),
            row == data@.subrange(i * width, i * width + width),
            leaf == columns.leaf(i as int, log_rows as nat),
            forall|k: int| 0 <= k < j ==> (#[trigger] row[k]).v() == leaf[k].v(),
        decreases width - j,
    {
        assert(columns.column(j as int).len() >= pow2(log_rows as nat));
        let x = data[i * width + j];
        let y = columns.col(j)[at];
        assert(row[j as int] == x && leaf[j as int] == y);
        if !x.equals(y) {
            assert(vals(row)[j as int] != vals(leaf)[j as int]);
            return false;
        }
        j = j + 1;
    }
    assert(vals(row) =~= vals(leaf));
    true
}

/// Whether row-major leaves are the leaves of columns.
#[verifier::spinoff_prover]
fn mixed_equal(
    data: &[GoldilocksField],
    width: usize,
    columns: &ColumnStore<GoldilocksField>,
    log_rows: usize,
) -> (r: bool)
    ensures
        r == rows_equal_columns(data@, width as nat, *columns, log_rows as nat),
{
    if width == 0 {
        return columns.num_cols() == 0 && data.len() == 0;
    }
    let len: usize = data.len();
    let n: usize = len / width;
    proof {
        lemma_pow2_pos(log_rows as nat);
        vstd::arithmetic::div_mod::lemma_fundamental_div_mod(len as int, width as int);
        assert(width * n == n * width) by (nonlinear_arith);
        lemma_exact_quotient(len as int, pow2(log_rows as nat) as int, width as int);
    }
    if len % width != 0 || !is_pow2_of(n, log_rows) || columns.num_cols() != width
        || !check_reach(columns, n) {
        return false;
    }
    let mut i: usize = 0;
    while i < n
        invariant
            i <= n == pow2(log_rows as nat),
            width > 0,
            len == data@.len() == n * width,
            columns.width() == width,
            columns_reach(*columns, n as nat),
            forall|k: int|
                0 <= k < i ==> row_is_leaf(data@, width as nat, *columns, log_rows as nat, k),
        decreases n - i,
    {
        proof {
            lemma_leaf_range(i as int, n as int, width as int);
            assert((i + 1) * width == i * width + width) by (nonlinear_arith);
        }
        if !check_row(data, width, columns, log_rows, i) {
            return false;
        }
        i = i + 1;
    }
    true
}

/// A product of `q` and `d` has the quotient `q` and no remainder.
proof fn lemma_exact_quotient(x: int, q: int, d: int)
    requires
        d > 0,
    ensures
        x == q * d ==> x / d == q && x % d == 0,
{
    if x == q * d {
        vstd::arithmetic::div_mod::lemma_fundamental_div_mod_converse(x, d, q, 0);
    }
}

/// Storages of leaves that are not empty are equal if and only if they hold the same number of
/// leaves, of the same width and with the same values, whatever their layout.
#[verifier::spinoff_prover]
pub proof fn lemma_equal_leaves(a: MerkleLeaves, b: MerkleLeaves, n: nat, m: nat)
    requires
        a.holds(n),
        b.holds(m),
        n > 0,
        m > 0,
        a.width() > 0,
    ensures
        equal_leaves(a, b) <==> (n == m && a.width() == b.width() && forall|i: int|
            0 <= i < n ==> vals(#[trigger] a.leaf(i)) == vals(b.leaf(i))),
{
    let w = a.width() as int;
    match (a, b) {
        (MerkleLeaves::Rows { data: x, .. }, MerkleLeaves::Rows { data: y, .. }) => {
            if a.width() == b.width() {
                assert(n * w == m * w ==> n == m) by (nonlinear_arith)
                    requires
                        w > 0,
                ;
                assert(vals(x@).len() == n * w && vals(y@).len() == m * w);
                if vals(x@) == vals(y@) {
                    assert forall|i: int| 0 <= i < n implies vals(#[trigger] a.leaf(i)) == vals(
                        b.leaf(i),
                    ) by {
                        lemma_leaf_range(i, n as int, w);
                        assert(vals(a.leaf(i)) =~= vals(x@).subrange(i * w, i * w + w));
                        assert(vals(b.leaf(i)) =~= vals(y@).subrange(i * w, i * w + w));
                    }
                }
                if n == m && forall|i: int|
                    0 <= i < n ==> vals(#[trigger] a.leaf(i)) == vals(b.leaf(i)) {
                    assert forall|k: int| 0 <= k < n * w implies vals(x@)[k] == vals(y@)[k] by {
                        lemma_flat_split(k, w, n as int);
                        let (i, j) = (k / w, k % w);
                        lemma_leaf_range(i, n as int, w);
                        assert(vals(a.leaf(i))[j] == vals(b.leaf(i))[j]);
                        assert(a.leaf(i)[j] == x@[k] && b.leaf(i)[j] == y@[k]);
                    }
                    assert(vals(x@) =~= vals(y@));
                }
            }
        },
        (
            MerkleLeaves::Columns { columns: x, log_rows: k },
            MerkleLeaves::Columns { columns: y, log_rows: l },
        ) => {
            if k < l {
                lemma_pow2_strictly_increases(k as nat, l as nat);
            } else if l < k {
                lemma_pow2_strictly_increases(l as nat, k as nat);
            } else if a.width() == b.width() {
                if matching_columns(x, y) {
                    assert forall|i: int| 0 <= i < n implies vals(#[trigger] a.leaf(i)) == vals(
                        b.leaf(i),
                    ) by {
                        lemma_rev_bound(i as nat, k as nat);
                        let r = rev(i as nat, k as nat) as int;
                        assert forall|j: int| 0 <= j < w implies vals(a.leaf(i))[j] == vals(
                            b.leaf(i),
                        )[j] by {
                            assert(vals(x.column(j))[r] == vals(y.column(j))[r]);
                        }
                        assert(vals(a.leaf(i)) =~= vals(b.leaf(i)));
                    }
                }
                if forall|i: int| 0 <= i < n ==> vals(#[trigger] a.leaf(i)) == vals(b.leaf(i)) {
                    assert forall|j: int| 0 <= j < x.width() implies vals(#[trigger] x.column(j))
                        == vals(y.column(j)) by {
                        assert(x.column(j).len() == n && y.column(j).len() == n);
                        assert forall|r: int| 0 <= r < n implies vals(x.column(j))[r] == vals(
                            y.column(j),
                        )[r] by {
                            lemma_rev_bound(r as nat, k as nat);
                            lemma_rev_involution(r as nat, k as nat);
                            let i = rev(r as nat, k as nat) as int;
                            assert(vals(a.leaf(i))[j] == vals(b.leaf(i))[j]);
                        }
                        assert(vals(x.column(j)) =~= vals(y.column(j)));
                    }
                }
            }
        },
        (MerkleLeaves::Rows { .. }, MerkleLeaves::Columns { .. }) => {
            lemma_mixed_leaves(a, b, n, m);
        },
        (MerkleLeaves::Columns { .. }, MerkleLeaves::Rows { .. }) => {
            if b.width() > 0 {
                lemma_mixed_leaves(b, a, m, n);
            }
        },
    }
}

/// Equality does not depend on which of two storages is named first, whatever their layouts.
pub proof fn lemma_equal_leaves_symmetric(a: MerkleLeaves, b: MerkleLeaves)
    ensures
        equal_leaves(a, b) == equal_leaves(b, a),
{
    if let (
        MerkleLeaves::Columns { columns: x, .. },
        MerkleLeaves::Columns { columns: y, .. },
    ) = (a, b) {
        if matching_columns(x, y) {
            assert forall|j: int| 0 <= j < y.width() implies vals(#[trigger] y.column(j)) == vals(
                x.column(j),
            ) by {
                assert(vals(x.column(j)) == vals(y.column(j)));
            }
        }
        if matching_columns(y, x) {
            assert forall|j: int| 0 <= j < x.width() implies vals(#[trigger] x.column(j)) == vals(
                y.column(j),
            ) by {
                assert(vals(y.column(j)) == vals(x.column(j)));
            }
        }
    }
}

proof fn lemma_leaf_range(i: int, n: int, w: int)
    requires
        0 <= i < n,
        w >= 0,
    ensures
        0 <= i * w,
        i * w + w <= n * w,
{
    assert(0 <= i * w && i * w + w <= n * w) by (nonlinear_arith)
        requires
            0 <= i < n,
            w >= 0,
    ;
}

proof fn lemma_mixed_leaves(rows: MerkleLeaves, columns: MerkleLeaves, n: nat, m: nat)
    requires
        rows is Rows,
        columns is Columns,
        rows.holds(n),
        columns.holds(m),
        rows.width() > 0,
    ensures
        equal_leaves(rows, columns) <==> (n == m && rows.width() == columns.width() && forall|i: int|
            0 <= i < n ==> vals(#[trigger] rows.leaf(i)) == vals(columns.leaf(i))),
        equal_leaves(columns, rows) == equal_leaves(rows, columns),
{
    let w = rows.width() as int;
    assert(n * w == m * w ==> n == m) by (nonlinear_arith)
        requires
            w > 0,
    ;
    if let (
        MerkleLeaves::Rows { data, width },
        MerkleLeaves::Columns { columns: store, log_rows },
    ) = (rows, columns) {
        let same = forall|i: int|
            0 <= i < n ==> vals(#[trigger] rows.leaf(i)) == vals(columns.leaf(i));
        if equal_leaves(rows, columns) {
            assert forall|i: int| 0 <= i < n implies vals(#[trigger] rows.leaf(i)) == vals(
                columns.leaf(i),
            ) by {
                assert(row_is_leaf(data@, width as nat, store, log_rows as nat, i));
            }
        }
        if n == m && same {
            assert forall|i: int| 0 <= i < pow2(log_rows as nat) implies row_is_leaf(
                data@,
                width as nat,
                store,
                log_rows as nat,
                i,
            ) by {
                assert(vals(rows.leaf(i)) == vals(columns.leaf(i)));
            }
        }
        assert(columns_reach(store, m)) by {
            assert forall|j: int| 0 <= j < store.width() implies m <= (#[trigger] store.column(
                j,
            )).len() by {}
        }
    }
}

impl PartialEq for MerkleLeaves {
    /// Equality is by logical leaf content, not storage layout: columns and their row-major
    /// counterpart are equal when every leaf holds the same values.
    fn eq(&self, other: &Self) -> (r: bool) {
        match (self, other) {
            (
                MerkleLeaves::Rows { data: x, width: m },
                MerkleLeaves::Rows { data: y, width: n },
            ) => *m == *n && same_values(x.as_slice(), y.as_slice()),
            (
                MerkleLeaves::Columns { columns: x, log_rows: m },
                MerkleLeaves::Columns { columns: y, log_rows: n },
            ) => *m == *n && same_columns(x, y),
            (MerkleLeaves::Rows { data, width }, MerkleLeaves::Columns { columns, log_rows }) => {
                mixed_equal(data.as_slice(), *width, columns, *log_rows)
            },
            (MerkleLeaves::Columns { columns, log_rows }, MerkleLeaves::Rows { data, width }) => {
                mixed_equal(data.as_slice(), *width, columns, *log_rows)
            },
        }
    }
}

impl Eq for MerkleLeaves {

}

impl vstd::std_specs::cmp::PartialEqSpecImpl for MerkleLeaves {
    open spec fn obeys_eq_spec() -> bool {
        true
    }

    open spec fn eq_spec(&self, other: &Self) -> bool {
        equal_leaves(*self, *other)
    }
}

impl<H: Hasher> PartialEq for MerkleCap<H> {
    /// Equality of all digests.
    fn eq(&self, other: &Self) -> (r: bool) {
        same_digests(self.0.as_slice(), other.0.as_slice())
    }
}

impl<H: Hasher> Eq for MerkleCap<H> {

}

impl<H: Hasher> vstd::std_specs::cmp::PartialEqSpecImpl for MerkleCap<H> {
    open spec fn obeys_eq_spec() -> bool {
        true
    }

    open spec fn eq_spec(&self, other: &Self) -> bool {
        digests_seq(self.0@) == digests_seq(other.0@)
    }
}

impl<H: Hasher> PartialEq for MerkleTree<H> {
    /// Equality of the leaves, of the digests and of the cap.
    fn eq(&self, other: &Self) -> (r: bool) {
        self.leaves == other.leaves && self.num_leaves == other.num_leaves && same_digests(
            self.digests.as_slice(),
            other.digests.as_slice(),
        ) && self.cap == other.cap
    }
}

impl<H: Hasher> Eq for MerkleTree<H> {

}

/// Two trees have equal leaves, digests and caps.
pub open spec fn equal_trees<H: Hasher>(a: MerkleTree<H>, b: MerkleTree<H>) -> bool {
    &&& equal_leaves(a.leaves, b.leaves)
    &&& a.num_leaves == b.num_leaves
    &&& digests_seq(a.digests@) == digests_seq(b.digests@)
    &&& digests_seq(a.cap.0@) == digests_seq(b.cap.0@)
}

impl<H: Hasher> vstd::std_specs::cmp::PartialEqSpecImpl for MerkleTree<H> {
    open spec fn obeys_eq_spec() -> bool {
        true
    }

    open spec fn eq_spec(&self, other: &Self) -> bool {
        equal_trees(*self, *other)
    }
}

/// Trees over equal leaves with caps of equal height are equal, whatever the layouts of the leaves: a
/// tree over columns is the tree over the rows that they make.
pub proof fn lemma_equal_leaves_equal_trees<H: Hasher>(a: MerkleTree<H>, b: MerkleTree<H>)
    requires
        a.wf(),
        b.wf(),
        a.cap.0@.len() == b.cap.0@.len(),
        a.leaves.width() > 0,
    ensures
        equal_leaves(a.leaves, b.leaves) <==> equal_trees(a, b),
        (a.num_leaves == b.num_leaves && a.leaves.width() == b.leaves.width() && forall|i: int|
            0 <= i < a.num_leaves ==> vals(#[trigger] a.leaves.leaf(i)) == vals(b.leaves.leaf(i)))
            <==> equal_trees(a, b),
{
    let (n, m) = (a.num_leaves as nat, b.num_leaves as nat);
    lemma_pow2_pos(log2(n));
    lemma_pow2_pos(log2(m));
    lemma_equal_leaves(a.leaves, b.leaves, n, m);
    if equal_leaves(a.leaves, b.leaves) {
        lemma_leaves_determine_tree(a, b);
    }
}

} // verus!
