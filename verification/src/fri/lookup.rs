//! Reading values out of a committed batch, for both layouts of its leaves.

use crate::field::goldilocks_field::GoldilocksField;
use crate::field::packed::PackedField;
use crate::fri::oracle::{PolynomialBatch, SALT_SIZE};
use crate::gates::gate::lemma_flat_index;
use crate::hash::merkle_tree::MerkleLeaves;
use crate::plonk::config::GenericConfig;
use crate::util::bits::{
    lemma_pow2_injective, lemma_rev_bound, lemma_rev_involution, lemma_rev_mod, rev, reverse_bits,
};
use vstd::arithmetic::power2::{lemma_pow2_pos, pow2};
use vstd::prelude::*;
use vstd::slice::slice_subrange;

verus! {

/// Output layout for [`PolynomialBatch::fill_lde_batch`].
#[derive(Clone, Copy, Debug, PartialEq, Eq, Structural)]
pub enum BatchLayout {
    /// `out[point * width + column]`
    PointMajor,
    /// `out[column * num_points + point]`
    PolyMajor,
}

/// The place of column `c` of point `k` among the values of `n` points and `w` columns.
pub open spec fn batch_position(layout: BatchLayout, n: int, w: int, k: int, c: int) -> int {
    match layout {
        BatchLayout::PointMajor => k * w + c,
        BatchLayout::PolyMajor => c * n + k,
    }
}

/// Places are in range, and no two values share one.
pub proof fn lemma_batch_position(layout: BatchLayout, n: int, w: int, k: int, c: int)
    requires
        0 <= k < n,
        0 <= c < w,
    ensures
        0 <= batch_position(layout, n, w, k, c) < n * w,
        layout is PointMajor ==> batch_position(layout, n, w, k, c) / w == k && batch_position(
            layout,
            n,
            w,
            k,
            c,
        ) % w == c,
        layout is PolyMajor ==> batch_position(layout, n, w, k, c) / n == c && batch_position(
            layout,
            n,
            w,
            k,
            c,
        ) % n == k,
{
    lemma_flat_index(k, c, w, n);
    lemma_flat_index(c, k, n, w);
    assert(w * n == n * w) by (nonlinear_arith);
}

/// Makes a buffer of the given length out of one of any length.
fn resize(out: &mut Vec<GoldilocksField>, len: usize)
    ensures
        final(out)@.len() == len,
{
    while out.len() > len
        invariant
            true,
        decreases out@.len(),
    {
        let dropped = out.pop();
    }
    while out.len() < len
        invariant
            out@.len() <= len,
        decreases len - out@.len(),
    {
        out.push(GoldilocksField(0));
    }
}

impl<C: GenericConfig<D>, const D: usize> PolynomialBatch<C, D> {
    /// The number of points of the domain.
    pub open spec fn domain_size(self) -> nat {
        pow2((self.degree_log + self.rate_bits) as nat)
    }

    /// The number of value columns, excluding any salt columns.
    pub open spec fn row_width(self) -> int {
        self.merkle_tree.leaves.width() - (if self.blinding {
            SALT_SIZE as int
        } else {
            0
        })
    }

    /// The value of column `c` at point `index` of the domain, which is cyclic.
    pub open spec fn lde_value(self, index: int, c: int) -> GoldilocksField {
        self.merkle_tree.leaves.leaf(
            rev(index as nat, (self.degree_log + self.rate_bits) as nat) as int,
        )[c]
    }

    /// In natural-order columns, the value of a point is at its index.
    pub proof fn lemma_column_value(self, index: int, c: int)
        requires
            self.readable(),
            0 <= index,
            0 <= c < self.merkle_tree.leaves.width(),
        ensures
            self.merkle_tree.leaves matches MerkleLeaves::Columns { columns, log_rows }
                ==> log_rows == self.degree_log + self.rate_bits && self.lde_value(index, c)
                == columns.column(c)[index % (self.domain_size() as int)] && columns.column(
                c,
            ).len() == self.domain_size(),
    {
        let bits = (self.degree_log + self.rate_bits) as nat;
        let n = pow2(bits) as int;
        lemma_pow2_pos(bits);
        match self.merkle_tree.leaves {
            MerkleLeaves::Columns { columns, log_rows } => {
                lemma_pow2_injective(bits, log_rows as nat);
                lemma_rev_mod(index as nat, bits);
                lemma_rev_involution((index % n) as nat, bits);
                lemma_rev_bound(index as nat, bits);
                assert(columns.column(c).len() == columns.height());
            },
            MerkleLeaves::Rows { data, width } => {},
        }
    }

    /// The number of value columns in this oracle, excluding any salt columns.
    pub fn lde_row_width(&self) -> (r: usize)
        requires
            self.readable(),
        ensures
            r == self.row_width(),
    {
        let salt: usize = if self.blinding {
            SALT_SIZE
        } else {
            0
        };
        self.merkle_tree.leaf_width() - salt
    }

    /// Fetches LDE values at the `index * step`th point. Only available for row-major leaf
    /// storage; column-major oracles use [`Self::fill_lde_batch`].
    pub fn get_lde_values(&self, index: usize, step: usize) -> (r: &[GoldilocksField])
        requires
            self.readable(),
            self.merkle_tree.leaves is Rows,
            index * step <= usize::MAX,
        ensures
            r@.len() == self.row_width(),
            forall|c: int|
                0 <= c < r@.len() ==> #[trigger] r@[c] == self.lde_value(index * step, c),
    {
        let point: usize = index * step;
        let leaf: usize = reverse_bits(point, self.degree_log + self.rate_bits);
        let row = self.merkle_tree.get(leaf);
        let width: usize = self.lde_row_width();
        proof {
            lemma_flat_row(
                leaf as int,
                self.merkle_tree.num_leaves as int,
                self.merkle_tree.leaves.width() as int,
            );
        }
        slice_subrange(row, 0, width)
    }

    /// A range of columns that can be read, and points that can be read.
    pub open spec fn can_read(self, indices: Seq<usize>, step: usize, start: usize, end: usize)
        -> bool {
        &&& self.readable()
        &&& start <= end
        &&& indices.len() * (end - start) <= usize::MAX
        &&& forall|k: int| 0 <= k < indices.len() ==> #[trigger] indices[k] * step <= usize::MAX
        &&& match self.merkle_tree.leaves {
            MerkleLeaves::Rows { data, width } => end <= self.row_width(),
            MerkleLeaves::Columns { columns, log_rows } => {
                &&& end <= columns.width()
                &&& forall|k: int|
                    0 <= k < indices.len() ==> #[trigger] indices[k] * step < self.domain_size()
            },
        }
    }

    /// The values of some columns at some points lie in a buffer.
    pub open spec fn batch_filled(
        self,
        indices: Seq<usize>,
        step: usize,
        start: usize,
        end: usize,
        layout: BatchLayout,
        out: Seq<GoldilocksField>,
    ) -> bool {
        &&& out.len() == indices.len() * (end - start)
        &&& forall|k: int, c: int|
            0 <= k < indices.len() && 0 <= c < end - start ==> out[
            #[trigger] batch_position(layout, indices.len() as int, end - start, k, c)]
                == self.lde_value(indices[k] * step, start + c)
    }

    /// Gathers LDE values for a batch of points into `out`, in either layout, for both leaf storage
    /// modes.
    pub fn fill_lde_batch(
        &self,
        indices: &[usize],
        step: usize,
        col_range: core::ops::Range<usize>,
        layout: BatchLayout,
        out: &mut Vec<GoldilocksField>,
    )
        requires
            self.can_read(indices@, step, col_range.start, col_range.end),
        ensures
            self.batch_filled(
                indices@,
                step,
                col_range.start,
                col_range.end,
                layout,
                final(out)@,
            ),
    {
        let n: usize = indices.len();
        let start: usize = col_range.start;
        let end: usize = col_range.end;
        let w: usize = end - start;
        if layout == BatchLayout::PolyMajor && step == 1 && n > 0 && is_contiguous(indices) {
            let index_start: usize = indices[0];
            proof {
                assert(indices@[n - 1] * step <= usize::MAX);
                assert forall|k: int| 0 <= k < n implies indices@[k] * step == #[trigger] indices@[
                k] by {
                    assert(indices@[k] * 1 == indices@[k]);
                }
                assert(indices@[n - 1] == index_start + n - 1);
            }
            if self.merkle_tree.is_columns() {
                proof {
                    assert(indices@[n - 1] * step < self.domain_size());
                }
                self.fill_lde_batch_contiguous(index_start, n, start..end, out);
            } else {
                self.fill_lde_batch_contiguous(index_start, n, start..end, out);
            }
            proof {
                let last = out@;
                assert forall|k: int, c: int| 0 <= k < n && 0 <= c < end - start implies last[
                #[trigger] batch_position(layout, n as int, end - start, k, c)] == self.lde_value(
                    indices@[k] * step,
                    start + c,
                ) by {
                    assert(indices@[k] == index_start + k);
                    assert(indices@[k] * step == index_start + k);
                }
            }
            return;
        }
        resize(out, n * w);
        let mut k: usize = 0;
        while k < n
            invariant
                k <= n == indices@.len(),
                w == end - start,
                start <= end,
                out@.len() == n * w,
                self.can_read(indices@, step, start, end),
                forall|j: int, c: int|
                    0 <= j < k && 0 <= c < w ==> out@[
                    #[trigger] batch_position(layout, n as int, w as int, j, c)] == self.lde_value(
                        indices@[j] * step,
                        start + c,
                    ),
            decreases n - k,
        {
            let mut c: usize = 0;
            while c < w
                invariant
                    k < n == indices@.len(),
                    c <= w == end - start,
                    start <= end,
                    out@.len() == n * w,
                    self.can_read(indices@, step, start, end),
                    forall|j: int, d: int|
                        0 <= d < w && (0 <= j < k || (j == k && d < c)) ==> out@[
                        #[trigger] batch_position(layout, n as int, w as int, j, d)]
                            == self.lde_value(indices@[j] * step, start + d),
                decreases w - c,
            {
                let ghost before = out@;
                assert(indices@[k as int] * step <= usize::MAX);
                let point: usize = indices[k] * step;
                let value = self.value_at(point, start + c);
                proof {
                    lemma_batch_position(layout, n as int, w as int, k as int, c as int);
                }
                let len: usize = out.len();
                let position: usize = match layout {
                    BatchLayout::PointMajor => {
                        proof {
                            lemma_flat_index(k as int, c as int, w as int, n as int);
                        }
                        k * w + c
                    },
                    BatchLayout::PolyMajor => {
                        proof {
                            lemma_flat_index(c as int, k as int, n as int, w as int);
                        }
                        c * n + k
                    },
                };
                out[position] = value;
                proof {
                    assert forall|j: int, d: int|
                        0 <= d < w && (0 <= j < k || (j == k && d < c + 1)) implies out@[
                    #[trigger] batch_position(layout, n as int, w as int, j, d)] == self.lde_value(
                        indices@[j] * step,
                        start + d,
                    ) by {
                        lemma_batch_position(layout, n as int, w as int, j, d);
                        if j != k || d != c {
                            assert(batch_position(layout, n as int, w as int, j, d) != position);
                        }
                    }
                }
                c = c + 1;
            }
            k = k + 1;
        }
    }

    /// The value of a column at a point that can be read.
    fn value_at(&self, point: usize, c: usize) -> (r: GoldilocksField)
        requires
            self.readable(),
            match self.merkle_tree.leaves {
                MerkleLeaves::Rows { data, width } => c < self.row_width(),
                MerkleLeaves::Columns { columns, log_rows } => c < columns.width() && point
                    < self.domain_size(),
            },
        ensures
            r == self.lde_value(point as int, c as int),
    {
        match &self.merkle_tree.leaves {
            MerkleLeaves::Columns { columns, log_rows } => {
                proof {
                    self.lemma_column_value(point as int, c as int);
                    vstd::arithmetic::div_mod::lemma_small_mod(
                        point as nat,
                        self.domain_size(),
                    );
                }
                columns.col(c)[point]
            },
            MerkleLeaves::Rows { data, width } => {
                assert(point * 1 == point);
                self.get_lde_values(point, 1)[c]
            },
        }
    }

    /// Copies consecutive LDE points into a [`BatchLayout::PolyMajor`] output buffer.
    pub fn fill_lde_batch_contiguous(
        &self,
        index_start: usize,
        n: usize,
        col_range: core::ops::Range<usize>,
        out: &mut Vec<GoldilocksField>,
    )
        requires
            self.readable(),
            col_range.start <= col_range.end,
            n * (col_range.end - col_range.start) <= usize::MAX,
            n > 0 ==> index_start + n - 1 <= usize::MAX,
            match self.merkle_tree.leaves {
                MerkleLeaves::Rows { data, width } => col_range.end <= self.row_width(),
                MerkleLeaves::Columns { columns, log_rows } => col_range.end <= columns.width()
                    && index_start + n <= self.domain_size(),
            },
        ensures
            final(out)@.len() == n * (col_range.end - col_range.start),
            forall|k: int, c: int|
                0 <= k < n && 0 <= c < col_range.end - col_range.start ==> final(out)@[
                #[trigger] batch_position(
                    BatchLayout::PolyMajor,
                    n as int,
                    col_range.end - col_range.start,
                    k,
                    c,
                )] == self.lde_value(index_start + k, col_range.start + c),
    {
        let start: usize = col_range.start;
        let end: usize = col_range.end;
        let w: usize = end - start;
        resize(out, n * w);
        let ghost layout = BatchLayout::PolyMajor;
        let mut c: usize = 0;
        while c < w
            invariant
                c <= w == end - start,
                start <= end,
                layout == BatchLayout::PolyMajor,
                n > 0 ==> index_start + n - 1 <= usize::MAX,
                out@.len() == n * w,
                self.readable(),
                match self.merkle_tree.leaves {
                    MerkleLeaves::Rows { data, width } => end <= self.row_width(),
                    MerkleLeaves::Columns { columns, log_rows } => end <= columns.width()
                        && index_start + n <= self.domain_size(),
                },
                forall|k: int, d: int|
                    0 <= k < n && 0 <= d < c ==> out@[
                    #[trigger] batch_position(layout, n as int, w as int, k, d)] == self.lde_value(
                        index_start + k,
                        start + d,
                    ),
            decreases w - c,
        {
            let mut k: usize = 0;
            while k < n
                invariant
                    k <= n,
                    c < w == end - start,
                    start <= end,
                    layout == BatchLayout::PolyMajor,
                    index_start + n - 1 <= usize::MAX || n == 0,
                    out@.len() == n * w,
                    self.readable(),
                    match self.merkle_tree.leaves {
                        MerkleLeaves::Rows { data, width } => end <= self.row_width(),
                        MerkleLeaves::Columns { columns, log_rows } => end <= columns.width()
                            && index_start + n <= self.domain_size(),
                    },
                    forall|j: int, d: int|
                        0 <= j < n && (0 <= d < c || (d == c && j < k)) ==> out@[
                        #[trigger] batch_position(layout, n as int, w as int, j, d)]
                            == self.lde_value(index_start + j, start + d),
                decreases n - k,
            {
                let len: usize = out.len();
                let value = self.value_at(index_start + k, start + c);
                proof {
                    lemma_flat_index(c as int, k as int, n as int, w as int);
                    assert(n * w == w * n) by (nonlinear_arith);
                }
                out[c * n + k] = value;
                proof {
                    assert forall|j: int, d: int|
                        0 <= j < n && (0 <= d < c || (d == c && j < k + 1)) implies out@[
                    #[trigger] batch_position(layout, n as int, w as int, j, d)] == self.lde_value(
                        index_start + j,
                        start + d,
                    ) by {
                        lemma_batch_position(layout, n as int, w as int, j, d);
                        lemma_batch_position(layout, n as int, w as int, k as int, c as int);
                    }
                }
                k = k + 1;
            }
            c = c + 1;
        }
    }

    /// Like `get_lde_values`, but fetches LDE values from a batch of consecutive points, and
    /// returns packed values. The domain is cyclic.
    pub fn get_lde_values_packed<P: PackedField<Scalar = GoldilocksField>>(
        &self,
        index_start: usize,
        step: usize,
    ) -> (r: Vec<P>)
        requires
            self.readable(),
            (index_start + P::width() - 1) * step <= usize::MAX,
            index_start + P::width() - 1 <= usize::MAX,
        ensures
            r@.len() == self.row_width(),
            forall|j: int, l: int|
                0 <= j < r@.len() && 0 <= l < P::width() ==> #[trigger] r@[j].seq()[l]
                    == self.lde_value((index_start + l) * step, j),
    {
        let leaf_size: usize = self.lde_row_width();
        let width: usize = P::lane_count();
        let rows: usize = self.merkle_tree.num_leaves;
        let mut r: Vec<P> = Vec::with_capacity(leaf_size);
        while r.len() < leaf_size
            invariant
                self.readable(),
                rows == self.merkle_tree.num_leaves,
                leaf_size == self.row_width(),
                width == P::width(),
                (index_start + width - 1) * step <= usize::MAX,
                index_start + width - 1 <= usize::MAX,
                r@.len() <= leaf_size,
                forall|j: int, l: int|
                    0 <= j < r@.len() && 0 <= l < width ==> #[trigger] r@[j].seq()[l]
                        == self.lde_value((index_start + l) * step, j),
            decreases leaf_size - r@.len(),
        {
            let j: usize = r.len();
            let mut lanes: Vec<GoldilocksField> = Vec::with_capacity(width);
            while lanes.len() < width
                invariant
                    self.readable(),
                    rows == self.merkle_tree.num_leaves,
                    j < leaf_size == self.row_width(),
                    width == P::width(),
                    (index_start + width - 1) * step <= usize::MAX,
                    index_start + width - 1 <= usize::MAX,
                    lanes@.len() <= width,
                    forall|l: int|
                        0 <= l < lanes@.len() ==> #[trigger] lanes@[l] == self.lde_value(
                            (index_start + l) * step,
                            j as int,
                        ),
                decreases width - lanes@.len(),
            {
                let l: usize = lanes.len();
                proof {
                    assert(0 <= (index_start + l) * step <= (index_start + width - 1) * step)
                        by (nonlinear_arith)
                        requires
                            0 <= l <= width - 1,
                            index_start >= 0,
                            step >= 0,
                    ;
                    lemma_pow2_pos((self.degree_log + self.rate_bits) as nat);
                }
                let point: usize = (index_start + l) * step;
                let value = match &self.merkle_tree.leaves {
                    MerkleLeaves::Columns { columns, log_rows } => {
                        proof {
                            self.lemma_column_value(point as int, j as int);
                            vstd::arithmetic::div_mod::lemma_mod_bound(point as int, rows as int);
                        }
                        columns.col(j)[point % rows]
                    },
                    MerkleLeaves::Rows { data, width: row_len } => self.get_lde_values(
                        index_start + l,
                        step,
                    )[j],
                };
                lanes.push(value);
            }
            let packed = P::load(lanes.as_slice(), 0);
            proof {
                assert forall|l: int| 0 <= l < width implies #[trigger] packed.seq()[l]
                    == self.lde_value((index_start + l) * step, j as int) by {
                    assert(packed.seq()[l] == lanes@[l]);
                }
            }
            r.push(packed);
        }
        r
    }
}

/// Whether the indices are consecutive.
fn is_contiguous(indices: &[usize]) -> (r: bool)
    requires
        indices@.len() > 0,
    ensures
        r == forall|k: int| 0 <= k < indices@.len() ==> #[trigger] indices@[k] == indices@[0] + k,
{
    let first: usize = indices[0];
    let mut k: usize = 0;
    while k < indices.len()
        invariant
            k <= indices@.len(),
            first == indices@[0],
            forall|j: int| 0 <= j < k ==> #[trigger] indices@[j] == first + j,
        decreases indices@.len() - k,
    {
        if first.checked_add(k) != Some(indices[k]) {
            assert(indices@[k as int] != indices@[0] + k);
            return false;
        }
        k = k + 1;
    }
    true
}

/// The bounds of a row.
pub proof fn lemma_flat_row(i: int, n: int, width: int)
    requires
        0 <= i < n,
        0 <= width,
    ensures
        0 <= i * width,
        i * width + width <= n * width,
{
    assert(0 <= i * width && i * width + width <= n * width) by (nonlinear_arith)
        requires
            0 <= i,
            i + 1 <= n,
            0 <= width,
    ;
}

} // verus!
