//! Column-major storage of leaves.

use crate::field::goldilocks_field::GoldilocksField;
use crate::util::bits::rev;
use vstd::prelude::*;
use vstd::slice::slice_subrange;

verus! {

/// Columns of equal length, kept one after the other in a single buffer.
#[derive(Clone, Debug)]
pub struct MetalColumns<F: Copy> {
    values: Vec<F>,
    rows: usize,
    cols: usize,
}

impl<F: Copy> MetalColumns<F> {
    /// The number of rows.
    pub closed spec fn spec_rows(self) -> nat {
        self.rows as nat
    }

    /// The number of columns.
    pub closed spec fn spec_cols(self) -> nat {
        self.cols as nat
    }

    /// All values, column after column.
    pub closed spec fn flat(self) -> Seq<F> {
        self.values@
    }

    /// The buffer holds exactly the columns.
    pub open spec fn wf(self) -> bool {
        self.flat().len() == self.spec_rows() * self.spec_cols()
    }

    /// Column `j`.
    pub open spec fn column(self, j: int) -> Seq<F> {
        self.flat().subrange(j * self.spec_rows(), j * self.spec_rows() + self.spec_rows())
    }

    /// Takes a buffer of the right size apart into columns.
    pub fn from_flat(values: Vec<F>, rows: usize, cols: usize) -> (r: Self)
        requires
            values@.len() == rows * cols,
        ensures
            r.flat() == values@,
            r.spec_rows() == rows,
            r.spec_cols() == cols,
            r.wf(),
    {
        MetalColumns { values, rows, cols }
    }

    /// Whether the buffer holds exactly the columns.
    pub fn is_whole(&self) -> (r: bool)
        ensures
            r == self.wf(),
    {
        let len: usize = self.values.len();
        match self.rows.checked_mul(self.cols) {
            Some(size) => size == len,
            None => false,
        }
    }

    /// The number of rows.
    pub fn rows(&self) -> (r: usize)
        ensures
            r == self.spec_rows(),
    {
        self.rows
    }

    /// The number of columns.
    pub fn cols(&self) -> (r: usize)
        ensures
            r == self.spec_cols(),
    {
        self.cols
    }

    /// Column `j`.
    pub fn col(&self, j: usize) -> (r: &[F])
        requires
            self.wf(),
            j < self.spec_cols(),
        ensures
            r@ == self.column(j as int),
            r@.len() == self.spec_rows(),
    {
        proof {
            let (c, r, k) = (self.cols as int, self.rows as int, j as int);
            assert(0 <= k * r && k * r + r <= r * c) by (nonlinear_arith)
                requires
                    0 <= k,
                    k + 1 <= c,
                    0 <= r,
            ;
        }
        let n: usize = self.values.len();
        let start: usize = j * self.rows;
        slice_subrange(self.values.as_slice(), start, start + self.rows)
    }

    /// Overwrites column `j`.
    pub fn set_col(&mut self, j: usize, column: &[F])
        requires
            old(self).wf(),
            j < old(self).spec_cols(),
            column@.len() == old(self).spec_rows(),
        ensures
            final(self).wf(),
            final(self).spec_rows() == old(self).spec_rows(),
            final(self).spec_cols() == old(self).spec_cols(),
            forall|k: int|
                0 <= k < old(self).spec_cols() ==> #[trigger] final(self).column(k) == (if k == j {
                    column@
                } else {
                    old(self).column(k)
                }),
    {
        let ghost old_self = *self;
        let ghost (c, r) = (self.cols as int, self.rows as int);
        proof {
            let k = j as int;
            assert(0 <= k * r && k * r + r <= r * c) by (nonlinear_arith)
                requires
                    0 <= k,
                    k + 1 <= c,
                    0 <= r,
            ;
        }
        let ghost before = self.values@;
        let rows: usize = self.rows;
        let n: usize = self.values.len();
        let start: usize = j * rows;
        let mut i: usize = 0;
        while i < rows
            invariant
                i <= rows == column@.len(),
                self.rows == old_self.rows,
                self.cols == old_self.cols,
                n == before.len() == self.values@.len(),
                start + rows <= n,
                forall|x: int|
                    0 <= x < n ==> #[trigger] self.values@[x] == (if start <= x < start + i {
                        column@[x - start]
                    } else {
                        before[x]
                    }),
            decreases rows - i,
        {
            self.values[start + i] = column[i];
            i = i + 1;
        }
        proof {
            assert forall|k: int| 0 <= k < c implies #[trigger] self.column(k) == (if k == j {
                column@
            } else {
                old_self.column(k)
            }) by {
                assert(0 <= k * r && k * r + r <= r * c) by (nonlinear_arith)
                    requires
                        0 <= k,
                        k + 1 <= c,
                        0 <= r,
                ;
                if k < j {
                    assert(k * r + r <= j * r) by (nonlinear_arith)
                        requires
                            k + 1 <= j,
                            0 <= r,
                    ;
                } else if k > j {
                    assert(j * r + r <= k * r) by (nonlinear_arith)
                        requires
                            j + 1 <= k,
                            0 <= r,
                    ;
                }
                assert(self.column(k) =~= (if k == j {
                    column@
                } else {
                    old_self.column(k)
                }));
            }
        }
    }
}

impl PartialEq for MetalColumns<GoldilocksField> {
    /// Equality of the sizes and of all words.
    fn eq(&self, other: &Self) -> (r: bool) {
        if self.rows != other.rows || self.cols != other.cols || self.values.len()
            != other.values.len() {
            return false;
        }
        let n: usize = self.values.len();
        let mut i: usize = 0;
        while i < n
            invariant
                i <= n == self.values@.len() == other.values@.len(),
                forall|k: int| 0 <= k < i ==> #[trigger] self.values@[k] == other.values@[k],
            decreases n - i,
        {
            if self.values[i].0 != other.values[i].0 {
                assert(self.flat()[i as int] != other.flat()[i as int]);
                return false;
            }
            i = i + 1;
        }
        assert(self.flat() =~= other.flat());
        true
    }
}

impl Eq for MetalColumns<GoldilocksField> {

}

impl vstd::std_specs::cmp::PartialEqSpecImpl for MetalColumns<GoldilocksField> {
    open spec fn obeys_eq_spec() -> bool {
        true
    }

    open spec fn eq_spec(&self, other: &Self) -> bool {
        &&& self.spec_rows() == other.spec_rows()
        &&& self.spec_cols() == other.spec_cols()
        &&& self.flat() == other.flat()
    }
}

/// Natural-order column storage: columns of their own, or columns in one retained buffer.
#[derive(Clone, Debug)]
pub enum ColumnStore<F: Copy> {
    Owned(Vec<Vec<F>>),
    Shared(MetalColumns<F>),
}

impl<F: Copy> ColumnStore<F> {
    /// The number of columns.
    pub open spec fn width(self) -> nat {
        match self {
            ColumnStore::Owned(columns) => columns@.len(),
            ColumnStore::Shared(columns) => columns.spec_cols(),
        }
    }

    /// The number of rows: the length of the first column.
    pub open spec fn height(self) -> nat {
        match self {
            ColumnStore::Owned(columns) => if columns@.len() == 0 {
                0
            } else {
                columns@[0]@.len()
            },
            ColumnStore::Shared(columns) => columns.spec_rows(),
        }
    }

    /// Column `j`.
    pub open spec fn column(self, j: int) -> Seq<F> {
        match self {
            ColumnStore::Owned(columns) => columns@[j]@,
            ColumnStore::Shared(columns) => columns.column(j),
        }
    }

    /// A retained buffer holds exactly the columns.
    pub open spec fn whole(self) -> bool {
        self matches ColumnStore::Shared(columns) ==> columns.wf()
    }

    /// All columns have the same length, and a retained buffer holds exactly the columns.
    pub open spec fn rectangular(self) -> bool {
        &&& forall|j: int|
            0 <= j < self.width() ==> (#[trigger] self.column(j)).len() == self.height()
        &&& self matches ColumnStore::Shared(columns) ==> columns.wf()
    }

    /// Leaf `i` of the tree over `2^log_rows` rows: one entry of each column, at the bit-reversed
    /// index.
    pub open spec fn leaf(self, i: int, log_rows: nat) -> Seq<F> {
        Seq::new(self.width(), |j: int| self.column(j)[rev(i as nat, log_rows) as int])
    }

    /// Whether a retained buffer holds exactly the columns.
    pub fn is_whole(&self) -> (r: bool)
        ensures
            r == self.whole(),
    {
        match self {
            ColumnStore::Owned(columns) => true,
            ColumnStore::Shared(columns) => columns.is_whole(),
        }
    }

    /// The number of columns.
    pub fn num_cols(&self) -> (r: usize)
        ensures
            r == self.width(),
    {
        match self {
            ColumnStore::Owned(columns) => columns.len(),
            ColumnStore::Shared(columns) => columns.cols(),
        }
    }

    /// The number of rows.
    pub fn num_rows(&self) -> (r: usize)
        ensures
            r == self.height(),
    {
        match self {
            ColumnStore::Owned(columns) => if columns.len() == 0 {
                0
            } else {
                columns[0].len()
            },
            ColumnStore::Shared(columns) => columns.rows(),
        }
    }

    /// Column `j`.
    pub fn col(&self, j: usize) -> (r: &[F])
        requires
            j < self.width(),
            *self matches ColumnStore::Shared(columns) ==> columns.wf(),
        ensures
            r@ == self.column(j as int),
    {
        match self {
            ColumnStore::Owned(columns) => columns[j].as_slice(),
            ColumnStore::Shared(columns) => columns.col(j),
        }
    }

    /// Overwrites column `j`.
    pub fn set_col(&mut self, j: usize, column: Vec<F>)
        requires
            old(self).rectangular(),
            j < old(self).width(),
            column@.len() == old(self).height(),
        ensures
            final(self).rectangular(),
            final(self).width() == old(self).width(),
            final(self).height() == old(self).height(),
            forall|k: int|
                0 <= k < old(self).width() ==> #[trigger] final(self).column(k) == (if k == j {
                    column@
                } else {
                    old(self).column(k)
                }),
    {
        assert(self.column(j as int).len() == self.height());
        match self {
            ColumnStore::Owned(columns) => {
                columns[j] = column;
            },
            ColumnStore::Shared(columns) => {
                columns.set_col(j, column.as_slice());
            },
        }
        proof {
            assert forall|k: int| 0 <= k < self.width() implies (#[trigger] self.column(k)).len()
                == self.height() by {
                assert(old(self).column(k).len() == old(self).height());
            }
        }
    }
}

} // verus!
