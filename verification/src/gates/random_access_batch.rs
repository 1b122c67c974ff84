//! The random access gate over a batch of points, as a matrix and accumulated row by row.

use crate::field::batch_util::{batch_multiply_add_at, multiply_add_word};
use crate::field::goldilocks_field::GoldilocksField;
use crate::field::model::elt1;
use crate::field::types::{Field, vals};
use crate::gates::gate::{EvaluationVarsBaseBatch, Gate, lemma_flat_index, lemma_flat_split};
use crate::gates::random_access::{
    RandomAccessGate, digits_value, fold_items, fold_pairs, lemma_constraint_index, lemma_fold_len,
};
use crate::util::bits::{lemma_pow2_basics, lemma_pow2_double, lemma_pow2_mono, two_pow};
use vstd::arithmetic::power2::{lemma_pow2_pos, pow2};
use vstd::prelude::*;

verus! {

/// The words of `num` wires at point `p` of a batch of `n` points.
pub open spec fn point_words(
    values: Seq<GoldilocksField>,
    n: nat,
    num: nat,
    p: int,
) -> Seq<GoldilocksField> {
    Seq::new(num, |w: int| values[w * n + p])
}

/// The word of `x + b * (y - x)`.
pub open spec fn choose_word(
    b: GoldilocksField,
    x: GoldilocksField,
    y: GoldilocksField,
) -> GoldilocksField {
    x.s_add(b.s_mul(y.s_sub(x)))
}

/// Half as many words: one of each pair.
pub open spec fn fold_pair_words(
    items: Seq<GoldilocksField>,
    b: GoldilocksField,
) -> Seq<GoldilocksField> {
    Seq::new(items.len() / 2, |k: int| choose_word(b, items[2 * k], items[2 * k + 1]))
}

/// The words after the pairs have been folded by the first `m` bits in turn.
pub open spec fn fold_words(
    items: Seq<GoldilocksField>,
    bits: Seq<GoldilocksField>,
    m: nat,
) -> Seq<GoldilocksField>
    decreases m,
{
    if m == 0 {
        items
    } else {
        fold_pair_words(fold_words(items, bits, (m - 1) as nat), bits[m - 1])
    }
}

/// The word of the number with the digits from `i` on.
pub open spec fn digits_word(bits: Seq<GoldilocksField>, i: int) -> GoldilocksField
    decreases bits.len() - i,
{
    if i >= bits.len() {
        GoldilocksField(0)
    } else {
        let rest = digits_word(bits, i + 1);
        rest.s_add(rest).s_add(bits[i])
    }
}

impl RandomAccessGate {
    /// The words of the list of a copy.
    pub open spec fn item_words(self, w: Seq<GoldilocksField>, copy: int) -> Seq<GoldilocksField> {
        w.subrange(self.stride() * copy + 2, self.stride() * copy + self.stride())
    }

    /// The words of the bits of the index of a copy.
    pub open spec fn digit_words(self, w: Seq<GoldilocksField>, copy: int) -> Seq<
        GoldilocksField,
    > {
        w.subrange(self.bit_wire(0, copy), self.bit_wire(self.bits as int, copy))
    }

    /// The word of constraint `j` of a copy.
    pub open spec fn copy_word(
        self,
        w: Seq<GoldilocksField>,
        copy: int,
        j: int,
    ) -> GoldilocksField {
        let digits = self.digit_words(w, copy);
        if j < self.bits {
            digits[j].s_mul(digits[j].s_sub(GoldilocksField(1)))
        } else if j == self.bits {
            digits_word(digits, 0).s_sub(w[self.stride() * copy])
        } else {
            fold_words(self.item_words(w, copy), digits, self.bits as nat)[0].s_sub(
                w[self.stride() * copy + 1],
            )
        }
    }

    /// The word of constraint `k`.
    pub open spec fn constraint_word(
        self,
        w: Seq<GoldilocksField>,
        c: Seq<GoldilocksField>,
        k: int,
    ) -> GoldilocksField {
        if k < self.copy_constraints() {
            self.copy_word(w, k / (self.bits + 2), k % (self.bits + 2))
        } else {
            let i = k - self.copy_constraints();
            c[i].s_sub(w[self.stride() * self.num_copies + i])
        }
    }
}

proof fn lemma_digits_word(bits: Seq<GoldilocksField>, i: int)
    requires
        0 <= i,
    ensures
        digits_word(bits, i).v() == digits_value(vals(bits), i),
    decreases bits.len() - i,
{
    if i < bits.len() {
        lemma_digits_word(bits, i + 1);
        let rest = digits_word(bits, i + 1);
        GoldilocksField::lemma_ops(rest, rest);
        GoldilocksField::lemma_ops(rest.s_add(rest), bits[i]);
    } else {
        GoldilocksField::lemma_values(GoldilocksField(0));
    }
}

proof fn lemma_fold_words(
    items: Seq<GoldilocksField>,
    bits: Seq<GoldilocksField>,
    m: nat,
)
    requires
        m <= bits.len(),
    ensures
        vals(fold_words(items, bits, m)) == fold_items(vals(items), vals(bits), m),
    decreases m,
{
    if m > 0 {
        let q = (m - 1) as nat;
        lemma_fold_words(items, bits, q);
        let prev = fold_words(items, bits, q);
        let b = bits[q as int];
        let out = fold_words(items, bits, m);
        assert(vals(prev).len() == prev.len());
        assert forall|k: int| 0 <= k < out.len() implies vals(out)[k] == #[trigger] fold_pairs(
            vals(prev),
            b.v(),
        )[k] by {
            let (x, y) = (prev[2 * k], prev[2 * k + 1]);
            GoldilocksField::lemma_ops(y, x);
            GoldilocksField::lemma_ops(b, y.s_sub(x));
            GoldilocksField::lemma_ops(x, b.s_mul(y.s_sub(x)));
        }
        assert(vals(out) =~= fold_pairs(vals(prev), b.v()));
        assert(vals(bits)[q as int] == b.v());
    }
}

/// The words of the constraints stand for the constraints.
pub proof fn lemma_constraint_word(
    gate: RandomAccessGate,
    w: Seq<GoldilocksField>,
    c: Seq<GoldilocksField>,
    k: int,
)
    requires
        gate.wf(),
        w.len() >= gate.wire_count(),
        c.len() >= gate.constant_count(),
        0 <= k < gate.constraint_count(),
    ensures
        gate.constraint_word(w, c, k).v() == gate.constraint(vals(w), vals(c), k),
{
    gate.lemma_sizes();
    if k < gate.copy_constraints() {
        let m = gate.bits + 2;
        let (copy, j) = (k / m, k % m);
        lemma_flat_split(k, m, gate.num_copies as int);
        gate.lemma_copy(copy);
        let digits = gate.digit_words(w, copy);
        let items = gate.item_words(w, copy);
        assert(vals(digits) =~= gate.digits(vals(w), copy));
        assert(vals(items) =~= gate.items(vals(w), copy));
        if j < gate.bits {
            let one = GoldilocksField(1);
            GoldilocksField::lemma_values(one);
            assert(one.v() == elt1());
            GoldilocksField::lemma_ops(digits[j], one);
            GoldilocksField::lemma_ops(digits[j], digits[j].s_sub(one));
            assert(vals(digits)[j] == digits[j].v());
        } else if j == gate.bits {
            lemma_digits_word(digits, 0);
            GoldilocksField::lemma_ops(digits_word(digits, 0), w[gate.stride() * copy]);
        } else {
            lemma_fold_words(items, digits, gate.bits as nat);
            let folded = fold_words(items, digits, gate.bits as nat);
            lemma_fold_len(vals(items), vals(digits), gate.bits as nat, gate.bits as nat);
            lemma_pow2_basics();
            GoldilocksField::lemma_ops(folded[0], w[gate.stride() * copy + 1]);
            assert(vals(folded)[0] == folded[0].v());
        }
    } else {
        let i = k - gate.copy_constraints();
        GoldilocksField::lemma_ops(c[i], w[gate.stride() * gate.num_copies + i]);
    }
}

/// A row holds the words of constraint `k` at every point.
spec fn row_ok(
    gate: RandomAccessGate,
    wires: Seq<GoldilocksField>,
    constants: Seq<GoldilocksField>,
    n: nat,
    row: Seq<GoldilocksField>,
    k: int,
) -> bool {
    &&& row.len() == n
    &&& forall|p: int|
        0 <= p < n ==> #[trigger] row[p] == gate.constraint_word(
            point_words(wires, n, gate.wire_count(), p),
            point_words(constants, n, gate.constant_count(), p),
            k,
        )
}

/// The word of wire `w` at point `p`.
fn word_at(values: &[GoldilocksField], n: usize, num: usize, w: usize, p: usize) -> (r:
    GoldilocksField)
    requires
        values@.len() >= num * n,
        w < num,
        p < n,
    ensures
        r == point_words(values@, n as nat, num as nat, p as int)[w as int],
{
    let size: usize = values.len();
    proof {
        lemma_flat_index(w as int, p as int, n as int, num as int);
    }
    values[w * n + p]
}

/// The words that say whether a bit is zero or one.
fn bit_row(
    gate: &RandomAccessGate,
    wires: &[GoldilocksField],
    Ghost(constants): Ghost<Seq<GoldilocksField>>,
    n: usize,
    i: usize,
    copy: usize,
) -> (row: Vec<GoldilocksField>)
    requires
        gate.wf(),
        wires@.len() >= gate.wire_count() * n,
        i < gate.bits,
        copy < gate.num_copies,
    ensures
        row_ok(*gate, wires@, constants, n as nat, row@, copy * (gate.bits + 2) + i),
{
    proof {
        gate.lemma_copy(copy as int);
        lemma_constraint_index(*gate, copy as int, i as int);
    }
    let num: usize = gate.num_wires();
    let col: usize = gate.wire_bit(i, copy);
    let mut row: Vec<GoldilocksField> = Vec::with_capacity(n);
    while row.len() < n
        invariant
            row@.len() <= n,
            num == gate.wire_count(),
            wires@.len() >= num * n,
            col < num,
            forall|p: int|
                0 <= p < row@.len() ==> #[trigger] row@[p] == ({
                    let b = point_words(wires@, n as nat, num as nat, p)[col as int];
                    b.s_mul(b.s_sub(GoldilocksField(1)))
                }),
        decreases n - row@.len(),
    {
        let p: usize = row.len();
        let b = word_at(wires, n, num, col, p);
        row.push(b.mul(b.sub(GoldilocksField(1))));
    }
    proof {
        assert forall|p: int| 0 <= p < n implies #[trigger] row@[p] == gate.constraint_word(
            point_words(wires@, n as nat, gate.wire_count(), p),
            point_words(constants, n as nat, gate.constant_count(), p),
            copy * (gate.bits + 2) + i,
        ) by {
            let w = point_words(wires@, n as nat, num as nat, p);
            assert(gate.digit_words(w, copy as int)[i as int] == w[col as int]);
        }
    }
    row
}

/// The words that compare the number that the bits give with the index.
fn index_row(
    gate: &RandomAccessGate,
    wires: &[GoldilocksField],
    Ghost(constants): Ghost<Seq<GoldilocksField>>,
    n: usize,
    copy: usize,
) -> (row: Vec<GoldilocksField>)
    requires
        gate.wf(),
        wires@.len() >= gate.wire_count() * n,
        copy < gate.num_copies,
    ensures
        row_ok(*gate, wires@, constants, n as nat, row@, copy * (gate.bits + 2) + gate.bits),
{
    proof {
        gate.lemma_copy(copy as int);
        gate.lemma_sizes();
        lemma_constraint_index(*gate, copy as int, gate.bits as int);
    }
    let num: usize = gate.num_wires();
    let bits: usize = gate.bits;
    let bit_start: usize = gate.num_routed_wires() + copy * bits;
    let index_col: usize = gate.wire_access_index(copy);
    let mut row: Vec<GoldilocksField> = Vec::with_capacity(n);
    while row.len() < n
        invariant
            row@.len() <= n,
            gate.wf(),
            copy < gate.num_copies,
            num == gate.wire_count(),
            wires@.len() >= num * n,
            bits == gate.bits,
            bit_start == gate.bit_wire(0, copy as int),
            bit_start + bits == gate.bit_wire(bits as int, copy as int),
            bit_start + bits <= num,
            index_col == gate.stride() * copy,
            index_col < num,
            forall|p: int|
                0 <= p < row@.len() ==> #[trigger] row@[p] == ({
                    let w = point_words(wires@, n as nat, num as nat, p);
                    digits_word(gate.digit_words(w, copy as int), 0).s_sub(w[index_col as int])
                }),
        decreases n - row@.len(),
    {
        let p: usize = row.len();
        let ghost w = point_words(wires@, n as nat, num as nat, p as int);
        let ghost digits = gate.digit_words(w, copy as int);
        let mut acc = GoldilocksField(0);
        let mut i: usize = bits;
        while i > 0
            invariant
                i <= bits == digits.len(),
                p < n,
                num == gate.wire_count(),
                wires@.len() >= num * n,
                bit_start + bits <= num,
                w == point_words(wires@, n as nat, num as nat, p as int),
                digits == w.subrange(bit_start as int, bit_start + bits),
                acc == digits_word(digits, i as int),
            decreases i,
        {
            i = i - 1;
            let b = word_at(wires, n, num, bit_start + i, p);
            acc = acc.double().add(b);
        }
        let index = word_at(wires, n, num, index_col, p);
        row.push(acc.sub(index));
    }
    row
}

/// The words of a block of columns at point `p`.
spec fn column_words(
    items: Seq<GoldilocksField>,
    n: nat,
    count: nat,
    p: int,
) -> Seq<GoldilocksField> {
    Seq::new(count, |k: int| items[k * n + p])
}

/// Folds the pairs of `2 * half` columns by one bit, in place.
fn fold_columns(
    items: &mut Vec<GoldilocksField>,
    n: usize,
    half: usize,
    wires: &[GoldilocksField],
    num: usize,
    col: usize,
)
    requires
        wires@.len() >= num * n,
        col < num,
        2 * half * n <= old(items)@.len(),
        2 * half <= usize::MAX,
    ensures
        final(items)@.len() == old(items)@.len(),
        forall|p: int|
            0 <= p < n ==> #[trigger] column_words(final(items)@, n as nat, half as nat, p)
                == fold_pair_words(
                column_words(old(items)@, n as nat, (2 * half) as nat, p),
                point_words(wires@, n as nat, num as nat, p)[col as int],
            ),
{
    let ghost items0 = items@;
    let size: usize = items.len();
    let mut k: usize = 0;
    assert(0 * n == 0);
    while k < half
        invariant
            k <= half,
            2 * half <= usize::MAX,
            size == items@.len() == items0.len(),
            2 * half * n <= size,
            wires@.len() >= num * n,
            col < num,
            forall|j: int, p: int|
                0 <= j < k && 0 <= p < n ==> #[trigger] items@[j * n + p] == choose_word(
                    point_words(wires@, n as nat, num as nat, p)[col as int],
                    items0[(2 * j) * n + p],
                    items0[(2 * j + 1) * n + p],
                ),
            forall|x: int| k * n <= x < size ==> #[trigger] items@[x] == items0[x],
        decreases half - k,
    {
        let ghost items1 = items@;
        let mut p: usize = 0;
        proof {
            let (a, b) = (k as int, n as int);
            assert((2 * a) * b >= a * b && (2 * a + 1) * b == (2 * a) * b + b && (2 * a + 2) * b
                == (2 * a) * b + 2 * b && (a + 1) * b == a * b + b && a * b >= 0)
                by (nonlinear_arith)
                requires
                    a >= 0,
                    b >= 0,
            ;
            assert((2 * a + 2) * b <= 2 * half * b) by (nonlinear_arith)
                requires
                    a + 1 <= half,
                    b >= 0,
            ;
        }
        while p < n
            invariant
                k < half,
                p <= n,
                2 * half <= usize::MAX,
                size == items@.len() == items1.len() == items0.len(),
                wires@.len() >= num * n,
                col < num,
                (2 * k) * n >= k * n >= 0,
                (2 * k + 1) * n == (2 * k) * n + n,
                (2 * k) * n + 2 * n <= size,
                forall|x: int| k * n <= x < size ==> #[trigger] items1[x] == items0[x],
                forall|x: int| 0 <= x < k * n ==> #[trigger] items@[x] == items1[x],
                forall|x: int| k * n + p <= x < size ==> #[trigger] items@[x] == items1[x],
                forall|q: int|
                    0 <= q < p ==> #[trigger] items@[k * n + q] == choose_word(
                        point_words(wires@, n as nat, num as nat, q)[col as int],
                        items0[(2 * k) * n + q],
                        items0[(2 * k + 1) * n + q],
                    ),
            decreases n - p,
        {
            let x = items[2 * k * n + p];
            let y = items[(2 * k + 1) * n + p];
            let b = word_at(wires, n, num, col, p);
            proof {
                assert(x == items0[(2 * k) * n + p]);
                assert(y == items0[(2 * k + 1) * n + p]);
            }
            items[k * n + p] = x.add(b.mul(y.sub(x)));
            p = p + 1;
        }
        proof {
            assert forall|j: int, q: int|
                0 <= j < k + 1 && 0 <= q < n implies #[trigger] items@[j * n + q] == choose_word(
                point_words(wires@, n as nat, num as nat, q)[col as int],
                items0[(2 * j) * n + q],
                items0[(2 * j + 1) * n + q],
            ) by {
                if j < k {
                    assert(0 <= j * n && j * n + n <= k * n) by (nonlinear_arith)
                        requires
                            0 <= j,
                            j + 1 <= k,
                            0 <= n,
                    ;
                    assert(items@[j * n + q] == items1[j * n + q]);
                }
            }
        }
        k = k + 1;
    }
    proof {
        assert forall|p: int| 0 <= p < n implies #[trigger] column_words(
            items@,
            n as nat,
            half as nat,
            p,
        ) == fold_pair_words(
            column_words(items0, n as nat, (2 * half) as nat, p),
            point_words(wires@, n as nat, num as nat, p)[col as int],
        ) by {
            let old_words = column_words(items0, n as nat, (2 * half) as nat, p);
            let target = fold_pair_words(
                old_words,
                point_words(wires@, n as nat, num as nat, p)[col as int],
            );
            let now = column_words(items@, n as nat, half as nat, p);
            assert forall|j: int| 0 <= j < half implies now[j] == #[trigger] target[j] by {
                assert(items@[j * n + p] == choose_word(
                    point_words(wires@, n as nat, num as nat, p)[col as int],
                    items0[(2 * j) * n + p],
                    items0[(2 * j + 1) * n + p],
                ));
                assert(old_words[2 * j] == items0[(2 * j) * n + p]);
                assert(old_words[2 * j + 1] == items0[(2 * j + 1) * n + p]);
            }
            assert(now =~= target);
        }
    }
}

/// Folds the list of a copy, kept in columns, by the bits from `from` on.
fn fold_rest(
    gate: &RandomAccessGate,
    items: &mut Vec<GoldilocksField>,
    wires: &[GoldilocksField],
    n: usize,
    copy: usize,
    from: usize,
)
    requires
        gate.wf(),
        wires@.len() >= gate.wire_count() * n,
        copy < gate.num_copies,
        from <= gate.bits,
        old(items)@.len() == pow2((gate.bits - from) as nat) * n,
        forall|p: int|
            0 <= p < n ==> #[trigger] column_words(
                old(items)@,
                n as nat,
                pow2((gate.bits - from) as nat),
                p,
            ) == ({
                let w = point_words(wires@, n as nat, gate.wire_count(), p);
                fold_words(
                    gate.item_words(w, copy as int),
                    gate.digit_words(w, copy as int),
                    from as nat,
                )
            }),
    ensures
        final(items)@.len() == old(items)@.len(),
        forall|p: int|
            0 <= p < n ==> #[trigger] column_words(final(items)@, n as nat, 1, p) == ({
                let w = point_words(wires@, n as nat, gate.wire_count(), p);
                fold_words(
                    gate.item_words(w, copy as int),
                    gate.digit_words(w, copy as int),
                    gate.bits as nat,
                )
            }),
{
    let num: usize = gate.num_wires();
    let bits: usize = gate.bits;
    let size: usize = items.len();
    proof {
        gate.lemma_copy(copy as int);
        lemma_pow2_mono((bits - from) as nat, bits as nat);
        lemma_pow2_basics();
    }
    let mut level: usize = two_pow(bits - from);
    let mut i: usize = from;
    while i < bits
        invariant
            from <= i <= bits == gate.bits,
            gate.wf(),
            copy < gate.num_copies,
            num == gate.wire_count(),
            wires@.len() >= num * n,
            size == items@.len(),
            level == pow2((bits - i) as nat),
            level * n <= size,
            forall|p: int|
                0 <= p < n ==> #[trigger] column_words(items@, n as nat, level as nat, p) == ({
                    let w = point_words(wires@, n as nat, num as nat, p);
                    fold_words(
                        gate.item_words(w, copy as int),
                        gate.digit_words(w, copy as int),
                        i as nat,
                    )
                }),
        decreases bits - i,
    {
        proof {
            lemma_pow2_double((bits - i - 1) as nat);
            lemma_pow2_mono((bits - i) as nat, bits as nat);
            gate.lemma_copy(copy as int);
        }
        let half: usize = level / 2;
        let col: usize = gate.wire_bit(i, copy);
        let ghost before = items@;
        proof {
            assert(2 * half * n == level * n);
            assert(half * n <= level * n) by (nonlinear_arith)
                requires
                    half <= level,
                    0 <= n,
            ;
        }
        fold_columns(items, n, half, wires, num, col);
        proof {
            assert forall|p: int| 0 <= p < n implies #[trigger] column_words(
                items@,
                n as nat,
                half as nat,
                p,
            ) == ({
                let w = point_words(wires@, n as nat, num as nat, p);
                fold_words(
                    gate.item_words(w, copy as int),
                    gate.digit_words(w, copy as int),
                    (i + 1) as nat,
                )
            }) by {
                let w = point_words(wires@, n as nat, num as nat, p);
                assert(column_words(before, n as nat, level as nat, p) == fold_words(
                    gate.item_words(w, copy as int),
                    gate.digit_words(w, copy as int),
                    i as nat,
                ));
                assert(gate.digit_words(w, copy as int)[i as int] == w[col as int]);
            }
        }
        level = half;
        i = i + 1;
    }
}

/// The list of a copy in columns.
fn all_columns(gate: &RandomAccessGate, wires: &[GoldilocksField], n: usize, copy: usize) -> (r:
    Vec<GoldilocksField>)
    requires
        gate.wf(),
        wires@.len() >= gate.wire_count() * n,
        copy < gate.num_copies,
    ensures
        r@.len() == pow2(gate.bits as nat) * n,
        forall|p: int|
            0 <= p < n ==> #[trigger] column_words(r@, n as nat, pow2(gate.bits as nat), p)
                == gate.item_words(
                point_words(wires@, n as nat, gate.wire_count(), p),
                copy as int,
            ),
{
    proof {
        gate.lemma_copy(copy as int);
        gate.lemma_sizes();
    }
    let num: usize = gate.num_wires();
    let size: usize = wires.len();
    let vec_size: usize = gate.vec_size();
    let start: usize = gate.wire_access_index(copy) + 2;
    let mut r: Vec<GoldilocksField> = Vec::new();
    let mut i: usize = 0;
    assert(0 * n == 0);
    while i < vec_size
        invariant
            i <= vec_size,
            start + vec_size <= num,
            size == wires@.len() && wires@.len() >= num * n,
            r@.len() == i * n,
            forall|j: int, p: int|
                0 <= j < i && 0 <= p < n ==> #[trigger] r@[j * n + p] == wires@[(start + j) * n
                    + p],
        decreases vec_size - i,
    {
        let ghost r0 = r@;
        let mut p: usize = 0;
        assert((i + 1) * n == i * n + n) by (nonlinear_arith);
        while p < n
            invariant
                p <= n,
                i < vec_size,
                start + vec_size <= num,
                size == wires@.len() && wires@.len() >= num * n,
                r0.len() == i * n,
                r@.len() == i * n + p,
                forall|x: int| 0 <= x < r0.len() ==> #[trigger] r@[x] == r0[x],
                forall|q: int|
                    0 <= q < p ==> #[trigger] r@[i * n + q] == wires@[(start + i) * n + q],
            decreases n - p,
        {
            proof {
                lemma_flat_index(start + i, p as int, n as int, num as int);
            }
            r.push(word_at(wires, n, num, start + i, p));
            p = p + 1;
        }
        proof {
            assert forall|j: int, q: int|
                0 <= j < i + 1 && 0 <= q < n implies #[trigger] r@[j * n + q] == wires@[(start + j)
                * n + q] by {
                if j < i {
                    assert(0 <= j * n && j * n + n <= i * n) by (nonlinear_arith)
                        requires
                            0 <= j,
                            j + 1 <= i,
                            0 <= n,
                    ;
                    assert(r@[j * n + q] == r0[j * n + q]);
                }
            }
        }
        i = i + 1;
    }
    proof {
        assert forall|p: int| 0 <= p < n implies #[trigger] column_words(
            r@,
            n as nat,
            vec_size as nat,
            p,
        ) == gate.item_words(point_words(wires@, n as nat, num as nat, p), copy as int) by {
            let w = point_words(wires@, n as nat, num as nat, p);
            let (a, b) = (
                column_words(r@, n as nat, vec_size as nat, p),
                gate.item_words(w, copy as int),
            );
            assert forall|j: int| 0 <= j < vec_size implies a[j] == #[trigger] b[j] by {
                assert(r@[j * n + p] == wires@[(start + j) * n + p]);
                assert(b[j] == w[start + j]);
            }
            assert(a =~= b);
        }
    }
    r
}

/// The words that compare the selected item with the claimed element.
fn claim_row(
    gate: &RandomAccessGate,
    items: &Vec<GoldilocksField>,
    wires: &[GoldilocksField],
    Ghost(constants): Ghost<Seq<GoldilocksField>>,
    n: usize,
    copy: usize,
) -> (row: Vec<GoldilocksField>)
    requires
        gate.wf(),
        wires@.len() >= gate.wire_count() * n,
        copy < gate.num_copies,
        n <= items@.len(),
        forall|p: int|
            0 <= p < n ==> #[trigger] column_words(items@, n as nat, 1, p) == ({
                let w = point_words(wires@, n as nat, gate.wire_count(), p);
                fold_words(
                    gate.item_words(w, copy as int),
                    gate.digit_words(w, copy as int),
                    gate.bits as nat,
                )
            }),
    ensures
        row_ok(*gate, wires@, constants, n as nat, row@, copy * (gate.bits + 2) + gate.bits + 1),
{
    proof {
        gate.lemma_copy(copy as int);
        gate.lemma_sizes();
        lemma_constraint_index(*gate, copy as int, gate.bits + 1);
    }
    let num: usize = gate.num_wires();
    let col: usize = gate.wire_claimed_element(copy);
    let mut row: Vec<GoldilocksField> = Vec::with_capacity(n);
    while row.len() < n
        invariant
            row@.len() <= n <= items@.len(),
            num == gate.wire_count(),
            wires@.len() >= num * n,
            col < num,
            forall|p: int|
                0 <= p < row@.len() ==> #[trigger] row@[p] == items@[p].s_sub(
                    point_words(wires@, n as nat, num as nat, p)[col as int],
                ),
        decreases n - row@.len(),
    {
        let p: usize = row.len();
        let claimed = word_at(wires, n, num, col, p);
        row.push(items[p].sub(claimed));
    }
    proof {
        assert forall|p: int| 0 <= p < n implies #[trigger] row@[p] == gate.constraint_word(
            point_words(wires@, n as nat, gate.wire_count(), p),
            point_words(constants, n as nat, gate.constant_count(), p),
            copy * (gate.bits + 2) + gate.bits + 1,
        ) by {
            assert(column_words(items@, n as nat, 1, p)[0] == items@[0 * n + p]);
            assert(0 * n == 0);
        }
    }
    row
}

/// The words that compare a constant with its wire.
fn constant_row(
    gate: &RandomAccessGate,
    wires: &[GoldilocksField],
    constants: &[GoldilocksField],
    n: usize,
    i: usize,
) -> (row: Vec<GoldilocksField>)
    requires
        gate.wf(),
        wires@.len() >= gate.wire_count() * n,
        constants@.len() >= gate.constant_count() * n,
        i < gate.num_extra_constants,
    ensures
        row_ok(*gate, wires@, constants@, n as nat, row@, gate.copy_constraints() + i),
{
    proof {
        gate.lemma_sizes();
    }
    let num: usize = gate.num_wires();
    let count: usize = gate.num_constants();
    let col: usize = gate.wire_extra_constant(i);
    let mut row: Vec<GoldilocksField> = Vec::with_capacity(n);
    while row.len() < n
        invariant
            row@.len() <= n,
            num == gate.wire_count(),
            count == gate.constant_count(),
            wires@.len() >= num * n,
            constants@.len() >= count * n,
            col < num,
            i < count,
            forall|p: int|
                0 <= p < row@.len() ==> #[trigger] row@[p] == point_words(
                    constants@,
                    n as nat,
                    count as nat,
                    p,
                )[i as int].s_sub(point_words(wires@, n as nat, num as nat, p)[col as int]),
        decreases n - row@.len(),
    {
        let p: usize = row.len();
        let constant = word_at(constants, n, count, i, p);
        let wire = word_at(wires, n, num, col, p);
        row.push(constant.sub(wire));
    }
    row
}

/// The matrix holds the words of the first constraints.
spec fn matrix_ok(
    gate: RandomAccessGate,
    wires: Seq<GoldilocksField>,
    constants: Seq<GoldilocksField>,
    n: nat,
    r: Seq<GoldilocksField>,
    rows: int,
) -> bool {
    &&& r.len() == rows * n
    &&& forall|k: int, p: int|
        0 <= k < rows && 0 <= p < n ==> #[trigger] r[k * n + p] == gate.constraint_word(
            point_words(wires, n, gate.wire_count(), p),
            point_words(constants, n, gate.constant_count(), p),
            k,
        )
}

/// Appends a row.
fn append_row(
    r: &mut Vec<GoldilocksField>,
    row: Vec<GoldilocksField>,
    Ghost(gate): Ghost<RandomAccessGate>,
    Ghost(wires): Ghost<Seq<GoldilocksField>>,
    Ghost(constants): Ghost<Seq<GoldilocksField>>,
    Ghost(n): Ghost<nat>,
    Ghost(k): Ghost<int>,
)
    requires
        0 <= k,
        matrix_ok(gate, wires, constants, n, old(r)@, k),
        row_ok(gate, wires, constants, n, row@, k),
    ensures
        matrix_ok(gate, wires, constants, n, final(r)@, k + 1),
{
    let ghost r0 = r@;
    let mut row = row;
    let ghost tail = row@;
    r.append(&mut row);
    proof {
        assert((k + 1) * n == k * n + n) by (nonlinear_arith);
        assert forall|j: int, p: int|
            0 <= j < k + 1 && 0 <= p < n implies #[trigger] r@[j * n + p] == gate.constraint_word(
            point_words(wires, n, gate.wire_count(), p),
            point_words(constants, n, gate.constant_count(), p),
            j,
        ) by {
            if j < k {
                assert(0 <= j * n && j * n + n <= k * n) by (nonlinear_arith)
                    requires
                        0 <= j,
                        j + 1 <= k,
                        0 <= n,
                ;
                assert(r@[j * n + p] == r0[j * n + p]);
            } else {
                assert(r@[j * n + p] == tail[p]);
            }
        }
    }
}

/// What accumulating leaves in the first `rows` rows.
pub open spec fn rows_accumulated(
    gate: RandomAccessGate,
    wires: Seq<GoldilocksField>,
    constants: Seq<GoldilocksField>,
    n: nat,
    filters: Seq<GoldilocksField>,
    before: Seq<GoldilocksField>,
    after: Seq<GoldilocksField>,
    rows: int,
) -> bool {
    &&& after.len() == before.len()
    &&& forall|k: int, p: int|
        0 <= k < rows && 0 <= p < n ==> #[trigger] after[k * n + p] == multiply_add_word(
            before[k * n + p],
            gate.constraint_word(
                point_words(wires, n, gate.wire_count(), p),
                point_words(constants, n, gate.constant_count(), p),
                k,
            ),
            filters[p],
            p,
            n as int,
        )
    &&& forall|x: int| rows * n <= x < before.len() ==> #[trigger] after[x] == before[x]
}

/// Multiplies a row by the filters and adds it to its place.
fn accumulate_constraint_direct(
    combined: &mut [GoldilocksField],
    filters: &[GoldilocksField],
    row: &Vec<GoldilocksField>,
    k: usize,
    n: usize,
    Ghost(gate): Ghost<RandomAccessGate>,
    Ghost(wires): Ghost<Seq<GoldilocksField>>,
    Ghost(constants): Ghost<Seq<GoldilocksField>>,
    Ghost(before): Ghost<Seq<GoldilocksField>>,
)
    requires
        filters@.len() == n,
        (k + 1) * n <= old(combined)@.len(),
        rows_accumulated(
            gate,
            wires,
            constants,
            n as nat,
            filters@,
            before,
            old(combined)@,
            k as int,
        ),
        row_ok(gate, wires, constants, n as nat, row@, k as int),
    ensures
        rows_accumulated(
            gate,
            wires,
            constants,
            n as nat,
            filters@,
            before,
            final(combined)@,
            k + 1,
        ),
{
    let size: usize = combined.len();
    let ghost mid = combined@;
    proof {
        assert((k + 1) * n == k * n + n) by (nonlinear_arith);
        assert(0 <= k * n) by (nonlinear_arith)
            requires
                0 <= k,
                0 <= n,
        ;
    }
    batch_multiply_add_at(combined, k * n, row.as_slice(), filters);
    proof {
        assert forall|j: int, p: int|
            0 <= j < k + 1 && 0 <= p < n implies #[trigger] combined@[j * n + p]
            == multiply_add_word(
            before[j * n + p],
            gate.constraint_word(
                point_words(wires, n as nat, gate.wire_count(), p),
                point_words(constants, n as nat, gate.constant_count(), p),
                j,
            ),
            filters@[p],
            p,
            n as int,
        ) by {
            if j < k {
                assert(0 <= j * n && j * n + n <= k * n) by (nonlinear_arith)
                    requires
                        0 <= j,
                        j + 1 <= k,
                        0 <= n,
                ;
                assert(combined@[j * n + p] == mid[j * n + p]);
            } else {
                assert(mid[k * n + p] == before[k * n + p]);
                assert(row@[p] == row@[(k * n + p) - k * n]);
            }
        }
    }
}

impl RandomAccessGate {
    /// The constraints at all points of a batch, constraint after constraint.
    pub fn eval_unfiltered_base_batch(&self, vars: &EvaluationVarsBaseBatch) -> (r: Vec<
        GoldilocksField,
    >)
        requires
            self.wf(),
            vars.fits(self.wire_count(), self.constant_count()),
        ensures
            r@.len() == self.constraint_count() * vars.batch_size,
            forall|k: int, p: int|
                0 <= k < self.constraint_count() && 0 <= p < vars.batch_size
                    ==> #[trigger] r@[k * vars.batch_size + p] == self.constraint_word(
                    point_words(
                        vars.local_wires@,
                        vars.batch_size as nat,
                        self.wire_count(),
                        p,
                    ),
                    point_words(
                        vars.local_constants@,
                        vars.batch_size as nat,
                        self.constant_count(),
                        p,
                    ),
                    k,
                ),
    {
        let n: usize = vars.batch_size;
        let wires = vars.local_wires;
        let constants = vars.local_constants;
        let ghost g = *self;
        let ghost m = g.bits + 2;
        proof {
            g.lemma_sizes();
            assert(0 * n == 0 && 0 * m == 0);
        }
        let mut r: Vec<GoldilocksField> = Vec::new();
        let mut copy: usize = 0;
        while copy < self.num_copies
            invariant
                copy <= self.num_copies,
                g == *self,
                g.wf(),
                m == g.bits + 2,
                wires@.len() >= g.wire_count() * n,
                matrix_ok(g, wires@, constants@, n as nat, r@, copy * m),
            decreases self.num_copies - copy,
        {
            proof {
                g.lemma_copy(copy as int);
                assert((copy + 1) * m == copy * m + m) by (nonlinear_arith);
            }
            let mut i: usize = 0;
            while i < self.bits
                invariant
                    i <= self.bits,
                    copy < self.num_copies,
                    g == *self,
                    g.wf(),
                    m == g.bits + 2,
                    0 <= copy * m,
                    wires@.len() >= g.wire_count() * n,
                    matrix_ok(g, wires@, constants@, n as nat, r@, copy * m + i),
                decreases self.bits - i,
            {
                let row = bit_row(self, wires, Ghost(constants@), n, i, copy);
                append_row(
                    &mut r,
                    row,
                    Ghost(g),
                    Ghost(wires@),
                    Ghost(constants@),
                    Ghost(n as nat),
                    Ghost(copy * m + i),
                );
                i = i + 1;
            }
            let row = index_row(self, wires, Ghost(constants@), n, copy);
            append_row(
                &mut r,
                row,
                Ghost(g),
                Ghost(wires@),
                Ghost(constants@),
                Ghost(n as nat),
                Ghost(copy * m + g.bits),
            );
            let mut items = all_columns(self, wires, n, copy);
            let ghost full = items@;
            fold_rest(self, &mut items, wires, n, copy, 0);
            proof {
                lemma_pow2_pos(g.bits as nat);
                assert(n <= items@.len()) by (nonlinear_arith)
                    requires
                        items@.len() == pow2(g.bits as nat) * n,
                        pow2(g.bits as nat) >= 1,
                        n >= 0,
                ;
            }
            let row = claim_row(self, &items, wires, Ghost(constants@), n, copy);
            append_row(
                &mut r,
                row,
                Ghost(g),
                Ghost(wires@),
                Ghost(constants@),
                Ghost(n as nat),
                Ghost(copy * m + g.bits + 1),
            );
            copy = copy + 1;
        }
        let mut i: usize = 0;
        while i < self.num_extra_constants
            invariant
                i <= self.num_extra_constants,
                g == *self,
                g.wf(),
                0 <= g.copy_constraints(),
                wires@.len() >= g.wire_count() * n,
                constants@.len() >= g.constant_count() * n,
                matrix_ok(g, wires@, constants@, n as nat, r@, g.copy_constraints() + i),
            decreases self.num_extra_constants - i,
        {
            let row = constant_row(self, wires, constants, n, i);
            append_row(
                &mut r,
                row,
                Ghost(g),
                Ghost(wires@),
                Ghost(constants@),
                Ghost(n as nat),
                Ghost(g.copy_constraints() + i),
            );
            i = i + 1;
        }
        r
    }

    /// Multiplies the constraints at each point of a batch by the filter of the point, and adds
    /// them to the accumulated constraints, without an intermediate matrix.
    ///
    /// The words are those that multiplying and adding the rows of the matrix would leave.
    pub fn eval_unfiltered_base_batch_accumulate(
        &self,
        vars: &EvaluationVarsBaseBatch,
        filters: &[GoldilocksField],
        combined: &mut [GoldilocksField],
    )
        requires
            self.wf(),
            vars.fits(self.wire_count(), self.constant_count()),
            filters@.len() == vars.batch_size,
            self.constraint_count() * vars.batch_size <= old(combined)@.len(),
        ensures
            rows_accumulated(
                *self,
                vars.local_wires@,
                vars.local_constants@,
                vars.batch_size as nat,
                filters@,
                old(combined)@,
                final(combined)@,
                self.constraint_count() as int,
            ),
    {
        let n: usize = vars.batch_size;
        let wires = vars.local_wires;
        let constants = vars.local_constants;
        let ghost before = combined@;
        let ghost g = *self;
        let ghost m = g.bits + 2;
        let ghost total = g.constraint_count() as int;
        let ghost size = combined@.len();
        proof {
            g.lemma_sizes();
            assert(0 * n == 0 && 0 * m == 0);
        }
        let mut k: usize = 0;
        let mut copy: usize = 0;
        while copy < self.num_copies
            invariant
                copy <= self.num_copies,
                g == *self,
                g.wf(),
                m == g.bits + 2,
                total == g.copy_constraints() + g.num_extra_constants,
                k == copy * m,
                n == filters@.len(),
                total * n <= size == combined@.len() == before.len(),
                wires@.len() >= g.wire_count() * n,
                rows_accumulated(
                    g,
                    wires@,
                    constants@,
                    n as nat,
                    filters@,
                    before,
                    combined@,
                    k as int,
                ),
            decreases self.num_copies - copy,
        {
            proof {
                g.lemma_copy(copy as int);
                assert((copy + 1) * m == copy * m + m) by (nonlinear_arith);
            }
            let mut i: usize = 0;
            while i < self.bits
                invariant
                    i <= self.bits,
                    copy < self.num_copies,
                    g == *self,
                    g.wf(),
                    m == g.bits + 2,
                    total == g.copy_constraints() + g.num_extra_constants,
                    total <= usize::MAX,
                    0 <= copy * m,
                    copy * m + m <= g.copy_constraints(),
                    k == copy * m + i,
                    n == filters@.len(),
                    total * n <= size == combined@.len() == before.len(),
                    wires@.len() >= g.wire_count() * n,
                    rows_accumulated(
                        g,
                        wires@,
                        constants@,
                        n as nat,
                        filters@,
                        before,
                        combined@,
                        k as int,
                    ),
                decreases self.bits - i,
            {
                let row = bit_row(self, wires, Ghost(constants@), n, i, copy);
                proof {
                    lemma_rows_below(k + 1, total, n as int);
                }
                accumulate_constraint_direct(
                    combined,
                    filters,
                    &row,
                    k,
                    n,
                    Ghost(g),
                    Ghost(wires@),
                    Ghost(constants@),
                    Ghost(before),
                );
                k = k + 1;
                i = i + 1;
            }
            let row = index_row(self, wires, Ghost(constants@), n, copy);
            proof {
                lemma_rows_below(k + 1, total, n as int);
                lemma_rows_below(k + 2, total, n as int);
            }
            accumulate_constraint_direct(
                combined,
                filters,
                &row,
                k,
                n,
                Ghost(g),
                Ghost(wires@),
                Ghost(constants@),
                Ghost(before),
            );
            k = k + 1;
            let items = folded_columns(self, wires, n, copy);
            let row = claim_row(self, &items, wires, Ghost(constants@), n, copy);
            accumulate_constraint_direct(
                combined,
                filters,
                &row,
                k,
                n,
                Ghost(g),
                Ghost(wires@),
                Ghost(constants@),
                Ghost(before),
            );
            k = k + 1;
            copy = copy + 1;
        }
        let mut i: usize = 0;
        while i < self.num_extra_constants
            invariant
                i <= self.num_extra_constants,
                g == *self,
                g.wf(),
                total == g.copy_constraints() + g.num_extra_constants,
                total <= usize::MAX,
                k == g.copy_constraints() + i,
                n == filters@.len(),
                total * n <= size == combined@.len() == before.len(),
                wires@.len() >= g.wire_count() * n,
                constants@.len() >= g.constant_count() * n,
                rows_accumulated(
                    g,
                    wires@,
                    constants@,
                    n as nat,
                    filters@,
                    before,
                    combined@,
                    k as int,
                ),
            decreases self.num_extra_constants - i,
        {
            let row = constant_row(self, wires, constants, n, i);
            proof {
                lemma_rows_below(k + 1, total, n as int);
            }
            accumulate_constraint_direct(
                combined,
                filters,
                &row,
                k,
                n,
                Ghost(g),
                Ghost(wires@),
                Ghost(constants@),
                Ghost(before),
            );
            k = k + 1;
            i = i + 1;
        }
    }
}

proof fn lemma_rows_below(k: int, total: int, n: int)
    requires
        k <= total,
        0 <= n,
    ensures
        k * n <= total * n,
{
    assert(k * n <= total * n) by (nonlinear_arith)
        requires
            k <= total,
            0 <= n,
    ;
}

/// The selected items of a copy: the first fold reads the wires, the others fold in place.
fn folded_columns(gate: &RandomAccessGate, wires: &[GoldilocksField], n: usize, copy: usize) -> (r:
    Vec<GoldilocksField>)
    requires
        gate.wf(),
        wires@.len() >= gate.wire_count() * n,
        copy < gate.num_copies,
    ensures
        n <= r@.len(),
        forall|p: int|
            0 <= p < n ==> #[trigger] column_words(r@, n as nat, 1, p) == ({
                let w = point_words(wires@, n as nat, gate.wire_count(), p);
                fold_words(
                    gate.item_words(w, copy as int),
                    gate.digit_words(w, copy as int),
                    gate.bits as nat,
                )
            }),
{
    if gate.bits == 0 {
        proof {
            lemma_pow2_basics();
        }
        let items = all_columns(gate, wires, n, copy);
        return items;
    }
    proof {
        gate.lemma_copy(copy as int);
        gate.lemma_sizes();
        lemma_pow2_double((gate.bits - 1) as nat);
    }
    let num: usize = gate.num_wires();
    let size: usize = wires.len();
    let half: usize = gate.vec_size() / 2;
    let col: usize = gate.wire_bit(0, copy);
    let start: usize = gate.wire_access_index(copy) + 2;
    let mut r: Vec<GoldilocksField> = Vec::new();
    let mut k: usize = 0;
    assert(0 * n == 0);
    while k < half
        invariant
            k <= half,
            2 * half <= usize::MAX,
            start + 2 * half <= num,
            col < num,
            size == wires@.len() && wires@.len() >= num * n,
            r@.len() == k * n,
            forall|j: int, p: int|
                0 <= j < k && 0 <= p < n ==> #[trigger] r@[j * n + p] == ({
                    let w = point_words(wires@, n as nat, num as nat, p);
                    choose_word(w[col as int], w[start + 2 * j], w[start + 2 * j + 1])
                }),
        decreases half - k,
    {
        let ghost r0 = r@;
        let mut p: usize = 0;
        assert((k + 1) * n == k * n + n) by (nonlinear_arith);
        while p < n
            invariant
                p <= n,
                k < half,
                2 * half <= usize::MAX,
                start + 2 * half <= num,
                col < num,
                size == wires@.len() && wires@.len() >= num * n,
                r0.len() == k * n,
                r@.len() == k * n + p,
                forall|x: int| 0 <= x < r0.len() ==> #[trigger] r@[x] == r0[x],
                forall|q: int|
                    0 <= q < p ==> #[trigger] r@[k * n + q] == ({
                        let w = point_words(wires@, n as nat, num as nat, q);
                        choose_word(w[col as int], w[start + 2 * k], w[start + 2 * k + 1])
                    }),
            decreases n - p,
        {
            let x = word_at(wires, n, num, start + 2 * k, p);
            let y = word_at(wires, n, num, start + 2 * k + 1, p);
            let b = word_at(wires, n, num, col, p);
            r.push(x.add(b.mul(y.sub(x))));
            p = p + 1;
        }
        proof {
            assert forall|j: int, q: int|
                0 <= j < k + 1 && 0 <= q < n implies #[trigger] r@[j * n + q] == ({
                let w = point_words(wires@, n as nat, num as nat, q);
                choose_word(w[col as int], w[start + 2 * j], w[start + 2 * j + 1])
            }) by {
                if j < k {
                    assert(0 <= j * n && j * n + n <= k * n) by (nonlinear_arith)
                        requires
                            0 <= j,
                            j + 1 <= k,
                            0 <= n,
                    ;
                    assert(r@[j * n + q] == r0[j * n + q]);
                }
            }
        }
        k = k + 1;
    }
    proof {
        assert forall|p: int| 0 <= p < n implies #[trigger] column_words(
            r@,
            n as nat,
            pow2((gate.bits - 1) as nat),
            p,
        ) == ({
            let w = point_words(wires@, n as nat, gate.wire_count(), p);
            fold_words(gate.item_words(w, copy as int), gate.digit_words(w, copy as int), 1)
        }) by {
            let w = point_words(wires@, n as nat, num as nat, p);
            let (items, digits) = (
                gate.item_words(w, copy as int),
                gate.digit_words(w, copy as int),
            );
            assert(fold_words(items, digits, 0) == items);
            let target = fold_words(items, digits, 1);
            let now = column_words(r@, n as nat, half as nat, p);
            assert(digits[0] == w[col as int]);
            assert forall|j: int| 0 <= j < half implies now[j] == #[trigger] target[j] by {
                assert(r@[j * n + p] == choose_word(
                    w[col as int],
                    w[start + 2 * j],
                    w[start + 2 * j + 1],
                ));
                assert(items[2 * j] == w[start + 2 * j]);
                assert(items[2 * j + 1] == w[start + 2 * j + 1]);
            }
            assert(now =~= target);
        }
    }
    fold_rest(gate, &mut r, wires, n, copy, 1);
    proof {
        lemma_pow2_pos((gate.bits - 1) as nat);
        assert(n <= r@.len()) by (nonlinear_arith)
            requires
                r@.len() == half * n,
                half >= 1,
                n >= 0,
        ;
    }
    r
}

} // verus!
