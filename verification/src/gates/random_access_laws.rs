//! What the constraints of the random access gate mean.

use crate::field::batch_util::lemma_multiply_add_word;
use crate::field::dft::all_wf;
use crate::field::fermat::lemma_no_zero_divisors;
use crate::field::goldilocks_field::GoldilocksField;
use crate::field::model::{
    Elt, base, elt0, elt1, group_elt_wf, lemma_add_comm, lemma_add_sub_cancel, lemma_add_zero,
    lemma_mul_one_zero, lemma_reduced_add, lemma_sub_self, lemma_sub_zero_iff,
};
use crate::field::types::{Field, vals};
use crate::gates::gate::{Gate, accumulated, batch_point, lemma_flat_split};
use crate::gates::random_access::{
    RandomAccessGate, choose_by, digit, digits_value, fold_items, lemma_constraint_index,
    lemma_fold_len,
};
use crate::gates::random_access_batch::{lemma_constraint_word, point_words, rows_accumulated};
use crate::util::bits::{lemma_pow2_basics, lemma_pow2_double};
use vstd::arithmetic::div_mod::{
    lemma_basic_div, lemma_div_denominator, lemma_div_pos_is_pos, lemma_fundamental_div_mod,
    lemma_fundamental_div_mod_converse, lemma_mod_bound, lemma_small_mod,
};
use vstd::arithmetic::power2::{lemma_pow2_adds, lemma_pow2_pos, pow2};
use vstd::prelude::*;

verus! {

/// The digits are those of `n`.
pub open spec fn digits_of(bits: Seq<Elt>, n: nat) -> bool {
    &&& n < pow2(bits.len())
    &&& forall|i: int| 0 <= i < bits.len() ==> #[trigger] bits[i] == base(digit(n, i as nat) as int)
}

/// The digits of a number give the number.
pub proof fn lemma_digits_value(bits: Seq<Elt>, n: nat, i: nat)
    requires
        digits_of(bits, n),
        i <= bits.len(),
    ensures
        digits_value(bits, i as int) == base(n as int / pow2(i) as int),
    decreases bits.len() - i,
{
    let p = pow2(i) as int;
    lemma_pow2_pos(i);
    if i == bits.len() {
        lemma_basic_div(n as int, p);
    } else {
        lemma_digits_value(bits, n, i + 1);
        lemma_pow2_double(i);
        lemma_div_denominator(n as int, p, 2);
        let q = n as int / p;
        let h = q / 2;
        assert(n as int / pow2(i + 1) as int == h);
        lemma_reduced_add(h, 0, h, 0);
        lemma_reduced_add(2 * h, 0, digit(n, i) as int, 0);
        assert(q == 2 * h + q % 2);
    }
}

proof fn lemma_choose_by(x: Elt, y: Elt, d: int)
    requires
        x.wf(),
        y.wf(),
        d == 0 || d == 1,
    ensures
        choose_by(base(d), x, y) == (if d == 0 {
            x
        } else {
            y
        }),
{
    broadcast use group_elt_wf;

    lemma_mul_one_zero(y - x);
    lemma_add_zero(x);
    lemma_add_sub_cancel(y, x);
    lemma_add_comm(x, y - x);
    assert(base(0) == elt0() && base(1) == elt1());
}

proof fn lemma_low_digits(n: nat, m: nat)
    ensures
        n as int % pow2(m + 1) as int == digit(n, m) * pow2(m) + n as int % pow2(m) as int,
        0 <= n as int % (pow2(m) as int) < pow2(m),
        digit(n, m) == 0 || digit(n, m) == 1,
{
    let p = pow2(m) as int;
    lemma_pow2_double(m);
    lemma_fundamental_div_mod(n as int, p);
    lemma_mod_bound(n as int, p);
    let q = n as int / p;
    lemma_div_pos_is_pos(n as int, p);
    let (h, d) = (q / 2, q % 2);
    assert(p * q == (2 * p) * h + d * p) by (nonlinear_arith)
        requires
            q == 2 * h + d,
    ;
    assert(0 <= d * p <= p) by (nonlinear_arith)
        requires
            0 <= d <= 1,
            p >= 0,
    ;
    assert(h * (2 * p) == (2 * p) * h) by (nonlinear_arith);
    lemma_fundamental_div_mod_converse(n as int, 2 * p, h, d * p + n as int % p);
}

/// After `m` bits of `n`, the items left are those whose index agrees with `n` in its low digits.
pub proof fn lemma_fold_items(items: Seq<Elt>, bits: Seq<Elt>, n: nat, k: nat, m: nat, j: int)
    requires
        bits.len() == k,
        items.len() == pow2(k),
        all_wf(items),
        digits_of(bits, n),
        m <= k,
        0 <= j < pow2((k - m) as nat),
    ensures
        0 <= j * pow2(m) + n as int % (pow2(m) as int) < items.len(),
        fold_items(items, bits, m)[j] == items[j * pow2(m) + n as int % (pow2(m) as int)],
        fold_items(items, bits, m).len() == pow2((k - m) as nat),
    decreases m,
{
    lemma_pow2_basics();
    lemma_fold_len(items, bits, m, k);
    lemma_pow2_adds((k - m) as nat, m);
    let (c, p) = (pow2((k - m) as nat) as int, pow2(m) as int);
    lemma_pow2_pos(m);
    lemma_mod_bound(n as int, p);
    assert(0 <= j * p && j * p + p <= c * p) by (nonlinear_arith)
        requires
            0 <= j,
            j + 1 <= c,
            p >= 0,
    ;
    if m > 0 {
        let q = (m - 1) as nat;
        let w = pow2(q) as int;
        lemma_pow2_double(q);
        lemma_pow2_double((k - m) as nat);
        assert((k - q) as nat == (k - m) as nat + 1);
        lemma_fold_items(items, bits, n, k, q, 2 * j);
        lemma_fold_items(items, bits, n, k, q, 2 * j + 1);
        lemma_low_digits(n, q);
        let d = digit(n, q) as int;
        let low = n as int % w;
        assert((2 * j) * w == j * p && (2 * j + 1) * w == j * p + w) by (nonlinear_arith)
            requires
                p == 2 * w,
        ;
        assert(d * w == (if d == 0 {
            0
        } else {
            w
        })) by (nonlinear_arith)
            requires
                d == 0 || d == 1,
        ;
        assert(bits[q as int] == base(d));
        let prev = fold_items(items, bits, q);
        lemma_choose_by(prev[2 * j], prev[2 * j + 1], d);
    } else {
        assert(n as int % 1 == 0);
        assert(j * p == j) by (nonlinear_arith)
            requires
                p == 1,
        ;
    }
}

/// A copy whose bits are those of the index, and whose claimed element is the one at the index,
/// meets its constraints.
pub proof fn lemma_random_access_complete(
    gate: RandomAccessGate,
    w: Seq<Elt>,
    copy: int,
    n: nat,
    j: int,
)
    requires
        gate.wf(),
        w.len() >= gate.wire_count(),
        all_wf(w),
        0 <= copy < gate.num_copies,
        n < pow2(gate.bits as nat),
        w[gate.stride() * copy] == base(n as int),
        w[gate.stride() * copy + 1] == gate.items(w, copy)[n as int],
        digits_of(gate.digits(w, copy), n),
        0 <= j < gate.bits + 2,
    ensures
        gate.copy_constraint(w, copy, j) == elt0(),
{
    broadcast use group_elt_wf;

    gate.lemma_copy(copy);
    gate.lemma_sizes();
    lemma_pow2_basics();
    let k = gate.bits as nat;
    let (digits, items) = (gate.digits(w, copy), gate.items(w, copy));
    assert(digits.len() == k);
    assert(items.len() == pow2(k));
    if j < k {
        lemma_low_digits(n, j as nat);
        assert(digits[j] == base(digit(n, j as nat) as int));
        assert(base(0) == elt0() && base(1) == elt1());
        lemma_sub_self(elt1());
        lemma_mul_one_zero(elt1());
        lemma_mul_one_zero(elt0() - elt1());
    } else if j == k {
        lemma_digits_value(digits, n, 0);
        assert(n as int / 1 == n);
        lemma_sub_self(base(n as int));
    } else {
        assert(all_wf(items));
        lemma_fold_items(items, digits, n, k, k, 0);
        lemma_small_mod(n, pow2(k));
        lemma_sub_self(items[n as int]);
        assert(0 * pow2(k) == 0);
    }
}

/// The number whose digits from `i` on are zero or one as given.
spec fn number_of(bits: Seq<Elt>, i: int) -> nat
    decreases bits.len() - i,
{
    if i >= bits.len() {
        0
    } else {
        2 * number_of(bits, i + 1) + (if bits[i] == elt1() {
            1nat
        } else {
            0nat
        })
    }
}

proof fn lemma_number_of(bits: Seq<Elt>, i: nat)
    requires
        i <= bits.len(),
    ensures
        number_of(bits, i as int) < pow2((bits.len() - i) as nat),
        number_of(bits, i as int) == number_of(bits, 0) as int / pow2(i) as int,
    decreases bits.len() - i,
{
    lemma_number_bound(bits, i);
    lemma_number_shift(bits, i);
}

proof fn lemma_number_bound(bits: Seq<Elt>, i: nat)
    requires
        i <= bits.len(),
    ensures
        number_of(bits, i as int) < pow2((bits.len() - i) as nat),
    decreases bits.len() - i,
{
    lemma_pow2_basics();
    if i < bits.len() {
        lemma_number_bound(bits, i + 1);
        lemma_pow2_double((bits.len() - i - 1) as nat);
    }
}

proof fn lemma_number_shift(bits: Seq<Elt>, i: nat)
    requires
        i <= bits.len(),
    ensures
        number_of(bits, i as int) == number_of(bits, 0) as int / pow2(i) as int,
    decreases i,
{
    lemma_pow2_basics();
    if i == 0 {
        assert(number_of(bits, 0) as int / 1 == number_of(bits, 0));
    } else {
        let q = (i - 1) as nat;
        lemma_number_shift(bits, q);
        lemma_pow2_double(q);
        lemma_div_denominator(number_of(bits, 0) as int, pow2(q) as int, 2);
    }
}

/// A copy that meets its constraints has an index below the size of the list, bits that are those of
/// the index, and claims the element at that index.
pub proof fn lemma_random_access_sound(gate: RandomAccessGate, w: Seq<Elt>, copy: int) -> (n: nat)
    requires
        gate.wf(),
        w.len() >= gate.wire_count(),
        all_wf(w),
        0 <= copy < gate.num_copies,
        forall|j: int|
            0 <= j < gate.bits + 2 ==> #[trigger] gate.copy_constraint(w, copy, j) == elt0(),
    ensures
        n < pow2(gate.bits as nat),
        digits_of(gate.digits(w, copy), n),
        w[gate.stride() * copy] == base(n as int),
        w[gate.stride() * copy + 1] == gate.items(w, copy)[n as int],
{
    broadcast use group_elt_wf;

    gate.lemma_copy(copy);
    gate.lemma_sizes();
    lemma_pow2_basics();
    let k = gate.bits as nat;
    let (digits, items) = (gate.digits(w, copy), gate.items(w, copy));
    assert(digits.len() == k);
    assert(items.len() == pow2(k));
    let n = number_of(digits, 0);
    assert forall|i: int| 0 <= i < k implies digits[i] == elt0() || #[trigger] digits[i] == elt1() by {
        assert(gate.copy_constraint(w, copy, i) == elt0());
        assert(digits[i] == w[gate.bit_wire(0, copy) + i]);
        lemma_no_zero_divisors(digits[i], digits[i] - elt1());
        lemma_sub_zero_iff(digits[i], elt1());
    }
    assert(base(0) == elt0() && base(1) == elt1());
    assert forall|i: int| 0 <= i < digits.len() implies #[trigger] digits[i] == base(
        digit(n, i as nat) as int,
    ) by {
        lemma_number_of(digits, i as nat);
        assert(number_of(digits, i) == 2 * number_of(digits, i + 1) + (if digits[i] == elt1() {
            1nat
        } else {
            0nat
        }));
        assert(digit(n, i as nat) == number_of(digits, i) % 2);
    }
    lemma_number_of(digits, 0);
    lemma_digits_value(digits, n, 0);
    assert(n as int / 1 == n);
    assert(gate.copy_constraint(w, copy, k as int) == elt0());
    lemma_sub_zero_iff(base(n as int), w[gate.stride() * copy]);
    assert(gate.copy_constraint(w, copy, k as int + 1) == elt0());
    assert(all_wf(items));
    lemma_fold_items(items, digits, n, k, k, 0);
    lemma_small_mod(n, pow2(k));
    assert(0 * pow2(k) == 0);
    lemma_sub_zero_iff(items[n as int], w[gate.stride() * copy + 1]);
    n
}

/// A copy accesses item `n`: its bits are the digits of `n`, its index is `n`, and the element it
/// claims is item `n` of its list.
pub open spec fn accesses(gate: RandomAccessGate, w: Seq<Elt>, copy: int, n: nat) -> bool {
    &&& digits_of(gate.digits(w, copy), n)
    &&& w[gate.stride() * copy] == base(n as int)
    &&& w[gate.stride() * copy + 1] == gate.items(w, copy)[n as int]
}

/// A copy accesses some item of its list.
pub open spec fn accesses_some(gate: RandomAccessGate, w: Seq<Elt>, copy: int) -> bool {
    exists|n: nat| accesses(gate, w, copy, n)
}

/// A row meets every constraint if and only if each copy accesses some item of its list and each
/// wire for a constant holds that constant.
pub proof fn lemma_random_access_iff(gate: RandomAccessGate, w: Seq<Elt>, c: Seq<Elt>)
    requires
        gate.wf(),
        w.len() >= gate.wire_count(),
        c.len() >= gate.constant_count(),
        all_wf(w),
        all_wf(c),
    ensures
        (forall|k: int|
            0 <= k < gate.constraint_count() ==> #[trigger] gate.constraints(w, c)[k] == elt0())
            <==> ((forall|copy: int|
            0 <= copy < gate.num_copies ==> #[trigger] accesses_some(gate, w, copy))
            && (forall|i: int|
            0 <= i < gate.num_extra_constants ==> #[trigger] c[i] == w[gate.stride()
                * gate.num_copies + i])),
{
    gate.lemma_sizes();
    let zeros = forall|k: int|
        0 <= k < gate.constraint_count() ==> #[trigger] gate.constraints(w, c)[k] == elt0();
    let copies = forall|copy: int|
        0 <= copy < gate.num_copies ==> #[trigger] accesses_some(gate, w, copy);
    let extra = forall|i: int|
        0 <= i < gate.num_extra_constants ==> #[trigger] c[i] == w[gate.stride() * gate.num_copies
            + i];
    let first = gate.copy_constraints();
    if zeros {
        assert forall|copy: int| 0 <= copy < gate.num_copies implies #[trigger] accesses_some(
            gate,
            w,
            copy,
        ) by {
            assert forall|j: int| 0 <= j < gate.bits + 2 implies #[trigger] gate.copy_constraint(
                w,
                copy,
                j,
            ) == elt0() by {
                lemma_constraint_index(gate, copy, j);
                assert(gate.constraints(w, c)[copy * (gate.bits + 2) + j] == elt0());
            }
            let n = lemma_random_access_sound(gate, w, copy);
            assert(accesses(gate, w, copy, n));
        }
        assert forall|i: int| 0 <= i < gate.num_extra_constants implies #[trigger] c[i]
            == w[gate.stride() * gate.num_copies + i] by {
            assert(gate.constraints(w, c)[first + i] == elt0());
            lemma_sub_zero_iff(c[i], w[gate.stride() * gate.num_copies + i]);
        }
    }
    if copies && extra {
        assert forall|k: int| 0 <= k < gate.constraint_count() implies #[trigger] gate.constraints(
            w,
            c,
        )[k] == elt0() by {
            if k < first {
                lemma_flat_split(k, gate.bits + 2, gate.num_copies as int);
                let (copy, j) = (k / (gate.bits + 2), k % (gate.bits + 2));
                assert(accesses_some(gate, w, copy));
                let n = choose|n: nat| accesses(gate, w, copy, n);
                assert(accesses(gate, w, copy, n));
                gate.lemma_copy(copy);
                assert(gate.digits(w, copy).len() == gate.bits);
                lemma_random_access_complete(gate, w, copy, n, j);
            } else {
                let i = k - first;
                assert(c[i] == w[gate.stride() * gate.num_copies + i]);
                lemma_sub_self(c[i]);
            }
        }
    }
}

/// The words of a batch stand for the values of the constraints at each point.
pub proof fn lemma_batch_words(
    gate: RandomAccessGate,
    wires: Seq<GoldilocksField>,
    constants: Seq<GoldilocksField>,
    n: nat,
    k: int,
    p: int,
)
    requires
        gate.wf(),
        wires.len() >= gate.wire_count() * n,
        constants.len() >= gate.constant_count() * n,
        0 <= k < gate.constraint_count(),
        0 <= p < n,
    ensures
        gate.constraint_word(
            point_words(wires, n, gate.wire_count(), p),
            point_words(constants, n, gate.constant_count(), p),
            k,
        ).v() == gate.constraints(
            batch_point(wires, n, gate.wire_count(), p),
            batch_point(constants, n, gate.constant_count(), p),
        )[k],
{
    let (w, c) = (
        point_words(wires, n, gate.wire_count(), p),
        point_words(constants, n, gate.constant_count(), p),
    );
    lemma_constraint_word(gate, w, c, k);
    assert(vals(w) =~= batch_point(wires, n, gate.wire_count(), p));
    assert(vals(c) =~= batch_point(constants, n, gate.constant_count(), p));
}

/// The direct accumulation adds what multiplying the batch by the filters and adding it does.
pub proof fn lemma_direct_accumulation(
    gate: RandomAccessGate,
    wires: Seq<GoldilocksField>,
    constants: Seq<GoldilocksField>,
    n: nat,
    filters: Seq<GoldilocksField>,
    before: Seq<GoldilocksField>,
    after: Seq<GoldilocksField>,
)
    requires
        gate.wf(),
        n > 0,
        wires.len() >= gate.wire_count() * n,
        constants.len() >= gate.constant_count() * n,
        filters.len() == n,
        gate.constraint_count() * n <= before.len(),
        rows_accumulated(
            gate,
            wires,
            constants,
            n,
            filters,
            before,
            after,
            gate.constraint_count() as int,
        ),
    ensures
        accumulated(
            gate,
            wires,
            constants,
            n,
            filters,
            before,
            after,
            gate.constraint_count() as int,
        ),
{
    let rows = gate.constraint_count() as int;
    assert forall|x: int|
        #![trigger after[x]]
        0 <= x < rows * n implies after[x].v() == before[x].v() + gate.constraints(
        batch_point(wires, n, gate.wire_count(), x % (n as int)),
        batch_point(constants, n, gate.constant_count(), x % (n as int)),
    )[x / (n as int)] * filters[x % (n as int)].v() by {
        let (k, p) = (x / (n as int), x % (n as int));
        lemma_flat_split(x, n as int, rows);
        assert(after[k * n + p] == after[x]);
        let word = gate.constraint_word(
            point_words(wires, n, gate.wire_count(), p),
            point_words(constants, n, gate.constant_count(), p),
            k,
        );
        lemma_batch_words(gate, wires, constants, n, k, p);
        lemma_multiply_add_word(before[x], word, filters[p], p, n as int);
    }
}

} // verus!
