//! What the runs for a commitment leave in the buffers: coefficients, values, and the tree over
//! them.

use crate::field::coset::{coset_dft, lemma_coset_dft, shifted_elts};
use crate::field::dft::{
    all_wf, dft, lemma_root_full, lemma_stage_butterfly, lemma_stage_end, lemma_stage_start, stage,
};
use crate::field::fft::mirrored;
use crate::field::goldilocks_field::{GoldilocksField, MULTIPLICATIVE_GROUP_GENERATOR};
use crate::field::model::{Elt, elt0, elt1, group_elt_wf, lemma_mul_one_zero};
use crate::field::roots::{inv_pow2, lemma_power_one, lemma_power_wf, power, root};
use crate::field::types::{Field, vals};
use crate::fri::lde::{coset_shift_elt, lemma_eval_zero_tail};
use crate::gates::gate::lemma_flat_index;
use crate::hash::columns::ColumnStore;
use crate::hash::hash_types::HashOut;
use crate::hash::merkle_model::is_tree;
use crate::hash::merkle_tree::{
    MerkleLeaves, MerkleTree, digests_seq, lemma_tree_determined, tree_leaves, two_of,
};
use crate::hash::poseidon2::hash::Poseidon2Hash;
use crate::hash::poseidon2::metal::commitment_plan::{
    CommitmentPlan, column_leaf_run, extension_runs, finalize_run, interpolation_runs,
    is_commitment_plan, prepare_run, stage_run, stage_runs,
};
use crate::hash::poseidon2::metal::device::{
    DeviceMemory, column_leaf, column_leaf_digests, lemma_digest_len, lemma_levels_in_words,
    lemma_run_append, lemma_run_one, lemma_tree_runs, levels_done, run, run_all, stands_for,
};
use crate::hash::poseidon2::metal::plan::{Dispatch, Store, output_words, parent_runs};
use crate::hash::poseidon2::metal::readback::{is_read_tree, lemma_read_tree_is_tree};
use crate::hash::poseidon2::metal::tables::is_word_of;
use crate::plonk::config::interpolated;
use crate::util::bits::{
    is_power_of_two, lemma_log2, lemma_pow2_double, lemma_pow2_exceeds, lemma_pow2_mono,
    lemma_rev_bound, log2, rev,
};
use vstd::arithmetic::power2::{lemma_pow2_adds, lemma_pow2_pos, pow2};
use vstd::prelude::*;

verus! {

/// A buffer holds columns of equal length, one after the other.
pub open spec fn holds_columns(buffer: Seq<Elt>, columns: Seq<Seq<Elt>>, len: nat) -> bool {
    &&& columns.len() * len <= buffer.len()
    &&& forall|j: int| 0 <= j < columns.len() ==> (#[trigger] columns[j]).len() == len
    &&& forall|j: int, i: int|
        0 <= j < columns.len() && 0 <= i < len ==> buffer[j * len + i] == #[trigger] columns[j][i]
}

/// The tables hold what kernels need for transforms of up to `2^lg_n` elements.
pub open spec fn roots_loaded(m: DeviceMemory, lg_n: nat) -> bool {
    &&& m.roots.len() == pow2(lg_n) - 1
    &&& forall|s: int, k: int|
        0 <= s < lg_n && 0 <= k < pow2(s as nat) ==> #[trigger] m.roots[pow2(s as nat) - 1 + k]
            == power(root((s + 1) as nat), k as nat)
}

/// A table holds the powers of an element.
pub open spec fn powers_loaded(table: Seq<Elt>, x: Elt, n: nat) -> bool {
    &&& table.len() >= n
    &&& forall|k: int| 0 <= k < n ==> #[trigger] table[k] == power(x, k as nat)
}

/// The coefficients of a column multiplied by the powers of `s`, and zeros after them.
pub open spec fn extended_shifted(c: Seq<Elt>, s: Elt, size: nat) -> Seq<Elt> {
    Seq::new(
        size,
        |i: int|
            if i < c.len() {
                power(s, i as nat) * c[i]
            } else {
                elt0()
            },
    )
}

/// The columns hold what the transforms of the given polynomials hold after the stages below `s`.
pub open spec fn at_stage(buffer: Seq<Elt>, polys: Seq<Seq<Elt>>, lg_n: nat, s: nat) -> bool {
    &&& polys.len() * pow2(lg_n) <= buffer.len()
    &&& forall|j: int, i: int|
        0 <= j < polys.len() && 0 <= i < pow2(lg_n) ==> #[trigger] buffer[j * pow2(lg_n) + i]
            == stage(polys[j], lg_n, s, i)
}

/// All polynomials have `2^lg_n` reduced coefficients.
pub open spec fn polys_ok(polys: Seq<Seq<Elt>>, lg_n: nat) -> bool {
    forall|j: int|
        0 <= j < polys.len() ==> (#[trigger] polys[j]).len() == pow2(lg_n) && all_wf(polys[j])
}

/// Place `i` of column `j`.
proof fn lemma_place(j: int, i: int, n: int, cols: int)
    requires
        0 <= j < cols,
        0 <= i < n,
    ensures
        0 <= j * n + i < cols * n,
        (j * n + i) / n == j,
        (j * n + i) % n == i,
{
    lemma_flat_index(j, i, n, cols);
}

/// The gather makes the first stage.
proof fn lemma_prepare(
    input: Store,
    factors: Store,
    m: DeviceMemory,
    columns: Seq<Seq<Elt>>,
    s: Elt,
    log_degree: nat,
    rate_bits: nat,
)
    requires
        s.wf(),
        log_degree + rate_bits <= 31,
        pow2(log_degree + rate_bits) <= u32::MAX,
        columns.len() <= usize::MAX,
        holds_columns(m.read(input), columns, pow2(log_degree)),
        powers_loaded(m.read(factors), s, pow2(log_degree)),
        forall|j: int| 0 <= j < columns.len() ==> all_wf(#[trigger] columns[j]),
        columns.len() * pow2(log_degree + rate_bits) <= m.columns.len(),
    ensures
        ({
            let lg_n = log_degree + rate_bits;
            let after = run(prepare_run(input, factors, log_degree, rate_bits, columns.len()), m);
            let polys = Seq::new(
                columns.len(),
                |j: int| extended_shifted(columns[j], s, pow2(lg_n)),
            );
            &&& at_stage(after.columns, polys, lg_n, rate_bits)
            &&& polys_ok(polys, lg_n)
            &&& after == DeviceMemory { columns: after.columns, ..m }
            &&& after.columns.len() == m.columns.len()
        }),
{
    broadcast use group_elt_wf;

    let lg_n = log_degree + rate_bits;
    let n = pow2(lg_n) as int;
    let degree = pow2(log_degree) as int;
    let cols = columns.len() as int;
    lemma_pow2_mono(log_degree, lg_n);
    lemma_pow2_exceeds(lg_n);
    let after = run(prepare_run(input, factors, log_degree, rate_bits, columns.len()), m);
    let polys = Seq::new(columns.len(), |j: int| extended_shifted(columns[j], s, pow2(lg_n)));
    assert forall|j: int| 0 <= j < polys.len() implies (#[trigger] polys[j]).len() == pow2(lg_n)
        && all_wf(polys[j]) by {
        assert forall|i: int| 0 <= i < polys[j].len() implies (#[trigger] polys[j][i]).wf() by {}
    }
    assert(cols * n == n * cols) by (nonlinear_arith);
    assert forall|j: int, i: int| 0 <= j < cols && 0 <= i < n implies #[trigger] after.columns[j
        * n + i] == stage(polys[j], lg_n, rate_bits, i) by {
        lemma_place(j, i, n, cols);
        let c = polys[j];
        assert(columns[j].len() == degree);
        assert forall|x: int| degree <= x < c.len() implies c[x] == elt0() by {}
        assert((lg_n - rate_bits) as nat == log_degree);
        lemma_stage_start(c, lg_n, rate_bits, i);
        let k = rev((i / pow2(rate_bits) as int) as nat, log_degree) as int;
        lemma_rev_bound((i / pow2(rate_bits) as int) as nat, log_degree);
        assert(m.read(input)[j * degree + k] == columns[j][k]);
        assert(m.read(factors)[k] == power(s, k as nat));
    }
}

/// One stage of butterflies in all columns.
proof fn lemma_one_stage(
    m: DeviceMemory,
    polys: Seq<Seq<Elt>>,
    lg_n: nat,
    s: nat,
    canonicalize: bool,
    lg_max: nat,
)
    requires
        s < lg_n <= lg_max <= 31,
        pow2(lg_max) <= u32::MAX,
        8 * pow2(lg_max) <= usize::MAX,
        polys.len() <= usize::MAX,
        roots_loaded(m, lg_max),
        polys_ok(polys, lg_n),
        at_stage(m.columns, polys, lg_n, s),
    ensures
        ({
            let after = run(stage_run(lg_n, s, canonicalize, polys.len()), m);
            &&& at_stage(after.columns, polys, lg_n, s + 1)
            &&& after == DeviceMemory { columns: after.columns, ..m }
            &&& after.columns.len() == m.columns.len()
        }),
{
    let n = pow2(lg_n) as int;
    let cols = polys.len() as int;
    let h = pow2(s) as int;
    lemma_pow2_double(s);
    lemma_pow2_pos(s);
    lemma_pow2_mono(s + 1, lg_n);
    lemma_pow2_mono(lg_n, lg_max);
    lemma_pow2_mono(s + 1, lg_max);
    lemma_pow2_exceeds(s);
    assert((8 * (h - 1)) / 8 == h - 1);
    let after = run(stage_run(lg_n, s, canonicalize, polys.len()), m);
    let row = m.roots.skip(h - 1);
    assert forall|k: int| 0 <= k < h implies #[trigger] row[k] == power(
        root((s + 1) as nat),
        k as nat,
    ) by {
        let t = s as int;
        assert(m.roots[pow2(t as nat) - 1 + k] == power(root((t + 1) as nat), k as nat));
    }
    assert(cols * n == n * cols) by (nonlinear_arith);
    lemma_pow2_adds((lg_n - s - 1) as nat, s + 1);
    let blocks = pow2((lg_n - s - 1) as nat) as int;
    assert forall|j: int, i: int| 0 <= j < cols && 0 <= i < n implies #[trigger] after.columns[j
        * n + i] == stage(polys[j], lg_n, s + 1, i) by {
        lemma_place(j, i, n, cols);
        assert(polys[j].len() == n);
        lemma_stage_butterfly(polys[j], row, lg_n, s, i);
        let q = i % (2 * h);
        assert((j * n + i) % (2 * h) == q) by {
            assert(j * n + i == (2 * h) * (j * blocks) + i) by (nonlinear_arith)
                requires
                    n == blocks * (2 * h),
            ;
            vstd::arithmetic::div_mod::lemma_mod_multiples_vanish(j * blocks, i, 2 * h);
        }
        if q < h {
            assert(m.columns[j * n + i] == stage(polys[j], lg_n, s, i));
            assert(m.columns[j * n + (i + h)] == stage(polys[j], lg_n, s, i + h));
        } else {
            assert(m.columns[j * n + (i - h)] == stage(polys[j], lg_n, s, i - h));
            assert(m.columns[j * n + i] == stage(polys[j], lg_n, s, i));
        }
    }
}

/// Some stages in all columns.
proof fn lemma_stages(
    m: DeviceMemory,
    polys: Seq<Seq<Elt>>,
    lg_n: nat,
    first: nat,
    canonicalize: bool,
    lg_max: nat,
    count: nat,
)
    requires
        first + count <= lg_n <= lg_max <= 31,
        pow2(lg_max) <= u32::MAX,
        8 * pow2(lg_max) <= usize::MAX,
        polys.len() <= usize::MAX,
        roots_loaded(m, lg_max),
        polys_ok(polys, lg_n),
        at_stage(m.columns, polys, lg_n, first),
    ensures
        ({
            let runs = stage_runs(lg_n, first, canonicalize, polys.len());
            let after = run_all(runs.take(count as int), m);
            &&& at_stage(after.columns, polys, lg_n, first + count)
            &&& after == DeviceMemory { columns: after.columns, ..m }
            &&& after.columns.len() == m.columns.len()
        }),
    decreases count,
{
    let runs = stage_runs(lg_n, first, canonicalize, polys.len());
    if count == 0 {
        assert(runs.take(0) =~= Seq::<Dispatch>::empty());
    } else {
        let k = (count - 1) as nat;
        lemma_stages(m, polys, lg_n, first, canonicalize, lg_max, k);
        let before = run_all(runs.take(k as int), m);
        assert(runs.take(count as int).drop_last() =~= runs.take(k as int));
        let s = first + k;
        let flag = canonicalize && s == lg_n - 1;
        assert(runs.take(count as int).last() == stage_run(lg_n, s, flag, polys.len()));
        lemma_one_stage(before, polys, lg_n, s, flag, lg_max);
    }
}

/// A gather and all stages: the columns hold the transforms of the shifted polynomials.
proof fn lemma_transforms(
    input: Store,
    factors: Store,
    m: DeviceMemory,
    columns: Seq<Seq<Elt>>,
    s: Elt,
    log_degree: nat,
    rate_bits: nat,
    canonicalize: bool,
    lg_max: nat,
)
    requires
        s.wf(),
        log_degree + rate_bits <= lg_max <= 31,
        pow2(lg_max) <= u32::MAX,
        8 * pow2(lg_max) <= usize::MAX,
        columns.len() <= usize::MAX,
        holds_columns(m.read(input), columns, pow2(log_degree)),
        powers_loaded(m.read(factors), s, pow2(log_degree)),
        roots_loaded(m, lg_max),
        forall|j: int| 0 <= j < columns.len() ==> all_wf(#[trigger] columns[j]),
        columns.len() * pow2(log_degree + rate_bits) <= m.columns.len(),
    ensures
        ({
            let lg_n = log_degree + rate_bits;
            let runs = seq![prepare_run(input, factors, log_degree, rate_bits, columns.len())]
                + stage_runs(lg_n, rate_bits, canonicalize, columns.len());
            let after = run_all(runs, m);
            &&& after == DeviceMemory { columns: after.columns, ..m }
            &&& after.columns.len() == m.columns.len()
            &&& forall|j: int, i: int|
                0 <= j < columns.len() && 0 <= i < pow2(lg_n) ==> #[trigger] after.columns[j * pow2(
                    lg_n,
                ) + i] == dft(extended_shifted(columns[j], s, pow2(lg_n)), lg_n)[i]
        }),
{
    let lg_n = log_degree + rate_bits;
    let prepare = prepare_run(input, factors, log_degree, rate_bits, columns.len());
    let stages = stage_runs(lg_n, rate_bits, canonicalize, columns.len());
    let polys = Seq::new(columns.len(), |j: int| extended_shifted(columns[j], s, pow2(lg_n)));
    lemma_pow2_mono(lg_n, lg_max);
    lemma_prepare(input, factors, m, columns, s, log_degree, rate_bits);
    lemma_run_append(seq![prepare], stages, m);
    lemma_run_one(prepare, m);
    let middle = run(prepare, m);
    lemma_stages(middle, polys, lg_n, rate_bits, canonicalize, lg_max, (lg_n - rate_bits) as nat);
    assert(stages.take((lg_n - rate_bits) as int) =~= stages);
    let after = run_all(stages, middle);
    assert forall|j: int, i: int| 0 <= j < columns.len() && 0 <= i < pow2(lg_n) implies #[trigger] after.columns[j
        * pow2(lg_n) + i] == dft(extended_shifted(columns[j], s, pow2(lg_n)), lg_n)[i] by {
        assert(polys[j].len() == pow2(lg_n));
        lemma_stage_end(polys[j], lg_n, i);
    }
}

/// The transform of shifted and extended coefficients holds the values on the coset.
proof fn lemma_extended_dft(c: Seq<Elt>, s: Elt, log_degree: nat, rate_bits: nat)
    requires
        s.wf(),
        all_wf(c),
        c.len() == pow2(log_degree),
        log_degree + rate_bits <= 31,
    ensures
        dft(
            extended_shifted(c, s, pow2(log_degree + rate_bits)),
            log_degree + rate_bits,
        ) == coset_dft(c, s, log_degree + rate_bits),
{
    broadcast use group_elt_wf;

    let lg_n = log_degree + rate_bits;
    let long = extended_shifted(c, s, pow2(lg_n));
    let short = shifted_elts(c, s);
    lemma_pow2_mono(log_degree, lg_n);
    lemma_coset_dft(c, s, lg_n);
    lemma_root_full(lg_n);
    assert forall|i: int| 0 <= i < short.len() implies (#[trigger] short[i]).wf() by {}
    assert forall|i: int| 0 <= i < pow2(lg_n) implies dft(long, lg_n)[i] == #[trigger] dft(
        short,
        lg_n,
    )[i] by {
        lemma_power_wf(root(lg_n), i as nat);
        lemma_eval_zero_tail(short, long, power(root(lg_n), i as nat));
    }
    assert(dft(long, lg_n) =~= dft(short, lg_n));
}

/// The values of polynomials on the extended coset.
pub open spec fn extended_values(columns: Seq<Seq<Elt>>, lg_n: nat) -> Seq<Seq<Elt>> {
    Seq::new(columns.len(), |j: int| coset_dft(columns[j], coset_shift_elt(), lg_n))
}

/// What a device has to hold before a commitment.
pub open spec fn ready_to_extend(
    m: DeviceMemory,
    log_degree: nat,
    rate_bits: nat,
    cap_height: nat,
    cols: nat,
) -> bool {
    let lg_n = log_degree + rate_bits;
    &&& lg_n <= 31
    &&& pow2(lg_n) <= u32::MAX
    &&& cap_height <= lg_n
    &&& 8 * output_words(lg_n, cap_height) <= usize::MAX
    &&& cols <= u32::MAX
    &&& roots_loaded(m, lg_n)
    &&& powers_loaded(m.shift_powers, coset_shift_elt(), pow2(log_degree))
    &&& m.columns.len() == cols * pow2(lg_n)
    &&& m.output.len() == output_words(lg_n, cap_height)
}

/// If the kernels compute what [`run`] says, then the runs that extend coefficients leave the values
/// of the polynomials on the extended coset in the columns, and the tree over them in the output.
pub proof fn lemma_extension_runs(
    coeffs: Store,
    m: DeviceMemory,
    columns: Seq<Seq<Elt>>,
    log_degree: nat,
    rate_bits: nat,
    cap_height: nat,
)
    requires
        ready_to_extend(m, log_degree, rate_bits, cap_height, columns.len()),
        holds_columns(m.read(coeffs), columns, pow2(log_degree)),
        forall|j: int| 0 <= j < columns.len() ==> all_wf(#[trigger] columns[j]),
    ensures
        ({
            let lg_n = log_degree + rate_bits;
            let after = run_all(
                extension_runs(coeffs, log_degree, rate_bits, cap_height, columns.len()),
                m,
            );
            &&& holds_columns(after.columns, extended_values(columns, lg_n), pow2(lg_n))
            &&& levels_done(
                after.output,
                lg_n,
                (lg_n - cap_height) as nat,
                column_leaf_digests(after.columns, columns.len(), lg_n),
            )
            &&& after.output.len() == m.output.len()
            &&& after == DeviceMemory { columns: after.columns, output: after.output, ..m }
        }),
{
    let lg_n = log_degree + rate_bits;
    let s = coset_shift_elt();
    let cols = columns.len();
    GoldilocksField::lemma_values(GoldilocksField(MULTIPLICATIVE_GROUP_GENERATOR));
    lemma_pow2_mono(cap_height, lg_n);
    lemma_pow2_exceeds(lg_n);
    let transform = seq![prepare_run(coeffs, Store::ShiftPowers, log_degree, rate_bits, cols)]
        + stage_runs(lg_n, rate_bits, true, cols);
    let leaf = column_leaf_run(lg_n, cols);
    let tree = seq![leaf] + parent_runs(lg_n, cap_height);
    assert(extension_runs(coeffs, log_degree, rate_bits, cap_height, cols) =~= transform + tree);
    lemma_run_append(transform, tree, m);
    lemma_transforms(
        coeffs,
        Store::ShiftPowers,
        m,
        columns,
        s,
        log_degree,
        rate_bits,
        true,
        lg_n,
    );
    let middle = run_all(transform, m);
    let values = extended_values(columns, lg_n);
    assert forall|j: int, i: int| 0 <= j < values.len() && 0 <= i < pow2(lg_n) implies middle.columns[j
        * pow2(lg_n) + i] == #[trigger] values[j][i] by {
        assert(columns[j].len() == pow2(log_degree));
        assert(middle.columns[j * pow2(lg_n) + i] == dft(
            extended_shifted(columns[j], s, pow2(lg_n)),
            lg_n,
        )[i]);
        lemma_extended_dft(columns[j], s, log_degree, rate_bits);
    }
    let leaves = column_leaf_digests(middle.columns, cols, lg_n);
    assert forall|i: int| 0 <= i < leaves.len() implies (#[trigger] leaves[i]).len() == 4 by {
        let x = column_leaf(middle.columns, cols, lg_n, i);
        lemma_digest_len(x, x, x);
    }
    lemma_tree_runs(leaf, middle, lg_n, cap_height, leaves);
}

/// If the kernels compute what [`run`] says, then the runs that interpolate leave the coefficients of
/// the polynomials with the given values in their buffer.
pub proof fn lemma_interpolation_runs(
    m: DeviceMemory,
    values: Seq<Seq<Elt>>,
    factor: u64,
    log_degree: nat,
    lg_max: nat,
)
    requires
        log_degree <= lg_max <= 31,
        pow2(lg_max) <= u32::MAX,
        8 * pow2(lg_max) <= usize::MAX,
        values.len() <= usize::MAX,
        is_word_of(factor, inv_pow2(log_degree)),
        holds_columns(m.input, values, pow2(log_degree)),
        forall|j: int| 0 <= j < values.len() ==> all_wf(#[trigger] values[j]),
        powers_loaded(m.ones, elt1(), pow2(log_degree)),
        roots_loaded(m, lg_max),
        values.len() * pow2(log_degree) <= m.columns.len(),
        values.len() * pow2(log_degree) <= m.coefficients.len(),
    ensures
        ({
            let after = run_all(interpolation_runs(log_degree, factor, values.len()), m);
            &&& holds_columns(after.coefficients, interpolated(values), pow2(log_degree))
            &&& after == DeviceMemory {
                columns: after.columns,
                coefficients: after.coefficients,
                ..m
            }
            &&& after.columns.len() == m.columns.len()
        }),
{
    let cols = values.len();
    let degree = pow2(log_degree) as int;
    lemma_pow2_pos(log_degree);
    lemma_pow2_mono(log_degree, lg_max);
    lemma_log2(log_degree);
    let transform = seq![prepare_run(Store::Input, Store::Ones, log_degree, 0, cols)] + stage_runs(
        log_degree,
        0,
        false,
        cols,
    );
    let last = seq![finalize_run(log_degree, factor, cols)];
    assert(interpolation_runs(log_degree, factor, cols) =~= transform + last);
    lemma_run_append(transform, last, m);
    assert(log_degree + 0 == log_degree);
    lemma_transforms(
        Store::Input,
        Store::Ones,
        m,
        values,
        elt1(),
        log_degree,
        0,
        false,
        lg_max,
    );
    let middle = run_all(transform, m);
    lemma_run_one(finalize_run(log_degree, factor, cols), middle);
    let after = run(finalize_run(log_degree, factor, cols), middle);
    let coeffs = interpolated(values);
    assert(cols * degree == degree * cols) by (nonlinear_arith);
    assert forall|j: int, i: int| 0 <= j < cols && 0 <= i < degree implies after.coefficients[j
        * degree + i] == #[trigger] coeffs[j][i] by {
        lemma_place(j, i, degree, cols as int);
        let c = values[j];
        assert(c.len() == degree);
        assert(extended_shifted(c, elt1(), pow2(log_degree)) =~= c) by {
            assert forall|k: int| 0 <= k < degree implies extended_shifted(
                c,
                elt1(),
                pow2(log_degree),
            )[k] == #[trigger] c[k] by {
                lemma_power_one(k as nat);
                lemma_mul_one_zero(c[k]);
            }
        }
        let x = mirrored(i, degree);
        assert(middle.columns[j * pow2(log_degree) + x] == dft(c, log_degree)[x]);
    }
    assert forall|j: int| 0 <= j < coeffs.len() implies (#[trigger] coeffs[j]).len() == degree by {
        assert(values[j].len() == degree);
    }
}

/// If the kernels compute what [`run`] says, then the runs of a plan for polynomials that are given by
/// their values leave their coefficients, their values on the extended coset, and the tree over
/// these.
pub proof fn lemma_values_runs(
    m: DeviceMemory,
    values: Seq<Seq<Elt>>,
    factor: u64,
    log_degree: nat,
    rate_bits: nat,
    cap_height: nat,
)
    requires
        ready_to_extend(m, log_degree, rate_bits, cap_height, values.len()),
        is_word_of(factor, inv_pow2(log_degree)),
        holds_columns(m.input, values, pow2(log_degree)),
        forall|j: int| 0 <= j < values.len() ==> all_wf(#[trigger] values[j]),
        powers_loaded(m.ones, elt1(), pow2(log_degree)),
        m.coefficients.len() == values.len() * pow2(log_degree),
    ensures
        ({
            let lg_n = log_degree + rate_bits;
            let runs = interpolation_runs(log_degree, factor, values.len()) + extension_runs(
                Store::Coefficients,
                log_degree,
                rate_bits,
                cap_height,
                values.len(),
            );
            let after = run_all(runs, m);
            &&& holds_columns(after.coefficients, interpolated(values), pow2(log_degree))
            &&& holds_columns(
                after.columns,
                extended_values(interpolated(values), lg_n),
                pow2(lg_n),
            )
            &&& levels_done(
                after.output,
                lg_n,
                (lg_n - cap_height) as nat,
                column_leaf_digests(after.columns, values.len(), lg_n),
            )
            &&& after.output.len() == m.output.len()
        }),
{
    broadcast use group_elt_wf;

    let lg_n = log_degree + rate_bits;
    let cols = values.len();
    let first = interpolation_runs(log_degree, factor, cols);
    let second = extension_runs(Store::Coefficients, log_degree, rate_bits, cap_height, cols);
    lemma_pow2_mono(log_degree, lg_n);
    lemma_pow2_mono(cap_height, lg_n);
    lemma_pow2_pos(log_degree);
    assert(cols * pow2(log_degree) <= cols * pow2(lg_n)) by (nonlinear_arith)
        requires
            pow2(log_degree) <= pow2(lg_n),
    ;
    lemma_run_append(first, second, m);
    lemma_interpolation_runs(m, values, factor, log_degree, lg_n);
    let middle = run_all(first, m);
    let coeffs = interpolated(values);
    assert forall|j: int| 0 <= j < coeffs.len() implies all_wf(#[trigger] coeffs[j]) by {}
    lemma_extension_runs(Store::Coefficients, middle, coeffs, log_degree, rate_bits, cap_height);
}

/// If the kernels compute what [`run`] says, then after the runs of a plan for a commitment the columns
/// hold the values of the polynomials on the extended coset, and what is read back is the Merkle
/// tree over them.
pub proof fn lemma_planned_commitment_is_tree(
    plan: CommitmentPlan,
    from_values: bool,
    columns: Seq<Seq<Elt>>,
    degree: nat,
    rate_bits: nat,
    cap_height: nat,
    m: DeviceMemory,
    nodes: Seq<u64>,
    digests: Seq<HashOut>,
    cap: Seq<HashOut>,
)
    requires
        is_power_of_two(degree),
        is_commitment_plan(plan, from_values, degree, rate_bits, cap_height, columns.len()),
        ready_to_extend(m, log2(degree), rate_bits, cap_height, columns.len()),
        holds_columns(m.input, columns, degree),
        forall|j: int| 0 <= j < columns.len() ==> all_wf(#[trigger] columns[j]),
        from_values ==> powers_loaded(m.ones, elt1(), degree) && m.coefficients.len()
            == columns.len() * degree,
        stands_for(nodes, run_all(plan.dispatches@, m).output),
        is_read_tree(nodes, log2(degree) + rate_bits, cap_height, digests, cap),
    ensures
        ({
            let lg_n = log2(degree) + rate_bits;
            let after = run_all(plan.dispatches@, m);
            let coeffs = if from_values {
                interpolated(columns)
            } else {
                columns
            };
            &&& from_values ==> holds_columns(after.coefficients, coeffs, degree)
            &&& holds_columns(after.columns, extended_values(coeffs, lg_n), pow2(lg_n))
            &&& is_tree(
                two_of::<Poseidon2Hash>(),
                column_leaf_digests(after.columns, columns.len(), lg_n),
                cap_height,
                digests,
                cap,
            )
        }),
{
    let log_degree = log2(degree);
    let lg_n = log_degree + rate_bits;
    let after = run_all(plan.dispatches@, m);
    if from_values {
        let factor = choose|factor: u64|
            is_word_of(factor, inv_pow2(log_degree)) && plan.dispatches@
                == #[trigger] interpolation_runs(log_degree, factor, columns.len())
                + extension_runs(
                Store::Coefficients,
                log_degree,
                rate_bits,
                cap_height,
                columns.len(),
            );
        lemma_values_runs(m, columns, factor, log_degree, rate_bits, cap_height);
    } else {
        lemma_extension_runs(Store::Input, m, columns, log_degree, rate_bits, cap_height);
    }
    let leaves = column_leaf_digests(after.columns, columns.len(), lg_n);
    lemma_levels_in_words(nodes, after.output, lg_n, cap_height, leaves);
    lemma_read_tree_is_tree(nodes, lg_n, cap_height, leaves, digests, cap);
}

/// Leaves in the columns of a buffer are those of a store whose columns have the same values.
proof fn lemma_column_leaves(
    flat: Seq<Elt>,
    columns: Seq<Seq<Elt>>,
    store: ColumnStore<GoldilocksField>,
    log_rows: usize,
)
    requires
        holds_columns(flat, columns, pow2(log_rows as nat)),
        store.width() == columns.len(),
        store.rectangular(),
        store.height() == pow2(log_rows as nat),
        forall|j: int| 0 <= j < columns.len() ==> vals(#[trigger] store.column(j)) == columns[j],
    ensures
        column_leaf_digests(flat, columns.len(), log_rows as nat) == tree_leaves::<Poseidon2Hash>(
            MerkleLeaves::Columns { columns: store, log_rows },
            pow2(log_rows as nat),
        ),
{
    let k = log_rows as nat;
    let leaves = MerkleLeaves::Columns { columns: store, log_rows };
    assert forall|i: int| 0 <= i < pow2(k) implies column_leaf(flat, columns.len(), k, i) == vals(
        #[trigger] leaves.leaf(i),
    ) by {
        lemma_rev_bound(i as nat, k);
        let r = rev(i as nat, k) as int;
        assert forall|j: int| 0 <= j < columns.len() implies column_leaf(
            flat,
            columns.len(),
            k,
            i,
        )[j] == vals(leaves.leaf(i))[j] by {
            assert(columns[j][r] == flat[j * pow2(k) + r]);
            assert(vals(store.column(j))[r] == columns[j][r]);
        }
        assert(column_leaf(flat, columns.len(), k, i) =~= vals(leaves.leaf(i)));
    }
    assert(column_leaf_digests(flat, columns.len(), k) =~= tree_leaves::<Poseidon2Hash>(
        leaves,
        pow2(k),
    ));
}

/// If the kernels compute what [`run`] says, then what is read back after the runs of a plan for a
/// commitment has the digests and the cap of the tree that is built over the extended columns without
/// a device.
pub proof fn lemma_planned_commitment_matches_tree(
    plan: CommitmentPlan,
    from_values: bool,
    columns: Seq<Seq<Elt>>,
    degree: nat,
    rate_bits: nat,
    cap_height: nat,
    m: DeviceMemory,
    nodes: Seq<u64>,
    digests: Seq<HashOut>,
    cap: Seq<HashOut>,
    tree: MerkleTree<Poseidon2Hash>,
    store: ColumnStore<GoldilocksField>,
    log_rows: usize,
)
    requires
        is_power_of_two(degree),
        is_commitment_plan(plan, from_values, degree, rate_bits, cap_height, columns.len()),
        ready_to_extend(m, log2(degree), rate_bits, cap_height, columns.len()),
        holds_columns(m.input, columns, degree),
        forall|j: int| 0 <= j < columns.len() ==> all_wf(#[trigger] columns[j]),
        from_values ==> powers_loaded(m.ones, elt1(), degree) && m.coefficients.len()
            == columns.len() * degree,
        stands_for(nodes, run_all(plan.dispatches@, m).output),
        is_read_tree(nodes, log2(degree) + rate_bits, cap_height, digests, cap),
        tree.wf(),
        tree.leaves == (MerkleLeaves::Columns { columns: store, log_rows }),
        log_rows == log2(degree) + rate_bits,
        tree.cap.0@.len() == pow2(cap_height),
        store.width() == columns.len(),
        forall|j: int|
            0 <= j < columns.len() ==> vals(#[trigger] store.column(j)) == extended_values(
                if from_values {
                    interpolated(columns)
                } else {
                    columns
                },
                log2(degree) + rate_bits,
            )[j],
    ensures
        digests_seq(digests) == digests_seq(tree.digests@),
        digests_seq(cap) == digests_seq(tree.cap.0@),
{
    lemma_planned_commitment_is_tree(
        plan,
        from_values,
        columns,
        degree,
        rate_bits,
        cap_height,
        m,
        nodes,
        digests,
        cap,
    );
    let lg_n = log2(degree) + rate_bits;
    let after = run_all(plan.dispatches@, m);
    let coeffs = if from_values {
        interpolated(columns)
    } else {
        columns
    };
    lemma_column_leaves(after.columns, extended_values(coeffs, lg_n), store, log_rows);
    lemma_log2(lg_n);
    lemma_log2(cap_height);
    lemma_tree_determined(
        two_of::<Poseidon2Hash>(),
        column_leaf_digests(after.columns, columns.len(), lg_n),
        cap_height,
        digests,
        cap,
        tree.digests@,
        tree.cap.0@,
    );
}

} // verus!
