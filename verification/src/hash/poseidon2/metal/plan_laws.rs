//! What every plan keeps to: one thread for each item, buffers that hold what is written, levels
//! that follow one another, and errors exactly where a size does not fit.

use crate::field::goldilocks_field::GoldilocksField;
use crate::field::model::{Elt, base, lemma_reduced_self, modulus};
use crate::field::roots::{inv_pow2, power, root};
use crate::hash::poseidon2::config::{EXTERNAL_CONSTANTS, INTERNAL_CONSTANTS, MATRIX_DIAG_12_U64};
use crate::hash::poseidon2::metal::commitment_plan::{
    CommitmentPlan, column_leaf_run, commitment_error, commitment_planned, commitment_sizes_ok,
    commitment_suits, extension_runs, finalize_run, interpolation_runs, is_commitment_plan,
    prepare_run, stage_runs,
};
use crate::hash::poseidon2::metal::device::DeviceMemory;
use crate::hash::poseidon2::metal::device_ntt::roots_loaded;
use crate::hash::poseidon2::metal::plan::{
    Dispatch, MIN_GPU_PERMUTATIONS, MetalError, Store, error_text, leaf_permutations,
    lemma_cap_height, lemma_level_offset, level_offset, output_words, parent_run, worthwhile,
};
use crate::hash::poseidon2::metal::tables::{is_root_rows, is_word_of, parameter_words};
use crate::hash::poseidon2::metal::tree_plan::{
    LeafSource, TreePlan, is_tree_plan, leaf_run, shared_suits, tree_error, tree_planned, words_of,
};
use crate::util::bits::{
    is_power_of_two, lemma_log2, lemma_pow2_basics, lemma_pow2_double, lemma_pow2_exceeds,
    lemma_pow2_mono, log2,
};
use vstd::arithmetic::power2::{lemma_pow2_pos, pow2};
use vstd::prelude::*;

verus! {

/// A run has a thread for every item, or for every pair of items in a stage, and transforms write to
/// the columns.
pub open spec fn covers_all_items(d: Dispatch) -> bool {
    match d {
        Dispatch::NttPrepare {
            input,
            factors,
            output,
            degree,
            size,
            log_degree,
            rate_bits,
            width,
            height,
        } => width == size && output is Columns && degree == pow2(log_degree as nat) && size
            == pow2((log_degree + rate_bits) as nat),
        Dispatch::NttStage { roots_offset, size, stage, canonicalize, width, height } => 2 * width
            == size && canonicalize <= 1,
        Dispatch::IfftFinalize { degree, factor, width, height } => width == degree,
        Dispatch::HashLeaves { input, leaf_width, leaf_count, threads } => threads == leaf_count,
        Dispatch::HashLeavesColumns { input, leaf_width, leaf_count, log_leaf_count, threads } =>
        threads == leaf_count && leaf_count == pow2(log_leaf_count as nat),
        Dispatch::HashParents { child_offset, parent_offset, parent_count, threads } => threads
            == parent_count,
    }
}

/// A run writes inside a buffer of so many bytes for all levels, and parents after their children.
pub open spec fn writes_inside(d: Dispatch, output_bytes: int) -> bool {
    match d {
        Dispatch::HashLeaves { input, leaf_width, leaf_count, threads } => 32 * leaf_count
            <= output_bytes,
        Dispatch::HashLeavesColumns { input, leaf_width, leaf_count, log_leaf_count, threads } => 32
            * leaf_count <= output_bytes,
        Dispatch::HashParents { child_offset, parent_offset, parent_count, threads } => {
            &&& child_offset + 64 * parent_count == parent_offset
            &&& parent_offset + 32 * parent_count <= output_bytes
        },
        _ => true,
    }
}

/// The levels of a tree follow one another without gaps, the leaves first, and all of them together
/// are the words of the output.
pub proof fn lemma_levels_follow(log_leaves: nat, cap_height: nat, l: nat)
    requires
        cap_height <= log_leaves,
        l < log_leaves,
    ensures
        level_offset(log_leaves, 0) == 0,
        level_offset(log_leaves, l + 1) == level_offset(log_leaves, l) + 4 * pow2(
            (log_leaves - l) as nat,
        ),
        output_words(log_leaves, cap_height) == level_offset(
            log_leaves,
            (log_leaves - cap_height) as nat,
        ) + 4 * pow2(cap_height),
{
    lemma_pow2_double((log_leaves - l - 1) as nat);
    assert((log_leaves - (log_leaves - cap_height)) as nat == cap_height);
}

proof fn lemma_parent_run(log_leaves: nat, cap_height: nat, l: nat)
    requires
        cap_height < log_leaves,
        0 < l <= log_leaves - cap_height,
        pow2(log_leaves) <= u32::MAX,
        8 * output_words(log_leaves, cap_height) <= usize::MAX,
    ensures
        covers_all_items(parent_run(log_leaves, l)),
        writes_inside(parent_run(log_leaves, l), 8 * output_words(log_leaves, cap_height)),
{
    lemma_levels_follow(log_leaves, cap_height, (l - 1) as nat);
    lemma_level_offset(log_leaves, cap_height, l);
    lemma_level_offset(log_leaves, cap_height, (l - 1) as nat);
    lemma_pow2_mono((log_leaves - l) as nat, log_leaves);
    lemma_pow2_double((log_leaves - l) as nat);
    assert((log_leaves - (l - 1)) as nat == (log_leaves - l) as nat + 1);
}

/// Every run of a plan for a tree has a thread for every item, and writes inside the buffer that the
/// plan asks for. There is one run for the leaves and one for each level above them.
pub proof fn lemma_tree_plan_runs(
    plan: TreePlan,
    source: LeafSource,
    leaf_width: nat,
    leaf_count: nat,
    cap_height: nat,
    k: int,
)
    requires
        is_tree_plan(plan, source, leaf_width, leaf_count, cap_height),
        is_power_of_two(leaf_count),
        leaf_count <= u32::MAX,
        leaf_width <= u32::MAX,
        pow2(cap_height) <= leaf_count,
        0 <= k < plan.dispatches@.len(),
    ensures
        plan.dispatches@.len() == plan.level_offsets@.len(),
        plan.dispatches@.len() == log2(leaf_count) - cap_height + 1,
        covers_all_items(plan.dispatches@[k]),
        writes_inside(plan.dispatches@[k], plan.output_bytes as int),
        plan.output_bytes == 8 * plan.output_len,
        plan.input_len == leaf_count * leaf_width,
        plan.input_bytes >= 8 * plan.input_len,
        plan.input_bytes > 0,
{
    let log_leaves = log2(leaf_count);
    assert(pow2(log_leaves) == leaf_count);
    lemma_cap_height(cap_height, log_leaves);
    lemma_pow2_pos(cap_height);
    lemma_pow2_exceeds(log_leaves);
    if k == 0 {
        lemma_level_offset(log_leaves, cap_height, 0);
        assert(plan.dispatches@[0] == leaf_run(source, leaf_width, log_leaves));
    } else {
        assert(plan.dispatches@[k] == parent_run(log_leaves, k as nat));
        lemma_parent_run(log_leaves, cap_height, k as nat);
    }
}

proof fn lemma_stage_runs(log_size: nat, first: nat, canonicalize: bool, cols: nat, i: int)
    requires
        first <= log_size,
        pow2(log_size) <= u32::MAX,
        0 <= i < log_size - first,
    ensures
        covers_all_items(stage_runs(log_size, first, canonicalize, cols)[i]),
{
    lemma_pow2_double((log_size - 1) as nat);
}

/// Every run of a plan for a commitment has a thread for every item, and writes inside the buffers
/// that the plan asks for.
pub proof fn lemma_commitment_plan_runs(
    plan: CommitmentPlan,
    from_values: bool,
    degree: nat,
    rate_bits: nat,
    cap_height: nat,
    cols: nat,
    k: int,
)
    requires
        is_commitment_plan(plan, from_values, degree, rate_bits, cap_height, cols),
        commitment_sizes_ok(degree, rate_bits, cap_height, cols),
        0 <= k < plan.dispatches@.len(),
    ensures
        covers_all_items(plan.dispatches@[k]),
        writes_inside(plan.dispatches@[k], plan.output_bytes as int),
        plan.lde_size == degree * pow2(rate_bits),
        plan.input_bytes == 8 * plan.input_len,
        plan.input_len == degree * cols,
        plan.column_bytes == 8 * (plan.lde_size * cols),
        plan.output_bytes == 8 * plan.output_len,
{
    let log_degree = log2(degree);
    assert(pow2(log_degree) == degree);
    let log_lde = log_degree + rate_bits;
    vstd::arithmetic::power2::lemma_pow2_adds(log_degree, rate_bits);
    lemma_pow2_mono(log_degree, log_lde);
    lemma_pow2_exceeds(log_lde);
    let source = if from_values {
        Store::Coefficients
    } else {
        Store::Input
    };
    let extension = extension_runs(source, log_degree, rate_bits, cap_height, cols);
    let ds = plan.dispatches@;
    if from_values {
        let factor = choose|factor: u64|
            is_word_of(factor, inv_pow2(log_degree)) && plan.dispatches@
                == #[trigger] interpolation_runs(log_degree, factor, cols) + extension_runs(
                Store::Coefficients,
                log_degree,
                rate_bits,
                cap_height,
                cols,
            );
        let first = interpolation_runs(log_degree, factor, cols);
        if k < first.len() {
            assert(ds[k] == first[k]);
            if 0 < k <= log_degree {
                lemma_stage_runs(log_degree, 0, false, cols, k - 1);
                assert(first[k] == stage_runs(log_degree, 0, false, cols)[k - 1]);
            } else if k == 0 {
                assert(first[k] == prepare_run(Store::Input, Store::Ones, log_degree, 0, cols));
            } else {
                assert(first[k] == finalize_run(log_degree, factor, cols));
            }
        } else {
            assert(ds[k] == extension[k - first.len()]);
            lemma_extension_run(source, log_degree, rate_bits, cap_height, cols, k - first.len());
        }
    } else {
        lemma_extension_run(source, log_degree, rate_bits, cap_height, cols, k);
    }
}

proof fn lemma_extension_run(
    source: Store,
    log_degree: nat,
    rate_bits: nat,
    cap_height: nat,
    cols: nat,
    k: int,
)
    requires
        pow2(log_degree + rate_bits) <= u32::MAX,
        pow2(log_degree) <= u32::MAX,
        log_degree + rate_bits <= u32::MAX,
        8 * output_words(log_degree + rate_bits, cap_height) <= usize::MAX,
        cap_height <= log_degree + rate_bits,
        0 <= k < extension_runs(source, log_degree, rate_bits, cap_height, cols).len(),
    ensures
        covers_all_items(extension_runs(source, log_degree, rate_bits, cap_height, cols)[k]),
        writes_inside(
            extension_runs(source, log_degree, rate_bits, cap_height, cols)[k],
            8 * output_words(log_degree + rate_bits, cap_height),
        ),
{
    let log_lde = log_degree + rate_bits;
    let ds = extension_runs(source, log_degree, rate_bits, cap_height, cols);
    if k == 0 {
        assert(ds[k] == prepare_run(source, Store::ShiftPowers, log_degree, rate_bits, cols));
    } else if k <= log_degree {
        assert(ds[k] == stage_runs(log_lde, rate_bits, true, cols)[k - 1]);
        lemma_stage_runs(log_lde, rate_bits, true, cols, k - 1);
    } else if k == log_degree + 1 {
        assert(ds[k] == column_leaf_run(log_lde, cols));
        lemma_level_offset(log_lde, cap_height, 0);
    } else {
        let l = (k - log_degree - 1) as nat;
        assert(ds[k] == parent_run(log_lde, l));
        lemma_parent_run(log_lde, cap_height, l);
    }
}

/// In the runs that extend coefficients, the last stage makes words canonical, right before they are
/// hashed, and no other stage does.
pub proof fn lemma_hashed_words_are_canonical(
    source: Store,
    log_degree: nat,
    rate_bits: nat,
    cap_height: nat,
    cols: nat,
    k: int,
)
    requires
        0 <= k,
        k + 1 < extension_runs(source, log_degree, rate_bits, cap_height, cols).len(),
    ensures
        ({
            let ds = extension_runs(source, log_degree, rate_bits, cap_height, cols);
            ds[k] matches Dispatch::NttStage {
                roots_offset,
                size,
                stage,
                canonicalize,
                width,
                height,
            } ==> (canonicalize == 1 <==> ds[k + 1] is HashLeavesColumns)
        }),
{
    let log_lde = log_degree + rate_bits;
    let ds = extension_runs(source, log_degree, rate_bits, cap_height, cols);
    let stages = stage_runs(log_lde, rate_bits, true, cols);
    assert(stages.len() == log_degree);
    if 0 < k <= log_degree {
        assert(ds[k] == stages[k - 1]);
        if k < log_degree {
            assert(ds[k + 1] == stages[k]);
        } else {
            assert(ds[k + 1] == column_leaf_run(log_lde, cols));
        }
    } else if k > log_degree + 1 {
        assert(ds[k] == parent_run(log_lde, (k - log_degree - 1) as nat));
    }
}

/// The number of permutations of a leaf: none for a leaf that is its own digest, one for up to eight
/// elements, and one more for each eight elements more.
pub proof fn lemma_leaf_permutations(width: nat)
    ensures
        width <= 4 ==> leaf_permutations(width) == 0,
        4 < width <= 8 ==> leaf_permutations(width) == 1,
        4 < width ==> leaf_permutations(width + 8) == leaf_permutations(width) + 1,
{
}

/// The number of nodes of some levels of a tree.
pub open spec fn nodes_above(log_leaves: nat, levels: nat) -> nat
    decreases levels,
{
    if levels == 0 {
        0
    } else {
        nodes_above(log_leaves, (levels - 1) as nat) + pow2((log_leaves - levels) as nat)
    }
}

/// The device is worth it exactly if the permutations of all leaves, and one for each node above
/// them up to the cap, are enough.
pub proof fn lemma_worthwhile(width: nat, log_leaves: nat, cap_height: nat)
    requires
        cap_height <= log_leaves,
    ensures
        worthwhile(width, pow2(log_leaves), cap_height) <==> pow2(log_leaves) * leaf_permutations(
            width,
        ) + nodes_above(log_leaves, (log_leaves - cap_height) as nat) >= MIN_GPU_PERMUTATIONS,
        MIN_GPU_PERMUTATIONS == pow2(19),
{
    lemma_enough_permutations();
    lemma_nodes_above(log_leaves, (log_leaves - cap_height) as nat);
    let (n, p) = (pow2(log_leaves) as int, leaf_permutations(width) as int);
    assert(n * p == p * n) by (nonlinear_arith);
    assert((log_leaves - (log_leaves - cap_height)) as nat == cap_height);
}

proof fn lemma_enough_permutations()
    ensures
        pow2(19) == 524288,
{
    lemma_pow2_basics();
    lemma_pow2_double(1);
    lemma_pow2_double(2);
    lemma_pow2_double(3);
    lemma_pow2_double(4);
    lemma_pow2_double(5);
    lemma_pow2_double(6);
    lemma_pow2_double(7);
    lemma_pow2_double(8);
    lemma_pow2_double(9);
    lemma_pow2_double(10);
    lemma_pow2_double(11);
    lemma_pow2_double(12);
    lemma_pow2_double(13);
    lemma_pow2_double(14);
    lemma_pow2_double(15);
    lemma_pow2_double(16);
    lemma_pow2_double(17);
    lemma_pow2_double(18);
}

proof fn lemma_nodes_above(log_leaves: nat, levels: nat)
    requires
        levels <= log_leaves,
    ensures
        nodes_above(log_leaves, levels) == pow2(log_leaves) - pow2((log_leaves - levels) as nat),
    decreases levels,
{
    if levels > 0 {
        lemma_nodes_above(log_leaves, (levels - 1) as nat);
        lemma_pow2_double((log_leaves - levels) as nat);
        assert((log_leaves - (levels - 1)) as nat == (log_leaves - levels) as nat + 1);
    }
}

/// A tree fits exactly if the bytes of its leaves and of its nodes can be counted. Otherwise the
/// error names the first that cannot: the number of words of the leaves, their bytes, the number of
/// words of the nodes, their bytes.
pub proof fn lemma_tree_error(leaf_width: nat, leaf_count: nat, cap_height: nat)
    requires
        pow2(cap_height) <= leaf_count,
    ensures
        ({
            let error = tree_error(leaf_width, leaf_count, cap_height);
            let input = leaf_count * leaf_width;
            let output = 4 * (2 * leaf_count - pow2(cap_height));
            &&& error is None <==> 8 * input <= usize::MAX && 8 * output <= usize::MAX
            &&& error == Some(MetalError::LeafInputLength) <==> input > usize::MAX
            &&& error == Some(MetalError::LeafInputSize) <==> input <= usize::MAX < 8 * input
            &&& error == Some(MetalError::MerkleOutputLength) <==> 8 * input <= usize::MAX && output
                > usize::MAX
            &&& error == Some(MetalError::MerkleOutputSize) <==> 8 * input <= usize::MAX && output
                <= usize::MAX < 8 * output
        }),
{
}

/// A commitment fits exactly if the bytes of what is copied to the device, of the columns and of the
/// nodes can be counted.
pub proof fn lemma_commitment_error(
    from_values: bool,
    degree: nat,
    lde_size: nat,
    cap_height: nat,
    cols: nat,
)
    requires
        pow2(cap_height) <= lde_size,
    ensures
        ({
            let error = commitment_error(from_values, degree, lde_size, cap_height, cols);
            let (input, column) = (degree * cols, lde_size * cols);
            let output = 4 * (2 * lde_size - pow2(cap_height));
            &&& error is None <==> 8 * input <= usize::MAX && 8 * column <= usize::MAX && 8 * output
                <= usize::MAX
            &&& error == Some(MetalError::NttValueLength) <==> from_values && input > usize::MAX
            &&& error == Some(MetalError::NttCoefficientLength) <==> !from_values && input
                > usize::MAX
            &&& error == Some(MetalError::NttValueSize) <==> from_values && input <= usize::MAX < 8
                * input
            &&& error == Some(MetalError::NttCoefficientSize) <==> !from_values && input
                <= usize::MAX < 8 * input
            &&& error == Some(MetalError::NttColumnLength) <==> 8 * input <= usize::MAX && column
                > usize::MAX
            &&& error == Some(MetalError::NttColumnSize) <==> 8 * input <= usize::MAX && column
                <= usize::MAX < 8 * column
            &&& error == Some(MetalError::NttOutputLength) <==> 8 * input <= usize::MAX && 8 * column
                <= usize::MAX && output > usize::MAX
            &&& error == Some(MetalError::NttOutputSize) <==> 8 * input <= usize::MAX && 8 * column
                <= usize::MAX && output <= usize::MAX < 8 * output
        }),
{
}

/// The constants of the permutation, as the device gets them: those of the external rounds, round
/// after round, those of the internal rounds, and the diagonal.
pub proof fn lemma_parameters_in_order(r: int, i: int)
    requires
        0 <= r < 8,
        0 <= i < 12,
    ensures
        parameter_words().len() == 130,
        parameter_words()[12 * r + i] == EXTERNAL_CONSTANTS[r][i],
        forall|k: int|
            0 <= k < 22 ==> #[trigger] parameter_words()[96 + k] == INTERNAL_CONSTANTS[k],
        parameter_words()[118 + i] == MATRIX_DIAG_12_U64[i],
{
}

/// The words of columns lie one column after the other.
pub proof fn lemma_column_words_in_order(
    columns: Seq<Seq<GoldilocksField>>,
    n: nat,
    rows: nat,
    j: int,
    i: int,
)
    requires
        n <= columns.len(),
        forall|k: int| 0 <= k < n ==> (#[trigger] columns[k]).len() == rows,
        0 <= j < n,
        0 <= i < rows,
    ensures
        crate::hash::poseidon2::metal::tree_plan::column_words(columns, n).len() == n * rows,
        crate::hash::poseidon2::metal::tree_plan::column_words(columns, n)[j * rows + i]
            == columns[j][i].0,
    decreases n,
{
    let m = (n - 1) as nat;
    lemma_column_words_len(columns, n, rows);
    lemma_column_words_len(columns, m, rows);
    assert(m * rows + rows == n * rows) by (nonlinear_arith)
        requires
            n == m + 1,
    ;
    if j < m {
        lemma_column_words_in_order(columns, m, rows, j, i);
        assert(j * rows + i < m * rows) by (nonlinear_arith)
            requires
                j + 1 <= m,
                i < rows,
        ;
        assert(0 <= j * rows) by (nonlinear_arith)
            requires
                0 <= j,
        ;
    } else {
        assert(j * rows == m * rows);
        assert(words_of(columns[m as int])[i] == columns[m as int][i].0);
    }
}

proof fn lemma_column_words_len(columns: Seq<Seq<GoldilocksField>>, n: nat, rows: nat)
    requires
        n <= columns.len(),
        forall|k: int| 0 <= k < n ==> (#[trigger] columns[k]).len() == rows,
    ensures
        crate::hash::poseidon2::metal::tree_plan::column_words(columns, n).len() == n * rows,
    decreases n,
{
    if n > 0 {
        let m = (n - 1) as nat;
        lemma_column_words_len(columns, m, rows);
        assert(columns[n - 1].len() == rows);
        assert(m * rows + rows == n * rows) by (nonlinear_arith)
            requires
                n == m + 1,
        ;
    } else {
        assert(0 * rows == 0);
    }
}

/// Columns can be hashed in place exactly if there are some, the cap is not above the tree, the
/// device can count rows and columns, and the permutations are enough.
pub proof fn lemma_shared_suits(cols: nat, log_rows: nat, cap_height: nat)
    ensures
        shared_suits(cols, pow2(log_rows), cap_height) <==> {
            &&& cols > 0
            &&& cap_height <= log_rows
            &&& cols <= u32::MAX
            &&& pow2(log_rows) <= u32::MAX
            &&& pow2(log_rows) * leaf_permutations(cols) + nodes_above(
                log_rows,
                (log_rows - cap_height) as nat,
            ) >= MIN_GPU_PERMUTATIONS
        },
{
    lemma_log2(log_rows);
    if cap_height <= log_rows {
        lemma_worthwhile(cols, log_rows, cap_height);
    }
}

/// A commitment is left to the device exactly if there are columns, all of the same length, they are
/// extended, the device can count points and columns, and the permutations are enough.
pub proof fn lemma_commitment_suits(
    columns: Seq<Seq<GoldilocksField>>,
    log_degree: nat,
    rate_bits: nat,
    cap_height: nat,
)
    requires
        columns.len() > 0,
        columns[0].len() == pow2(log_degree),
        cap_height <= log_degree + rate_bits,
    ensures
        commitment_suits(columns, rate_bits, cap_height) <==> {
            let log_lde = log_degree + rate_bits;
            &&& forall|j: int|
                0 <= j < columns.len() ==> (#[trigger] columns[j]).len() == pow2(log_degree)
            &&& rate_bits > 0
            &&& columns.len() <= u32::MAX
            &&& pow2(log_lde) <= u32::MAX
            &&& pow2(log_lde) * leaf_permutations(columns.len()) + nodes_above(
                log_lde,
                (log_lde - cap_height) as nat,
            ) >= MIN_GPU_PERMUTATIONS
        },
{
    lemma_log2(log_degree);
    vstd::arithmetic::power2::lemma_pow2_adds(log_degree, rate_bits);
    lemma_worthwhile(columns.len(), log_degree + rate_bits, cap_height);
}

/// A word of an element of the prime field is the canonical one, and there is no other.
pub proof fn lemma_word_of(word: u64, e: Elt)
    requires
        e.wf(),
    ensures
        is_word_of(word, e) <==> e.im == 0 && word == e.re,
{
    if is_word_of(word, e) {
        vstd::arithmetic::div_mod::lemma_small_mod(word as nat, modulus() as nat);
    } else if e.im == 0 && word == e.re {
        lemma_reduced_self(e);
    }
}

/// The rows of twiddle factors, loaded to the device, are those that its stages need.
pub proof fn lemma_root_rows_load(
    m: DeviceMemory,
    values: Seq<u64>,
    offsets: Seq<usize>,
    lg_n: nat,
)
    requires
        is_root_rows(values, offsets, lg_n),
        m.roots.len() == values.len(),
        forall|i: int| 0 <= i < values.len() ==> #[trigger] m.roots[i] == base(values[i] as int),
    ensures
        roots_loaded(m, lg_n),
        forall|s: int|
            0 <= s < lg_n ==> (#[trigger] offsets[s]) + 1 == pow2(s as nat),
{
    assert forall|s: int, k: int| 0 <= s < lg_n && 0 <= k < pow2(s as nat) implies
        #[trigger] m.roots[pow2(s as nat) - 1 + k] == power(root((s + 1) as nat), k as nat) by {
        let x = pow2(s as nat) - 1 + k;
        lemma_pow2_pos(s as nat);
        lemma_pow2_double(s as nat);
        lemma_pow2_mono((s + 1) as nat, lg_n);
        assert(is_word_of(values[x], power(root((s + 1) as nat), k as nat)));
        assert(m.roots[x] == base(values[x] as int));
    }
}

/// What planning a tree answers: a plan exactly if the device suits and all sizes fit.
pub proof fn lemma_tree_planned(
    r: Result<Option<TreePlan>, MetalError>,
    suits: bool,
    source: LeafSource,
    leaf_width: nat,
    leaf_count: nat,
    cap_height: nat,
)
    requires
        tree_planned(r, suits, source, leaf_width, leaf_count, cap_height),
        pow2(cap_height) <= leaf_count,
    ensures
        ({
            let fits = 8 * (leaf_count * leaf_width) <= usize::MAX && 32 * (2 * leaf_count - pow2(
                cap_height,
            )) <= usize::MAX;
            &&& r == Ok::<Option<TreePlan>, MetalError>(None) <==> !suits
            &&& (r is Ok && r->Ok_0 is Some) <==> suits && fits
            &&& r is Err <==> suits && !fits
        }),
{
    lemma_tree_error(leaf_width, leaf_count, cap_height);
}

/// What an error is about.
pub open spec fn error_subject(error: MetalError) -> Seq<char> {
    match error {
        MetalError::LeafInputLength | MetalError::LeafInputSize => "Metal leaf input"@,
        MetalError::MerkleOutputLength | MetalError::MerkleOutputSize => "Metal Merkle output"@,
        MetalError::ColumnLength | MetalError::ColumnSize => "Metal column"@,
        MetalError::NttValueLength | MetalError::NttValueSize => "NTT value"@,
        MetalError::NttCoefficientLength | MetalError::NttCoefficientSize => "NTT coefficient"@,
        MetalError::NttColumnLength | MetalError::NttColumnSize => "NTT column"@,
        MetalError::NttOutputLength | MetalError::NttOutputSize => "NTT node output"@,
    }
}

/// Whether an error is about a number of words, and not about a number of bytes.
pub open spec fn is_length_error(error: MetalError) -> bool {
    match error {
        MetalError::LeafInputLength
        | MetalError::MerkleOutputLength
        | MetalError::ColumnLength
        | MetalError::NttValueLength
        | MetalError::NttCoefficientLength
        | MetalError::NttColumnLength
        | MetalError::NttOutputLength => true,
        _ => false,
    }
}

/// The text of an error says what it is about, and whether the length or the size overflows.
pub proof fn lemma_error_text(error: MetalError)
    ensures
        error_text(error) == error_subject(error) + (if is_length_error(error) {
            " length overflow"@
        } else {
            " size overflow"@
        }),
{
    reveal_strlit(" length overflow");
    reveal_strlit(" size overflow");
    match error {
        MetalError::LeafInputLength => {
            reveal_strlit("Metal leaf input");
            reveal_strlit("Metal leaf input length overflow");
            assert("Metal leaf input length overflow"@ =~= "Metal leaf input"@
                + " length overflow"@);
        },
        MetalError::LeafInputSize => {
            reveal_strlit("Metal leaf input");
            reveal_strlit("Metal leaf input size overflow");
            assert("Metal leaf input size overflow"@ =~= "Metal leaf input"@ + " size overflow"@);
        },
        MetalError::MerkleOutputLength => {
            reveal_strlit("Metal Merkle output");
            reveal_strlit("Metal Merkle output length overflow");
            assert("Metal Merkle output length overflow"@ =~= "Metal Merkle output"@
                + " length overflow"@);
        },
        MetalError::MerkleOutputSize => {
            reveal_strlit("Metal Merkle output");
            reveal_strlit("Metal Merkle output size overflow");
            assert("Metal Merkle output size overflow"@ =~= "Metal Merkle output"@
                + " size overflow"@);
        },
        MetalError::ColumnLength => {
            reveal_strlit("Metal column");
            reveal_strlit("Metal column length overflow");
            assert("Metal column length overflow"@ =~= "Metal column"@ + " length overflow"@);
        },
        MetalError::ColumnSize => {
            reveal_strlit("Metal column");
            reveal_strlit("Metal column size overflow");
            assert("Metal column size overflow"@ =~= "Metal column"@ + " size overflow"@);
        },
        MetalError::NttValueLength => {
            reveal_strlit("NTT value");
            reveal_strlit("NTT value length overflow");
            assert("NTT value length overflow"@ =~= "NTT value"@ + " length overflow"@);
        },
        MetalError::NttValueSize => {
            reveal_strlit("NTT value");
            reveal_strlit("NTT value size overflow");
            assert("NTT value size overflow"@ =~= "NTT value"@ + " size overflow"@);
        },
        MetalError::NttCoefficientLength => {
            reveal_strlit("NTT coefficient");
            reveal_strlit("NTT coefficient length overflow");
            assert("NTT coefficient length overflow"@ =~= "NTT coefficient"@ + " length overflow"@);
        },
        MetalError::NttCoefficientSize => {
            reveal_strlit("NTT coefficient");
            reveal_strlit("NTT coefficient size overflow");
            assert("NTT coefficient size overflow"@ =~= "NTT coefficient"@ + " size overflow"@);
        },
        MetalError::NttColumnLength => {
            reveal_strlit("NTT column");
            reveal_strlit("NTT column length overflow");
            assert("NTT column length overflow"@ =~= "NTT column"@ + " length overflow"@);
        },
        MetalError::NttColumnSize => {
            reveal_strlit("NTT column");
            reveal_strlit("NTT column size overflow");
            assert("NTT column size overflow"@ =~= "NTT column"@ + " size overflow"@);
        },
        MetalError::NttOutputLength => {
            reveal_strlit("NTT node output");
            reveal_strlit("NTT node output length overflow");
            assert("NTT node output length overflow"@ =~= "NTT node output"@ + " length overflow"@);
        },
        MetalError::NttOutputSize => {
            reveal_strlit("NTT node output");
            reveal_strlit("NTT node output size overflow");
            assert("NTT node output size overflow"@ =~= "NTT node output"@ + " size overflow"@);
        },
    }
}

/// What planning a commitment answers: a plan exactly if the device suits and all sizes fit.
pub proof fn lemma_commitment_planned(
    r: Result<Option<CommitmentPlan>, MetalError>,
    from_values: bool,
    columns: Seq<Seq<GoldilocksField>>,
    rate_bits: nat,
    cap_height: nat,
)
    requires
        commitment_planned(r, from_values, columns, rate_bits, cap_height),
        pow2(cap_height) <= columns[0].len() * pow2(rate_bits),
    ensures
        ({
            let suits = commitment_suits(columns, rate_bits, cap_height);
            let (degree, cols) = (columns[0].len(), columns.len());
            let lde_size = degree * pow2(rate_bits);
            let fits = 8 * (degree * cols) <= usize::MAX && 8 * (lde_size * cols) <= usize::MAX
                && 32 * (2 * lde_size - pow2(cap_height)) <= usize::MAX;
            &&& r == Ok::<Option<CommitmentPlan>, MetalError>(None) <==> !suits
            &&& (r is Ok && r->Ok_0 is Some) <==> suits && fits
            &&& r is Err <==> suits && !fits
        }),
{
    lemma_commitment_error(
        from_values,
        columns[0].len(),
        columns[0].len() * pow2(rate_bits),
        cap_height,
        columns.len(),
    );
}

} // verus!
