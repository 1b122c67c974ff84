//! What the kernels compute, on the elements that the words of the buffers stand for, and what the
//! runs for a tree leave in the output buffer.

use crate::field::fft::mirrored;
use crate::field::goldilocks_field::GoldilocksField;
use crate::field::model::{Elt, base};
use crate::fri::lookup::lemma_flat_row;
use crate::hash::hash_types::{GenericHashOut, HashOut};
use crate::hash::hashing::{absorbed, overwritten, zero_state};
use crate::hash::merkle_model::{is_tree, root_of};
use crate::hash::merkle_tree::two_of;
use crate::hash::poseidon2::hash::Poseidon2Hash;
use crate::hash::poseidon2::metal::plan::{
    Dispatch, Store, lemma_level_offset, level_offset, output_words, parent_run, parent_runs,
};
use crate::hash::poseidon2::metal::readback::{
    is_read_tree, lemma_read_tree_is_tree, levels_hold, tree_node,
};
use crate::hash::poseidon2::metal::tree_plan::{LeafSource, TreePlan, is_tree_plan, leaf_run};
use crate::hash::poseidon2::permutation::permutation;
use crate::plonk::config::Hasher;
use crate::util::bits::{
    is_power_of_two, lemma_pow2_basics, lemma_pow2_double, lemma_pow2_exceeds, lemma_pow2_mono,
    log2, rev,
};
use vstd::arithmetic::power2::{lemma_pow2_adds, lemma_pow2_pos, pow2};
use vstd::prelude::*;

verus! {

/// The elements that the buffers of the device stand for.
pub struct DeviceMemory {
    pub input: Seq<Elt>,
    pub output: Seq<Elt>,
    pub columns: Seq<Elt>,
    pub coefficients: Seq<Elt>,
    pub shift_powers: Seq<Elt>,
    pub ones: Seq<Elt>,
    pub roots: Seq<Elt>,
}

impl DeviceMemory {
    /// The contents of a buffer.
    pub open spec fn read(self, store: Store) -> Seq<Elt> {
        match store {
            Store::Input => self.input,
            Store::Output => self.output,
            Store::Columns => self.columns,
            Store::Coefficients => self.coefficients,
            Store::ShiftPowers => self.shift_powers,
            Store::Ones => self.ones,
        }
    }
}

/// Entry `x` after a gather: in each column, the product of a factor and an input at the
/// bit-reversed index, and each entry `2^rate_bits` times.
pub open spec fn prepared(
    input: Seq<Elt>,
    factors: Seq<Elt>,
    degree: int,
    size: int,
    log_degree: nat,
    rate_bits: nat,
    x: int,
) -> Elt {
    let k = rev(((x % size) / pow2(rate_bits) as int) as nat, log_degree) as int;
    factors[k] * input[(x / size) * degree + k]
}

/// Entry `x` after one stage of butterflies on blocks of `2^(stage + 1)` entries.
pub open spec fn elt_butterfly(v: Seq<Elt>, row: Seq<Elt>, stage: nat, x: int) -> Elt {
    let h = pow2(stage) as int;
    let k = x % (2 * h);
    if k < h {
        v[x] + row[k] * v[x + h]
    } else {
        v[x - h] - row[k - h] * v[x]
    }
}

/// Leaf `i` in rows.
pub open spec fn row_leaf(flat: Seq<Elt>, width: int, i: int) -> Seq<Elt> {
    flat.subrange(i * width, i * width + width)
}

/// Leaf `i` in natural-order columns.
pub open spec fn column_leaf(flat: Seq<Elt>, width: nat, log_count: nat, i: int) -> Seq<Elt> {
    Seq::new(width, |j: int| flat[j * pow2(log_count) + rev(i as nat, log_count)])
}

/// The digests of leaves in rows.
pub open spec fn row_leaf_digests(flat: Seq<Elt>, width: nat, count: nat) -> Seq<Seq<Elt>> {
    Seq::new(count, |i: int| Poseidon2Hash::leaf_spec(row_leaf(flat, width as int, i)))
}

/// The digests of leaves in natural-order columns.
pub open spec fn column_leaf_digests(flat: Seq<Elt>, width: nat, log_count: nat) -> Seq<Seq<Elt>> {
    Seq::new(
        pow2(log_count),
        |i: int| Poseidon2Hash::leaf_spec(column_leaf(flat, width, log_count, i)),
    )
}

/// A buffer with digests written over it from the given place on.
pub open spec fn with_digests(buffer: Seq<Elt>, start: int, digests: Seq<Seq<Elt>>) -> Seq<Elt> {
    Seq::new(
        buffer.len(),
        |x: int|
            if start <= x < start + 4 * digests.len() {
                digests[(x - start) / 4][(x - start) % 4]
            } else {
                buffer[x]
            },
    )
}

/// The digests of pairs of digests.
pub open spec fn parent_digests(buffer: Seq<Elt>, start: int, count: nat) -> Seq<Seq<Elt>> {
    Seq::new(
        count,
        |i: int|
            Poseidon2Hash::two_spec(
                buffer.subrange(start + 8 * i, start + 8 * i + 4),
                buffer.subrange(start + 8 * i + 4, start + 8 * i + 8),
            ),
    )
}

/// What a run of a kernel does to the buffers.
pub open spec fn run(d: Dispatch, m: DeviceMemory) -> DeviceMemory {
    match d {
        Dispatch::NttPrepare {
            input,
            factors,
            output,
            degree,
            size,
            log_degree,
            rate_bits,
            width,
            height,
        } => DeviceMemory {
            columns: Seq::new(
                m.columns.len(),
                |x: int|
                    if x < size * height {
                        prepared(
                            m.read(input),
                            m.read(factors),
                            degree as int,
                            size as int,
                            log_degree as nat,
                            rate_bits as nat,
                            x,
                        )
                    } else {
                        m.columns[x]
                    },
            ),
            ..m
        },
        Dispatch::NttStage { roots_offset, size, stage, canonicalize, width, height } => {
            let row = m.roots.skip(roots_offset as int / 8);
            DeviceMemory {
                columns: Seq::new(
                    m.columns.len(),
                    |x: int|
                        if x < size * height {
                            elt_butterfly(m.columns, row, stage as nat, x)
                        } else {
                            m.columns[x]
                        },
                ),
                ..m
            }
        },
        Dispatch::IfftFinalize { degree, factor, width, height } => DeviceMemory {
            coefficients: Seq::new(
                m.coefficients.len(),
                |x: int|
                    if x < degree * height {
                        m.columns[(x / degree as int) * degree + mirrored(
                            x % degree as int,
                            degree as int,
                        )] * base(factor as int)
                    } else {
                        m.coefficients[x]
                    },
            ),
            ..m
        },
        Dispatch::HashLeaves { input, leaf_width, leaf_count, threads } => DeviceMemory {
            output: with_digests(
                m.output,
                0,
                row_leaf_digests(m.read(input), leaf_width as nat, leaf_count as nat),
            ),
            ..m
        },
        Dispatch::HashLeavesColumns { input, leaf_width, leaf_count, log_leaf_count, threads } =>
        DeviceMemory {
            output: with_digests(
                m.output,
                0,
                column_leaf_digests(m.read(input), leaf_width as nat, log_leaf_count as nat),
            ),
            ..m
        },
        Dispatch::HashParents { child_offset, parent_offset, parent_count, threads } =>
        DeviceMemory {
            output: with_digests(
                m.output,
                parent_offset as int / 8,
                parent_digests(m.output, child_offset as int / 8, parent_count as nat),
            ),
            ..m
        },
    }
}

/// What some runs, one after the other, do to the buffers.
pub open spec fn run_all(ds: Seq<Dispatch>, m: DeviceMemory) -> DeviceMemory
    decreases ds.len(),
{
    if ds.len() == 0 {
        m
    } else {
        run(ds.last(), run_all(ds.drop_last(), m))
    }
}

/// Some runs and then some more.
pub proof fn lemma_run_append(a: Seq<Dispatch>, b: Seq<Dispatch>, m: DeviceMemory)
    ensures
        run_all(a + b, m) == run_all(b, run_all(a, m)),
    decreases b.len(),
{
    if b.len() == 0 {
        assert(a + b =~= a);
    } else {
        assert((a + b).drop_last() =~= a + b.drop_last());
        assert((a + b).last() == b.last());
        lemma_run_append(a, b.drop_last(), m);
    }
}

/// A single run.
pub proof fn lemma_run_one(d: Dispatch, m: DeviceMemory)
    ensures
        run_all(seq![d], m) == run(d, m),
{
    assert(seq![d].drop_last() =~= Seq::<Dispatch>::empty());
    assert(run_all(seq![d].drop_last(), m) == m);
}

/// Absorbing keeps the width of the state.
proof fn lemma_absorbed_len(state: Seq<Elt>, inputs: Seq<Elt>)
    requires
        state.len() == 12,
    ensures
        absorbed(state, inputs).len() == 12,
    decreases inputs.len(),
{
    if inputs.len() > 8 {
        lemma_absorbed_len(
            permutation(overwritten(state, inputs.take(8), 0)),
            inputs.skip(8),
        );
    }
}

/// A digest has four elements.
pub proof fn lemma_digest_len(x: Seq<Elt>, a: Seq<Elt>, b: Seq<Elt>)
    ensures
        Poseidon2Hash::leaf_spec(x).len() == 4,
        Poseidon2Hash::two_spec(a, b).len() == 4,
{
    lemma_absorbed_len(zero_state(), x);
    assert(permutation(overwritten(overwritten(zero_state(), a, 0), b, 4)).len() == 12);
}

/// The digest at node `i` of level `l` in the output buffer.
pub open spec fn level_digest(output: Seq<Elt>, log_leaves: nat, l: nat, i: int) -> Seq<Elt> {
    output.subrange(
        level_offset(log_leaves, l) + 4 * i,
        level_offset(log_leaves, l) + 4 * i + 4,
    )
}

/// The levels up to `top` hold the tree over the given leaf digests.
pub open spec fn levels_done(
    output: Seq<Elt>,
    log_leaves: nat,
    top: nat,
    leaves: Seq<Seq<Elt>>,
) -> bool {
    forall|l: nat, i: int|
        l <= top && 0 <= i < pow2((log_leaves - l) as nat) ==> #[trigger] level_digest(
            output,
            log_leaves,
            l,
            i,
        ) == root_of(
            two_of::<Poseidon2Hash>(),
            leaves.subrange(i * pow2(l), i * pow2(l) + pow2(l)),
        )
}

/// Digests that are written over a buffer can be read from it.
proof fn lemma_with_digests(buffer: Seq<Elt>, start: int, digests: Seq<Seq<Elt>>, i: int)
    requires
        0 <= start,
        start + 4 * digests.len() <= buffer.len(),
        0 <= i < digests.len(),
        digests[i].len() == 4,
    ensures
        with_digests(buffer, start, digests).subrange(start + 4 * i, start + 4 * i + 4)
            == digests[i],
{
    let part = with_digests(buffer, start, digests).subrange(start + 4 * i, start + 4 * i + 4);
    assert forall|t: int| 0 <= t < 4 implies part[t] == #[trigger] digests[i][t] by {
        let x = start + 4 * i + t;
        assert((x - start) / 4 == i && (x - start) % 4 == t);
    }
    assert(part =~= digests[i]);
}

/// What lies before the digests stays.
proof fn lemma_with_digests_before(
    buffer: Seq<Elt>,
    start: int,
    digests: Seq<Seq<Elt>>,
    a: int,
    b: int,
)
    requires
        0 <= a <= b <= start,
        start <= buffer.len(),
    ensures
        with_digests(buffer, start, digests).subrange(a, b) == buffer.subrange(a, b),
{
    assert(with_digests(buffer, start, digests).subrange(a, b) =~= buffer.subrange(a, b));
}

/// The run that hashes the leaves makes the lowest level.
proof fn lemma_leaf_level(
    buffer: Seq<Elt>,
    log_leaves: nat,
    cap_height: nat,
    leaves: Seq<Seq<Elt>>,
)
    requires
        cap_height <= log_leaves,
        leaves.len() == pow2(log_leaves),
        buffer.len() == output_words(log_leaves, cap_height),
        forall|i: int| 0 <= i < leaves.len() ==> (#[trigger] leaves[i]).len() == 4,
    ensures
        levels_done(with_digests(buffer, 0, leaves), log_leaves, 0, leaves),
{
    let out = with_digests(buffer, 0, leaves);
    lemma_level_offset(log_leaves, cap_height, 0);
    lemma_pow2_basics();
    assert forall|l: nat, i: int|
        l <= 0 && 0 <= i < pow2((log_leaves - l) as nat) implies #[trigger] level_digest(
        out,
        log_leaves,
        l,
        i,
    ) == root_of(
        two_of::<Poseidon2Hash>(),
        leaves.subrange(i * pow2(l), i * pow2(l) + pow2(l)),
    ) by {
        lemma_with_digests(buffer, 0, leaves, i);
        let one = leaves.subrange(i * 1, i * 1 + 1);
        assert(one[0] == leaves[i]);
        assert(root_of(two_of::<Poseidon2Hash>(), one) == leaves[i]);
    }
}

/// The root over a subtree comes from the roots over its halves.
proof fn lemma_root_step_up(leaves: Seq<Seq<Elt>>, log_leaves: nat, l: nat, i: int)
    requires
        leaves.len() == pow2(log_leaves),
        l < log_leaves,
        0 <= i < pow2((log_leaves - l - 1) as nat),
    ensures
        ({
            let two = two_of::<Poseidon2Hash>();
            let (h, p) = (pow2(l) as int, pow2(l + 1) as int);
            root_of(two, leaves.subrange(i * p, i * p + p)) == Poseidon2Hash::two_spec(
                root_of(two, leaves.subrange((2 * i) * h, (2 * i) * h + h)),
                root_of(two, leaves.subrange((2 * i + 1) * h, (2 * i + 1) * h + h)),
            )
        }),
{
    let two = two_of::<Poseidon2Hash>();
    let (h, p) = (pow2(l) as int, pow2(l + 1) as int);
    lemma_pow2_double(l);
    lemma_pow2_adds((log_leaves - l - 1) as nat, l + 1);
    let count = pow2((log_leaves - l - 1) as nat) as int;
    lemma_flat_row(i, count, p);
    assert((2 * i) * h == i * p && (2 * i + 1) * h == i * p + h) by (nonlinear_arith)
        requires
            p == 2 * h,
    ;
    let sub = leaves.subrange(i * p, i * p + p);
    assert(sub.len() / 2 == h);
    assert(sub.take(h) =~= leaves.subrange((2 * i) * h, (2 * i) * h + h));
    assert(sub.skip(h) =~= leaves.subrange((2 * i + 1) * h, (2 * i + 1) * h + h));
}

/// The run for a level makes it from the level below it, and leaves the lower ones as they are.
proof fn lemma_parent_level(
    m: DeviceMemory,
    log_leaves: nat,
    cap_height: nat,
    l: nat,
    leaves: Seq<Seq<Elt>>,
)
    requires
        cap_height <= log_leaves,
        l < log_leaves - cap_height,
        leaves.len() == pow2(log_leaves),
        m.output.len() == output_words(log_leaves, cap_height),
        levels_done(m.output, log_leaves, l, leaves),
        8 * output_words(log_leaves, cap_height) <= usize::MAX,
        pow2(log_leaves) <= u32::MAX,
    ensures
        ({
            let after = run(parent_run(log_leaves, l + 1), m);
            &&& levels_done(after.output, log_leaves, l + 1, leaves)
            &&& after == DeviceMemory { output: after.output, ..m }
            &&& after.output.len() == m.output.len()
        }),
{
    let up = l + 1;
    let count = pow2((log_leaves - up) as nat);
    lemma_level_offset(log_leaves, cap_height, l);
    lemma_level_offset(log_leaves, cap_height, up);
    lemma_pow2_mono((log_leaves - up) as nat, log_leaves);
    assert((log_leaves - l - 1) as nat == (log_leaves - up) as nat);
    let (child, parent) = (level_offset(log_leaves, l), level_offset(log_leaves, up));
    let digests = parent_digests(m.output, child, count);
    let d = parent_run(log_leaves, up);
    assert((8 * child) / 8 == child && (8 * parent) / 8 == parent);
    let after = run(d, m);
    assert(after.output == with_digests(m.output, parent, digests));
    assert forall|k: nat, i: int|
        k <= up && 0 <= i < pow2((log_leaves - k) as nat) implies #[trigger] level_digest(
        after.output,
        log_leaves,
        k,
        i,
    ) == root_of(
        two_of::<Poseidon2Hash>(),
        leaves.subrange(i * pow2(k), i * pow2(k) + pow2(k)),
    ) by {
        lemma_level_offset(log_leaves, cap_height, k);
        if k < up {
            lemma_levels_ordered(log_leaves, cap_height, k, up);
            let a = level_offset(log_leaves, k) + 4 * i;
            lemma_with_digests_before(m.output, parent, digests, a, a + 4);
            assert(level_digest(m.output, log_leaves, k, i) == root_of(
                two_of::<Poseidon2Hash>(),
                leaves.subrange(i * pow2(k), i * pow2(k) + pow2(k)),
            ));
        } else {
            let (left, right) = (
                level_digest(m.output, log_leaves, l, 2 * i),
                level_digest(m.output, log_leaves, l, 2 * i + 1),
            );
            lemma_digest_len(left, left, right);
            assert(digests[i] == Poseidon2Hash::two_spec(left, right));
            lemma_with_digests(m.output, parent, digests, i);
            lemma_root_step_up(leaves, log_leaves, l, i);
        }
    }
}

/// Lower levels come before higher ones.
proof fn lemma_levels_ordered(log_leaves: nat, cap_height: nat, k: nat, up: nat)
    requires
        cap_height <= log_leaves,
        k < up <= log_leaves - cap_height,
    ensures
        level_offset(log_leaves, k) + 4 * pow2((log_leaves - k) as nat) <= level_offset(
            log_leaves,
            up,
        ),
    decreases up - k,
{
    lemma_level_offset(log_leaves, cap_height, k);
    if k + 1 < up {
        lemma_levels_ordered(log_leaves, cap_height, k + 1, up);
        lemma_pow2_pos((log_leaves - k - 1) as nat);
    }
}

/// The runs for the levels above the leaves make them all.
proof fn lemma_parent_levels(
    m: DeviceMemory,
    log_leaves: nat,
    cap_height: nat,
    n: nat,
    leaves: Seq<Seq<Elt>>,
)
    requires
        cap_height <= log_leaves,
        n <= log_leaves - cap_height,
        leaves.len() == pow2(log_leaves),
        m.output.len() == output_words(log_leaves, cap_height),
        levels_done(m.output, log_leaves, 0, leaves),
        8 * output_words(log_leaves, cap_height) <= usize::MAX,
        pow2(log_leaves) <= u32::MAX,
    ensures
        ({
            let after = run_all(parent_runs(log_leaves, cap_height).take(n as int), m);
            &&& levels_done(after.output, log_leaves, n, leaves)
            &&& after == DeviceMemory { output: after.output, ..m }
            &&& after.output.len() == m.output.len()
        }),
    decreases n,
{
    let runs = parent_runs(log_leaves, cap_height);
    if n == 0 {
        assert(runs.take(0) =~= Seq::<Dispatch>::empty());
    } else {
        let k = (n - 1) as nat;
        lemma_parent_levels(m, log_leaves, cap_height, k, leaves);
        let before = run_all(runs.take(k as int), m);
        assert(runs.take(n as int).drop_last() =~= runs.take(k as int));
        assert(runs.take(n as int).last() == parent_run(log_leaves, n));
        lemma_parent_level(before, log_leaves, cap_height, k, leaves);
    }
}

/// A run that hashes leaves, and the runs for the levels above them, leave the whole tree in the
/// output buffer.
pub proof fn lemma_tree_runs(
    leaf: Dispatch,
    m: DeviceMemory,
    log_leaves: nat,
    cap_height: nat,
    leaves: Seq<Seq<Elt>>,
)
    requires
        cap_height <= log_leaves,
        m.output.len() == output_words(log_leaves, cap_height),
        8 * output_words(log_leaves, cap_height) <= usize::MAX,
        pow2(log_leaves) <= u32::MAX,
        leaves.len() == pow2(log_leaves),
        forall|i: int| 0 <= i < leaves.len() ==> (#[trigger] leaves[i]).len() == 4,
        run(leaf, m) == (DeviceMemory { output: with_digests(m.output, 0, leaves), ..m }),
    ensures
        ({
            let after = run_all(seq![leaf] + parent_runs(log_leaves, cap_height), m);
            &&& levels_done(
                after.output,
                log_leaves,
                (log_leaves - cap_height) as nat,
                leaves,
            )
            &&& after == DeviceMemory { output: after.output, ..m }
            &&& after.output.len() == m.output.len()
        }),
{
    let runs = parent_runs(log_leaves, cap_height);
    lemma_run_append(seq![leaf], runs, m);
    lemma_run_one(leaf, m);
    lemma_leaf_level(m.output, log_leaves, cap_height, leaves);
    lemma_parent_levels(
        run(leaf, m),
        log_leaves,
        cap_height,
        (log_leaves - cap_height) as nat,
        leaves,
    );
    assert(runs.take((log_leaves - cap_height) as int) =~= runs);
}

/// Words stand for elements.
pub open spec fn stands_for(words: Seq<u64>, elts: Seq<Elt>) -> bool {
    &&& words.len() == elts.len()
    &&& forall|k: int| 0 <= k < words.len() ==> base((#[trigger] words[k]) as int) == elts[k]
}

/// Words that stand for an output buffer with a whole tree hold that tree.
pub proof fn lemma_levels_in_words(
    nodes: Seq<u64>,
    output: Seq<Elt>,
    log_leaves: nat,
    cap_height: nat,
    leaves: Seq<Seq<Elt>>,
)
    requires
        cap_height <= log_leaves,
        output.len() == output_words(log_leaves, cap_height),
        stands_for(nodes, output),
        levels_done(output, log_leaves, (log_leaves - cap_height) as nat, leaves),
    ensures
        levels_hold(nodes, log_leaves, cap_height, leaves),
{
    reveal(levels_hold);
    assert forall|l: nat, i: int|
        l <= log_leaves - cap_height && 0 <= i < pow2((log_leaves - l) as nat) implies (
    #[trigger] tree_node(nodes, log_leaves, l, i)).digest() == root_of(
        two_of::<Poseidon2Hash>(),
        leaves.subrange(i * pow2(l), i * pow2(l) + pow2(l)),
    ) by {
        lemma_level_offset(log_leaves, cap_height, l);
        let node = tree_node(nodes, log_leaves, l, i);
        let part = level_digest(output, log_leaves, l, i);
        let k = level_offset(log_leaves, l) + 4 * i;
        assert forall|t: int| 0 <= t < 4 implies node.digest()[t] == #[trigger] part[t] by {
            assert(base(nodes[k + t] as int) == output[k + t]);
            assert(node.elements@[t] == GoldilocksField(nodes[k + t]));
        }
        assert(node.digest() =~= part);
    }
}

/// The digests of the leaves that a plan hashes.
pub open spec fn source_digests(
    source: LeafSource,
    m: DeviceMemory,
    leaf_width: nat,
    log_leaves: nat,
) -> Seq<Seq<Elt>> {
    match source {
        LeafSource::Rows(_) => row_leaf_digests(m.input, leaf_width, pow2(log_leaves)),
        LeafSource::Columns(_) => column_leaf_digests(m.input, leaf_width, log_leaves),
        LeafSource::Shared(_) => column_leaf_digests(m.columns, leaf_width, log_leaves),
    }
}

/// If the kernels compute what [`run`] says, then what is read back after the runs of a plan is the
/// Merkle tree over the leaves.
pub proof fn lemma_planned_tree_is_tree(
    plan: TreePlan,
    source: LeafSource,
    leaf_width: nat,
    leaf_count: nat,
    cap_height: nat,
    m: DeviceMemory,
    nodes: Seq<u64>,
    digests: Seq<HashOut>,
    cap: Seq<HashOut>,
)
    requires
        is_power_of_two(leaf_count),
        leaf_count <= u32::MAX,
        leaf_width <= u32::MAX,
        cap_height <= log2(leaf_count),
        is_tree_plan(plan, source, leaf_width, leaf_count, cap_height),
        m.output.len() == plan.output_len,
        stands_for(nodes, run_all(plan.dispatches@, m).output),
        is_read_tree(nodes, log2(leaf_count), cap_height, digests, cap),
    ensures
        is_tree(
            two_of::<Poseidon2Hash>(),
            source_digests(source, m, leaf_width, log2(leaf_count)),
            cap_height,
            digests,
            cap,
        ),
{
    let log_leaves = log2(leaf_count);
    let leaves = source_digests(source, m, leaf_width, log_leaves);
    let leaf = leaf_run(source, leaf_width, log_leaves);
    lemma_pow2_exceeds(log_leaves);
    assert forall|i: int| 0 <= i < leaves.len() implies (#[trigger] leaves[i]).len() == 4 by {
        match source {
            LeafSource::Rows(_) => {
                let x = row_leaf(m.input, leaf_width as int, i);
                lemma_digest_len(x, x, x);
            },
            LeafSource::Columns(_) => {
                let x = column_leaf(m.input, leaf_width, log_leaves, i);
                lemma_digest_len(x, x, x);
            },
            LeafSource::Shared(_) => {
                let x = column_leaf(m.columns, leaf_width, log_leaves, i);
                lemma_digest_len(x, x, x);
            },
        }
    }
    lemma_tree_runs(leaf, m, log_leaves, cap_height, leaves);
    let after = run_all(plan.dispatches@, m);
    lemma_levels_in_words(nodes, after.output, log_leaves, cap_height, leaves);
    lemma_read_tree_is_tree(nodes, log_leaves, cap_height, leaves, digests, cap);
}

} // verus!
