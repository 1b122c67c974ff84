//! Plans for Merkle trees over leaves that exist already.

use crate::field::goldilocks_field::GoldilocksField;
use crate::field::polynomial::filled;
use crate::hash::columns::{ColumnStore, MetalColumns};
use crate::hash::poseidon2::metal::plan::{
    Dispatch, MetalError, Store, WORD_BYTES, add_parent_runs, check_power_of_two, gpu_worthwhile,
    lemma_cap_height, level_offsets_of, output_words, parent_runs, worthwhile,
};
use crate::plonk::config::{owned_columns, slice_columns};
use crate::util::bits::{
    is_power_of_two, lemma_pow2_exceeds, lemma_pow2_mono, log2, log2_strict, two_pow,
};
use vstd::arithmetic::power2::{lemma_pow2_pos, pow2};
use vstd::prelude::*;

verus! {

/// Where the leaf field elements come from and how they are laid out.
pub enum LeafSource<'a> {
    /// Flat row-major rows, already in tree-leaf order.
    Rows(&'a [GoldilocksField]),
    /// Natural-order columns; tree leaf `i` is entry `reverse_bits(i)` of each column.
    Columns(&'a Vec<Vec<GoldilocksField>>),
    /// Natural-order columns already resident in retained storage. Hashed without a staging copy.
    Shared(&'a MetalColumns<GoldilocksField>),
}

/// A tree build: the buffers that it needs, and the kernel runs in order.
#[derive(Debug)]
pub struct TreePlan {
    /// Whether the leaves are copied to the device.
    pub staging: bool,
    /// The number of words of the leaves.
    pub input_len: usize,
    /// The least number of bytes of the buffer that the leaves are copied to.
    pub input_bytes: usize,
    /// The number of words of all levels.
    pub output_len: usize,
    /// The least number of bytes of the buffer for all levels.
    pub output_bytes: usize,
    /// The kernel runs.
    pub dispatches: Vec<Dispatch>,
    /// Where each level starts among the words of all levels.
    pub level_offsets: Vec<usize>,
}

/// The run that hashes the leaves.
pub open spec fn leaf_run(source: LeafSource, leaf_width: nat, log_leaves: nat) -> Dispatch {
    let leaf_count = pow2(log_leaves);
    match source {
        LeafSource::Rows(_) => Dispatch::HashLeaves {
            input: Store::Input,
            leaf_width: leaf_width as u32,
            leaf_count: leaf_count as u32,
            threads: leaf_count as usize,
        },
        LeafSource::Columns(_) => Dispatch::HashLeavesColumns {
            input: Store::Input,
            leaf_width: leaf_width as u32,
            leaf_count: leaf_count as u32,
            log_leaf_count: log_leaves as u32,
            threads: leaf_count as usize,
        },
        LeafSource::Shared(_) => Dispatch::HashLeavesColumns {
            input: Store::Columns,
            leaf_width: leaf_width as u32,
            leaf_count: leaf_count as u32,
            log_leaf_count: log_leaves as u32,
            threads: leaf_count as usize,
        },
    }
}

/// The size that does not fit, if any.
pub open spec fn tree_error(leaf_width: nat, leaf_count: nat, cap_height: nat) -> Option<
    MetalError,
> {
    let input_len = leaf_count * leaf_width;
    let output_len = 4 * (2 * leaf_count - pow2(cap_height));
    if input_len > usize::MAX {
        Some(MetalError::LeafInputLength)
    } else if 8 * input_len > usize::MAX {
        Some(MetalError::LeafInputSize)
    } else if output_len > usize::MAX {
        Some(MetalError::MerkleOutputLength)
    } else if 8 * output_len > usize::MAX {
        Some(MetalError::MerkleOutputSize)
    } else {
        None
    }
}

/// What the plan for a tree is.
pub open spec fn is_tree_plan(
    plan: TreePlan,
    source: LeafSource,
    leaf_width: nat,
    leaf_count: nat,
    cap_height: nat,
) -> bool {
    let log_leaves = log2(leaf_count);
    let input_len = leaf_count * leaf_width;
    &&& plan.staging == !(source is Shared)
    &&& plan.input_len == input_len
    &&& plan.input_bytes == (if input_len == 0 {
        8
    } else {
        8 * input_len
    })
    &&& plan.output_len == output_words(log_leaves, cap_height)
    &&& plan.output_bytes == 8 * output_words(log_leaves, cap_height)
    &&& plan.dispatches@ == seq![leaf_run(source, leaf_width, log_leaves)] + parent_runs(
        log_leaves,
        cap_height,
    )
    &&& plan.level_offsets@ == level_offsets_of(log_leaves, cap_height)
}

/// Plans a tree over leaves that exist already.
pub fn build(source: &LeafSource, leaf_width: usize, leaf_count: usize, cap_height: usize) -> (r:
    Result<TreePlan, MetalError>)
    requires
        is_power_of_two(leaf_count as nat),
        cap_height <= log2(leaf_count as nat),
        leaf_count <= u32::MAX,
        leaf_width <= u32::MAX,
        2 * leaf_count <= usize::MAX,
    ensures
        match r {
            Ok(plan) => {
                &&& tree_error(leaf_width as nat, leaf_count as nat, cap_height as nat) is None
                &&& is_tree_plan(
                    plan,
                    *source,
                    leaf_width as nat,
                    leaf_count as nat,
                    cap_height as nat,
                )
            },
            Err(error) => tree_error(leaf_width as nat, leaf_count as nat, cap_height as nat)
                == Some(error),
        },
{
    let log_leaf_count: usize = log2_strict(leaf_count);
    proof {
        lemma_pow2_mono(cap_height as nat, log_leaf_count as nat);
        lemma_pow2_exceeds(log_leaf_count as nat);
        lemma_pow2_pos(cap_height as nat);
    }
    let cap_count: usize = two_pow(cap_height);
    let total_node_count: usize = 2 * leaf_count - cap_count;
    let input_len: usize = match leaf_count.checked_mul(leaf_width) {
        Some(len) => len,
        None => {
            return Err(MetalError::LeafInputLength);
        },
    };
    let exact_input_bytes: usize = match input_len.checked_mul(WORD_BYTES) {
        Some(bytes) => bytes,
        None => {
            return Err(MetalError::LeafInputSize);
        },
    };
    let output_len: usize = match total_node_count.checked_mul(4) {
        Some(len) => len,
        None => {
            return Err(MetalError::MerkleOutputLength);
        },
    };
    let output_bytes: usize = match output_len.checked_mul(WORD_BYTES) {
        Some(bytes) => bytes,
        None => {
            return Err(MetalError::MerkleOutputSize);
        },
    };
    let input_bytes: usize = if exact_input_bytes < WORD_BYTES {
        WORD_BYTES
    } else {
        exact_input_bytes
    };
    let staging = match source {
        LeafSource::Rows(_) => true,
        LeafSource::Columns(_) => true,
        LeafSource::Shared(_) => false,
    };
    let leaf_dispatch = match source {
        LeafSource::Rows(_) => Dispatch::HashLeaves {
            input: Store::Input,
            leaf_width: leaf_width as u32,
            leaf_count: leaf_count as u32,
            threads: leaf_count,
        },
        LeafSource::Columns(_) => Dispatch::HashLeavesColumns {
            input: Store::Input,
            leaf_width: leaf_width as u32,
            leaf_count: leaf_count as u32,
            log_leaf_count: log_leaf_count as u32,
            threads: leaf_count,
        },
        LeafSource::Shared(_) => Dispatch::HashLeavesColumns {
            input: Store::Columns,
            leaf_width: leaf_width as u32,
            leaf_count: leaf_count as u32,
            log_leaf_count: log_leaf_count as u32,
            threads: leaf_count,
        },
    };
    let mut dispatches: Vec<Dispatch> = Vec::new();
    dispatches.push(leaf_dispatch);
    assert(dispatches@ =~= seq![leaf_run(*source, leaf_width as nat, log_leaf_count as nat)]);
    let level_offsets = add_parent_runs(&mut dispatches, leaf_count, cap_height);
    Ok(
        TreePlan {
            staging,
            input_len,
            input_bytes,
            output_len,
            output_bytes,
            dispatches,
            level_offsets,
        },
    )
}

/// The words of some elements.
pub open spec fn words_of(s: Seq<GoldilocksField>) -> Seq<u64> {
    s.map_values(|x: GoldilocksField| x.0)
}

/// The words of the columns, one column after the other.
pub open spec fn column_words(columns: Seq<Seq<GoldilocksField>>, n: nat) -> Seq<u64>
    decreases n,
{
    if n == 0 {
        Seq::empty()
    } else {
        column_words(columns, (n - 1) as nat) + words_of(columns[n - 1])
    }
}

/// Appends the words of some elements.
fn append_words(out: &mut Vec<u64>, elements: &[GoldilocksField])
    ensures
        final(out)@ == old(out)@ + words_of(elements@),
{
    let ghost before = out@;
    let mut i: usize = 0;
    assert(out@ =~= before + words_of(elements@).take(0));
    while i < elements.len()
        invariant
            i <= elements@.len(),
            out@ == before + words_of(elements@).take(i as int),
        decreases elements@.len() - i,
    {
        out.push(elements[i].0);
        i = i + 1;
        assert(out@ =~= before + words_of(elements@).take(i as int));
    }
    assert(words_of(elements@).take(i as int) =~= words_of(elements@));
}

/// The words of borrowed columns, one column after the other.
pub fn stage_columns(columns: &Vec<&[GoldilocksField]>) -> (r: Vec<u64>)
    ensures
        r@ == column_words(slice_columns(columns@), columns@.len()),
{
    let mut r: Vec<u64> = Vec::new();
    let mut j: usize = 0;
    while j < columns.len()
        invariant
            j <= columns@.len(),
            r@ == column_words(slice_columns(columns@), j as nat),
        decreases columns@.len() - j,
    {
        append_words(&mut r, columns[j]);
        j = j + 1;
    }
    r
}

/// The words that are copied to the device: the rows, or the columns one after the other, and
/// nothing if the leaves are there already.
pub fn stage_leaves(source: &LeafSource) -> (r: Vec<u64>)
    ensures
        match *source {
            LeafSource::Rows(leaves) => r@ == words_of(leaves@),
            LeafSource::Columns(columns) => r@ == column_words(
                owned_columns(columns@),
                columns@.len(),
            ),
            LeafSource::Shared(_) => r@.len() == 0,
        },
{
    let mut r: Vec<u64> = Vec::new();
    match source {
        LeafSource::Rows(leaves) => {
            append_words(&mut r, leaves);
            assert(r@ =~= words_of(leaves@));
        },
        LeafSource::Columns(columns) => {
            let mut j: usize = 0;
            while j < columns.len()
                invariant
                    j <= columns@.len(),
                    r@ == column_words(owned_columns(columns@), j as nat),
                decreases columns@.len() - j,
            {
                append_words(&mut r, columns[j].as_slice());
                j = j + 1;
            }
        },
        LeafSource::Shared(_) => {},
    }
    r
}

/// A tree that the device can build, and that is worth it.
pub open spec fn tree_suits(leaf_width: nat, leaf_count: nat, cap_height: nat) -> bool {
    &&& leaf_count <= u32::MAX
    &&& leaf_width <= u32::MAX
    &&& worthwhile(leaf_width, leaf_count, cap_height)
}

/// What planning a tree needs: the cap not to be above the leaves where the device can count them,
/// and a tree that is worth it to have a power of two of leaves, the nodes over which can be counted.
pub open spec fn tree_fits(leaf_width: nat, leaf_count: nat, cap_height: nat) -> bool {
    &&& leaf_count <= u32::MAX && leaf_width <= u32::MAX ==> pow2(cap_height) <= leaf_count
    &&& tree_suits(leaf_width, leaf_count, cap_height) ==> is_power_of_two(leaf_count) && 2
        * leaf_count <= usize::MAX
}

/// What planning a tree returns: nothing where the device does not suit, an error where a size does
/// not fit, and a plan otherwise.
pub open spec fn tree_planned(
    r: Result<Option<TreePlan>, MetalError>,
    suits: bool,
    source: LeafSource,
    leaf_width: nat,
    leaf_count: nat,
    cap_height: nat,
) -> bool {
    match r {
        Ok(None) => !suits,
        Ok(Some(plan)) => suits && tree_error(leaf_width, leaf_count, cap_height) is None
            && is_tree_plan(plan, source, leaf_width, leaf_count, cap_height),
        Err(error) => suits && tree_error(leaf_width, leaf_count, cap_height) == Some(error),
    }
}

/// Plans a tree over row-major leaves.
pub fn build_merkle_tree(
    leaves: &[GoldilocksField],
    leaf_width: usize,
    leaf_count: usize,
    cap_height: usize,
) -> (r: Result<Option<TreePlan>, MetalError>)
    requires
        leaf_count * leaf_width <= usize::MAX,
        leaves@.len() == leaf_count * leaf_width ==> tree_fits(
            leaf_width as nat,
            leaf_count as nat,
            cap_height as nat,
        ),
    ensures
        tree_planned(
            r,
            leaves@.len() == leaf_count * leaf_width && tree_suits(
                leaf_width as nat,
                leaf_count as nat,
                cap_height as nat,
            ),
            LeafSource::Rows(leaves),
            leaf_width as nat,
            leaf_count as nat,
            cap_height as nat,
        ),
{
    if leaves.len() != leaf_count * leaf_width || leaf_count > u32::MAX as usize || leaf_width
        > u32::MAX as usize || !gpu_worthwhile(leaf_width, leaf_count, cap_height) {
        return Ok(None);
    }
    proof {
        lemma_cap_height(cap_height as nat, log2(leaf_count as nat));
    }
    match build(&LeafSource::Rows(leaves), leaf_width, leaf_count, cap_height) {
        Ok(plan) => Ok(Some(plan)),
        Err(error) => Err(error),
    }
}

/// Whether all columns have the given length.
fn columns_have_len(columns: &Vec<Vec<GoldilocksField>>, len: usize) -> (r: bool)
    ensures
        r == forall|j: int| 0 <= j < columns@.len() ==> (#[trigger] columns@[j])@.len() == len,
{
    let mut j: usize = 0;
    while j < columns.len()
        invariant
            j <= columns@.len(),
            forall|k: int| 0 <= k < j ==> (#[trigger] columns@[k])@.len() == len,
        decreases columns@.len() - j,
    {
        if columns[j].len() != len {
            return false;
        }
        j = j + 1;
    }
    true
}

/// Plans a tree over natural-order columns.
pub fn build_merkle_tree_columns(columns: &Vec<Vec<GoldilocksField>>, cap_height: usize) -> (r:
    Result<Option<TreePlan>, MetalError>)
    requires
        is_power_of_two(ColumnStore::Owned(*columns).height()) && ColumnStore::Owned(
            *columns,
        ).rectangular() ==> tree_fits(
            columns@.len(),
            ColumnStore::Owned(*columns).height(),
            cap_height as nat,
        ),
    ensures
        ({
            let leaf_count = ColumnStore::Owned(*columns).height();
            tree_planned(
                r,
                is_power_of_two(leaf_count) && (forall|j: int|
                    0 <= j < columns@.len() ==> (#[trigger] columns@[j])@.len() == leaf_count)
                    && tree_suits(columns@.len(), leaf_count, cap_height as nat),
                LeafSource::Columns(columns),
                columns@.len(),
                leaf_count,
                cap_height as nat,
            )
        }),
{
    let leaf_width: usize = columns.len();
    let leaf_count: usize = if leaf_width == 0 {
        0
    } else {
        columns[0].len()
    };
    if !check_power_of_two(leaf_count) {
        return Ok(None);
    }
    if !columns_have_len(columns, leaf_count) || leaf_count > u32::MAX as usize || leaf_width
        > u32::MAX as usize || !gpu_worthwhile(leaf_width, leaf_count, cap_height) {
        return Ok(None);
    }
    proof {
        lemma_cap_height(cap_height as nat, log2(leaf_count as nat));
    }
    match build(&LeafSource::Columns(columns), leaf_width, leaf_count, cap_height) {
        Ok(plan) => Ok(Some(plan)),
        Err(error) => Err(error),
    }
}

/// Columns that the device can hash in place, and that are worth it.
pub open spec fn shared_suits(cols: nat, rows: nat, cap_height: nat) -> bool {
    &&& cols > 0
    &&& is_power_of_two(rows)
    &&& cap_height <= log2(rows)
    &&& tree_suits(cols, rows, cap_height)
}

/// Whether columns can be hashed in place, and are worth it.
fn check_shared(cols: usize, rows: usize, cap_height: usize) -> (r: bool)
    ensures
        r == shared_suits(cols as nat, rows as nat, cap_height as nat),
{
    if cols == 0 || !check_power_of_two(rows) || rows > u32::MAX as usize || cols
        > u32::MAX as usize {
        return false;
    }
    if cap_height > log2_strict(rows) {
        return false;
    }
    proof {
        lemma_pow2_mono(cap_height as nat, log2(rows as nat));
    }
    gpu_worthwhile(cols, rows, cap_height)
}

/// Allocates the retained column store before the columns are computed, so that the same storage
/// can be hashed directly. What it holds at first is not said.
pub fn allocate_columns(cols: usize, rows: usize, cap_height: usize) -> (r: Result<
    Option<MetalColumns<GoldilocksField>>,
    MetalError,
>)
    ensures
        ({
            let suits = shared_suits(cols as nat, rows as nat, cap_height as nat);
            match r {
                Ok(None) => !suits,
                Ok(Some(columns)) => suits && columns.wf() && columns.spec_rows() == rows
                    && columns.spec_cols() == cols && 8 * (rows * cols) <= usize::MAX,
                Err(error) => suits && (if rows * cols > usize::MAX {
                    error == MetalError::ColumnLength
                } else {
                    8 * (rows * cols) > usize::MAX && error == MetalError::ColumnSize
                }),
            }
        }),
{
    if !check_shared(cols, rows, cap_height) {
        return Ok(None);
    }
    let len: usize = match rows.checked_mul(cols) {
        Some(len) => len,
        None => {
            return Err(MetalError::ColumnLength);
        },
    };
    match len.checked_mul(WORD_BYTES) {
        Some(_) => {},
        None => {
            return Err(MetalError::ColumnSize);
        },
    }
    Ok(Some(MetalColumns::from_flat(filled(GoldilocksField(0), len), rows, cols)))
}

/// Plans a tree over retained columns, which are hashed without a copy.
pub fn build_merkle_tree_shared(columns: &MetalColumns<GoldilocksField>, cap_height: usize) -> (r:
    Result<Option<TreePlan>, MetalError>)
    requires
        shared_suits(columns.spec_cols(), columns.spec_rows(), cap_height as nat) ==> 2
            * columns.spec_rows() <= usize::MAX,
    ensures
        tree_planned(
            r,
            shared_suits(columns.spec_cols(), columns.spec_rows(), cap_height as nat),
            LeafSource::Shared(columns),
            columns.spec_cols(),
            columns.spec_rows(),
            cap_height as nat,
        ),
{
    let leaf_width: usize = columns.cols();
    let leaf_count: usize = columns.rows();
    if !check_shared(leaf_width, leaf_count, cap_height) {
        return Ok(None);
    }
    match build(&LeafSource::Shared(columns), leaf_width, leaf_count, cap_height) {
        Ok(plan) => Ok(Some(plan)),
        Err(error) => Err(error),
    }
}

} // verus!
