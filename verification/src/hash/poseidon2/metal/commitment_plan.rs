//! Plans for commitments: transforms of polynomials, and a Merkle tree over their values.

use crate::field::goldilocks_field::GoldilocksField;
use crate::field::roots::inv_pow2;
use crate::fri::lde::lemma_lde_sizes;
use crate::fri::lookup::lemma_flat_row;
use crate::hash::poseidon2::metal::plan::{
    Dispatch, MetalError, Store, WORD_BYTES, add_parent_runs, check_power_of_two, gpu_worthwhile,
    lemma_cap_height, level_offsets_of, output_words, parent_runs,
};
use crate::hash::poseidon2::metal::tables::{inverse_count, is_word_of, roots_for};
use crate::hash::poseidon2::metal::tree_plan::{tree_suits, words_of};
use crate::plonk::config::{equal_columns, slice_columns};
use crate::util::bits::{is_power_of_two, lemma_log2, lemma_pow2_mono, log2, log2_strict, two_pow};
use vstd::arithmetic::power2::{lemma_pow2_pos, pow2};
use vstd::prelude::*;

verus! {

/// A commitment: the buffers that it needs, and the kernel runs in order.
#[derive(Debug)]
pub struct CommitmentPlan {
    /// The number of points of the extended domain.
    pub lde_size: usize,
    /// The number of words that are copied to the device.
    pub input_len: usize,
    /// The least number of bytes of the buffer that they are copied to. A buffer for coefficients,
    /// where one is needed, has as many.
    pub input_bytes: usize,
    /// The number of bytes of the buffer for the values.
    pub column_bytes: usize,
    /// The number of words of all levels of the tree.
    pub output_len: usize,
    /// The least number of bytes of the buffer for all levels.
    pub output_bytes: usize,
    /// The kernel runs.
    pub dispatches: Vec<Dispatch>,
    /// Where each level starts among the words of all levels.
    pub level_offsets: Vec<usize>,
}

/// The run that brings inputs, multiplied by factors, into the order that the stages need.
pub open spec fn prepare_run(
    input: Store,
    factors: Store,
    log_degree: nat,
    rate_bits: nat,
    cols: nat,
) -> Dispatch {
    let size = pow2(log_degree + rate_bits);
    Dispatch::NttPrepare {
        input,
        factors,
        output: Store::Columns,
        degree: pow2(log_degree) as u32,
        size: size as u32,
        log_degree: log_degree as u32,
        rate_bits: rate_bits as u32,
        width: size as usize,
        height: cols as usize,
    }
}

/// The run of one stage of transforms of `2^log_size` elements.
pub open spec fn stage_run(log_size: nat, stage: nat, canonicalize: bool, cols: nat) -> Dispatch {
    Dispatch::NttStage {
        roots_offset: (8 * (pow2(stage) - 1)) as usize,
        size: pow2(log_size) as u32,
        stage: stage as u32,
        canonicalize: if canonicalize {
            1
        } else {
            0
        },
        width: (pow2(log_size) / 2) as usize,
        height: cols as usize,
    }
}

/// The runs of the stages from `first` on. The last one makes words canonical if that is asked for.
pub open spec fn stage_runs(log_size: nat, first: nat, canonicalize: bool, cols: nat) -> Seq<
    Dispatch,
> {
    Seq::new(
        (log_size - first) as nat,
        |i: int|
            stage_run(
                log_size,
                (first + i) as nat,
                canonicalize && first + i == log_size - 1,
                cols,
            ),
    )
}

/// The run that hashes the leaves, which lie in columns.
pub open spec fn column_leaf_run(log_lde: nat, cols: nat) -> Dispatch {
    Dispatch::HashLeavesColumns {
        input: Store::Columns,
        leaf_width: cols as u32,
        leaf_count: pow2(log_lde) as u32,
        log_leaf_count: log_lde as u32,
        threads: pow2(log_lde) as usize,
    }
}

/// The runs that extend coefficients, and build the tree over their values.
pub open spec fn extension_runs(
    coeffs: Store,
    log_degree: nat,
    rate_bits: nat,
    cap_height: nat,
    cols: nat,
) -> Seq<Dispatch> {
    let log_lde = log_degree + rate_bits;
    seq![prepare_run(coeffs, Store::ShiftPowers, log_degree, rate_bits, cols)] + stage_runs(
        log_lde,
        rate_bits,
        true,
        cols,
    ) + seq![column_leaf_run(log_lde, cols)] + parent_runs(log_lde, cap_height)
}

/// The run that turns values at the points into coefficients.
pub open spec fn finalize_run(log_degree: nat, factor: u64, cols: nat) -> Dispatch {
    Dispatch::IfftFinalize {
        degree: pow2(log_degree) as u32,
        factor,
        width: pow2(log_degree) as usize,
        height: cols as usize,
    }
}

/// The runs that interpolate values.
pub open spec fn interpolation_runs(log_degree: nat, factor: u64, cols: nat) -> Seq<Dispatch> {
    seq![prepare_run(Store::Input, Store::Ones, log_degree, 0, cols)] + stage_runs(
        log_degree,
        0,
        false,
        cols,
    ) + seq![finalize_run(log_degree, factor, cols)]
}

/// The size that does not fit, if any.
pub open spec fn commitment_error(
    from_values: bool,
    degree: nat,
    lde_size: nat,
    cap_height: nat,
    cols: nat,
) -> Option<MetalError> {
    let input_len = degree * cols;
    let column_len = lde_size * cols;
    let output_len = 4 * (2 * lde_size - pow2(cap_height));
    if input_len > usize::MAX {
        Some(
            if from_values {
                MetalError::NttValueLength
            } else {
                MetalError::NttCoefficientLength
            },
        )
    } else if 8 * input_len > usize::MAX {
        Some(
            if from_values {
                MetalError::NttValueSize
            } else {
                MetalError::NttCoefficientSize
            },
        )
    } else if column_len > usize::MAX {
        Some(MetalError::NttColumnLength)
    } else if 8 * column_len > usize::MAX {
        Some(MetalError::NttColumnSize)
    } else if output_len > usize::MAX {
        Some(MetalError::NttOutputLength)
    } else if 8 * output_len > usize::MAX {
        Some(MetalError::NttOutputSize)
    } else {
        None
    }
}

/// What the plan for a commitment is.
pub open spec fn is_commitment_plan(
    plan: CommitmentPlan,
    from_values: bool,
    degree: nat,
    rate_bits: nat,
    cap_height: nat,
    cols: nat,
) -> bool {
    let log_degree = log2(degree);
    let log_lde = log_degree + rate_bits;
    &&& plan.lde_size == pow2(log_lde)
    &&& plan.input_len == degree * cols
    &&& plan.input_bytes == 8 * (degree * cols)
    &&& plan.column_bytes == 8 * (pow2(log_lde) * cols)
    &&& plan.output_len == output_words(log_lde, cap_height)
    &&& plan.output_bytes == 8 * output_words(log_lde, cap_height)
    &&& plan.level_offsets@ == level_offsets_of(log_lde, cap_height)
    &&& if from_values {
        exists|factor: u64|
            is_word_of(factor, inv_pow2(log_degree)) && plan.dispatches@
                == #[trigger] interpolation_runs(log_degree, factor, cols) + extension_runs(
                Store::Coefficients,
                log_degree,
                rate_bits,
                cap_height,
                cols,
            )
    } else {
        plan.dispatches@ == extension_runs(Store::Input, log_degree, rate_bits, cap_height, cols)
    }
}

/// The sizes that a commitment has to meet.
pub open spec fn commitment_sizes_ok(
    degree: nat,
    rate_bits: nat,
    cap_height: nat,
    cols: nat,
) -> bool {
    &&& is_power_of_two(degree)
    &&& degree * pow2(rate_bits) <= u32::MAX
    &&& 2 * (degree * pow2(rate_bits)) <= usize::MAX
    &&& cap_height <= log2(degree) + rate_bits
    &&& cols <= u32::MAX
}

/// Adds the runs of the stages from `first` on.
fn add_stage_runs(
    dispatches: &mut Vec<Dispatch>,
    log_size: usize,
    first: usize,
    canonicalize: bool,
    cols: usize,
    roots_offsets: &Vec<usize>,
)
    requires
        first <= log_size <= 31,
        log_size <= roots_offsets@.len(),
        forall|s: int|
            0 <= s < roots_offsets@.len() ==> #[trigger] roots_offsets@[s] == pow2(s as nat) - 1,
        8 * pow2(log_size as nat) <= usize::MAX,
        pow2(log_size as nat) <= u32::MAX,
    ensures
        final(dispatches)@ == old(dispatches)@ + stage_runs(
            log_size as nat,
            first as nat,
            canonicalize,
            cols as nat,
        ),
{
    let ghost before = dispatches@;
    let ghost runs = stage_runs(log_size as nat, first as nat, canonicalize, cols as nat);
    let size: usize = two_pow(log_size);
    let mut stage: usize = first;
    assert(dispatches@ =~= before + runs.take(0));
    while stage < log_size
        invariant
            first <= stage <= log_size <= 31,
            log_size <= roots_offsets@.len(),
            forall|s: int|
                0 <= s < roots_offsets@.len() ==> #[trigger] roots_offsets@[s] == pow2(s as nat)
                    - 1,
            8 * pow2(log_size as nat) <= usize::MAX,
            pow2(log_size as nat) <= u32::MAX,
            size == pow2(log_size as nat),
            runs == stage_runs(log_size as nat, first as nat, canonicalize, cols as nat),
            dispatches@ == before + runs.take(stage - first),
        decreases log_size - stage,
    {
        proof {
            lemma_pow2_mono(stage as nat, log_size as nat);
            lemma_pow2_pos(stage as nat);
        }
        let offset: usize = roots_offsets[stage];
        let flag: u32 = if canonicalize && stage == log_size - 1 {
            1
        } else {
            0
        };
        dispatches.push(
            Dispatch::NttStage {
                roots_offset: offset * WORD_BYTES,
                size: size as u32,
                stage: stage as u32,
                canonicalize: flag,
                width: size / 2,
                height: cols,
            },
        );
        stage = stage + 1;
        assert(dispatches@ =~= before + runs.take(stage - first));
    }
    assert(runs.take(stage - first) =~= runs);
}

/// Adds the runs that extend coefficients, and build the tree over their values. Returns where the
/// levels of the tree start.
fn add_extension_runs(
    dispatches: &mut Vec<Dispatch>,
    coeffs: Store,
    log_degree: usize,
    rate_bits: usize,
    cap_height: usize,
    cols: usize,
    roots_offsets: &Vec<usize>,
) -> (r: Vec<usize>)
    requires
        log_degree + rate_bits <= 31,
        log_degree + rate_bits <= roots_offsets@.len(),
        forall|s: int|
            0 <= s < roots_offsets@.len() ==> #[trigger] roots_offsets@[s] == pow2(s as nat) - 1,
        pow2((log_degree + rate_bits) as nat) <= u32::MAX,
        cap_height <= log_degree + rate_bits,
        8 * output_words((log_degree + rate_bits) as nat, cap_height as nat) <= usize::MAX,
        cols <= u32::MAX,
    ensures
        final(dispatches)@ == old(dispatches)@ + extension_runs(
            coeffs,
            log_degree as nat,
            rate_bits as nat,
            cap_height as nat,
            cols as nat,
        ),
        r@ == level_offsets_of((log_degree + rate_bits) as nat, cap_height as nat),
{
    let ghost before = dispatches@;
    let log_lde: usize = log_degree + rate_bits;
    proof {
        lemma_pow2_mono(log_degree as nat, log_lde as nat);
        lemma_pow2_mono(cap_height as nat, log_lde as nat);
        lemma_pow2_pos(log_lde as nat);
        lemma_log2(log_lde as nat);
    }
    let lde_size: usize = two_pow(log_lde);
    let degree: usize = two_pow(log_degree);
    dispatches.push(
        Dispatch::NttPrepare {
            input: coeffs,
            factors: Store::ShiftPowers,
            output: Store::Columns,
            degree: degree as u32,
            size: lde_size as u32,
            log_degree: log_degree as u32,
            rate_bits: rate_bits as u32,
            width: lde_size,
            height: cols,
        },
    );
    add_stage_runs(dispatches, log_lde, rate_bits, true, cols, roots_offsets);
    dispatches.push(
        Dispatch::HashLeavesColumns {
            input: Store::Columns,
            leaf_width: cols as u32,
            leaf_count: lde_size as u32,
            log_leaf_count: log_lde as u32,
            threads: lde_size,
        },
    );
    let r = add_parent_runs(dispatches, lde_size, cap_height);
    assert(dispatches@ =~= before + extension_runs(
        coeffs,
        log_degree as nat,
        rate_bits as nat,
        cap_height as nat,
        cols as nat,
    ));
    r
}

/// The sizes of the buffers of a commitment: words and bytes of the input, bytes of the columns,
/// words and bytes of the output.
fn commitment_sizes(
    from_values: bool,
    degree: usize,
    lde_size: usize,
    cap_height: usize,
    cols: usize,
) -> (r: Result<(usize, usize, usize, usize, usize), MetalError>)
    requires
        pow2(cap_height as nat) <= lde_size,
        2 * lde_size <= usize::MAX,
    ensures
        ({
            let error = commitment_error(
                from_values,
                degree as nat,
                lde_size as nat,
                cap_height as nat,
                cols as nat,
            );
            match r {
                Ok(sizes) => {
                    &&& error is None
                    &&& sizes.0 == degree * cols
                    &&& sizes.1 == 8 * (degree * cols)
                    &&& sizes.2 == 8 * (lde_size * cols)
                    &&& sizes.3 == 4 * (2 * lde_size - pow2(cap_height as nat))
                    &&& sizes.4 == 8 * (4 * (2 * lde_size - pow2(cap_height as nat)))
                },
                Err(e) => error == Some(e),
            }
        }),
{
    let cap_count: usize = two_pow(cap_height);
    let total_node_count: usize = 2 * lde_size - cap_count;
    let input_len: usize = match degree.checked_mul(cols) {
        Some(len) => len,
        None => {
            return Err(
                if from_values {
                    MetalError::NttValueLength
                } else {
                    MetalError::NttCoefficientLength
                },
            );
        },
    };
    let input_bytes: usize = match input_len.checked_mul(WORD_BYTES) {
        Some(bytes) => bytes,
        None => {
            return Err(
                if from_values {
                    MetalError::NttValueSize
                } else {
                    MetalError::NttCoefficientSize
                },
            );
        },
    };
    let column_len: usize = match lde_size.checked_mul(cols) {
        Some(len) => len,
        None => {
            return Err(MetalError::NttColumnLength);
        },
    };
    let column_bytes: usize = match column_len.checked_mul(WORD_BYTES) {
        Some(bytes) => bytes,
        None => {
            return Err(MetalError::NttColumnSize);
        },
    };
    let output_len: usize = match total_node_count.checked_mul(4) {
        Some(len) => len,
        None => {
            return Err(MetalError::NttOutputLength);
        },
    };
    let output_bytes: usize = match output_len.checked_mul(WORD_BYTES) {
        Some(bytes) => bytes,
        None => {
            return Err(MetalError::NttOutputSize);
        },
    };
    Ok((input_len, input_bytes, column_bytes, output_len, output_bytes))
}

/// The logarithm of the number of points of a domain that the device can index.
proof fn lemma_log_fits(degree: nat, rate_bits: nat)
    requires
        is_power_of_two(degree),
        degree * pow2(rate_bits) <= u32::MAX,
    ensures
        log2(degree) + rate_bits <= 31,
        degree * pow2(rate_bits) == pow2(log2(degree) + rate_bits),
        pow2(rate_bits) <= degree * pow2(rate_bits),
{
    lemma_lde_sizes(degree, rate_bits);
    if log2(degree) + rate_bits >= 32 {
        lemma_pow2_mono(32, log2(degree) + rate_bits);
        vstd::arithmetic::power2::lemma2_to64();
    }
}

/// Plans a commitment to polynomials that are given by their coefficients.
pub fn build_from_coeffs(degree: usize, rate_bits: usize, cap_height: usize, cols: usize) -> (r:
    Result<CommitmentPlan, MetalError>)
    requires
        commitment_sizes_ok(
            degree as nat,
            rate_bits as nat,
            cap_height as nat,
            cols as nat,
        ),
    ensures
        ({
            let error = commitment_error(
                false,
                degree as nat,
                (degree * pow2(rate_bits as nat)) as nat,
                cap_height as nat,
                cols as nat,
            );
            match r {
                Ok(plan) => error is None && is_commitment_plan(
                    plan,
                    false,
                    degree as nat,
                    rate_bits as nat,
                    cap_height as nat,
                    cols as nat,
                ),
                Err(e) => error == Some(e),
            }
        }),
{
    proof {
        lemma_log_fits(degree as nat, rate_bits as nat);
        lemma_pow2_mono(cap_height as nat, log2(degree as nat) + rate_bits as nat);
    }
    let lde_size: usize = degree * two_pow(rate_bits);
    let log_degree: usize = log2_strict(degree);
    let sizes = match commitment_sizes(false, degree, lde_size, cap_height, cols) {
        Ok(sizes) => sizes,
        Err(error) => {
            return Err(error);
        },
    };
    let (_, roots_offsets) = roots_for(log_degree + rate_bits);
    let mut dispatches: Vec<Dispatch> = Vec::new();
    let level_offsets = add_extension_runs(
        &mut dispatches,
        Store::Input,
        log_degree,
        rate_bits,
        cap_height,
        cols,
        &roots_offsets,
    );
    assert(dispatches@ =~= extension_runs(
        Store::Input,
        log_degree as nat,
        rate_bits as nat,
        cap_height as nat,
        cols as nat,
    ));
    Ok(
        CommitmentPlan {
            lde_size,
            input_len: sizes.0,
            input_bytes: sizes.1,
            column_bytes: sizes.2,
            output_len: sizes.3,
            output_bytes: sizes.4,
            dispatches,
            level_offsets,
        },
    )
}

/// Plans a commitment to polynomials that are given by their values: they are interpolated first.
pub fn build_from_values(degree: usize, rate_bits: usize, cap_height: usize, cols: usize) -> (r:
    Result<CommitmentPlan, MetalError>)
    requires
        commitment_sizes_ok(
            degree as nat,
            rate_bits as nat,
            cap_height as nat,
            cols as nat,
        ),
    ensures
        ({
            let error = commitment_error(
                true,
                degree as nat,
                (degree * pow2(rate_bits as nat)) as nat,
                cap_height as nat,
                cols as nat,
            );
            match r {
                Ok(plan) => error is None && is_commitment_plan(
                    plan,
                    true,
                    degree as nat,
                    rate_bits as nat,
                    cap_height as nat,
                    cols as nat,
                ),
                Err(e) => error == Some(e),
            }
        }),
{
    proof {
        lemma_log_fits(degree as nat, rate_bits as nat);
        lemma_pow2_mono(cap_height as nat, log2(degree as nat) + rate_bits as nat);
        lemma_pow2_mono(log2(degree as nat), log2(degree as nat) + rate_bits as nat);
    }
    let lde_size: usize = degree * two_pow(rate_bits);
    let log_degree: usize = log2_strict(degree);
    let sizes = match commitment_sizes(true, degree, lde_size, cap_height, cols) {
        Ok(sizes) => sizes,
        Err(error) => {
            return Err(error);
        },
    };
    let (_, roots_offsets) = roots_for(log_degree + rate_bits);
    let n_inv: u64 = inverse_count(log_degree);
    let mut dispatches: Vec<Dispatch> = Vec::new();
    // Plain forward transform of the values, in the head of the column buffer, which is dead once
    // the coefficients have been made.
    dispatches.push(
        Dispatch::NttPrepare {
            input: Store::Input,
            factors: Store::Ones,
            output: Store::Columns,
            degree: degree as u32,
            size: degree as u32,
            log_degree: log_degree as u32,
            rate_bits: 0,
            width: degree,
            height: cols,
        },
    );
    add_stage_runs(&mut dispatches, log_degree, 0, false, cols, &roots_offsets);
    dispatches.push(
        Dispatch::IfftFinalize {
            degree: degree as u32,
            factor: n_inv,
            width: degree,
            height: cols,
        },
    );
    proof {
        assert(log_degree as nat + 0 == log_degree as nat);
        assert(dispatches@ =~= interpolation_runs(log_degree as nat, n_inv, cols as nat));
    }
    // Extension of the coefficients, exactly as for given coefficients.
    let level_offsets = add_extension_runs(
        &mut dispatches,
        Store::Coefficients,
        log_degree,
        rate_bits,
        cap_height,
        cols,
        &roots_offsets,
    );
    Ok(
        CommitmentPlan {
            lde_size,
            input_len: sizes.0,
            input_bytes: sizes.1,
            column_bytes: sizes.2,
            output_len: sizes.3,
            output_bytes: sizes.4,
            dispatches,
            level_offsets,
        },
    )
}

/// Columns of equal length, a power of two, that are to be extended.
pub open spec fn extendable(columns: Seq<Seq<GoldilocksField>>, rate_bits: nat) -> bool {
    &&& equal_columns(columns)
    &&& is_power_of_two(columns[0].len())
    &&& rate_bits > 0
}

/// What planning a commitment needs: the number of extended rows has to fit where the columns can be
/// extended at all, and the cap not to be above the tree where the device can count both.
pub open spec fn commitment_fits(
    columns: Seq<Seq<GoldilocksField>>,
    rate_bits: nat,
    cap_height: nat,
) -> bool {
    let lde_size = columns[0].len() * pow2(rate_bits);
    extendable(columns, rate_bits) ==> {
        &&& lde_size <= usize::MAX
        &&& lde_size <= u32::MAX && columns.len() <= u32::MAX ==> pow2(cap_height) <= lde_size
        &&& tree_suits(columns.len(), lde_size, cap_height) ==> 2 * lde_size <= usize::MAX
    }
}

/// A commitment that the device can make, and that is worth it.
pub open spec fn commitment_suits(
    columns: Seq<Seq<GoldilocksField>>,
    rate_bits: nat,
    cap_height: nat,
) -> bool {
    let lde_size = columns[0].len() * pow2(rate_bits);
    &&& extendable(columns, rate_bits)
    &&& tree_suits(columns.len(), lde_size, cap_height)
}

/// Whether all columns have the given length.
fn slices_have_len(columns: &Vec<&[GoldilocksField]>, len: usize) -> (r: bool)
    ensures
        r == forall|j: int|
            0 <= j < columns@.len() ==> (#[trigger] slice_columns(columns@)[j]).len() == len,
{
    let mut j: usize = 0;
    while j < columns.len()
        invariant
            j <= columns@.len(),
            forall|k: int| 0 <= k < j ==> (#[trigger] slice_columns(columns@)[k]).len() == len,
        decreases columns@.len() - j,
    {
        if columns[j].len() != len {
            assert(slice_columns(columns@)[j as int].len() != len);
            return false;
        }
        j = j + 1;
    }
    true
}

/// Whether the device can make a commitment, and it is worth it.
fn check_commitment(columns: &Vec<&[GoldilocksField]>, rate_bits: usize, cap_height: usize) -> (r:
    bool)
    requires
        commitment_fits(slice_columns(columns@), rate_bits as nat, cap_height as nat),
    ensures
        r == commitment_suits(
            slice_columns(columns@),
            rate_bits as nat,
            cap_height as nat,
        ),
{
    let cols: usize = columns.len();
    if cols == 0 {
        return false;
    }
    let degree: usize = columns[0].len();
    assert(slice_columns(columns@)[0].len() == degree);
    if !check_power_of_two(degree) || !slices_have_len(columns, degree) || rate_bits == 0 {
        return false;
    }
    proof {
        lemma_lde_sizes(degree as nat, rate_bits as nat);
    }
    let lde_size: usize = degree * two_pow(rate_bits);
    if lde_size > u32::MAX as usize || cols > u32::MAX as usize {
        return false;
    }
    gpu_worthwhile(cols, lde_size, cap_height)
}

/// What planning a commitment returns: nothing where the device does not suit, an error where a size
/// does not fit, and a plan otherwise.
pub open spec fn commitment_planned(
    r: Result<Option<CommitmentPlan>, MetalError>,
    from_values: bool,
    columns: Seq<Seq<GoldilocksField>>,
    rate_bits: nat,
    cap_height: nat,
) -> bool {
    let suits = commitment_suits(columns, rate_bits, cap_height);
    let degree = columns[0].len();
    let error = commitment_error(
        from_values,
        degree,
        degree * pow2(rate_bits),
        cap_height,
        columns.len(),
    );
    match r {
        Ok(None) => !suits,
        Ok(Some(plan)) => suits && error is None && is_commitment_plan(
            plan,
            from_values,
            degree,
            rate_bits,
            cap_height,
            columns.len(),
        ),
        Err(e) => suits && error == Some(e),
    }
}

/// Plans a commitment to polynomials that are given by columns of coefficients.
pub fn build_commitment_from_coeffs(
    coeff_columns: &Vec<&[GoldilocksField]>,
    rate_bits: usize,
    cap_height: usize,
) -> (r: Result<Option<CommitmentPlan>, MetalError>)
    requires
        commitment_fits(slice_columns(coeff_columns@), rate_bits as nat, cap_height as nat),
    ensures
        commitment_planned(
            r,
            false,
            slice_columns(coeff_columns@),
            rate_bits as nat,
            cap_height as nat,
        ),
{
    if !check_commitment(coeff_columns, rate_bits, cap_height) {
        return Ok(None);
    }
    let degree: usize = coeff_columns[0].len();
    proof {
        lemma_lde_sizes(degree as nat, rate_bits as nat);
        lemma_cap_height(cap_height as nat, log2(degree as nat) + rate_bits as nat);
    }
    match build_from_coeffs(degree, rate_bits, cap_height, coeff_columns.len()) {
        Ok(plan) => Ok(Some(plan)),
        Err(error) => Err(error),
    }
}

/// Plans a commitment to polynomials that are given by columns of values.
pub fn build_commitment_from_values(
    value_columns: &Vec<&[GoldilocksField]>,
    rate_bits: usize,
    cap_height: usize,
) -> (r: Result<Option<CommitmentPlan>, MetalError>)
    requires
        commitment_fits(slice_columns(value_columns@), rate_bits as nat, cap_height as nat),
    ensures
        commitment_planned(
            r,
            true,
            slice_columns(value_columns@),
            rate_bits as nat,
            cap_height as nat,
        ),
{
    if !check_commitment(value_columns, rate_bits, cap_height) {
        return Ok(None);
    }
    let degree: usize = value_columns[0].len();
    proof {
        lemma_lde_sizes(degree as nat, rate_bits as nat);
        lemma_cap_height(cap_height as nat, log2(degree as nat) + rate_bits as nat);
    }
    match build_from_values(degree, rate_bits, cap_height, value_columns.len()) {
        Ok(plan) => Ok(Some(plan)),
        Err(error) => Err(error),
    }
}

/// Takes the words of columns of equal length apart.
pub fn split_columns(words: &[u64], degree: usize, cols: usize) -> (r: Vec<Vec<GoldilocksField>>)
    requires
        words@.len() == degree * cols,
    ensures
        r@.len() == cols,
        forall|j: int|
            0 <= j < cols ==> words_of((#[trigger] r@[j])@) == words@.subrange(
                j * degree,
                j * degree + degree,
            ),
{
    let mut r: Vec<Vec<GoldilocksField>> = Vec::with_capacity(cols);
    let n: usize = words.len();
    while r.len() < cols
        invariant
            n == words@.len() == degree * cols,
            r@.len() <= cols,
            forall|j: int|
                0 <= j < r@.len() ==> words_of((#[trigger] r@[j])@) == words@.subrange(
                    j * degree,
                    j * degree + degree,
                ),
        decreases cols - r@.len(),
    {
        let j: usize = r.len();
        proof {
            lemma_flat_row(j as int, cols as int, degree as int);
            assert(cols * degree == degree * cols) by (nonlinear_arith);
        }
        let start: usize = j * degree;
        let mut column: Vec<GoldilocksField> = Vec::with_capacity(degree);
        while column.len() < degree
            invariant
                start + degree <= n == words@.len(),
                column@.len() <= degree,
                forall|i: int|
                    0 <= i < column@.len() ==> (#[trigger] column@[i]).0 == words@[start + i],
            decreases degree - column@.len(),
        {
            let i: usize = column.len();
            column.push(GoldilocksField(words[start + i]));
        }
        assert(words_of(column@) =~= words@.subrange(j * degree, j * degree + degree));
        r.push(column);
    }
    r
}

} // verus!
