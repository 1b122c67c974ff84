//! What is worth sending to the device, and the kernel runs that build a Merkle tree there.

use crate::util::bits::{
    is_power_of_two, lemma_pow2_basics, lemma_pow2_double, lemma_pow2_mono, log2, two_pow,
};
use vstd::arithmetic::power2::{lemma_pow2_pos, lemma_pow2_strictly_increases, pow2};
use vstd::prelude::*;

verus! {

/// Trees below this number of permutations hash on the CPU.
pub const MIN_GPU_PERMUTATIONS: u64 = 524288;

/// The number of bytes of a word.
pub const WORD_BYTES: usize = 8;

/// A buffer of the device.
#[derive(Clone, Copy, Debug, PartialEq, Eq, Structural)]
pub enum Store {
    /// What is copied to the device.
    Input,
    /// The digests of all levels of a tree.
    Output,
    /// Values of polynomials, column after column.
    Columns,
    /// Coefficients of polynomials, column after column.
    Coefficients,
    /// The powers of the coset shift.
    ShiftPowers,
    /// Ones.
    Ones,
}

/// A run of a kernel. Offsets are in bytes.
#[derive(Clone, Copy, Debug, PartialEq, Eq, Structural)]
pub enum Dispatch {
    /// In each of `height` columns: entry `x` of `width` becomes the product of a factor and an
    /// input, both at the bit-reversed index of `x / 2^rate_bits`.
    NttPrepare {
        input: Store,
        factors: Store,
        output: Store,
        degree: u32,
        size: u32,
        log_degree: u32,
        rate_bits: u32,
        width: usize,
        height: usize,
    },
    /// In each of `height` columns of `size` entries: `width` butterflies of a stage, with the row of
    /// twiddle factors at the offset.
    NttStage {
        roots_offset: usize,
        size: u32,
        stage: u32,
        canonicalize: u32,
        width: usize,
        height: usize,
    },
    /// In each of `height` columns of `degree` entries: the mirrored entries times a factor.
    IfftFinalize { degree: u32, factor: u64, width: usize, height: usize },
    /// The digests of `leaf_count` leaves, which lie in rows.
    HashLeaves { input: Store, leaf_width: u32, leaf_count: u32, threads: usize },
    /// The digests of `leaf_count` leaves, which lie in natural-order columns.
    HashLeavesColumns {
        input: Store,
        leaf_width: u32,
        leaf_count: u32,
        log_leaf_count: u32,
        threads: usize,
    },
    /// The digests of `parent_count` pairs of digests.
    HashParents { child_offset: usize, parent_offset: usize, parent_count: u32, threads: usize },
}

/// Why a build does not fit the device.
#[derive(Clone, Copy, Debug, PartialEq, Eq, Structural)]
pub enum MetalError {
    LeafInputLength,
    LeafInputSize,
    MerkleOutputLength,
    MerkleOutputSize,
    ColumnLength,
    ColumnSize,
    NttValueLength,
    NttValueSize,
    NttCoefficientLength,
    NttCoefficientSize,
    NttColumnLength,
    NttColumnSize,
    NttOutputLength,
    NttOutputSize,
}

/// The text of an error.
pub open spec fn error_text(error: MetalError) -> Seq<char> {
    match error {
        MetalError::LeafInputLength => "Metal leaf input length overflow"@,
        MetalError::LeafInputSize => "Metal leaf input size overflow"@,
        MetalError::MerkleOutputLength => "Metal Merkle output length overflow"@,
        MetalError::MerkleOutputSize => "Metal Merkle output size overflow"@,
        MetalError::ColumnLength => "Metal column length overflow"@,
        MetalError::ColumnSize => "Metal column size overflow"@,
        MetalError::NttValueLength => "NTT value length overflow"@,
        MetalError::NttValueSize => "NTT value size overflow"@,
        MetalError::NttCoefficientLength => "NTT coefficient length overflow"@,
        MetalError::NttCoefficientSize => "NTT coefficient size overflow"@,
        MetalError::NttColumnLength => "NTT column length overflow"@,
        MetalError::NttColumnSize => "NTT column size overflow"@,
        MetalError::NttOutputLength => "NTT node output length overflow"@,
        MetalError::NttOutputSize => "NTT node output size overflow"@,
    }
}

impl MetalError {
    /// The text of the error.
    pub fn message(&self) -> (r: &'static str)
        ensures
            r@ == error_text(*self),
    {
        match self {
            MetalError::LeafInputLength => "Metal leaf input length overflow",
            MetalError::LeafInputSize => "Metal leaf input size overflow",
            MetalError::MerkleOutputLength => "Metal Merkle output length overflow",
            MetalError::MerkleOutputSize => "Metal Merkle output size overflow",
            MetalError::ColumnLength => "Metal column length overflow",
            MetalError::ColumnSize => "Metal column size overflow",
            MetalError::NttValueLength => "NTT value length overflow",
            MetalError::NttValueSize => "NTT value size overflow",
            MetalError::NttCoefficientLength => "NTT coefficient length overflow",
            MetalError::NttCoefficientSize => "NTT coefficient size overflow",
            MetalError::NttColumnLength => "NTT column length overflow",
            MetalError::NttColumnSize => "NTT column size overflow",
            MetalError::NttOutputLength => "NTT node output length overflow",
            MetalError::NttOutputSize => "NTT node output size overflow",
        }
    }
}

/// The number of permutations that hashing a leaf takes.
pub open spec fn leaf_permutations(leaf_width: nat) -> nat {
    if leaf_width <= 4 {
        0
    } else {
        (leaf_width + 7) / 8
    }
}

/// There are enough permutations for the device to be worth it.
pub open spec fn worthwhile(leaf_width: nat, leaf_count: nat, cap_height: nat) -> bool {
    leaf_permutations(leaf_width) * leaf_count + (leaf_count - pow2(cap_height))
        >= MIN_GPU_PERMUTATIONS
}

/// A cap that has no more nodes than a tree has leaves is not above the tree.
pub proof fn lemma_cap_height(cap_height: nat, log_leaves: nat)
    requires
        pow2(cap_height) <= pow2(log_leaves),
    ensures
        cap_height <= log_leaves,
{
    if log_leaves < cap_height {
        lemma_pow2_strictly_increases(log_leaves, cap_height);
    }
}

/// Whether there are enough permutations for the device to be worth it.
pub fn gpu_worthwhile(leaf_width: usize, leaf_count: usize, cap_height: usize) -> (r: bool)
    requires
        leaf_width <= u32::MAX,
        leaf_count <= u32::MAX,
        pow2(cap_height as nat) <= leaf_count,
    ensures
        r == worthwhile(leaf_width as nat, leaf_count as nat, cap_height as nat),
{
    let count: u64 = leaf_count as u64;
    let per_leaf: u64 = if leaf_width <= 4 {
        0
    } else {
        (leaf_width as u64 + 7) / 8
    };
    proof {
        lemma_pow2_pos(cap_height as nat);
        assert(per_leaf <= 0x2000_0000);
        assert(0 <= per_leaf * count <= 0x2000_0000 * 0x1_0000_0000) by (nonlinear_arith)
            requires
                0 <= per_leaf <= 0x2000_0000,
                0 <= count <= 0x1_0000_0000,
        ;
    }
    let parents: u64 = (leaf_count - two_pow(cap_height)) as u64;
    per_leaf * count + parents >= MIN_GPU_PERMUTATIONS
}

/// Whether a number is a power of two.
pub fn check_power_of_two(n: usize) -> (r: bool)
    ensures
        r == is_power_of_two(n as nat),
{
    if n == 0 {
        proof {
            assert forall|k: nat| #[trigger] pow2(k) != 0 by {
                lemma_pow2_pos(k);
            }
        }
        return false;
    }
    let mut rest: usize = n;
    let ghost mut k: nat = 0;
    proof {
        lemma_pow2_basics();
    }
    while rest % 2 == 0
        invariant
            rest > 0,
            n == rest * pow2(k),
        decreases rest,
    {
        proof {
            lemma_pow2_double(k);
            let (a, b, c) = (rest as int, (rest / 2) as int, pow2(k) as int);
            assert(a * c == b * (2 * c)) by (nonlinear_arith)
                requires
                    a == 2 * b,
            ;
            k = k + 1;
        }
        rest = rest / 2;
    }
    proof {
        if rest == 1 {
            assert(pow2(k) == n);
        } else {
            assert forall|j: nat| #[trigger] pow2(j) != n by {
                if pow2(j) == n {
                    lemma_odd_part(j, k, rest as nat);
                }
            }
        }
    }
    rest == 1
}

proof fn lemma_odd_part(j: nat, k: nat, odd: nat)
    requires
        odd % 2 == 1,
        pow2(j) == odd * pow2(k),
    ensures
        odd == 1,
    decreases k,
{
    lemma_pow2_pos(k);
    if k == 0 {
        lemma_pow2_basics();
        assert(odd * 1 == odd);
        if j > 0 {
            lemma_pow2_double((j - 1) as nat);
        }
    } else {
        lemma_pow2_double((k - 1) as nat);
        let c = pow2((k - 1) as nat);
        assert(odd * (2 * c) == 2 * (odd * c)) by (nonlinear_arith);
        if j == 0 {
            lemma_pow2_basics();
        } else {
            lemma_pow2_double((j - 1) as nat);
            lemma_odd_part((j - 1) as nat, (k - 1) as nat, odd);
        }
    }
}

/// Where level `l` of a tree over `2^log_leaves` leaves starts among the words of all levels, the
/// leaves first.
pub open spec fn level_offset(log_leaves: nat, l: nat) -> int {
    8 * (pow2(log_leaves) - pow2((log_leaves - l) as nat))
}

/// The run that computes level `l` from the level below it.
pub open spec fn parent_run(log_leaves: nat, l: nat) -> Dispatch {
    Dispatch::HashParents {
        child_offset: (8 * level_offset(log_leaves, (l - 1) as nat)) as usize,
        parent_offset: (8 * level_offset(log_leaves, l)) as usize,
        parent_count: pow2((log_leaves - l) as nat) as u32,
        threads: pow2((log_leaves - l) as nat) as usize,
    }
}

/// The runs that compute the levels above the leaves, up to the cap.
pub open spec fn parent_runs(log_leaves: nat, cap_height: nat) -> Seq<Dispatch> {
    Seq::new((log_leaves - cap_height) as nat, |i: int| parent_run(log_leaves, (i + 1) as nat))
}

/// Where the levels start.
pub open spec fn level_offsets_of(log_leaves: nat, cap_height: nat) -> Seq<usize> {
    Seq::new(
        (log_leaves - cap_height + 1) as nat,
        |l: int| level_offset(log_leaves, l as nat) as usize,
    )
}

/// The number of words of all levels.
pub open spec fn output_words(log_leaves: nat, cap_height: nat) -> int {
    4 * (2 * pow2(log_leaves) - pow2(cap_height))
}

/// The levels of a tree follow one another, and fit.
pub proof fn lemma_level_offset(log_leaves: nat, cap_height: nat, l: nat)
    requires
        cap_height <= log_leaves,
        l <= log_leaves - cap_height,
    ensures
        0 <= level_offset(log_leaves, l),
        level_offset(log_leaves, l) + 4 * pow2((log_leaves - l) as nat) <= output_words(
            log_leaves,
            cap_height,
        ),
        l < log_leaves - cap_height ==> level_offset(log_leaves, l + 1) == level_offset(
            log_leaves,
            l,
        ) + 4 * pow2((log_leaves - l) as nat),
        l < log_leaves - cap_height ==> pow2((log_leaves - l) as nat) == 2 * pow2(
            (log_leaves - l - 1) as nat,
        ),
        level_offset(log_leaves, 0) == 0,
{
    lemma_pow2_mono((log_leaves - l) as nat, log_leaves);
    lemma_pow2_mono(cap_height, (log_leaves - l) as nat);
    if l < log_leaves - cap_height {
        lemma_pow2_double((log_leaves - l - 1) as nat);
        assert((log_leaves - (l + 1)) as nat == (log_leaves - l - 1) as nat);
    }
}

/// Adds the runs that compute the levels above the leaves. Returns where the levels start.
pub fn add_parent_runs(dispatches: &mut Vec<Dispatch>, leaf_count: usize, cap_height: usize) -> (r:
    Vec<usize>)
    requires
        is_power_of_two(leaf_count as nat),
        cap_height <= log2(leaf_count as nat),
        leaf_count <= u32::MAX,
        8 * output_words(log2(leaf_count as nat), cap_height as nat) <= usize::MAX,
    ensures
        final(dispatches)@ == old(dispatches)@ + parent_runs(
            log2(leaf_count as nat),
            cap_height as nat,
        ),
        r@ == level_offsets_of(log2(leaf_count as nat), cap_height as nat),
{
    let ghost log_leaves = log2(leaf_count as nat);
    let ghost before = dispatches@;
    let ghost levels = (log_leaves - cap_height) as nat;
    proof {
        lemma_pow2_mono(cap_height as nat, log_leaves);
        lemma_level_offset(log_leaves, cap_height as nat, 0);
    }
    let cap_count: usize = two_pow(cap_height);
    let mut level_offsets: Vec<usize> = Vec::new();
    let mut offset: usize = 0;
    let mut child_count: usize = leaf_count;
    level_offsets.push(offset);
    let ghost mut l: nat = 0;
    assert(dispatches@ =~= before + parent_runs(log_leaves, cap_height as nat).take(0));
    while child_count > cap_count
        invariant
            l <= levels,
            levels == log_leaves - cap_height,
            cap_height <= log_leaves,
            leaf_count <= u32::MAX,
            leaf_count == pow2(log_leaves),
            cap_count == pow2(cap_height as nat),
            8 * output_words(log_leaves, cap_height as nat) <= usize::MAX,
            child_count == pow2((log_leaves - l) as nat),
            offset == level_offset(log_leaves, l),
            level_offsets@.len() == l + 1,
            forall|i: int|
                0 <= i <= l ==> #[trigger] level_offsets@[i] == level_offset(
                    log_leaves,
                    i as nat,
                ),
            dispatches@ == before + parent_runs(log_leaves, cap_height as nat).take(l as int),
        decreases child_count,
    {
        proof {
            if l == levels {
                assert(child_count == cap_count);
            }
            lemma_level_offset(log_leaves, cap_height as nat, l);
            lemma_level_offset(log_leaves, cap_height as nat, l + 1);
            lemma_pow2_pos((log_leaves - l - 1) as nat);
            lemma_pow2_mono((log_leaves - l) as nat, log_leaves);
        }
        let parent_count: usize = child_count / 2;
        let child_offset: usize = offset;
        offset = offset + child_count * 4;
        level_offsets.push(offset);
        dispatches.push(
            Dispatch::HashParents {
                child_offset: child_offset * WORD_BYTES,
                parent_offset: offset * WORD_BYTES,
                parent_count: parent_count as u32,
                threads: parent_count,
            },
        );
        child_count = parent_count;
        proof {
            l = l + 1;
            assert((log_leaves - l) as nat == (log_leaves - (l - 1) - 1) as nat);
            assert(dispatches@ =~= before + parent_runs(log_leaves, cap_height as nat).take(
                l as int,
            ));
        }
    }
    proof {
        if l < levels {
            lemma_level_offset(log_leaves, cap_height as nat, l);
            lemma_pow2_mono(cap_height as nat, (log_leaves - l - 1) as nat);
            lemma_pow2_pos((log_leaves - l - 1) as nat);
            assert(false);
        }
        assert(parent_runs(log_leaves, cap_height as nat).take(l as int) =~= parent_runs(
            log_leaves,
            cap_height as nat,
        ));
        assert forall|i: int| 0 <= i < level_offsets@.len() implies level_offsets@[i]
            == #[trigger] level_offsets_of(log_leaves, cap_height as nat)[i] by {
            lemma_level_offset(log_leaves, cap_height as nat, i as nat);
            assert(level_offsets@[i] == level_offset(log_leaves, i as nat));
        }
        assert(level_offsets@ =~= level_offsets_of(log_leaves, cap_height as nat));
    }
    level_offsets
}

} // verus!
