//! Hashing configuration: hash functions for Merkle trees and the sponge.

use crate::field::dft::idft;
use crate::field::extension::QuadraticExtension;
use crate::field::goldilocks_field::GoldilocksField;
use crate::field::model::{Elt, elt0, elt1};
use crate::field::types::{Field, vals};
use crate::fri::lde::{lde_of, lde_ready};
use crate::hash::columns::ColumnStore;
use crate::hash::hash_types::{GenericHashOut, HashOut, element_bytes, lemma_element_bytes_len};
use crate::hash::merkle_model::is_tree;
use crate::hash::poseidon2::hash::Poseidon2Hash;
use crate::iop::target::{BoolTarget, Target};
use crate::plonk::circuit_builder::{Assignment, CircuitBuilder};
use crate::plonk::routing::{extended, satisfied};
use crate::util::bits::{is_power_of_two, log2};
use crate::util::bytes::write_u64;
use vstd::arithmetic::power2::pow2;
use vstd::prelude::*;

verus! {

/// The `pad10*1` rule: a one, as few zeros as fill up the last block, and a one.
pub open spec fn pad_message(input: Seq<Elt>, rate: nat) -> Seq<Elt> {
    let open = (input.len() + 2) as int % rate as int;
    let zeros = if open == 0 {
        0
    } else {
        rate - open
    };
    input + seq![elt1()] + Seq::new(zeros as nat, |i: int| elt0()) + seq![elt1()]
}

/// Padding fills up the last block, and different messages stay different.
pub proof fn lemma_padding_is_injective(a: Seq<Elt>, b: Seq<Elt>, rate: nat)
    requires
        rate > 1,
    ensures
        pad_message(a, rate).len() as int % rate as int == 0,
        pad_message(a, rate) == pad_message(b, rate) ==> a == b,
{
    lemma_padded_len(a, rate);
    lemma_padded_len(b, rate);
    let (p, q) = (pad_message(a, rate), pad_message(b, rate));
    if p == q {
        if a.len() < b.len() {
            assert(p[b.len() as int] == elt0());
            assert(q[b.len() as int] == elt1());
        } else if b.len() < a.len() {
            assert(q[a.len() as int] == elt0());
            assert(p[a.len() as int] == elt1());
        }
        assert forall|i: int| 0 <= i < a.len() implies a[i] == #[trigger] b[i] by {
            assert(p[i] == a[i] && q[i] == b[i]);
        }
        assert(a =~= b);
    }
}

proof fn lemma_padded_len(a: Seq<Elt>, rate: nat)
    requires
        rate > 1,
    ensures
        pad_message(a, rate).len() as int % rate as int == 0,
        pad_message(a, rate).len() >= a.len() + 2,
{
    let n = a.len() + 2;
    let m = n as int % rate as int;
    let zeros = if m == 0 {
        0
    } else {
        rate - m
    };
    vstd::arithmetic::div_mod::lemma_mod_bound(n as int, rate as int);
    lemma_padding(n as int, zeros, rate as int);
    assert(pad_message(a, rate).len() == n + zeros);
}

/// The bytes of a short input, filled up with zeros.
pub open spec fn noop_bytes(input: Seq<Elt>, size: nat) -> Seq<u8> {
    element_bytes(input, input.len()) + Seq::new(
        (size - 8 * input.len()) as nat,
        |i: int| 0u8,
    )
}

/// The digests of rows of `width` elements.
pub open spec fn row_digests(
    leaf: spec_fn(Seq<Elt>) -> Seq<Elt>,
    rows: Seq<GoldilocksField>,
    width: int,
    n: nat,
) -> Seq<Seq<Elt>> {
    Seq::new(n, |i: int| leaf(vals(rows.subrange(i * width, i * width + width))))
}

/// The digests of the leaves of a column store.
pub open spec fn column_digests(
    leaf: spec_fn(Seq<Elt>) -> Seq<Elt>,
    columns: ColumnStore<GoldilocksField>,
) -> Seq<Seq<Elt>> {
    Seq::new(
        columns.height(),
        |i: int| leaf(vals(columns.leaf(i, log2(columns.height())))),
    )
}

/// Trait for hash functions.
pub trait Hasher: Copy {
    /// Hash output.
    type Hash: GenericHashOut;

    /// The number of elements that the permutation absorbs at a time.
    spec fn rate() -> nat;

    /// The digest of a message, without padding.
    spec fn hash_spec(input: Seq<Elt>) -> Seq<Elt>;

    /// The digest of two digests.
    spec fn two_spec(left: Seq<Elt>, right: Seq<Elt>) -> Seq<Elt>;

    /// The digest of a leaf.
    spec fn leaf_spec(input: Seq<Elt>) -> Seq<Elt>;

    /// The digest of a leaf is its own bytes where they fit, and its hash otherwise.
    proof fn lemma_leaf(input: Seq<Elt>)
        ensures
            Self::leaf_spec(input) == ({
                let size = <Self::Hash as GenericHashOut>::byte_len();
                if 8 * input.len() <= size {
                    <Self::Hash as GenericHashOut>::parsed(noop_bytes(input, size))
                } else {
                    Self::hash_spec(input)
                }
            }),
    ;

    /// The number of elements that the permutation absorbs at a time.
    fn absorb_rate() -> (r: usize)
        ensures
            r == Self::rate(),
            r > 1,
    ;

    /// The size of a digest in bytes.
    fn hash_size() -> (r: usize)
        ensures
            r == <Self::Hash as GenericHashOut>::byte_len(),
    ;

    /// Hash a message without any padding step.
    fn hash_no_pad(input: &[GoldilocksField]) -> (r: Self::Hash)
        ensures
            r.digest() == Self::hash_spec(vals(input@)),
    ;

    /// Hash two digests to one.
    fn two_to_one(left: Self::Hash, right: Self::Hash) -> (r: Self::Hash)
        ensures
            r.digest() == Self::two_spec(left.digest(), right.digest()),
    ;

    /// Pad the message using the `pad10*1` rule, then hash it.
    fn hash_pad(input: &[GoldilocksField]) -> (r: Self::Hash)
        requires
            input@.len() + Self::rate() + 2 <= usize::MAX,
        ensures
            r.digest() == Self::hash_spec(pad_message(vals(input@), Self::rate())),
    {
        let rate: usize = Self::absorb_rate();
        let mut message: Vec<GoldilocksField> = Vec::new();
        let mut i: usize = 0;
        while i < input.len()
            invariant
                i <= input@.len(),
                message@ == input@.take(i as int),
            decreases input@.len() - i,
        {
            message.push(input[i]);
            i = i + 1;
            assert(message@ =~= input@.take(i as int));
        }
        let ghost n = input@.len() as int;
        message.push(GoldilocksField(1));
        let ghost mut zeros: nat = 0;
        let ghost open = (n + 2) % (rate as int);
        let ghost target = pad_message(vals(input@), rate as nat).len() as int;
        proof {
            assert(message@ =~= input@ + seq![GoldilocksField(1)] + Seq::new(
                0,
                |k: int| GoldilocksField(0),
            ));
        }
        while (message.len() + 1) % rate != 0
            invariant
                rate == Self::rate(),
                rate > 1,
                n == input@.len(),
                n + rate + 2 <= usize::MAX,
                message@.len() == n + 1 + zeros,
                open == (n + 2) % (rate as int),
                zeros == 0 || (open != 0 && zeros <= rate - open),
                message@ == input@ + seq![GoldilocksField(1)] + Seq::new(
                    zeros,
                    |k: int| GoldilocksField(0),
                ),
            decreases rate - zeros,
        {
            proof {
                lemma_padding(n + 2, zeros as int, rate as int);
            }
            message.push(GoldilocksField(0));
            proof {
                zeros = zeros + 1;
                assert(message@ =~= input@ + seq![GoldilocksField(1)] + Seq::new(
                    zeros,
                    |k: int| GoldilocksField(0),
                ));
            }
        }
        proof {
            lemma_padding(n + 2, zeros as int, rate as int);
        }
        message.push(GoldilocksField(1));
        proof {
            GoldilocksField::lemma_values(GoldilocksField(0));
            assert(GoldilocksField(1).v() == elt1());
            assert(GoldilocksField(0).v() == elt0());
            assert(vals(message@) =~= pad_message(vals(input@), rate as nat));
        }
        Self::hash_no_pad(message.as_slice())
    }

    /// Hash the slice if necessary to reduce its length to that of a digest. If it already fits,
    /// this is a no-op.
    fn hash_or_noop(inputs: &[GoldilocksField]) -> (r: Self::Hash)
        ensures
            r.digest() == Self::leaf_spec(vals(inputs@)),
    {
        let size: usize = Self::hash_size();
        proof {
            Self::lemma_leaf(vals(inputs@));
        }
        if inputs.len() <= size / 8 {
            let mut bytes: Vec<u8> = Vec::with_capacity(size);
            let mut i: usize = 0;
            while i < inputs.len()
                invariant
                    i <= inputs@.len(),
                    bytes@ == element_bytes(vals(inputs@), i as nat),
                decreases inputs@.len() - i,
            {
                let word: u64 = inputs[i].to_canonical_u64();
                write_u64(&mut bytes, word);
                i = i + 1;
            }
            let ghost head = bytes@;
            proof {
                lemma_element_bytes_len(vals(inputs@), inputs@.len());
                assert(bytes@ =~= head + Seq::new(0, |k: int| 0u8));
            }
            while bytes.len() < size
                invariant
                    head.len() <= bytes@.len() <= size,
                    bytes@ == head + Seq::new(
                        (bytes@.len() - head.len()) as nat,
                        |k: int| 0u8,
                    ),
                decreases size - bytes@.len(),
            {
                let ghost before = bytes@;
                bytes.push(0);
                assert(bytes@ =~= head + Seq::new(
                    (bytes@.len() - head.len()) as nat,
                    |k: int| 0u8,
                ));
            }
            proof {
                assert(bytes@ =~= noop_bytes(vals(inputs@), size as nat));
            }
            <Self::Hash as GenericHashOut>::from_bytes(bytes.as_slice())
        } else {
            Self::hash_no_pad(inputs)
        }
    }

    /// Hash two inputs; an implementation may interleave the two computations.
    fn hash_or_noop_pair(input_a: &[GoldilocksField], input_b: &[GoldilocksField]) -> (r: (
        Self::Hash,
        Self::Hash,
    ))
        ensures
            r.0.digest() == Self::leaf_spec(vals(input_a@)),
            r.1.digest() == Self::leaf_spec(vals(input_b@)),
    {
        (Self::hash_or_noop(input_a), Self::hash_or_noop(input_b))
    }

    /// Hash four inputs; an implementation may interleave the four computations.
    fn hash_or_noop_quad(
        input_a: &[GoldilocksField],
        input_b: &[GoldilocksField],
        input_c: &[GoldilocksField],
        input_d: &[GoldilocksField],
    ) -> (r: (Self::Hash, Self::Hash, Self::Hash, Self::Hash))
        ensures
            r.0.digest() == Self::leaf_spec(vals(input_a@)),
            r.1.digest() == Self::leaf_spec(vals(input_b@)),
            r.2.digest() == Self::leaf_spec(vals(input_c@)),
            r.3.digest() == Self::leaf_spec(vals(input_d@)),
    {
        (
            Self::hash_or_noop(input_a),
            Self::hash_or_noop(input_b),
            Self::hash_or_noop(input_c),
            Self::hash_or_noop(input_d),
        )
    }

    /// Two independent compressions; an implementation may interleave them.
    fn two_to_one_pair(x0: Self::Hash, y0: Self::Hash, x1: Self::Hash, y1: Self::Hash) -> (r: (
        Self::Hash,
        Self::Hash,
    ))
        ensures
            r.0.digest() == Self::two_spec(x0.digest(), y0.digest()),
            r.1.digest() == Self::two_spec(x1.digest(), y1.digest()),
    {
        (Self::two_to_one(x0, y0), Self::two_to_one(x1, y1))
    }

    /// Build the digests and the cap of a Merkle tree with a specialized backend, when available.
    ///
    /// `leaves` is one flat row-major buffer holding `num_leaves` leaves of `leaf_width` elements
    /// each.
    fn try_build_merkle_tree(
        leaves: &[GoldilocksField],
        leaf_width: usize,
        num_leaves: usize,
        cap_height: usize,
    ) -> (r: Option<(Vec<Self::Hash>, Vec<Self::Hash>)>)
        requires
            leaves@.len() == num_leaves * leaf_width,
            is_power_of_two(num_leaves as nat),
            cap_height <= log2(num_leaves as nat),
        ensures
            r matches Some((digests, cap)) ==> is_tree(
                |a: Seq<Elt>, b: Seq<Elt>| Self::two_spec(a, b),
                row_digests(
                    |x: Seq<Elt>| Self::leaf_spec(x),
                    leaves@,
                    leaf_width as int,
                    num_leaves as nat,
                ),
                cap_height as nat,
                digests@,
                cap@,
            ),
        default_ensures
            r is None,
    {
        None
    }

    /// Like [`Hasher::try_build_merkle_tree`], but the leaves arrive as natural-order columns: leaf
    /// `i` is entry `reverse_bits(i, log2(num_leaves))` of each column.
    fn try_build_merkle_tree_columns(
        columns: &Vec<Vec<GoldilocksField>>,
        cap_height: usize,
    ) -> (r: Option<(Vec<Self::Hash>, Vec<Self::Hash>)>)
        requires
            ColumnStore::Owned(*columns).rectangular(),
            is_power_of_two(ColumnStore::Owned(*columns).height()),
            cap_height <= log2(ColumnStore::Owned(*columns).height()),
        ensures
            r matches Some((digests, cap)) ==> is_tree(
                |a: Seq<Elt>, b: Seq<Elt>| Self::two_spec(a, b),
                column_digests(
                    |x: Seq<Elt>| Self::leaf_spec(x),
                    ColumnStore::Owned(*columns),
                ),
                cap_height as nat,
                digests@,
                cap@,
            ),
        default_ensures
            r is None,
    {
        None
    }

    /// Allocates retained column-major leaf storage suitable for a specialized backend. The caller
    /// may compute the columns directly in this storage before passing it to
    /// [`Hasher::try_build_merkle_tree_column_store`].
    fn try_allocate_merkle_tree_columns(
        num_columns: usize,
        num_rows: usize,
        cap_height: usize,
    ) -> (r: Option<ColumnStore<GoldilocksField>>)
        ensures
            r matches Some(columns) ==> columns.rectangular() && columns.width() == num_columns
                && columns.height() == num_rows,
        default_ensures
            r is None,
    {
        None
    }

    /// Like [`Hasher::try_build_merkle_tree_columns`], but accepts retained column storage
    /// allocated by [`Hasher::try_allocate_merkle_tree_columns`]. Unless an implementation says
    /// otherwise, columns of their own go to [`Hasher::try_build_merkle_tree_columns`], and what that
    /// returns is returned; a retained buffer is not taken.
    fn try_build_merkle_tree_column_store(
        columns: &ColumnStore<GoldilocksField>,
        cap_height: usize,
    ) -> (r: Option<(Vec<Self::Hash>, Vec<Self::Hash>)>)
        requires
            columns.rectangular(),
            is_power_of_two(columns.height()),
            cap_height <= log2(columns.height()),
        ensures
            r matches Some((digests, cap)) ==> is_tree(
                |a: Seq<Elt>, b: Seq<Elt>| Self::two_spec(a, b),
                column_digests(|x: Seq<Elt>| Self::leaf_spec(x), *columns),
                cap_height as nat,
                digests@,
                cap@,
            ),
        default_ensures
            match *columns {
                ColumnStore::Owned(owned) => call_ensures(
                    Self::try_build_merkle_tree_columns,
                    (&owned, cap_height),
                    r,
                ),
                ColumnStore::Shared(_) => r is None,
            },
    {
        match columns {
            ColumnStore::Owned(owned) => Self::try_build_merkle_tree_columns(owned, cap_height),
            ColumnStore::Shared(_) => None,
        }
    }

    /// Computes the low-degree extensions of the given coefficient columns and the Merkle tree
    /// over them in one pass, when a specialized backend is available. Returns the extensions, the
    /// digests and the cap.
    fn try_build_commitment_from_coeffs(
        coeff_columns: &Vec<&[GoldilocksField]>,
        rate_bits: usize,
        cap_height: usize,
    ) -> (r: Option<(ColumnStore<GoldilocksField>, Vec<Self::Hash>, Vec<Self::Hash>)>)
        requires
            equal_columns(slice_columns(coeff_columns@)),
            lde_ready(coeff_columns@[0]@.len(), rate_bits, None),
            cap_height <= log2(coeff_columns@[0]@.len()) + rate_bits,
        ensures
            r matches Some((columns, digests, cap)) ==> {
                &&& extends_columns(columns, column_values(slice_columns(coeff_columns@)), rate_bits)
                &&& is_tree(
                    |a: Seq<Elt>, b: Seq<Elt>| Self::two_spec(a, b),
                    column_digests(|x: Seq<Elt>| Self::leaf_spec(x), columns),
                    cap_height as nat,
                    digests@,
                    cap@,
                )
            },
        default_ensures
            r is None,
    {
        None
    }

    /// Like [`Hasher::try_build_commitment_from_coeffs`], but starting from values: the backend
    /// also performs the inverse transforms, and returns the coefficient columns.
    fn try_build_commitment_from_values(
        value_columns: &Vec<&[GoldilocksField]>,
        rate_bits: usize,
        cap_height: usize,
    ) -> (r: Option<
        (
            ColumnStore<GoldilocksField>,
            Vec<Self::Hash>,
            Vec<Self::Hash>,
            Vec<Vec<GoldilocksField>>,
        ),
    >)
        requires
            equal_columns(slice_columns(value_columns@)),
            lde_ready(value_columns@[0]@.len(), rate_bits, None),
            cap_height <= log2(value_columns@[0]@.len()) + rate_bits,
        ensures
            r matches Some((columns, digests, cap, coeffs)) ==> {
                &&& column_values(owned_columns(coeffs@)) == interpolated(
                    column_values(slice_columns(value_columns@)),
                )
                &&& extends_columns(columns, column_values(owned_columns(coeffs@)), rate_bits)
                &&& is_tree(
                    |a: Seq<Elt>, b: Seq<Elt>| Self::two_spec(a, b),
                    column_digests(|x: Seq<Elt>| Self::leaf_spec(x), columns),
                    cap_height as nat,
                    digests@,
                    cap@,
                )
            },
        default_ensures
            r is None,
    {
        None
    }
}

/// The words of borrowed columns.
pub open spec fn slice_columns(columns: Seq<&[GoldilocksField]>) -> Seq<Seq<GoldilocksField>> {
    Seq::new(columns.len(), |j: int| columns[j]@)
}

/// The words of owned columns.
pub open spec fn owned_columns(columns: Seq<Vec<GoldilocksField>>) -> Seq<Seq<GoldilocksField>> {
    Seq::new(columns.len(), |j: int| columns[j]@)
}

/// The elements of columns.
pub open spec fn column_values(columns: Seq<Seq<GoldilocksField>>) -> Seq<Seq<Elt>> {
    Seq::new(columns.len(), |j: int| vals(columns[j]))
}

/// There are columns, and all have the same length.
pub open spec fn equal_columns<A>(columns: Seq<Seq<A>>) -> bool {
    &&& columns.len() > 0
    &&& forall|j: int| 0 <= j < columns.len() ==> (#[trigger] columns[j]).len() == columns[0].len()
}

/// The coefficients of the polynomials with the given columns of values.
pub open spec fn interpolated(values: Seq<Seq<Elt>>) -> Seq<Seq<Elt>> {
    Seq::new(values.len(), |j: int| idft(values[j], log2(values[j].len())))
}

/// The columns of a store are the low-degree extensions of the given polynomials.
pub open spec fn extends_columns(
    columns: ColumnStore<GoldilocksField>,
    coeffs: Seq<Seq<Elt>>,
    rate_bits: usize,
) -> bool {
    &&& columns.rectangular()
    &&& columns.width() == coeffs.len()
    &&& columns.height() == coeffs[0].len() * pow2(rate_bits as nat)
    &&& forall|j: int|
        0 <= j < coeffs.len() ==> vals(#[trigger] columns.column(j)) == lde_of(
            coeffs[j],
            rate_bits as nat,
        )
}

/// The values of some targets.
pub open spec fn base_values(asg: Assignment, targets: Seq<Target>) -> Seq<Elt> {
    Seq::new(targets.len(), |i: int| (asg.base)(targets[i]))
}

/// Trait for algebraic hash functions, built from a permutation using the sponge construction.
pub trait AlgebraicHasher: Hasher<Hash = HashOut> {
    /// The state of the permutation in a circuit.
    type AlgebraicPermutation: Sized;

    /// The targets that hold the state.
    spec fn state_targets(state: Self::AlgebraicPermutation) -> Seq<Target>;

    /// The state after the permutation of the inputs, with two chunks of them swapped if the flag
    /// is one.
    spec fn permuted(inputs: Seq<Elt>, swap: Elt) -> Seq<Elt>;

    /// Circuit to conditionally swap two chunks of the inputs (useful in verifying Merkle proofs),
    /// then apply the permutation.
    fn permute_swapped(
        inputs: Self::AlgebraicPermutation,
        swap: BoolTarget,
        builder: &mut CircuitBuilder,
    ) -> (r: Self::AlgebraicPermutation)
        requires
            old(builder).base_wf(),
        ensures
            final(builder).base_wf(),
            extended(*old(builder), *final(builder)),
            final(builder).base_select_results == old(builder).base_select_results,
            forall|asg: Assignment| #[trigger]
                satisfied(*final(builder), asg) ==> {
                    &&& (asg.base)(swap.target) == elt0() || (asg.base)(swap.target) == elt1()
                    &&& base_values(asg, Self::state_targets(r)) == Self::permuted(
                        base_values(asg, Self::state_targets(inputs)),
                        (asg.base)(swap.target),
                    )
                },
    ;
}

/// Generic configuration trait.
pub trait GenericConfig<const D: usize>: Copy {
    /// Main field.
    type F: Field;

    /// Field extension of degree D of the main field.
    type FE: Field;

    /// Hash function used for building Merkle trees.
    type Hasher: Hasher;

    /// Algebraic hash function used for the challenger and hashing public inputs.
    type InnerHasher: AlgebraicHasher;
}

/// Configuration using Poseidon2 over the Goldilocks field.
#[derive(Debug, Copy, Clone, PartialEq, Eq)]
pub struct Poseidon2GoldilocksConfig;

impl GenericConfig<2> for Poseidon2GoldilocksConfig {
    type F = GoldilocksField;

    type FE = QuadraticExtension;

    type Hasher = Poseidon2Hash;

    type InnerHasher = Poseidon2Hash;
}

proof fn lemma_padding(n: int, zeros: int, rate: int)
    requires
        0 <= n,
        rate > 1,
        0 <= zeros,
        zeros == 0 || (n % rate != 0 && zeros <= rate - n % rate),
    ensures
        (n + zeros) % rate == 0 <==> zeros == (if n % rate == 0 {
            0
        } else {
            rate - n % rate
        }),
        (n + zeros) % rate != 0 ==> n % rate != 0 && zeros < rate - n % rate,
{
    let m = n % rate;
    vstd::arithmetic::div_mod::lemma_fundamental_div_mod(n, rate);
    vstd::arithmetic::div_mod::lemma_mod_bound(n, rate);
    let q = n / rate;
    vstd::arithmetic::div_mod::lemma_mod_multiples_vanish(q, m + zeros, rate);
    if m + zeros < rate {
        vstd::arithmetic::div_mod::lemma_small_mod((m + zeros) as nat, rate as nat);
    } else {
        vstd::arithmetic::div_mod::lemma_mod_self_0(rate);
    }
}

} // verus!
