//! What the sponge does with a message of any length, and what is permuted when two digests are
//! hashed.

use crate::field::model::{Elt, base, elt0, elt1, modulus};
use crate::hash::hash_types::{GenericHashOut, HashOut};
use crate::hash::hashing::{
    absorbed, compressed, lemma_absorbed_len, lemma_permutation_len, overwritten, sponge, squeezed,
    zero_state,
};
use crate::hash::poseidon2::hash::{Poseidon2Hash, folded};
use crate::hash::poseidon2::permutation::permutation;
use crate::plonk::config::{Hasher, lemma_padding_is_injective, pad_message};
use crate::util::bytes::from_le;
use vstd::prelude::*;

verus! {

/// The state that is permuted when two digests are hashed is the left one, the right one, and four
/// zeros, one after the other.
pub proof fn lemma_compressed_state(left: Seq<Elt>, right: Seq<Elt>)
    requires
        left.len() == 4,
        right.len() == 4,
    ensures
        compressed(left, right) == permutation(
            left + right + seq![elt0(), elt0(), elt0(), elt0()],
        ).take(4),
        compressed(left, right).len() == 4,
        Poseidon2Hash::two_spec(left, right) == compressed(left, right),
{
    assert(overwritten(overwritten(zero_state(), left, 0), right, 4) =~= left + right + seq![
        elt0(),
        elt0(),
        elt0(),
        elt0(),
    ]);
    lemma_permutation_len(left + right + seq![elt0(), elt0(), elt0(), elt0()]);
}

/// One block of a message is written over the start of the state, and the state is permuted. With
/// nothing to absorb, nothing is permuted.
pub proof fn lemma_absorbing_a_block(state: Seq<Elt>, block: Seq<Elt>)
    requires
        state.len() == 12,
        block.len() <= 8,
    ensures
        block.len() == 0 ==> absorbed(state, block) == state,
        block.len() > 0 ==> absorbed(state, block) == permutation(
            block + state.skip(block.len() as int),
        ),
{
    assert(overwritten(state, block, 0) =~= block + state.skip(block.len() as int));
}

/// Absorbing composes over blocks: after full blocks, the rest of a message of any length is
/// absorbed into the state that the full blocks leave.
pub proof fn lemma_absorbing_composes(state: Seq<Elt>, a: Seq<Elt>, b: Seq<Elt>)
    requires
        a.len() % 8 == 0,
    ensures
        absorbed(state, a + b) == absorbed(absorbed(state, a), b),
    decreases a.len(),
{
    if a.len() == 0 {
        assert(a + b =~= b);
    } else if a.len() == 8 {
        if b.len() == 0 {
            assert(a + b =~= a);
        } else {
            assert((a + b).take(8) =~= a);
            assert((a + b).skip(8) =~= b);
        }
    } else {
        let s = permutation(overwritten(state, a.take(8), 0));
        assert((a + b).take(8) =~= a.take(8));
        assert((a + b).skip(8) =~= a.skip(8) + b);
        lemma_absorbing_composes(s, a.skip(8), b);
    }
}

/// The hash of a message is what is squeezed from the state that its blocks lead to, whatever its
/// length: full blocks first, the rest after them.
pub proof fn lemma_sponge_by_blocks(a: Seq<Elt>, b: Seq<Elt>, n: nat)
    requires
        a.len() % 8 == 0,
    ensures
        sponge(a + b, n) == squeezed(absorbed(absorbed(zero_state(), a), b), n),
{
    lemma_absorbing_composes(zero_state(), a, b);
}

/// The last block of a message counts, at whatever length: it is written over the state that the
/// full blocks before it lead to, and that state is permuted once more before it is squeezed.
pub proof fn lemma_sponge_last_block(a: Seq<Elt>, last: Seq<Elt>, n: nat)
    requires
        a.len() % 8 == 0,
        0 < last.len() <= 8,
    ensures
        sponge(a + last, n) == squeezed(
            permutation(last + absorbed(zero_state(), a).skip(last.len() as int)),
            n,
        ),
{
    lemma_sponge_by_blocks(a, last, n);
    lemma_absorbed_len(zero_state(), a);
    lemma_absorbing_a_block(absorbed(zero_state(), a), last);
}

/// Squeezing gives as many elements as are asked for. The first eight are the first eight of the
/// state, and what follows is squeezed from the permuted state.
pub proof fn lemma_squeezing_composes(state: Seq<Elt>, n: nat)
    requires
        state.len() == 12,
    ensures
        squeezed(state, n).len() == n,
        squeezed(state, n + 8) == state.take(8) + squeezed(permutation(state), n),
        n <= 8 ==> squeezed(state, n) == state.take(n as int),
    decreases n,
{
    lemma_permutation_len(state);
    if n > 8 {
        lemma_squeezing_composes(permutation(state), (n - 8) as nat);
    }
    assert(squeezed(state, n + 8) =~= state.take(8) + squeezed(permutation(state), n));
}

/// A longer hash of a message starts with its shorter hashes.
pub proof fn lemma_sponge_prefix(inputs: Seq<Elt>, m: nat, n: nat)
    requires
        m <= n,
    ensures
        sponge(inputs, n).len() == n,
        sponge(inputs, n).take(m as int) == sponge(inputs, m),
{
    lemma_absorbed_len(zero_state(), inputs);
    lemma_squeezed_prefix(absorbed(zero_state(), inputs), m, n);
}

proof fn lemma_squeezed_prefix(state: Seq<Elt>, m: nat, n: nat)
    requires
        state.len() == 12,
        m <= n,
    ensures
        squeezed(state, n).len() == n,
        squeezed(state, n).take(m as int) == squeezed(state, m),
    decreases n,
{
    lemma_permutation_len(state);
    lemma_squeezing_composes(state, n);
    if n > 8 {
        let rest = squeezed(permutation(state), (n - 8) as nat);
        if m > 8 {
            lemma_squeezed_prefix(permutation(state), (m - 8) as nat, (n - 8) as nat);
            assert((state.take(8) + rest).take(m as int) =~= state.take(8) + rest.take(m - 8));
        } else {
            lemma_squeezing_composes(permutation(state), (n - 8) as nat);
            assert((state.take(8) + rest).take(m as int) =~= state.take(m as int));
        }
    } else {
        assert(state.take(n as int).take(m as int) =~= state.take(m as int));
    }
}

/// Hashing a sequence of digests to one, from the left: the digest of one is itself, and every
/// further one is hashed onto the digest of those before it.
pub proof fn lemma_folding_composes(a: Seq<HashOut>, b: HashOut)
    requires
        a.len() > 0,
    ensures
        folded(a.take(1), 1) == a[0].digest(),
        folded(a.push(b), a.len() + 1) == permutation(
            folded(a, a.len()) + b.digest() + seq![elt0(), elt0(), elt0(), elt0()],
        ).take(4),
{
    lemma_folded_same(a, a.push(b), a.len());
    lemma_folded_len(a, a.len());
    lemma_compressed_state(folded(a, a.len()), b.digest());
}

proof fn lemma_folded_same(a: Seq<HashOut>, b: Seq<HashOut>, n: nat)
    requires
        0 < n <= a.len(),
        n <= b.len(),
        forall|i: int| 0 <= i < n ==> a[i] == #[trigger] b[i],
    ensures
        folded(a, n) == folded(b, n),
    decreases n,
{
    if n > 1 {
        lemma_folded_same(a, b, (n - 1) as nat);
    }
    assert(a[n - 1] == b[n - 1]);
}

proof fn lemma_folded_len(a: Seq<HashOut>, n: nat)
    requires
        0 < n <= a.len(),
    ensures
        folded(a, n).len() == 4,
    decreases n,
{
    if n > 1 {
        lemma_folded_len(a, (n - 1) as nat);
        lemma_compressed_state(folded(a, (n - 1) as nat), a[n - 1].digest());
    }
}

/// A message that does not fit into a digest is hashed by the sponge, as a leaf of a tree and on its
/// own.
pub proof fn lemma_long_leaf(input: Seq<Elt>)
    requires
        input.len() > 4,
    ensures
        Poseidon2Hash::leaf_spec(input) == sponge(input, 4),
        Poseidon2Hash::hash_spec(input) == sponge(input, 4),
        Poseidon2Hash::rate() == 8,
        HashOut::byte_len() == 32,
{
    assert(Poseidon2Hash::rate() == 8);
    assert(HashOut::byte_len() == 32);
}

/// Padding keeps the message, then writes a one, as few zeros as fill up the last block, and a one.
pub proof fn lemma_padding_shape(input: Seq<Elt>, rate: nat)
    requires
        rate > 1,
    ensures
        ({
            let p = pad_message(input, rate);
            &&& p.len() as int % rate as int == 0
            &&& input.len() + 2 <= p.len() < input.len() + 2 + rate
            &&& p.take(input.len() as int) == input
            &&& p[input.len() as int] == elt1()
            &&& p.last() == elt1()
            &&& forall|i: int| input.len() < i < p.len() - 1 ==> #[trigger] p[i] == elt0()
        }),
{
    lemma_padding_is_injective(input, input, rate);
    let p = pad_message(input, rate);
    let open = (input.len() + 2) as int % rate as int;
    vstd::arithmetic::div_mod::lemma_mod_bound((input.len() + 2) as int, rate as int);
    assert(p.take(input.len() as int) =~= input);
}

/// Writing elements over a state at some place: what comes before them stays, they follow, as far as
/// they fit, and what is left of the state after them stays.
pub proof fn lemma_overwritten_parts<T>(state: Seq<T>, elts: Seq<T>, start: int)
    requires
        0 <= start <= state.len(),
    ensures
        ({
            let fit = if start + elts.len() <= state.len() {
                elts.len() as int
            } else {
                state.len() - start
            };
            overwritten(state, elts, start) == state.take(start) + elts.take(fit) + state.skip(
                start + fit,
            )
        }),
{
    let fit = if start + elts.len() <= state.len() {
        elts.len() as int
    } else {
        state.len() - start
    };
    assert(overwritten(state, elts, start) =~= state.take(start) + elts.take(fit) + state.skip(
        start + fit,
    ));
}

/// Bytes are read as a digest of four elements: each is congruent to the number that its eight bytes
/// stand for, canonical or not.
pub proof fn lemma_digest_of_bytes(bytes: Seq<u8>, i: int)
    requires
        bytes.len() == 32,
        0 <= i < 4,
    ensures
        HashOut::parsed(bytes).len() == 4,
        HashOut::parsed(bytes)[i].im == 0,
        0 <= HashOut::parsed(bytes)[i].re < modulus(),
        (from_le(bytes.subrange(8 * i, 8 * i + 8)) - HashOut::parsed(bytes)[i].re) % modulus() == 0,
{
    let n = from_le(bytes.subrange(8 * i, 8 * i + 8)) as int;
    let p = modulus();
    assert(HashOut::parsed(bytes)[i] == base(n));
    assert(HashOut::parsed(bytes).len() == 4);
    vstd::arithmetic::div_mod::lemma_mod_bound(n, p);
    vstd::arithmetic::div_mod::lemma_fundamental_div_mod(n, p);
    vstd::arithmetic::div_mod::lemma_mod_multiples_basic(n / p, p);
    assert(p * (n / p) == (n / p) * p) by (nonlinear_arith);
}

} // verus!
