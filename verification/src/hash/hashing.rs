//! The sponge construction over the permutation.

use crate::field::goldilocks_field::GoldilocksField;
use crate::field::model::{Elt, elt0};
use crate::field::types::{Field, vals};
use crate::gates::value::GateValue;
use crate::hash::hash_types::{GenericHashOut, HashOut};
use crate::hash::poseidon2::config::RATE;
use crate::hash::poseidon2::layers::{at_point, external_layer};
use crate::hash::poseidon2::permutation::{Poseidon2, external_rounds, internal_rounds, permutation};
use crate::hash::sponge_laws::{lemma_compressed_state, lemma_sponge_by_blocks, lemma_sponge_prefix};
use vstd::prelude::*;

verus! {

/// The state of a permutation over some kind of element.
#[derive(Debug)]
pub struct Poseidon2Permutation<T: Copy> {
    pub state: [T; 12],
}

impl<T: Copy> Clone for Poseidon2Permutation<T> {
    fn clone(&self) -> (r: Self)
        ensures
            r == *self,
    {
        *self
    }
}

impl<T: Copy> Copy for Poseidon2Permutation<T> {

}

/// A state with its elements from `start` on replaced by those of `elts`, as far as they fit.
pub open spec fn overwritten<T>(state: Seq<T>, elts: Seq<T>, start: int) -> Seq<T> {
    Seq::new(
        state.len(),
        |i: int|
            if start <= i < start + elts.len() {
                elts[i - start]
            } else {
                state[i]
            },
    )
}

impl<T: Copy> Poseidon2Permutation<T> {
    /// Replaces one element.
    pub fn set_elt(&mut self, elt: T, idx: usize)
        requires
            idx < 12,
        ensures
            final(self).state@ == old(self).state@.update(idx as int, elt),
    {
        self.state[idx] = elt;
    }

    /// Replaces the elements from `start_idx` on, as far as the given ones fit.
    pub fn set_from_iter(&mut self, elts: &[T], start_idx: usize)
        requires
            start_idx <= 12,
        ensures
            final(self).state@ == overwritten(old(self).state@, elts@, start_idx as int),
    {
        let ghost before = self.state@;
        let mut i: usize = 0;
        while i < elts.len() && start_idx + i < 12
            invariant
                start_idx <= 12,
                i <= elts@.len(),
                start_idx + i <= 12,
                self.state@ == overwritten(before, elts@.take(i as int), start_idx as int),
            decreases elts@.len() - i,
        {
            self.state[start_idx + i] = elts[i];
            i = i + 1;
            assert(self.state@ =~= overwritten(before, elts@.take(i as int), start_idx as int));
        }
        assert(self.state@ =~= overwritten(before, elts@, start_idx as int));
    }

    /// Replaces the elements from `start_idx` on by the given ones, which have to fit.
    pub fn set_from_slice(&mut self, elts: &[T], start_idx: usize)
        requires
            start_idx + elts@.len() <= 12,
        ensures
            final(self).state@ == overwritten(old(self).state@, elts@, start_idx as int),
    {
        self.set_from_iter(elts, start_idx);
    }

    /// The elements that are squeezed out.
    pub fn squeeze(&self) -> (r: Vec<T>)
        ensures
            r@ == self.state@.take(8),
    {
        let mut r: Vec<T> = Vec::with_capacity(RATE);
        while r.len() < RATE
            invariant
                r@.len() <= 8,
                r@ == self.state@.take(r@.len() as int),
            decreases 8 - r@.len(),
        {
            let i: usize = r.len();
            r.push(self.state[i]);
            assert(r@ =~= self.state@.take(r@.len() as int));
        }
        r
    }
}

impl Poseidon2Permutation<GoldilocksField> {
    /// The state with the given elements first, and zeros after them.
    pub fn new(elts: &[GoldilocksField]) -> (r: Self)
        ensures
            r.state@ == overwritten(zero_words(), elts@, 0),
    {
        let mut perm = Poseidon2Permutation { state: [GoldilocksField(0); 12] };
        assert(perm.state@ =~= zero_words());
        perm.set_from_iter(elts, 0);
        perm
    }

    /// Applies the permutation.
    pub fn permute(&mut self)
        ensures
            vals(final(self).state@) == permutation(vals(old(self).state@)),
    {
        let ghost before = self.state@;
        let after = GoldilocksField::poseidon2(self.state);
        proof {
            assert(GoldilocksField::points() == 1);
            assert(at_point(after@, 0) == permutation(at_point(before, 0)));
            assert(at_point(after@, 0) =~= vals(after@));
            assert(at_point(before, 0) =~= vals(before));
        }
        self.state = after;
    }
}

/// Twelve zeros.
pub open spec fn zero_words() -> Seq<GoldilocksField> {
    Seq::new(12, |i: int| GoldilocksField(0))
}

/// Twelve zeros.
pub open spec fn zero_state() -> Seq<Elt> {
    Seq::new(12, |i: int| elt0())
}

/// The state after the inputs have been absorbed, eight at a time.
pub open spec fn absorbed(state: Seq<Elt>, inputs: Seq<Elt>) -> Seq<Elt>
    decreases inputs.len(),
{
    if inputs.len() == 0 {
        state
    } else if inputs.len() <= 8 {
        permutation(overwritten(state, inputs, 0))
    } else {
        absorbed(permutation(overwritten(state, inputs.take(8), 0)), inputs.skip(8))
    }
}

/// The outputs that a state gives, eight at a time.
pub open spec fn squeezed(state: Seq<Elt>, n: nat) -> Seq<Elt>
    decreases n,
{
    if n <= 8 {
        state.take(n as int)
    } else {
        state.take(8) + squeezed(permutation(state), (n - 8) as nat)
    }
}

/// The hash of a sequence of elements to `n` elements.
pub open spec fn sponge(inputs: Seq<Elt>, n: nat) -> Seq<Elt> {
    squeezed(absorbed(zero_state(), inputs), n)
}

/// The hash of two digests.
pub open spec fn compressed(left: Seq<Elt>, right: Seq<Elt>) -> Seq<Elt> {
    permutation(overwritten(overwritten(zero_state(), left, 0), right, 4)).take(4)
}

/// Words overwritten stand for elements overwritten.
pub proof fn lemma_overwritten_vals(state: Seq<GoldilocksField>, elts: Seq<GoldilocksField>, start: int)
    requires
        0 <= start,
        start + elts.len() <= state.len(),
    ensures
        vals(overwritten(state, elts, start)) == overwritten(vals(state), vals(elts), start),
{
    assert(vals(overwritten(state, elts, start)) =~= overwritten(vals(state), vals(elts), start));
}

/// The words of the first state stand for zeros.
pub proof fn lemma_zero_state()
    ensures
        vals(zero_words()) == zero_state(),
{
    assert forall|i: int| 0 <= i < 12 implies #[trigger] vals(zero_words())[i] == zero_state()[i] by {
        GoldilocksField::lemma_values(GoldilocksField(0));
    }
    assert(vals(zero_words()) =~= zero_state());
}

/// A part of a slice.
fn copy_range(v: &[GoldilocksField], start: usize, end: usize) -> (r: Vec<GoldilocksField>)
    requires
        start <= end <= v@.len(),
    ensures
        r@ == v@.subrange(start as int, end as int),
{
    let mut r: Vec<GoldilocksField> = Vec::with_capacity(end - start);
    let mut i: usize = start;
    while i < end
        invariant
            start <= i <= end <= v@.len(),
            r@ == v@.subrange(start as int, i as int),
        decreases end - i,
    {
        r.push(v[i]);
        i = i + 1;
        assert(r@ =~= v@.subrange(start as int, i as int));
    }
    r
}

/// Hashes a sequence of elements to `num_outputs` elements, without padding.
pub fn hash_n_to_m_no_pad(inputs: &[GoldilocksField], num_outputs: usize) -> (r: Vec<
    GoldilocksField,
>)
    requires
        num_outputs > 0,
    ensures
        vals(r@) == sponge(vals(inputs@), num_outputs as nat),
        r@.len() == num_outputs,
        forall|k: int|
            0 <= 8 * k <= inputs@.len() ==> vals(r@) == squeezed(
                absorbed(
                    #[trigger] absorbed(zero_state(), vals(inputs@).take(8 * k)),
                    vals(inputs@).skip(8 * k),
                ),
                num_outputs as nat,
            ),
{
    let n: usize = inputs.len();
    let mut perm = Poseidon2Permutation::new(&[]);
    proof {
        lemma_zero_state();
        assert(perm.state@ =~= zero_words());
        assert(vals(inputs@).skip(0) =~= vals(inputs@));
    }
    let ghost all = vals(inputs@);
    let mut i: usize = 0;
    while i < n
        invariant
            i <= n == inputs@.len(),
            all == vals(inputs@),
            absorbed(zero_state(), all) == absorbed(vals(perm.state@), all.skip(i as int)),
        decreases n - i,
    {
        let end: usize = if n - i > RATE {
            i + RATE
        } else {
            n
        };
        let chunk = copy_range(inputs, i, end);
        let ghost state0 = perm.state@;
        let ghost rest = all.skip(i as int);
        perm.set_from_slice(chunk.as_slice(), 0);
        proof {
            lemma_overwritten_vals(state0, chunk@, 0);
            if rest.len() <= 8 {
                assert(vals(chunk@) =~= rest);
            } else {
                assert(vals(chunk@) =~= rest.take(8));
                assert(rest.skip(8) =~= all.skip(end as int));
            }
        }
        perm.permute();
        i = end;
    }
    proof {
        assert(all.skip(n as int).len() == 0);
    }
    let mut outputs: Vec<GoldilocksField> = Vec::with_capacity(num_outputs);
    let ghost total = sponge(all, num_outputs as nat);
    proof {
        assert(vals(outputs@) + squeezed(vals(perm.state@), num_outputs as nat) =~= total);
    }
    while num_outputs - outputs.len() > RATE
        invariant
            outputs@.len() < num_outputs,
            vals(outputs@) + squeezed(
                vals(perm.state@),
                (num_outputs - outputs@.len()) as nat,
            ) == total,
        decreases num_outputs - outputs@.len(),
    {
        let ghost before = outputs@;
        let ghost state0 = perm.state@;
        let part = perm.squeeze();
        append_all(&mut outputs, &part);
        perm.permute();
        proof {
            assert(vals(outputs@) =~= vals(before) + vals(state0).take(8));
            assert(vals(outputs@) + squeezed(
                vals(perm.state@),
                (num_outputs - outputs@.len()) as nat,
            ) =~= vals(before) + (vals(state0).take(8) + squeezed(
                vals(perm.state@),
                (num_outputs - before.len() - 8) as nat,
            )));
        }
    }
    let ghost before = outputs@;
    let rest: usize = num_outputs - outputs.len();
    let part = copy_range(perm.squeeze().as_slice(), 0, rest);
    append_all(&mut outputs, &part);
    proof {
        assert(vals(outputs@) =~= vals(before) + vals(perm.state@).take(rest as int));
        assert forall|k: int| 0 <= 8 * k <= inputs@.len() implies vals(outputs@) == squeezed(
            absorbed(
                #[trigger] absorbed(zero_state(), vals(inputs@).take(8 * k)),
                vals(inputs@).skip(8 * k),
            ),
            num_outputs as nat,
        ) by {
            let (a, b) = (vals(inputs@).take(8 * k), vals(inputs@).skip(8 * k));
            assert(a + b =~= vals(inputs@));
            lemma_sponge_by_blocks(a, b, num_outputs as nat);
        }
        lemma_sponge_prefix(vals(inputs@), 0, num_outputs as nat);
        assert(vals(outputs@).len() == outputs@.len());
    }
    outputs
}

/// Appends a copy of a vector.
fn append_all(v: &mut Vec<GoldilocksField>, tail: &Vec<GoldilocksField>)
    ensures
        final(v)@ == old(v)@ + tail@,
{
    let ghost before = v@;
    let mut i: usize = 0;
    assert(v@ =~= before + tail@.take(0));
    while i < tail.len()
        invariant
            i <= tail@.len(),
            v@ == before + tail@.take(i as int),
        decreases tail@.len() - i,
    {
        v.push(tail[i]);
        i = i + 1;
        assert(v@ =~= before + tail@.take(i as int));
    }
    assert(tail@.take(i as int) =~= tail@);
}

/// Hashes a sequence of elements to a digest, without padding.
pub fn hash_n_to_hash_no_pad(inputs: &[GoldilocksField]) -> (r: HashOut)
    ensures
        r.digest() == sponge(vals(inputs@), 4),
{
    let v = hash_n_to_m_no_pad(inputs, 4);
    proof {
        assert(vals(v@).len() == 4) by {
            lemma_absorbed_len(zero_state(), vals(inputs@));
        }
    }
    let r = HashOut { elements: [v[0], v[1], v[2], v[3]] };
    assert(r.digest() =~= vals(v@));
    r
}

proof fn lemma_external_len(s: Seq<Elt>, a: nat, b: nat)
    requires
        s.len() == 12,
    ensures
        external_rounds(s, a, b).len() == 12,
    decreases b,
{
    if b > a {
        lemma_external_len(s, a, (b - 1) as nat);
    }
}

/// The permutation keeps the width of a state.
pub proof fn lemma_permutation_len(s: Seq<Elt>)
    ensures
        permutation(s).len() == 12,
{
    let s1 = external_rounds(external_layer(s), 0, 4);
    lemma_external_len(external_layer(s), 0, 4);
    lemma_internal_len(s1, 22);
    lemma_external_len(internal_rounds(s1, 22), 4, 8);
}

proof fn lemma_internal_len(s: Seq<Elt>, n: nat)
    requires
        s.len() == 12,
    ensures
        internal_rounds(s, n).len() == 12,
    decreases n,
{
    if n > 0 {
        lemma_internal_len(s, (n - 1) as nat);
    }
}

/// Absorbing keeps the width of a state.
pub proof fn lemma_absorbed_len(state: Seq<Elt>, inputs: Seq<Elt>)
    requires
        state.len() == 12,
    ensures
        absorbed(state, inputs).len() == 12,
    decreases inputs.len(),
{
    if inputs.len() == 0 {
    } else if inputs.len() <= 8 {
        lemma_permutation_len(overwritten(state, inputs, 0));
    } else {
        let s = permutation(overwritten(state, inputs.take(8), 0));
        lemma_permutation_len(overwritten(state, inputs.take(8), 0));
        lemma_absorbed_len(s, inputs.skip(8));
    }
}

/// Hashes two digests to one.
pub fn compress(x: HashOut, y: HashOut) -> (r: HashOut)
    ensures
        r.digest() == compressed(x.digest(), y.digest()),
        r.digest() == permutation(
            x.digest() + y.digest() + seq![elt0(), elt0(), elt0(), elt0()],
        ).take(4),
{
    let mut perm = Poseidon2Permutation::new(&[]);
    proof {
        lemma_zero_state();
        assert(perm.state@ =~= zero_words());
    }
    let ghost s0 = perm.state@;
    perm.set_from_slice(x.elements.as_slice(), 0);
    let ghost s1 = perm.state@;
    perm.set_from_slice(y.elements.as_slice(), 4);
    proof {
        lemma_overwritten_vals(s0, x.elements@, 0);
        lemma_overwritten_vals(s1, y.elements@, 4);
    }
    perm.permute();
    let out = perm.squeeze();
    let r = HashOut { elements: [out[0], out[1], out[2], out[3]] };
    proof {
        assert(r.digest() =~= vals(perm.state@).take(4));
        lemma_compressed_state(x.digest(), y.digest());
    }
    r
}

} // verus!
