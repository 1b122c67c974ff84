//! The challenger of an interactive protocol that is made non-interactive: it absorbs what the
//! prover sends, and challenges are squeezed out of it.

use crate::field::extension::QuadraticExtension;
use crate::field::goldilocks_field::GoldilocksField;
use crate::field::model::{Elt, base, lemma_reduced_self, reduced};
use crate::field::types::{Field, vals};
use crate::hash::hashing::{
    Poseidon2Permutation, lemma_overwritten_vals, lemma_zero_state, overwritten, zero_state,
    zero_words,
};
use crate::hash::merkle_tree::{MerkleCap, flat_elements};
use crate::hash::poseidon2::config::RATE;
use crate::hash::poseidon2::hash::Poseidon2Hash;
use crate::hash::poseidon2::permutation::permutation;
use vstd::prelude::*;

verus! {

/// What a challenger has absorbed and can still give out.
pub struct Transcript {
    /// The state of the sponge.
    pub state: Seq<Elt>,
    /// The elements that have not been absorbed yet.
    pub input: Seq<Elt>,
    /// The elements that can be given out as challenges, from the last to the first.
    pub output: Seq<Elt>,
}

impl Transcript {
    /// A block is absorbed as soon as it is full.
    pub open spec fn wf(self) -> bool {
        &&& self.state.len() == 12
        &&& self.input.len() < 8
        &&& self.output.len() <= 8
    }

    /// Absorbs the pending elements, and refills the outputs.
    pub open spec fn duplexed(self) -> Transcript {
        let state = permutation(overwritten(self.state, self.input, 0));
        Transcript { state, input: Seq::empty(), output: state.take(8) }
    }

    /// One more element. Outputs from before it are discarded.
    pub open spec fn observed(self, x: Elt) -> Transcript {
        let t = Transcript { state: self.state, input: self.input.push(x), output: Seq::empty() };
        if t.input.len() == 8 {
            t.duplexed()
        } else {
            t
        }
    }

    /// The first `n` of some more elements.
    pub open spec fn observed_to(self, xs: Seq<Elt>, n: nat) -> Transcript
        decreases n,
    {
        if n == 0 {
            self
        } else {
            self.observed_to(xs, (n - 1) as nat).observed(xs[n - 1])
        }
    }

    /// Some more elements.
    #[verifier::opaque]
    pub open spec fn observed_all(self, xs: Seq<Elt>) -> Transcript {
        self.observed_to(xs, xs.len())
    }

    /// The transcript that the next challenge is taken from.
    pub open spec fn ready(self) -> Transcript {
        if self.input.len() > 0 || self.output.len() == 0 {
            self.duplexed()
        } else {
            self
        }
    }

    /// The next challenge.
    pub open spec fn challenge(self) -> Elt {
        self.ready().output.last()
    }

    /// The transcript after the next challenge.
    pub open spec fn drawn(self) -> Transcript {
        let t = self.ready();
        Transcript { state: t.state, input: t.input, output: t.output.drop_last() }
    }

    /// The transcript after `n` challenges.
    pub open spec fn drawn_n(self, n: nat) -> Transcript
        decreases n,
    {
        if n == 0 {
            self
        } else {
            self.drawn_n((n - 1) as nat).drawn()
        }
    }

    /// The next `n` challenges.
    pub open spec fn challenges(self, n: nat) -> Seq<Elt> {
        Seq::new(n, |i: int| self.drawn_n(i as nat).challenge())
    }

    /// The next challenge in the extension field: two challenges are its coordinates.
    #[verifier::opaque]
    pub open spec fn extension_challenge(self) -> Elt {
        reduced(self.challenge().re, self.drawn().challenge().re)
    }

    /// The transcript after a challenge in the extension field.
    #[verifier::opaque]
    pub open spec fn extension_drawn(self) -> Transcript {
        self.drawn().drawn()
    }
}

/// The coordinates of elements of the extension field, one pair after the other.
pub open spec fn coordinates(xs: Seq<Elt>) -> Seq<Elt> {
    Seq::new(
        2 * xs.len(),
        |i: int|
            if i % 2 == 0 {
                base(xs[i / 2].re)
            } else {
                base(xs[i / 2].im)
            },
    )
}

/// Observes prover messages, and generates challenges by hashing the transcript.
#[derive(Debug)]
pub struct Challenger {
    pub sponge_state: Poseidon2Permutation<GoldilocksField>,
    pub input_buffer: Vec<GoldilocksField>,
    pub output_buffer: Vec<GoldilocksField>,
}

impl Challenger {
    /// The elements that the words stand for.
    pub open spec fn transcript(self) -> Transcript {
        Transcript {
            state: vals(self.sponge_state.state@),
            input: vals(self.input_buffer@),
            output: vals(self.output_buffer@),
        }
    }

    /// A block is absorbed as soon as it is full.
    pub open spec fn wf(self) -> bool {
        self.transcript().wf()
    }

    /// A challenger that has not seen anything.
    pub fn new() -> (r: Self)
        ensures
            r.wf(),
            r.transcript() == (Transcript {
                state: zero_state(),
                input: Seq::empty(),
                output: Seq::empty(),
            }),
    {
        let sponge_state = Poseidon2Permutation::new(&[]);
        proof {
            lemma_zero_state();
            assert(sponge_state.state@ =~= zero_words());
            assert(vals(Seq::<GoldilocksField>::empty()) =~= Seq::<Elt>::empty());
        }
        Challenger { sponge_state, input_buffer: Vec::new(), output_buffer: Vec::new() }
    }

    fn duplexing(&mut self)
        requires
            old(self).input_buffer@.len() <= 8,
        ensures
            final(self).wf(),
            final(self).transcript() == old(self).transcript().duplexed(),
    {
        let ghost t = self.transcript();
        proof {
            lemma_overwritten_vals(self.sponge_state.state@, self.input_buffer@, 0);
        }
        self.sponge_state.set_from_slice(self.input_buffer.as_slice(), 0);
        self.sponge_state.permute();
        self.input_buffer = Vec::new();
        self.output_buffer = self.sponge_state.squeeze();
        proof {
            assert(vals(self.input_buffer@) =~= Seq::<Elt>::empty());
            assert(vals(self.output_buffer@) =~= vals(self.sponge_state.state@).take(8));
        }
    }

    /// Observes an element.
    pub fn observe_element(&mut self, element: GoldilocksField)
        requires
            old(self).wf(),
        ensures
            final(self).wf(),
            final(self).transcript() == old(self).transcript().observed(element.v()),
    {
        let ghost t = self.transcript();
        // Any buffered outputs are now invalid, since they wouldn't reflect this input.
        self.output_buffer = Vec::new();
        self.input_buffer.push(element);
        proof {
            assert(vals(self.output_buffer@) =~= Seq::<Elt>::empty());
            assert(vals(self.input_buffer@) =~= t.input.push(element.v()));
            assert(t.input.len() == old(self).input_buffer@.len());
        }
        if self.input_buffer.len() == RATE {
            self.duplexing();
        }
    }

    /// Observes some elements.
    pub fn observe_elements(&mut self, elements: &[GoldilocksField])
        requires
            old(self).wf(),
        ensures
            final(self).wf(),
            final(self).transcript() == old(self).transcript().observed_all(vals(elements@)),
    {
        let ghost t = self.transcript();
        proof {
            reveal(Transcript::observed_all);
        }
        let mut i: usize = 0;
        while i < elements.len()
            invariant
                i <= elements@.len(),
                self.wf(),
                self.transcript() == t.observed_to(vals(elements@), i as nat),
            decreases elements@.len() - i,
        {
            self.observe_element(elements[i]);
            i = i + 1;
        }
    }

    /// Observes an element of the extension field.
    pub fn observe_extension_element(&mut self, element: &QuadraticExtension)
        requires
            old(self).wf(),
        ensures
            final(self).wf(),
            final(self).transcript() == old(self).transcript().observed(
                base(element.v().re),
            ).observed(base(element.v().im)),
    {
        proof {
            lemma_extension_coordinates(*element);
        }
        self.observe_element(element.0[0]);
        self.observe_element(element.0[1]);
    }

    /// Observes some elements of the extension field.
    pub fn observe_extension_elements(&mut self, elements: &[QuadraticExtension])
        requires
            old(self).wf(),
        ensures
            final(self).wf(),
            final(self).transcript() == old(self).transcript().observed_all(
                coordinates(vals(elements@)),
            ),
    {
        let ghost t = self.transcript();
        let ghost xs = coordinates(vals(elements@));
        proof {
            reveal(Transcript::observed_all);
        }
        let mut i: usize = 0;
        while i < elements.len()
            invariant
                i <= elements@.len(),
                self.wf(),
                xs == coordinates(vals(elements@)),
                self.transcript() == t.observed_to(xs, (2 * i) as nat),
            decreases elements@.len() - i,
        {
            self.observe_extension_element(&elements[i]);
            proof {
                let k = 2 * i;
                assert(xs[k as int] == base(elements@[i as int].v().re));
                assert(xs[k + 1] == base(elements@[i as int].v().im));
                assert(t.observed_to(xs, (k + 1) as nat) == t.observed_to(xs, k as nat).observed(
                    xs[k as int],
                ));
                assert(t.observed_to(xs, (k + 2) as nat) == t.observed_to(
                    xs,
                    (k + 1) as nat,
                ).observed(xs[k + 1]));
            }
            i = i + 1;
        }
    }

    /// Observes the digests of a cap.
    pub fn observe_cap(&mut self, cap: &MerkleCap<Poseidon2Hash>)
        requires
            old(self).wf(),
        ensures
            final(self).wf(),
            final(self).transcript() == old(self).transcript().observed_all(
                flat_elements(cap.0@, cap.0@.len()),
            ),
    {
        let elements = cap.flatten();
        self.observe_elements(elements.as_slice());
    }

    /// The next challenge.
    pub fn get_challenge(&mut self) -> (r: GoldilocksField)
        requires
            old(self).wf(),
        ensures
            final(self).wf(),
            final(self).transcript() == old(self).transcript().drawn(),
            r.v() == old(self).transcript().challenge(),
    {
        let ghost t = self.transcript();
        // If we have buffered inputs, we must perform a duplexing so that the challenge will
        // reflect them. Or if we've run out of outputs, we must perform a duplexing to get more.
        if self.input_buffer.len() > 0 || self.output_buffer.len() == 0 {
            self.duplexing();
        }
        let ghost u = self.transcript();
        let ghost words = self.output_buffer@;
        assert(u == t.ready());
        assert(vals(words).last() == words.last().v());
        match self.output_buffer.pop() {
            Some(r) => {
                assert(vals(self.output_buffer@) =~= vals(words).drop_last());
                r
            },
            None => GoldilocksField(0),
        }
    }

    /// The next `n` challenges.
    pub fn get_n_challenges(&mut self, n: usize) -> (r: Vec<GoldilocksField>)
        requires
            old(self).wf(),
        ensures
            final(self).wf(),
            final(self).transcript() == old(self).transcript().drawn_n(n as nat),
            vals(r@) == old(self).transcript().challenges(n as nat),
    {
        let ghost t = self.transcript();
        let mut r: Vec<GoldilocksField> = Vec::with_capacity(n);
        while r.len() < n
            invariant
                r@.len() <= n,
                self.wf(),
                self.transcript() == t.drawn_n(r@.len()),
                forall|i: int|
                    0 <= i < r@.len() ==> (#[trigger] r@[i]).v() == t.drawn_n(
                        i as nat,
                    ).challenge(),
            decreases n - r@.len(),
        {
            let x = self.get_challenge();
            r.push(x);
        }
        assert(vals(r@) =~= t.challenges(n as nat));
        r
    }

    /// The next challenge in the extension field.
    pub fn get_extension_challenge(&mut self) -> (r: QuadraticExtension)
        requires
            old(self).wf(),
        ensures
            final(self).wf(),
            final(self).transcript() == old(self).transcript().extension_drawn(),
            r.v() == old(self).transcript().extension_challenge(),
    {
        let a = self.get_challenge();
        let b = self.get_challenge();
        let r = QuadraticExtension([a, b]);
        proof {
            reveal(Transcript::extension_challenge);
            reveal(Transcript::extension_drawn);
            lemma_extension_coordinates(r);
            GoldilocksField::lemma_values(a);
            GoldilocksField::lemma_values(b);
            QuadraticExtension::lemma_values(r);
            lemma_reduced_self(r.v());
        }
        r
    }
}

/// The coordinates of an element of the extension field.
pub proof fn lemma_extension_coordinates(x: QuadraticExtension)
    ensures
        x.0[0].v() == base(x.v().re),
        x.0[1].v() == base(x.v().im),
        x.v().re == x.0[0].v().re,
        x.v().im == x.0[1].v().re,
{
    GoldilocksField::lemma_values(x.0[0]);
    GoldilocksField::lemma_values(x.0[1]);
    lemma_reduced_self(x.0[0].v());
    lemma_reduced_self(x.0[1].v());
}

} // verus!
