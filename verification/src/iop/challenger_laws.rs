//! How the calls of a challenger relate to each other and to the sponge.

use crate::field::dft::all_wf;
use crate::field::model::{Elt, group_elt_wf, lemma_reduced_self};
use crate::hash::hashing::{absorbed, lemma_absorbed_len, lemma_permutation_len, overwritten};
use crate::hash::poseidon2::layers::external_layer;
use crate::hash::poseidon2::permutation::{
    external_round, external_rounds, internal_rounds, permutation,
};
use crate::hash::sponge_laws::lemma_absorbing_composes;
use crate::iop::challenger::{Transcript, coordinates};
use vstd::prelude::*;

verus! {

/// Observing composes: one list and then another is the same as both lists at once.
pub proof fn lemma_observing_composes(t: Transcript, a: Seq<Elt>, b: Seq<Elt>)
    ensures
        t.observed_all(a + b) == t.observed_all(a).observed_all(b),
        t.observed_all(Seq::empty()) == t,
    decreases b.len(),
{
    reveal(Transcript::observed_all);
    if b.len() == 0 {
        assert(a + b =~= a);
    } else {
        let rest = b.drop_last();
        lemma_observing_composes(t, a, rest);
        lemma_observed_prefix(t, a + rest, a + b, (a + rest).len());
        lemma_observed_prefix(t.observed_all(a), rest, b, rest.len());
    }
}

proof fn lemma_observed_prefix(t: Transcript, a: Seq<Elt>, b: Seq<Elt>, n: nat)
    requires
        n <= a.len(),
        n <= b.len(),
        forall|i: int| 0 <= i < n ==> a[i] == #[trigger] b[i],
    ensures
        t.observed_to(a, n) == t.observed_to(b, n),
    decreases n,
{
    if n > 0 {
        lemma_observed_prefix(t, a, b, (n - 1) as nat);
        assert(a[n - 1] == b[n - 1]);
    }
}

/// Observing a list is observing its elements in order.
pub proof fn lemma_observing_in_order(t: Transcript, xs: Seq<Elt>, x: Elt)
    ensures
        t.observed_all(xs.push(x)) == t.observed_all(xs).observed(x),
{
    reveal(Transcript::observed_all);
    lemma_observed_prefix(t, xs, xs.push(x), xs.len());
}

/// What can still be given out is forgotten as soon as something is observed: what follows depends
/// on the state and the pending elements alone.
pub proof fn lemma_observing_discards_outputs(t: Transcript, u: Transcript, x: Elt)
    requires
        t.state == u.state,
        t.input == u.input,
    ensures
        t.observed(x) == u.observed(x),
        t.observed(x).ready().input.len() == 0,
{
}

/// Observing and drawing keep a transcript well-formed.
pub proof fn lemma_transcript_stays_wf(t: Transcript, xs: Seq<Elt>)
    requires
        t.wf(),
    ensures
        t.observed_all(xs).wf(),
        t.ready().wf(),
        t.drawn().wf(),
        t.ready().output.len() > 0,
        t.ready().input.len() == 0,
    decreases xs.len(),
{
    reveal(Transcript::observed_all);
    lemma_permutation_len(overwritten(t.state, t.input, 0));
    if xs.len() > 0 {
        let rest = xs.drop_last();
        lemma_transcript_stays_wf(t, rest);
        let u = t.observed_all(rest);
        lemma_observing_in_order(t, rest, xs.last());
        assert(rest.push(xs.last()) =~= xs);
        lemma_permutation_len(overwritten(u.state, u.input.push(xs.last()), 0));
    }
}

/// A challenger is a sponge: once a list has been observed with nothing pending before it, the
/// state that challenges are taken from is the state that has absorbed the list, and its first
/// eight elements can be given out.
pub proof fn lemma_transcript_is_a_sponge(t: Transcript, xs: Seq<Elt>)
    requires
        t.wf(),
        t.input.len() == 0,
        xs.len() > 0,
    ensures
        t.observed_all(xs).ready().state == absorbed(t.state, xs),
        t.observed_all(xs).ready().input.len() == 0,
        t.observed_all(xs).ready().output == absorbed(t.state, xs).take(8),
    decreases xs.len(),
{
    lemma_transcript_stays_wf(t, xs);
    let last_len = if xs.len() % 8 == 0 {
        8
    } else {
        (xs.len() % 8) as int
    };
    let a = xs.take(xs.len() - last_len);
    let b = xs.skip(xs.len() - last_len);
    assert(xs =~= a + b);
    lemma_observing_composes(t, a, b);
    lemma_absorbing_composes(t.state, a, b);
    let u = t.observed_all(a);
    if a.len() > 0 {
        lemma_transcript_is_a_sponge(t, a);
        lemma_full_blocks(t, a);
    } else {
        assert(a =~= Seq::<Elt>::empty());
        lemma_observing_composes(t, Seq::empty(), Seq::empty());
    }
    lemma_transcript_stays_wf(t, a);
    lemma_one_block(u, b);
}

proof fn lemma_one_block(t: Transcript, b: Seq<Elt>)
    requires
        t.wf(),
        t.input.len() == 0,
        0 < b.len() <= 8,
    ensures
        t.observed_all(b).ready().state == absorbed(t.state, b),
        t.observed_all(b).ready().input.len() == 0,
        t.observed_all(b).ready().output == absorbed(t.state, b).take(8),
{
    reveal(Transcript::observed_all);
    lemma_short_block(t, b, b.len());
    assert(b.take(b.len() as int) =~= b);
    assert(absorbed(t.state, b) == permutation(overwritten(t.state, b, 0)));
    lemma_permutation_len(overwritten(t.state, b, 0));
}

/// After full blocks nothing is pending.
proof fn lemma_full_blocks(t: Transcript, xs: Seq<Elt>)
    requires
        t.wf(),
        t.input.len() == 0,
        xs.len() % 8 == 0,
        xs.len() > 0,
    ensures
        t.observed_all(xs).ready() == t.observed_all(xs),
    decreases xs.len(),
{
    let a = xs.take(xs.len() - 8);
    let b = xs.skip(xs.len() - 8);
    assert(xs =~= a + b);
    lemma_observing_composes(t, a, b);
    lemma_transcript_stays_wf(t, a);
    let u = t.observed_all(a);
    if a.len() > 0 {
        lemma_full_blocks(t, a);
        assert(u.input.len() == 0);
    } else {
        assert(a =~= Seq::<Elt>::empty());
        lemma_observing_composes(t, Seq::empty(), Seq::empty());
    }
    reveal(Transcript::observed_all);
    lemma_short_block(u, b, 7);
    assert(b.take(7).push(b[7]) =~= b);
    lemma_permutation_len(overwritten(u.state, b, 0));
}

/// Less than a block is kept until it is needed.
proof fn lemma_short_block(t: Transcript, b: Seq<Elt>, n: nat)
    requires
        t.wf(),
        t.input.len() == 0,
        n <= b.len(),
        n <= 8,
    ensures
        n < 8 ==> t.observed_to(b, n).state == t.state,
        n < 8 ==> t.observed_to(b, n).input == b.take(n as int),
        0 < n < 8 ==> t.observed_to(b, n).output.len() == 0,
        n == 8 ==> t.observed_to(b, n) == (Transcript {
            state: permutation(overwritten(t.state, b.take(8), 0)),
            input: Seq::empty(),
            output: permutation(overwritten(t.state, b.take(8), 0)).take(8),
        }),
    decreases n,
{
    if n == 0 {
        assert(t.input =~= b.take(0));
    } else {
        let m = (n - 1) as nat;
        lemma_short_block(t, b, m);
        assert(b.take(m as int).push(b[m as int]) =~= b.take(n as int));
    }
}

/// The challenges after a list has been observed with nothing pending before it: the first eight
/// elements of the state that has absorbed the list, from the last one down, and after these what
/// the permuted state gives.
pub proof fn lemma_challenges_are_squeezed(t: Transcript, xs: Seq<Elt>, i: nat)
    requires
        t.wf(),
        t.input.len() == 0,
        xs.len() > 0,
        i < 8,
    ensures
        t.observed_all(xs).challenges(8)[i as int] == absorbed(t.state, xs)[7 - i],
        t.observed_all(xs).drawn_n(i).challenge() == absorbed(t.state, xs)[7 - i],
        t.observed_all(xs).drawn_n(8).challenge() == permutation(absorbed(t.state, xs))[7],
{
    let u = t.observed_all(xs);
    let s = absorbed(t.state, xs);
    lemma_transcript_is_a_sponge(t, xs);
    lemma_absorbed_len(t.state, xs);
    lemma_drawing(u, s, i);
    lemma_drawing(u, s, 8);
    let v = u.drawn_n(8);
    assert(overwritten(s, v.input, 0) =~= s);
    lemma_permutation_len(s);
}

proof fn lemma_drawing(u: Transcript, s: Seq<Elt>, n: nat)
    requires
        s.len() == 12,
        n <= 8,
        u.ready() == (Transcript { state: s, input: u.ready().input, output: s.take(8) }),
        u.ready().input.len() == 0,
    ensures
        n < 8 ==> u.drawn_n(n).ready() == (Transcript {
            state: s,
            input: u.ready().input,
            output: s.take(8 - n),
        }),
        n < 8 ==> u.drawn_n(n).challenge() == s[7 - n],
        n == 8 ==> u.drawn_n(n) == (Transcript {
            state: s,
            input: u.ready().input,
            output: Seq::empty(),
        }),
    decreases n,
{
    if n > 0 {
        let m = (n - 1) as nat;
        lemma_drawing(u, s, m);
        assert(s.take(8 - m).drop_last() =~= s.take(8 - n));
        assert(s.take(0) =~= Seq::<Elt>::empty());
    } else {
        assert(s.take(8 - 0) =~= s.take(8));
    }
}

/// Drawing composes: `m` challenges and then `n` more are `m + n` challenges.
pub proof fn lemma_drawing_composes(t: Transcript, m: nat, n: nat)
    ensures
        t.drawn_n(m + n) == t.drawn_n(m).drawn_n(n),
        t.challenges(m + n) == t.challenges(m) + t.drawn_n(m).challenges(n),
        t.challenges(n).len() == n,
        n > 0 ==> t.challenges(n)[0] == t.challenge(),
    decreases n,
{
    if n > 0 {
        lemma_drawing_composes(t, m, (n - 1) as nat);
    }
    assert forall|i: int| 0 <= i < n implies t.drawn_n(m + i as nat) == #[trigger] t.drawn_n(
        m,
    ).drawn_n(i as nat) by {
        if i < n - 1 || n == 0 {
            lemma_drawing_composes(t, m, i as nat);
        } else {
            lemma_drawing_composes(t, m, (n - 1) as nat);
        }
    }
    assert(t.challenges(m + n) =~= t.challenges(m) + t.drawn_n(m).challenges(n));
    assert(t.drawn_n(0) == t);
}

/// A challenge in the extension field has the next two challenges as its coordinates, and uses up
/// these two.
pub proof fn lemma_extension_challenge_is_two(t: Transcript)
    requires
        t.challenge().wf(),
        t.drawn().challenge().wf(),
    ensures
        t.extension_challenge().re == t.challenges(2)[0].re,
        t.extension_challenge().im == t.challenges(2)[1].re,
        t.extension_challenge().wf(),
        t.extension_drawn() == t.drawn_n(2),
{
    reveal(Transcript::extension_challenge);
    reveal(Transcript::extension_drawn);
    reveal_with_fuel(Transcript::drawn_n, 3);
    let (a, b) = (t.challenge(), t.drawn().challenge());
    lemma_reduced_self(Elt { re: a.re, im: b.re });
}

/// The coordinates of a list are those of its elements in order, two for each.
pub proof fn lemma_coordinates_in_order(xs: Seq<Elt>, ys: Seq<Elt>, i: int)
    requires
        all_wf(xs),
        0 <= i < xs.len(),
    ensures
        coordinates(xs + ys) == coordinates(xs) + coordinates(ys),
        coordinates(xs).len() == 2 * xs.len(),
        coordinates(xs)[2 * i] == (Elt { re: xs[i].re, im: 0 }),
        coordinates(xs)[2 * i + 1] == (Elt { re: xs[i].im, im: 0 }),
{
    assert forall|k: int| 0 <= k < coordinates(xs + ys).len() implies #[trigger] coordinates(
        xs + ys,
    )[k] == (coordinates(xs) + coordinates(ys))[k] by {}
    assert(coordinates(xs + ys) =~= coordinates(xs) + coordinates(ys));
    assert(xs[i].wf());
    lemma_reduced_self(Elt { re: xs[i].re, im: 0 });
    lemma_reduced_self(Elt { re: xs[i].im, im: 0 });
}

/// Challenges are reduced elements, as long as what can be given out at the start is.
pub proof fn lemma_challenges_wf(t: Transcript, n: nat)
    requires
        t.wf(),
        all_wf(t.output),
    ensures
        t.drawn_n(n).wf(),
        all_wf(t.drawn_n(n).output),
        t.drawn_n(n).challenge().wf(),
    decreases n,
{
    let u = if n == 0 {
        t
    } else {
        lemma_challenges_wf(t, (n - 1) as nat);
        t.drawn_n((n - 1) as nat)
    };
    lemma_draw_wf(u);
    if n > 0 {
        lemma_draw_wf(u.drawn());
    }
}

proof fn lemma_draw_wf(t: Transcript)
    requires
        t.wf(),
        all_wf(t.output),
    ensures
        t.drawn().wf(),
        all_wf(t.drawn().output),
        t.challenge().wf(),
{
    let s = overwritten(t.state, t.input, 0);
    lemma_permutation_wf(s);
    lemma_permutation_len(s);
    let u = t.ready();
    assert(all_wf(u.output));
    assert(u.output.len() > 0);
    assert forall|i: int| 0 <= i < t.drawn().output.len() implies (#[trigger] t.drawn().output[i]).wf()
        by {
        assert(u.output[i].wf());
    }
}

/// After an element has been observed, only reduced elements are given out.
pub proof fn lemma_observed_outputs_wf(t: Transcript, x: Elt)
    requires
        t.wf(),
    ensures
        t.observed(x).wf(),
        all_wf(t.observed(x).output),
{
    let s = overwritten(t.state, t.input.push(x), 0);
    lemma_permutation_wf(s);
    lemma_permutation_len(s);
}

/// The permutation gives reduced elements.
pub proof fn lemma_permutation_wf(s: Seq<Elt>)
    ensures
        all_wf(permutation(s)),
{
    broadcast use group_elt_wf;

    let inner = internal_rounds(external_rounds(external_layer(s), 0, 4), 22);
    assert(permutation(s) == external_round(external_rounds(inner, 4, 7), 7));
    lemma_permutation_len(s);
    assert forall|i: int| 0 <= i < 12 implies (#[trigger] permutation(s)[i]).wf() by {}
}

} // verus!
