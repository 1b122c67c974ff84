//! The layers of the permutation as parts of a circuit.

use crate::field::extension::QuadraticExtension;
use crate::field::model::{
    Elt, base, elt0, lemma_add_comm, lemma_add_zero, lemma_mul_comm, lemma_reduced_add,
    lemma_reduced_mul, lemma_reduced_self,
};
use crate::field::types::Field;
use crate::hash::poseidon2::config::{EXTERNAL_CONSTANTS, MATRIX_DIAG_12_U64};
use crate::hash::poseidon2::layers::{
    add_constants, combine, external_layer, internal_layer, lemma_seventh, mix_four, sbox,
    sbox_layer, sum_to,
};
use crate::plonk::circuit_builder::{
    Assignment, CircuitBuilder, ExtensionTarget, computes, grown, lemma_computes_compose,
    lemma_value_kept, lemma_value_wf, lemma_values_kept, node_value, same_rest, target_values,
    targets_in,
};
use vstd::prelude::*;

verus! {

/// Multiplies four targets by the matrix with the rows `2 3 1 1`, `1 2 3 1`, `1 1 2 3`, `3 1 1 2`.
pub fn apply_mat4_mut_circuit(builder: &mut CircuitBuilder, x: [ExtensionTarget; 4]) -> (r: [
    ExtensionTarget;
    4
])
    requires
        old(builder).wf(),
        targets_in(old(builder).nodes@, x@),
    ensures
        computes(
            *old(builder),
            *final(builder),
            x@,
            r@,
            |s: Seq<Elt>|
                seq![
                    combine(2, s[0], 3, s[1], 1, s[2], 1, s[3]),
                    combine(1, s[0], 2, s[1], 3, s[2], 1, s[3]),
                    combine(1, s[0], 1, s[1], 2, s[2], 3, s[3]),
                    combine(3, s[0], 1, s[1], 1, s[2], 2, s[3]),
                ],
        ),
{
    let ghost start = builder.nodes@;
    let ghost rest = *builder;
    let (x0, x1, x2, x3) = (x[0], x[1], x[2], x[3]);
    assert(x@[0].index < start.len() && x@[1].index < start.len() && x@[2].index < start.len()
        && x@[3].index < start.len());
    let two_value = QuadraticExtension::from_noncanonical_u64(2);
    let two = builder.constant_extension(two_value);
    let t01 = builder.add_extension(x0, x1);
    let t23 = builder.add_extension(x2, x3);
    let t0123 = builder.add_extension(t01, t23);
    let t01123 = builder.add_extension(t0123, x1);
    let t01233 = builder.add_extension(t0123, x3);
    let dx0 = builder.mul_extension(x0, two);
    let dx2 = builder.mul_extension(x2, two);
    let y3 = builder.add_extension(t01233, dx0);
    let y1 = builder.add_extension(t01123, dx2);
    let y0 = builder.add_extension(t01123, t01);
    let y2 = builder.add_extension(t01233, t23);
    let r = [y0, y1, y2, y3];
    proof {
        let n = builder.nodes@;
        assert(grown(start, n));
        assert forall|asg: Assignment| asg.wf() implies #[trigger] target_values(n, asg, r@)
            == ({
            let s = target_values(start, asg, x@);
            seq![
                combine(2, s[0], 3, s[1], 1, s[2], 1, s[3]),
                combine(1, s[0], 2, s[1], 3, s[2], 1, s[3]),
                combine(1, s[0], 1, s[1], 2, s[2], 3, s[3]),
                combine(3, s[0], 1, s[1], 1, s[2], 2, s[3]),
            ]
        }) by {
            lemma_values_kept(start, n, asg, x@);
            let (a, b, c, d) = (
                node_value(n, asg, x0.index as int),
                node_value(n, asg, x1.index as int),
                node_value(n, asg, x2.index as int),
                node_value(n, asg, x3.index as int),
            );
            lemma_value_kept(start, n, asg, x0.index as int);
            lemma_value_kept(start, n, asg, x1.index as int);
            lemma_value_kept(start, n, asg, x2.index as int);
            lemma_value_kept(start, n, asg, x3.index as int);
            lemma_value_wf(n, asg, x0.index as int);
            lemma_value_wf(n, asg, x1.index as int);
            lemma_value_wf(n, asg, x2.index as int);
            lemma_value_wf(n, asg, x3.index as int);
            QuadraticExtension::lemma_const(2);
            assert(node_value(n, asg, two.index as int) == base(2));
            assert(node_value(n, asg, t01.index as int) == a + b);
            assert(node_value(n, asg, t23.index as int) == c + d);
            assert(node_value(n, asg, t0123.index as int) == (a + b) + (c + d));
            assert(node_value(n, asg, t01123.index as int) == ((a + b) + (c + d)) + b);
            assert(node_value(n, asg, t01233.index as int) == ((a + b) + (c + d)) + d);
            assert(node_value(n, asg, dx0.index as int) == a * base(2));
            assert(node_value(n, asg, dx2.index as int) == c * base(2));
            assert(node_value(n, asg, y0.index as int) == (((a + b) + (c + d)) + b) + (a + b));
            assert(node_value(n, asg, y1.index as int) == (((a + b) + (c + d)) + b) + c * base(2));
            assert(node_value(n, asg, y2.index as int) == (((a + b) + (c + d)) + d) + (c + d));
            assert(node_value(n, asg, y3.index as int) == (((a + b) + (c + d)) + d) + a * base(2));
            lemma_mix_circuit(a, b, c, d);
            let s = target_values(start, asg, x@);
            assert(s[0] == a && s[1] == b && s[2] == c && s[3] == d);
            assert(target_values(n, asg, r@) =~= seq![
                combine(2, s[0], 3, s[1], 1, s[2], 1, s[3]),
                combine(1, s[0], 2, s[1], 3, s[2], 1, s[3]),
                combine(1, s[0], 1, s[1], 2, s[2], 3, s[3]),
                combine(3, s[0], 1, s[1], 1, s[2], 2, s[3]),
            ]);
        }
    }
    r
}

proof fn lemma_mix_circuit(a: Elt, b: Elt, c: Elt, d: Elt)
    requires
        a.wf(),
        b.wf(),
        c.wf(),
        d.wf(),
    ensures
        (((a + b) + (c + d)) + b) + (a + b) == combine(2, a, 3, b, 1, c, 1, d),
        (((a + b) + (c + d)) + b) + c * base(2) == combine(1, a, 2, b, 3, c, 1, d),
        (((a + b) + (c + d)) + d) + (c + d) == combine(1, a, 1, b, 2, c, 3, d),
        (((a + b) + (c + d)) + d) + a * base(2) == combine(3, a, 1, b, 1, c, 2, d),
{
    lemma_reduced_self(a);
    lemma_reduced_self(b);
    lemma_reduced_self(c);
    lemma_reduced_self(d);
    lemma_reduced_mul(a.re, a.im, 2, 0);
    lemma_reduced_mul(c.re, c.im, 2, 0);
    assert(a.im * 0 == 0 && a.re * 0 == 0 && c.im * 0 == 0 && c.re * 0 == 0);
    lemma_reduced_add(a.re, a.im, b.re, b.im);
    lemma_reduced_add(c.re, c.im, d.re, d.im);
    lemma_reduced_add(a.re + b.re, a.im + b.im, c.re + d.re, c.im + d.im);
    let (t, u) = (a.re + b.re + (c.re + d.re), a.im + b.im + (c.im + d.im));
    lemma_reduced_add(t, u, b.re, b.im);
    lemma_reduced_add(t, u, d.re, d.im);
    lemma_reduced_add(t + b.re, u + b.im, a.re + b.re, a.im + b.im);
    lemma_reduced_add(t + b.re, u + b.im, c.re * 2, c.im * 2);
    lemma_reduced_add(t + d.re, u + d.im, c.re + d.re, c.im + d.im);
    lemma_reduced_add(t + d.re, u + d.im, a.re * 2, a.im * 2);
}

/// Each block of four multiplied by the matrix.
pub open spec fn mixed_blocks(s: Seq<Elt>) -> Seq<Elt> {
    Seq::new(12, |i: int| mix_four(s, i))
}

/// The sums of the elements at the same place of each block, added to each element.
pub open spec fn with_block_sums(x: Seq<Elt>) -> Seq<Elt> {
    Seq::new(12, |i: int| x[i] + ((x[i % 4] + x[i % 4 + 4]) + x[i % 4 + 8]))
}

fn mix_blocks_circuit(builder: &mut CircuitBuilder, state: [ExtensionTarget; 12]) -> (r: [
    ExtensionTarget;
    12
])
    requires
        old(builder).wf(),
        targets_in(old(builder).nodes@, state@),
    ensures
        computes(*old(builder), *final(builder), state@, r@, |s: Seq<Elt>| mixed_blocks(s)),
{
    let ghost n0 = builder.nodes@;
    let xa = [state[0], state[1], state[2], state[3]];
    let xb = [state[4], state[5], state[6], state[7]];
    let xc = [state[8], state[9], state[10], state[11]];
    assert forall|i: int| 0 <= i < 4 implies (#[trigger] xa@[i]).index < n0.len() && xb@[i].index
        < n0.len() && xc@[i].index < n0.len() by {
        assert(state@[i].index < n0.len() && state@[4 + i].index < n0.len() && state@[8 + i].index
            < n0.len());
    }
    assert(targets_in(n0, xb@)) by {
        assert forall|i: int| 0 <= i < 4 implies (#[trigger] xb@[i]).index < n0.len() by {
            assert(xa@[i].index < n0.len());
        }
    }
    assert(targets_in(n0, xc@)) by {
        assert forall|i: int| 0 <= i < 4 implies (#[trigger] xc@[i]).index < n0.len() by {
            assert(xa@[i].index < n0.len());
        }
    }
    let a = apply_mat4_mut_circuit(builder, xa);
    let ghost n1 = builder.nodes@;
    let b = apply_mat4_mut_circuit(builder, xb);
    let ghost n2 = builder.nodes@;
    let c = apply_mat4_mut_circuit(builder, xc);
    let ghost n3 = builder.nodes@;
    let r = [
        a[0],
        a[1],
        a[2],
        a[3],
        b[0],
        b[1],
        b[2],
        b[3],
        c[0],
        c[1],
        c[2],
        c[3],
    ];
    proof {
        assert(grown(n1, n3));
        assert forall|i: int| 0 <= i < 12 implies (#[trigger] r@[i]).index < n3.len() by {
            if i < 4 {
                assert(a@[i].index < n1.len());
            } else if i < 8 {
                assert(b@[i - 4].index < n2.len());
            } else {
                assert(c@[i - 8].index < n3.len());
            }
        }
        assert forall|asg: Assignment| asg.wf() implies #[trigger] target_values(n3, asg, r@)
            == mixed_blocks(target_values(n0, asg, state@)) by {
            let s = target_values(n0, asg, state@);
            lemma_values_kept(n0, n1, asg, xb@);
            lemma_values_kept(n0, n2, asg, xc@);
            lemma_values_kept(n1, n3, asg, a@);
            lemma_values_kept(n2, n3, asg, b@);
            let (sa, sb, sc) = (
                target_values(n0, asg, xa@),
                target_values(n1, asg, xb@),
                target_values(n2, asg, xc@),
            );
            assert(sa =~= s.subrange(0, 4));
            assert(sb =~= s.subrange(4, 8));
            assert(sc =~= s.subrange(8, 12));
            let (va, vb, vc) = (
                target_values(n1, asg, a@),
                target_values(n2, asg, b@),
                target_values(n3, asg, c@),
            );
            let (out, target) = (target_values(n3, asg, r@), mixed_blocks(s));
            assert forall|j: int| 0 <= j < 12 implies out[j] == #[trigger] target[j] by {
                if j < 4 {
                    assert(target_values(n3, asg, a@)[j] == out[j]);
                    assert(j == 0 || j == 1 || j == 2 || j == 3);
                } else if j < 8 {
                    assert(target_values(n3, asg, b@)[j - 4] == out[j]);
                    assert(j == 4 || j == 5 || j == 6 || j == 7);
                } else {
                    assert(vc[j - 8] == out[j]);
                    assert(j == 8 || j == 9 || j == 10 || j == 11);
                }
            }
            assert(out =~= target);
        }
    }
    r
}

fn add_block_sums_circuit(builder: &mut CircuitBuilder, x: [ExtensionTarget; 12]) -> (r: [
    ExtensionTarget;
    12
])
    requires
        old(builder).wf(),
        targets_in(old(builder).nodes@, x@),
    ensures
        computes(*old(builder), *final(builder), x@, r@, |s: Seq<Elt>| with_block_sums(s)),
{
    let ghost n0 = builder.nodes@;
    let ghost rest = *builder;
    let mut sums = [x[0]; 4];
    let mut k: usize = 0;
    while k < 4
        invariant
            k <= 4,
            builder.wf(),
            grown(n0, builder.nodes@),
            same_rest(rest, *builder),
            targets_in(n0, x@),
            forall|i: int| 0 <= i < k ==> (#[trigger] sums@[i]).index < builder.nodes@.len(),
            forall|i: int, asg: Assignment|
                0 <= i < k ==> #[trigger] node_value(
                    builder.nodes@,
                    asg,
                    sums@[i].index as int,
                ) == sum_of_three(target_values(n0, asg, x@), i),
        decreases 4 - k,
    {
        let ghost m0 = builder.nodes@;
        let ghost sums0 = sums@;
        assert(x@[k as int].index < n0.len() && x@[k + 4].index < n0.len() && x@[k + 8].index
            < n0.len());
        let t = builder.add_extension(x[k], x[k + 4]);
        let ghost m1 = builder.nodes@;
        let u = builder.add_extension(t, x[k + 8]);
        let ghost m2 = builder.nodes@;
        sums[k] = u;
        proof {
            assert(grown(m0, m2));
            assert forall|i: int, asg: Assignment| 0 <= i < k + 1 implies #[trigger] node_value(
                m2,
                asg,
                sums@[i].index as int,
            ) == sum_of_three(target_values(n0, asg, x@), i) by {
                if i < k {
                    assert(sums0[i].index < m0.len());
                    lemma_value_kept(m0, m2, asg, sums0[i].index as int);
                    assert(node_value(m0, asg, sums0[i].index as int) == sum_of_three(
                        target_values(n0, asg, x@),
                        i,
                    ));
                } else {
                    lemma_value_kept(n0, m1, asg, x@[i].index as int);
                    lemma_value_kept(n0, m1, asg, x@[i + 4].index as int);
                    lemma_value_kept(n0, m2, asg, x@[i + 8].index as int);
                    lemma_value_kept(m1, m2, asg, t.index as int);
                }
            }
        }
        k = k + 1;
    }
    let ghost n4 = builder.nodes@;
    let mut r = x;
    let mut i: usize = 0;
    while i < 12
        invariant
            i <= 12,
            builder.wf(),
            grown(n0, n4),
            grown(n4, builder.nodes@),
            same_rest(rest, *builder),
            targets_in(n0, x@),
            forall|j: int| 0 <= j < 4 ==> (#[trigger] sums@[j]).index < n4.len(),
            forall|j: int, asg: Assignment|
                0 <= j < 4 ==> #[trigger] node_value(n4, asg, sums@[j].index as int)
                    == sum_of_three(target_values(n0, asg, x@), j),
            forall|j: int| 0 <= j < i ==> (#[trigger] r@[j]).index < builder.nodes@.len(),
            forall|j: int, asg: Assignment|
                0 <= j < i ==> #[trigger] node_value(builder.nodes@, asg, r@[j].index as int)
                    == with_block_sums(target_values(n0, asg, x@))[j],
        decreases 12 - i,
    {
        let ghost m0 = builder.nodes@;
        let ghost r0 = r@;
        proof {
            assert(x@[i as int].index < n0.len());
            assert(sums@[i as int % 4].index < n4.len());
        }
        r[i] = builder.add_extension(x[i], sums[i % 4]);
        let ghost m1 = builder.nodes@;
        proof {
            assert forall|j: int, asg: Assignment| 0 <= j < i + 1 implies #[trigger] node_value(
                m1,
                asg,
                r@[j].index as int,
            ) == with_block_sums(target_values(n0, asg, x@))[j] by {
                if j < i {
                    assert(r0[j].index < m0.len());
                    lemma_value_kept(m0, m1, asg, r0[j].index as int);
                    assert(node_value(m0, asg, r0[j].index as int) == with_block_sums(
                        target_values(n0, asg, x@),
                    )[j]);
                } else {
                    let q = i as int % 4;
                    lemma_value_kept(n0, m1, asg, x@[i as int].index as int);
                    lemma_value_kept(n4, m1, asg, sums@[q].index as int);
                    assert(node_value(n4, asg, sums@[q].index as int) == sum_of_three(
                        target_values(n0, asg, x@),
                        q,
                    ));
                }
            }
        }
        i = i + 1;
    }
    proof {
        let n = builder.nodes@;
        assert forall|asg: Assignment| asg.wf() implies #[trigger] target_values(n, asg, r@)
            == with_block_sums(target_values(n0, asg, x@)) by {
            let target = with_block_sums(target_values(n0, asg, x@));
            assert forall|j: int| 0 <= j < 12 implies target_values(n, asg, r@)[j]
                == #[trigger] target[j] by {
                assert(node_value(n, asg, r@[j].index as int) == target[j]);
            }
            assert(target_values(n, asg, r@) =~= target);
        }
    }
    r
}

spec fn sum_of_three(x: Seq<Elt>, i: int) -> Elt {
    (x[i] + x[i + 4]) + x[i + 8]
}

/// The external linear layer.
pub fn external_linear_layer_circuit(
    builder: &mut CircuitBuilder,
    state: [ExtensionTarget; 12],
) -> (r: [ExtensionTarget; 12])
    requires
        old(builder).wf(),
        targets_in(old(builder).nodes@, state@),
    ensures
        computes(
            *old(builder),
            *final(builder),
            state@,
            r@,
            |s: Seq<Elt>| external_layer(s),
        ),
{
    let ghost b0 = *builder;
    let x = mix_blocks_circuit(builder, state);
    let ghost b1 = *builder;
    let r = add_block_sums_circuit(builder, x);
    proof {
        let f = |s: Seq<Elt>| mixed_blocks(s);
        let g = |s: Seq<Elt>| with_block_sums(s);
        let h = |s: Seq<Elt>| external_layer(s);
        assert forall|s: Seq<Elt>| #[trigger] h(s) == g(f(s)) by {
            assert(external_layer(s) =~= with_block_sums(mixed_blocks(s)));
        }
        lemma_computes_compose(b0, b1, *builder, state@, x@, r@, f, g, h);
    }
    r
}

/// The addition of the constants of an external round.
pub fn add_rc_circuit(
    builder: &mut CircuitBuilder,
    state: [ExtensionTarget; 12],
    rc_index: usize,
) -> (r: [ExtensionTarget; 12])
    requires
        old(builder).wf(),
        targets_in(old(builder).nodes@, state@),
        rc_index < 8,
    ensures
        computes(
            *old(builder),
            *final(builder),
            state@,
            r@,
            |s: Seq<Elt>| add_constants(s, rc_index as int),
        ),
{
    let ghost n0 = builder.nodes@;
    let ghost rest = *builder;
    let mut r = state;
    let mut i: usize = 0;
    while i < 12
        invariant
            i <= 12,
            rc_index < 8,
            builder.wf(),
            grown(n0, builder.nodes@),
            same_rest(rest, *builder),
            targets_in(n0, state@),
            forall|j: int| 0 <= j < i ==> (#[trigger] r@[j]).index < builder.nodes@.len(),
            forall|j: int, asg: Assignment|
                0 <= j < i ==> #[trigger] node_value(builder.nodes@, asg, r@[j].index as int)
                    == add_constants(target_values(n0, asg, state@), rc_index as int)[j],
        decreases 12 - i,
    {
        let ghost m0 = builder.nodes@;
        let ghost r0 = r@;
        assert(state@[i as int].index < n0.len());
        let round_constant = QuadraticExtension::from_noncanonical_u64(
            EXTERNAL_CONSTANTS[rc_index][i],
        );
        let constant = builder.constant_extension(round_constant);
        let ghost m1 = builder.nodes@;
        r[i] = builder.add_extension(state[i], constant);
        let ghost m2 = builder.nodes@;
        proof {
            assert(grown(m0, m2));
            QuadraticExtension::lemma_const(EXTERNAL_CONSTANTS[rc_index as int][i as int]);
            assert forall|j: int, asg: Assignment| 0 <= j < i + 1 implies #[trigger] node_value(
                m2,
                asg,
                r@[j].index as int,
            ) == add_constants(target_values(n0, asg, state@), rc_index as int)[j] by {
                if j < i {
                    assert(r0[j].index < m0.len());
                    lemma_value_kept(m0, m2, asg, r0[j].index as int);
                    assert(node_value(m0, asg, r0[j].index as int) == add_constants(
                        target_values(n0, asg, state@),
                        rc_index as int,
                    )[j]);
                } else {
                    lemma_value_kept(n0, m2, asg, state@[j].index as int);
                    lemma_value_kept(m1, m2, asg, constant.index as int);
                }
            }
        }
        i = i + 1;
    }
    proof {
        let n = builder.nodes@;
        assert forall|asg: Assignment| asg.wf() implies #[trigger] target_values(n, asg, r@)
            == add_constants(target_values(n0, asg, state@), rc_index as int) by {
            let target = add_constants(target_values(n0, asg, state@), rc_index as int);
            assert forall|j: int| 0 <= j < 12 implies target_values(n, asg, r@)[j]
                == #[trigger] target[j] by {
                assert(node_value(n, asg, r@[j].index as int) == target[j]);
            }
            assert(target_values(n, asg, r@) =~= target);
        }
    }
    r
}

/// The substitution of one target by its seventh power.
pub fn sbox_p_circuit(builder: &mut CircuitBuilder, input: ExtensionTarget) -> (r: ExtensionTarget)
    requires
        old(builder).wf(),
        input.index < old(builder).nodes@.len(),
    ensures
        grown(old(builder).nodes@, final(builder).nodes@),
        same_rest(*old(builder), *final(builder)),
        r.index < final(builder).nodes@.len(),
        forall|asg: Assignment|
            asg.wf() ==> #[trigger] node_value(final(builder).nodes@, asg, r.index as int) == sbox(
                node_value(old(builder).nodes@, asg, input.index as int),
            ),
{
    let ghost n0 = builder.nodes@;
    // Squares of the base are multiplied in for each binary digit of the exponent.
    let x2 = builder.mul_extension(input, input);
    let x3 = builder.mul_extension(input, x2);
    let x4 = builder.mul_extension(x2, x2);
    let r = builder.mul_extension(x3, x4);
    proof {
        let n = builder.nodes@;
        assert(grown(n0, n));
        assert forall|asg: Assignment| asg.wf() implies #[trigger] node_value(
            n,
            asg,
            r.index as int,
        ) == sbox(node_value(n0, asg, input.index as int)) by {
            lemma_value_kept(n0, n, asg, input.index as int);
            lemma_value_wf(n0, asg, input.index as int);
            let x = node_value(n, asg, input.index as int);
            assert(node_value(n, asg, x2.index as int) == x * x);
            assert(node_value(n, asg, x3.index as int) == x * (x * x));
            assert(node_value(n, asg, x4.index as int) == (x * x) * (x * x));
            lemma_seventh(x);
        }
    }
    r
}

/// The substitution of every target.
pub fn sbox_circuit(builder: &mut CircuitBuilder, state: [ExtensionTarget; 12]) -> (r: [
    ExtensionTarget;
    12
])
    requires
        old(builder).wf(),
        targets_in(old(builder).nodes@, state@),
    ensures
        computes(*old(builder), *final(builder), state@, r@, |s: Seq<Elt>| sbox_layer(s)),
{
    let ghost n0 = builder.nodes@;
    let ghost rest = *builder;
    let mut r = state;
    let mut i: usize = 0;
    while i < 12
        invariant
            i <= 12,
            builder.wf(),
            grown(n0, builder.nodes@),
            same_rest(rest, *builder),
            targets_in(n0, state@),
            forall|j: int| 0 <= j < i ==> (#[trigger] r@[j]).index < builder.nodes@.len(),
            forall|j: int, asg: Assignment|
                0 <= j < i && asg.wf() ==> #[trigger] node_value(
                    builder.nodes@,
                    asg,
                    r@[j].index as int,
                ) == sbox(node_value(n0, asg, state@[j].index as int)),
        decreases 12 - i,
    {
        let ghost m0 = builder.nodes@;
        let ghost r0 = r@;
        assert(state@[i as int].index < n0.len());
        r[i] = sbox_p_circuit(builder, state[i]);
        let ghost m1 = builder.nodes@;
        proof {
            assert forall|j: int, asg: Assignment| 0 <= j < i + 1 && asg.wf() implies #[trigger] node_value(
                m1,
                asg,
                r@[j].index as int,
            ) == sbox(node_value(n0, asg, state@[j].index as int)) by {
                if j < i {
                    assert(r0[j].index < m0.len());
                    lemma_value_kept(m0, m1, asg, r0[j].index as int);
                    assert(node_value(m0, asg, r0[j].index as int) == sbox(
                        node_value(n0, asg, state@[j].index as int),
                    ));
                } else {
                    lemma_value_kept(n0, m0, asg, state@[j].index as int);
                }
            }
        }
        i = i + 1;
    }
    proof {
        let n = builder.nodes@;
        assert forall|asg: Assignment| asg.wf() implies #[trigger] target_values(n, asg, r@)
            == sbox_layer(target_values(n0, asg, state@)) by {
            let target = sbox_layer(target_values(n0, asg, state@));
            assert forall|j: int| 0 <= j < 12 implies target_values(n, asg, r@)[j]
                == #[trigger] target[j] by {
                assert(node_value(n, asg, r@[j].index as int) == sbox(
                    node_value(n0, asg, state@[j].index as int),
                ));
            }
            assert(target_values(n, asg, r@) =~= target);
        }
    }
    r
}

/// The internal linear layer.
pub fn internal_linear_layer_circuit(builder: &mut CircuitBuilder, state: [ExtensionTarget; 12]) -> (r:
    [ExtensionTarget; 12])
    requires
        old(builder).wf(),
        targets_in(old(builder).nodes@, state@),
    ensures
        computes(*old(builder), *final(builder), state@, r@, |s: Seq<Elt>| internal_layer(s)),
{
    let ghost n0 = builder.nodes@;
    let ghost rest = *builder;
    assert(state@[0].index < n0.len());
    let mut sum = state[0];
    proof {
        assert forall|asg: Assignment| asg.wf() implies #[trigger] node_value(
            n0,
            asg,
            sum.index as int,
        ) == sum_to(target_values(n0, asg, state@), 1) by {
            let s = target_values(n0, asg, state@);
            lemma_value_wf(n0, asg, sum.index as int);
            assert(sum_to(s, 0) == elt0());
            lemma_add_zero(s[0]);
        }
    }
    let mut i: usize = 1;
    while i < 12
        invariant
            1 <= i <= 12,
            builder.wf(),
            grown(n0, builder.nodes@),
            same_rest(rest, *builder),
            targets_in(n0, state@),
            sum.index < builder.nodes@.len(),
            forall|asg: Assignment|
                asg.wf() ==> #[trigger] node_value(builder.nodes@, asg, sum.index as int) == sum_to(
                    target_values(n0, asg, state@),
                    i as nat,
                ),
        decreases 12 - i,
    {
        let ghost m0 = builder.nodes@;
        let ghost sum0 = sum;
        assert(state@[i as int].index < n0.len());
        sum = builder.add_extension(sum, state[i]);
        let ghost m1 = builder.nodes@;
        proof {
            assert forall|asg: Assignment| asg.wf() implies #[trigger] node_value(
                m1,
                asg,
                sum.index as int,
            ) == sum_to(target_values(n0, asg, state@), (i + 1) as nat) by {
                lemma_value_kept(m0, m1, asg, sum0.index as int);
                lemma_value_kept(n0, m1, asg, state@[i as int].index as int);
                assert(node_value(m0, asg, sum0.index as int) == sum_to(
                    target_values(n0, asg, state@),
                    i as nat,
                ));
            }
        }
        i = i + 1;
    }
    let ghost n1 = builder.nodes@;
    let mut r = state;
    i = 0;
    while i < 12
        invariant
            i <= 12,
            builder.wf(),
            grown(n0, n1),
            grown(n1, builder.nodes@),
            same_rest(rest, *builder),
            targets_in(n0, state@),
            sum.index < n1.len(),
            forall|asg: Assignment|
                asg.wf() ==> #[trigger] node_value(n1, asg, sum.index as int) == sum_to(
                    target_values(n0, asg, state@),
                    12,
                ),
            forall|j: int| 0 <= j < i ==> (#[trigger] r@[j]).index < builder.nodes@.len(),
            forall|j: int, asg: Assignment|
                0 <= j < i && asg.wf() ==> #[trigger] node_value(
                    builder.nodes@,
                    asg,
                    r@[j].index as int,
                ) == internal_layer(target_values(n0, asg, state@))[j],
        decreases 12 - i,
    {
        let ghost m0 = builder.nodes@;
        let ghost r0 = r@;
        assert(state@[i as int].index < n0.len());
        let factor = QuadraticExtension::from_noncanonical_u64(MATRIX_DIAG_12_U64[i]);
        let constant = builder.constant_extension(factor);
        let ghost m1 = builder.nodes@;
        r[i] = builder.mul_add_extension(constant, state[i], sum);
        let ghost m2 = builder.nodes@;
        proof {
            assert(grown(m0, m2));
            QuadraticExtension::lemma_const(MATRIX_DIAG_12_U64[i as int]);
            assert forall|j: int, asg: Assignment| 0 <= j < i + 1 && asg.wf() implies #[trigger] node_value(
                m2,
                asg,
                r@[j].index as int,
            ) == internal_layer(target_values(n0, asg, state@))[j] by {
                let s = target_values(n0, asg, state@);
                if j < i {
                    assert(r0[j].index < m0.len());
                    lemma_value_kept(m0, m2, asg, r0[j].index as int);
                    assert(node_value(m0, asg, r0[j].index as int) == internal_layer(s)[j]);
                } else {
                    lemma_value_kept(n0, m2, asg, state@[j].index as int);
                    lemma_value_kept(n1, m2, asg, sum.index as int);
                    lemma_value_kept(m1, m2, asg, constant.index as int);
                    let d = base(MATRIX_DIAG_12_U64[i as int] as int);
                    assert(node_value(n1, asg, sum.index as int) == sum_to(s, 12));
                    lemma_mul_comm(d, s[j]);
                    lemma_add_comm(s[j] * d, sum_to(s, 12));
                }
            }
        }
        i = i + 1;
    }
    proof {
        let n = builder.nodes@;
        assert forall|asg: Assignment| asg.wf() implies #[trigger] target_values(n, asg, r@)
            == internal_layer(target_values(n0, asg, state@)) by {
            let target = internal_layer(target_values(n0, asg, state@));
            assert forall|j: int| 0 <= j < 12 implies target_values(n, asg, r@)[j]
                == #[trigger] target[j] by {
                assert(node_value(n, asg, r@[j].index as int) == target[j]);
            }
            assert(target_values(n, asg, r@) =~= target);
        }
    }
    r
}

} // verus!
