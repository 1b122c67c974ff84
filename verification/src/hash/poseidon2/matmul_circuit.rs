//! The matrix with the rows `5 7 1 3`, `4 6 1 1`, `1 3 5 7`, `1 1 4 6` as a part of a circuit.

use crate::field::extension::QuadraticExtension;
use crate::field::goldilocks_field::GoldilocksField;
use crate::field::model::{
    Elt, base, lemma_reduced_add, lemma_reduced_mul, lemma_reduced_self, reduced,
};
use crate::field::types::Field;
use crate::hash::poseidon2::layers::combine;
use crate::plonk::circuit_builder::{
    Assignment, CircuitBuilder, ExtensionTarget, computes, grown, lemma_value_kept, lemma_value_wf,
    lemma_values_kept, node_value, same_rest, target_values, targets_in,
};
use vstd::prelude::*;

verus! {

impl CircuitBuilder {
    /// `c * x + y`, for a constant `c` of the prime field.
    pub fn mul_const_add_extension(
        &mut self,
        c: GoldilocksField,
        x: ExtensionTarget,
        y: ExtensionTarget,
    ) -> (r: ExtensionTarget)
        requires
            old(self).wf(),
            x.index < old(self).nodes@.len(),
            y.index < old(self).nodes@.len(),
        ensures
            grown(old(self).nodes@, final(self).nodes@),
            same_rest(*old(self), *final(self)),
            r.index < final(self).nodes@.len(),
            forall|asg: Assignment| #[trigger]
                node_value(final(self).nodes@, asg, r.index as int) == c.v() * node_value(
                    old(self).nodes@,
                    asg,
                    x.index as int,
                ) + node_value(old(self).nodes@, asg, y.index as int),
    {
        let ghost n0 = self.nodes@;
        let c_ext = self.constant_extension(QuadraticExtension::from_basefield(c));
        let ghost n1 = self.nodes@;
        let r = self.mul_add_extension(c_ext, x, y);
        proof {
            let n = self.nodes@;
            assert(grown(n0, n));
            assert forall|asg: Assignment| #[trigger]
                node_value(n, asg, r.index as int) == c.v() * node_value(n0, asg, x.index as int)
                    + node_value(n0, asg, y.index as int) by {
                lemma_value_kept(n0, n, asg, x.index as int);
                lemma_value_kept(n0, n, asg, y.index as int);
                lemma_value_kept(n1, n, asg, c_ext.index as int);
            }
        }
        r
    }
}

/// A sum of four multiples.
proof fn lemma_rows(a: Elt, b: Elt, c: Elt, d: Elt)
    requires
        a.wf(),
        b.wf(),
        c.wf(),
        d.wf(),
    ensures
        ({
            let t_0 = base(1) * a + b;
            let t_1 = base(1) * c + d;
            let t_2 = base(2) * b + t_1;
            let t_3 = base(2) * d + t_0;
            let t_4 = base(4) * t_1 + t_3;
            let t_5 = base(4) * t_0 + t_2;
            &&& base(1) * t_3 + t_5 == combine(5, a, 7, b, 1, c, 3, d)
            &&& t_5 == combine(4, a, 6, b, 1, c, 1, d)
            &&& base(1) * t_2 + t_4 == combine(1, a, 3, b, 5, c, 7, d)
            &&& t_4 == combine(1, a, 1, b, 4, c, 6, d)
        }),
{
    lemma_reduced_self(a);
    lemma_reduced_self(b);
    lemma_reduced_self(c);
    lemma_reduced_self(d);
    lemma_scaled_sum(1, a.re, a.im, b.re, b.im);
    lemma_scaled_sum(1, c.re, c.im, d.re, d.im);
    let (p0, q0) = (a.re + b.re, a.im + b.im);
    let (p1, q1) = (c.re + d.re, c.im + d.im);
    lemma_scaled_sum(2, b.re, b.im, p1, q1);
    lemma_scaled_sum(2, d.re, d.im, p0, q0);
    let (p2, q2) = (2 * b.re + p1, 2 * b.im + q1);
    let (p3, q3) = (2 * d.re + p0, 2 * d.im + q0);
    lemma_scaled_sum(4, p1, q1, p3, q3);
    lemma_scaled_sum(4, p0, q0, p2, q2);
    let (p4, q4) = (4 * p1 + p3, 4 * q1 + q3);
    let (p5, q5) = (4 * p0 + p2, 4 * q0 + q2);
    lemma_scaled_sum(1, p3, q3, p5, q5);
    lemma_scaled_sum(1, p2, q2, p4, q4);
}

proof fn lemma_scaled_sum(k: int, a: int, b: int, c: int, d: int)
    requires
        0 <= k < 5,
    ensures
        base(k) * reduced(a, b) + reduced(c, d) == reduced(k * a + c, k * b + d),
{
    lemma_reduced_mul(k, 0, a, b);
    lemma_reduced_add(k * a, k * b, c, d);
    assert(0 * b == 0 && 0 * a == 0);
}

/// Multiplies four targets by the matrix.
fn matmul_block_circuit(builder: &mut CircuitBuilder, x: [ExtensionTarget; 4]) -> (r: [
    ExtensionTarget;
    4
])
    requires
        old(builder).wf(),
        targets_in(old(builder).nodes@, x@),
    ensures
        computes(
            *old(builder),
            *final(builder),
            x@,
            r@,
            |s: Seq<Elt>|
                seq![
                    combine(5, s[0], 7, s[1], 1, s[2], 3, s[3]),
                    combine(4, s[0], 6, s[1], 1, s[2], 1, s[3]),
                    combine(1, s[0], 3, s[1], 5, s[2], 7, s[3]),
                    combine(1, s[0], 1, s[1], 4, s[2], 6, s[3]),
                ],
        ),
{
    let ghost n0 = builder.nodes@;
    assert(x@[0].index < n0.len() && x@[1].index < n0.len() && x@[2].index < n0.len()
        && x@[3].index < n0.len());
    let (one, two, four) = (GoldilocksField(1), GoldilocksField(2), GoldilocksField(4));
    assert(one.v() == base(1) && two.v() == base(2) && four.v() == base(4));
    let t_0 = builder.mul_const_add_extension(one, x[0], x[1]);
    let ghost n1 = builder.nodes@;
    let t_1 = builder.mul_const_add_extension(one, x[2], x[3]);
    let ghost n2 = builder.nodes@;
    let t_2 = builder.mul_const_add_extension(two, x[1], t_1);
    let ghost n3 = builder.nodes@;
    let t_3 = builder.mul_const_add_extension(two, x[3], t_0);
    let ghost n4 = builder.nodes@;
    let t_4 = builder.mul_const_add_extension(four, t_1, t_3);
    let ghost n5 = builder.nodes@;
    let t_5 = builder.mul_const_add_extension(four, t_0, t_2);
    let ghost n6 = builder.nodes@;
    let t_6 = builder.mul_const_add_extension(one, t_3, t_5);
    let ghost n7 = builder.nodes@;
    let t_7 = builder.mul_const_add_extension(one, t_2, t_4);
    let r = [t_6, t_5, t_7, t_4];
    proof {
        let n = builder.nodes@;
        assert(grown(n0, n) && grown(n1, n) && grown(n2, n) && grown(n3, n) && grown(n4, n)
            && grown(n5, n) && grown(n6, n) && grown(n7, n));
        assert(grown(n0, n1) && grown(n0, n2) && grown(n0, n3) && grown(n0, n4));
        assert forall|asg: Assignment| asg.wf() implies #[trigger] target_values(n, asg, r@)
            == ({
            let s = target_values(n0, asg, x@);
            seq![
                combine(5, s[0], 7, s[1], 1, s[2], 3, s[3]),
                combine(4, s[0], 6, s[1], 1, s[2], 1, s[3]),
                combine(1, s[0], 3, s[1], 5, s[2], 7, s[3]),
                combine(1, s[0], 1, s[1], 4, s[2], 6, s[3]),
            ]
        }) by {
            let s = target_values(n0, asg, x@);
            let (i0, i1, i2, i3) = (
                x@[0].index as int,
                x@[1].index as int,
                x@[2].index as int,
                x@[3].index as int,
            );
            lemma_value_wf(n0, asg, i0);
            lemma_value_wf(n0, asg, i1);
            lemma_value_wf(n0, asg, i2);
            lemma_value_wf(n0, asg, i3);
            lemma_value_kept(n0, n1, asg, i2);
            lemma_value_kept(n0, n1, asg, i3);
            lemma_value_kept(n0, n2, asg, i1);
            lemma_value_kept(n0, n3, asg, i3);
            let (a, b, c, d) = (s[0], s[1], s[2], s[3]);
            let w0 = base(1) * a + b;
            let w1 = base(1) * c + d;
            let w2 = base(2) * b + w1;
            let w3 = base(2) * d + w0;
            let w4 = base(4) * w1 + w3;
            let w5 = base(4) * w0 + w2;
            assert(node_value(n1, asg, t_0.index as int) == w0);
            assert(node_value(n2, asg, t_1.index as int) == w1);
            assert(node_value(n3, asg, t_2.index as int) == w2);
            lemma_value_kept(n1, n3, asg, t_0.index as int);
            assert(node_value(n4, asg, t_3.index as int) == w3);
            lemma_value_kept(n2, n4, asg, t_1.index as int);
            assert(node_value(n5, asg, t_4.index as int) == w4);
            lemma_value_kept(n1, n5, asg, t_0.index as int);
            lemma_value_kept(n3, n5, asg, t_2.index as int);
            assert(node_value(n6, asg, t_5.index as int) == w5);
            lemma_value_kept(n4, n6, asg, t_3.index as int);
            assert(node_value(n7, asg, t_6.index as int) == base(1) * w3 + w5);
            lemma_value_kept(n3, n7, asg, t_2.index as int);
            lemma_value_kept(n5, n7, asg, t_4.index as int);
            assert(node_value(n, asg, t_7.index as int) == base(1) * w2 + w4);
            lemma_value_kept(n7, n, asg, t_6.index as int);
            lemma_value_kept(n6, n, asg, t_5.index as int);
            lemma_value_kept(n5, n, asg, t_4.index as int);
            lemma_rows(a, b, c, d);
            assert(target_values(n, asg, r@) =~= seq![
                combine(5, s[0], 7, s[1], 1, s[2], 3, s[3]),
                combine(4, s[0], 6, s[1], 1, s[2], 1, s[3]),
                combine(1, s[0], 3, s[1], 5, s[2], 7, s[3]),
                combine(1, s[0], 1, s[1], 4, s[2], 6, s[3]),
            ]);
        }
    }
    r
}

/// Element `i` of a state with each block of four multiplied by the matrix.
pub open spec fn matmul_four(s: Seq<Elt>, i: int) -> Elt {
    let k = i - i % 4;
    if i % 4 == 0 {
        combine(5, s[k], 7, s[k + 1], 1, s[k + 2], 3, s[k + 3])
    } else if i % 4 == 1 {
        combine(4, s[k], 6, s[k + 1], 1, s[k + 2], 1, s[k + 3])
    } else if i % 4 == 2 {
        combine(1, s[k], 3, s[k + 1], 5, s[k + 2], 7, s[k + 3])
    } else {
        combine(1, s[k], 1, s[k + 1], 4, s[k + 2], 6, s[k + 3])
    }
}

/// Each block of four multiplied by the matrix.
pub open spec fn matmul_blocks(s: Seq<Elt>) -> Seq<Elt> {
    Seq::new(12, |i: int| matmul_four(s, i))
}

/// Multiplies each block of four targets by the matrix.
pub fn matmul_m4_circuit(builder: &mut CircuitBuilder, input: [ExtensionTarget; 12]) -> (r: [
    ExtensionTarget;
    12
])
    requires
        old(builder).wf(),
        targets_in(old(builder).nodes@, input@),
    ensures
        computes(*old(builder), *final(builder), input@, r@, |s: Seq<Elt>| matmul_blocks(s)),
{
    let ghost n0 = builder.nodes@;
    let ghost rest = *builder;
    let mut r = input;
    let mut i: usize = 0;
    while i < 3
        invariant
            i <= 3,
            builder.wf(),
            grown(n0, builder.nodes@),
            same_rest(rest, *builder),
            targets_in(n0, input@),
            targets_in(builder.nodes@, r@),
            forall|k: int, asg: Assignment|
                0 <= k < 4 * i && asg.wf() ==> #[trigger] node_value(
                    builder.nodes@,
                    asg,
                    r@[k].index as int,
                ) == matmul_four(target_values(n0, asg, input@), k),
        decreases 3 - i,
    {
        let ghost m0 = builder.nodes@;
        let ghost r0 = r@;
        let x = [input[4 * i], input[4 * i + 1], input[4 * i + 2], input[4 * i + 3]];
        proof {
            assert forall|k: int| 0 <= k < 4 implies (#[trigger] x@[k]).index < n0.len() by {
                assert(x@[k] == input@[4 * i + k]);
            }
            assert(targets_in(n0, x@));
        }
        let y = matmul_block_circuit(builder, x);
        let ghost m1 = builder.nodes@;
        r[4 * i] = y[0];
        r[4 * i + 1] = y[1];
        r[4 * i + 2] = y[2];
        r[4 * i + 3] = y[3];
        proof {
            assert forall|k: int| 0 <= k < 12 implies (#[trigger] r@[k]).index < m1.len() by {
                if 4 * i <= k < 4 * i + 4 {
                    assert(y@[k - 4 * i].index < m1.len());
                } else {
                    assert(r@[k] == r0[k]);
                }
            }
            assert forall|k: int, asg: Assignment|
                0 <= k < 4 * (i + 1) && asg.wf() implies #[trigger] node_value(
                m1,
                asg,
                r@[k].index as int,
            ) == matmul_four(target_values(n0, asg, input@), k) by {
                if k < 4 * i {
                    assert(r@[k] == r0[k]);
                    assert(r0[k].index < m0.len());
                    lemma_value_kept(m0, m1, asg, r0[k].index as int);
                    assert(node_value(m0, asg, r0[k].index as int) == matmul_four(
                        target_values(n0, asg, input@),
                        k,
                    ));
                } else {
                    let j = k - 4 * i;
                    lemma_values_kept(n0, m0, asg, x@);
                    let s = target_values(n0, asg, input@);
                    let u = target_values(m0, asg, x@);
                    assert(u[0] == s[4 * i] && u[1] == s[4 * i + 1] && u[2] == s[4 * i + 2] && u[3]
                        == s[4 * i + 3]);
                    assert(target_values(m1, asg, y@)[j] == node_value(
                        m1,
                        asg,
                        y@[j].index as int,
                    ));
                    assert(j == 0 || j == 1 || j == 2 || j == 3);
                }
            }
        }
        i = i + 1;
    }
    proof {
        let n = builder.nodes@;
        assert forall|asg: Assignment| asg.wf() implies #[trigger] target_values(n, asg, r@)
            == matmul_blocks(target_values(n0, asg, input@)) by {
            let s = target_values(n0, asg, input@);
            assert forall|k: int| 0 <= k < 12 implies target_values(n, asg, r@)[k]
                == #[trigger] matmul_blocks(s)[k] by {
                assert(node_value(n, asg, r@[k].index as int) == matmul_four(s, k));
            }
            assert(target_values(n, asg, r@) =~= matmul_blocks(s));
        }
    }
    r
}

} // verus!
