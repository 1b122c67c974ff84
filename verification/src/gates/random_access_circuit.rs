//! The constraints of the random access gate as a part of a circuit.

use crate::field::extension::QuadraticExtension;
use crate::field::model::{
    Elt, base, elt1, lemma_mul_dist, lemma_mul_one_zero, lemma_reduced_add, lemma_reduced_mul,
    lemma_reduced_self,
};
use crate::field::types::Field;
use crate::gadgets::select::lemma_selected_choose;
use crate::gates::circuits::{circuit_done, circuit_prefix, lemma_prefix_grown, lemma_prefix_push};
use crate::gates::gate::Gate;
use crate::gates::random_access::{
    RandomAccessGate, digits_value, fold_items, fold_pairs, lemma_constraint_index,
};
use crate::plonk::circuit_builder::{
    Assignment, CircuitBuilder, ExtensionNode, ExtensionTarget, grown, lemma_value_kept,
    lemma_value_wf, lemma_values_kept, node_value, nodes_ok, same_rest, target_values, targets_in,
};
use crate::util::bits::{lemma_pow2_basics, lemma_pow2_double};
use vstd::arithmetic::power2::pow2;
use vstd::prelude::*;

verus! {

/// The number that some digits give.
fn digits_circuit(builder: &mut CircuitBuilder, digits: &Vec<ExtensionTarget>) -> (r:
    ExtensionTarget)
    requires
        old(builder).wf(),
        targets_in(old(builder).nodes@, digits@),
    ensures
        grown(old(builder).nodes@, final(builder).nodes@),
        same_rest(*old(builder), *final(builder)),
        r.index < final(builder).nodes@.len(),
        forall|asg: Assignment|
            asg.wf() ==> #[trigger] node_value(final(builder).nodes@, asg, r.index as int)
                == digits_value(target_values(old(builder).nodes@, asg, digits@), 0),
{
    let ghost n0 = builder.nodes@;
    let ghost rest = *builder;
    let zero_value = QuadraticExtension::zero();
    let two_value = QuadraticExtension::from_noncanonical_u64(2);
    proof {
        QuadraticExtension::lemma_values(zero_value);
        QuadraticExtension::lemma_const(2);
    }
    let zero = builder.constant_extension(zero_value);
    let ghost n1 = builder.nodes@;
    let two = builder.constant_extension(two_value);
    let ghost n2 = builder.nodes@;
    let mut acc = zero;
    let mut i: usize = digits.len();
    proof {
        assert forall|asg: Assignment| asg.wf() implies #[trigger] node_value(
            n2,
            asg,
            acc.index as int,
        ) == digits_value(target_values(n0, asg, digits@), i as int) by {
            lemma_value_kept(n1, n2, asg, zero.index as int);
        }
    }
    while i > 0
        invariant
            i <= digits@.len(),
            builder.wf(),
            grown(n0, builder.nodes@),
            grown(n2, builder.nodes@),
            same_rest(rest, *builder),
            targets_in(n0, digits@),
            two.index < n2.len(),
            forall|asg: Assignment| #[trigger]
                node_value(n2, asg, two.index as int) == base(2),
            acc.index < builder.nodes@.len(),
            forall|asg: Assignment|
                asg.wf() ==> #[trigger] node_value(builder.nodes@, asg, acc.index as int)
                    == digits_value(target_values(n0, asg, digits@), i as int),
        decreases i,
    {
        i = i - 1;
        let ghost m0 = builder.nodes@;
        let ghost acc0 = acc;
        let b = digits[i];
        assert(digits@[i as int].index < n0.len());
        acc = builder.mul_add_extension(acc, two, b);
        let ghost m1 = builder.nodes@;
        proof {
            assert forall|asg: Assignment| asg.wf() implies #[trigger] node_value(
                m1,
                asg,
                acc.index as int,
            ) == digits_value(target_values(n0, asg, digits@), i as int) by {
                lemma_value_kept(m0, m1, asg, acc0.index as int);
                lemma_value_kept(n2, m1, asg, two.index as int);
                lemma_value_kept(n0, m1, asg, b.index as int);
                let v = digits_value(target_values(n0, asg, digits@), i + 1);
                assert(node_value(m0, asg, acc0.index as int) == v);
                lemma_value_wf(m0, asg, acc0.index as int);
                lemma_double(v);
            }
        }
    }
    acc
}

proof fn lemma_double(v: Elt)
    requires
        v.wf(),
    ensures
        v * base(2) == v + v,
{
    lemma_reduced_self(v);
    lemma_reduced_mul(v.re, v.im, 2, 0);
    lemma_reduced_add(v.re, v.im, v.re, v.im);
    assert(v.im * 0 == 0 && v.re * 0 == 0);
}

/// Folds the pairs of a list by one bit.
fn fold_list_circuit(
    builder: &mut CircuitBuilder,
    items: &Vec<ExtensionTarget>,
    b: ExtensionTarget,
) -> (r: Vec<ExtensionTarget>)
    requires
        old(builder).wf(),
        targets_in(old(builder).nodes@, items@),
        b.index < old(builder).nodes@.len(),
        items@.len() % 2 == 0,
    ensures
        grown(old(builder).nodes@, final(builder).nodes@),
        same_rest(*old(builder), *final(builder)),
        targets_in(final(builder).nodes@, r@),
        r@.len() == items@.len() / 2,
        forall|asg: Assignment|
            asg.wf() ==> #[trigger] target_values(final(builder).nodes@, asg, r@) == fold_pairs(
                target_values(old(builder).nodes@, asg, items@),
                node_value(old(builder).nodes@, asg, b.index as int),
            ),
{
    let ghost n0 = builder.nodes@;
    let ghost rest = *builder;
    let n: usize = items.len();
    let half: usize = n / 2;
    let mut r: Vec<ExtensionTarget> = Vec::with_capacity(half);
    while r.len() < half
        invariant
            r@.len() <= half,
            n == items@.len() == 2 * half,
            nodes_ok(n0),
            builder.wf(),
            grown(n0, builder.nodes@),
            same_rest(rest, *builder),
            targets_in(n0, items@),
            b.index < n0.len(),
            targets_in(builder.nodes@, r@),
            forall|k: int, asg: Assignment|
                0 <= k < r@.len() && asg.wf() ==> #[trigger] node_value(
                    builder.nodes@,
                    asg,
                    r@[k].index as int,
                ) == fold_pairs(
                    target_values(n0, asg, items@),
                    node_value(n0, asg, b.index as int),
                )[k],
        decreases half - r@.len(),
    {
        let k: usize = r.len();
        let ghost m0 = builder.nodes@;
        let ghost r0 = r@;
        let x = items[2 * k];
        let y = items[2 * k + 1];
        assert(items@[2 * k].index < n0.len() && items@[2 * k + 1].index < n0.len());
        let t = builder.select_ext_generalized(b, y, x);
        let ghost m1 = builder.nodes@;
        r.push(t);
        proof {
            assert forall|j: int, asg: Assignment| 0 <= j < r@.len() && asg.wf() implies #[trigger] node_value(
                m1,
                asg,
                r@[j].index as int,
            ) == fold_pairs(
                target_values(n0, asg, items@),
                node_value(n0, asg, b.index as int),
            )[j] by {
                if j < k {
                    assert(r@[j] == r0[j]);
                    assert(r0[j].index < m0.len());
                    lemma_value_kept(m0, m1, asg, r0[j].index as int);
                    assert(node_value(m0, asg, r0[j].index as int) == fold_pairs(
                        target_values(n0, asg, items@),
                        node_value(n0, asg, b.index as int),
                    )[j]);
                } else {
                    lemma_value_kept(n0, m0, asg, b.index as int);
                    lemma_value_kept(n0, m0, asg, x.index as int);
                    lemma_value_kept(n0, m0, asg, y.index as int);
                    lemma_value_wf(n0, asg, b.index as int);
                    lemma_value_wf(n0, asg, x.index as int);
                    lemma_value_wf(n0, asg, y.index as int);
                    lemma_selected_choose(
                        node_value(n0, asg, b.index as int),
                        node_value(n0, asg, y.index as int),
                        node_value(n0, asg, x.index as int),
                    );
                }
            }
        }
    }
    proof {
        let m = builder.nodes@;
        assert forall|asg: Assignment| asg.wf() implies #[trigger] target_values(m, asg, r@)
            == fold_pairs(
            target_values(n0, asg, items@),
            node_value(n0, asg, b.index as int),
        ) by {
            let target = fold_pairs(
                target_values(n0, asg, items@),
                node_value(n0, asg, b.index as int),
            );
            assert forall|j: int| 0 <= j < half implies target_values(m, asg, r@)[j]
                == #[trigger] target[j] by {
                assert(node_value(m, asg, r@[j].index as int) == target[j]);
            }
            assert(target_values(m, asg, r@) =~= target);
        }
    }
    r
}

/// The item that some bits select.
fn fold_all_circuit(
    builder: &mut CircuitBuilder,
    items: Vec<ExtensionTarget>,
    digits: &Vec<ExtensionTarget>,
) -> (r: ExtensionTarget)
    requires
        old(builder).wf(),
        targets_in(old(builder).nodes@, items@),
        targets_in(old(builder).nodes@, digits@),
        items@.len() == pow2(digits@.len()),
    ensures
        grown(old(builder).nodes@, final(builder).nodes@),
        same_rest(*old(builder), *final(builder)),
        r.index < final(builder).nodes@.len(),
        forall|asg: Assignment|
            asg.wf() ==> #[trigger] node_value(final(builder).nodes@, asg, r.index as int)
                == fold_items(
                target_values(old(builder).nodes@, asg, items@),
                target_values(old(builder).nodes@, asg, digits@),
                digits@.len(),
            )[0],
{
    let ghost n0 = builder.nodes@;
    let ghost rest = *builder;
    let bits: usize = digits.len();
    let ghost items0 = items@;
    let mut list = items;
    let mut i: usize = 0;
    while i < bits
        invariant
            i <= bits == digits@.len(),
            builder.wf(),
            grown(n0, builder.nodes@),
            same_rest(rest, *builder),
            targets_in(n0, digits@),
            targets_in(builder.nodes@, list@),
            list@.len() == pow2((bits - i) as nat),
            forall|asg: Assignment|
                asg.wf() ==> #[trigger] target_values(builder.nodes@, asg, list@) == fold_items(
                    target_values(n0, asg, items0),
                    target_values(n0, asg, digits@),
                    i as nat,
                ),
        decreases bits - i,
    {
        let ghost m0 = builder.nodes@;
        let ghost list0 = list@;
        proof {
            lemma_pow2_double((bits - i - 1) as nat);
        }
        let b = digits[i];
        assert(digits@[i as int].index < n0.len());
        list = fold_list_circuit(builder, &list, b);
        proof {
            assert forall|asg: Assignment| asg.wf() implies #[trigger] target_values(
                builder.nodes@,
                asg,
                list@,
            ) == fold_items(
                target_values(n0, asg, items0),
                target_values(n0, asg, digits@),
                (i + 1) as nat,
            ) by {
                lemma_value_kept(n0, m0, asg, b.index as int);
                assert(target_values(m0, asg, list0) == fold_items(
                    target_values(n0, asg, items0),
                    target_values(n0, asg, digits@),
                    i as nat,
                ));
                assert(target_values(n0, asg, digits@)[i as int] == node_value(
                    n0,
                    asg,
                    b.index as int,
                ));
            }
        }
        i = i + 1;
    }
    proof {
        lemma_pow2_basics();
        assert(list@[0].index < builder.nodes@.len());
        assert forall|asg: Assignment| asg.wf() implies #[trigger] node_value(
            builder.nodes@,
            asg,
            list@[0].index as int,
        ) == fold_items(
            target_values(n0, asg, items0),
            target_values(n0, asg, digits@),
            bits as nat,
        )[0] by {
            assert(target_values(builder.nodes@, asg, list@)[0] == node_value(
                builder.nodes@,
                asg,
                list@[0].index as int,
            ));
        }
    }
    list[0]
}

/// A part of a slice of targets.
fn targets_part(v: &[ExtensionTarget], start: usize, len: usize) -> (r: Vec<ExtensionTarget>)
    requires
        start + len <= v@.len(),
    ensures
        r@ == v@.subrange(start as int, start + len),
{
    let n: usize = v.len();
    let mut r: Vec<ExtensionTarget> = Vec::with_capacity(len);
    while r.len() < len
        invariant
            r@.len() <= len,
            start + len <= n == v@.len(),
            r@ == v@.subrange(start as int, start + r@.len()),
        decreases len - r@.len(),
    {
        let i: usize = r.len();
        r.push(v[start + i]);
        assert(r@ =~= v@.subrange(start as int, start + r@.len()));
    }
    r
}

/// Appends the constraints of one copy.
fn eval_copy_circuit(
    gate: &RandomAccessGate,
    builder: &mut CircuitBuilder,
    wires: &[ExtensionTarget],
    copy: usize,
    r: &mut Vec<ExtensionTarget>,
    Ghost(n0): Ghost<Seq<ExtensionNode>>,
    Ghost(constants): Ghost<Seq<ExtensionTarget>>,
)
    requires
        gate.wf(),
        old(builder).wf(),
        grown(n0, old(builder).nodes@),
        wires@.len() >= gate.wire_count(),
        targets_in(n0, wires@),
        copy < gate.num_copies,
        old(r)@.len() == copy * (gate.bits + 2),
        circuit_prefix(*gate, n0, old(builder).nodes@, wires@, constants, old(r)@),
    ensures
        grown(old(builder).nodes@, final(builder).nodes@),
        same_rest(*old(builder), *final(builder)),
        final(r)@.len() == (copy + 1) * (gate.bits + 2),
        circuit_prefix(*gate, n0, final(builder).nodes@, wires@, constants, final(r)@),
{
    let ghost g = *gate;
    let ghost rest = *builder;
    let ghost m0 = builder.nodes@;
    let ghost start = r@.len() as int;
    proof {
        g.lemma_copy(copy as int);
        g.lemma_sizes();
        assert((copy + 1) * (g.bits + 2) == copy * (g.bits + 2) + (g.bits + 2))
            by (nonlinear_arith);
    }
    let bits: usize = gate.bits;
    let bit_start: usize = gate.num_routed_wires() + copy * bits;
    let index_wire: usize = gate.wire_access_index(copy);
    let access_index = wires[index_wire];
    let claimed_element = wires[gate.wire_claimed_element(copy)];
    let vec_size: usize = gate.vec_size();
    let items = targets_part(wires, index_wire + 2, vec_size);
    let digits = targets_part(wires, bit_start, bits);
    proof {
        assert(wires@[g.stride() * copy].index < n0.len());
        assert(wires@[g.stride() * copy + 1].index < n0.len());
        assert forall|i: int| 0 <= i < bits implies (#[trigger] digits@[i]).index < n0.len() by {
            assert(digits@[i] == wires@[bit_start + i]);
        }
        assert forall|i: int| 0 <= i < vec_size implies (#[trigger] items@[i]).index < n0.len() by {
            assert(items@[i] == wires@[index_wire + 2 + i]);
        }
        assert forall|asg: Assignment| #[trigger]
            target_values(n0, asg, digits@) == g.digits(
                target_values(n0, asg, wires@),
                copy as int,
            ) by {
            assert(target_values(n0, asg, digits@) =~= g.digits(
                target_values(n0, asg, wires@),
                copy as int,
            ));
        }
        assert forall|asg: Assignment| #[trigger]
            target_values(n0, asg, items@) == g.items(
                target_values(n0, asg, wires@),
                copy as int,
            ) by {
            assert(target_values(n0, asg, items@) =~= g.items(
                target_values(n0, asg, wires@),
                copy as int,
            ));
        }
    }
    let mut i: usize = 0;
    while i < bits
        invariant
            i <= bits == g.bits == digits@.len(),
            g == *gate,
            g.wf(),
            copy < g.num_copies,
            nodes_ok(m0),
            builder.wf(),
            grown(n0, builder.nodes@),
            grown(n0, m0),
            grown(m0, builder.nodes@),
            same_rest(rest, *builder),
            targets_in(n0, digits@),
            start == copy * (g.bits + 2),
            r@.len() == start + i,
            circuit_prefix(g, n0, builder.nodes@, wires@, constants, r@),
            forall|asg: Assignment| #[trigger]
                target_values(n0, asg, digits@) == g.digits(
                    target_values(n0, asg, wires@),
                    copy as int,
                ),
        decreases bits - i,
    {
        let ghost m1 = builder.nodes@;
        let ghost r0 = r@;
        let b = digits[i];
        assert(digits@[i as int].index < n0.len());
        let c = builder.mul_sub_extension(b, b, b);
        r.push(c);
        proof {
            let n = builder.nodes@;
            lemma_prefix_grown(g, n0, m1, n, wires@, constants, r0);
            lemma_constraint_index(g, copy as int, i as int);
            g.lemma_sizes();
            assert forall|asg: Assignment| asg.wf() implies #[trigger] node_value(
                n,
                asg,
                c.index as int,
            ) == g.constraints(
                target_values(n0, asg, wires@),
                target_values(n0, asg, constants),
            )[r0.len() as int] by {
                lemma_value_kept(n0, n, asg, b.index as int);
                lemma_value_kept(n0, m0, asg, b.index as int);
                lemma_value_wf(m0, asg, b.index as int);
                let v = node_value(n0, asg, b.index as int);
                assert(target_values(n0, asg, digits@)[i as int] == v);
                lemma_mul_dist(v, v, elt1());
                lemma_mul_one_zero(v);
            }
            lemma_prefix_push(g, n0, n, wires@, constants, r0, c);
        }
        i = i + 1;
    }
    let ghost m2 = builder.nodes@;
    proof {
        assert(targets_in(m2, digits@)) by {
            assert forall|k: int| 0 <= k < bits implies (#[trigger] digits@[k]).index < m2.len() by {
                assert(digits@[k].index < n0.len());
            }
        }
        assert(targets_in(m2, items@)) by {
            assert forall|k: int| 0 <= k < vec_size implies (#[trigger] items@[k]).index
                < m2.len() by {
                assert(items@[k].index < n0.len());
            }
        }
    }
    let reconstructed_index = digits_circuit(builder, &digits);
    let ghost m3 = builder.nodes@;
    let c = builder.sub_extension(reconstructed_index, access_index);
    let ghost m4 = builder.nodes@;
    let ghost r1 = r@;
    r.push(c);
    proof {
        assert(grown(m2, m4));
        lemma_prefix_grown(g, n0, m2, m4, wires@, constants, r1);
        lemma_constraint_index(g, copy as int, bits as int);
        assert forall|asg: Assignment| asg.wf() implies #[trigger] node_value(
            m4,
            asg,
            c.index as int,
        ) == g.constraints(
            target_values(n0, asg, wires@),
            target_values(n0, asg, constants),
        )[r1.len() as int] by {
            lemma_value_kept(m3, m4, asg, reconstructed_index.index as int);
            lemma_value_kept(n0, m4, asg, access_index.index as int);
            lemma_values_kept(n0, m2, asg, digits@);
            assert(target_values(n0, asg, digits@) == g.digits(
                target_values(n0, asg, wires@),
                copy as int,
            ));
        }
        lemma_prefix_push(g, n0, m4, wires@, constants, r1, c);
        assert(targets_in(m4, digits@)) by {
            assert forall|k: int| 0 <= k < bits implies (#[trigger] digits@[k]).index < m4.len() by {
                assert(digits@[k].index < n0.len());
            }
        }
        assert(targets_in(m4, items@)) by {
            assert forall|k: int| 0 <= k < vec_size implies (#[trigger] items@[k]).index
                < m4.len() by {
                assert(items@[k].index < n0.len());
            }
        }
    }
    let ghost items0 = items@;
    let item = fold_all_circuit(builder, items, &digits);
    let ghost m5 = builder.nodes@;
    let d = builder.sub_extension(item, claimed_element);
    let ghost m6 = builder.nodes@;
    let ghost r2 = r@;
    r.push(d);
    proof {
        assert(grown(m4, m6));
        lemma_prefix_grown(g, n0, m4, m6, wires@, constants, r2);
        lemma_constraint_index(g, copy as int, bits + 1);
        assert forall|asg: Assignment| asg.wf() implies #[trigger] node_value(
            m6,
            asg,
            d.index as int,
        ) == g.constraints(
            target_values(n0, asg, wires@),
            target_values(n0, asg, constants),
        )[r2.len() as int] by {
            lemma_value_kept(m5, m6, asg, item.index as int);
            lemma_value_kept(n0, m6, asg, claimed_element.index as int);
            lemma_values_kept(n0, m4, asg, digits@);
            lemma_values_kept(n0, m4, asg, items0);
            assert(target_values(n0, asg, digits@) == g.digits(
                target_values(n0, asg, wires@),
                copy as int,
            ));
            assert(target_values(n0, asg, items0) == g.items(
                target_values(n0, asg, wires@),
                copy as int,
            ));
        }
        lemma_prefix_push(g, n0, m6, wires@, constants, r2, d);
    }
}

impl RandomAccessGate {
    /// The constraints as a part of a circuit.
    pub fn eval_unfiltered_circuit(
        &self,
        builder: &mut CircuitBuilder,
        local_wires: &[ExtensionTarget],
        local_constants: &[ExtensionTarget],
    ) -> (r: Vec<ExtensionTarget>)
        requires
            self.wf(),
            old(builder).wf(),
            local_wires@.len() >= self.wire_count(),
            local_constants@.len() >= self.constant_count(),
            targets_in(old(builder).nodes@, local_wires@),
            targets_in(old(builder).nodes@, local_constants@),
        ensures
            circuit_done(
                *self,
                *old(builder),
                *final(builder),
                local_wires@,
                local_constants@,
                r@,
            ),
    {
        let ghost g = *self;
        let ghost n0 = builder.nodes@;
        let ghost rest = *builder;
        proof {
            g.lemma_sizes();
            assert(0 * (g.bits + 2) == 0);
        }
        let mut r: Vec<ExtensionTarget> = Vec::new();
        let mut copy: usize = 0;
        while copy < self.num_copies
            invariant
                copy <= self.num_copies,
                g == *self,
                g.wf(),
                builder.wf(),
                grown(n0, builder.nodes@),
                same_rest(rest, *builder),
                local_wires@.len() >= g.wire_count(),
                targets_in(n0, local_wires@),
                r@.len() == copy * (g.bits + 2),
                circuit_prefix(g, n0, builder.nodes@, local_wires@, local_constants@, r@),
            decreases self.num_copies - copy,
        {
            eval_copy_circuit(
                self,
                builder,
                local_wires,
                copy,
                &mut r,
                Ghost(n0),
                Ghost(local_constants@),
            );
            copy = copy + 1;
        }
        let mut i: usize = 0;
        while i < self.num_extra_constants
            invariant
                i <= self.num_extra_constants,
                g == *self,
                g.wf(),
                builder.wf(),
                grown(n0, builder.nodes@),
                same_rest(rest, *builder),
                local_wires@.len() >= g.wire_count(),
                local_constants@.len() >= g.num_extra_constants,
                targets_in(n0, local_wires@),
                targets_in(n0, local_constants@),
                r@.len() == g.copy_constraints() + i,
                circuit_prefix(g, n0, builder.nodes@, local_wires@, local_constants@, r@),
            decreases self.num_extra_constants - i,
        {
            let ghost m0 = builder.nodes@;
            let ghost r0 = r@;
            proof {
                g.lemma_sizes();
            }
            let column: usize = self.wire_extra_constant(i);
            assert(local_wires@[column as int].index < n0.len());
            assert(local_constants@[i as int].index < n0.len());
            let c = builder.sub_extension(local_constants[i], local_wires[column]);
            r.push(c);
            proof {
                let n = builder.nodes@;
                lemma_prefix_grown(g, n0, m0, n, local_wires@, local_constants@, r0);
                assert forall|asg: Assignment| asg.wf() implies #[trigger] node_value(
                    n,
                    asg,
                    c.index as int,
                ) == g.constraints(
                    target_values(n0, asg, local_wires@),
                    target_values(n0, asg, local_constants@),
                )[r0.len() as int] by {
                    lemma_value_kept(n0, n, asg, local_wires@[column as int].index as int);
                    lemma_value_kept(n0, n, asg, local_constants@[i as int].index as int);
                }
                lemma_prefix_push(g, n0, n, local_wires@, local_constants@, r0, c);
            }
            i = i + 1;
        }
        r
    }
}

} // verus!
