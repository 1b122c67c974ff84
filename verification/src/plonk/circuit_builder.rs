//! Circuits under construction: arithmetic on extension targets, rows of gates and connections.

use crate::field::extension::QuadraticExtension;
use crate::field::model::{Elt, elt0, elt1, group_elt_wf, lemma_mul_one_zero};
use crate::field::types::Field;
use crate::gates::gate::CircuitConfig;
use crate::gates::select_base::SelectionGate;
use crate::hash::poseidon2::permutation::Poseidon2;
use crate::iop::target::Target;
use vstd::prelude::*;

verus! {

/// A value of the extension field that a circuit computes.
#[derive(Clone, Copy, Debug, PartialEq, Eq, Structural)]
pub struct ExtensionTarget {
    pub index: usize,
}

/// How the value of an extension target comes about. Operands are indices of earlier targets.
#[derive(Clone, Copy, Debug)]
pub enum ExtensionNode {
    /// The witness gives the value.
    Input,
    /// A constant.
    Constant(QuadraticExtension),
    /// The value of a target of the prime field.
    FromBase(Target),
    /// A sum.
    Sum(usize, usize),
    /// A difference.
    Difference(usize, usize),
    /// A product.
    Product(usize, usize),
    /// A product plus a third value.
    ProductPlus(usize, usize, usize),
    /// A product minus a third value.
    ProductMinus(usize, usize, usize),
}

/// The operands of a node come before position `i`.
pub open spec fn node_ok(node: ExtensionNode, i: int) -> bool {
    match node {
        ExtensionNode::Input => true,
        ExtensionNode::Constant(c) => true,
        ExtensionNode::FromBase(t) => true,
        ExtensionNode::Sum(a, b) => a < i && b < i,
        ExtensionNode::Difference(a, b) => a < i && b < i,
        ExtensionNode::Product(a, b) => a < i && b < i,
        ExtensionNode::ProductPlus(a, b, c) => a < i && b < i && c < i,
        ExtensionNode::ProductMinus(a, b, c) => a < i && b < i && c < i,
    }
}

/// Every node only refers to earlier ones.
pub open spec fn nodes_ok(nodes: Seq<ExtensionNode>) -> bool {
    forall|i: int| 0 <= i < nodes.len() ==> node_ok(#[trigger] nodes[i], i)
}

/// The values that a witness gives to the targets of the prime field and to the inputs among the
/// extension targets.
pub struct Assignment {
    pub base: spec_fn(Target) -> Elt,
    pub ext: spec_fn(int) -> Elt,
}

impl Assignment {
    /// All values are reduced, and those of targets of the prime field lie in it.
    pub open spec fn wf(self) -> bool {
        &&& forall|t: Target| (#[trigger] (self.base)(t)).wf() && (self.base)(t).im == 0
        &&& forall|i: int| (#[trigger] (self.ext)(i)).wf()
    }
}

/// The value of the extension target with index `i`.
pub open spec fn node_value(nodes: Seq<ExtensionNode>, asg: Assignment, i: int) -> Elt
    decreases i,
{
    if i < 0 || !node_ok(nodes[i], i) {
        elt0()
    } else {
        match nodes[i] {
            ExtensionNode::Input => (asg.ext)(i),
            ExtensionNode::Constant(c) => c.v(),
            ExtensionNode::FromBase(t) => (asg.base)(t),
            ExtensionNode::Sum(a, b) => node_value(nodes, asg, a as int) + node_value(
                nodes,
                asg,
                b as int,
            ),
            ExtensionNode::Difference(a, b) => node_value(nodes, asg, a as int) - node_value(
                nodes,
                asg,
                b as int,
            ),
            ExtensionNode::Product(a, b) => node_value(nodes, asg, a as int) * node_value(
                nodes,
                asg,
                b as int,
            ),
            ExtensionNode::ProductPlus(a, b, c) => node_value(nodes, asg, a as int) * node_value(
                nodes,
                asg,
                b as int,
            ) + node_value(nodes, asg, c as int),
            ExtensionNode::ProductMinus(a, b, c) => node_value(nodes, asg, a as int) * node_value(
                nodes,
                asg,
                b as int,
            ) - node_value(nodes, asg, c as int),
        }
    }
}

/// The values of a sequence of extension targets.
pub open spec fn target_values(
    nodes: Seq<ExtensionNode>,
    asg: Assignment,
    targets: Seq<ExtensionTarget>,
) -> Seq<Elt> {
    Seq::new(targets.len(), |i: int| node_value(nodes, asg, targets[i].index as int))
}

/// All targets are among the nodes.
pub open spec fn targets_in(nodes: Seq<ExtensionNode>, targets: Seq<ExtensionTarget>) -> bool {
    forall|i: int| 0 <= i < targets.len() ==> (#[trigger] targets[i]).index < nodes.len()
}

/// A circuit that has grown by further nodes.
pub open spec fn grown(old_nodes: Seq<ExtensionNode>, new_nodes: Seq<ExtensionNode>) -> bool {
    &&& nodes_ok(new_nodes)
    &&& old_nodes.len() <= new_nodes.len()
    &&& forall|i: int| 0 <= i < old_nodes.len() ==> #[trigger] new_nodes[i] == old_nodes[i]
}

/// Further nodes do not change values.
pub proof fn lemma_value_kept(
    old_nodes: Seq<ExtensionNode>,
    new_nodes: Seq<ExtensionNode>,
    asg: Assignment,
    i: int,
)
    requires
        grown(old_nodes, new_nodes),
        0 <= i < old_nodes.len(),
    ensures
        node_value(new_nodes, asg, i) == node_value(old_nodes, asg, i),
    decreases i,
{
    let node = old_nodes[i];
    assert(new_nodes[i] == node);
    assert(node_ok(new_nodes[i], i));
    match node {
        ExtensionNode::Sum(a, b) => {
            lemma_value_kept(old_nodes, new_nodes, asg, a as int);
            lemma_value_kept(old_nodes, new_nodes, asg, b as int);
        },
        ExtensionNode::Difference(a, b) => {
            lemma_value_kept(old_nodes, new_nodes, asg, a as int);
            lemma_value_kept(old_nodes, new_nodes, asg, b as int);
        },
        ExtensionNode::Product(a, b) => {
            lemma_value_kept(old_nodes, new_nodes, asg, a as int);
            lemma_value_kept(old_nodes, new_nodes, asg, b as int);
        },
        ExtensionNode::ProductPlus(a, b, c) => {
            lemma_value_kept(old_nodes, new_nodes, asg, a as int);
            lemma_value_kept(old_nodes, new_nodes, asg, b as int);
            lemma_value_kept(old_nodes, new_nodes, asg, c as int);
        },
        ExtensionNode::ProductMinus(a, b, c) => {
            lemma_value_kept(old_nodes, new_nodes, asg, a as int);
            lemma_value_kept(old_nodes, new_nodes, asg, b as int);
            lemma_value_kept(old_nodes, new_nodes, asg, c as int);
        },
        _ => {},
    }
}

/// Further nodes do not change the values of targets.
pub proof fn lemma_values_kept(
    old_nodes: Seq<ExtensionNode>,
    new_nodes: Seq<ExtensionNode>,
    asg: Assignment,
    targets: Seq<ExtensionTarget>,
)
    requires
        grown(old_nodes, new_nodes),
        targets_in(old_nodes, targets),
    ensures
        target_values(new_nodes, asg, targets) == target_values(old_nodes, asg, targets),
        targets_in(new_nodes, targets),
{
    assert forall|i: int| 0 <= i < targets.len() implies target_values(
        new_nodes,
        asg,
        targets,
    )[i] == #[trigger] target_values(old_nodes, asg, targets)[i] by {
        assert(targets[i].index < old_nodes.len());
        lemma_value_kept(old_nodes, new_nodes, asg, targets[i].index as int);
    }
    assert(target_values(new_nodes, asg, targets) =~= target_values(old_nodes, asg, targets));
}

/// Values are reduced.
pub proof fn lemma_value_wf(nodes: Seq<ExtensionNode>, asg: Assignment, i: int)
    requires
        asg.wf(),
        nodes_ok(nodes),
        0 <= i < nodes.len(),
    ensures
        node_value(nodes, asg, i).wf(),
{
    broadcast use group_elt_wf;

    assert(node_ok(nodes[i], i));
    match nodes[i] {
        ExtensionNode::Input => {
            assert((asg.ext)(i).wf());
        },
        ExtensionNode::Constant(c) => {
            QuadraticExtension::lemma_values(c);
        },
        ExtensionNode::FromBase(t) => {
            assert((asg.base)(t).wf());
        },
        _ => {},
    }
}

/// A row of a circuit.
#[derive(Clone, Copy, Debug)]
pub enum GateKind {
    /// A Poseidon2 permutation.
    Poseidon2,
    /// Selections.
    Selection(SelectionGate),
}

/// A product minus a third value, on targets of the prime field.
#[derive(Clone, Copy, Debug)]
pub struct BaseOperation {
    pub out: Target,
    pub a: Target,
    pub b: Target,
    pub c: Target,
}

/// The operands of a selection.
#[derive(Clone, Copy, Debug, PartialEq, Eq, Structural)]
pub struct BaseSelectionOperation {
    pub b: Target,
    pub x: Target,
    pub y: Target,
}

/// A circuit under construction.
#[derive(Debug)]
pub struct CircuitBuilder {
    /// The sizes of rows.
    pub config: CircuitConfig,
    /// The extension targets so far.
    pub nodes: Vec<ExtensionNode>,
    /// The arithmetic on targets of the prime field so far.
    pub base_operations: Vec<BaseOperation>,
    /// The number of targets without a place so far.
    pub virtual_targets: usize,
    /// The rows so far.
    pub rows: Vec<GateKind>,
    /// The targets that have to hold equal values.
    pub connections: Vec<(Target, Target)>,
    /// The place of the next selection in the last row of selections that has room.
    pub selection_slot: Option<(usize, usize)>,
    /// The selections so far, and their results.
    pub base_select_results: Vec<(BaseSelectionOperation, Target)>,
}

/// Everything but the nodes is as before.
pub open spec fn same_rest(a: CircuitBuilder, b: CircuitBuilder) -> bool {
    &&& a.config == b.config
    &&& a.base_operations == b.base_operations
    &&& a.virtual_targets == b.virtual_targets
    &&& a.rows == b.rows
    &&& a.connections == b.connections
    &&& a.selection_slot == b.selection_slot
    &&& a.base_select_results == b.base_select_results
}

/// What appending one node does.
pub open spec fn node_added(
    before: CircuitBuilder,
    after: CircuitBuilder,
    r: ExtensionTarget,
    node: ExtensionNode,
) -> bool {
    &&& after.nodes@ == before.nodes@.push(node)
    &&& grown(before.nodes@, after.nodes@)
    &&& r.index == before.nodes@.len()
    &&& same_rest(before, after)
}

impl CircuitBuilder {
    /// Every node only refers to earlier ones, and there is room for more.
    pub open spec fn wf(self) -> bool {
        nodes_ok(self.nodes@)
    }

    /// An empty circuit.
    pub fn new(config: CircuitConfig) -> (r: Self)
        ensures
            r.wf(),
            r.config == config,
            r.nodes@.len() == 0,
            r.base_operations@.len() == 0,
            r.virtual_targets == 0,
            r.rows@.len() == 0,
            r.connections@.len() == 0,
            r.selection_slot is None,
            r.base_select_results@.len() == 0,
    {
        CircuitBuilder {
            config,
            nodes: Vec::new(),
            base_operations: Vec::new(),
            virtual_targets: 0,
            rows: Vec::new(),
            connections: Vec::new(),
            selection_slot: None,
            base_select_results: Vec::new(),
        }
    }

    fn push_node(&mut self, node: ExtensionNode) -> (r: ExtensionTarget)
        requires
            old(self).wf(),
            node_ok(node, old(self).nodes@.len() as int),
        ensures
            node_added(*old(self), *final(self), r, node),
    {
        let index: usize = self.nodes.len();
        self.nodes.push(node);
        ExtensionTarget { index }
    }

    /// An extension target whose value the witness gives.
    pub fn add_virtual_extension_target(&mut self) -> (r: ExtensionTarget)
        requires
            old(self).wf(),
        ensures
            node_added(*old(self), *final(self), r, ExtensionNode::Input),
            forall|asg: Assignment| #[trigger]
                node_value(final(self).nodes@, asg, r.index as int) == (asg.ext)(r.index as int),
    {
        self.push_node(ExtensionNode::Input)
    }

    /// An extension target with a constant value.
    pub fn constant_extension(&mut self, c: QuadraticExtension) -> (r: ExtensionTarget)
        requires
            old(self).wf(),
        ensures
            node_added(*old(self), *final(self), r, ExtensionNode::Constant(c)),
            forall|asg: Assignment| #[trigger]
                node_value(final(self).nodes@, asg, r.index as int) == c.v(),
    {
        self.push_node(ExtensionNode::Constant(c))
    }

    /// The extension target with the value of a target of the prime field.
    pub fn convert_to_ext(&mut self, t: Target) -> (r: ExtensionTarget)
        requires
            old(self).wf(),
        ensures
            node_added(*old(self), *final(self), r, ExtensionNode::FromBase(t)),
            forall|asg: Assignment| #[trigger]
                node_value(final(self).nodes@, asg, r.index as int) == (asg.base)(t),
    {
        self.push_node(ExtensionNode::FromBase(t))
    }

    /// A sum.
    pub fn add_extension(&mut self, a: ExtensionTarget, b: ExtensionTarget) -> (r: ExtensionTarget)
        requires
            old(self).wf(),
            a.index < old(self).nodes@.len(),
            b.index < old(self).nodes@.len(),
        ensures
            node_added(*old(self), *final(self), r, ExtensionNode::Sum(a.index, b.index)),
            forall|asg: Assignment| #[trigger]
                node_value(final(self).nodes@, asg, r.index as int) == node_value(
                    final(self).nodes@,
                    asg,
                    a.index as int,
                ) + node_value(final(self).nodes@, asg, b.index as int),
    {
        self.push_node(ExtensionNode::Sum(a.index, b.index))
    }

    /// A difference.
    pub fn sub_extension(&mut self, a: ExtensionTarget, b: ExtensionTarget) -> (r: ExtensionTarget)
        requires
            old(self).wf(),
            a.index < old(self).nodes@.len(),
            b.index < old(self).nodes@.len(),
        ensures
            node_added(*old(self), *final(self), r, ExtensionNode::Difference(a.index, b.index)),
            forall|asg: Assignment| #[trigger]
                node_value(final(self).nodes@, asg, r.index as int) == node_value(
                    final(self).nodes@,
                    asg,
                    a.index as int,
                ) - node_value(final(self).nodes@, asg, b.index as int),
    {
        self.push_node(ExtensionNode::Difference(a.index, b.index))
    }

    /// A product.
    pub fn mul_extension(&mut self, a: ExtensionTarget, b: ExtensionTarget) -> (r: ExtensionTarget)
        requires
            old(self).wf(),
            a.index < old(self).nodes@.len(),
            b.index < old(self).nodes@.len(),
        ensures
            node_added(*old(self), *final(self), r, ExtensionNode::Product(a.index, b.index)),
            forall|asg: Assignment| #[trigger]
                node_value(final(self).nodes@, asg, r.index as int) == node_value(
                    final(self).nodes@,
                    asg,
                    a.index as int,
                ) * node_value(final(self).nodes@, asg, b.index as int),
    {
        self.push_node(ExtensionNode::Product(a.index, b.index))
    }

    /// `a * b + c`.
    pub fn mul_add_extension(
        &mut self,
        a: ExtensionTarget,
        b: ExtensionTarget,
        c: ExtensionTarget,
    ) -> (r: ExtensionTarget)
        requires
            old(self).wf(),
            a.index < old(self).nodes@.len(),
            b.index < old(self).nodes@.len(),
            c.index < old(self).nodes@.len(),
        ensures
            node_added(
                *old(self),
                *final(self),
                r,
                ExtensionNode::ProductPlus(a.index, b.index, c.index),
            ),
            forall|asg: Assignment| #[trigger]
                node_value(final(self).nodes@, asg, r.index as int) == node_value(
                    final(self).nodes@,
                    asg,
                    a.index as int,
                ) * node_value(final(self).nodes@, asg, b.index as int) + node_value(
                    final(self).nodes@,
                    asg,
                    c.index as int,
                ),
    {
        self.push_node(ExtensionNode::ProductPlus(a.index, b.index, c.index))
    }

    /// `a * b - c`.
    pub fn mul_sub_extension(
        &mut self,
        a: ExtensionTarget,
        b: ExtensionTarget,
        c: ExtensionTarget,
    ) -> (r: ExtensionTarget)
        requires
            old(self).wf(),
            a.index < old(self).nodes@.len(),
            b.index < old(self).nodes@.len(),
            c.index < old(self).nodes@.len(),
        ensures
            node_added(
                *old(self),
                *final(self),
                r,
                ExtensionNode::ProductMinus(a.index, b.index, c.index),
            ),
            forall|asg: Assignment| #[trigger]
                node_value(final(self).nodes@, asg, r.index as int) == node_value(
                    final(self).nodes@,
                    asg,
                    a.index as int,
                ) * node_value(final(self).nodes@, asg, b.index as int) - node_value(
                    final(self).nodes@,
                    asg,
                    c.index as int,
                ),
    {
        self.push_node(ExtensionNode::ProductMinus(a.index, b.index, c.index))
    }

    /// The product of some targets, from the left; one if there are none.
    pub fn mul_many_extension(&mut self, terms: &[ExtensionTarget]) -> (r: ExtensionTarget)
        requires
            old(self).wf(),
            targets_in(old(self).nodes@, terms@),
        ensures
            grown(old(self).nodes@, final(self).nodes@),
            same_rest(*old(self), *final(self)),
            r.index < final(self).nodes@.len(),
            forall|asg: Assignment|
                asg.wf() ==> #[trigger] node_value(final(self).nodes@, asg, r.index as int)
                    == product_to(
                    target_values(old(self).nodes@, asg, terms@),
                    terms@.len(),
                ),
    {
        let ghost start = self.nodes@;
        let ghost rest = *self;
        if terms.len() == 0 {
            let one = QuadraticExtension::one();
            proof {
                QuadraticExtension::lemma_values(one);
            }
            let r = self.constant_extension(one);
            return r;
        }
        let mut r = terms[0];
        proof {
            assert(terms@[0].index < start.len());
            assert forall|asg: Assignment| asg.wf() implies #[trigger] node_value(
                self.nodes@,
                asg,
                r.index as int,
            ) == product_to(target_values(start, asg, terms@), 1) by {
                let vs = target_values(start, asg, terms@);
                lemma_value_wf(start, asg, r.index as int);
                assert(product_to(vs, 0) == elt1());
                lemma_mul_one_zero(vs[0]);
            }
        }
        let mut i: usize = 1;
        while i < terms.len()
            invariant
                1 <= i <= terms@.len(),
                self.wf(),
                grown(start, self.nodes@),
                same_rest(rest, *self),
                targets_in(start, terms@),
                r.index < self.nodes@.len(),
                forall|asg: Assignment|
                    asg.wf() ==> #[trigger] node_value(self.nodes@, asg, r.index as int)
                        == product_to(target_values(start, asg, terms@), i as nat),
            decreases terms@.len() - i,
        {
            let ghost nodes0 = self.nodes@;
            let ghost r0 = r;
            assert(terms@[i as int].index < start.len());
            r = self.mul_extension(r, terms[i]);
            proof {
                assert forall|asg: Assignment| asg.wf() implies #[trigger] node_value(
                    self.nodes@,
                    asg,
                    r.index as int,
                ) == product_to(target_values(start, asg, terms@), (i + 1) as nat) by {
                    lemma_value_kept(nodes0, self.nodes@, asg, r0.index as int);
                    lemma_value_kept(start, self.nodes@, asg, terms@[i as int].index as int);
                    assert(node_value(nodes0, asg, r0.index as int) == product_to(
                        target_values(start, asg, terms@),
                        i as nat,
                    ));
                }
            }
            i = i + 1;
        }
        r
    }
}

/// The product of the first `n` elements, from the left.
pub open spec fn product_to(s: Seq<Elt>, n: nat) -> Elt
    decreases n,
{
    if n == 0 {
        elt1()
    } else {
        product_to(s, (n - 1) as nat) * s[n - 1]
    }
}

/// What a part of a circuit does: it adds nodes, and for every assignment the values of the new
/// targets are the given function of the values of the old ones.
pub open spec fn computes(
    before: CircuitBuilder,
    after: CircuitBuilder,
    inputs: Seq<ExtensionTarget>,
    outputs: Seq<ExtensionTarget>,
    f: spec_fn(Seq<Elt>) -> Seq<Elt>,
) -> bool {
    &&& grown(before.nodes@, after.nodes@)
    &&& same_rest(before, after)
    &&& targets_in(after.nodes@, outputs)
    &&& forall|asg: Assignment|
        asg.wf() ==> #[trigger] target_values(after.nodes@, asg, outputs) == f(
            target_values(before.nodes@, asg, inputs),
        )
}

/// Parts of a circuit compose.
pub proof fn lemma_computes_compose(
    b0: CircuitBuilder,
    b1: CircuitBuilder,
    b2: CircuitBuilder,
    x: Seq<ExtensionTarget>,
    y: Seq<ExtensionTarget>,
    z: Seq<ExtensionTarget>,
    f: spec_fn(Seq<Elt>) -> Seq<Elt>,
    g: spec_fn(Seq<Elt>) -> Seq<Elt>,
    h: spec_fn(Seq<Elt>) -> Seq<Elt>,
)
    requires
        computes(b0, b1, x, y, f),
        computes(b1, b2, y, z, g),
        forall|s: Seq<Elt>| #[trigger] h(s) == g(f(s)),
    ensures
        computes(b0, b2, x, z, h),
{
    assert forall|asg: Assignment| asg.wf() implies #[trigger] target_values(b2.nodes@, asg, z)
        == h(target_values(b0.nodes@, asg, x)) by {
        assert(target_values(b1.nodes@, asg, y) == f(target_values(b0.nodes@, asg, x)));
    }
}

} // verus!
