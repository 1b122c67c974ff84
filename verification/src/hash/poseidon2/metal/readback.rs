//! Reading a tree back from the words of its levels.

use crate::field::goldilocks_field::GoldilocksField;
use crate::field::model::Elt;
use crate::field::polynomial::filled;
use crate::fri::lookup::lemma_flat_row;
use crate::hash::hash_types::{GenericHashOut, HashOut};
use crate::hash::merkle_model::{
    cap_leaves, is_tree, lemma_layout_len, lemma_tree_sizes, root_of, subtree_layout,
};
use crate::hash::merkle_tree::two_of;
use crate::hash::poseidon2::hash::Poseidon2Hash;
use crate::hash::poseidon2::metal::plan::{
    lemma_level_offset, level_offset, level_offsets_of, output_words,
};
use crate::util::bits::{
    is_power_of_two, lemma_pow2_basics, lemma_pow2_double, lemma_pow2_mono, log2, log2_strict,
    two_pow,
};
use vstd::arithmetic::power2::{lemma_pow2_pos, pow2};
use vstd::prelude::*;

verus! {

/// The digest at an index of a level.
pub open spec fn node_at(nodes: Seq<u64>, offset: int, index: int) -> HashOut {
    let k = offset + 4 * index;
    HashOut {
        elements: [
            GoldilocksField(nodes[k]),
            GoldilocksField(nodes[k + 1]),
            GoldilocksField(nodes[k + 2]),
            GoldilocksField(nodes[k + 3]),
        ],
    }
}

/// Node `index` of level `l` of a tree over `2^log_leaves` leaves.
pub open spec fn tree_node(nodes: Seq<u64>, log_leaves: nat, l: nat, index: int) -> HashOut {
    node_at(nodes, level_offset(log_leaves, l), index)
}

/// The nodes below node `index` of level `l`, in the order in which a tree keeps them: those below
/// the left child, the left child, the right child, those below the right child.
pub open spec fn nodes_layout(nodes: Seq<u64>, log_leaves: nat, l: nat, index: int) -> Seq<HashOut>
    decreases l,
{
    if l == 0 {
        Seq::empty()
    } else {
        let m = (l - 1) as nat;
        nodes_layout(nodes, log_leaves, m, 2 * index) + seq![
            tree_node(nodes, log_leaves, m, 2 * index),
            tree_node(nodes, log_leaves, m, 2 * index + 1),
        ] + nodes_layout(nodes, log_leaves, m, 2 * index + 1)
    }
}

/// A node of level `l` has `2 * (2^l - 1)` nodes below it.
pub proof fn lemma_nodes_layout_len(nodes: Seq<u64>, log_leaves: nat, l: nat, index: int)
    ensures
        nodes_layout(nodes, log_leaves, l, index).len() == 2 * (pow2(l) - 1),
    decreases l,
{
    lemma_pow2_basics();
    if l > 0 {
        let m = (l - 1) as nat;
        lemma_nodes_layout_len(nodes, log_leaves, m, 2 * index);
        lemma_nodes_layout_len(nodes, log_leaves, m, 2 * index + 1);
        lemma_pow2_double(m);
    }
}

/// Reads a digest of a level.
pub fn read_node(nodes: &[u64], level_offset: usize, index: usize) -> (r: HashOut)
    requires
        level_offset + 4 * index + 4 <= nodes@.len(),
    ensures
        r == node_at(nodes@, level_offset as int, index as int),
{
    let n: usize = nodes.len();
    let offset: usize = level_offset + index * 4;
    HashOut {
        elements: [
            GoldilocksField(nodes[offset]),
            GoldilocksField(nodes[offset + 1]),
            GoldilocksField(nodes[offset + 2]),
            GoldilocksField(nodes[offset + 3]),
        ],
    }
}

/// Node `index` of level `l` lies among the words.
proof fn lemma_node_fits(log_leaves: nat, cap_height: nat, l: nat, index: int)
    requires
        cap_height <= log_leaves,
        l <= log_leaves - cap_height,
        0 <= index < pow2((log_leaves - l) as nat),
    ensures
        0 <= level_offset(log_leaves, l),
        level_offset(log_leaves, l) + 4 * index + 4 <= output_words(log_leaves, cap_height),
{
    lemma_level_offset(log_leaves, cap_height, l);
}

/// What filling in the nodes below a node leaves in the buffer of digests.
pub open spec fn layout_filled(
    nodes: Seq<u64>,
    log_leaves: nat,
    l: nat,
    index: int,
    before: Seq<HashOut>,
    after: Seq<HashOut>,
    lo: int,
) -> bool {
    let layout = nodes_layout(nodes, log_leaves, l, index);
    &&& after.len() == before.len()
    &&& forall|x: int|
        0 <= x < before.len() ==> #[trigger] after[x] == (if lo <= x < lo + layout.len() {
            layout[x - lo]
        } else {
            before[x]
        })
}

/// Fills in the nodes below a node, in the order in which a tree keeps them. Returns the node.
fn fill_subtree_layout(
    digests: &mut [HashOut],
    lo: usize,
    nodes: &[u64],
    level_offsets: &[usize],
    level: usize,
    index: usize,
    Ghost(log_leaves): Ghost<nat>,
    Ghost(cap_height): Ghost<nat>,
) -> (r: HashOut)
    requires
        cap_height <= log_leaves,
        level <= log_leaves - cap_height,
        index < pow2((log_leaves - level) as nat),
        2 * pow2(log_leaves) <= usize::MAX,
        nodes@.len() == output_words(log_leaves, cap_height),
        level_offsets@ == level_offsets_of(log_leaves, cap_height),
        lo + 2 * (pow2(level as nat) - 1) <= old(digests)@.len(),
    ensures
        layout_filled(
            nodes@,
            log_leaves,
            level as nat,
            index as int,
            old(digests)@,
            final(digests)@,
            lo as int,
        ),
        r == tree_node(nodes@, log_leaves, level as nat, index as int),
    decreases level,
{
    let n: usize = nodes.len();
    let total: usize = digests.len();
    proof {
        lemma_node_fits(log_leaves, cap_height, level as nat, index as int);
        lemma_level_offset(log_leaves, cap_height, level as nat);
        assert(level_offsets@[level as int] == level_offset(log_leaves, level as nat));
    }
    if level > 0 {
        let ghost m = (level - 1) as nat;
        let ghost before = digests@;
        let half: usize = level - 1;
        proof {
            lemma_pow2_double(m);
            lemma_pow2_double((log_leaves - level) as nat);
            assert((log_leaves - level + 1) as nat == (log_leaves - m) as nat);
            lemma_pow2_mono((log_leaves - m) as nat, log_leaves);
            lemma_pow2_mono(m, log_leaves);
            lemma_nodes_layout_len(nodes@, log_leaves, m, 2 * index);
            lemma_nodes_layout_len(nodes@, log_leaves, m, 2 * index + 1);
        }
        let below: usize = 2 * (two_pow(half) - 1);
        let left_root = fill_subtree_layout(
            digests,
            lo,
            nodes,
            level_offsets,
            half,
            2 * index,
            Ghost(log_leaves),
            Ghost(cap_height),
        );
        let right_root = fill_subtree_layout(
            digests,
            lo + below + 2,
            nodes,
            level_offsets,
            half,
            2 * index + 1,
            Ghost(log_leaves),
            Ghost(cap_height),
        );
        digests[lo + below] = left_root;
        digests[lo + below + 1] = right_root;
        proof {
            let layout = nodes_layout(nodes@, log_leaves, level as nat, index as int);
            lemma_nodes_layout_len(nodes@, log_leaves, level as nat, index as int);
            assert forall|x: int| 0 <= x < before.len() implies #[trigger] digests@[x] == (if lo
                <= x < lo + layout.len() {
                layout[x - lo]
            } else {
                before[x]
            }) by {}
        }
    } else {
        proof {
            lemma_nodes_layout_len(nodes@, log_leaves, 0, index as int);
        }
    }
    read_node(nodes, level_offsets[level], index)
}

/// A tree as read from the words of its levels.
pub open spec fn is_read_tree(
    nodes: Seq<u64>,
    log_leaves: nat,
    cap_height: nat,
    digests: Seq<HashOut>,
    cap: Seq<HashOut>,
) -> bool {
    let k = (log_leaves - cap_height) as nat;
    let t = 2 * (pow2(k) - 1);
    &&& cap.len() == pow2(cap_height)
    &&& digests.len() == 2 * (pow2(log_leaves) - pow2(cap_height))
    &&& forall|c: int|
        0 <= c < cap.len() ==> #[trigger] cap[c] == tree_node(nodes, log_leaves, k, c)
    &&& forall|c: int, x: int|
        0 <= c < cap.len() && 0 <= x < t ==> #[trigger] digests[c * t + x] == nodes_layout(
            nodes,
            log_leaves,
            k,
            c,
        )[x]
}

/// Reads the digests and the cap of a tree from the words of its levels.
pub fn tree_from_levels(
    nodes: &[u64],
    level_offsets: &[usize],
    leaf_count: usize,
    cap_height: usize,
) -> (r: (Vec<HashOut>, Vec<HashOut>))
    requires
        is_power_of_two(leaf_count as nat),
        cap_height <= log2(leaf_count as nat),
        2 * leaf_count <= usize::MAX,
        nodes@.len() == output_words(log2(leaf_count as nat), cap_height as nat),
        level_offsets@ == level_offsets_of(log2(leaf_count as nat), cap_height as nat),
    ensures
        is_read_tree(nodes@, log2(leaf_count as nat), cap_height as nat, r.0@, r.1@),
{
    let log_leaves: usize = log2_strict(leaf_count);
    let ghost log = log_leaves as nat;
    let levels: usize = log_leaves - cap_height;
    let ghost k = levels as nat;
    proof {
        lemma_tree_sizes(log, cap_height as nat);
        lemma_pow2_mono(cap_height as nat, log);
        lemma_pow2_mono(k, log);
        lemma_pow2_pos(k);
        lemma_pow2_pos(cap_height as nat);
    }
    let cap_count: usize = two_pow(cap_height);
    let subtree_leaf_count: usize = two_pow(levels);
    let zero = HashOut { elements: [GoldilocksField(0); 4] };
    let mut digests = filled(zero, 2 * (leaf_count - cap_count));
    let mut cap: Vec<HashOut> = Vec::with_capacity(cap_count);
    let t: usize = 2 * (subtree_leaf_count - 1);
    let size: usize = digests.len();
    assert(size == cap_count * t);
    while cap.len() < cap_count
        invariant
            cap@.len() <= cap_count,
            log == log_leaves,
            k == levels,
            levels == log_leaves - cap_height,
            cap_count == pow2(cap_height as nat),
            t == 2 * (pow2(k) - 1),
            digests@.len() == size,
            size == cap_count * t,
            2 * pow2(log) <= usize::MAX,
            nodes@.len() == output_words(log, cap_height as nat),
            level_offsets@ == level_offsets_of(log, cap_height as nat),
            forall|c: int|
                0 <= c < cap@.len() ==> #[trigger] cap@[c] == tree_node(nodes@, log, k, c),
            forall|c: int, x: int|
                0 <= c < cap@.len() && 0 <= x < t ==> #[trigger] digests@[c * t + x]
                    == nodes_layout(nodes@, log, k, c)[x],
        decreases cap_count - cap@.len(),
    {
        let c: usize = cap.len();
        let ghost before = digests@;
        proof {
            lemma_flat_row(c as int, cap_count as int, t as int);
            assert((log - k) as nat == cap_height as nat);
        }
        let root = fill_subtree_layout(
            digests.as_mut_slice(),
            c * t,
            nodes,
            level_offsets,
            levels,
            c,
            Ghost(log),
            Ghost(cap_height as nat),
        );
        cap.push(root);
        proof {
            lemma_nodes_layout_len(nodes@, log, k, c as int);
            assert forall|d: int, x: int| 0 <= d < c + 1 && 0 <= x < t implies #[trigger] digests@[d
                * t + x] == nodes_layout(nodes@, log, k, d)[x] by {
                lemma_flat_row(d, cap_count as int, t as int);
                if d < c {
                    lemma_flat_row(d, c as int, t as int);
                    assert(digests@[d * t + x] == before[d * t + x]);
                }
            }
        }
    }
    (digests, cap)
}

/// The words of all levels hold the tree over the given leaf digests.
#[verifier::opaque]
pub open spec fn levels_hold(
    nodes: Seq<u64>,
    log_leaves: nat,
    cap_height: nat,
    leaves: Seq<Seq<Elt>>,
) -> bool {
    forall|l: nat, i: int|
        l <= log_leaves - cap_height && 0 <= i < pow2((log_leaves - l) as nat) ==> (
        #[trigger] tree_node(nodes, log_leaves, l, i)).digest() == root_of(
            two_of::<Poseidon2Hash>(),
            leaves.subrange(i * pow2(l), i * pow2(l) + pow2(l)),
        )
}

/// One node of a tree.
pub proof fn lemma_level_node(
    nodes: Seq<u64>,
    log_leaves: nat,
    cap_height: nat,
    leaves: Seq<Seq<Elt>>,
    l: nat,
    i: int,
)
    requires
        levels_hold(nodes, log_leaves, cap_height, leaves),
        l <= log_leaves - cap_height,
        0 <= i < pow2((log_leaves - l) as nat),
    ensures
        tree_node(nodes, log_leaves, l, i).digest() == root_of(
            two_of::<Poseidon2Hash>(),
            leaves.subrange(i * pow2(l), i * pow2(l) + pow2(l)),
        ),
{
    reveal(levels_hold);
}

proof fn lemma_layout_digests(
    nodes: Seq<u64>,
    log_leaves: nat,
    cap_height: nat,
    leaves: Seq<Seq<Elt>>,
    l: nat,
    index: int,
    x: int,
)
    requires
        levels_hold(nodes, log_leaves, cap_height, leaves),
        leaves.len() == pow2(log_leaves),
        cap_height <= log_leaves,
        l <= log_leaves - cap_height,
        0 <= index < pow2((log_leaves - l) as nat),
        0 <= x < 2 * (pow2(l) - 1),
    ensures
        nodes_layout(nodes, log_leaves, l, index)[x].digest() == subtree_layout(
            two_of::<Poseidon2Hash>(),
            leaves.subrange(index * pow2(l), index * pow2(l) + pow2(l)),
        )[x],
    decreases l,
{
    let two = two_of::<Poseidon2Hash>();
    lemma_pow2_basics();
    if l > 0 {
        let m = (l - 1) as nat;
        let h = pow2(m) as int;
        let p = pow2(l) as int;
        lemma_pow2_double(m);
        lemma_pow2_double((log_leaves - l) as nat);
        assert((log_leaves - l + 1) as nat == (log_leaves - m) as nat);
        let (a, b) = (2 * index, 2 * index + 1);
        let count = pow2((log_leaves - l) as nat) as int;
        vstd::arithmetic::power2::lemma_pow2_adds((log_leaves - l) as nat, l);
        assert(a * h == index * p && b * h == index * p + h) by (nonlinear_arith)
            requires
                a == 2 * index,
                b == 2 * index + 1,
                p == 2 * h,
        ;
        lemma_flat_row(index, count, p);
        let sub = leaves.subrange(index * p, index * p + p);
        let (left, right) = (
            leaves.subrange(a * h, a * h + h),
            leaves.subrange(b * h, b * h + h),
        );
        assert(sub.take(h) =~= left);
        assert(sub.skip(h) =~= right);
        assert(sub.len() / 2 == h);
        lemma_nodes_layout_len(nodes, log_leaves, m, a);
        lemma_nodes_layout_len(nodes, log_leaves, m, b);
        lemma_layout_len(two, left);
        lemma_layout_len(two, right);
        let t = 2 * (h - 1);
        lemma_level_node(nodes, log_leaves, cap_height, leaves, m, a);
        lemma_level_node(nodes, log_leaves, cap_height, leaves, m, b);
        let (na, nb) = (
            nodes_layout(nodes, log_leaves, m, a),
            nodes_layout(nodes, log_leaves, m, b),
        );
        let (sa, sb) = (subtree_layout(two, left), subtree_layout(two, right));
        assert(nodes_layout(nodes, log_leaves, l, index) == na + seq![
            tree_node(nodes, log_leaves, m, a),
            tree_node(nodes, log_leaves, m, b),
        ] + nb);
        assert(subtree_layout(two, sub) == sa + seq![root_of(two, left), root_of(two, right)] + sb);
        if x < t {
            lemma_layout_digests(nodes, log_leaves, cap_height, leaves, m, a, x);
            assert(nodes_layout(nodes, log_leaves, l, index)[x] == na[x]);
            assert(subtree_layout(two, sub)[x] == sa[x]);
        } else if x >= t + 2 {
            lemma_layout_digests(nodes, log_leaves, cap_height, leaves, m, b, x - t - 2);
            assert(nodes_layout(nodes, log_leaves, l, index)[x] == nb[x - t - 2]);
            assert(subtree_layout(two, sub)[x] == sb[x - t - 2]);
        }
    }
}

/// If the words of all levels hold the tree over some leaf digests, then what is read from them is
/// that tree.
pub proof fn lemma_read_tree_is_tree(
    nodes: Seq<u64>,
    log_leaves: nat,
    cap_height: nat,
    leaves: Seq<Seq<Elt>>,
    digests: Seq<HashOut>,
    cap: Seq<HashOut>,
)
    requires
        cap_height <= log_leaves,
        leaves.len() == pow2(log_leaves),
        levels_hold(nodes, log_leaves, cap_height, leaves),
        is_read_tree(nodes, log_leaves, cap_height, digests, cap),
    ensures
        is_tree(two_of::<Poseidon2Hash>(), leaves, cap_height, digests, cap),
{
    let two = two_of::<Poseidon2Hash>();
    let k = (log_leaves - cap_height) as nat;
    let caps = pow2(cap_height) as int;
    let m = pow2(k) as int;
    let t = 2 * (m - 1);
    lemma_tree_sizes(log_leaves, cap_height);
    assert(leaves.len() as int / caps == m);
    assert((log_leaves - k) as nat == cap_height);
    assert forall|i: int| 0 <= i < caps implies (#[trigger] cap[i]).digest() == root_of(
        two,
        cap_leaves(leaves, m, i),
    ) by {
        lemma_level_node(nodes, log_leaves, cap_height, leaves, k, i);
    }
    assert forall|i: int, x: int| 0 <= i < caps && 0 <= x < t implies (#[trigger] digests[i * t
        + x]).digest() == (#[trigger] subtree_layout(two, cap_leaves(leaves, m, i))[x]) by {
        lemma_layout_digests(nodes, log_leaves, cap_height, leaves, k, i, x);
    }
}

} // verus!
