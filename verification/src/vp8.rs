//! Static probability trees: the node type the tree walkers traverse, the
//! fixed reversible mapping between out-of-range branch targets and leaf
//! values, and the builder that turns a flat tree description into nodes.

use vstd::prelude::*;

verus! {

/// One node of a static probability tree. A branch target (`left`, `right`)
/// that indexes into the table names the next node; any other target encodes
/// a terminal leaf value.
#[derive(Clone, Copy, Debug)]
pub struct TreeNode {
    pub left: u8,
    pub right: u8,
    pub index: u8,
    pub prob: u8,
}

/// The fixed branch-to-value mapping: an out-of-range target carries the leaf
/// value in its low seven bits.
pub open spec fn spec_value_from_branch(t: int) -> int {
    t % 128
}

/// The encoding of one flat tree entry as a branch target: a positive entry
/// points at the node at half its offset, any other entry stores its negated
/// value as a leaf with the high bit set.
pub open spec fn spec_prepare_branch(t: int) -> int {
    if t > 0 {
        t / 2
    } else {
        128 - t
    }
}

/// Every branch that stays inside the table moves strictly forward, so any
/// traversal must terminate.
pub open spec fn tree_well_formed(t: Seq<TreeNode>) -> bool {
    forall|i: int|
        0 <= i < t.len() ==> ((#[trigger] t[i]).left < t.len() ==> t[i].left > i) && (t[i].right
            < t.len() ==> t[i].right > i)
}

impl TreeNode {
    /// Encodes one flat tree entry as a branch target.
    pub fn prepare_branch(t: i8) -> (r: u8)
        requires
            t != i8::MIN,
        ensures
            r == spec_prepare_branch(t as int),
    {
        if t > 0 {
            (t as u8) / 2
        } else {
            let value = -t;
            let r = 0x80 | (value as u8);
            proof {
                let v = value as u8;
                assert(v < 128 ==> (0x80u8 | v) == 128 + v) by (bit_vector);
            }
            r
        }
    }

    /// Decodes an out-of-range branch target back into its leaf value.
    pub fn value_from_branch(t: u8) -> (r: i8)
        ensures
            r == spec_value_from_branch(t as int),
    {
        let masked = t & !0x80;
        proof {
            assert(t & !0x80u8 == t % 128) by (bit_vector);
        }
        masked as i8
    }
}

/// Builds the node table for a flat tree description: entry 2i and 2i+1 of
/// `tree` give the two branch targets of node i, `probs[i]` its probability.
pub fn tree_nodes_from(tree: &[i8], probs: &[u8]) -> (r: Vec<TreeNode>)
    requires
        tree@.len() == 2 * probs@.len(),
        probs@.len() <= 127,
        forall|i: int| 0 <= i < tree@.len() ==> tree@[i] != i8::MIN,
    ensures
        r@.len() == probs@.len(),
        forall|i: int|
            0 <= i < r@.len() ==> (#[trigger] r@[i]).left == spec_prepare_branch(tree@[2 * i] as int)
                && r@[i].right == spec_prepare_branch(tree@[2 * i + 1] as int) && r@[i].index == i
                && r@[i].prob == probs@[i],
{
    let mut nodes: Vec<TreeNode> = Vec::new();
    let mut i: usize = 0;
    while i < probs.len()
        invariant
            tree@.len() == 2 * probs@.len(),
            probs@.len() <= 127,
            forall|j: int| 0 <= j < tree@.len() ==> tree@[j] != i8::MIN,
            i <= probs@.len(),
            nodes@.len() == i,
            forall|j: int|
                0 <= j < i ==> (#[trigger] nodes@[j]).left == spec_prepare_branch(tree@[2 * j] as int)
                    && nodes@[j].right == spec_prepare_branch(tree@[2 * j + 1] as int) && nodes@[j].index
                    == j && nodes@[j].prob == probs@[j],
        decreases probs@.len() - i,
    {
        let node = TreeNode {
            left: TreeNode::prepare_branch(tree[2 * i]),
            right: TreeNode::prepare_branch(tree[2 * i + 1]),
            index: i as u8,
            prob: probs[i],
        };
        nodes.push(node);
        i = i + 1;
    }
    nodes
}

} // verus!
