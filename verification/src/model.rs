//! The mathematical model of the arena: a sequence of node records addressed by
//! position, and what it means for such a sequence to be a tree.

use vstd::prelude::*;

verus! {

/// What one node of the arena holds, as plain mathematical values.
pub struct NodeView<T> {
    /// Number of parent links between the node and the root.
    pub depth: nat,
    /// Position of the parent in the arena; `None` for the root only.
    pub parent: Option<int>,
    /// Positions of the children in the arena, oldest first.
    pub children: Seq<int>,
    /// The payload.
    pub value: T,
}

/// The child list of node `n` names only nodes created after `n` that point back
/// to `n` as their parent, and names them in order of creation.
pub open spec fn lists_children<T>(nodes: Seq<NodeView<T>>, n: int) -> bool {
    let kids = nodes[n].children;
    &&& forall|i: int|
        0 <= i < kids.len() ==> n < #[trigger] kids[i] < nodes.len() && nodes[kids[i]].parent
            == Some(n)
    &&& forall|i: int, j: int| 0 <= i < j < kids.len() ==> kids[i] < kids[j]
}

/// Node `n` is the root (position 0, no parent, depth 0), or it has a parent
/// that was created earlier, lies one level higher and lists `n` as a child.
pub open spec fn linked_to_parent<T>(nodes: Seq<NodeView<T>>, n: int) -> bool {
    if n == 0 {
        nodes[n].parent is None && nodes[n].depth == 0
    } else {
        &&& nodes[n].parent matches Some(p)
        &&& 0 <= p < n
        &&& nodes[n].depth == nodes[p].depth + 1
        &&& nodes[p].children.contains(n)
    }
}

/// The sequence is a tree laid out in creation order: every node is linked to
/// its parent and every child list is accurate.
pub open spec fn well_formed<T>(nodes: Seq<NodeView<T>>) -> bool {
    forall|n: int|
        #![trigger nodes[n]]
        0 <= n < nodes.len() ==> linked_to_parent(nodes, n) && lists_children(nodes, n)
}

/// A fresh node without children.
pub open spec fn leaf<T>(depth: nat, parent: Option<int>, value: T) -> NodeView<T> {
    NodeView { depth, parent, children: Seq::empty(), value }
}

/// The arena that holds a root and nothing else.
pub open spec fn single<T>(value: T) -> Seq<NodeView<T>> {
    seq![leaf(0, None, value)]
}

/// The arena after a node holding `value` has been appended below `parent`:
/// the new node takes the next free position, and that position is appended to
/// the parent's child list. Nothing else changes.
pub open spec fn grown<T>(nodes: Seq<NodeView<T>>, value: T, parent: int) -> Seq<NodeView<T>>
    recommends
        0 <= parent < nodes.len(),
{
    let above = nodes[parent];
    nodes.update(
        parent,
        NodeView { children: above.children.push(nodes.len() as int), ..above },
    ).push(leaf(above.depth + 1, Some(parent), value))
}

/// Number of parent links that lead from node `n` up to the root.
pub open spec fn chain_len<T>(nodes: Seq<NodeView<T>>, n: int) -> nat
    decreases n,
{
    if 0 < n < nodes.len() && nodes[n].parent is Some && 0 <= nodes[n].parent.unwrap() < n {
        1 + chain_len(nodes, nodes[n].parent.unwrap())
    } else {
        0
    }
}

/// `d` is the largest depth recorded in the arena, or 0 if the arena is empty.
pub open spec fn is_max_depth<T>(nodes: Seq<NodeView<T>>, d: nat) -> bool {
    &&& forall|n: int| 0 <= n < nodes.len() ==> (#[trigger] nodes[n]).depth <= d
    &&& if nodes.len() == 0 {
        d == 0
    } else {
        exists|n: int| 0 <= n < nodes.len() && (#[trigger] nodes[n]).depth == d
    }
}

/// `d` is the length of the longest parent chain in the arena, or 0 if the
/// arena is empty.
pub open spec fn is_longest_chain<T>(nodes: Seq<NodeView<T>>, d: nat) -> bool {
    &&& forall|n: int| 0 <= n < nodes.len() ==> #[trigger] chain_len(nodes, n) <= d
    &&& if nodes.len() == 0 {
        d == 0
    } else {
        exists|n: int| 0 <= n < nodes.len() && #[trigger] chain_len(nodes, n) == d
    }
}

/// A one-node arena is a tree.
pub proof fn lemma_single_well_formed<T>(value: T)
    ensures
        well_formed(single(value)),
{
}

/// Appending a node below an existing one keeps the arena a tree.
pub proof fn lemma_grown_well_formed<T>(nodes: Seq<NodeView<T>>, value: T, parent: int)
    requires
        well_formed(nodes),
        0 <= parent < nodes.len(),
    ensures
        well_formed(grown(nodes, value, parent)),
{
    let after = grown(nodes, value, parent);
    let fresh: int = nodes.len() as int;
    // the parent lists the new node, in the last place
    assert(after[parent].children[nodes[parent].children.len() as int] == fresh);
    assert forall|n: int| #![trigger after[n]] 0 <= n < after.len() implies linked_to_parent(
        after,
        n,
    ) && lists_children(after, n) by {
        if n != fresh && n != 0 {
            // an old node keeps its place in the list of its parent
            let p: int = nodes[n].parent.unwrap();
            let k: int = choose|k: int|
                0 <= k < nodes[p].children.len() && nodes[p].children[k] == n;
            assert(after[p].children[k] == n);
        }
    }
}

/// In a tree no node lies deeper than its own position in the arena.
pub proof fn lemma_depth_at_most_position<T>(nodes: Seq<NodeView<T>>, n: int)
    requires
        well_formed(nodes),
        0 <= n < nodes.len(),
    ensures
        nodes[n].depth <= n,
    decreases n,
{
    if n != 0 {
        lemma_depth_at_most_position(nodes, nodes[n].parent.unwrap());
    }
}

/// In a tree the recorded depth of a node is the length of its parent chain.
pub proof fn lemma_depth_is_chain_len<T>(nodes: Seq<NodeView<T>>, n: int)
    requires
        well_formed(nodes),
        0 <= n < nodes.len(),
    ensures
        nodes[n].depth == chain_len(nodes, n),
    decreases n,
{
    if n != 0 {
        lemma_depth_is_chain_len(nodes, nodes[n].parent.unwrap());
    }
}

} // verus!
