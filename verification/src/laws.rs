//! Laws that hold of every tree, proved over the model.

use crate::matching::{equality, first_accepted, holds_for, root_only, walk_end};
use crate::model::{
    chain_len, grown, is_longest_chain, is_max_depth, lemma_depth_is_chain_len, well_formed,
    NodeView,
};
use vstd::prelude::*;

verus! {

/// Every node but the root has a parent that was created before it and lies
/// exactly one level above it.
pub proof fn lemma_child_follows_parent<T>(nodes: Seq<NodeView<T>>, n: int)
    requires
        well_formed(nodes),
        0 < n < nodes.len(),
    ensures
        nodes[n].parent is Some,
        0 <= nodes[n].parent.unwrap() < n,
        nodes[n].depth == nodes[nodes[n].parent.unwrap()].depth + 1,
{
}

/// The root has no parent and depth 0.
pub proof fn lemma_root_is_on_top<T>(nodes: Seq<NodeView<T>>)
    requires
        well_formed(nodes),
        nodes.len() > 0,
    ensures
        nodes[0].parent is None,
        nodes[0].depth == 0,
{
}

/// The largest recorded depth of a tree is the length of its longest chain of
/// parent links.
pub proof fn lemma_max_depth_is_longest_chain<T>(nodes: Seq<NodeView<T>>, d: nat)
    requires
        well_formed(nodes),
        is_max_depth(nodes, d),
    ensures
        is_longest_chain(nodes, d),
{
    assert forall|n: int| 0 <= n < nodes.len() implies #[trigger] chain_len(nodes, n)
        == nodes[n].depth by {
        lemma_depth_is_chain_len(nodes, n);
    }
    if nodes.len() > 0 {
        let deepest: int = choose|n: int|
            0 <= n < nodes.len() && (#[trigger] nodes[n]).depth == d;
        assert(chain_len(nodes, deepest) == d);
    }
}

/// Every entry of a child list is a node that was created after the parent
/// and that names the parent as its own. So no node is its own child, and no
/// chain of child links leads back to where it began.
pub proof fn lemma_child_points_back<T>(nodes: Seq<NodeView<T>>, parent: int, i: int)
    requires
        well_formed(nodes),
        0 <= parent < nodes.len(),
        0 <= i < nodes[parent].children.len(),
    ensures
        parent < nodes[parent].children[i] < nodes.len(),
        nodes[nodes[parent].children[i]].parent == Some(parent),
{
}

/// A child list names the children in the order in which they were created:
/// an earlier entry is an earlier position in the arena. So no child is named
/// twice.
pub proof fn lemma_children_in_order_of_creation<T>(
    nodes: Seq<NodeView<T>>,
    parent: int,
    i: int,
    j: int,
)
    requires
        well_formed(nodes),
        0 <= parent < nodes.len(),
        0 <= i < j < nodes[parent].children.len(),
    ensures
        nodes[parent].children[i] < nodes[parent].children[j],
{
}

/// A child list names all the children: a node is listed by its parent.
pub proof fn lemma_child_is_listed<T>(nodes: Seq<NodeView<T>>, n: int)
    requires
        well_formed(nodes),
        0 < n < nodes.len(),
    ensures
        nodes[nodes[n].parent.unwrap()].children.contains(n),
{
}

/// An added node becomes the last child of its parent. The children that were
/// there keep their places, and no other child list changes.
pub proof fn lemma_added_child_comes_last<T>(nodes: Seq<NodeView<T>>, value: T, parent: int)
    requires
        0 <= parent < nodes.len(),
    ensures
        grown(nodes, value, parent).len() == nodes.len() + 1,
        grown(nodes, value, parent)[parent].children == nodes[parent].children.push(
            nodes.len() as int,
        ),
        forall|n: int|
            0 <= n < nodes.len() && n != parent ==> #[trigger] grown(nodes, value, parent)[n]
                == nodes[n],
{
}

/// The values held by the nodes of `path`, in the order of `path`.
pub open spec fn values_along<T>(nodes: Seq<NodeView<T>>, path: Seq<int>) -> Seq<T> {
    Seq::new(path.len(), |i: int| nodes[path[i]].value)
}

/// Among the children of `path[i]`, oldest first, `path[i + 1]` is the first
/// that `branch[i + 1]` matches.
pub open spec fn step_taken<T, U>(
    nodes: Seq<NodeView<T>>,
    branch: Seq<U>,
    holds: spec_fn(U, T) -> bool,
    path: Seq<int>,
    i: int,
) -> bool {
    first_accepted(nodes, nodes[path[i]].children, holds_for(holds, branch[i + 1])) == Some(
        path[i + 1],
    )
}

/// `path` is the way that `branch` picks out from the root downward: the
/// first value matches the root, and each later value matches the next node of
/// `path` and no older child of the node before it.
pub open spec fn traced<T, U>(
    nodes: Seq<NodeView<T>>,
    branch: Seq<U>,
    holds: spec_fn(U, T) -> bool,
    path: Seq<int>,
) -> bool {
    &&& nodes.len() > 0
    &&& path.len() == branch.len()
    &&& path.len() > 0
    &&& path[0] == 0
    &&& holds(branch[0], nodes[0].value)
    &&& forall|i: int|
        0 <= i < path.len() - 1 ==> #[trigger] step_taken(nodes, branch, holds, path, i)
}

/// `path` leads from the root downward, and its values tell it apart: the
/// root's value equals itself, and each later node is the oldest among its
/// siblings whose value equals its own.
pub open spec fn told_by_values<T: PartialEq>(nodes: Seq<NodeView<T>>, path: Seq<int>) -> bool {
    traced(nodes, values_along(nodes, path), equality::<T>(), path)
}

/// The walk along the rest of a branch, from the node of `path` that its
/// first value picks out of `frontier`, ends at the last node of `path`.
proof fn lemma_walk_from<T, U>(
    nodes: Seq<NodeView<T>>,
    branch: Seq<U>,
    holds: spec_fn(U, T) -> bool,
    path: Seq<int>,
    i: int,
    frontier: Seq<int>,
)
    requires
        path.len() == branch.len(),
        0 <= i < path.len(),
        first_accepted(nodes, frontier, holds_for(holds, branch[i])) == Some(path[i]),
        forall|j: int|
            i <= j < path.len() - 1 ==> #[trigger] step_taken(nodes, branch, holds, path, j),
    ensures
        walk_end(nodes, branch.skip(i), holds, frontier) == Some(path.last()),
    decreases path.len() - i,
{
    if i < path.len() - 1 {
        assert(step_taken(nodes, branch, holds, path, i));
        assert(branch.skip(i).drop_first() =~= branch.skip(i + 1));
        lemma_walk_from(nodes, branch, holds, path, i + 1, nodes[path[i]].children);
    }
}

/// A branch that picks out `path` ends at the last node of `path`.
pub proof fn lemma_walk_follows_trace<T, U>(
    nodes: Seq<NodeView<T>>,
    branch: Seq<U>,
    holds: spec_fn(U, T) -> bool,
    path: Seq<int>,
)
    requires
        traced(nodes, branch, holds, path),
    ensures
        walk_end(nodes, branch, holds, root_only()) == Some(path.last()),
{
    assert(branch.skip(0) =~= branch);
    lemma_walk_from(nodes, branch, holds, path, 0, root_only());
}

/// Round trip: matching the values along a path from the root to a leaf ends
/// at that leaf, for a path that its values tell apart.
pub proof fn lemma_round_trip<T: PartialEq>(nodes: Seq<NodeView<T>>, path: Seq<int>)
    requires
        told_by_values(nodes, path),
        nodes[path.last()].children.len() == 0,
    ensures
        walk_end(nodes, values_along(nodes, path), equality::<T>(), root_only()) == Some(
            path.last(),
        ),
{
    lemma_walk_follows_trace(nodes, values_along(nodes, path), equality::<T>(), path);
}

/// Lookup by a part of a path: matching the values along the first `m` nodes
/// of a path from the root ends at the last of these nodes, for a path that
/// its values tell apart.
pub proof fn lemma_prefix_lookup<T: PartialEq>(nodes: Seq<NodeView<T>>, path: Seq<int>, m: int)
    requires
        told_by_values(nodes, path),
        0 < m <= path.len(),
    ensures
        walk_end(nodes, values_along(nodes, path.take(m)), equality::<T>(), root_only()) == Some(
            path[m - 1],
        ),
{
    let part = path.take(m);
    let branch = values_along(nodes, path);
    let start = values_along(nodes, part);
    assert forall|i: int| 0 <= i < part.len() - 1 implies #[trigger] step_taken(
        nodes,
        start,
        equality::<T>(),
        part,
        i,
    ) by {
        assert(step_taken(nodes, branch, equality::<T>(), path, i));
    }
    lemma_walk_follows_trace(nodes, start, equality::<T>(), part);
}

} // verus!
