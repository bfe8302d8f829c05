//! The arena itself: `Node` records in a vector, owned by a `Tree`.

use crate::laws::lemma_max_depth_is_longest_chain;
use crate::matching::{
    decided_by, equal_to, equal_to_replies, equality, equality_replies, first_accepted,
    lemma_equality_decided, lemma_scan_decided, lemma_walk_decided, lemma_walk_refined, picked,
    predicate_replies, replies_to, root_only, scan_stops_at, walk_end, walk_may_end,
};
use crate::model::{
    grown, is_longest_chain, is_max_depth, lemma_depth_at_most_position, lemma_grown_well_formed,
    lemma_single_well_formed, lists_children, single, well_formed, NodeView,
};
use vstd::prelude::*;
use vstd::std_specs::cmp::PartialEqSpec;

verus! {

/// Reads a vector of arena positions as a sequence of integers.
pub open spec fn positions(ids: Seq<usize>) -> Seq<int> {
    ids.map_values(|id: usize| id as int)
}

/// Reads an optional arena position as an optional integer.
pub open spec fn position(id: Option<usize>) -> Option<int> {
    match id {
        Some(n) => Some(n as int),
        None => None,
    }
}

/// One record of the arena.
#[derive(Debug)]
pub struct Node<T> {
    depth_level: usize,
    parent_id: Option<usize>,
    children_id: Vec<usize>,
    value: T,
}

/// A tree whose nodes are addressed by the order in which they were created.
pub struct Tree<T> {
    nodes: Vec<Node<T>>,
}

impl<T> View for Node<T> {
    type V = NodeView<T>;

    closed spec fn view(&self) -> NodeView<T> {
        NodeView {
            depth: self.depth_level as nat,
            parent: position(self.parent_id),
            children: positions(self.children_id@),
            value: self.value,
        }
    }
}

/// `copy` is what cloning a node that reads as `node` may give: the same
/// depth, parent and children, and a value that is a clone of the node's.
pub open spec fn is_copy<T: Clone>(node: NodeView<T>, copy: NodeView<T>) -> bool {
    &&& copy.depth == node.depth
    &&& copy.parent == node.parent
    &&& copy.children == node.children
    &&& cloned(node.value, copy.value)
}

/// `found` is the outcome of a walk that ended with `end`: nothing if the walk
/// ended with no node, else a copy of the node it ended with.
pub open spec fn reports<T: Clone>(
    nodes: Seq<NodeView<T>>,
    end: Option<int>,
    found: Option<Node<T>>,
) -> bool {
    match end {
        Some(n) => found matches Some(node) && 0 <= n < nodes.len() && is_copy(nodes[n], node@),
        None => found is None,
    }
}

impl<T: Clone> Clone for Node<T> {
    fn clone(&self) -> (copy: Self)
        ensures
            is_copy(self@, copy@),
    {
        let copy = Node {
            depth_level: self.depth_level,
            parent_id: self.parent_id,
            children_id: self.children_id.clone(),
            value: self.value.clone(),
        };
        copy
    }
}

impl<T> Node<T> {
    /// The payload of the node.
    pub fn value(&self) -> (value: &T)
        ensures
            *value == self@.value,
    {
        &self.value
    }

    /// Number of parent links between the node and the root.
    pub fn depth_level(&self) -> (depth: usize)
        ensures
            depth == self@.depth,
    {
        self.depth_level
    }

    /// Position of the parent in the arena; `None` for the root.
    pub fn parent_id(&self) -> (parent: Option<usize>)
        ensures
            position(parent) == self@.parent,
    {
        self.parent_id
    }

    /// Positions of the children in the arena, oldest first.
    pub fn children_id(&self) -> (children: &Vec<usize>)
        ensures
            positions(children@) == self@.children,
    {
        &self.children_id
    }
}

impl<T> View for Tree<T> {
    type V = Seq<NodeView<T>>;

    closed spec fn view(&self) -> Seq<NodeView<T>> {
        self.nodes@.map_values(|node: Node<T>| node@)
    }
}

impl<T> Tree<T> {
    /// What holds of every `Tree` at all times: its nodes form a tree in the
    /// sense of the model. Verus checks this wherever a `Tree` is built, so
    /// no function asks for it. The functions that build a tree say so once
    /// more in their contracts; code that is handed a `Tree` learns it through
    /// `use_type_invariant`.
    #[verifier::type_invariant]
    pub open spec fn wf(self) -> bool {
        well_formed(self@)
    }

    /// A tree without nodes.
    pub fn new_empty() -> (tree: Tree<T>)
        ensures
            tree@ == Seq::<NodeView<T>>::empty(),
            tree.wf(),
    {
        Tree { nodes: Vec::new() }
    }

    /// A tree that consists of a root holding `value`.
    pub fn new(value: T) -> (tree: Tree<T>)
        ensures
            tree@ == single(value),
            tree.wf(),
    {
        let node = Node { depth_level: 0, parent_id: None, children_id: Vec::new(), value };
        let mut nodes = Vec::new();
        nodes.push(node);
        proof {
            lemma_single_well_formed(value);
            assert(nodes@.map_values(|node: Node<T>| node@) =~= single(value)) by {
                assert(node@.children =~= Seq::<int>::empty());
            }
        }
        Tree { nodes }
    }

    /// Number of nodes in the arena.
    pub fn len(&self) -> (n: usize)
        ensures
            n == self@.len(),
    {
        self.nodes.len()
    }

    /// Appends a node holding `value` below the node `parent_id` and hands the
    /// tree back, so that insertions can be chained. The new node takes the
    /// next free position, lies one level below its parent and becomes the
    /// last child of its parent. `parent_id` must name a node of the tree.
    pub fn add(self, value: T, parent_id: usize) -> (tree: Tree<T>)
        requires
            parent_id < self@.len(),
        ensures
            tree@ == grown(self@, value, parent_id as int),
            tree.wf(),
    {
        proof {
            use_type_invariant(&self);
            lemma_depth_at_most_position(self@, parent_id as int);
            lemma_grown_well_formed(self@, value, parent_id as int);
        }
        let ghost before = self@;
        let mut nodes = self.nodes;
        let fresh: usize = nodes.len();
        let node = Node {
            depth_level: nodes[parent_id].depth_level + 1,
            parent_id: Some(parent_id),
            children_id: Vec::new(),
            value,
        };
        nodes.push(node);
        nodes[parent_id].children_id.push(fresh);
        proof {
            assert(node@.children =~= Seq::<int>::empty());
            assert(nodes@[parent_id as int]@.children =~= before[parent_id as int].children.push(
                fresh as int,
            ));
            assert(nodes@.map_values(|node: Node<T>| node@) =~= grown(
                before,
                value,
                parent_id as int,
            ));
        }
        Tree { nodes }
    }

    /// The largest depth of any node, which is the length of the longest chain
    /// of parent links; 0 for a tree without nodes.
    pub fn get_current_max_depth(&self) -> (max_depth: usize)
        ensures
            is_max_depth(self@, max_depth as nat),
            is_longest_chain(self@, max_depth as nat),
    {
        proof {
            use_type_invariant(self);
        }
        let mut max_depth: usize = 0;
        let mut i: usize = 0;
        while i < self.nodes.len()
            invariant
                i <= self.nodes@.len(),
                forall|n: int| 0 <= n < i ==> (#[trigger] self@[n]).depth <= max_depth,
                i == 0 ==> max_depth == 0,
                i > 0 ==> exists|n: int| 0 <= n < i && (#[trigger] self@[n]).depth == max_depth,
            decreases self.nodes@.len() - i,
        {
            assert(self@[i as int] == self.nodes@[i as int]@);
            if self.nodes[i].depth_level > max_depth {
                max_depth = self.nodes[i].depth_level;
            }
            i += 1;
        }
        proof {
            lemma_max_depth_is_longest_chain(self@, max_depth as nat);
        }
        max_depth
    }

    /// The children of the node `parent_id`, in the order in which they were
    /// added; empty for a leaf. `parent_id` must name a node of the tree.
    pub fn get_children(&self, parent_id: usize) -> (children: Vec<&Node<T>>)
        requires
            parent_id < self@.len(),
        ensures
            children@.len() == self@[parent_id as int].children.len(),
            forall|i: int|
                0 <= i < children@.len() ==> (#[trigger] children@[i])@
                    == self@[self@[parent_id as int].children[i]],
    {
        proof {
            use_type_invariant(self);
        }
        let ids = &self.nodes[parent_id].children_id;
        let mut children: Vec<&Node<T>> = Vec::new();
        let mut i: usize = 0;
        while i < ids.len()
            invariant
                i <= ids@.len(),
                children@.len() == i,
                positions(ids@) == self@[parent_id as int].children,
                lists_children(self@, parent_id as int),
                forall|j: int|
                    0 <= j < i ==> (#[trigger] children@[j])@
                        == self@[self@[parent_id as int].children[j]],
            decreases ids@.len() - i,
        {
            let id: usize = ids[i];
            assert(self@[parent_id as int].children[i as int] == id);
            children.push(&self.nodes[id]);
            i += 1;
        }
        children
    }

    /// The first child of the node `parent_id`, oldest first, whose value
    /// equals `value`; `None` if no child's value does. `parent_id` must name
    /// a node of the tree.
    ///
    /// The first clause holds whatever `==` does for `T`: the children were
    /// compared from the left, and the scan stopped where `==` said yes. The
    /// second reads `==` through its specification, for a `T` that has one.
    pub fn matches_children(&self, parent_id: usize, value: T) -> (found: Option<usize>) where
        T: PartialEq,

        requires
            parent_id < self@.len(),
        ensures
            exists|k: int|
                #[trigger] scan_stops_at(
                    self@,
                    self@[parent_id as int].children,
                    equal_to_replies(value),
                    k,
                ) && position(found) == picked(self@[parent_id as int].children, k),
            T::obeys_eq_spec() ==> position(found) == first_accepted(
                self@,
                self@[parent_id as int].children,
                equal_to(value),
            ),
    {
        proof {
            use_type_invariant(self);
        }
        let ids = &self.nodes[parent_id].children_id;
        let ghost kids = self@[parent_id as int].children;
        let ghost reply = equal_to_replies(value);
        let mut i: usize = 0;
        let mut found: Option<usize> = None;
        while i < ids.len()
            invariant_except_break
                found is None,
                forall|j: int| 0 <= j < i ==> reply(self@[#[trigger] kids[j]].value, false),
            invariant
                i <= ids@.len(),
                positions(ids@) == kids,
                kids == self@[parent_id as int].children,
                reply == equal_to_replies(value),
                lists_children(self@, parent_id as int),
            ensures
                scan_stops_at(self@, kids, reply, i as int),
                position(found) == picked(kids, i as int),
            decreases ids@.len() - i,
        {
            let id: usize = ids[i];
            if self.nodes[id].value == value {
                found = Some(id);
                break;
            }
            i += 1;
        }
        proof {
            if T::obeys_eq_spec() {
                lemma_equality_decided::<T>();
                lemma_scan_decided(self@, kids, reply, equal_to(value), i as int);
            }
        }
        found
    }

    /// The position of the first node, in order of creation, whose value
    /// `predicate` accepts; `None` if it accepts none. This is a scan of the
    /// arena from position 0 upward, not a descent from the root.
    ///
    /// `predicate` must be callable on every value in the tree.
    pub fn find(&self, predicate: &impl Fn(&T) -> bool) -> (found: Option<usize>)
        requires
            forall|n: int|
                0 <= n < self@.len() ==> call_requires(predicate, (&(#[trigger] self@[n]).value,)),
        ensures
            match found {
                Some(n) => {
                    &&& n < self@.len()
                    &&& call_ensures(predicate, (&self@[n as int].value,), true)
                    &&& forall|m: int|
                        0 <= m < n ==> call_ensures(
                            predicate,
                            (&(#[trigger] self@[m]).value,),
                            false,
                        )
                },
                None => forall|m: int|
                    0 <= m < self@.len() ==> call_ensures(
                        predicate,
                        (&(#[trigger] self@[m]).value,),
                        false,
                    ),
            },
    {
        let mut i: usize = 0;
        while i < self.nodes.len()
            invariant
                i <= self.nodes@.len(),
                forall|n: int|
                    0 <= n < self@.len() ==> call_requires(
                        predicate,
                        (&(#[trigger] self@[n]).value,),
                    ),
                forall|m: int|
                    0 <= m < i ==> call_ensures(predicate, (&(#[trigger] self@[m]).value,), false),
            decreases self.nodes@.len() - i,
        {
            assert(self@[i as int] == self.nodes@[i as int]@);
            if predicate(&self.nodes[i].value) {
                return Some(i);
            }
            i += 1;
        }
        None
    }

    /// Matches `branch` against the paths that start at the root, with
    /// `predicate(branch value, node value)` as the test, and returns a copy of
    /// the node at which the match ends.
    ///
    /// The first branch value is tested against the root. After an accepted
    /// node, the next value is tested against that node's children, oldest
    /// first, and only the first accepted child is followed. The match ends at
    /// an accepted node that is a leaf or that was accepted for the last value
    /// of the branch. A value that no candidate is accepted for is passed over:
    /// the value after it meets the same candidates. `None` is returned when
    /// the branch runs out first.
    ///
    /// A non-empty branch needs a root to start from, and `predicate` must
    /// be callable on every pair of a branch value and a value in the tree.
    ///
    /// The first clause holds of any `predicate`: the outcome is one that its
    /// answers allow. The second gives the outcome as a function of the tree
    /// and the branch, for a `predicate` whose answers `holds` tells exactly.
    pub fn matches_branch_predicated<U>(
        &self,
        branch: Vec<U>,
        predicate: &impl Fn(&U, &T) -> bool,
    ) -> (found: Option<Node<T>>) where T: Clone
        requires
            branch@.len() > 0 ==> self@.len() > 0,
            forall|i: int, n: int|
                0 <= i < branch@.len() && 0 <= n < self@.len() ==> #[trigger] call_requires(
                    predicate,
                    (&branch@[i], &self@[n].value),
                ),
        ensures
            exists|end: Option<int>|
                #[trigger] walk_may_end(
                    self@,
                    branch@,
                    predicate_replies(*predicate),
                    root_only(),
                    end,
                ) && reports(self@, end, found),
            forall|holds: spec_fn(U, T) -> bool|
                decided_by(predicate_replies(*predicate), holds) ==> reports(
                    self@,
                    #[trigger] walk_end(self@, branch@, holds, root_only()),
                    found,
                ),
    {
        let found = self.walk(&branch, predicate);
        proof {
            let replies = predicate_replies(*predicate);
            let end = choose|end: Option<int>|
                #[trigger] walk_may_end(self@, branch@, replies, root_only(), end) && reports(
                    self@,
                    end,
                    found,
                );
            assert forall|holds: spec_fn(U, T) -> bool| decided_by(replies, holds) implies reports(
                self@,
                #[trigger] walk_end(self@, branch@, holds, root_only()),
                found,
            ) by {
                lemma_walk_decided(self@, branch@, replies, holds, root_only(), end);
            }
        }
        found
    }

    /// Matches `branch` against the paths that start at the root, comparing
    /// values with `==`, and returns a copy of the node at which the match
    /// ends. The steps are those of `matches_branch_predicated`, with
    /// `branch value == node value` as the test.
    ///
    /// A non-empty branch needs a root to start from.
    pub fn matches_branch(&self, branch: Vec<T>) -> (found: Option<Node<T>>) where
        T: PartialEq + Clone,

        requires
            branch@.len() > 0 ==> self@.len() > 0,
        ensures
            exists|end: Option<int>|
                #[trigger] walk_may_end(self@, branch@, equality_replies::<T>(), root_only(), end)
                    && reports(self@, end, found),
            T::obeys_eq_spec() ==> reports(
                self@,
                walk_end(self@, branch@, equality::<T>(), root_only()),
                found,
            ),
    {
        let same = |u: &T, t: &T| -> (b: bool)
            ensures
                call_ensures(T::eq, (u, t), b),
            { *u == *t };
        let ghost path = branch@;
        let found = self.matches_branch_predicated(branch, &same);
        proof {
            let asked = predicate_replies(same);
            let end = choose|end: Option<int>|
                #[trigger] walk_may_end(self@, path, asked, root_only(), end) && reports(
                    self@,
                    end,
                    found,
                );
            lemma_walk_refined(self@, path, asked, equality_replies::<T>(), root_only(), end);
            if T::obeys_eq_spec() {
                lemma_equality_decided::<T>();
                lemma_walk_decided(
                    self@,
                    path,
                    equality_replies::<T>(),
                    equality::<T>(),
                    root_only(),
                    end,
                );
            }
        }
        found
    }

    /// Walks `branch` down from the root and returns a copy of the node at
    /// which the walk ends.
    fn walk<U>(&self, branch: &Vec<U>, predicate: &impl Fn(&U, &T) -> bool) -> (found: Option<
        Node<T>,
    >) where T: Clone
        requires
            branch@.len() > 0 ==> self@.len() > 0,
            forall|i: int, n: int|
                0 <= i < branch@.len() && 0 <= n < self@.len() ==> #[trigger] call_requires(
                    predicate,
                    (&branch@[i], &self@[n].value),
                ),
        ensures
            exists|end: Option<int>|
                #[trigger] walk_may_end(
                    self@,
                    branch@,
                    predicate_replies(*predicate),
                    root_only(),
                    end,
                ) && reports(self@, end, found),
    {
        proof {
            use_type_invariant(self);
        }
        let ghost replies = predicate_replies(*predicate);
        let start: Vec<usize> = vec![0];
        let mut frontier: &Vec<usize> = &start;
        let mut pos: usize = 0;
        assert(positions(frontier@) =~= root_only());
        assert(branch@.skip(0) =~= branch@);
        while pos < branch.len()
            invariant
                pos <= branch@.len(),
                well_formed(self@),
                replies == predicate_replies(*predicate),
                pos < branch@.len() ==> forall|j: int|
                    0 <= j < frontier@.len() ==> frontier@[j] < self@.len(),
                forall|i: int, n: int|
                    0 <= i < branch@.len() && 0 <= n < self@.len() ==> #[trigger] call_requires(
                        predicate,
                        (&branch@[i], &self@[n].value),
                    ),
                // whatever may end the walk from here may end the whole walk
                forall|end: Option<int>|
                    #[trigger] walk_may_end(
                        self@,
                        branch@.skip(pos as int),
                        replies,
                        positions(frontier@),
                        end,
                    ) ==> walk_may_end(self@, branch@, replies, root_only(), end),
            decreases branch@.len() - pos,
        {
            let ghost rest = branch@.skip(pos as int);
            let ghost candidates = positions(frontier@);
            assert(rest[0] == branch@[pos as int]);
            assert(rest.drop_first() =~= branch@.skip(pos + 1));
            let k: usize = self.scan(frontier, &branch[pos], predicate);
            if k < frontier.len() {
                let id: usize = frontier[k];
                let node = &self.nodes[id];
                if node.children_id.len() == 0 || pos == branch.len() - 1 {
                    assert(walk_may_end(self@, rest, replies, candidates, Some(id as int)));
                    return Some(node.clone());
                }
                assert forall|end: Option<int>| #[trigger]
                    walk_may_end(
                        self@,
                        rest.drop_first(),
                        replies,
                        node@.children,
                        end,
                    ) implies walk_may_end(self@, rest, replies, candidates, end) by {}
                assert forall|j: int| 0 <= j < node.children_id@.len() implies node.children_id@[j]
                    < self@.len() by {
                    assert(self@[id as int].children[j] == node.children_id@[j]);
                }
                frontier = &node.children_id;
            } else {
                assert forall|end: Option<int>| #[trigger]
                    walk_may_end(
                        self@,
                        rest.drop_first(),
                        replies,
                        candidates,
                        end,
                    ) implies walk_may_end(self@, rest, replies, candidates, end) by {}
            }
            pos += 1;
        }
        assert(walk_may_end(self@, branch@.skip(pos as int), replies, positions(frontier@), None));
        None
    }

    /// Scans `frontier` from the left for a node whose value `predicate`
    /// accepts for `wanted`, and returns the position in `frontier` at which
    /// the scan stopped, or the length of `frontier` if nothing was accepted.
    fn scan<U>(
        &self,
        frontier: &Vec<usize>,
        wanted: &U,
        predicate: &impl Fn(&U, &T) -> bool,
    ) -> (k: usize)
        requires
            forall|j: int| 0 <= j < frontier@.len() ==> frontier@[j] < self@.len(),
            forall|n: int|
                0 <= n < self@.len() ==> call_requires(
                    predicate,
                    (wanted, &(#[trigger] self@[n]).value),
                ),
        ensures
            scan_stops_at(
                self@,
                positions(frontier@),
                replies_to(predicate_replies(*predicate), *wanted),
                k as int,
            ),
    {
        let mut k: usize = 0;
        while k < frontier.len()
            invariant
                k <= frontier@.len(),
                forall|j: int| 0 <= j < frontier@.len() ==> frontier@[j] < self@.len(),
                forall|n: int|
                    0 <= n < self@.len() ==> call_requires(
                        predicate,
                        (wanted, &(#[trigger] self@[n]).value),
                    ),
                forall|j: int|
                    0 <= j < k ==> call_ensures(
                        predicate,
                        (wanted, &self@[(#[trigger] frontier@[j]) as int].value),
                        false,
                    ),
            decreases frontier@.len() - k,
        {
            let id: usize = frontier[k];
            if predicate(wanted, &self.nodes[id].value) {
                return k;
            }
            k += 1;
        }
        k
    }
}

} // verus!
