//! What the searches over the arena return, stated over the model.
//!
//! Every search is built from one step: scan a list of candidate nodes from
//! the left and stop at the first one that a test accepts. A test supplied by
//! the caller is known only through what it may answer, so each notion comes
//! twice: as a relation, for any test, and as a function, for a test whose
//! answers are known exactly. The lemmas at the end connect the two.

use crate::model::NodeView;
use vstd::prelude::*;
use vstd::std_specs::cmp::PartialEqSpec;

verus! {

/// The candidate at position `k`, if there is one.
pub open spec fn picked(candidates: Seq<int>, k: int) -> Option<int> {
    if 0 <= k < candidates.len() {
        Some(candidates[k])
    } else {
        None
    }
}

/// A left-to-right scan of `candidates` may stop at position `k`: the test
/// may have rejected every candidate before `k` and accepted the one at `k`.
/// `k == candidates.len()` stands for a scan that found nothing.
///
/// `reply(t, b)` says that the test, asked about the value `t`, may answer `b`.
pub open spec fn scan_stops_at<T>(
    nodes: Seq<NodeView<T>>,
    candidates: Seq<int>,
    reply: spec_fn(T, bool) -> bool,
    k: int,
) -> bool {
    &&& 0 <= k <= candidates.len()
    &&& forall|j: int| 0 <= j < k ==> reply(nodes[#[trigger] candidates[j]].value, false)
    &&& k < candidates.len() ==> reply(nodes[candidates[k]].value, true)
}

/// The first candidate whose value `accepts` holds of, if there is one.
pub open spec fn first_accepted<T>(
    nodes: Seq<NodeView<T>>,
    candidates: Seq<int>,
    accepts: spec_fn(T) -> bool,
) -> Option<int>
    decreases candidates.len(),
{
    if candidates.len() == 0 {
        None
    } else if accepts(nodes[candidates[0]].value) {
        Some(candidates[0])
    } else {
        first_accepted(nodes, candidates.drop_first(), accepts)
    }
}

/// The answers of a two-place test about one fixed branch value.
pub open spec fn replies_to<U, T>(reply: spec_fn(U, T, bool) -> bool, wanted: U) -> spec_fn(
    T,
    bool,
) -> bool {
    |t: T, b: bool| reply(wanted, t, b)
}

/// A two-place predicate with its first argument fixed.
pub open spec fn holds_for<U, T>(holds: spec_fn(U, T) -> bool, wanted: U) -> spec_fn(T) -> bool {
    |t: T| holds(wanted, t)
}

/// Matching `branch` against the tree, starting with the nodes in `frontier`
/// as candidates for its first value, may end with `end`.
///
/// For each branch value in turn the frontier is scanned from the left.
/// - No candidate is accepted: the value is passed over, and the next value
///   meets the same frontier.
/// - The accepted node is a leaf, or the value is the last one of the branch:
///   the walk ends with that node.
/// - Otherwise the children of the accepted node become the frontier. Later
///   candidates of the old frontier are never looked at.
/// A branch that runs out without an accepted node ends with `None`.
///
/// `reply(u, t, b)` says that the test, asked whether the branch value `u`
/// matches the node value `t`, may answer `b`.
pub open spec fn walk_may_end<T, U>(
    nodes: Seq<NodeView<T>>,
    branch: Seq<U>,
    reply: spec_fn(U, T, bool) -> bool,
    frontier: Seq<int>,
    end: Option<int>,
) -> bool
    decreases branch.len(),
{
    if branch.len() == 0 {
        end is None
    } else {
        exists|k: int|
            {
                &&& #[trigger] scan_stops_at(nodes, frontier, replies_to(reply, branch[0]), k)
                &&& match picked(frontier, k) {
                    None => walk_may_end(nodes, branch.drop_first(), reply, frontier, end),
                    Some(n) => if nodes[n].children.len() == 0 || branch.len() == 1 {
                        end == Some(n)
                    } else {
                        walk_may_end(nodes, branch.drop_first(), reply, nodes[n].children, end)
                    },
                }
            }
    }
}

/// The node at which matching `branch` against the tree ends, starting with
/// the nodes in `frontier` as candidates for its first value, when the branch
/// value `u` matches the node value `t` exactly if `holds(u, t)`.
///
/// The steps are those of `walk_may_end`.
pub open spec fn walk_end<T, U>(
    nodes: Seq<NodeView<T>>,
    branch: Seq<U>,
    holds: spec_fn(U, T) -> bool,
    frontier: Seq<int>,
) -> Option<int>
    decreases branch.len(),
{
    if branch.len() == 0 {
        None
    } else {
        match first_accepted(nodes, frontier, holds_for(holds, branch[0])) {
            None => walk_end(nodes, branch.drop_first(), holds, frontier),
            Some(n) => if nodes[n].children.len() == 0 || branch.len() == 1 {
                Some(n)
            } else {
                walk_end(nodes, branch.drop_first(), holds, nodes[n].children)
            },
        }
    }
}

/// What a caller's two-place test may answer, read off its own contract.
pub open spec fn predicate_replies<U, T, F: Fn(&U, &T) -> bool>(predicate: F) -> spec_fn(
    U,
    T,
    bool,
) -> bool {
    |u: U, t: T, b: bool| call_ensures(predicate, (&u, &t), b)
}

/// What `==` may answer when a branch value stands on its left and a node
/// value on its right.
pub open spec fn equality_replies<T: PartialEq>() -> spec_fn(T, T, bool) -> bool {
    |u: T, t: T, b: bool| call_ensures(T::eq, (&u, &t), b)
}

/// What `==` says of a branch value and a node value, for a type whose `==`
/// has a specification.
pub open spec fn equality<T: PartialEq>() -> spec_fn(T, T) -> bool {
    |u: T, t: T| u.eq_spec(&t)
}

/// What `==` may answer when a node value stands on its left and `wanted` on
/// its right.
pub open spec fn equal_to_replies<T: PartialEq>(wanted: T) -> spec_fn(T, bool) -> bool {
    |t: T, b: bool| call_ensures(T::eq, (&t, &wanted), b)
}

/// Whether a node value equals `wanted`, for a type whose `==` has a
/// specification.
pub open spec fn equal_to<T: PartialEq>(wanted: T) -> spec_fn(T) -> bool {
    |t: T| t.eq_spec(&wanted)
}

/// The frontier that every branch match starts with: the root alone.
pub open spec fn root_only() -> Seq<int> {
    seq![0int]
}

/// The test answers exactly as `accepts` says.
pub open spec fn decided<T>(reply: spec_fn(T, bool) -> bool, accepts: spec_fn(T) -> bool) -> bool {
    forall|t: T, b: bool| #[trigger] reply(t, b) ==> b == accepts(t)
}

/// The two-place test answers exactly as `holds` says.
pub open spec fn decided_by<U, T>(
    reply: spec_fn(U, T, bool) -> bool,
    holds: spec_fn(U, T) -> bool,
) -> bool {
    forall|u: U, t: T, b: bool| #[trigger] reply(u, t, b) ==> b == holds(u, t)
}

/// Every answer that `strong` allows, `weak` allows too.
pub open spec fn refines<U, T>(
    strong: spec_fn(U, T, bool) -> bool,
    weak: spec_fn(U, T, bool) -> bool,
) -> bool {
    forall|u: U, t: T, b: bool| #[trigger] strong(u, t, b) ==> weak(u, t, b)
}

/// A scan with a test whose answers are known stops at the first accepted
/// candidate and nowhere else.
pub proof fn lemma_scan_decided<T>(
    nodes: Seq<NodeView<T>>,
    candidates: Seq<int>,
    reply: spec_fn(T, bool) -> bool,
    accepts: spec_fn(T) -> bool,
    k: int,
)
    requires
        decided(reply, accepts),
        scan_stops_at(nodes, candidates, reply, k),
    ensures
        picked(candidates, k) == first_accepted(nodes, candidates, accepts),
    decreases candidates.len(),
{
    if candidates.len() > 0 && k > 0 {
        lemma_scan_decided(nodes, candidates.drop_first(), reply, accepts, k - 1);
    }
}

/// A walk with a test whose answers are known has one possible end, the one
/// that `walk_end` computes.
pub proof fn lemma_walk_decided<T, U>(
    nodes: Seq<NodeView<T>>,
    branch: Seq<U>,
    reply: spec_fn(U, T, bool) -> bool,
    holds: spec_fn(U, T) -> bool,
    frontier: Seq<int>,
    end: Option<int>,
)
    requires
        decided_by(reply, holds),
        walk_may_end(nodes, branch, reply, frontier, end),
    ensures
        end == walk_end(nodes, branch, holds, frontier),
    decreases branch.len(),
{
    if branch.len() > 0 {
        let asked = replies_to(reply, branch[0]);
        let accepts = holds_for(holds, branch[0]);
        let k: int = choose|k: int|
            {
                &&& #[trigger] scan_stops_at(nodes, frontier, asked, k)
                &&& match picked(frontier, k) {
                    None => walk_may_end(nodes, branch.drop_first(), reply, frontier, end),
                    Some(n) => if nodes[n].children.len() == 0 || branch.len() == 1 {
                        end == Some(n)
                    } else {
                        walk_may_end(nodes, branch.drop_first(), reply, nodes[n].children, end)
                    },
                }
            };
        lemma_scan_decided(nodes, frontier, asked, accepts, k);
        match picked(frontier, k) {
            None => {
                lemma_walk_decided(nodes, branch.drop_first(), reply, holds, frontier, end);
            },
            Some(n) => {
                if !(nodes[n].children.len() == 0 || branch.len() == 1) {
                    lemma_walk_decided(
                        nodes,
                        branch.drop_first(),
                        reply,
                        holds,
                        nodes[n].children,
                        end,
                    );
                }
            },
        }
    }
}

/// An end that is possible with a test stays possible with a test that is
/// known less precisely.
pub proof fn lemma_walk_refined<T, U>(
    nodes: Seq<NodeView<T>>,
    branch: Seq<U>,
    strong: spec_fn(U, T, bool) -> bool,
    weak: spec_fn(U, T, bool) -> bool,
    frontier: Seq<int>,
    end: Option<int>,
)
    requires
        refines(strong, weak),
        walk_may_end(nodes, branch, strong, frontier, end),
    ensures
        walk_may_end(nodes, branch, weak, frontier, end),
    decreases branch.len(),
{
    if branch.len() > 0 {
        let k: int = choose|k: int|
            {
                &&& #[trigger] scan_stops_at(nodes, frontier, replies_to(strong, branch[0]), k)
                &&& match picked(frontier, k) {
                    None => walk_may_end(nodes, branch.drop_first(), strong, frontier, end),
                    Some(n) => if nodes[n].children.len() == 0 || branch.len() == 1 {
                        end == Some(n)
                    } else {
                        walk_may_end(nodes, branch.drop_first(), strong, nodes[n].children, end)
                    },
                }
            };
        assert(scan_stops_at(nodes, frontier, replies_to(weak, branch[0]), k));
        match picked(frontier, k) {
            None => {
                lemma_walk_refined(nodes, branch.drop_first(), strong, weak, frontier, end);
            },
            Some(n) => {
                if !(nodes[n].children.len() == 0 || branch.len() == 1) {
                    lemma_walk_refined(
                        nodes,
                        branch.drop_first(),
                        strong,
                        weak,
                        nodes[n].children,
                        end,
                    );
                }
            },
        }
    }
}

/// For a type whose `==` has a specification, `==` answers as that
/// specification says.
pub proof fn lemma_equality_decided<T: PartialEq>()
    requires
        T::obeys_eq_spec(),
    ensures
        decided_by(equality_replies::<T>(), equality::<T>()),
        forall|wanted: T| decided(equal_to_replies(wanted), #[trigger] equal_to(wanted)),
{
}

} // verus!
