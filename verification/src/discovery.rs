use vstd::prelude::*;
use vstd::set_lib::{lemma_int_range, lemma_len_subset, lemma_subset_equality, set_int_range};
use crate::arena::{is_tree, lemma_walk_in_range, lemma_walk_split, walk};
use crate::node::NodeView;

verus! {

/// The entry that the walk takes from its work list next: the one put in
/// last, or, breadth first, the one put in first.
pub open spec fn taken(pending: Seq<Option<int>>, breadth_first: bool) -> Option<int> {
    if breadth_first {
        pending.first()
    } else {
        pending.last()
    }
}

/// The work list without the entry that the walk takes next.
pub open spec fn left(pending: Seq<Option<int>>, breadth_first: bool) -> Seq<Option<int>> {
    if breadth_first {
        pending.drop_first()
    } else {
        pending.drop_last()
    }
}

/// The entry that the walk takes next is a node that has no place yet.
pub open spec fn fresh(pending: Seq<Option<int>>, seen: Seq<int>, breadth_first: bool) -> bool {
    taken(pending, breadth_first) matches Some(at) && !seen.contains(at)
}

/// The order in which a walk with explicit work list comes upon the nodes.
/// `pending` is the work list, `seen` the nodes placed so far.  The walk
/// takes an entry from the work list; a node not yet seen is placed behind
/// the others, and its eight child slots go to the end of the work list.
/// The walk ends when the work list is empty or every node of the arena
/// has its place.
pub open spec fn discovered(
    nodes: Seq<NodeView>,
    pending: Seq<Option<int>>,
    seen: Seq<int>,
    breadth_first: bool,
) -> Seq<int>
    decreases nodes.len() - seen.len(), pending.len(),
{
    if pending.len() == 0 || seen.len() >= nodes.len() {
        seen
    } else if fresh(pending, seen, breadth_first) {
        let at = taken(pending, breadth_first).unwrap();
        discovered(
            nodes,
            left(pending, breadth_first) + nodes[at].children,
            seen.push(at),
            breadth_first,
        )
    } else {
        discovered(nodes, left(pending, breadth_first), seen, breadth_first)
    }
}

/// The nodes that can be reached from the root, in the order in which the
/// walk comes upon them.  The root is first.
pub open spec fn discovery_order(nodes: Seq<NodeView>, breadth_first: bool) -> Seq<int> {
    discovered(nodes, seq![Some(0int)], Seq::empty(), breadth_first)
}

/// What holds of work list and placed nodes at every step of the walk:
/// no node is placed twice, all indices are nodes of the arena, and each
/// child of a placed node is placed or waits in the work list.
pub open spec fn settled(nodes: Seq<NodeView>, pending: Seq<Option<int>>, seen: Seq<int>) -> bool {
    &&& seen.no_duplicates()
    &&& forall|k: int| 0 <= k < seen.len() ==> 0 <= #[trigger] seen[k] < nodes.len()
    &&& forall|j: int|
        0 <= j < pending.len() ==> (#[trigger] pending[j] matches Some(child) ==> 0 <= child
            < nodes.len())
    &&& forall|k: int, slot: int|
        0 <= k < seen.len() && 0 <= slot < 8 ==> (#[trigger] nodes[seen[k]].children[slot] matches Some(
            child,
        ) ==> seen.contains(child) || pending.contains(Some(child)))
}

/// The nodes of `order` are nodes of the arena, none comes twice, and the
/// children of each are in `order` too.
pub open spec fn closed_order(nodes: Seq<NodeView>, order: Seq<int>) -> bool {
    &&& order.no_duplicates()
    &&& forall|k: int| 0 <= k < order.len() ==> 0 <= #[trigger] order[k] < nodes.len()
    &&& forall|k: int, slot: int|
        0 <= k < order.len() && 0 <= slot < 8 ==> (#[trigger] nodes[order[k]].children[slot] matches Some(
            child,
        ) ==> order.contains(child))
}

/// A list of `count` or more indices below `count`, none twice, holds each
/// index below `count`.
proof fn lemma_all_placed(seen: Seq<int>, count: int)
    requires
        seen.no_duplicates(),
        forall|k: int| 0 <= k < seen.len() ==> 0 <= #[trigger] seen[k] < count,
        seen.len() >= count,
        count >= 0,
    ensures
        forall|at: int| 0 <= at < count ==> seen.contains(at),
{
    let placed = seen.to_set();
    let all = set_int_range(0, count);
    seen.unique_seq_to_set();
    lemma_int_range(0, count);
    assert forall|at: int| placed.contains(at) implies all.contains(at) by {
        let k = choose|k: int| 0 <= k < seen.len() && seen[k] == at;
        assert(0 <= seen[k] < count);
    }
    assert(placed.subset_of(all));
    vstd::set_lib::lemma_set_subset_finite(all, placed);
    lemma_len_subset(placed, all);
    lemma_subset_equality(placed, all);
    assert forall|at: int| 0 <= at < count implies seen.contains(at) by {
        assert(all.contains(at));
        assert(placed.contains(at));
    }
}

/// The entry taken and the entries left are the entries of the work list.
pub proof fn lemma_taken_and_left(pending: Seq<Option<int>>, breadth_first: bool)
    requires
        pending.len() > 0,
    ensures
        pending.contains(taken(pending, breadth_first)),
        left(pending, breadth_first).len() == pending.len() - 1,
        forall|j: int|
            0 <= j < left(pending, breadth_first).len() ==> pending.contains(
                #[trigger] left(pending, breadth_first)[j],
            ),
        forall|j: int|
            0 <= j < pending.len() ==> #[trigger] pending[j] == taken(pending, breadth_first)
                || left(pending, breadth_first).contains(pending[j]),
{
    let rest = left(pending, breadth_first);
    let at = if breadth_first {
        0int
    } else {
        pending.len() - 1
    };
    assert(pending[at] == taken(pending, breadth_first));
    assert forall|j: int| 0 <= j < rest.len() implies pending.contains(#[trigger] rest[j]) by {
        if breadth_first {
            assert(pending[j + 1] == rest[j]);
        } else {
            assert(pending[j] == rest[j]);
        }
    }
    assert forall|j: int| 0 <= j < pending.len() implies #[trigger] pending[j] == taken(
        pending,
        breadth_first,
    ) || rest.contains(pending[j]) by {
        if j != at {
            if breadth_first {
                assert(rest[j - 1] == pending[j]);
            } else {
                assert(rest[j] == pending[j]);
            }
        }
    }
}

/// The work list and the placed nodes after one step of the walk.
pub open spec fn stepped(
    nodes: Seq<NodeView>,
    pending: Seq<Option<int>>,
    seen: Seq<int>,
    breadth_first: bool,
) -> (Seq<Option<int>>, Seq<int>) {
    if fresh(pending, seen, breadth_first) {
        let at = taken(pending, breadth_first).unwrap();
        (left(pending, breadth_first) + nodes[at].children, seen.push(at))
    } else {
        (left(pending, breadth_first), seen)
    }
}

/// One step of the walk keeps what holds of work list and placed nodes.
pub proof fn lemma_step_settled(
    nodes: Seq<NodeView>,
    pending: Seq<Option<int>>,
    seen: Seq<int>,
    breadth_first: bool,
)
    requires
        is_tree(nodes),
        settled(nodes, pending, seen),
        pending.len() > 0,
    ensures
        settled(
            nodes,
            stepped(nodes, pending, seen, breadth_first).0,
            stepped(nodes, pending, seen, breadth_first).1,
        ),
        fresh(pending, seen, breadth_first) ==> 0 <= taken(pending, breadth_first).unwrap()
            < nodes.len(),
{
    let next = taken(pending, breadth_first);
    let rest = left(pending, breadth_first);
    lemma_taken_and_left(pending, breadth_first);
    let more = stepped(nodes, pending, seen, breadth_first).0;
    let placed = stepped(nodes, pending, seen, breadth_first).1;
    let j0 = choose|j: int| 0 <= j < pending.len() && pending[j] == next;
    assert(pending[j0] matches Some(child) ==> 0 <= child < nodes.len());
    assert forall|j: int| 0 <= j < rest.len() implies (#[trigger] rest[j] matches Some(child) ==> 0
        <= child < nodes.len()) by {
        assert(pending.contains(rest[j]));
        let i = choose|i: int| 0 <= i < pending.len() && pending[i] == rest[j];
        assert(pending[i] matches Some(child) ==> 0 <= child < nodes.len());
    }
    if fresh(pending, seen, breadth_first) {
        let at = next.unwrap();
        assert(nodes[at].children.len() == 8);
        assert forall|j: int| 0 <= j < more.len() implies (#[trigger] more[j] matches Some(child)
            ==> 0 <= child < nodes.len()) by {
            if j < rest.len() {
                assert(more[j] == rest[j]);
            } else {
                assert(more[j] == nodes[at].children[j - rest.len()]);
            }
        }
        assert forall|k: int, slot: int| 0 <= k < placed.len() && 0 <= slot < 8 implies (
        #[trigger] nodes[placed[k]].children[slot] matches Some(child) ==> placed.contains(child)
            || more.contains(Some(child))) by {
            if let Some(child) = nodes[placed[k]].children[slot] {
                if k < seen.len() {
                    assert(placed[k] == seen[k]);
                    if seen.contains(child) {
                        let i = choose|i: int| 0 <= i < seen.len() && seen[i] == child;
                        assert(placed[i] == child);
                    } else {
                        assert(pending.contains(Some(child)));
                        let j = choose|j: int| 0 <= j < pending.len() && pending[j] == Some(child);
                        if pending[j] == next {
                            assert(placed[seen.len() as int] == child);
                        } else {
                            assert(rest.contains(pending[j]));
                            let i = choose|i: int| 0 <= i < rest.len() && rest[i] == pending[j];
                            assert(more[i] == Some(child));
                        }
                    }
                } else {
                    assert(placed[k] == at);
                    assert(more[rest.len() + slot] == Some(child));
                }
            }
        }
        assert(placed.no_duplicates());
        assert forall|k: int| 0 <= k < placed.len() implies 0 <= #[trigger] placed[k]
            < nodes.len() by {
            if k < seen.len() {
                assert(placed[k] == seen[k]);
            }
        }
    } else {
        assert forall|k: int, slot: int| 0 <= k < seen.len() && 0 <= slot < 8 implies (
        #[trigger] nodes[seen[k]].children[slot] matches Some(child) ==> seen.contains(child)
            || rest.contains(Some(child))) by {
            if let Some(child) = nodes[seen[k]].children[slot] {
                if !seen.contains(child) {
                    assert(pending.contains(Some(child)));
                    let j = choose|j: int| 0 <= j < pending.len() && pending[j] == Some(child);
                    assert(pending[j] != next);
                    assert(rest.contains(pending[j]));
                }
            }
        }
    }
}

/// The walk ends with an order that is closed, that begins with the nodes
/// placed before, and that holds every node of the work list.
pub proof fn lemma_discovered(
    nodes: Seq<NodeView>,
    pending: Seq<Option<int>>,
    seen: Seq<int>,
    breadth_first: bool,
)
    requires
        is_tree(nodes),
        settled(nodes, pending, seen),
    ensures
        closed_order(nodes, discovered(nodes, pending, seen, breadth_first)),
        seen.len() <= discovered(nodes, pending, seen, breadth_first).len(),
        forall|k: int|
            0 <= k < seen.len() ==> discovered(nodes, pending, seen, breadth_first)[k]
                == #[trigger] seen[k],
        forall|j: int|
            0 <= j < pending.len() ==> (#[trigger] pending[j] matches Some(child) ==> discovered(
                nodes,
                pending,
                seen,
                breadth_first,
            ).contains(child)),
    decreases nodes.len() - seen.len(), pending.len(),
{
    let result = discovered(nodes, pending, seen, breadth_first);
    if pending.len() == 0 {
        assert forall|k: int, slot: int| 0 <= k < seen.len() && 0 <= slot < 8 implies (
        #[trigger] nodes[seen[k]].children[slot] matches Some(child) ==> seen.contains(child)) by {
            if let Some(child) = nodes[seen[k]].children[slot] {
                assert(!pending.contains(Some(child)));
            }
        }
    } else if seen.len() >= nodes.len() {
        lemma_all_placed(seen, nodes.len() as int);
        assert forall|k: int, slot: int| 0 <= k < seen.len() && 0 <= slot < 8 implies (
        #[trigger] nodes[seen[k]].children[slot] matches Some(child) ==> seen.contains(child)) by {
            if let Some(child) = nodes[seen[k]].children[slot] {
                assert(0 < child < nodes.len());
            }
        }
    } else {
        let next = taken(pending, breadth_first);
        let rest = left(pending, breadth_first);
        let more = stepped(nodes, pending, seen, breadth_first).0;
        let placed = stepped(nodes, pending, seen, breadth_first).1;
        lemma_taken_and_left(pending, breadth_first);
        lemma_step_settled(nodes, pending, seen, breadth_first);
        assert(result == discovered(nodes, more, placed, breadth_first));
        lemma_discovered(nodes, more, placed, breadth_first);
        assert forall|k: int| 0 <= k < seen.len() implies result[k] == #[trigger] seen[k] by {
            assert(placed[k] == seen[k]);
        }
        assert forall|j: int| 0 <= j < pending.len() implies (
        #[trigger] pending[j] matches Some(child) ==> result.contains(child)) by {
            if let Some(child) = pending[j] {
                if pending[j] == next {
                    if fresh(pending, seen, breadth_first) {
                        assert(result[seen.len() as int] == placed[seen.len() as int]);
                    } else {
                        assert(seen.contains(child));
                        let i = choose|i: int| 0 <= i < seen.len() && seen[i] == child;
                        assert(result[i] == seen[i]);
                    }
                } else {
                    assert(rest.contains(pending[j]));
                    let i = choose|i: int| 0 <= i < rest.len() && rest[i] == pending[j];
                    assert(more[i] == Some(child));
                }
            }
        }
    }
}

/// The walk is over when the work list is empty or every node has its
/// place.
pub proof fn lemma_discovery_stops(
    nodes: Seq<NodeView>,
    pending: Seq<Option<int>>,
    seen: Seq<int>,
    breadth_first: bool,
)
    requires
        pending.len() == 0 || seen.len() >= nodes.len(),
    ensures
        discovered(nodes, pending, seen, breadth_first) == seen,
{
}

/// Some path leads from the root to node `at`.
pub open spec fn reachable(nodes: Seq<NodeView>, at: int) -> bool {
    exists|path: Seq<int>| walk(nodes, 0, path) == Some(at)
}

/// A node that can be reached is a node of the arena.
proof fn lemma_reachable_in_range(nodes: Seq<NodeView>, at: int)
    requires
        is_tree(nodes),
        reachable(nodes, at),
    ensures
        0 <= at < nodes.len(),
{
    let path = choose|path: Seq<int>| walk(nodes, 0, path) == Some(at);
    lemma_walk_in_range(nodes, 0, path);
}

/// A child of a node that can be reached can be reached.
proof fn lemma_reachable_child(nodes: Seq<NodeView>, at: int, slot: int)
    requires
        is_tree(nodes),
        reachable(nodes, at),
        0 <= slot < 8,
        nodes[at].children[slot] is Some,
    ensures
        reachable(nodes, nodes[at].children[slot].unwrap()),
{
    let path = choose|path: Seq<int>| walk(nodes, 0, path) == Some(at);
    let child = nodes[at].children[slot].unwrap();
    let longer = path.push(slot);
    lemma_walk_in_range(nodes, 0, path);
    lemma_walk_split(nodes, 0, longer, path.len() as int);
    assert(longer.take(path.len() as int) =~= path);
    let last = longer.skip(path.len() as int);
    assert(last.len() == 1 && last[0] == slot);
    assert(last.drop_first().len() == 0);
    assert(walk(nodes, child, last.drop_first()) == Some(child));
    assert(walk(nodes, at, last) == Some(child));
    assert(walk(nodes, 0, longer) == Some(child));
}

/// The walk places only nodes that can be reached from the root, where it
/// starts with such nodes.
proof fn lemma_discovered_reachable(
    nodes: Seq<NodeView>,
    pending: Seq<Option<int>>,
    seen: Seq<int>,
    breadth_first: bool,
)
    requires
        is_tree(nodes),
        forall|k: int| 0 <= k < seen.len() ==> reachable(nodes, #[trigger] seen[k]),
        forall|j: int|
            0 <= j < pending.len() ==> (#[trigger] pending[j] matches Some(child) ==> reachable(
                nodes,
                child,
            )),
    ensures
        forall|k: int|
            0 <= k < discovered(nodes, pending, seen, breadth_first).len() ==> reachable(
                nodes,
                #[trigger] discovered(nodes, pending, seen, breadth_first)[k],
            ),
    decreases nodes.len() - seen.len(), pending.len(),
{
    let result = discovered(nodes, pending, seen, breadth_first);
    if pending.len() > 0 && seen.len() < nodes.len() {
        let next = taken(pending, breadth_first);
        let rest = left(pending, breadth_first);
        lemma_taken_and_left(pending, breadth_first);
        let j0 = choose|j: int| 0 <= j < pending.len() && pending[j] == next;
        assert(pending[j0] matches Some(child) ==> reachable(nodes, child));
        assert forall|j: int| 0 <= j < rest.len() implies (#[trigger] rest[j] matches Some(child)
            ==> reachable(nodes, child)) by {
            assert(pending.contains(rest[j]));
            let i = choose|i: int| 0 <= i < pending.len() && pending[i] == rest[j];
            assert(pending[i] matches Some(child) ==> reachable(nodes, child));
        }
        if fresh(pending, seen, breadth_first) {
            let at = next.unwrap();
            assert(reachable(nodes, at));
            lemma_reachable_in_range(nodes, at);
            let more = rest + nodes[at].children;
            let placed = seen.push(at);
            assert(result == discovered(nodes, more, placed, breadth_first));
            assert(nodes[at].children.len() == 8);
            assert forall|j: int| 0 <= j < more.len() implies (#[trigger] more[j] matches Some(
                child,
            ) ==> reachable(nodes, child)) by {
                if j >= rest.len() {
                    let slot = j - rest.len();
                    assert(more[j] == nodes[at].children[slot]);
                    if nodes[at].children[slot] is Some {
                        lemma_reachable_child(nodes, at, slot);
                    }
                } else {
                    assert(more[j] == rest[j]);
                }
            }
            assert forall|k: int| 0 <= k < placed.len() implies reachable(
                nodes,
                #[trigger] placed[k],
            ) by {
                if k < seen.len() {
                    assert(placed[k] == seen[k]);
                }
            }
            lemma_discovered_reachable(nodes, more, placed, breadth_first);
        } else {
            assert(result == discovered(nodes, rest, seen, breadth_first));
            lemma_discovered_reachable(nodes, rest, seen, breadth_first);
        }
    } else {
        assert(result == seen);
    }
}

/// Every node that a walk from a node of a closed order ends at is in the
/// order.
proof fn lemma_closed_holds_walks(nodes: Seq<NodeView>, order: Seq<int>, k: int, path: Seq<int>)
    requires
        closed_order(nodes, order),
        0 <= k < order.len(),
    ensures
        walk(nodes, order[k], path) matches Some(end) ==> order.contains(end),
    decreases path.len(),
{
    if path.len() > 0 && 0 <= path[0] < 8 {
        match nodes[order[k]].children[path[0]] {
            Some(child) => {
                assert(order.contains(child));
                let next = choose|next: int| 0 <= next < order.len() && order[next] == child;
                lemma_closed_holds_walks(nodes, order, next, path.drop_first());
            },
            None => {},
        }
    }
}

/// The first step of the walk places the root and puts its child slots
/// into the work list.
pub proof fn lemma_first_step(nodes: Seq<NodeView>, breadth_first: bool)
    requires
        is_tree(nodes),
    ensures
        settled(nodes, seq![Some(0int)], Seq::empty()),
        settled(nodes, nodes[0].children, seq![0int]),
        discovery_order(nodes, breadth_first) == discovered(
            nodes,
            nodes[0].children,
            seq![0int],
            breadth_first,
        ),
{
    let pending = seq![Some(0int)];
    let seen = Seq::<int>::empty();
    assert(settled(nodes, pending, seen));
    assert(fresh(pending, seen, breadth_first));
    lemma_step_settled(nodes, pending, seen, breadth_first);
    assert(left(pending, breadth_first) + nodes[0].children =~= nodes[0].children);
    assert(seen.push(0) =~= seq![0int]);
}

/// The order of discovery of a tree is closed, the root is first in it, and
/// it holds the nodes that can be reached from the root, and no others.
pub proof fn lemma_discovery_order(nodes: Seq<NodeView>, breadth_first: bool)
    requires
        is_tree(nodes),
    ensures
        closed_order(nodes, discovery_order(nodes, breadth_first)),
        discovery_order(nodes, breadth_first).len() > 0,
        discovery_order(nodes, breadth_first)[0] == 0,
        forall|at: int|
            #[trigger] reachable(nodes, at) <==> discovery_order(nodes, breadth_first).contains(at),
{
    let order = discovery_order(nodes, breadth_first);
    lemma_first_step(nodes, breadth_first);
    lemma_discovered(nodes, nodes[0].children, seq![0int], breadth_first);
    assert(order[0] == seq![0int][0]);
    assert(walk(nodes, 0, Seq::<int>::empty()) == Some(0int));
    assert(reachable(nodes, 0));
    lemma_discovered_reachable(nodes, seq![Some(0int)], Seq::empty(), breadth_first);
    assert forall|at: int| #[trigger] reachable(nodes, at) <==> order.contains(at) by {
        if reachable(nodes, at) {
            let path = choose|path: Seq<int>| walk(nodes, 0, path) == Some(at);
            lemma_closed_holds_walks(nodes, order, 0, path);
        }
        if order.contains(at) {
            let k = choose|k: int| 0 <= k < order.len() && order[k] == at;
            assert(reachable(nodes, order[k]));
        }
    }
}

} // verus!
