use vstd::prelude::*;
use crate::node::NodeView;

verus! {

/// Every node has its eight child slots.
pub open spec fn shaped(nodes: Seq<NodeView>) -> bool {
    forall|at: int| 0 <= at < nodes.len() ==> (#[trigger] nodes[at]).children.len() == 8
}

/// Every populated slot holds the index of a node of the arena other than
/// the root, which is node 0.
pub open spec fn linked(nodes: Seq<NodeView>) -> bool {
    forall|at: int, slot: int|
        0 <= at < nodes.len() && 0 <= slot < 8 ==> (#[trigger] nodes[at].children[slot] matches Some(
            child,
        ) ==> 0 < child < nodes.len())
}

/// No node is attached under two parents, nor twice under one.
pub open spec fn exclusive(nodes: Seq<NodeView>) -> bool {
    forall|a: int, i: int, b: int, j: int|
        0 <= a < nodes.len() && 0 <= i < 8 && 0 <= b < nodes.len() && 0 <= j < 8
            && #[trigger] nodes[a].children[i] is Some && nodes[a].children[i]
            == #[trigger] nodes[b].children[j] ==> a == b && i == j
}

/// The arena holds a tree rooted at node 0.
pub open spec fn is_tree(nodes: Seq<NodeView>) -> bool {
    &&& nodes.len() > 0
    &&& shaped(nodes)
    &&& linked(nodes)
    &&& exclusive(nodes)
}

/// Every entry of `path` is a child slot.
pub open spec fn is_path(path: Seq<int>) -> bool {
    forall|k: int| 0 <= k < path.len() ==> 0 <= #[trigger] path[k] < 8
}

/// The node reached from `start` by following `path`, one child slot per
/// entry; none where a slot on the way is empty.
pub open spec fn walk(nodes: Seq<NodeView>, start: int, path: Seq<int>) -> Option<int>
    decreases path.len(),
{
    if path.len() == 0 {
        Some(start)
    } else if !(0 <= path[0] < 8) {
        None
    } else {
        match nodes[start].children[path[0]] {
            Some(child) => walk(nodes, child, path.drop_first()),
            None => None,
        }
    }
}

/// The wrapper that growth puts in `slot` of the new root: it holds the old
/// child of that slot in the opposite slot, and a copy of its payload.
pub open spec fn wrapper(nodes: Seq<NodeView>, slot: int) -> NodeView {
    match nodes[0].children[slot] {
        Some(child) => NodeView {
            children: Seq::new(
                8,
                |s: int|
                    if s == 7 - slot {
                        Some(child)
                    } else {
                        None
                    },
            ),
            data: nodes[child].data,
        },
        None => NodeView::empty(),
    }
}

/// The arena after growth: eight wrappers at the end, and a new root in
/// place of the old one, with the wrappers as its children.
pub open spec fn grown(nodes: Seq<NodeView>) -> Seq<NodeView> {
    let count = nodes.len() as int;
    let wrappers = Seq::new(8, |slot: int| wrapper(nodes, slot));
    let root = NodeView { children: Seq::new(8, |slot: int| Some(count + slot)), data: None };
    (nodes + wrappers).update(0, root)
}

/// The arena after the empty `slot` of node `at` was populated.  A node
/// with a payload hands it to eight new leaves, which fill its empty slots,
/// and keeps none itself; a node without payload gets one new empty node.
pub open spec fn materialised(nodes: Seq<NodeView>, at: int, slot: int) -> Seq<NodeView> {
    let count = nodes.len() as int;
    match nodes[at].data {
        Some(data) => {
            let leaves = Seq::new(8, |s: int| NodeView::leaf(data));
            let parent = NodeView {
                children: Seq::new(
                    8,
                    |s: int|
                        match nodes[at].children[s] {
                            Some(child) => Some(child),
                            None => Some(count + s),
                        },
                ),
                data: None,
            };
            (nodes + leaves).update(at, parent)
        },
        None => nodes.push(NodeView::empty()).update(at, nodes[at].with_child(slot, count)),
    }
}

/// The arena in which `slot` of node `at` is populated: unchanged where it
/// was already.
pub open spec fn opened(nodes: Seq<NodeView>, at: int, slot: int) -> Seq<NodeView> {
    if nodes[at].children[slot] is Some {
        nodes
    } else {
        materialised(nodes, at, slot)
    }
}

/// Following `path` from `start` and populating each empty slot on the
/// way: the arena that results, and the node reached.
pub open spec fn traversed(nodes: Seq<NodeView>, start: int, path: Seq<int>) -> (Seq<NodeView>, int)
    decreases path.len(),
{
    if path.len() == 0 {
        (nodes, start)
    } else {
        let next = opened(nodes, start, path[0]);
        traversed(next, next[start].children[path[0]].unwrap(), path.drop_first())
    }
}

/// A walk in a tree ends at a node of the arena; one of at least one step
/// does not end at the root.
pub proof fn lemma_walk_in_range(nodes: Seq<NodeView>, start: int, path: Seq<int>)
    requires
        is_tree(nodes),
        0 <= start < nodes.len(),
    ensures
        walk(nodes, start, path) matches Some(end) ==> 0 <= end < nodes.len() && (path.len() > 0
            ==> end > 0),
    decreases path.len(),
{
    if path.len() > 0 && 0 <= path[0] < 8 {
        match nodes[start].children[path[0]] {
            Some(child) => {
                lemma_walk_in_range(nodes, child, path.drop_first());
            },
            None => {},
        }
    }
}

/// A walk can be cut in two at any step.
pub proof fn lemma_walk_split(nodes: Seq<NodeView>, start: int, path: Seq<int>, k: int)
    requires
        0 <= k <= path.len(),
    ensures
        walk(nodes, start, path) == (match walk(nodes, start, path.take(k)) {
            Some(mid) => walk(nodes, mid, path.skip(k)),
            None => None,
        }),
    decreases k,
{
    if k == 0 {
        assert(path.skip(0) =~= path);
        assert(path.take(0).len() == 0);
    } else {
        let head = path.take(k);
        assert(head[0] == path[0]);
        assert(head.drop_first() =~= path.drop_first().take(k - 1));
        assert(path.drop_first().skip(k - 1) =~= path.skip(k));
        if 0 <= path[0] < 8 {
            match nodes[start].children[path[0]] {
                Some(child) => {
                    lemma_walk_split(nodes, child, path.drop_first(), k - 1);
                },
                None => {},
            }
        }
    }
}

/// The last step of a walk: the node before it holds the end in the slot
/// that the last entry of the path names.
pub proof fn lemma_walk_last(nodes: Seq<NodeView>, start: int, path: Seq<int>)
    requires
        path.len() > 0,
        walk(nodes, start, path) is Some,
    ensures
        walk(nodes, start, path.drop_last()) is Some,
        0 <= path.last() < 8,
        nodes[walk(nodes, start, path.drop_last()).unwrap()].children[path.last()] == walk(
            nodes,
            start,
            path,
        ),
{
    let k = path.len() - 1;
    lemma_walk_split(nodes, start, path, k);
    assert(path.take(k) =~= path.drop_last());
    let tail = path.skip(k);
    assert(tail.len() == 1);
    assert(tail[0] == path.last());
    assert(tail.drop_first().len() == 0);
    let mid = walk(nodes, start, path.drop_last()).unwrap();
    assert(walk(nodes, mid, tail) is Some);
    let end = nodes[mid].children[tail[0]].unwrap();
    assert(walk(nodes, end, tail.drop_first()) == Some(end));
}

/// In a tree, a node is reached from the root by at most one path.
pub proof fn lemma_walk_unique(nodes: Seq<NodeView>, first: Seq<int>, second: Seq<int>)
    requires
        is_tree(nodes),
        walk(nodes, 0, first) is Some,
        walk(nodes, 0, first) == walk(nodes, 0, second),
    ensures
        first == second,
    decreases first.len(),
{
    if first.len() == 0 {
        if second.len() > 0 {
            lemma_walk_last(nodes, 0, second);
            lemma_walk_in_range(nodes, 0, second.drop_last());
            let before = walk(nodes, 0, second.drop_last()).unwrap();
            assert(nodes[before].children[second.last()] == Some(0int));
        }
        assert(first =~= second);
    } else {
        lemma_walk_last(nodes, 0, first);
        lemma_walk_in_range(nodes, 0, first.drop_last());
        let a = walk(nodes, 0, first.drop_last()).unwrap();
        if second.len() == 0 {
            assert(nodes[a].children[first.last()] == Some(0int));
        } else {
            lemma_walk_last(nodes, 0, second);
            lemma_walk_in_range(nodes, 0, second.drop_last());
            let b = walk(nodes, 0, second.drop_last()).unwrap();
            assert(nodes[a].children[first.last()] == nodes[b].children[second.last()]);
            assert(a == b && first.last() == second.last());
            lemma_walk_unique(nodes, first.drop_last(), second.drop_last());
            assert(first =~= first.drop_last().push(first.last()));
            assert(second =~= second.drop_last().push(second.last()));
        }
    }
}

/// A walk that succeeds in one arena succeeds, with the same end, in every
/// arena that keeps the populated slots of the first.
pub proof fn lemma_walk_kept(nodes: Seq<NodeView>, after: Seq<NodeView>, start: int, path: Seq<int>)
    requires
        is_tree(nodes),
        0 <= start < nodes.len(),
        after.len() >= nodes.len(),
        forall|at: int, slot: int|
            0 <= at < nodes.len() && 0 <= slot < 8 && #[trigger] nodes[at].children[slot] is Some
                ==> after[at].children[slot] == nodes[at].children[slot],
        walk(nodes, start, path) is Some,
    ensures
        walk(after, start, path) == walk(nodes, start, path),
    decreases path.len(),
{
    if path.len() > 0 {
        let child = nodes[start].children[path[0]].unwrap();
        assert(nodes[start].children[path[0]] is Some);
        lemma_walk_kept(nodes, after, child, path.drop_first());
    }
}

/// A walk that starts below the root sees only nodes other than the root:
/// it is the same in every arena that agrees on those.
pub proof fn lemma_walk_below_root(
    nodes: Seq<NodeView>,
    after: Seq<NodeView>,
    start: int,
    path: Seq<int>,
)
    requires
        is_tree(nodes),
        0 < start < nodes.len(),
        after.len() >= nodes.len(),
        forall|at: int| 0 < at < nodes.len() ==> #[trigger] after[at] == nodes[at],
    ensures
        walk(after, start, path) == walk(nodes, start, path),
    decreases path.len(),
{
    if path.len() > 0 && 0 <= path[0] < 8 {
        assert(after[start] == nodes[start]);
        match nodes[start].children[path[0]] {
            Some(child) => {
                lemma_walk_below_root(nodes, after, child, path.drop_first());
            },
            None => {},
        }
    }
}

/// Replacing a node that a walk does not pass through before its end
/// leaves the walk as it was.
pub proof fn lemma_walk_past(
    nodes: Seq<NodeView>,
    at: int,
    node: NodeView,
    start: int,
    path: Seq<int>,
)
    requires
        is_tree(nodes),
        0 <= at < nodes.len(),
        0 <= start < nodes.len(),
        forall|k: int| 0 <= k < path.len() ==> walk(nodes, start, #[trigger] path.take(k)) != Some(at),
    ensures
        walk(nodes.update(at, node), start, path) == walk(nodes, start, path),
    decreases path.len(),
{
    if path.len() > 0 && 0 <= path[0] < 8 {
        assert(path.take(0).len() == 0);
        assert(walk(nodes, start, path.take(0)) == Some(start));
        assert(start != at);
        assert(nodes.update(at, node)[start] == nodes[start]);
        match nodes[start].children[path[0]] {
            Some(child) => {
                let rest = path.drop_first();
                assert forall|k: int| 0 <= k < rest.len() implies walk(
                    nodes,
                    child,
                    #[trigger] rest.take(k),
                ) != Some(at) by {
                    let head = path.take(k + 1);
                    assert(head[0] == path[0]);
                    assert(head.drop_first() =~= rest.take(k));
                }
                lemma_walk_past(nodes, at, node, child, rest);
            },
            None => {},
        }
    }
}

/// Where the links of the arena come from after a slot was populated.
pub proof fn lemma_materialised_link(nodes: Seq<NodeView>, at: int, slot: int, a: int, i: int)
    requires
        is_tree(nodes),
        0 <= at < nodes.len(),
        0 <= slot < 8,
        nodes[at].children[slot] is None,
        0 <= a < materialised(nodes, at, slot).len(),
        0 <= i < 8,
    ensures
        materialised(nodes, at, slot).len() == nodes.len() + (if nodes[at].data is Some {
            8int
        } else {
            1int
        }),
        materialised(nodes, at, slot)[a].children.len() == 8,
        a >= nodes.len() ==> materialised(nodes, at, slot)[a].children[i] is None,
        a < nodes.len() && a != at ==> materialised(nodes, at, slot)[a] == nodes[a],
        a == at && nodes[at].children[i] is Some ==> materialised(nodes, at, slot)[a].children[i]
            == nodes[at].children[i],
        a == at && nodes[at].children[i] is None && nodes[at].data is Some ==> materialised(
            nodes,
            at,
            slot,
        )[a].children[i] == Some(nodes.len() + i),
        a == at && nodes[at].children[i] is None && nodes[at].data is None ==> materialised(
            nodes,
            at,
            slot,
        )[a].children[i] == (if i == slot {
            Some(nodes.len() as int)
        } else {
            None
        }),
{
    let after = materialised(nodes, at, slot);
    assert(nodes[at].children.len() == 8);
    if a < nodes.len() {
        assert(nodes[a].children.len() == 8);
    }
}

/// Populating a slot keeps the arena a tree.
pub proof fn lemma_opened_is_tree(nodes: Seq<NodeView>, at: int, slot: int)
    requires
        is_tree(nodes),
        0 <= at < nodes.len(),
        0 <= slot < 8,
    ensures
        is_tree(opened(nodes, at, slot)),
        opened(nodes, at, slot).len() >= nodes.len(),
        opened(nodes, at, slot)[at].children[slot] is Some,
{
    if nodes[at].children[slot] is None {
        let after = materialised(nodes, at, slot);
        lemma_materialised_link(nodes, at, slot, at, slot);
        assert forall|a: int| 0 <= a < after.len() implies (#[trigger] after[a]).children.len()
            == 8 by {
            lemma_materialised_link(nodes, at, slot, a, 0);
        }
        assert forall|a: int, i: int| 0 <= a < after.len() && 0 <= i < 8 implies (
        #[trigger] after[a].children[i] matches Some(child) ==> 0 < child < after.len()) by {
            lemma_materialised_link(nodes, at, slot, a, i);
            if a < nodes.len() {
                assert(nodes[a].children[i] matches Some(child) ==> 0 < child < nodes.len());
            }
        }
        assert forall|a: int, i: int, b: int, j: int|
            0 <= a < after.len() && 0 <= i < 8 && 0 <= b < after.len() && 0 <= j < 8
                && #[trigger] after[a].children[i] is Some && after[a].children[i]
                == #[trigger] after[b].children[j] implies a == b && i == j by {
            lemma_materialised_link(nodes, at, slot, a, i);
            lemma_materialised_link(nodes, at, slot, b, j);
            if a < nodes.len() {
                assert(nodes[a].children[i] matches Some(child) ==> 0 < child < nodes.len());
            }
            if b < nodes.len() {
                assert(nodes[b].children[j] matches Some(child) ==> 0 < child < nodes.len());
            }
            if a < nodes.len() && b < nodes.len() && nodes[a].children[i] is Some
                && nodes[b].children[j] is Some {
                assert(nodes[a].children[i] == nodes[b].children[j]);
            }
        }
    }
}

/// Populating a slot keeps every populated slot as it was.
pub proof fn lemma_opened_keeps(nodes: Seq<NodeView>, start: int, slot: int, at: int, i: int)
    requires
        is_tree(nodes),
        0 <= start < nodes.len(),
        0 <= slot < 8,
        0 <= at < nodes.len(),
        0 <= i < 8,
    ensures
        nodes[at].children[i] is Some ==> opened(nodes, start, slot)[at].children[i]
            == nodes[at].children[i],
        at != start ==> opened(nodes, start, slot)[at] == nodes[at],
{
    if nodes[start].children[slot] is None {
        lemma_materialised_link(nodes, start, slot, at, i);
    }
}

/// The traversal keeps the arena a tree and ends at one of its nodes.
pub proof fn lemma_traversed_tree(nodes: Seq<NodeView>, start: int, path: Seq<int>)
    requires
        is_tree(nodes),
        0 <= start < nodes.len(),
        is_path(path),
    ensures
        is_tree(traversed(nodes, start, path).0),
        traversed(nodes, start, path).0.len() >= nodes.len(),
        0 <= traversed(nodes, start, path).1 < traversed(nodes, start, path).0.len(),
    decreases path.len(),
{
    if path.len() > 0 {
        let next = opened(nodes, start, path[0]);
        lemma_opened_is_tree(nodes, start, path[0]);
        let child = next[start].children[path[0]].unwrap();
        assert(next[start].children[path[0]] is Some);
        lemma_traversed_tree(next, child, path.drop_first());
    }
}

/// The traversal keeps every populated slot as it was.
pub proof fn lemma_traversed_keeps(
    nodes: Seq<NodeView>,
    start: int,
    path: Seq<int>,
    at: int,
    slot: int,
)
    requires
        is_tree(nodes),
        0 <= start < nodes.len(),
        is_path(path),
        0 <= at < nodes.len(),
        0 <= slot < 8,
        nodes[at].children[slot] is Some,
    ensures
        traversed(nodes, start, path).0[at].children[slot] == nodes[at].children[slot],
    decreases path.len(),
{
    if path.len() > 0 {
        let next = opened(nodes, start, path[0]);
        lemma_opened_is_tree(nodes, start, path[0]);
        lemma_opened_keeps(nodes, start, path[0], at, slot);
        let child = next[start].children[path[0]].unwrap();
        assert(next[start].children[path[0]] is Some);
        lemma_traversed_keeps(next, child, path.drop_first(), at, slot);
    }
}

/// After the traversal, the walk along the same path ends where the
/// traversal did.
pub proof fn lemma_traversed_reaches(nodes: Seq<NodeView>, start: int, path: Seq<int>)
    requires
        is_tree(nodes),
        0 <= start < nodes.len(),
        is_path(path),
    ensures
        walk(traversed(nodes, start, path).0, start, path) == Some(traversed(nodes, start, path).1),
    decreases path.len(),
{
    if path.len() > 0 {
        let next = opened(nodes, start, path[0]);
        lemma_opened_is_tree(nodes, start, path[0]);
        let child = next[start].children[path[0]].unwrap();
        assert(next[start].children[path[0]] is Some);
        lemma_traversed_reaches(next, child, path.drop_first());
        lemma_traversed_keeps(next, child, path.drop_first(), start, path[0]);
    }
}

/// The traversal changes the payload of no node but those that it passes
/// through before its end.
pub proof fn lemma_traversed_data(nodes: Seq<NodeView>, start: int, path: Seq<int>, at: int)
    requires
        is_tree(nodes),
        0 <= start < nodes.len(),
        is_path(path),
        0 <= at < nodes.len(),
        forall|k: int|
            0 <= k < path.len() ==> walk(
                traversed(nodes, start, path).0,
                start,
                #[trigger] path.take(k),
            ) != Some(at),
    ensures
        traversed(nodes, start, path).0[at].data == nodes[at].data,
    decreases path.len(),
{
    if path.len() > 0 {
        let after = traversed(nodes, start, path).0;
        let next = opened(nodes, start, path[0]);
        let rest = path.drop_first();
        lemma_opened_is_tree(nodes, start, path[0]);
        let child = next[start].children[path[0]].unwrap();
        assert(next[start].children[path[0]] is Some);
        assert(path.take(0).len() == 0);
        assert(walk(after, start, path.take(0)) == Some(start));
        lemma_opened_keeps(nodes, start, path[0], at, 0);
        lemma_traversed_keeps(next, child, rest, start, path[0]);
        assert forall|k: int| 0 <= k < rest.len() implies walk(
            after,
            child,
            #[trigger] rest.take(k),
        ) != Some(at) by {
            let head = path.take(k + 1);
            assert(head[0] == path[0]);
            assert(head.drop_first() =~= rest.take(k));
        }
        lemma_traversed_data(next, child, rest, at);
    }
}

/// Replacing a node by one without children keeps the arena a tree.
pub proof fn lemma_replaced_is_tree(nodes: Seq<NodeView>, at: int, leaf: NodeView)
    requires
        is_tree(nodes),
        0 <= at < nodes.len(),
        leaf.children == Seq::new(8, |slot: int| None::<int>),
    ensures
        is_tree(nodes.update(at, leaf)),
{
    let after = nodes.update(at, leaf);
    assert forall|a: int, i: int| 0 <= a < after.len() && 0 <= i < 8 implies (
    #[trigger] after[a].children[i] matches Some(child) ==> 0 < child < after.len()) by {
        if a != at {
            assert(nodes[a].children[i] matches Some(child) ==> 0 < child < nodes.len());
        }
    }
    assert forall|a: int, i: int, b: int, j: int|
        0 <= a < after.len() && 0 <= i < 8 && 0 <= b < after.len() && 0 <= j < 8
            && #[trigger] after[a].children[i] is Some && after[a].children[i]
            == #[trigger] after[b].children[j] implies a == b && i == j by {
        if a != at && b != at {
            assert(nodes[a].children[i] == nodes[b].children[j]);
        }
    }
}

/// Growth keeps the arena a tree.
pub proof fn lemma_grown_is_tree(nodes: Seq<NodeView>)
    requires
        is_tree(nodes),
    ensures
        is_tree(grown(nodes)),
{
    let after = grown(nodes);
    let count = nodes.len() as int;
    assert(after.len() == count + 8);
    assert forall|at: int| 0 <= at < after.len() implies (#[trigger] after[at]).children.len()
        == 8 by {
        if 0 < at < count {
            assert(after[at] == nodes[at]);
        }
    }
    assert forall|at: int, slot: int| 0 <= at < after.len() && 0 <= slot < 8 implies (
    #[trigger] after[at].children[slot] matches Some(child) ==> 0 < child < after.len()) by {
        if 0 < at < count {
            assert(after[at].children[slot] == nodes[at].children[slot]);
        } else if at >= count {
            assert(after[at] == wrapper(nodes, at - count));
            assert(nodes[0].children[at - count] matches Some(child) ==> 0 < child < count);
        }
    }
    assert forall|a: int, i: int, b: int, j: int|
        0 <= a < after.len() && 0 <= i < 8 && 0 <= b < after.len() && 0 <= j < 8
            && #[trigger] after[a].children[i] is Some && after[a].children[i]
            == #[trigger] after[b].children[j] implies a == b && i == j by {
        lemma_grown_link(nodes, a, i);
        lemma_grown_link(nodes, b, j);
        if 0 < a < count && 0 < b < count {
            assert(nodes[a].children[i] == nodes[b].children[j]);
        } else if 0 < a < count && b >= count {
            assert(nodes[a].children[i] == nodes[0].children[b - count]);
        } else if a >= count && 0 < b < count {
            assert(nodes[b].children[j] == nodes[0].children[a - count]);
        } else if a >= count && b >= count {
            assert(nodes[0].children[a - count] == nodes[0].children[b - count]);
        }
    }
}

/// Where the links of the grown arena come from.
proof fn lemma_grown_link(nodes: Seq<NodeView>, at: int, slot: int)
    requires
        is_tree(nodes),
        0 <= at < nodes.len() + 8,
        0 <= slot < 8,
    ensures
        at == 0 ==> grown(nodes)[at].children[slot] == Some(nodes.len() + slot),
        0 < at < nodes.len() ==> grown(nodes)[at].children[slot] == nodes[at].children[slot],
        at >= nodes.len() ==> grown(nodes)[at].children[slot] == (if slot == 7 - (at
            - nodes.len()) {
            nodes[0].children[at - nodes.len()]
        } else {
            None
        }),
        grown(nodes)[at].children[slot] matches Some(child) ==> 0 < child < nodes.len() + 8,
        at > 0 ==> (grown(nodes)[at].children[slot] matches Some(child) ==> child < nodes.len()),
{
    let count = nodes.len() as int;
    if 0 < at < count {
        assert(grown(nodes)[at] == nodes[at]);
        assert(nodes[at].children[slot] matches Some(child) ==> 0 < child < count);
    } else if at >= count {
        assert(grown(nodes)[at] == wrapper(nodes, at - count));
        assert(nodes[0].children[at - count] matches Some(child) ==> 0 < child < count);
    }
}

} // verus!
