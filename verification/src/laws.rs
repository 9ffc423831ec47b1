use vstd::prelude::*;
use crate::arena::{
    grown, is_path, is_tree, lemma_grown_is_tree, lemma_replaced_is_tree, lemma_traversed_data,
    lemma_traversed_keeps, lemma_traversed_reaches, lemma_traversed_tree, lemma_walk_below_root,
    lemma_walk_in_range, lemma_walk_kept, lemma_walk_past, lemma_walk_unique,
    traversed, walk, wrapper,
};
use crate::indexing::{
    in_bounds, lemma_path_after_growth, lemma_path_injective, lemma_selector_range, path_of,
    MAX_DEPTH,
};
use crate::node::{NodeView, NO_PAYLOAD};
use crate::octree::{depth_for, lemma_depth_for, OctreeView};
use crate::serialise::{
    child_of_field, flat_form, is_position, lemma_packed_record_fields,
    lemma_position_unique, node_form, packed_record, position, unpacked_record, word_child,
};
use crate::discovery::{
    closed_order, discovered, discovery_order, fresh, left, lemma_discovered, lemma_discovery_order,
    lemma_first_step, lemma_step_settled, lemma_taken_and_left, settled, stepped, taken,
};
use crate::traversal::{decoded, table_of};
use crate::voxel::{lemma_unpack_packed, packed, NodeDataType};

verus! {

/// The path of a position is a path: each entry is a child slot.
pub proof fn lemma_path_of_is_path(position: (i32, i32, i32), depth: nat)
    ensures
        is_path(path_of(position, depth)),
        path_of(position, depth).len() == depth + 1,
{
    let path = path_of(position, depth);
    assert forall|k: int| 0 <= k < path.len() implies 0 <= #[trigger] path[k] < 8 by {
        lemma_selector_range(position, depth, (depth - k) as nat);
    }
}

/// Growth preserves content: a tree that has grown by one level holds, at
/// every position that was in bounds before, what it held there before.
pub proof fn lemma_growth_preserves_content(tree: OctreeView, position: (i32, i32, i32))
    requires
        tree.wf(),
        tree.depth < MAX_DEPTH,
        in_bounds(position, tree.depth),
    ensures
        tree.grown().wf(),
        in_bounds(position, tree.grown().depth),
        tree.grown().get(position) == tree.get(position),
{
    let nodes = tree.nodes;
    let after = grown(nodes);
    let count = nodes.len() as int;
    lemma_grown_is_tree(nodes);
    lemma_path_after_growth(position, tree.depth);
    let path = path_of(position, tree.depth);
    let slot = path[0];
    let rest = path.drop_first();
    let longer = path_of(position, tree.depth + 1);
    let below = longer.drop_first();
    assert(longer[0] == slot);
    assert(below[0] == 7 - slot);
    assert(below.drop_first() =~= rest);
    assert(after[0].children[slot] == Some(count + slot));
    assert(after[count + slot] == wrapper(nodes, slot));
    match nodes[0].children[slot] {
        Some(child) => {
            assert(wrapper(nodes, slot).children[7 - slot] == Some(child));
            assert(walk(after, 0, longer) == walk(after, child, rest));
            assert(walk(nodes, 0, path) == walk(nodes, child, rest));
            lemma_walk_below_root(nodes, after, child, rest);
            lemma_walk_in_range(nodes, child, rest);
            match walk(nodes, child, rest) {
                Some(end) => {
                    if rest.len() == 0 {
                        assert(end == child);
                    }
                    assert(after[end] == nodes[end]);
                },
                None => {},
            }
        },
        None => {
            assert(wrapper(nodes, slot).children[7 - slot] is None);
            assert(walk(after, count + slot, below) is None);
            assert(walk(after, 0, longer) is None);
            assert(walk(nodes, 0, path) is None);
        },
    }
}

/// A tree that has grown to a depth holds, at every position that was in
/// bounds before, what it held there before.
pub proof fn lemma_grown_to_preserves_content(
    tree: OctreeView,
    depth: nat,
    position: (i32, i32, i32),
)
    requires
        tree.wf(),
        depth <= MAX_DEPTH,
        in_bounds(position, tree.depth),
    ensures
        tree.grown_to(depth).wf(),
        tree.grown_to(depth).depth == if tree.depth >= depth {
            tree.depth
        } else {
            depth
        },
        in_bounds(position, tree.grown_to(depth).depth),
        tree.grown_to(depth).get(position) == tree.get(position),
    decreases depth - tree.depth,
{
    if tree.depth < depth {
        lemma_growth_preserves_content(tree, position);
        lemma_grown_to_preserves_content(tree.grown(), depth, position);
    }
}

/// Growing to a depth keeps the tree well formed.
pub proof fn lemma_grown_to_wf(tree: OctreeView, depth: nat)
    requires
        tree.wf(),
        depth <= MAX_DEPTH,
    ensures
        tree.grown_to(depth).wf(),
        tree.grown_to(depth).depth == if tree.depth >= depth {
            tree.depth
        } else {
            depth
        },
    decreases depth - tree.depth,
{
    if tree.depth < depth {
        lemma_grown_is_tree(tree.nodes);
        lemma_grown_to_wf(tree.grown(), depth);
    }
}

/// What a tree that holds `position` in bounds is after `data` was stored
/// there without growth: the position holds `data`, and every other
/// position that held a payload holds it still.
proof fn lemma_stored(
    tree: OctreeView,
    position: (i32, i32, i32),
    data: NodeDataType,
    other: (i32, i32, i32),
)
    requires
        tree.wf(),
        in_bounds(position, tree.depth),
    ensures
        ({
            let reached = traversed(tree.nodes, 0, path_of(position, tree.depth));
            let after = OctreeView {
                nodes: reached.0.update(reached.1, NodeView::leaf(data)),
                depth: tree.depth,
            };
            &&& after.wf()
            &&& after.get(position) == Some(data)
            &&& other != position && tree.get(other) is Some ==> after.get(other) == tree.get(
                other,
            )
        }),
{
    let path = path_of(position, tree.depth);
    lemma_path_of_is_path(position, tree.depth);
    let reached = traversed(tree.nodes, 0, path);
    let nodes = reached.0;
    let end = reached.1;
    let leaf = NodeView::leaf(data);
    let stored = nodes.update(end, leaf);
    lemma_traversed_tree(tree.nodes, 0, path);
    lemma_traversed_reaches(tree.nodes, 0, path);
    lemma_replaced_is_tree(nodes, end, leaf);
    assert forall|k: int| 0 <= k < path.len() implies walk(nodes, 0, #[trigger] path.take(k))
        != Some(end) by {
        if walk(nodes, 0, path.take(k)) == Some(end) {
            lemma_walk_unique(nodes, path.take(k), path);
        }
    }
    lemma_walk_past(nodes, end, leaf, 0, path);
    if other != position && tree.get(other) is Some {
        let side = path_of(other, tree.depth);
        lemma_path_of_is_path(other, tree.depth);
        if side == path {
            lemma_path_injective(position, other, tree.depth);
        }
        let found = walk(tree.nodes, 0, side).unwrap();
        lemma_walk_in_range(tree.nodes, 0, side);
        assert forall|at: int, slot: int|
            0 <= at < tree.nodes.len() && 0 <= slot < 8
                && #[trigger] tree.nodes[at].children[slot] is Some implies nodes[at].children[slot]
            == tree.nodes[at].children[slot] by {
            lemma_traversed_keeps(tree.nodes, 0, path, at, slot);
        }
        lemma_walk_kept(tree.nodes, nodes, 0, side);
        assert(walk(nodes, 0, side) == Some(found));
        assert forall|k: int| 0 <= k < path.len() implies walk(nodes, 0, #[trigger] path.take(k))
            != Some(found) by {
            if walk(nodes, 0, path.take(k)) == Some(found) {
                lemma_walk_unique(nodes, path.take(k), side);
            }
        }
        lemma_traversed_data(tree.nodes, 0, path, found);
        assert forall|k: int| 0 <= k < side.len() implies walk(nodes, 0, #[trigger] side.take(k))
            != Some(end) by {
            if walk(nodes, 0, side.take(k)) == Some(end) {
                lemma_walk_unique(nodes, side.take(k), path);
            }
        }
        lemma_walk_past(nodes, end, leaf, 0, side);
        if found == end {
            lemma_walk_unique(nodes, side, path);
        }
    }
}

/// After `data` was stored at a position, the tree holds `data` there.
pub proof fn lemma_insert_then_get(tree: OctreeView, position: (i32, i32, i32), data: NodeDataType)
    requires
        tree.wf(),
        in_bounds(position, MAX_DEPTH as nat),
    ensures
        tree.inserted(position, data).wf(),
        tree.inserted(position, data).depth == depth_for(position, tree.depth),
        tree.inserted(position, data).get(position) == Some(data),
{
    lemma_depth_for(position, tree.depth);
    let target = depth_for(position, tree.depth);
    lemma_grown_to_wf(tree, target);
    lemma_stored(tree.grown_to(target), position, data, position);
}

/// Storing a payload at one position changes the payload of no other: a
/// position that held a payload before holds the same one after.
pub proof fn lemma_insert_keeps_others(
    tree: OctreeView,
    position: (i32, i32, i32),
    data: NodeDataType,
    other: (i32, i32, i32),
)
    requires
        tree.wf(),
        in_bounds(position, MAX_DEPTH as nat),
        other != position,
        tree.get(other) is Some,
    ensures
        tree.inserted(position, data).get(other) == tree.get(other),
{
    lemma_depth_for(position, tree.depth);
    let target = depth_for(position, tree.depth);
    lemma_grown_to_preserves_content(tree, target, other);
    lemma_stored(tree.grown_to(target), position, data, other);
}

/// The record of the word for "no payload" and eight empty child values.
proof fn lemma_empty_record()
    by (bit_vector)
    ensures
        crate::serialise::record(
            0xFF00_0000,
            0xFFFF_FFFF,
            0xFFFF_FFFF,
            0xFFFF_FFFF,
            0xFFFF_FFFF,
            0xFFFF_FFFF,
            0xFFFF_FFFF,
            0xFFFF_FFFF,
            0xFFFF_FFFF,
        ) == 0xFF00_0000_FFFF_FFFF_FFFF_FFFF_FFFF_FFFFu128,
{
}

/// The record of a node without payload and without children holds the
/// word for "no payload" in its payload field and the word for "no child"
/// in each child field, whatever the table; and it decodes to a node
/// without payload and without children.
pub proof fn lemma_empty_branch_record(order: Seq<int>)
    ensures
        packed_record(flat_form(NodeView::empty(), order))
            == 0xFF00_0000_FFFF_FFFF_FFFF_FFFF_FFFF_FFFFu128,
        crate::serialise::word_payload(0xFF00_0000_FFFF_FFFF_FFFF_FFFF_FFFF_FFFFu128)
            == NO_PAYLOAD,
        forall|slot: int|
            0 <= slot < 8 ==> #[trigger] word_child(
                0xFF00_0000_FFFF_FFFF_FFFF_FFFF_FFFF_FFFFu128,
                slot,
            ) == crate::serialise::NO_CHILD,
        node_form(unpacked_record(0xFF00_0000_FFFF_FFFF_FFFF_FFFF_FFFF_FFFFu128))
            == NodeView::empty(),
{
    let flat = flat_form(NodeView::empty(), order);
    let word = packed_record(flat);
    lemma_empty_record();
    lemma_packed_record_fields(flat);
    assert(0xFFFF_FFFFu32 & 0xFFF == 0xFFF) by (bit_vector);
    lemma_empty_field();
    assert(node_form(unpacked_record(word)).children =~= NodeView::empty().children);
}

/// A table can hold the nodes of `order`: there are at most 4095 of them,
/// so that each position fits a child field and none is taken for "no
/// child", and none carries the one payload whose packed form is the word
/// for "no payload".
pub open spec fn storable(nodes: Seq<NodeView>, order: Seq<int>) -> bool {
    &&& order.len() <= 0xFFF
    &&& forall|k: int|
        0 <= k < order.len() ==> ((#[trigger] nodes[order[k]]).data matches Some(data) ==> packed(
            data,
        ) != NO_PAYLOAD)
}

/// A position below 4095 is its own child field, and is not the word for
/// "no child".
proof fn lemma_small_field(value: u32)
    by (bit_vector)
    requires
        value < 0xFFF,
    ensures
        (value & 0xFFF) & 0xFFF == value,
        (value & 0xFFF) & 0xFFF != 0xFFF,
{
}

/// The child value of an empty slot reads as "no child".
proof fn lemma_empty_field()
    ensures
        child_of_field(0xFFFF_FFFFu32 & 0xFFF) is None,
{
    assert((0xFFFF_FFFFu32 & 0xFFF) & 0xFFF == 0xFFF) by (bit_vector);
}

/// In a list without repetition, each entry is at its first position.
proof fn lemma_position_of_entry(order: Seq<int>, k: int)
    requires
        order.no_duplicates(),
        0 <= k < order.len(),
    ensures
        position(order, order[k]) == k,
        is_position(order, order[k], k),
{
    assert(is_position(order, order[k], k));
    lemma_position_unique(order, order[k], k);
}

/// In a list without repetition, an entry has a position.
proof fn lemma_position_of_member(order: Seq<int>, id: int)
    requires
        order.no_duplicates(),
        order.contains(id),
    ensures
        0 <= position(order, id) < order.len(),
        order[position(order, id)] == id,
{
    let k = choose|k: int| 0 <= k < order.len() && order[k] == id;
    lemma_position_of_entry(order, k);
}

/// What row `k` of the table decodes to: the node `order[k]`, with each
/// child replaced by its position in `order`.
proof fn lemma_decoded_row(nodes: Seq<NodeView>, order: Seq<int>, k: int, slot: int)
    requires
        is_tree(nodes),
        closed_order(nodes, order),
        storable(nodes, order),
        0 <= k < order.len(),
        0 <= slot < 8,
    ensures
        decoded(table_of(nodes, order)).len() == order.len(),
        decoded(table_of(nodes, order))[k].children.len() == 8,
        decoded(table_of(nodes, order))[k].data == nodes[order[k]].data,
        decoded(table_of(nodes, order))[k].children[slot] == (match nodes[order[k]].children[slot] {
            Some(child) => Some(position(order, child)),
            None => None,
        }),
{
    let node = nodes[order[k]];
    let flat = flat_form(node, order);
    let word = packed_record(flat);
    assert(table_of(nodes, order)[k] == word);
    assert(decoded(table_of(nodes, order))[k] == node_form(unpacked_record(word)));
    lemma_packed_record_fields(flat);
    assert(word_child(word, slot) == flat.children[slot] & 0xFFF);
    match node.children[slot] {
        Some(child) => {
            assert(order.contains(child));
            lemma_position_of_member(order, child);
            let place = position(order, child);
            assert(flat.children[slot] == place as u32);
            lemma_small_field(place as u32);
        },
        None => {
            lemma_empty_field();
        },
    }
    match node.data {
        Some(data) => {
            lemma_unpack_packed(data);
        },
        None => {},
    }
}

/// A walk in the decoded table goes as the walk in the tree goes: where
/// the one is at row `k`, the other is at node `order[k]`.
proof fn lemma_decoded_walk(nodes: Seq<NodeView>, order: Seq<int>, k: int, path: Seq<int>)
    requires
        is_tree(nodes),
        closed_order(nodes, order),
        storable(nodes, order),
        0 <= k < order.len(),
    ensures
        walk(decoded(table_of(nodes, order)), k, path) == (match walk(nodes, order[k], path) {
            Some(end) => Some(position(order, end)),
            None => None,
        }),
        walk(nodes, order[k], path) matches Some(end) ==> order.contains(end),
    decreases path.len(),
{
    if path.len() == 0 {
        lemma_position_of_entry(order, k);
    } else if 0 <= path[0] < 8 {
        lemma_decoded_row(nodes, order, k, path[0]);
        match nodes[order[k]].children[path[0]] {
            Some(child) => {
                assert(order.contains(child));
                lemma_position_of_member(order, child);
                lemma_decoded_walk(nodes, order, position(order, child), path.drop_first());
            },
            None => {},
        }
    }
}

/// The decoded table of a tree is a tree.
proof fn lemma_decoded_is_tree(nodes: Seq<NodeView>, order: Seq<int>)
    requires
        is_tree(nodes),
        closed_order(nodes, order),
        storable(nodes, order),
        order.len() > 0,
        order[0] == 0,
    ensures
        is_tree(decoded(table_of(nodes, order))),
{
    let rows = decoded(table_of(nodes, order));
    lemma_decoded_row(nodes, order, 0, 0);
    assert forall|at: int| 0 <= at < rows.len() implies (#[trigger] rows[at]).children.len()
        == 8 by {
        lemma_decoded_row(nodes, order, at, 0);
    }
    assert forall|at: int, slot: int| 0 <= at < rows.len() && 0 <= slot < 8 implies (
    #[trigger] rows[at].children[slot] matches Some(child) ==> 0 < child < rows.len()) by {
        lemma_decoded_row(nodes, order, at, slot);
        match nodes[order[at]].children[slot] {
            Some(child) => {
                assert(order.contains(child));
                lemma_position_of_member(order, child);
            },
            None => {},
        }
    }
    assert forall|a: int, i: int, b: int, j: int|
        0 <= a < rows.len() && 0 <= i < 8 && 0 <= b < rows.len() && 0 <= j < 8
            && #[trigger] rows[a].children[i] is Some && rows[a].children[i]
            == #[trigger] rows[b].children[j] implies a == b && i == j by {
        lemma_decoded_row(nodes, order, a, i);
        lemma_decoded_row(nodes, order, b, j);
        let first = nodes[order[a]].children[i].unwrap();
        let second = nodes[order[b]].children[j].unwrap();
        assert(order.contains(first));
        assert(order.contains(second));
        lemma_position_of_member(order, first);
        lemma_position_of_member(order, second);
        assert(first == second);
        assert(nodes[order[a]].children[i] == nodes[order[b]].children[j]);
        assert(order[a] == order[b]);
    }
}

/// Round trip: the table of records of a tree decodes to a tree that
/// holds, at the end of every path from the root, the payload that the
/// first tree holds there.  So every voxel of the tree is found again
/// along the path of its position, with its payload.  This holds of every
/// tree that a table can hold: one of at most 4095 reachable nodes, none
/// of which carries the payload whose packed form is the word for "no
/// payload".
pub proof fn lemma_round_trip(tree: OctreeView, breadth_first: bool, path: Seq<int>)
    requires
        tree.wf(),
        storable(tree.nodes, discovery_order(tree.nodes, breadth_first)),
    ensures
        is_tree(decoded(tree.serialised(breadth_first))),
        (OctreeView { nodes: decoded(tree.serialised(breadth_first)), depth: tree.depth }).payload_at(
            path,
        ) == tree.payload_at(path),
{
    let nodes = tree.nodes;
    let order = discovery_order(nodes, breadth_first);
    lemma_discovery_order(nodes, breadth_first);
    lemma_decoded_is_tree(nodes, order);
    lemma_decoded_walk(nodes, order, 0, path);
    match walk(nodes, 0, path) {
        Some(end) => {
            lemma_position_of_member(order, end);
            lemma_decoded_row(nodes, order, position(order, end), 0);
        },
        None => {},
    }
}

/// Round trip, by position: the decoded table, read at the depth of the
/// tree, holds at every position the payload that the tree holds there.
pub proof fn lemma_round_trip_at(tree: OctreeView, breadth_first: bool, position: (i32, i32, i32))
    requires
        tree.wf(),
        storable(tree.nodes, discovery_order(tree.nodes, breadth_first)),
    ensures
        (OctreeView { nodes: decoded(tree.serialised(breadth_first)), depth: tree.depth }).wf(),
        (OctreeView { nodes: decoded(tree.serialised(breadth_first)), depth: tree.depth }).get(
            position,
        ) == tree.get(position),
{
    lemma_round_trip(tree, breadth_first, path_of(position, tree.depth));
}

/// A work list with each node replaced by its position in `order`.
pub open spec fn rows_of(order: Seq<int>, pending: Seq<Option<int>>) -> Seq<Option<int>> {
    Seq::new(
        pending.len(),
        |j: int|
            match pending[j] {
                Some(child) => Some(position(order, child)),
                None => None,
            },
    )
}

/// The first `count` rows of a table, in their order.
pub open spec fn first_rows(count: nat) -> Seq<int> {
    Seq::new(count, |k: int| k)
}

/// The walk over the decoded table goes as the walk over the tree goes:
/// where the one has placed the first nodes of `order`, the other has
/// placed as many rows, and it ends with all rows in their order.
proof fn lemma_decoded_discovery(
    nodes: Seq<NodeView>,
    order: Seq<int>,
    pending: Seq<Option<int>>,
    seen: Seq<int>,
    breadth_first: bool,
)
    requires
        is_tree(nodes),
        storable(nodes, order),
        settled(nodes, pending, seen),
        discovered(nodes, pending, seen, breadth_first) == order,
    ensures
        discovered(
            decoded(table_of(nodes, order)),
            rows_of(order, pending),
            first_rows(seen.len()),
            breadth_first,
        ) == first_rows(order.len()),
    decreases nodes.len() - seen.len(), pending.len(),
{
    let rows = decoded(table_of(nodes, order));
    let work = rows_of(order, pending);
    let done = first_rows(seen.len());
    lemma_discovered(nodes, pending, seen, breadth_first);
    assert(rows.len() == order.len());
    if pending.len() == 0 || seen.len() >= nodes.len() {
        assert(seen == order);
    } else if seen.len() >= order.len() {
    } else {
        let next = taken(pending, breadth_first);
        let rest = left(pending, breadth_first);
        let more = stepped(nodes, pending, seen, breadth_first).0;
        let placed = stepped(nodes, pending, seen, breadth_first).1;
        lemma_taken_and_left(pending, breadth_first);
        lemma_step_settled(nodes, pending, seen, breadth_first);
        assert(discovered(nodes, more, placed, breadth_first) == order);
        lemma_discovered(nodes, more, placed, breadth_first);
        assert(left(work, breadth_first) =~= rows_of(order, rest));
        assert(taken(work, breadth_first) == (match next {
            Some(child) => Some(position(order, child)),
            None => None,
        }));
        match next {
            Some(at) => {
                let j0 = choose|j: int| 0 <= j < pending.len() && pending[j] == next;
                assert(pending[j0] matches Some(child) ==> order.contains(child));
                lemma_position_of_member(order, at);
                let place = position(order, at);
                if seen.contains(at) {
                    let i = choose|i: int| 0 <= i < seen.len() && seen[i] == at;
                    assert(order[i] == seen[i]);
                    lemma_position_of_entry(order, i);
                    assert(done[place] == place);
                    assert(done.contains(place));
                } else {
                    if done.contains(place) {
                        let i = choose|i: int| 0 <= i < done.len() && done[i] == place;
                        assert(order[place] == seen[place]);
                        assert(seen.contains(at));
                    }
                    assert(placed[seen.len() as int] == at);
                    assert(order[seen.len() as int] == placed[seen.len() as int]);
                    lemma_position_of_entry(order, seen.len() as int);
                    assert(place == seen.len());
                    lemma_decoded_row(nodes, order, place, 0);
                    let after = rows_of(order, more);
                    let other = left(work, breadth_first) + rows[place].children;
                    assert(after.len() == other.len());
                    assert forall|j: int| 0 <= j < after.len() implies after[j] == other[j] by {
                        if j >= rest.len() {
                            let slot = j - rest.len();
                            lemma_decoded_row(nodes, order, place, slot);
                            assert(more[j] == nodes[at].children[slot]);
                        } else {
                            assert(more[j] == rest[j]);
                        }
                    }
                    assert(after =~= other);
                    assert(done.push(place) =~= first_rows(placed.len()));
                }
            },
            None => {},
        }
        assert(fresh(work, done, breadth_first) == fresh(pending, seen, breadth_first));
        lemma_decoded_discovery(nodes, order, more, placed, breadth_first);
    }
}

/// A table of records that came from a tree is the table of the tree that
/// it decodes to: encoding the decoded tree gives the same records in the
/// same order.
pub proof fn lemma_table_is_canonical(tree: OctreeView, breadth_first: bool)
    requires
        tree.wf(),
        storable(tree.nodes, discovery_order(tree.nodes, breadth_first)),
    ensures
        is_tree(decoded(tree.serialised(breadth_first))),
        (OctreeView { nodes: decoded(tree.serialised(breadth_first)), depth: 0 }).serialised(
            breadth_first,
        ) == tree.serialised(breadth_first),
{
    let nodes = tree.nodes;
    let order = discovery_order(nodes, breadth_first);
    let rows = decoded(table_of(nodes, order));
    let all = first_rows(order.len());
    lemma_discovery_order(nodes, breadth_first);
    lemma_decoded_is_tree(nodes, order);
    lemma_first_step(nodes, breadth_first);
    lemma_decoded_discovery(nodes, order, seq![Some(0int)], Seq::empty(), breadth_first);
    lemma_position_of_entry(order, 0);
    assert(rows_of(order, seq![Some(0int)]) =~= seq![Some(0int)]);
    assert(first_rows(0) =~= Seq::<int>::empty());
    assert(discovery_order(rows, breadth_first) == all);
    let first = table_of(nodes, order);
    let second = table_of(rows, all);
    assert(first.len() == second.len());
    assert forall|k: int| 0 <= k < first.len() implies first[k] == second[k] by {
        let here = flat_form(nodes[order[k]], order);
        let there = flat_form(rows[all[k]], all);
        lemma_decoded_row(nodes, order, k, 0);
        assert forall|slot: int| 0 <= slot < 8 implies here.children[slot]
            == there.children[slot] by {
            lemma_decoded_row(nodes, order, k, slot);
            match nodes[order[k]].children[slot] {
                Some(child) => {
                    assert(order.contains(child));
                    lemma_position_of_member(order, child);
                    lemma_position_of_entry(all, position(order, child));
                },
                None => {},
            }
        }
        assert(here.children =~= there.children);
        assert(here == there);
    }
    assert(first =~= second);
}

} // verus!
