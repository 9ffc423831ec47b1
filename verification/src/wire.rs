use vstd::prelude::*;
use crate::arena::{is_tree, shaped};
use crate::node::{slot_view, Node, NodeView, MAX_CHILDREN};
use crate::indexing::MAX_DEPTH;
use crate::octree::Octree;
use crate::serialise::SerialNode;
use crate::traversal::decoded;

verus! {

/// Why a list of nodes, or a table of records, is not a tree.
#[derive(Debug, Copy, Clone, PartialEq, Eq, Structural)]
pub enum DecodeError {
    /// There is no row, and so no root.
    EmptyTable,
    /// A child field names a row that the table does not have.
    ChildOutOfRange,
    /// A row is named by two child fields, or row 0, the root, is named by
    /// one.
    SharedChild,
}

/// The nodes of a list in their mathematical form.
pub open spec fn views(list: Seq<Node>) -> Seq<NodeView> {
    Seq::new(list.len(), |at: int| list[at]@)
}

/// Every populated slot holds the index of a node of the arena.
pub open spec fn in_range(nodes: Seq<NodeView>) -> bool {
    forall|at: int, slot: int|
        0 <= at < nodes.len() && 0 <= slot < 8 ==> (#[trigger] nodes[at].children[slot] matches Some(
            child,
        ) ==> 0 <= child < nodes.len())
}

/// What is wrong with an arena: nothing for a tree, and for
/// anything else the first of the three faults that it has.
pub open spec fn fault(nodes: Seq<NodeView>) -> Option<DecodeError> {
    if nodes.len() == 0 {
        Some(DecodeError::EmptyTable)
    } else if !in_range(nodes) {
        Some(DecodeError::ChildOutOfRange)
    } else if !is_tree(nodes) {
        Some(DecodeError::SharedChild)
    } else {
        None
    }
}

/// The link `(at, slot)` comes before `(row, col)` in reading order.
pub open spec fn earlier(at: int, slot: int, row: int, col: int) -> bool {
    at < row || (at == row && slot < col)
}

/// The links read before `(row, col)` name each node at most once, and
/// never the root; `claimed` marks the root and the nodes that they name.
spec fn claims(nodes: Seq<NodeView>, claimed: Seq<bool>, row: int, col: int) -> bool {
    &&& claimed.len() == nodes.len()
    &&& forall|a: int, i: int, b: int, j: int|
        0 <= a < nodes.len() && 0 <= i < 8 && 0 <= b < nodes.len() && 0 <= j < 8 && earlier(
            a,
            i,
            row,
            col,
        ) && earlier(b, j, row, col) && #[trigger] nodes[a].children[i] is Some
            && nodes[a].children[i] == #[trigger] nodes[b].children[j] ==> a == b && i == j
    &&& forall|a: int, i: int|
        0 <= a < nodes.len() && 0 <= i < 8 && earlier(a, i, row, col) ==> (
        #[trigger] nodes[a].children[i] matches Some(child) ==> child != 0 && claimed[child])
    &&& forall|at: int|
        0 < at < nodes.len() && #[trigger] claimed[at] ==> exists|a: int, i: int|
            0 <= a < nodes.len() && 0 <= i < 8 && earlier(a, i, row, col)
                && #[trigger] nodes[a].children[i] == Some(at)
    &&& claimed[0]
}

impl Octree {
    /// Tells whether the nodes of `nodes`, with node 0 as the root, are a
    /// tree, and if not, why.
    pub fn validate(nodes: &Vec<Node>) -> (outcome: Result<(), DecodeError>)
        ensures
            outcome == (match fault(views(nodes@)) {
                Some(error) => Err::<(), DecodeError>(error),
                None => Ok(()),
            }),
    {
        let ghost arena = views(nodes@);
        let count: usize = nodes.len();
        if count == 0 {
            return Err(DecodeError::EmptyTable);
        }
        let mut row: usize = 0;
        while row < count
            invariant
                row <= count,
                count == nodes@.len(),
                arena == views(nodes@),
                forall|at: int, slot: int|
                    0 <= at < row && 0 <= slot < 8 ==> (
                    #[trigger] arena[at].children[slot] matches Some(child) ==> 0 <= child
                        < count),
            decreases count - row,
        {
            let node: Node = nodes[row];
            let mut col: usize = 0;
            while col < MAX_CHILDREN
                invariant
                    col <= 8,
                    row < count,
                    count == nodes@.len(),
                    arena == views(nodes@),
                    node == nodes@[row as int],
                    forall|slot: int|
                        0 <= slot < col ==> (#[trigger] arena[row as int].children[slot] matches Some(
                            child,
                        ) ==> 0 <= child < count),
                decreases 8 - col,
            {
                assert(arena[row as int].children[col as int] == slot_view(
                    node.children@[col as int],
                ));
                match node.children[col] {
                    Some(child) => {
                        if child >= count {
                            assert(!in_range(arena));
                            return Err(DecodeError::ChildOutOfRange);
                        }
                    },
                    None => {},
                }
                col = col + 1;
            }
            row = row + 1;
        }
        assert(in_range(arena));
        let mut claimed: Vec<bool> = Vec::new();
        let mut filled: usize = 0;
        while filled < count
            invariant
                filled <= count,
                claimed@.len() == filled,
                forall|at: int| 0 <= at < filled ==> (#[trigger] claimed@[at] <==> at == 0),
            decreases count - filled,
        {
            claimed.push(filled == 0);
            filled = filled + 1;
        }
        assert(claims(arena, claimed@, 0, 0));
        let mut row: usize = 0;
        while row < count
            invariant
                row <= count,
                count == nodes@.len(),
                count > 0,
                arena == views(nodes@),
                in_range(arena),
                claims(arena, claimed@, row as int, 0),
            decreases count - row,
        {
            let node: Node = nodes[row];
            let mut col: usize = 0;
            while col < MAX_CHILDREN
                invariant
                    col <= 8,
                    row < count,
                    count == nodes@.len(),
                    count > 0,
                    arena == views(nodes@),
                    in_range(arena),
                    node == nodes@[row as int],
                    claims(arena, claimed@, row as int, col as int),
                decreases 8 - col,
            {
                assert(arena[row as int].children[col as int] == slot_view(
                    node.children@[col as int],
                ));
                match node.children[col] {
                    Some(child) => {
                        assert(arena[row as int].children[col as int] == Some(child as int));
                        assert(child < count);
                        if claimed[child] {
                            proof {
                                lemma_claimed_twice(arena, claimed@, row as int, col as int);
                            }
                            return Err(DecodeError::SharedChild);
                        }
                        let ghost before = claimed@;
                        claimed[child] = true;
                        proof {
                            lemma_claim(arena, before, claimed@, row as int, col as int);
                        }
                    },
                    None => {
                        proof {
                            lemma_no_claim(arena, claimed@, row as int, col as int);
                        }
                    },
                }
                col = col + 1;
            }
            proof {
                lemma_next_row(arena, claimed@, row as int);
            }
            row = row + 1;
        }
        proof {
            assert(shaped(arena));
            lemma_all_claims(arena, claimed@);
        }
        Ok(())
    }

    /// The tree of depth 0 whose arena is `nodes`, with node 0 as the root.
    pub fn with_root(nodes: Vec<Node>) -> (tree: Self)
        requires
            is_tree(views(nodes@)),
        ensures
            tree@.wf(),
            tree@.nodes == views(nodes@),
            tree@.depth == 0,
    {
        Self { nodes, dim: 0 }
    }

    /// The same tree read at another depth.  A table of records does not
    /// hold the depth: this gives it back to a tree that was rebuilt from
    /// one.
    pub fn with_depth(self, depth: usize) -> (tree: Self)
        requires
            self@.wf(),
            depth <= MAX_DEPTH,
        ensures
            tree@.wf(),
            tree@.nodes == self@.nodes,
            tree@.depth == depth,
    {
        Self { nodes: self.nodes, dim: depth }
    }

    /// A copy of the root.
    pub fn get_root(&self) -> (root: Node)
        requires
            self@.wf(),
        ensures
            root@ == self@.nodes[0],
    {
        self.nodes[0]
    }

    /// A copy of the node behind `handle`, if the arena has such a node.
    pub fn get_node(&self, handle: usize) -> (node: Option<Node>)
        ensures
            handle < self@.nodes.len() ==> (node matches Some(found) && found@
                == self@.nodes[handle as int]),
            handle >= self@.nodes.len() ==> node is None,
    {
        if handle < self.nodes.len() {
            Some(self.nodes[handle])
        } else {
            None
        }
    }

    /// The nodes that a table of records holds, row by row.
    pub fn decode(serial: &Vec<u128>) -> (nodes: Vec<Node>)
        ensures
            views(nodes@) == decoded(serial@),
    {
        let mut nodes: Vec<Node> = Vec::new();
        let mut row: usize = 0;
        while row < serial.len()
            invariant
                row <= serial.len(),
                views(nodes@) == decoded(serial@.take(row as int)),
            decreases serial.len() - row,
        {
            let ghost before = nodes@;
            let node: Node = SerialNode::deserialise(serial[row]).to_node();
            nodes.push(node);
            proof {
                assert(views(nodes@) =~= views(before).push(node@));
                assert(serial@.take(row as int + 1) =~= serial@.take(row as int).push(
                    serial@[row as int],
                ));
                assert(views(nodes@) =~= decoded(serial@.take(row as int + 1)));
            }
            row = row + 1;
        }
        proof {
            assert(serial@.take(serial.len() as int) =~= serial@);
        }
        nodes
    }

    /// Rebuilds a tree from its table of records.  Row 0 is the root.  The
    /// depth is not part of the table: the tree that comes back has depth 0.
    pub fn deserialise(serial: Vec<u128>) -> (tree: Self)
        requires
            is_tree(decoded(serial@)),
        ensures
            tree@.wf(),
            tree@.nodes == decoded(serial@),
            tree@.depth == 0,
    {
        Self::with_root(Self::decode(&serial))
    }

    /// Rebuilds a tree from a table of records, or says why the table is
    /// not one of a tree.
    pub fn try_deserialise(serial: Vec<u128>) -> (outcome: Result<Self, DecodeError>)
        ensures
            match outcome {
                Ok(tree) => fault(decoded(serial@)) is None && tree@.wf() && tree@.nodes == decoded(
                    serial@,
                ) && tree@.depth == 0,
                Err(error) => fault(decoded(serial@)) == Some(error),
            },
    {
        let nodes: Vec<Node> = Self::decode(&serial);
        match Self::validate(&nodes) {
            Ok(()) => Ok(Self::with_root(nodes)),
            Err(error) => Err(error),
        }
    }
}

/// A link to a node that is claimed already shows that the arena is no
/// tree.
proof fn lemma_claimed_twice(nodes: Seq<NodeView>, claimed: Seq<bool>, row: int, col: int)
    requires
        nodes.len() > 0,
        0 <= row < nodes.len(),
        0 <= col < 8,
        in_range(nodes),
        claims(nodes, claimed, row, col),
        nodes[row].children[col] matches Some(child) && claimed[child],
    ensures
        !is_tree(nodes),
{
    let child = nodes[row].children[col].unwrap();
    if is_tree(nodes) {
        assert(child > 0);
        let (a, i) = choose|a: int, i: int|
            0 <= a < nodes.len() && 0 <= i < 8 && earlier(a, i, row, col)
                && #[trigger] nodes[a].children[i] == Some(child);
        assert(nodes[a].children[i] == nodes[row].children[col]);
        assert(a == row && i == col);
    }
}

/// Reading a link to a node not yet claimed, and claiming it.
proof fn lemma_claim(
    nodes: Seq<NodeView>,
    before: Seq<bool>,
    after: Seq<bool>,
    row: int,
    col: int,
)
    requires
        0 <= row < nodes.len(),
        0 <= col < 8,
        in_range(nodes),
        claims(nodes, before, row, col),
        nodes[row].children[col] matches Some(child) && !before[child] && after == before.update(
            child,
            true,
        ),
    ensures
        claims(nodes, after, row, col + 1),
{
    let child = nodes[row].children[col].unwrap();
    assert(0 <= child < nodes.len());
    assert forall|a: int, i: int, b: int, j: int|
        0 <= a < nodes.len() && 0 <= i < 8 && 0 <= b < nodes.len() && 0 <= j < 8 && earlier(
            a,
            i,
            row,
            col + 1,
        ) && earlier(b, j, row, col + 1) && #[trigger] nodes[a].children[i] is Some
            && nodes[a].children[i] == #[trigger] nodes[b].children[j] implies a == b && i == j by {
        if earlier(a, i, row, col) && !earlier(b, j, row, col) {
            assert(nodes[a].children[i] matches Some(c) ==> before[c]);
        }
        if earlier(b, j, row, col) && !earlier(a, i, row, col) {
            assert(nodes[b].children[j] matches Some(c) ==> before[c]);
        }
    }
    assert forall|a: int, i: int|
        0 <= a < nodes.len() && 0 <= i < 8 && earlier(a, i, row, col + 1) implies (
    #[trigger] nodes[a].children[i] matches Some(c) ==> c != 0 && after[c]) by {
        if earlier(a, i, row, col) {
            assert(nodes[a].children[i] matches Some(c) ==> c != 0 && before[c]);
        }
    }
    assert forall|at: int| 0 < at < nodes.len() && #[trigger] after[at] implies exists|
        a: int,
        i: int,
    |
        0 <= a < nodes.len() && 0 <= i < 8 && earlier(a, i, row, col + 1)
            && #[trigger] nodes[a].children[i] == Some(at) by {
        if at == child {
            assert(earlier(row, col, row, col + 1) && nodes[row].children[col] == Some(at));
        } else {
            assert(before[at]);
            let (a, i) = choose|a: int, i: int|
                0 <= a < nodes.len() && 0 <= i < 8 && earlier(a, i, row, col)
                    && #[trigger] nodes[a].children[i] == Some(at);
            assert(earlier(a, i, row, col + 1) && nodes[a].children[i] == Some(at));
        }
    }
}

/// Reading an empty slot.
proof fn lemma_no_claim(nodes: Seq<NodeView>, claimed: Seq<bool>, row: int, col: int)
    requires
        0 <= row < nodes.len(),
        0 <= col < 8,
        claims(nodes, claimed, row, col),
        nodes[row].children[col] is None,
    ensures
        claims(nodes, claimed, row, col + 1),
{
    assert forall|at: int| 0 < at < nodes.len() && #[trigger] claimed[at] implies exists|
        a: int,
        i: int,
    |
        0 <= a < nodes.len() && 0 <= i < 8 && earlier(a, i, row, col + 1)
            && #[trigger] nodes[a].children[i] == Some(at) by {
        let (a, i) = choose|a: int, i: int|
            0 <= a < nodes.len() && 0 <= i < 8 && earlier(a, i, row, col)
                && #[trigger] nodes[a].children[i] == Some(at);
        assert(earlier(a, i, row, col + 1) && nodes[a].children[i] == Some(at));
    }
}

/// The end of one row is the start of the next.
proof fn lemma_next_row(nodes: Seq<NodeView>, claimed: Seq<bool>, row: int)
    requires
        0 <= row < nodes.len(),
        claims(nodes, claimed, row, 8),
    ensures
        claims(nodes, claimed, row + 1, 0),
{
    assert forall|at: int| 0 < at < nodes.len() && #[trigger] claimed[at] implies exists|
        a: int,
        i: int,
    |
        0 <= a < nodes.len() && 0 <= i < 8 && earlier(a, i, row + 1, 0)
            && #[trigger] nodes[a].children[i] == Some(at) by {
        let (a, i) = choose|a: int, i: int|
            0 <= a < nodes.len() && 0 <= i < 8 && earlier(a, i, row, 8)
                && #[trigger] nodes[a].children[i] == Some(at);
        assert(earlier(a, i, row + 1, 0) && nodes[a].children[i] == Some(at));
    }
}

/// When every link is read and none was claimed twice, the arena is a tree.
proof fn lemma_all_claims(nodes: Seq<NodeView>, claimed: Seq<bool>)
    requires
        nodes.len() > 0,
        in_range(nodes),
        shaped(nodes),
        claims(nodes, claimed, nodes.len() as int, 0),
    ensures
        is_tree(nodes),
{
    assert forall|at: int, slot: int| 0 <= at < nodes.len() && 0 <= slot < 8 implies (
    #[trigger] nodes[at].children[slot] matches Some(child) ==> 0 < child < nodes.len()) by {
        assert(earlier(at, slot, nodes.len() as int, 0));
    }
    assert forall|a: int, i: int, b: int, j: int|
        0 <= a < nodes.len() && 0 <= i < 8 && 0 <= b < nodes.len() && 0 <= j < 8
            && #[trigger] nodes[a].children[i] is Some && nodes[a].children[i]
            == #[trigger] nodes[b].children[j] implies a == b && i == j by {
        assert(earlier(a, i, nodes.len() as int, 0));
        assert(earlier(b, j, nodes.len() as int, 0));
    }
}

} // verus!
