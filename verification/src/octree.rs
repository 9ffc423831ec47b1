use vstd::prelude::*;
use crate::arena::{grown, is_tree, materialised, opened, traversed, walk, wrapper};
use crate::indexing::{groups, in_bounds, path_of, MAX_DEPTH};
use crate::node::{slot_view, Node, NodeView, MAX_CHILDREN};
use crate::voxel::NodeDataType;

verus! {

/// A growable sparse octree over the integer lattice.  Its nodes live in an
/// arena; node 0 is the root.
pub struct Octree {
    pub(crate) nodes: Vec<Node>,
    pub(crate) dim: usize,
}

/// The mathematical form of an octree: the arena of its nodes, and its
/// depth.  A tree of depth `d` covers `[-2^d, 2^d)` on each axis.
pub struct OctreeView {
    pub nodes: Seq<NodeView>,
    pub depth: nat,
}

impl View for Octree {
    type V = OctreeView;

    open(crate) spec fn view(&self) -> OctreeView {
        OctreeView {
            nodes: Seq::new(self.nodes@.len(), |at: int| self.nodes@[at]@),
            depth: self.dim as nat,
        }
    }
}

/// The depth that a tree of depth `depth` has after it has grown to hold
/// `position`: the least depth from `depth` on at which the position is in
/// bounds, and at most `MAX_DEPTH`.
pub open spec fn depth_for(position: (i32, i32, i32), depth: nat) -> nat
    decreases MAX_DEPTH - depth,
{
    if depth >= MAX_DEPTH || in_bounds(position, depth) {
        depth
    } else {
        depth_for(position, depth + 1)
    }
}

/// The depth after growing for a position is the least one, from the
/// current depth on, at which the position is in bounds.
pub proof fn lemma_depth_for(position: (i32, i32, i32), depth: nat)
    requires
        depth <= MAX_DEPTH,
        in_bounds(position, MAX_DEPTH as nat),
    ensures
        depth <= depth_for(position, depth) <= MAX_DEPTH,
        in_bounds(position, depth_for(position, depth)),
        forall|between: nat|
            depth <= between < depth_for(position, depth) ==> !in_bounds(position, between),
    decreases MAX_DEPTH - depth,
{
    if !(depth >= MAX_DEPTH || in_bounds(position, depth)) {
        lemma_depth_for(position, depth + 1);
    }
}

impl OctreeView {
    /// The arena is a tree, and the depth is one that a path can address.
    pub open spec fn wf(self) -> bool {
        &&& is_tree(self.nodes)
        &&& self.depth <= MAX_DEPTH
    }

    /// The payload of the node that `path` leads to from the root; none
    /// where the path leaves the tree or the node carries no payload.
    pub open spec fn payload_at(self, path: Seq<int>) -> Option<NodeDataType> {
        match walk(self.nodes, 0, path) {
            Some(at) => self.nodes[at].data,
            None => None,
        }
    }

    /// The payload of the voxel at `position`, if the tree holds one.
    pub open spec fn get(self, position: (i32, i32, i32)) -> Option<NodeDataType> {
        if in_bounds(position, self.depth) {
            self.payload_at(path_of(position, self.depth))
        } else {
            None
        }
    }

    /// The tree grown by one level.
    pub open spec fn grown(self) -> OctreeView {
        OctreeView { nodes: grown(self.nodes), depth: self.depth + 1 }
    }

    /// The tree grown level by level until its depth is at least `depth`.
    pub open spec fn grown_to(self, depth: nat) -> OctreeView
        decreases depth - self.depth,
    {
        if self.depth >= depth {
            self
        } else {
            self.grown().grown_to(depth)
        }
    }

    /// The tree after `data` was stored at `position`: grown until the
    /// position is in bounds, the path to the position populated, and the
    /// node at its end replaced by a leaf that carries `data`.
    pub open spec fn inserted(self, position: (i32, i32, i32), data: NodeDataType) -> OctreeView {
        let fitted = self.grown_to(depth_for(position, self.depth));
        let reached = traversed(fitted.nodes, 0, path_of(position, fitted.depth));
        OctreeView {
            nodes: reached.0.update(reached.1, NodeView::leaf(data)),
            depth: fitted.depth,
        }
    }
}

impl Default for Octree {
    /// An empty tree of depth 0: the root alone, without payload.
    fn default() -> (tree: Octree)
        ensures
            tree@.wf(),
            tree@.depth == 0,
            tree@.nodes == seq![NodeView::empty()],
    {
        let mut nodes: Vec<Node> = Vec::new();
        nodes.push(Node::default());
        let tree = Self { nodes, dim: 0 };
        assert(tree@.nodes =~= seq![NodeView::empty()]);
        tree
    }
}

impl Octree {
    /// An empty tree of depth 0: the root alone, without payload.
    pub fn new() -> (tree: Self)
        ensures
            tree@.wf(),
            tree@.depth == 0,
            tree@.nodes == seq![NodeView::empty()],
    {
        Self::default()
    }

    /// The depth of the tree.
    pub fn depth(&self) -> (depth: usize)
        ensures
            depth == self@.depth,
    {
        self.dim
    }

    /// Doubles the cube that the tree covers.  Each child of the old root
    /// moves one level down, into the slot opposite to the one it had.
    pub fn grow(&mut self)
        requires
            old(self)@.wf(),
            old(self)@.depth < MAX_DEPTH,
        ensures
            final(self)@ == old(self)@.grown(),
            final(self)@.wf(),
            forall|position: (i32, i32, i32)|
                in_bounds(position, old(self)@.depth) ==> #[trigger] final(self)@.get(position)
                    == old(self)@.get(position),
    {
        let root: Node = self.nodes[0];
        let count: usize = self.nodes.len();
        let mut new_root: Node = Node::new_branch();
        let ghost before = self@.nodes;
        let mut slot: usize = 0;
        while slot < MAX_CHILDREN
            invariant
                slot <= 8,
                self.dim == old(self).dim,
                is_tree(before),
                before == old(self)@.nodes,
                root == old(self).nodes@[0],
                count == before.len(),
                self.nodes@.len() == count + slot,
                forall|at: int| 0 <= at < count ==> (#[trigger] self.nodes@[at])@ == before[at],
                self@.nodes == before + Seq::new(slot as nat, |s: int| wrapper(before, s)),
                new_root.data is None,
                forall|s: int| 0 <= s < slot ==> #[trigger] new_root@.children[s] == Some(count + s),
            decreases 8 - slot,
        {
            let wrapped: Node = match root.children[slot] {
                Some(child) => {
                    assert(before[0].children[slot as int] == Some(child as int));
                    let mut parent: Node = match self.nodes[child].data {
                        Some(data) => Node::new_leaf(data),
                        None => Node::new_branch(),
                    };
                    assert(self.nodes@[child as int]@ == before[child as int]);
                    let ghost fresh = parent;
                    parent.children[MAX_CHILDREN - 1 - slot] = Some(child);
                    assert(parent.children@ == fresh.children@.update(7 - slot, Some(child)));
                    assert forall|s: int| 0 <= s < 8 implies #[trigger] parent@.children[s]
                        == wrapper(before, slot as int).children[s] by {
                        if s != 7 - slot {
                            assert(fresh.child(s) is None);
                        }
                    }
                    assert(parent@.children =~= wrapper(before, slot as int).children);
                    parent
                },
                None => {
                    assert(before[0].children[slot as int] is None);
                    Node::new_branch()
                },
            };
            assert(wrapped@ == wrapper(before, slot as int));
            let at: usize = self.nodes.len();
            let ghost pushed = self@.nodes;
            let ghost earlier = new_root;
            self.nodes.push(wrapped);
            new_root.children[slot] = Some(at);
            assert(new_root.children@ == earlier.children@.update(slot as int, Some(at)));
            assert forall|s: int| 0 <= s < slot + 1 implies #[trigger] new_root@.children[s]
                == Some(count + s) by {
                if s < slot {
                    assert(earlier@.children[s] == Some(count + s));
                }
            }
            assert(self@.nodes =~= pushed.push(wrapped@));
            assert(self@.nodes =~= before + Seq::new(
                (slot + 1) as nat,
                |s: int| wrapper(before, s),
            ));
            slot = slot + 1;
        }
        self.nodes[0] = new_root;
        self.dim = self.dim + 1;
        proof {
            assert(new_root@.children =~= Seq::new(8, |s: int| Some(count + s)));
            assert(self@.nodes =~= grown(before));
            crate::arena::lemma_grown_is_tree(before);
            assert forall|position: (i32, i32, i32)|
                in_bounds(position, old(self)@.depth) implies #[trigger] self@.get(position)
                == old(self)@.get(position) by {
                crate::laws::lemma_growth_preserves_content(old(self)@, position);
            }
        }
    }

    /// Populates `slot` of node `at` if it is empty, and returns the child
    /// in that slot.
    fn open_slot(&mut self, at: usize, slot: usize) -> (child: usize)
        requires
            is_tree(old(self)@.nodes),
            at < old(self)@.nodes.len(),
            slot < 8,
        ensures
            final(self)@.nodes == opened(old(self)@.nodes, at as int, slot as int),
            final(self)@.depth == old(self)@.depth,
            final(self)@.nodes[at as int].children[slot as int] == Some(child as int),
            is_tree(final(self)@.nodes),
            child < final(self)@.nodes.len(),
    {
        let ghost before = self@.nodes;
        proof {
            crate::arena::lemma_opened_is_tree(before, at as int, slot as int);
        }
        let current: Node = self.nodes[at];
        assert(current@ == before[at as int]);
        match current.children[slot] {
            Some(child) => {
                assert(before[at as int].children[slot as int] == Some(child as int));
                child
            },
            None => {
                assert(before[at as int].children[slot as int] is None);
                let count: usize = self.nodes.len();
                let mut parent: Node = Node::new_branch();
                parent.children = current.children;
                match current.data {
                    Some(data) => {
                        let mut s: usize = 0;
                        while s < MAX_CHILDREN
                            invariant
                                s <= 8,
                                self.dim == old(self).dim,
                                count == before.len(),
                                at < before.len(),
                                self.nodes@.len() == count + s,
                                current@ == before[at as int],
                                parent.data is None,
                                self@.nodes == before + Seq::new(
                                    s as nat,
                                    |k: int| NodeView::leaf(data),
                                ),
                                forall|k: int|
                                    0 <= k < 8 ==> #[trigger] parent@.children[k] == (
                                    match current@.children[k] {
                                        Some(child) => Some(child),
                                        None => if k < s {
                                            Some(count + k)
                                        } else {
                                            None
                                        },
                                    }),
                            decreases 8 - s,
                        {
                            let ghost pushed = self@.nodes;
                            let ghost earlier = parent;
                            let fresh: usize = self.nodes.len();
                            self.nodes.push(Node::new_leaf(data));
                            if current.children[s].is_none() {
                                parent.children[s] = Some(fresh);
                                assert(parent.children@ == earlier.children@.update(
                                    s as int,
                                    Some(fresh),
                                ));
                            }
                            assert forall|k: int| 0 <= k < 8 implies #[trigger] parent@.children[k]
                                == (match current@.children[k] {
                                Some(child) => Some(child),
                                None => if k < s + 1 {
                                    Some(count + k)
                                } else {
                                    None
                                },
                            }) by {
                                assert(earlier@.children[k] == (match current@.children[k] {
                                    Some(child) => Some(child),
                                    None => if k < s {
                                        Some(count + k)
                                    } else {
                                        None
                                    },
                                }));
                                assert(current@.children[k] == slot_view(current.children@[k]));
                                assert(parent@.children[k] == slot_view(parent.children@[k]));
                                assert(earlier@.children[k] == slot_view(earlier.children@[k]));
                            }
                            assert(self@.nodes =~= pushed.push(NodeView::leaf(data)));
                            assert(self@.nodes =~= before + Seq::new(
                                (s + 1) as nat,
                                |k: int| NodeView::leaf(data),
                            ));
                            s = s + 1;
                        }
                    },
                    None => {
                        let ghost earlier = parent;
                        self.nodes.push(Node::new_branch());
                        parent.children[slot] = Some(count);
                        assert(parent.children@ == earlier.children@.update(
                            slot as int,
                            Some(count),
                        ));
                        assert(parent@.children =~= before[at as int].with_child(
                            slot as int,
                            count as int,
                        ).children);
                        assert(self@.nodes =~= before.push(NodeView::empty()));
                    },
                }
                let ghost grownup = self@.nodes;
                self.nodes[at] = parent;
                let child: usize = match parent.children[slot] {
                    Some(child) => child,
                    None => 0,
                };
                proof {
                    assert(self@.nodes =~= grownup.update(at as int, parent@));
                    assert(parent@.children =~= materialised(before, at as int, slot as int)[at as int].children);
                    assert(self@.nodes =~= materialised(before, at as int, slot as int));
                    crate::arena::lemma_materialised_link(
                        before,
                        at as int,
                        slot as int,
                        at as int,
                        slot as int,
                    );
                }
                child
            },
        }
    }

    /// Walks from the root along the groups of `index`, the most
    /// significant of the tree's `depth + 1` groups first, and populates
    /// each empty slot on the way.  Returns the node reached.
    pub fn traverse(&mut self, index: u64) -> (handle: usize)
        requires
            old(self)@.wf(),
        ensures
            final(self)@.wf(),
            final(self)@.depth == old(self)@.depth,
            (final(self)@.nodes, handle as int) == traversed(
                old(self)@.nodes,
                0,
                groups(index, old(self)@.depth),
            ),
            handle < final(self)@.nodes.len(),
            walk(final(self)@.nodes, 0, groups(index, old(self)@.depth)) == Some(handle as int),
    {
        let ghost path = groups(index, self@.depth);
        let mut node: usize = 0;
        let mut level: usize = self.dim + 1;
        assert(path.skip(0) =~= path);
        while level > 0
            invariant
                level <= self.dim + 1,
                self.dim == old(self).dim,
                self.dim <= MAX_DEPTH,
                is_tree(self@.nodes),
                node < self@.nodes.len(),
                path == groups(index, self.dim as nat),
                traversed(old(self)@.nodes, 0, path) == traversed(
                    self@.nodes,
                    node as int,
                    path.skip(self.dim + 1 - level),
                ),
            decreases level,
        {
            level = level - 1;
            let shift: u64 = (3 * level) as u64;
            let selected: u64 = (index >> shift) & 7;
            assert(selected < 8) by (bit_vector)
                requires
                    selected == (index >> shift) & 7,
            ;
            let idx: usize = selected as usize;
            proof {
                let k = self.dim - level;
                let rest = path.skip(k);
                assert(rest[0] == path[k]);
                assert(path[k] == crate::indexing::group(index, level as nat));
                assert(rest[0] == idx);
                assert(rest.drop_first() =~= path.skip(k + 1));
                assert(traversed(self@.nodes, node as int, rest) == traversed(
                    opened(self@.nodes, node as int, idx as int),
                    opened(self@.nodes, node as int, idx as int)[node as int].children[idx as int].unwrap(),
                    rest.drop_first(),
                ));
            }
            node = self.open_slot(node, idx);
        }
        proof {
            assert(path.skip(self.dim + 1).len() == 0);
            assert forall|k: int| 0 <= k < path.len() implies 0 <= #[trigger] path[k] < 8 by {
                let level = (self.dim - k) as u64;
                assert((index >> ((3 * level) as u64)) & 7 < 8) by (bit_vector);
            }
            crate::arena::lemma_traversed_reaches(old(self)@.nodes, 0, path);
        }
        node
    }

    /// Stores `data` at `position`.  The tree first grows until the
    /// position is in bounds.
    pub fn insert(&mut self, position: (i32, i32, i32), data: NodeDataType)
        requires
            old(self)@.wf(),
            in_bounds(position, MAX_DEPTH as nat),
        ensures
            final(self)@ == old(self)@.inserted(position, data),
            final(self)@.wf(),
            final(self)@.depth == depth_for(position, old(self)@.depth),
            in_bounds(position, final(self)@.depth),
            final(self)@.get(position) == Some(data),
            forall|other: (i32, i32, i32)|
                other != position && old(self)@.get(other) is Some
                    ==> #[trigger] final(self)@.get(other) == old(self)@.get(other),
    {
        let ghost target = depth_for(position, self@.depth);
        proof {
            lemma_depth_for(position, self@.depth);
        }
        while self.is_pos_outside_bounds(position)
            invariant
                self@.wf(),
                self@.depth <= target,
                target == depth_for(position, self@.depth),
                in_bounds(position, MAX_DEPTH as nat),
                old(self)@.grown_to(target) == self@.grown_to(target),
            decreases MAX_DEPTH - self.dim,
        {
            proof {
                lemma_depth_for(position, self@.depth);
                lemma_depth_for(position, self@.depth + 1);
            }
            self.grow();
        }
        let index: u64 = self.world_pos_to_node_index(position);
        let handle: usize = self.traverse(index);
        let ghost reached = self@.nodes;
        self.nodes[handle] = Node::new_leaf(data);
        proof {
            assert(self@.nodes =~= reached.update(handle as int, NodeView::leaf(data)));
            crate::arena::lemma_replaced_is_tree(reached, handle as int, NodeView::leaf(data));
            crate::laws::lemma_insert_then_get(old(self)@, position, data);
            assert forall|other: (i32, i32, i32)|
                other != position && old(self)@.get(other) is Some implies #[trigger] self@.get(
                other,
            ) == old(self)@.get(other) by {
                crate::laws::lemma_insert_keeps_others(old(self)@, position, data, other);
            }
        }
    }

    /// Whether the deepest tree holds `position`: each axis value is in
    /// `[-2^20, 2^20)`.
    pub fn is_addressable(position: (i32, i32, i32)) -> (addressable: bool)
        ensures
            addressable == in_bounds(position, MAX_DEPTH as nat),
    {
        proof {
            vstd::arithmetic::power2::lemma2_to64();
        }
        -0x10_0000 <= position.0 && position.0 < 0x10_0000 && -0x10_0000 <= position.1
            && position.1 < 0x10_0000 && -0x10_0000 <= position.2 && position.2 < 0x10_0000
    }

    /// Stores `data` at `position` if the deepest tree holds the position,
    /// and says whether it did.  The tree is unchanged where it did not.
    pub fn try_insert(&mut self, position: (i32, i32, i32), data: NodeDataType) -> (stored: bool)
        requires
            old(self)@.wf(),
        ensures
            stored == in_bounds(position, MAX_DEPTH as nat),
            stored ==> final(self)@ == old(self)@.inserted(position, data),
            !stored ==> final(self)@ == old(self)@,
            final(self)@.wf(),
    {
        if Self::is_addressable(position) {
            self.insert(position, data);
            true
        } else {
            false
        }
    }

    /// The payload stored at `position`, if there is one.
    pub fn get(&self, position: (i32, i32, i32)) -> (data: Option<NodeDataType>)
        requires
            self@.wf(),
        ensures
            data == self@.get(position),
    {
        if self.is_pos_outside_bounds(position) {
            return None;
        }
        let index: u64 = self.world_pos_to_node_index(position);
        let ghost path = path_of(position, self@.depth);
        let mut node: usize = 0;
        let mut level: usize = self.dim + 1;
        assert(path.skip(0) =~= path);
        while level > 0
            invariant
                level <= self.dim + 1,
                self@.wf(),
                node < self@.nodes.len(),
                path == groups(index, self.dim as nat),
                path == path_of(position, self@.depth),
                in_bounds(position, self@.depth),
                walk(self@.nodes, 0, path) == walk(
                    self@.nodes,
                    node as int,
                    path.skip(self.dim + 1 - level),
                ),
            decreases level,
        {
            level = level - 1;
            let shift: u64 = (3 * level) as u64;
            let selected: u64 = (index >> shift) & 7;
            assert(selected < 8) by (bit_vector)
                requires
                    selected == (index >> shift) & 7,
            ;
            let idx: usize = selected as usize;
            proof {
                let k = self.dim - level;
                let rest = path.skip(k);
                assert(rest[0] == path[k]);
                assert(path[k] == crate::indexing::group(index, level as nat));
                assert(rest.drop_first() =~= path.skip(k + 1));
                assert(rest[0] == idx);
                assert(self@.nodes[node as int].children[idx as int] == slot_view(
                    self.nodes@[node as int].children@[idx as int],
                ));
            }
            match self.nodes[node].children[idx] {
                Some(child) => {
                    node = child;
                },
                None => {
                    proof {
                        let rest = path.skip(self.dim - level);
                        assert(self@.nodes[node as int].children[rest[0]] is None);
                        assert(walk(self@.nodes, node as int, rest) is None);
                    }
                    return None;
                },
            }
        }
        proof {
            assert(path.skip(self.dim + 1).len() == 0);
        }
        self.nodes[node].data
    }
}

} // verus!
