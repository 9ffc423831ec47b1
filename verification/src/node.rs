use vstd::prelude::*;
use crate::voxel::{packed, unpacked, NodeDataType};

verus! {

/// Number of child slots of a node: one per octant.
pub const MAX_CHILDREN: usize = 8;

/// The payload field that stands for "no payload" in the packed form of a
/// node.
pub const NO_PAYLOAD: u32 = 0xFF00_0000;

/// The child slots of a node; a populated slot holds the arena index of the
/// child.
pub type NodeChildArrayType = [Option<usize>; 8];

/// A node of the tree: up to eight children, and an optional payload.
#[derive(Debug, Copy, Clone)]
pub struct Node {
    pub children: NodeChildArrayType,
    pub data: Option<NodeDataType>,
}

/// The mathematical form of a node: eight child slots, each empty or
/// holding the arena index of the child, and an optional payload.
pub struct NodeView {
    pub children: Seq<Option<int>>,
    pub data: Option<NodeDataType>,
}

impl NodeView {
    /// The node without payload and without children.
    pub open spec fn empty() -> NodeView {
        NodeView { children: Seq::new(8, |slot: int| None), data: None }
    }

    /// The node that carries `data` and has no children.
    pub open spec fn leaf(data: NodeDataType) -> NodeView {
        NodeView { children: Seq::new(8, |slot: int| None), data: Some(data) }
    }

    /// This node with `child` in `slot`.
    pub open spec fn with_child(self, slot: int, child: int) -> NodeView {
        NodeView { children: self.children.update(slot, Some(child)), data: self.data }
    }
}

/// A child slot with its index read as a mathematical integer.
pub open spec fn slot_view(child: Option<usize>) -> Option<int> {
    match child {
        Some(index) => Some(index as int),
        None => None,
    }
}

impl View for Node {
    type V = NodeView;

    open spec fn view(&self) -> NodeView {
        NodeView {
            children: Seq::new(8, |slot: int| slot_view(self.children@[slot])),
            data: self.data,
        }
    }
}

/// The payload field of a node's packed form.
pub open spec fn payload_field(data: Option<NodeDataType>) -> u32 {
    match data {
        Some(d) => packed(d),
        None => NO_PAYLOAD,
    }
}

/// The payload that a payload field stands for: none for the reserved word
/// `NO_PAYLOAD` and for a word with a zero tag.
pub open spec fn payload_of_field(word: u32) -> Option<NodeDataType> {
    if word == NO_PAYLOAD {
        None
    } else {
        unpacked(word)
    }
}

impl Default for Node {
    /// The node without payload and without children.
    fn default() -> (node: Node)
        ensures
            node@ == NodeView::empty(),
            node.data is None,
            node.childless(),
    {
        let node = Self { children: [None;8], data: None };
        assert(node@.children =~= NodeView::empty().children);
        node
    }
}

impl Node {
    /// The child in `slot`, if that slot is populated.
    pub open spec fn child(self, slot: int) -> Option<usize> {
        self.children@[slot]
    }

    /// No slot of the node is populated.
    pub open spec fn childless(self) -> bool {
        forall|slot: int| 0 <= slot < 8 ==> #[trigger] self.child(slot) is None
    }

    /// At least one slot of the node is populated.
    pub open spec fn spec_is_branch(self) -> bool {
        exists|slot: int| 0 <= slot < 8 && #[trigger] self.child(slot) is Some
    }

    /// A node without payload and without children.
    pub fn new_branch() -> (node: Self)
        ensures
            node@ == NodeView::empty(),
            node.data is None,
            node.childless(),
    {
        Self::default()
    }

    /// A node that carries `data` and has no children.
    pub fn new_leaf(data: NodeDataType) -> (node: Self)
        ensures
            node@ == NodeView::leaf(data),
            node.data == Some(data),
            node.childless(),
    {
        let node = Self { children: [None;8], data: Some(data) };
        assert(node@.children =~= NodeView::leaf(data).children);
        node
    }

    /// The child slots of the node.
    pub fn get_children(&self) -> (children: NodeChildArrayType)
        ensures
            children == self.children,
    {
        self.children
    }

    /// The payload of the node, if it carries one.
    pub fn get_data(&self) -> (data: Option<NodeDataType>)
        ensures
            data == self.data,
    {
        self.data
    }

    /// The payload field of the node: its packed payload, or `NO_PAYLOAD`.
    pub fn serialise(&self) -> (word: u32)
        ensures
            word == payload_field(self.data),
    {
        match self.data {
            Some(data) => data.serialise(),
            None => NO_PAYLOAD,
        }
    }

    /// The leaf that a payload field stands for, if it stands for a payload.
    pub fn deserialise(val: u32) -> (node: Option<Self>)
        ensures
            match payload_of_field(val) {
                Some(data) => node matches Some(leaf) && leaf@ == NodeView::leaf(data),
                None => node is None,
            },
    {
        if val == NO_PAYLOAD {
            return None;
        }
        match NodeDataType::deserialise(val) {
            Some(data) => Some(Self::new_leaf(data)),
            None => None,
        }
    }

    /// Whether at least one child slot is populated.
    pub fn is_branch(&self) -> (branch: bool)
        ensures
            branch == self.spec_is_branch(),
    {
        let mut count: usize = 0;
        let mut slot: usize = 0;
        while slot < MAX_CHILDREN
            invariant
                slot <= 8,
                count <= slot,
                count > 0 <==> exists|s: int| 0 <= s < slot && #[trigger] self.child(s) is Some,
            decreases 8 - slot,
        {
            if self.children[slot].is_some() {
                assert(self.child(slot as int) is Some);
                count = count + 1;
            }
            slot = slot + 1;
        }
        count > 0
    }
}

} // verus!
