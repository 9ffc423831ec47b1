use vstd::prelude::*;
use std::collections::VecDeque;
use crate::discovery::{
    closed_order, discovered, discovery_order, lemma_discovery_order, lemma_discovery_stops,
    reachable,
};
use crate::node::{slot_view, Node, NodeView, MAX_CHILDREN};
use crate::octree::{Octree, OctreeView};
use crate::serialise::{as_ints, flat_form, node_form, packed_record, unpacked_record, SerialNode};

verus! {

/// The table of records for the nodes of `order`: row `k` is the record of
/// node `order[k]`, with each child replaced by its position in `order`.
pub open spec fn table_of(nodes: Seq<NodeView>, order: Seq<int>) -> Seq<u128> {
    Seq::new(order.len(), |k: int| packed_record(flat_form(nodes[order[k]], order)))
}

/// The arena that a table of records stands for: node `k` is what row `k`
/// holds, and its children are rows.
pub open spec fn decoded(serial: Seq<u128>) -> Seq<NodeView> {
    Seq::new(serial.len(), |k: int| node_form(unpacked_record(serial[k])))
}

/// A work list with its indices as mathematical integers.
pub open spec fn slots_view(list: Seq<Option<usize>>) -> Seq<Option<int>> {
    Seq::new(list.len(), |j: int| slot_view(list[j]))
}

impl OctreeView {
    /// The table of records of the tree: one row for each node that can be
    /// reached from the root, in the order of discovery.
    pub open spec fn serialised(self, breadth_first: bool) -> Seq<u128> {
        table_of(self.nodes, discovery_order(self.nodes, breadth_first))
    }
}

impl Octree {
    /// Walks the tree with a work list, depth first or breadth first, and
    /// returns the nodes in the order in which the walk comes upon them.
    pub fn discover(&self, breadth_first: bool) -> (order: Vec<usize>)
        requires
            self@.wf(),
        ensures
            as_ints(order@) == discovery_order(self@.nodes, breadth_first),
    {
        let count: usize = self.nodes.len();
        let mut pending: VecDeque<Option<usize>> = VecDeque::new();
        pending.push_back(Some(0));
        let mut order: Vec<usize> = Vec::new();
        let mut placed: Vec<bool> = Vec::new();
        let mut filled: usize = 0;
        while filled < count
            invariant
                filled <= count,
                placed@.len() == filled,
                forall|at: int| 0 <= at < filled ==> !#[trigger] placed@[at],
            decreases count - filled,
        {
            placed.push(false);
            filled = filled + 1;
        }
        proof {
            assert(slots_view(pending@) =~= seq![Some(0int)]);
            assert(as_ints(order@) =~= Seq::<int>::empty());
        }
        while pending.len() > 0 && order.len() < count
            invariant
                count == self@.nodes.len(),
                placed@.len() == count,
                self@.wf(),
                discovered(self@.nodes, slots_view(pending@), as_ints(order@), breadth_first)
                    == discovery_order(self@.nodes, breadth_first),
                forall|at: int|
                    0 <= at < count ==> (#[trigger] placed@[at] <==> as_ints(order@).contains(at)),
                forall|j: int|
                    0 <= j < pending@.len() ==> (#[trigger] pending@[j] matches Some(child)
                        ==> child < count),
            decreases count - order.len(), pending.len(),
        {
            let ghost work = slots_view(pending@);
            let ghost seen = as_ints(order@);
            let ghost before = pending@;
            let next: Option<Option<usize>> = if breadth_first {
                pending.pop_front()
            } else {
                pending.pop_back()
            };
            let ghost rest = if breadth_first {
                work.drop_first()
            } else {
                work.drop_last()
            };
            proof {
                assert(slots_view(pending@) =~= rest);
                assert forall|j: int| 0 <= j < pending@.len() implies (
                #[trigger] pending@[j] matches Some(child) ==> child < count) by {
                    if breadth_first {
                        assert(pending@[j] == before[j + 1]);
                    } else {
                        assert(pending@[j] == before[j]);
                    }
                }
            }
            match next {
                Some(Some(at)) => {
                    assert(before[if breadth_first {
                        0int
                    } else {
                        before.len() - 1
                    }] == Some(at));
                    if !placed[at] {
                        placed[at] = true;
                        order.push(at);
                        let node: Node = self.nodes[at];
                        let mut slot: usize = 0;
                        proof {
                            assert(as_ints(order@) =~= seen.push(at as int));
                            assert(rest + self@.nodes[at as int].children.take(0) =~= rest);
                            assert forall|other: int| 0 <= other < count implies (
                            #[trigger] placed@[other] <==> as_ints(order@).contains(other)) by {
                                if other == at {
                                    assert(as_ints(order@)[seen.len() as int] == at);
                                } else if seen.contains(other) {
                                    let k = choose|k: int| 0 <= k < seen.len() && seen[k] == other;
                                    assert(as_ints(order@)[k] == other);
                                } else if as_ints(order@).contains(other) {
                                    let k = choose|k: int|
                                        0 <= k < as_ints(order@).len() && as_ints(order@)[k]
                                            == other;
                                    assert(seen[k] == other);
                                }
                            }
                        }
                        while slot < MAX_CHILDREN
                            invariant
                                slot <= 8,
                                at < count,
                                count == self@.nodes.len(),
                                self@.wf(),
                                node == self.nodes@[at as int],
                                slots_view(pending@) == rest + self@.nodes[at as int].children.take(
                                    slot as int,
                                ),
                                forall|j: int|
                                    0 <= j < pending@.len() ==> (
                                    #[trigger] pending@[j] matches Some(child) ==> child < count),
                            decreases 8 - slot,
                        {
                            let ghost waiting = pending@;
                            let child: Option<usize> = node.children[slot];
                            proof {
                                assert(self@.nodes[at as int].children[slot as int] == slot_view(
                                    child,
                                ));
                                assert(slot_view(child) matches Some(c) ==> 0 < c < count);
                            }
                            pending.push_back(child);
                            proof {
                                assert(slots_view(pending@) =~= slots_view(waiting).push(
                                    slot_view(child),
                                ));
                                assert(self@.nodes[at as int].children.take(slot as int + 1)
                                    =~= self@.nodes[at as int].children.take(slot as int).push(
                                    slot_view(child),
                                ));
                                assert(slots_view(pending@) =~= rest
                                    + self@.nodes[at as int].children.take(slot as int + 1));
                                assert forall|j: int| 0 <= j < pending@.len() implies (
                                #[trigger] pending@[j] matches Some(c) ==> c < count) by {
                                    if j < waiting.len() {
                                        assert(pending@[j] == waiting[j]);
                                    }
                                }
                            }
                            slot = slot + 1;
                        }
                        proof {
                            assert(self@.nodes[at as int].children.take(8)
                                =~= self@.nodes[at as int].children);
                        }
                    } else {
                        assert(seen.contains(at as int));
                    }
                },
                _ => {},
            }
        }
        proof {
            lemma_discovery_stops(
                self@.nodes,
                slots_view(pending@),
                as_ints(order@),
                breadth_first,
            );
        }
        order
    }

    /// Walks the tree with a work list, depth first or breadth first, and
    /// returns the table of records of the nodes in the order of discovery.
    pub fn full_traversal(&self, breadth_first: bool) -> (words: Vec<u128>)
        requires
            self@.wf(),
        ensures
            words@ == self@.serialised(breadth_first),
            words@.len() > 0,
            discovery_order(self@.nodes, breadth_first)[0] == 0,
            forall|at: int|
                #[trigger] reachable(self@.nodes, at) <==> discovery_order(
                    self@.nodes,
                    breadth_first,
                ).contains(at),
    {
        let order: Vec<usize> = self.discover(breadth_first);
        proof {
            lemma_discovery_order(self@.nodes, breadth_first);
        }
        let ghost sequence = as_ints(order@);
        let mut words: Vec<u128> = Vec::new();
        let mut k: usize = 0;
        while k < order.len()
            invariant
                k <= order.len(),
                self@.wf(),
                sequence == as_ints(order@),
                closed_order(self@.nodes, sequence),
                words@ == Seq::new(
                    k as nat,
                    |row: int| packed_record(flat_form(self@.nodes[sequence[row]], sequence)),
                ),
            decreases order.len() - k,
        {
            let at: usize = order[k];
            assert(sequence[k as int] == at);
            assert(at < self.nodes.len());
            let node: &Node = &self.nodes[at];
            proof {
                assert forall|slot: int| 0 <= slot < 8 implies (
                #[trigger] node@.children[slot] matches Some(id) ==> sequence.contains(id)) by {
                    assert(self@.nodes[sequence[k as int]].children[slot] == node@.children[slot]);
                }
            }
            let flat: SerialNode = SerialNode::from_node(node, &order);
            let ghost earlier = words@;
            words.push(flat.serialise());
            proof {
                assert(words@ =~= Seq::new(
                    (k + 1) as nat,
                    |row: int| packed_record(flat_form(self@.nodes[sequence[row]], sequence)),
                ));
            }
            k = k + 1;
        }
        proof {
            assert(words@ =~= table_of(self@.nodes, sequence));
        }
        words
    }

    /// The table of records of the tree, breadth first.
    pub fn breadth_first(&self) -> (words: Vec<u128>)
        requires
            self@.wf(),
        ensures
            words@ == self@.serialised(true),
            words@.len() > 0,
    {
        self.full_traversal(true)
    }

    /// The table of records of the tree, depth first.
    pub fn depth_first(&self) -> (words: Vec<u128>)
        requires
            self@.wf(),
        ensures
            words@ == self@.serialised(false),
            words@.len() > 0,
    {
        self.full_traversal(false)
    }

    /// The wire form of the tree: its table of records, depth first; the
    /// root is row 0.
    pub fn serialise(&self) -> (words: Vec<u128>)
        requires
            self@.wf(),
        ensures
            words@ == self@.serialised(false),
            words@.len() > 0,
    {
        self.depth_first()
    }
}

} // verus!
