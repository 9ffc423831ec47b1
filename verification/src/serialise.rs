use vstd::prelude::*;
use crate::node::{payload_field, payload_of_field, slot_view, Node, NodeView, MAX_CHILDREN, NO_PAYLOAD};
use crate::voxel::{packed, NodeDataType};

verus! {

/// The child field that stands for "no child".
pub const NO_CHILD: u32 = 0xFFF;

/// The payload field of a 128-bit record: its top 32 bits.
pub open spec fn word_payload(word: u128) -> u32 {
    (word >> 96) as u32
}

/// The child field of `slot`, with the slot as a machine integer.
pub open spec fn child_bits(word: u128, slot: u128) -> u32 {
    ((word >> ((84 - 12 * slot) as u128)) & 0xFFF) as u32
}

/// The child field of `slot` in a 128-bit record.  The eight fields are
/// twelve bits wide and fill the low 96 bits, the field of slot 0 on top.
pub open spec fn word_child(word: u128, slot: int) -> u32 {
    child_bits(word, slot as u128)
}

/// What the record decoder keeps of a payload field: the field itself where
/// its top bit is set, else `NO_PAYLOAD`.
pub open spec fn kept_payload(field: u32) -> u32 {
    if field >= 0x8000_0000 {
        field
    } else {
        NO_PAYLOAD
    }
}

/// The child that a child value stands for: none where its low twelve bits
/// are all ones, else the table position that those bits give.
pub open spec fn child_of_field(field: u32) -> Option<int> {
    if field & 0xFFF == 0xFFF {
        None
    } else {
        Some((field & 0xFFF) as int)
    }
}

/// A list of arena indices as mathematical integers.
pub open spec fn as_ints(list: Seq<usize>) -> Seq<int> {
    Seq::new(list.len(), |k: int| list[k] as int)
}

/// `k` is the first position of `id` in `order`.
pub open spec fn is_position(order: Seq<int>, id: int, k: int) -> bool {
    &&& 0 <= k < order.len()
    &&& order[k] == id
    &&& forall|j: int| 0 <= j < k ==> order[j] != id
}

/// The first position of `id` in `order`.
pub open spec fn position(order: Seq<int>, id: int) -> int {
    choose|k: int| is_position(order, id, k)
}

/// The child value that the flat form holds for a child slot: the first
/// position of the child in `order`, cut to 32 bits, or all ones for an
/// empty slot.
pub open spec fn child_value(order: Seq<int>, child: Option<int>) -> u32 {
    match child {
        Some(id) => position(order, id) as u32,
        None => 0xFFFF_FFFF,
    }
}

/// The mathematical form of a flat node: a payload field and eight child
/// values, of which a record keeps the low twelve bits each.
pub struct SerialNodeView {
    pub children: Seq<u32>,
    pub data: u32,
}

/// The flat form of `node` in a table whose rows stand for the nodes of
/// `order`.
pub open spec fn flat_form(node: NodeView, order: Seq<int>) -> SerialNodeView {
    SerialNodeView {
        children: Seq::new(8, |slot: int| child_value(order, node.children[slot])),
        data: payload_field(node.data),
    }
}

/// The node that a flat node stands for; its children are table positions.
pub open spec fn node_form(flat: SerialNodeView) -> NodeView {
    NodeView {
        children: Seq::new(8, |slot: int| child_of_field(flat.children[slot])),
        data: payload_of_field(flat.data),
    }
}

/// The twelve bits that a record holds of `child`, in the place of `slot`.
pub open spec fn field_bits(child: u32, slot: u128) -> u128 {
    ((child as u128) & 0xFFF) << ((84 - 12 * slot) as u128)
}

/// A record from its nine parts.
pub open spec fn record(
    data: u32,
    c0: u32,
    c1: u32,
    c2: u32,
    c3: u32,
    c4: u32,
    c5: u32,
    c6: u32,
    c7: u32,
) -> u128 {
    ((data as u128) << 96) | field_bits(c0, 0) | field_bits(c1, 1) | field_bits(c2, 2)
        | field_bits(c3, 3) | field_bits(c4, 4) | field_bits(c5, 5) | field_bits(c6, 6)
        | field_bits(c7, 7)
}

/// The 128-bit record of a flat node: the payload field in the top 32
/// bits, then the low twelve bits of each child value, slot 0 first.
pub open spec fn packed_record(flat: SerialNodeView) -> u128 {
    record(
        flat.data,
        flat.children[0],
        flat.children[1],
        flat.children[2],
        flat.children[3],
        flat.children[4],
        flat.children[5],
        flat.children[6],
        flat.children[7],
    )
}

/// The flat node that a 128-bit record holds.
pub open spec fn unpacked_record(word: u128) -> SerialNodeView {
    SerialNodeView {
        children: Seq::new(8, |slot: int| word_child(word, slot)),
        data: kept_payload(word_payload(word)),
    }
}

/// The flat form of a node: a payload field and eight child values, of
/// which the record keeps the low twelve bits each.
#[derive(Debug, Copy, Clone)]
pub struct SerialNode {
    children: [u32; 8],
    data: u32,
}

impl View for SerialNode {
    type V = SerialNodeView;

    closed spec fn view(&self) -> SerialNodeView {
        SerialNodeView { children: self.children@, data: self.data }
    }
}

/// The fields of the slots from `slot` on are still zero in `word`.
spec fn clear_from(word: u128, slot: u128) -> bool {
    word & (((1u128 << ((96 - 12 * slot) as u128)) - 1) as u128) == 0
}

/// `word` with the low twelve bits of `child` put into the field of `slot`.
spec fn with_child(word: u128, child: u32, slot: u128) -> u128 {
    word | (((child as u128) & 0xFFF) << ((84 - 12 * slot) as u128))
}

/// A payload field alone: it is read back, and every child field is zero.
proof fn lemma_record_start(data: u32)
    by (bit_vector)
    ensures
        (((data as u128) << 96) >> 96) as u32 == data,
        clear_from((data as u128) << 96, 0),
{
}

/// Putting a child value into the next field leaves the payload field,
/// holds the low twelve bits of the value, and keeps the fields behind it
/// zero.
proof fn lemma_record_put(val: u128, child: u32, slot: u128)
    by (bit_vector)
    requires
        slot < 8,
        clear_from(val, slot),
    ensures
        (with_child(val, child, slot) >> 96) as u32 == (val >> 96) as u32,
        child_bits(with_child(val, child, slot), slot) == child & 0xFFF,
        clear_from(with_child(val, child, slot), (slot + 1) as u128),
{
}

/// The payload field fits 32 bits, and a child field twelve.
proof fn lemma_record_fields(val: u128, slot: u128)
    by (bit_vector)
    requires
        slot < 8,
    ensures
        val >> 96 <= 0xFFFF_FFFF,
        (val >> ((84 - 12 * slot) as u128)) & 0xFFF <= 0xFFF,
{
}

/// The top bit of a payload field is set exactly when the field is at
/// least `2^31`.
proof fn lemma_top_bit(field: u32)
    by (bit_vector)
    ensures
        (field & (1u32 << 31)) >> 31 > 0 <==> field >= 0x8000_0000,
{
}

/// The low twelve bits of a value are at most `0xFFF`.
proof fn lemma_low_twelve(field: u32)
    by (bit_vector)
    ensures
        field & 0xFFF <= 0xFFF,
{
}

/// The fields of a record made from nine parts.
proof fn lemma_record_parts(
    data: u32,
    c0: u32,
    c1: u32,
    c2: u32,
    c3: u32,
    c4: u32,
    c5: u32,
    c6: u32,
    c7: u32,
)
    by (bit_vector)
    ensures
        (record(data, c0, c1, c2, c3, c4, c5, c6, c7) >> 96) as u32 == data,
        child_bits(record(data, c0, c1, c2, c3, c4, c5, c6, c7), 0) == c0 & 0xFFF,
        child_bits(record(data, c0, c1, c2, c3, c4, c5, c6, c7), 1) == c1 & 0xFFF,
        child_bits(record(data, c0, c1, c2, c3, c4, c5, c6, c7), 2) == c2 & 0xFFF,
        child_bits(record(data, c0, c1, c2, c3, c4, c5, c6, c7), 3) == c3 & 0xFFF,
        child_bits(record(data, c0, c1, c2, c3, c4, c5, c6, c7), 4) == c4 & 0xFFF,
        child_bits(record(data, c0, c1, c2, c3, c4, c5, c6, c7), 5) == c5 & 0xFFF,
        child_bits(record(data, c0, c1, c2, c3, c4, c5, c6, c7), 6) == c6 & 0xFFF,
        child_bits(record(data, c0, c1, c2, c3, c4, c5, c6, c7), 7) == c7 & 0xFFF,
{
}

/// Two words with the same nine fields are the same word.
proof fn lemma_word_determined(a: u128, b: u128)
    by (bit_vector)
    requires
        (a >> 96) as u32 == (b >> 96) as u32,
        child_bits(a, 0) == child_bits(b, 0),
        child_bits(a, 1) == child_bits(b, 1),
        child_bits(a, 2) == child_bits(b, 2),
        child_bits(a, 3) == child_bits(b, 3),
        child_bits(a, 4) == child_bits(b, 4),
        child_bits(a, 5) == child_bits(b, 5),
        child_bits(a, 6) == child_bits(b, 6),
        child_bits(a, 7) == child_bits(b, 7),
    ensures
        a == b,
{
}

/// The parts of a record: its payload field is the flat node's, and each
/// child field holds the low twelve bits of the child value.
pub proof fn lemma_packed_record_fields(flat: SerialNodeView)
    ensures
        word_payload(packed_record(flat)) == flat.data,
        forall|slot: int|
            0 <= slot < 8 ==> #[trigger] word_child(packed_record(flat), slot)
                == flat.children[slot] & 0xFFF,
{
    lemma_record_parts(
        flat.data,
        flat.children[0],
        flat.children[1],
        flat.children[2],
        flat.children[3],
        flat.children[4],
        flat.children[5],
        flat.children[6],
        flat.children[7],
    );
}

/// A record is determined by its payload field and its eight child fields.
pub proof fn lemma_record_determined(first: u128, second: u128)
    requires
        word_payload(first) == word_payload(second),
        forall|slot: int| 0 <= slot < 8 ==> word_child(first, slot) == word_child(second, slot),
    ensures
        first == second,
{
    assert(word_child(first, 0) == word_child(second, 0));
    assert(word_child(first, 1) == word_child(second, 1));
    assert(word_child(first, 2) == word_child(second, 2));
    assert(word_child(first, 3) == word_child(second, 3));
    assert(word_child(first, 4) == word_child(second, 4));
    assert(word_child(first, 5) == word_child(second, 5));
    assert(word_child(first, 6) == word_child(second, 6));
    assert(word_child(first, 7) == word_child(second, 7));
    lemma_word_determined(first, second);
}

/// Putting a child value into a field leaves the fields before it.
proof fn lemma_record_keep(val: u128, child: u32, slot: u128, earlier: u128)
    by (bit_vector)
    requires
        slot < 8,
        earlier < slot,
    ensures
        child_bits(with_child(val, child, slot), earlier) == child_bits(val, earlier),
{
}

impl Default for SerialNode {
    /// The flat form of a node without payload and without children.
    fn default() -> (node: SerialNode)
        ensures
            node@.data == NO_PAYLOAD,
            node@.children == Seq::new(8, |slot: int| 0xFFFF_FFFFu32),
    {
        let node = Self { children: [0xFFFF_FFFF;8], data: NO_PAYLOAD };
        assert(node@.children =~= Seq::new(8, |slot: int| 0xFFFF_FFFFu32));
        node
    }
}

impl SerialNode {
    /// The flat form of a node without payload and without children.
    pub fn new_branch() -> (node: Self)
        ensures
            node@.data == NO_PAYLOAD,
            node@.children == Seq::new(8, |slot: int| 0xFFFF_FFFFu32),
    {
        Self::default()
    }

    /// The flat form of a node that carries `data` and has no children.
    pub fn new_leaf(data: NodeDataType) -> (node: Self)
        ensures
            node@.data == packed(data),
            node@.children == Seq::new(8, |slot: int| 0xFFFF_FFFFu32),
    {
        let node = Self { children: [0xFFFF_FFFF;8], data: data.serialise() };
        assert(node@.children =~= Seq::new(8, |slot: int| 0xFFFF_FFFFu32));
        node
    }

    /// Packs the node into one 128-bit record: the payload field on top,
    /// then the low twelve bits of each child value, slot 0 first.
    pub fn serialise(&self) -> (word: u128)
        ensures
            word == packed_record(self@),
            word_payload(word) == self@.data,
            forall|slot: int|
                0 <= slot < 8 ==> #[trigger] word_child(word, slot) == self@.children[slot]
                    & 0xFFF,
    {
        let mut val: u128 = (self.data as u128) << 96;
        proof {
            lemma_record_start(self.data);
        }
        let mut i: usize = 0;
        while i < MAX_CHILDREN
            invariant
                i <= 8,
                word_payload(val) == self.data,
                forall|slot: int|
                    0 <= slot < i ==> #[trigger] word_child(val, slot) == self.children@[slot]
                        & 0xFFF,
                clear_from(val, i as u128),
            decreases 8 - i,
        {
            let child: u32 = self.children[i];
            let shift: u128 = ((MAX_CHILDREN - i - 1) as u128) * 12;
            let next: u128 = val | (((child as u128) & 0xFFF) << shift);
            proof {
                assert(next == with_child(val, child, i as u128));
                lemma_record_put(val, child, i as u128);
                assert forall|slot: int| 0 <= slot < i implies #[trigger] word_child(next, slot)
                    == self.children@[slot] & 0xFFF by {
                    lemma_record_keep(val, child, i as u128, slot as u128);
                    assert(word_child(val, slot) == self.children@[slot] & 0xFFF);
                }
            }
            val = next;
            i = i + 1;
        }
        proof {
            lemma_packed_record_fields(self@);
            lemma_record_determined(val, packed_record(self@));
        }
        val
    }

    /// Unpacks one 128-bit record.  The child values are the eight child
    /// fields; the payload field is kept where its top bit is set, and read
    /// as "no payload" otherwise.
    pub fn deserialise(val: u128) -> (node: Self)
        ensures
            node@ == unpacked_record(val),
    {
        proof {
            lemma_record_fields(val, 0);
        }
        let data: u32 = (val >> 96) as u32;
        let mut children: [u32; 8] = [0;8];
        let mut i: usize = 0;
        while i < MAX_CHILDREN
            invariant
                i <= 8,
                forall|slot: int| 0 <= slot < i ==> #[trigger] children@[slot] == word_child(val, slot),
            decreases 8 - i,
        {
            proof {
                lemma_record_fields(val, i as u128);
            }
            let shift: u128 = ((MAX_CHILDREN - i - 1) as u128) * 12;
            children[i] = ((val >> shift) & 0xFFF) as u32;
            i = i + 1;
        }
        proof {
            lemma_top_bit(data);
        }
        let kept: u32 = if (data & (1u32 << 31)) >> 31 > 0 {
            data
        } else {
            NO_PAYLOAD
        };
        let node = Self { children, data: kept };
        assert(node@.children =~= unpacked_record(val).children);
        node
    }

    /// The flat form of `node`, with each child replaced by its first
    /// position in `map`, the list of the nodes in table order.
    pub fn from_node(node: &Node, map: &Vec<usize>) -> (flat: Self)
        requires
            forall|slot: int|
                0 <= slot < 8 ==> (#[trigger] node@.children[slot] matches Some(id) ==> as_ints(
                    map@,
                ).contains(id)),
        ensures
            flat@ == flat_form(node@, as_ints(map@)),
    {
        let ghost order = as_ints(map@);
        let mut children: [u32; 8] = [0xFFFF_FFFF;8];
        let mut i: usize = 0;
        while i < MAX_CHILDREN
            invariant
                i <= 8,
                order == as_ints(map@),
                forall|slot: int|
                    0 <= slot < 8 ==> (#[trigger] node@.children[slot] matches Some(id)
                        ==> order.contains(id)),
                forall|slot: int|
                    0 <= slot < i ==> #[trigger] children@[slot] == child_value(
                        order,
                        node@.children[slot],
                    ),
            decreases 8 - i,
        {
            assert(node@.children[i as int] == slot_view(node.children@[i as int]));
            match node.children[i] {
                Some(id) => {
                    assert(order.contains(id as int));
                    let mut k: usize = 0;
                    while map[k] != id
                        invariant
                            order == as_ints(map@),
                            order.contains(id as int),
                            0 <= k < map.len(),
                            forall|j: int| 0 <= j < k ==> order[j] != id,
                        decreases map.len() - k,
                    {
                        k = k + 1;
                        proof {
                            let found = choose|j: int| 0 <= j < order.len() && order[j] == id;
                            assert(k <= found);
                        }
                    }
                    proof {
                        assert(order[k as int] == id);
                        assert(is_position(order, id as int, k as int));
                        lemma_position_unique(order, id as int, k as int);
                    }
                    children[i] = #[verifier::truncate]
                    (k as u32);
                },
                None => {
                    children[i] = 0xFFFF_FFFF;
                },
            }
            i = i + 1;
        }
        let flat = Self { children, data: node.serialise() };
        assert(flat@.children =~= flat_form(node@, order).children);
        flat
    }

    /// The node that this flat form stands for.  Its children are table
    /// positions: `to_node` does not look at the table.
    pub fn to_node(&self) -> (node: Node)
        ensures
            node@ == node_form(self@),
    {
        let mut children: [Option<usize>; 8] = [None;8];
        let mut i: usize = 0;
        while i < MAX_CHILDREN
            invariant
                i <= 8,
                forall|slot: int|
                    0 <= slot < i ==> slot_view(#[trigger] children@[slot]) == child_of_field(
                        self.children@[slot],
                    ),
                forall|slot: int| i <= slot < 8 ==> #[trigger] children@[slot] is None,
            decreases 8 - i,
        {
            let field: u32 = self.children[i] & NO_CHILD;
            proof {
                lemma_low_twelve(self.children@[i as int]);
            }
            if field != NO_CHILD {
                children[i] = Some(field as usize);
            }
            i = i + 1;
        }
        let mut node = match Node::deserialise(self.data) {
            Some(leaf) => leaf,
            None => Node::new_branch(),
        };
        node.children = children;
        assert(node@.children =~= node_form(self@).children);
        node
    }
}

/// A table position is the first one of its node in at most one way.
pub proof fn lemma_position_unique(order: Seq<int>, id: int, k: int)
    requires
        is_position(order, id, k),
    ensures
        position(order, id) == k,
{
    let p = position(order, id);
    assert(is_position(order, id, p));
    if p < k {
        assert(order[p] != id);
    }
    if k < p {
        assert(order[k] != id);
    }
}

} // verus!
