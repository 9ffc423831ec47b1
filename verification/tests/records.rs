use voxel_octree::node::Node;
use voxel_octree::serialise::{SerialNode, NO_CHILD};
use voxel_octree::voxel::NodeDataType;

const EMPTY_BRANCH: u128 = 0xFF00_0000_FFFF_FFFF_FFFF_FFFF_FFFF_FFFF;

#[test]
fn empty_branch_record_holds_the_sentinels() {
    let word = SerialNode::new_branch().serialise();
    assert_eq!(word, EMPTY_BRANCH);
    assert_eq!((word >> 96) as u32, 0xFF00_0000);
    for slot in 0..8 {
        assert_eq!(((word >> (12 * (7 - slot))) & 0xFFF) as u32, NO_CHILD);
    }
}

#[test]
fn empty_branch_record_decodes_to_an_empty_branch() {
    let node = SerialNode::deserialise(EMPTY_BRANCH).to_node();
    assert_eq!(node.get_data(), None);
    assert_eq!(node.get_children(), [None; 8]);
    assert!(!node.is_branch());
}

#[test]
fn leaf_record() {
    let word = SerialNode::new_leaf(NodeDataType::new(255, 0, 0)).serialise();
    assert_eq!(word, 0xFFFF_0000_FFFF_FFFF_FFFF_FFFF_FFFF_FFFF);
    let node = SerialNode::deserialise(word).to_node();
    assert_eq!(node.get_data(), Some(NodeDataType::new(255, 0, 0)));
    assert_eq!(node.get_children(), [None; 8]);
}

#[test]
fn child_fields_lie_slot_zero_first() {
    let mut node = Node::new_branch();
    node.children[0] = Some(10);
    node.children[7] = Some(30);
    let map = vec![99, 10, 20, 30];
    let word = SerialNode::from_node(&node, &map).serialise();
    assert_eq!(word, 0xFF00_0000_001F_FFFF_FFFF_FFFF_FFFF_F003);
}

#[test]
fn from_node_takes_the_first_position() {
    let mut node = Node::new_leaf(NodeDataType::new(1, 2, 3));
    node.children[3] = Some(5);
    let map = vec![7, 5, 6, 5];
    let word = SerialNode::from_node(&node, &map).serialise();
    assert_eq!((word >> 96) as u32, 0xFF01_0203);
    assert_eq!(((word >> (12 * 4)) & 0xFFF) as u32, 1);
    let back = SerialNode::deserialise(word).to_node();
    assert_eq!(back.get_data(), Some(NodeDataType::new(1, 2, 3)));
    assert_eq!(
        back.get_children(),
        [None, None, None, Some(1), None, None, None, None]
    );
}

#[test]
fn record_splits_into_fields() {
    let word: u128 = 0xFFAA_BBCC_001_002_003_004_005_006_007_008;
    let node = SerialNode::deserialise(word).to_node();
    assert_eq!(node.get_data(), Some(NodeDataType::new(0xAA, 0xBB, 0xCC)));
    assert_eq!(
        node.get_children(),
        [Some(1), Some(2), Some(3), Some(4), Some(5), Some(6), Some(7), Some(8)]
    );
    assert_eq!(SerialNode::deserialise(word).serialise(), word);
}

#[test]
fn payload_field_without_top_bit_is_no_payload() {
    let word: u128 = 0x7FFF_FFFF_000_FFF_FFF_FFF_FFF_FFF_FFF_FFF;
    let flat = SerialNode::deserialise(word);
    assert_eq!(
        flat.serialise(),
        0xFF00_0000_000_FFF_FFF_FFF_FFF_FFF_FFF_FFF
    );
    let node = flat.to_node();
    assert_eq!(node.get_data(), None);
    assert_eq!(
        node.get_children(),
        [Some(0), None, None, None, None, None, None, None]
    );
}

#[test]
fn black_payload_reads_as_no_payload() {
    let black = NodeDataType::new(0, 0, 0);
    let word = SerialNode::new_leaf(black).serialise();
    assert_eq!(word, EMPTY_BRANCH);
    assert_eq!(SerialNode::deserialise(word).to_node().get_data(), None);
}

#[test]
fn child_value_keeps_twelve_bits() {
    let mut node = Node::new_branch();
    node.children[1] = Some(4);
    let mut map = vec![0usize; 0x1001];
    map.push(4);
    let word = SerialNode::from_node(&node, &map).serialise();
    assert_eq!(((word >> (12 * 6)) & 0xFFF) as u32, 1);
}

#[test]
fn default_flat_node_is_the_empty_branch() {
    assert_eq!(SerialNode::default().serialise(), EMPTY_BRANCH);
}
