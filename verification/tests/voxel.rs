use voxel_octree::node::{Node, MAX_CHILDREN, NO_PAYLOAD};
use voxel_octree::voxel::NodeDataType;

#[test]
fn payload_packs_tag_and_channels() {
    assert_eq!(NodeDataType::new(255, 0, 0).serialise(), 0xFFFF_0000);
    assert_eq!(NodeDataType::new(0, 255, 0).serialise(), 0xFF00_FF00);
    assert_eq!(NodeDataType::new(0, 0, 255).serialise(), 0xFF00_00FF);
    assert_eq!(NodeDataType::new(0x12, 0x34, 0x56).serialise(), 0xFF12_3456);
    assert_eq!(NodeDataType::new(0, 0, 0).serialise(), 0xFF00_0000);
}

#[test]
fn payload_unpacks_channels() {
    assert_eq!(
        NodeDataType::deserialise(0xFF10_2030),
        Some(NodeDataType::new(0x10, 0x20, 0x30))
    );
    assert_eq!(
        NodeDataType::deserialise(0x0100_0000),
        Some(NodeDataType::new(0, 0, 0))
    );
    assert_eq!(
        NodeDataType::deserialise(0x80FF_FFFF),
        Some(NodeDataType::new(255, 255, 255))
    );
}

#[test]
fn zero_tag_means_no_payload() {
    assert_eq!(NodeDataType::deserialise(0x0012_3456), None);
    assert_eq!(NodeDataType::deserialise(0x00FF_FFFF), None);
    assert_eq!(NodeDataType::deserialise(0), None);
}

#[test]
fn payload_round_trip() {
    let samples = [(0u8, 0u8, 0u8), (255, 255, 255), (1, 2, 3), (200, 100, 50), (0, 0, 1)];
    for (red, green, blue) in samples {
        let data = NodeDataType::new(red, green, blue);
        assert_eq!(NodeDataType::deserialise(data.serialise()), Some(data));
    }
}

#[test]
fn new_branch_is_empty() {
    let node = Node::new_branch();
    assert_eq!(node.get_data(), None);
    assert_eq!(node.get_children(), [None; MAX_CHILDREN]);
    assert!(!node.is_branch());
}

#[test]
fn new_leaf_carries_data() {
    let red = NodeDataType::new(255, 0, 0);
    let node = Node::new_leaf(red);
    assert_eq!(node.get_data(), Some(red));
    assert_eq!(node.get_children(), [None; MAX_CHILDREN]);
    assert!(!node.is_branch());
}

#[test]
fn is_branch_sees_any_child() {
    for slot in 0..MAX_CHILDREN {
        let mut node = Node::new_branch();
        node.children[slot] = Some(3);
        assert!(node.is_branch());
    }
    let mut full = Node::new_leaf(NodeDataType::new(1, 1, 1));
    full.children = [Some(1), Some(2), Some(3), Some(4), Some(5), Some(6), Some(7), Some(8)];
    assert!(full.is_branch());
}

#[test]
fn node_payload_field() {
    assert_eq!(NO_PAYLOAD, 0xFF00_0000);
    assert_eq!(Node::new_branch().serialise(), 0xFF00_0000);
    assert_eq!(Node::new_leaf(NodeDataType::new(255, 0, 0)).serialise(), 0xFFFF_0000);
    let mut with_child = Node::new_branch();
    with_child.children[2] = Some(9);
    assert_eq!(with_child.serialise(), 0xFF00_0000);
}

#[test]
fn node_from_payload_field() {
    let leaf = Node::deserialise(0xFFFF_0000).unwrap();
    assert_eq!(leaf.get_data(), Some(NodeDataType::new(255, 0, 0)));
    assert!(!leaf.is_branch());
    assert!(Node::deserialise(0xFF00_0000).is_none());
    assert!(Node::deserialise(0x0012_3456).is_none());
    assert!(Node::deserialise(0).is_none());
}
