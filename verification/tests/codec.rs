use voxel_octree::codec::{decode_records, encode_records, RECORD_BYTES};
use voxel_octree::octree::Octree;
use voxel_octree::voxel::NodeDataType;
use voxel_octree::wire::DecodeError;

#[test]
fn buffer_holds_four_limbs_lowest_first() {
    let serial = vec![0x0011_2233_4455_6677_8899_AABB_CCDD_EEFFu128, 1];
    assert_eq!(
        Octree::serialised_to_buffer(serial),
        vec![0xCCDD_EEFF, 0x8899_AABB, 0x4455_6677, 0x0011_2233, 1, 0, 0, 0]
    );
    assert_eq!(Octree::serialised_to_buffer(Vec::new()), Vec::<u32>::new());
}

#[test]
fn record_is_twelve_bytes_lowest_first() {
    assert_eq!(RECORD_BYTES, 12);
    let serial = vec![0x0011_2233_4455_6677_8899_AABB_CCDD_EEFFu128];
    assert_eq!(
        encode_records(&serial),
        vec![0xFF, 0xEE, 0xDD, 0xCC, 0xBB, 0xAA, 0x99, 0x88, 0x77, 0x66, 0x55, 0x44]
    );
    assert_eq!(encode_records(&Vec::new()), Vec::<u8>::new());
}

#[test]
fn records_follow_each_other_without_header() {
    let bytes = encode_records(&vec![1, 2 << 88]);
    assert_eq!(bytes.len(), 24);
    assert_eq!(bytes[0], 1);
    assert_eq!(bytes[23], 2);
    assert_eq!(bytes[1..23], [0u8; 22]);
}

#[test]
fn bytes_give_the_low_96_bits_back() {
    let bytes = vec![0xFF, 0xEE, 0xDD, 0xCC, 0xBB, 0xAA, 0x99, 0x88, 0x77, 0x66, 0x55, 0x44];
    assert_eq!(decode_records(&bytes), vec![0x4455_6677_8899_AABB_CCDD_EEFFu128]);
    let serial = vec![0xFFFF_0000_001_002_003_004_005_006_007_008u128, u128::MAX];
    assert_eq!(
        decode_records(&encode_records(&serial)),
        vec![0x001_002_003_004_005_006_007_008u128, 0xFFFF_FFFF_FFFF_FFFF_FFFF_FFFF]
    );
}

#[test]
fn trailing_bytes_are_dropped() {
    let mut bytes = vec![7u8; 12];
    bytes.extend_from_slice(&[1, 2, 3, 4, 5]);
    assert_eq!(decode_records(&bytes), vec![0x0707_0707_0707_0707_0707_0707u128]);
    assert_eq!(decode_records(&vec![1u8; 11]), Vec::<u128>::new());
}

#[test]
fn tree_to_bytes() {
    let mut tree = Octree::new();
    tree.insert((0, 0, 0), NodeDataType::new(255, 0, 0));
    let bytes = tree.to_bytes();
    let mut expected = vec![0x01, 0xF0, 0xFF, 0xFF, 0xFF, 0xFF, 0xFF, 0xFF, 0xFF, 0xFF, 0xFF, 0xFF];
    expected.extend_from_slice(&[0xFF; 12]);
    assert_eq!(bytes, expected);
}

#[test]
fn tree_from_bytes_keeps_the_shape_and_no_payload() {
    let mut tree = Octree::new();
    tree.insert((0, 0, 0), NodeDataType::new(255, 0, 0));
    tree.insert((-1, 0, 0), NodeDataType::new(0, 255, 0));
    let back = Octree::from_bytes(&tree.to_bytes()).unwrap();
    assert_eq!(back.depth(), 0);
    let root = back.get_root();
    assert!(root.get_children()[7].is_some());
    assert!(root.get_children()[3].is_some());
    assert!(root.get_children()[0].is_none());
    assert_eq!(back.get((0, 0, 0)), None);
    assert_eq!(back.get((-1, 0, 0)), None);
}

#[test]
fn bytes_of_no_tree_are_refused() {
    assert_eq!(Octree::from_bytes(&Vec::new()).err(), Some(DecodeError::EmptyTable));
    assert_eq!(Octree::from_bytes(&vec![0u8; 11]).err(), Some(DecodeError::EmptyTable));
    let mut dangling = vec![0xFFu8; 12];
    dangling[0] = 0x05;
    dangling[1] = 0xF0;
    assert_eq!(Octree::from_bytes(&dangling).err(), Some(DecodeError::ChildOutOfRange));
    let zeros = vec![0u8; 12];
    assert_eq!(Octree::from_bytes(&zeros).err(), Some(DecodeError::SharedChild));
}
