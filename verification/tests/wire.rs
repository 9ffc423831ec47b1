use voxel_octree::node::Node;
use voxel_octree::octree::Octree;
use voxel_octree::voxel::NodeDataType;
use voxel_octree::wire::DecodeError;

const EMPTY_BRANCH: u128 = 0xFF00_0000_FFFF_FFFF_FFFF_FFFF_FFFF_FFFF;

fn sample() -> (Octree, Vec<((i32, i32, i32), NodeDataType)>) {
    let mut tree = Octree::new();
    let mut voxels = Vec::new();
    let positions = [(0, 0, 0), (5, 5, 5), (-6, 2, 1), (3, -8, 7), (-1, -1, -1), (5, 5, 4)];
    let mut shade: u8 = 10;
    for position in positions {
        let data = NodeDataType::new(shade, 255 - shade, 7);
        tree.insert(position, data);
        voxels.push((position, data));
        shade += 30;
    }
    (tree, voxels)
}

fn payload_along(tree: &Octree, index: u64, depth: usize) -> Option<NodeDataType> {
    let mut node = tree.get_root();
    for level in (0..=depth).rev() {
        let slot = ((index >> (3 * level)) & 7) as usize;
        let child = node.get_children()[slot]?;
        node = tree.get_node(child)?;
    }
    node.get_data()
}

#[test]
fn empty_tree_is_one_sentinel_record() {
    let tree = Octree::new();
    assert_eq!(tree.serialise(), vec![EMPTY_BRANCH]);
    assert_eq!(tree.depth_first(), vec![EMPTY_BRANCH]);
    assert_eq!(tree.breadth_first(), vec![EMPTY_BRANCH]);
}

#[test]
fn sentinel_record_decodes_to_an_empty_tree() {
    let tree = Octree::deserialise(vec![EMPTY_BRANCH]);
    assert_eq!(tree.depth(), 0);
    let root = tree.get_root();
    assert_eq!(root.get_data(), None);
    assert!(!root.is_branch());
    assert!(tree.get_node(1).is_none());
}

#[test]
fn depth_first_takes_the_last_child_first() {
    let mut tree = Octree::new();
    tree.insert((-1, -1, -1), NodeDataType::new(1, 1, 1));
    tree.insert((0, 0, 0), NodeDataType::new(2, 2, 2));
    tree.insert((-1, 0, -1), NodeDataType::new(3, 3, 3));
    assert_eq!(
        tree.depth_first(),
        vec![
            0xFF00_0000_003_FFF_002_FFF_FFF_FFF_FFF_001,
            0xFF02_0202_FFFF_FFFF_FFFF_FFFF_FFFF_FFFF,
            0xFF03_0303_FFFF_FFFF_FFFF_FFFF_FFFF_FFFF,
            0xFF01_0101_FFFF_FFFF_FFFF_FFFF_FFFF_FFFF,
        ]
    );
    assert_eq!(tree.serialise(), tree.depth_first());
}

#[test]
fn breadth_first_takes_the_first_child_first() {
    let mut tree = Octree::new();
    tree.insert((-1, -1, -1), NodeDataType::new(1, 1, 1));
    tree.insert((0, 0, 0), NodeDataType::new(2, 2, 2));
    tree.insert((-1, 0, -1), NodeDataType::new(3, 3, 3));
    assert_eq!(
        tree.breadth_first(),
        vec![
            0xFF00_0000_001_FFF_002_FFF_FFF_FFF_FFF_003,
            0xFF01_0101_FFFF_FFFF_FFFF_FFFF_FFFF_FFFF,
            0xFF03_0303_FFFF_FFFF_FFFF_FFFF_FFFF_FFFF,
            0xFF02_0202_FFFF_FFFF_FFFF_FFFF_FFFF_FFFF,
        ]
    );
}

#[test]
fn depth_first_goes_down_before_it_goes_on() {
    let mut tree = Octree::new();
    tree.grow();
    tree.insert((1, 1, 1), NodeDataType::new(9, 9, 9));
    tree.insert((-2, -2, -2), NodeDataType::new(8, 8, 8));
    let table = tree.depth_first();
    assert_eq!(table.len(), 11);
    assert_eq!(table[0], 0xFF00_0000_009_008_007_006_005_004_003_001);
    assert_eq!(table[1], 0xFF00_0000_FFF_FFF_FFF_FFF_FFF_FFF_FFF_002);
    assert_eq!(table[2], 0xFF09_0909_FFFF_FFFF_FFFF_FFFF_FFFF_FFFF);
    assert_eq!(table[3], EMPTY_BRANCH);
    assert_eq!(table[9], 0xFF00_0000_00A_FFF_FFF_FFF_FFF_FFF_FFF_FFF);
    assert_eq!(table[10], 0xFF08_0808_FFFF_FFFF_FFFF_FFFF_FFFF_FFFF);
}

#[test]
fn unreachable_nodes_have_no_record() {
    let mut tree = Octree::new();
    tree.grow();
    tree.insert((1, 1, 1), NodeDataType::new(9, 9, 9));
    tree.insert((0, 0, 0), NodeDataType::new(5, 5, 5));
    tree.insert((-3, 0, 0), NodeDataType::new(6, 6, 6));
    let table = tree.serialise();
    let back = Octree::deserialise(table.clone());
    let mut rows = 0;
    while back.get_node(rows).is_some() {
        rows += 1;
    }
    assert_eq!(rows, table.len());
    assert_eq!(back.serialise(), table);
}

#[test]
fn round_trip_keeps_every_voxel() {
    let (tree, voxels) = sample();
    let table = tree.serialise();
    let back = Octree::try_deserialise(table.clone()).unwrap();
    assert_eq!(back.depth(), 0);
    for (position, data) in &voxels {
        assert_eq!(tree.get(*position), Some(*data));
        let index = tree.world_pos_to_node_index(*position);
        assert_eq!(payload_along(&back, index, tree.depth()), Some(*data));
    }
    let index = tree.world_pos_to_node_index((7, 7, 7));
    assert_eq!(tree.get((7, 7, 7)), None);
    assert_eq!(payload_along(&back, index, tree.depth()), None);
    assert_eq!(back.serialise(), table);
}

#[test]
fn round_trip_at_the_depth_of_the_tree() {
    let (tree, voxels) = sample();
    let back = Octree::deserialise(tree.serialise()).with_depth(tree.depth());
    assert_eq!(back.depth(), tree.depth());
    for (position, data) in &voxels {
        assert_eq!(back.get(*position), Some(*data));
    }
    for x in -8..8 {
        for y in -8..8 {
            for z in -8..8 {
                assert_eq!(back.get((x, y, z)), tree.get((x, y, z)));
            }
        }
    }
}

#[test]
fn round_trip_breadth_first() {
    let (tree, voxels) = sample();
    let table = tree.breadth_first();
    let back = Octree::try_deserialise(table.clone()).unwrap();
    for (position, data) in &voxels {
        let index = tree.world_pos_to_node_index(*position);
        assert_eq!(payload_along(&back, index, tree.depth()), Some(*data));
    }
    assert_eq!(back.breadth_first(), table);
}

#[test]
fn round_trip_loses_a_black_payload() {
    let mut tree = Octree::new();
    tree.insert((0, 0, 0), NodeDataType::new(0, 0, 0));
    assert_eq!(tree.get((0, 0, 0)), Some(NodeDataType::new(0, 0, 0)));
    let back = Octree::try_deserialise(tree.serialise()).unwrap();
    assert_eq!(back.get((0, 0, 0)), None);
}

#[test]
fn decoded_depth_is_zero() {
    let mut tree = Octree::new();
    tree.insert((100, 0, 0), NodeDataType::new(1, 2, 3));
    assert_eq!(tree.depth(), 7);
    let back = Octree::deserialise(tree.serialise());
    assert_eq!(back.depth(), 0);
}

#[test]
fn empty_table_is_refused() {
    assert_eq!(Octree::try_deserialise(Vec::new()).err(), Some(DecodeError::EmptyTable));
    assert_eq!(Octree::validate(&Vec::new()), Err(DecodeError::EmptyTable));
}

#[test]
fn child_outside_the_table_is_refused() {
    let table = vec![0xFF00_0000_FFF_FFF_FFF_FFF_FFF_FFF_FFF_001];
    assert_eq!(Octree::try_deserialise(table).err(), Some(DecodeError::ChildOutOfRange));
    let table = vec![
        0xFF00_0000_001_FFF_FFF_FFF_FFF_FFF_FFF_FFF,
        0xFF00_0000_FFF_FFF_FFF_002_FFF_FFF_FFF_FFF,
    ];
    assert_eq!(Octree::try_deserialise(table).err(), Some(DecodeError::ChildOutOfRange));
}

#[test]
fn row_named_twice_is_refused() {
    let table = vec![0xFF00_0000_001_001_FFF_FFF_FFF_FFF_FFF_FFF, EMPTY_BRANCH];
    assert_eq!(Octree::try_deserialise(table).err(), Some(DecodeError::SharedChild));
    let table = vec![
        0xFF00_0000_001_002_FFF_FFF_FFF_FFF_FFF_FFF,
        0xFF00_0000_FFF_FFF_FFF_FFF_FFF_FFF_FFF_002,
        EMPTY_BRANCH,
    ];
    assert_eq!(Octree::try_deserialise(table).err(), Some(DecodeError::SharedChild));
}

#[test]
fn root_named_as_child_is_refused() {
    let table = vec![0xFF00_0000_FFF_FFF_FFF_FFF_FFF_FFF_FFF_000];
    assert_eq!(Octree::try_deserialise(table).err(), Some(DecodeError::SharedChild));
    let table = vec![0xFF00_0000_001_FFF_FFF_FFF_FFF_FFF_FFF_FFF, 0xFF00_0000_FFF_000_FFF_FFF_FFF_FFF_FFF_FFF];
    assert_eq!(Octree::try_deserialise(table).err(), Some(DecodeError::SharedChild));
}

#[test]
fn out_of_range_is_reported_before_sharing() {
    let table = vec![0xFF00_0000_001_001_FFF_FFF_FFF_FFF_FFF_005, EMPTY_BRANCH];
    assert_eq!(Octree::try_deserialise(table).err(), Some(DecodeError::ChildOutOfRange));
}

#[test]
fn rows_that_nothing_names_are_accepted() {
    let table = vec![
        0xFF00_0000_FFF_FFF_FFF_FFF_FFF_FFF_FFF_002,
        0xFF11_2233_FFFF_FFFF_FFFF_FFFF_FFFF_FFFF,
        0xFF44_5566_FFFF_FFFF_FFFF_FFFF_FFFF_FFFF,
    ];
    let tree = Octree::try_deserialise(table).unwrap();
    assert_eq!(tree.get((0, 0, 0)), Some(NodeDataType::new(0x44, 0x55, 0x66)));
    assert_eq!(
        tree.serialise(),
        vec![
            0xFF00_0000_FFF_FFF_FFF_FFF_FFF_FFF_FFF_001,
            0xFF44_5566_FFFF_FFFF_FFFF_FFFF_FFFF_FFFF,
        ]
    );
}

#[test]
fn with_root_takes_a_list_of_nodes() {
    let mut root = Node::new_branch();
    root.children[7] = Some(1);
    let nodes = vec![root, Node::new_leaf(NodeDataType::new(255, 0, 0))];
    assert_eq!(Octree::validate(&nodes), Ok(()));
    let tree = Octree::with_root(nodes);
    assert_eq!(tree.depth(), 0);
    assert_eq!(tree.get((0, 0, 0)), Some(NodeDataType::new(255, 0, 0)));
    assert_eq!(tree.get_root().get_children()[7], Some(1));
}

#[test]
fn decode_reads_rows_in_order() {
    let nodes = Octree::decode(&vec![
        0xFF00_0000_FFF_FFF_FFF_FFF_FFF_FFF_FFF_001,
        0xFFFF_0000_FFFF_FFFF_FFFF_FFFF_FFFF_FFFF,
    ]);
    assert_eq!(nodes.len(), 2);
    assert_eq!(nodes[0].get_children()[7], Some(1));
    assert_eq!(nodes[0].get_data(), None);
    assert_eq!(nodes[1].get_data(), Some(NodeDataType::new(255, 0, 0)));
}

#[test]
fn discover_lists_the_nodes_in_table_order() {
    let mut tree = Octree::new();
    tree.insert((-1, -1, -1), NodeDataType::new(1, 1, 1));
    tree.insert((0, 0, 0), NodeDataType::new(2, 2, 2));
    tree.insert((-1, 0, -1), NodeDataType::new(3, 3, 3));
    assert_eq!(tree.discover(false), vec![0, 2, 3, 1]);
    assert_eq!(tree.discover(true), vec![0, 1, 3, 2]);
    assert_eq!(Octree::new().discover(false), vec![0]);
}
