use voxel_octree::node::Node;
use voxel_octree::octree::Octree;
use voxel_octree::voxel::NodeDataType;

fn red() -> NodeDataType {
    NodeDataType::new(255, 0, 0)
}

fn blue() -> NodeDataType {
    NodeDataType::new(0, 0, 255)
}

fn green() -> NodeDataType {
    NodeDataType::new(0, 255, 0)
}

fn node_along(tree: &Octree, path: &[usize]) -> Option<Node> {
    let mut node = tree.get_root();
    for slot in path {
        let child = node.get_children()[*slot]?;
        node = tree.get_node(child)?;
    }
    Some(node)
}

#[test]
fn new_tree_is_one_empty_root() {
    let tree = Octree::new();
    assert_eq!(tree.depth(), 0);
    let root = tree.get_root();
    assert_eq!(root.get_data(), None);
    assert!(!root.is_branch());
    assert!(tree.get_node(0).is_some());
    assert!(tree.get_node(1).is_none());
    assert_eq!(tree.get((0, 0, 0)), None);
    assert_eq!(tree.get((-1, -1, -1)), None);
}

#[test]
fn insert_in_bounds_does_not_grow() {
    let mut tree = Octree::new();
    tree.insert((0, 0, 0), red());
    assert_eq!(tree.depth(), 0);
    assert_eq!(tree.get((0, 0, 0)), Some(red()));
    assert_eq!(tree.get((-1, 0, 0)), None);
    let leaf = node_along(&tree, &[7]).unwrap();
    assert_eq!(leaf.get_data(), Some(red()));
    assert!(!leaf.is_branch());
    assert_eq!(tree.get_root().get_data(), None);
}

#[test]
fn insert_past_the_boundary_grows_once() {
    let mut tree = Octree::new();
    tree.insert((1, 0, 0), red());
    assert_eq!(tree.depth(), 1);
    assert_eq!(tree.get((1, 0, 0)), Some(red()));
}

#[test]
fn insert_far_away_grows_until_in_bounds() {
    let mut tree = Octree::new();
    tree.insert((0, -9, 0), red());
    assert_eq!(tree.depth(), 4);
    assert_eq!(tree.get((0, -9, 0)), Some(red()));
    let mut other = Octree::new();
    other.insert((0, -8, 0), red());
    assert_eq!(other.depth(), 3);
}

#[test]
fn end_to_end() {
    let mut tree = Octree::new();
    tree.insert((0, 0, 0), red());
    let table = tree.serialise();
    assert_eq!(
        table,
        vec![
            0xFF00_0000_FFFF_FFFF_FFFF_FFFF_FFFF_F001,
            0xFFFF_0000_FFFF_FFFF_FFFF_FFFF_FFFF_FFFF,
        ]
    );
    tree.insert((5, 5, 5), blue());
    assert!(tree.depth() >= 2);
    assert_eq!(tree.depth(), 3);
    assert_eq!(tree.get((0, 0, 0)), Some(red()));
    assert_eq!(tree.get((5, 5, 5)), Some(blue()));
    let index = tree.world_pos_to_node_index((0, 0, 0));
    let handle = tree.traverse(index);
    assert_eq!(tree.get_node(handle).unwrap().get_data(), Some(red()));
    let index = tree.world_pos_to_node_index((5, 5, 5));
    let handle = tree.traverse(index);
    assert_eq!(tree.get_node(handle).unwrap().get_data(), Some(blue()));
}

#[test]
fn growth_preserves_content() {
    let mut tree = Octree::new();
    tree.insert((0, 0, 0), red());
    tree.insert((-1, -1, -1), blue());
    tree.insert((0, -1, 0), green());
    tree.grow();
    assert_eq!(tree.depth(), 1);
    assert_eq!(tree.get((0, 0, 0)), Some(red()));
    assert_eq!(tree.get((-1, -1, -1)), Some(blue()));
    assert_eq!(tree.get((0, -1, 0)), Some(green()));
    assert_eq!(tree.get((-1, 0, 0)), None);
    tree.grow();
    assert_eq!(tree.depth(), 2);
    assert_eq!(tree.get((0, 0, 0)), Some(red()));
    assert_eq!(tree.get((-1, -1, -1)), Some(blue()));
    assert_eq!(tree.get((0, -1, 0)), Some(green()));
}

#[test]
fn growth_moves_children_to_the_opposite_slot() {
    let mut tree = Octree::new();
    tree.insert((0, 0, 0), red());
    tree.insert((-1, -1, -1), blue());
    tree.grow();
    let root = tree.get_root();
    assert_eq!(root.get_data(), None);
    for slot in 0..8 {
        assert!(root.get_children()[slot].is_some());
    }
    let wrapper = node_along(&tree, &[7]).unwrap();
    assert_eq!(wrapper.get_data(), Some(red()));
    assert_eq!(node_along(&tree, &[7, 0]).unwrap().get_data(), Some(red()));
    for slot in 1..8 {
        assert!(wrapper.get_children()[slot].is_none());
    }
    let wrapper = node_along(&tree, &[0]).unwrap();
    assert_eq!(wrapper.get_data(), Some(blue()));
    assert_eq!(node_along(&tree, &[0, 7]).unwrap().get_data(), Some(blue()));
    let empty = node_along(&tree, &[3]).unwrap();
    assert_eq!(empty.get_data(), None);
    assert!(!empty.is_branch());
}

#[test]
fn growing_an_empty_tree_gives_eight_empty_branches() {
    let mut tree = Octree::new();
    tree.grow();
    assert_eq!(tree.depth(), 1);
    for slot in 0..8 {
        let child = node_along(&tree, &[slot]).unwrap();
        assert_eq!(child.get_data(), None);
        assert!(!child.is_branch());
    }
}

#[test]
fn insert_keeps_other_voxels() {
    let mut tree = Octree::new();
    let mut expected = Vec::new();
    let mut colour: u8 = 1;
    for x in -3..3 {
        for y in [-7, 0, 6] {
            for z in [-1, 2] {
                let data = NodeDataType::new(colour, colour.wrapping_mul(3), 200);
                tree.insert((x, y, z), data);
                expected.push(((x, y, z), data));
                colour = colour.wrapping_add(1);
                for (position, payload) in &expected {
                    assert_eq!(tree.get(*position), Some(*payload));
                }
            }
        }
    }
    assert_eq!(tree.depth(), 3);
}

#[test]
fn insert_overwrites_the_same_position() {
    let mut tree = Octree::new();
    tree.insert((2, 1, -3), red());
    tree.insert((2, 1, -3), blue());
    assert_eq!(tree.get((2, 1, -3)), Some(blue()));
    assert_eq!(tree.depth(), 2);
}

#[test]
fn get_outside_the_cube_is_none() {
    let mut tree = Octree::new();
    tree.insert((0, 0, 0), red());
    assert_eq!(tree.get((1, 0, 0)), None);
    assert_eq!(tree.get((0, 0, -2)), None);
    assert_eq!(tree.get((i32::MAX, i32::MIN, 0)), None);
}

#[test]
fn traverse_populates_the_path() {
    let mut tree = Octree::new();
    tree.grow();
    let handle = tree.traverse(0b011_101);
    let root = tree.get_root();
    let first = root.get_children()[3].unwrap();
    let second = tree.get_node(first).unwrap().get_children()[5].unwrap();
    assert_eq!(handle, second);
    let reached = tree.get_node(handle).unwrap();
    assert_eq!(reached.get_data(), None);
    assert!(!reached.is_branch());
    assert_eq!(tree.traverse(0b011_101), handle);
}

#[test]
fn traverse_reads_only_the_groups_of_the_depth() {
    let mut tree = Octree::new();
    let handle = tree.traverse(0b110_010);
    assert_eq!(tree.get_root().get_children()[2], Some(handle));
    assert!(tree.get_root().get_children()[6].is_none());
}

#[test]
fn a_leaf_on_the_way_hands_its_payload_to_eight_leaves() {
    let mut tree = Octree::new();
    tree.insert((0, 0, 0), red());
    tree.grow();
    assert_eq!(tree.get((1, 1, 0)), None);
    tree.insert((1, 1, 1), blue());
    assert_eq!(tree.depth(), 1);
    assert_eq!(tree.get((1, 1, 1)), Some(blue()));
    assert_eq!(tree.get((0, 0, 0)), Some(red()));
    assert_eq!(tree.get((1, 1, 0)), Some(red()));
    assert_eq!(tree.get((0, 1, 0)), Some(red()));
    let parent = node_along(&tree, &[7]).unwrap();
    assert_eq!(parent.get_data(), None);
    for slot in 0..8 {
        assert!(parent.get_children()[slot].is_some());
    }
    assert_eq!(tree.get((-1, -1, -1)), None);
}

#[test]
fn a_branch_on_the_way_gets_one_new_child() {
    let mut tree = Octree::new();
    tree.grow();
    tree.insert((1, 1, 1), blue());
    let parent = node_along(&tree, &[7]).unwrap();
    assert_eq!(parent.get_data(), None);
    for slot in 0..7 {
        assert!(parent.get_children()[slot].is_none());
    }
    assert_eq!(node_along(&tree, &[7, 7]).unwrap().get_data(), Some(blue()));
}

#[test]
fn default_tree_is_the_new_tree() {
    let tree = Octree::default();
    assert_eq!(tree.depth(), 0);
    assert_eq!(tree.serialise(), Octree::new().serialise());
    let node = Node::default();
    assert_eq!(node.get_data(), None);
    assert!(!node.is_branch());
}

#[test]
fn addressable_positions_lie_in_the_deepest_cube() {
    assert!(Octree::is_addressable((0, 0, 0)));
    assert!(Octree::is_addressable((-(1 << 20), (1 << 20) - 1, 5)));
    assert!(!Octree::is_addressable((1 << 20, 0, 0)));
    assert!(!Octree::is_addressable((0, -(1 << 20) - 1, 0)));
    assert!(!Octree::is_addressable((0, 0, i32::MAX)));
}

#[test]
fn try_insert_leaves_the_tree_where_it_cannot_store() {
    let mut tree = Octree::new();
    assert!(tree.try_insert((3, 3, 3), red()));
    let before = tree.serialise();
    assert!(!tree.try_insert((1 << 20, 0, 0), blue()));
    assert_eq!(tree.depth(), 2);
    assert_eq!(tree.serialise(), before);
    assert_eq!(tree.get((3, 3, 3)), Some(red()));
}
