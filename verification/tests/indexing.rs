use voxel_octree::indexing::MAX_DEPTH;
use voxel_octree::octree::Octree;

#[test]
fn interleave_two_spreads_bits() {
    assert_eq!(Octree::interleave_two(0), 0);
    assert_eq!(Octree::interleave_two(1), 1);
    assert_eq!(Octree::interleave_two(0b10), 0b1000);
    assert_eq!(Octree::interleave_two(0b11), 0b1001);
    assert_eq!(Octree::interleave_two(0b101), 0b100_0001);
    assert_eq!(Octree::interleave_two(0x3F_FFFF), 0x9249_2492_4924_9249);
    assert_eq!(Octree::interleave_two(1 << 21), 1 << 63);
}

#[test]
fn interleave_two_drops_bits_above_the_low_22() {
    assert_eq!(Octree::interleave_two(1 << 22), 0);
    assert_eq!(Octree::interleave_two(0xFFFF_FFFF), 0x9249_2492_4924_9249);
}

#[test]
fn interleave_three_merges_axes() {
    assert_eq!(Octree::interleave_three((1, 0, 0)), 0b100);
    assert_eq!(Octree::interleave_three((0, 1, 0)), 0b010);
    assert_eq!(Octree::interleave_three((0, 0, 1)), 0b001);
    assert_eq!(Octree::interleave_three((3, 3, 3)), 0b111_111);
    assert_eq!(Octree::interleave_three((2, 0, 1)), 0b100_001);
    assert_eq!(Octree::interleave_three((5, 6, 3)), 0b110_011_101);
}

#[test]
fn index_of_position_at_depth_zero() {
    let tree = Octree::new();
    assert_eq!(tree.world_pos_to_node_index((0, 0, 0)), 7);
    assert_eq!(tree.world_pos_to_node_index((-1, -1, -1)), 0);
    assert_eq!(tree.world_pos_to_node_index((0, -1, -1)), 4);
    assert_eq!(tree.world_pos_to_node_index((-1, 0, -1)), 2);
    assert_eq!(tree.world_pos_to_node_index((-1, -1, 0)), 1);
    assert_eq!(tree.normalise_pos((0, -1, 0)), (1, 0, 1));
}

#[test]
fn index_of_position_after_growth() {
    let mut tree = Octree::new();
    tree.grow();
    tree.grow();
    tree.grow();
    assert_eq!(tree.depth(), 3);
    assert_eq!(tree.normalise_pos((5, 5, 5)), (13, 13, 13));
    assert_eq!(tree.world_pos_to_node_index((5, 5, 5)), 0b111_111_000_111);
    assert_eq!(tree.world_pos_to_node_index((0, 0, 0)), 0b111_000_000_000);
    assert_eq!(tree.world_pos_to_node_index((-8, -8, -8)), 0);
    assert_eq!(tree.world_pos_to_node_index((7, 7, 7)), 0b111_111_111_111);
}

#[test]
fn index_is_injective_over_the_cube() {
    let mut tree = Octree::new();
    tree.grow();
    tree.grow();
    let mut seen = vec![false; 512];
    for x in -4..4 {
        for y in -4..4 {
            for z in -4..4 {
                let index = tree.world_pos_to_node_index((x, y, z)) as usize;
                assert!(index < 512);
                assert!(!seen[index]);
                seen[index] = true;
            }
        }
    }
}

#[test]
fn bounds_at_depth_zero() {
    let tree = Octree::new();
    assert!(!tree.is_pos_outside_bounds((0, 0, 0)));
    assert!(!tree.is_pos_outside_bounds((-1, -1, -1)));
    assert!(!tree.is_pos_outside_bounds((0, -1, 0)));
    assert!(tree.is_pos_outside_bounds((1, 0, 0)));
    assert!(tree.is_pos_outside_bounds((0, -2, 0)));
    assert!(tree.is_pos_outside_bounds((0, 0, 1)));
    assert!(tree.is_pos_outside_bounds((i32::MIN, 0, 0)));
    assert!(tree.is_pos_outside_bounds((0, i32::MAX, 0)));
}

#[test]
fn bounds_grow_with_depth() {
    let mut tree = Octree::new();
    tree.grow();
    tree.grow();
    assert!(!tree.is_pos_outside_bounds((3, -4, 0)));
    assert!(tree.is_pos_outside_bounds((4, 0, 0)));
    assert!(tree.is_pos_outside_bounds((0, 0, -5)));
}

#[test]
fn deepest_tree_addresses_twenty_one_levels() {
    assert_eq!(MAX_DEPTH, 20);
    let mut tree = Octree::new();
    tree.insert((-(1 << 20), (1 << 20) - 1, 0), voxel_octree::voxel::NodeDataType::new(1, 2, 3));
    assert_eq!(tree.depth(), 20);
    assert_eq!(
        tree.get((-(1 << 20), (1 << 20) - 1, 0)),
        Some(voxel_octree::voxel::NodeDataType::new(1, 2, 3))
    );
    assert_eq!(tree.get((-(1 << 20), (1 << 20) - 1, 1)), None);
}
