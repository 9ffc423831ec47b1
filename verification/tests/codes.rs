use voxel_octree::codes::{ShapeType, UnionType};

#[test]
fn shape_kinds_have_their_numbers() {
    assert_eq!(u32::from(ShapeType::Empty), 0);
    assert_eq!(u32::from(ShapeType::Sphere), 1);
    assert_eq!(u32::from(ShapeType::Cube), 2);
    assert_eq!(u32::from(ShapeType::Plane), 3);
}

#[test]
fn numbers_give_their_shape_kinds() {
    assert_eq!(ShapeType::from(0), ShapeType::Empty);
    assert_eq!(ShapeType::from(1), ShapeType::Sphere);
    assert_eq!(ShapeType::from(2), ShapeType::Cube);
    assert_eq!(ShapeType::from(3), ShapeType::Plane);
    assert_eq!(ShapeType::from(4), ShapeType::Empty);
    assert_eq!(ShapeType::from(u32::MAX), ShapeType::Empty);
    assert_eq!(ShapeType::default(), ShapeType::Empty);
}

#[test]
fn union_kinds_have_their_numbers() {
    assert_eq!(u32::from(UnionType::MinAll), 0);
    assert_eq!(u32::from(UnionType::MaxAll), 1);
    assert_eq!(u32::from(UnionType::Max1), 2);
    assert_eq!(u32::from(UnionType::Max2), 3);
    assert_eq!(u32::from(UnionType::Max3), 4);
    assert_eq!(u32::from(UnionType::Max4), 5);
}

#[test]
fn numbers_give_their_union_kinds() {
    assert_eq!(UnionType::from(0), UnionType::MinAll);
    assert_eq!(UnionType::from(1), UnionType::MaxAll);
    assert_eq!(UnionType::from(2), UnionType::Max1);
    assert_eq!(UnionType::from(3), UnionType::Max2);
    assert_eq!(UnionType::from(4), UnionType::Max3);
    assert_eq!(UnionType::from(5), UnionType::Max4);
    assert_eq!(UnionType::from(6), UnionType::MinAll);
    assert_eq!(UnionType::default(), UnionType::MinAll);
}

#[test]
fn kinds_come_back_from_their_numbers() {
    for kind in [ShapeType::Empty, ShapeType::Sphere, ShapeType::Cube, ShapeType::Plane] {
        assert_eq!(ShapeType::from(u32::from(kind)), kind);
    }
    for kind in [
        UnionType::MinAll,
        UnionType::MaxAll,
        UnionType::Max1,
        UnionType::Max2,
        UnionType::Max3,
        UnionType::Max4,
    ] {
        assert_eq!(UnionType::from(u32::from(kind)), kind);
    }
}
