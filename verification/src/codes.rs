use vstd::prelude::*;
use vstd::std_specs::convert::FromSpecImpl;

verus! {

/// The kind of a shape in a scene.
#[derive(Debug, Copy, Clone, PartialEq, Eq, Structural)]
pub enum ShapeType {
    Empty,
    Sphere,
    Cube,
    Plane,
}

/// How the distances to the shapes of a scene are joined.
#[derive(Debug, Copy, Clone, PartialEq, Eq, Structural)]
pub enum UnionType {
    MinAll,
    MaxAll,
    Max1,
    Max2,
    Max3,
    Max4,
}

/// The number that stands for a kind of shape.
pub open spec fn shape_code(kind: ShapeType) -> u32 {
    match kind {
        ShapeType::Empty => 0,
        ShapeType::Sphere => 1,
        ShapeType::Cube => 2,
        ShapeType::Plane => 3,
    }
}

/// The kind of shape that a number stands for; a number that stands for
/// none is read as `ShapeType::Empty`.
pub open spec fn shape_of_code(code: u32) -> ShapeType {
    if code == 1 {
        ShapeType::Sphere
    } else if code == 2 {
        ShapeType::Cube
    } else if code == 3 {
        ShapeType::Plane
    } else {
        ShapeType::Empty
    }
}

/// The number that stands for a kind of union.
pub open spec fn union_code(kind: UnionType) -> u32 {
    match kind {
        UnionType::MinAll => 0,
        UnionType::MaxAll => 1,
        UnionType::Max1 => 2,
        UnionType::Max2 => 3,
        UnionType::Max3 => 4,
        UnionType::Max4 => 5,
    }
}

/// The kind of union that a number stands for; a number that stands for
/// none is read as `UnionType::MinAll`.
pub open spec fn union_of_code(code: u32) -> UnionType {
    if code == 1 {
        UnionType::MaxAll
    } else if code == 2 {
        UnionType::Max1
    } else if code == 3 {
        UnionType::Max2
    } else if code == 4 {
        UnionType::Max3
    } else if code == 5 {
        UnionType::Max4
    } else {
        UnionType::MinAll
    }
}

impl Default for ShapeType {
    fn default() -> (kind: ShapeType)
        ensures
            kind == ShapeType::Empty,
    {
        ShapeType::Empty
    }
}

impl Default for UnionType {
    fn default() -> (kind: UnionType)
        ensures
            kind == UnionType::MinAll,
    {
        UnionType::MinAll
    }
}

impl From<ShapeType> for u32 {
    fn from(shape_type: ShapeType) -> (code: u32) {
        match shape_type {
            ShapeType::Empty => 0,
            ShapeType::Sphere => 1,
            ShapeType::Cube => 2,
            ShapeType::Plane => 3,
        }
    }
}

impl FromSpecImpl<ShapeType> for u32 {
    open spec fn obeys_from_spec() -> bool {
        true
    }

    open spec fn from_spec(shape_type: ShapeType) -> u32 {
        shape_code(shape_type)
    }
}

impl From<u32> for ShapeType {
    fn from(shape_type: u32) -> (kind: ShapeType) {
        match shape_type {
            1 => Self::Sphere,
            2 => Self::Cube,
            3 => Self::Plane,
            _ => Self::Empty,
        }
    }
}

impl FromSpecImpl<u32> for ShapeType {
    open spec fn obeys_from_spec() -> bool {
        true
    }

    open spec fn from_spec(shape_type: u32) -> ShapeType {
        shape_of_code(shape_type)
    }
}

impl From<UnionType> for u32 {
    fn from(union_type: UnionType) -> (code: u32) {
        match union_type {
            UnionType::MinAll => 0,
            UnionType::MaxAll => 1,
            UnionType::Max1 => 2,
            UnionType::Max2 => 3,
            UnionType::Max3 => 4,
            UnionType::Max4 => 5,
        }
    }
}

impl FromSpecImpl<UnionType> for u32 {
    open spec fn obeys_from_spec() -> bool {
        true
    }

    open spec fn from_spec(union_type: UnionType) -> u32 {
        union_code(union_type)
    }
}

impl From<u32> for UnionType {
    fn from(union_type: u32) -> (kind: UnionType) {
        match union_type {
            1 => UnionType::MaxAll,
            2 => UnionType::Max1,
            3 => UnionType::Max2,
            4 => UnionType::Max3,
            5 => UnionType::Max4,
            _ => UnionType::MinAll,
        }
    }
}

impl FromSpecImpl<u32> for UnionType {
    open spec fn obeys_from_spec() -> bool {
        true
    }

    open spec fn from_spec(union_type: u32) -> UnionType {
        union_of_code(union_type)
    }
}

/// A kind is read back from its number.
pub proof fn lemma_codes_round_trip(shape: ShapeType, union: UnionType)
    ensures
        shape_of_code(shape_code(shape)) == shape,
        union_of_code(union_code(union)) == union,
        shape_code(shape) < 4,
        union_code(union) < 6,
{
}

} // verus!
