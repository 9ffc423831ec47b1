//! A growable sparse voxel octree over the integer lattice, with a compact
//! bit-packed wire format.
//!
//! Nodes live in an arena and refer to their children by arena index.  Every
//! executable function carries a contract over the mathematical model of the
//! tree, and the laws that relate several functions are stated as proof
//! functions, in [`laws`] and beside the functions that they speak of.
//!
//! * [`voxel`]: the payload of a voxel and its packed form.
//! * [`node`]: the node of a tree and its mathematical form.
//! * [`arena`]: trees as arenas of nodes: walks, growth, and the traversal
//!   that populates a path.
//! * [`indexing`]: from a position to the path that leads to its voxel.
//! * [`octree`]: the tree itself: growth, traversal, insertion, lookup.
//! * [`serialise`]: the flat form of a node and its 128-bit record.
//! * [`discovery`]: the order in which a walk comes upon the nodes.
//! * [`traversal`]: the table of records of a tree.
//! * [`wire`]: from a table of records back to a tree.
//! * [`codec`]: records as bytes and as 32-bit limbs.
//! * [`laws`]: what holds of these together.
//! * [`codes`]: the numbers that stand for the kinds of shape and of union
//!   in a scene.

pub mod voxel;
pub mod node;
pub mod arena;
pub mod indexing;
pub mod octree;
pub mod serialise;
pub mod discovery;
pub mod traversal;
pub mod wire;
pub mod codec;
pub mod laws;
pub mod codes;
