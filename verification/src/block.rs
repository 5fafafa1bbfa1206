//! Voxel blocks on the grid and the kinds they are made of.

use vstd::prelude::*;

verus! {

/// Marks a block on the grid that the greedy mesher may merge with its
/// neighbours.
#[derive(Clone, Copy, Debug, PartialEq, Eq, Structural)]
pub struct GridVoxel;

/// Marks a voxel that the greedy mesher must skip, such as one that was cut
/// into a shape that is no longer a full cube.
#[derive(Clone, Copy, Debug, PartialEq, Eq, Structural)]
pub struct GridVoxelUnmeshable;

/// A kind of voxel.
///
/// Two voxels are of the same kind exactly when both fields agree; the
/// library groups voxels by that identity and reads nothing else of a kind.
#[derive(Clone, Copy, Debug, PartialEq, Eq, Structural, PartialOrd, Ord, Hash)]
pub struct VoxelKind {
    /// Identifier under which the kind is registered.
    pub id: u16,
    /// How much damage a voxel of this kind withstands.
    pub hardness: u8,
}

impl VoxelKind {
    /// A kind with the given identifier and hardness.
    pub fn new(id: u16, hardness: u8) -> (kind: VoxelKind)
        ensures
            kind == (VoxelKind { id, hardness }),
    {
        VoxelKind { id, hardness }
    }
}

impl Default for VoxelKind {
    fn default() -> (kind: VoxelKind)
        ensures
            kind == (VoxelKind { id: 0, hardness: 0 }),
    {
        VoxelKind { id: 0, hardness: 0 }
    }
}

/// A kind of object that sits on the grid without being meshed.
#[derive(Clone, Copy, Debug, PartialEq, Eq, Structural)]
pub struct GridObjectKind {
    /// How much damage an object of this kind withstands.
    pub hardness: u8,
}

impl Default for GridObjectKind {
    fn default() -> (kind: GridObjectKind)
        ensures
            kind == (GridObjectKind { hardness: 0 }),
    {
        GridObjectKind { hardness: 0 }
    }
}

/// Remaining hit points of a damaged object.
///
/// An object at full health carries no `HitPoints`; its kind defines the
/// maximum. The value exists only while the object is damaged.
#[derive(Clone, Copy, Debug, PartialEq, Eq, Structural)]
pub struct HitPoints(pub u16);

} // verus!
