//! Integer vectors for world positions and extents.

use vstd::prelude::*;

verus! {

/// How many world units make up one metre. Every length that the library
/// handles is a whole number of world units.
pub const UNITS_PER_METRE: i64 = 1000;

/// A position in the world, or an extent along the three axes, in world units.
#[derive(Clone, Copy, Debug, PartialEq, Eq, Structural)]
pub struct Vec3i {
    pub x: i64,
    pub y: i64,
    pub z: i64,
}

impl Vec3i {
    /// The vector with the given components.
    pub fn new(x: i64, y: i64, z: i64) -> (v: Vec3i)
        ensures
            v == (Vec3i { x, y, z }),
    {
        Vec3i { x, y, z }
    }

    /// The vector whose three components all equal `value`.
    pub fn splat(value: i64) -> (v: Vec3i)
        ensures
            v == (Vec3i { x: value, y: value, z: value }),
    {
        Vec3i { x: value, y: value, z: value }
    }
}

} // verus!
