//! A tile grid laid over the XZ plane of a 3D world.
//!
//! - [`vector`]: whole-number vectors for world positions and extents.
//! - [`collider`]: oriented boxes and the separating-axis test between them.
//! - [`grid`]: the conversion between world positions and tile coordinates,
//!   and the occupancy map that colliders mark and unmark.
//! - [`tile_map`]: the `hashbrown` map under the occupancy map.
//! - [`search`]: A* over the occupancy map, run by the `pathfinding` crate.
//! - [`path`]: paths and the cutting of their corners.
//! - [`walls`]: rooms on a bounded grid and the walls between them.
//!
//! Nothing here works with floating-point numbers. A length is a whole number
//! of world units, [`vector::UNITS_PER_METRE`] of which make a metre; a
//! rotation is given by the three axes it turns the world's axes into, with
//! [`collider::AXIS_ONE`] standing for the length one. Within these units all
//! arithmetic is exact, and wide enough never to overflow.

pub mod vector;
pub mod tile_map;
pub mod collider;
pub mod grid;
pub mod path;
pub mod search;
pub mod walls;
