//! The grid: square tiles on the XZ plane, addressed by integer coordinates.

use vstd::prelude::*;
use crate::collider::{
    Axis, BoxCollider, Orientation, AXIS_ONE, COLLISION_INSET, PROJECTION_PER_UNIT,
};
use crate::tile_map::{no_tiles, tile_states, TileMap};
use crate::vector::Vec3i;

verus! {

/// The index, along one axis, of the tile that holds `coordinate`: the
/// quotient rounded towards minus infinity.
pub open spec fn tile_index(coordinate: int, tile_size: int) -> int {
    coordinate / tile_size
}

/// The centre, along one axis, of the tile with the given index. With an odd
/// tile size the centre lies half a unit below the exact middle.
pub open spec fn tile_centre(index: int, tile_size: int) -> int {
    index * tile_size + tile_size / 2
}

/// `value` brought into the range of `i32`.
pub open spec fn clamp_to_i32(value: int) -> int {
    if value < i32::MIN {
        i32::MIN as int
    } else if value > i32::MAX {
        i32::MAX as int
    } else {
        value
    }
}

/// Whether a tile index can be held in an `i32`.
pub open spec fn on_grid(index: int) -> bool {
    i32::MIN <= index <= i32::MAX
}

/// Whether the tile `(x, z)` holds the world position `position`: along both
/// axes the tile reaches from its lower edge up to, not including, the next
/// tile's lower edge.
pub open spec fn tile_contains(tile_size: int, x: int, z: int, position: Vec3i) -> bool {
    &&& x * tile_size <= position.x < (x + 1) * tile_size
    &&& z * tile_size <= position.z < (z + 1) * tile_size
}

/// A tile lies where floor division puts it: `index` is the tile of
/// `coordinate` exactly when `coordinate` lies between the tile's edges.
pub proof fn lemma_tile_index_is_unique(coordinate: int, tile_size: int, index: int)
    requires
        tile_size > 0,
    ensures
        index * tile_size <= coordinate < (index + 1) * tile_size <==> index == tile_index(
            coordinate,
            tile_size,
        ),
{
    let q = coordinate / tile_size;
    assert(coordinate == tile_size * q + coordinate % tile_size && 0 <= coordinate % tile_size
        < tile_size) by (nonlinear_arith)
        requires
            tile_size > 0,
            q == coordinate / tile_size,
    ;
    assert(q * tile_size == tile_size * q) by (nonlinear_arith);
    assert((q + 1) * tile_size == tile_size * q + tile_size) by (nonlinear_arith);
    if index < q {
        assert((index + 1) * tile_size <= q * tile_size) by (nonlinear_arith)
            requires
                index + 1 <= q,
                tile_size > 0,
        ;
    }
    if index > q {
        assert(index * tile_size >= (q + 1) * tile_size) by (nonlinear_arith)
            requires
                index >= q + 1,
                tile_size > 0,
        ;
    }
}

/// The centre of a tile lies in that tile.
pub proof fn lemma_centre_lies_in_tile(index: int, tile_size: int)
    requires
        tile_size > 0,
    ensures
        tile_index(tile_centre(index, tile_size), tile_size) == index,
{
    let c = tile_centre(index, tile_size);
    assert(0 <= tile_size / 2 < tile_size);
    assert((index + 1) * tile_size == index * tile_size + tile_size) by (nonlinear_arith);
    lemma_tile_index_is_unique(c, tile_size, index);
}

/// Every world position lies in exactly one tile: the tile `(x, z)` holds
/// `position` if and only if `x` and `z` are the tile indices of its X and Z
/// coordinates. So no two tiles share a position, and no position is left
/// without a tile.
pub proof fn lemma_one_tile_holds_position(tile_size: int, x: int, z: int, position: Vec3i)
    requires
        tile_size > 0,
    ensures
        tile_contains(tile_size, x, z, position) <==> x == tile_index(
            position.x as int,
            tile_size,
        ) && z == tile_index(position.z as int, tile_size),
{
    lemma_tile_index_is_unique(position.x as int, tile_size, x);
    lemma_tile_index_is_unique(position.z as int, tile_size, z);
}

/// The floor of `value / divisor`, brought into the range of `i32`.
pub fn floor_div_clamped(value: i64, divisor: i32) -> (index: i32)
    requires
        divisor > 0,
    ensures
        index == clamp_to_i32(tile_index(value as int, divisor as int)),
{
    let quotient = value.checked_div_euclid(divisor as i64);
    match quotient {
        Some(q) => {
            if q < i32::MIN as i64 {
                i32::MIN
            } else if q > i32::MAX as i64 {
                i32::MAX
            } else {
                q as i32
            }
        },
        None => {
            proof {
                assert(i64::MIN <= (value as int) / (divisor as int) <= i64::MAX)
                    by (nonlinear_arith)
                    requires
                        divisor > 0,
                        i64::MIN <= value <= i64::MAX,
                ;
            }
            0
        },
    }
}

/// The tile size of a grid made by [`Grid::default`]: a fifth of a metre.
pub const DEFAULT_TILE_SIZE: i32 = 200;

/// The grid: the size of its square tiles, and which tiles are blocked.
///
/// A tile is blocked when the map holds `true` for it. A tile that the map
/// does not hold, or holds with `false`, is open.
pub struct Grid {
    tile_size: TileSize,
    hashmap: TileMap,
}

/// The edge length of a tile: a positive number of world units.
#[derive(Clone, Copy)]
struct TileSize {
    units: i32,
}

impl TileSize {
    #[verifier::type_invariant]
    closed spec fn positive(self) -> bool {
        self.units > 0
    }

    fn get(&self) -> (units: i32)
        ensures
            units == self.units,
            units > 0,
    {
        proof {
            use_type_invariant(self);
        }
        self.units
    }
}

/// The direction of the world's X axis.
pub open spec fn world_x() -> Axis {
    Axis { x: AXIS_ONE, y: 0, z: 0 }
}

/// The direction of the world's Z axis.
pub open spec fn world_z() -> Axis {
    Axis { x: 0, y: 0, z: AXIS_ONE }
}

/// The index of the tile that holds a projection onto a world axis.
pub open spec fn projection_tile_index(projection: int, tile_size: int) -> int {
    projection / (PROJECTION_PER_UNIT * tile_size)
}

/// Whether tile `a` comes before tile `b` when tiles are walked column by
/// column: by `x` first, then by `z`.
pub open spec fn scanned_before(a: (i32, i32), b: (i32, i32)) -> bool {
    a.0 < b.0 || (a.0 == b.0 && a.1 < b.1)
}

/// The map `tiles` after each tile of `covered` was set to blocked.
pub open spec fn marked(tiles: Map<(i32, i32), bool>, covered: Set<(i32, i32)>) -> Map<
    (i32, i32),
    bool,
> {
    Map::new(
        |t: (i32, i32)| tiles.dom().contains(t) || covered.contains(t),
        |t: (i32, i32)|
            if covered.contains(t) {
                true
            } else {
                tiles[t]
            },
    )
}

/// The map `tiles` after the entry of each tile of `covered` was removed.
pub open spec fn unmarked(tiles: Map<(i32, i32), bool>, covered: Set<(i32, i32)>) -> Map<
    (i32, i32),
    bool,
> {
    tiles.remove_keys(covered)
}

/// The centre of a tile maps back to the tile: turning a tile coordinate into
/// the world position of the tile's centre, and that position into a tile
/// coordinate, gives the coordinate that one began with.
pub proof fn lemma_centre_maps_to_its_tile(grid: Grid, tile: (i32, i32))
    requires
        grid.wf(),
    ensures
        grid.coord_of(grid.centre_of(tile)) == tile,
{
    let size = grid.size();
    crate::collider::lemma_product_range(tile.0 as int, size, 0x8000_0000, 0x8000_0000);
    crate::collider::lemma_product_range(tile.1 as int, size, 0x8000_0000, 0x8000_0000);
    lemma_centre_lies_in_tile(tile.0 as int, size);
    lemma_centre_lies_in_tile(tile.1 as int, size);
}

/// Unmarking undoes marking: where the map held none of the covered tiles
/// before, marking them and then unmarking them gives the map back as it was.
pub proof fn lemma_unmark_undoes_mark(tiles: Map<(i32, i32), bool>, covered: Set<(i32, i32)>)
    requires
        tiles.dom().disjoint(covered),
    ensures
        unmarked(marked(tiles, covered), covered) == tiles,
{
    assert(unmarked(marked(tiles, covered), covered) =~= tiles);
}

/// Unmarking a collider after marking it restores the occupancy map: if none
/// of the tiles that the collider covers had an entry in `before`, and `between`
/// is what marking the collider made of `before`, and `after` what unmarking
/// it made of `between`, then `after` holds what `before` held.
pub proof fn lemma_unmark_after_mark_restores(
    before: Grid,
    between: Grid,
    after: Grid,
    collider: BoxCollider,
)
    requires
        before.tiles().dom().disjoint(before.covered(collider)),
        between.size() == before.size(),
        between.tiles() == marked(before.tiles(), before.covered(collider)),
        after.tiles() == unmarked(between.tiles(), between.covered(collider)),
    ensures
        after.tiles() == before.tiles(),
{
    assert(between.covered(collider) =~= before.covered(collider)) by {
        assert forall|t: (i32, i32)|
            between.covers(collider, t) == before.covers(collider, t) by {
            assert(between.tile_box(t) == before.tile_box(t));
        }
    }
    lemma_unmark_undoes_mark(before.tiles(), before.covered(collider));
}

impl Grid {
    /// The edge length of a tile, in world units.
    pub closed spec fn size(self) -> int {
        self.tile_size.units as int
    }

    /// The entries of the occupancy map.
    pub closed spec fn tiles(self) -> Map<(i32, i32), bool> {
        tile_states(self.hashmap)
    }

    /// Whether the grid is valid: its tile size is positive. Every grid that
    /// executable code can hold is.
    pub open spec fn wf(self) -> bool {
        self.size() > 0
    }

    /// Whether the tile is blocked: the map holds `true` for it.
    pub open spec fn blocked(self, tile: (i32, i32)) -> bool {
        self.tiles().dom().contains(tile) && self.tiles()[tile]
    }

    /// The tile that holds `position`; a tile index outside `i32` is brought
    /// to the nearest one inside. The Y coordinate plays no part.
    pub open spec fn coord_of(self, position: Vec3i) -> (i32, i32) {
        (
            clamp_to_i32(tile_index(position.x as int, self.size())) as i32,
            clamp_to_i32(tile_index(position.z as int, self.size())) as i32,
        )
    }

    /// The centre of the tile `(x, z)`, at height zero.
    pub open spec fn centre_of(self, tile: (i32, i32)) -> Vec3i {
        Vec3i {
            x: tile_centre(tile.0 as int, self.size()) as i64,
            y: 0,
            z: tile_centre(tile.1 as int, self.size()) as i64,
        }
    }

    /// The box of the tile `(x, z)`: an upright cube of the tile's size
    /// around the tile's centre.
    pub open spec fn tile_box(self, tile: (i32, i32)) -> BoxCollider {
        BoxCollider {
            scale: Vec3i { x: self.size() as i64, y: self.size() as i64, z: self.size() as i64 },
            translation: self.centre_of(tile),
            rotation: Orientation::spec_identity(),
        }
    }

    /// The first column of tiles that the collider's shadow on the world X
    /// axis reaches.
    pub open spec fn first_column(self, collider: BoxCollider) -> int {
        clamp_to_i32(projection_tile_index(collider.lowest(world_x()), self.size()))
    }

    /// The last column of tiles that the collider's shadow on the world X
    /// axis reaches.
    pub open spec fn last_column(self, collider: BoxCollider) -> int {
        clamp_to_i32(projection_tile_index(collider.highest(world_x()), self.size()))
    }

    /// The first row of tiles that the collider's shadow on the world Z axis
    /// reaches.
    pub open spec fn first_row(self, collider: BoxCollider) -> int {
        clamp_to_i32(projection_tile_index(collider.lowest(world_z()), self.size()))
    }

    /// The last row of tiles that the collider's shadow on the world Z axis
    /// reaches.
    pub open spec fn last_row(self, collider: BoxCollider) -> int {
        clamp_to_i32(projection_tile_index(collider.highest(world_z()), self.size()))
    }

    /// Whether the collider covers the tile: the tile lies within the
    /// collider's bounding rectangle, and the collider overlaps the tile's
    /// box with the tolerance of [`COLLISION_INSET`].
    pub open spec fn covers(self, collider: BoxCollider, tile: (i32, i32)) -> bool {
        &&& self.first_column(collider) <= tile.0 <= self.last_column(collider)
        &&& self.first_row(collider) <= tile.1 <= self.last_row(collider)
        &&& collider.overlaps_spec(self.tile_box(tile), COLLISION_INSET as int)
    }

    /// The tiles that the collider covers.
    pub open spec fn covered(self, collider: BoxCollider) -> Set<(i32, i32)> {
        Set::new(|t: (i32, i32)| self.covers(collider, t))
    }

    /// A grid with tiles of the given size and nothing blocked, or `None`
    /// when the size is not positive.
    pub fn new(tile_size: i32) -> (grid: Option<Grid>)
        ensures
            grid.is_some() == (tile_size > 0),
            grid matches Some(g) ==> g.size() == tile_size && g.tiles() == no_tiles(),
    {
        if tile_size > 0 {
            Some(Grid { tile_size: TileSize { units: tile_size }, hashmap: TileMap::new() })
        } else {
            None
        }
    }

    /// An independent copy of the grid.
    pub fn duplicate(&self) -> (copy: Grid)
        ensures
            copy.size() == self.size(),
            copy.tiles() == self.tiles(),
    {
        Grid { tile_size: self.tile_size, hashmap: self.hashmap.duplicate() }
    }

    /// The edge length of a tile, in world units.
    pub fn tile_size(&self) -> (size: i32)
        ensures
            size == self.size(),
            size > 0,
    {
        self.tile_size.get()
    }

    /// The coordinate `[x, z]` of the tile that holds the world position.
    pub fn world_to_coord(&self, world_pos: Vec3i) -> (index: [i32; 2])
        ensures
            (index[0], index[1]) == self.coord_of(world_pos),
            on_grid(tile_index(world_pos.x as int, self.size())) && on_grid(
                tile_index(world_pos.z as int, self.size()),
            ) ==> tile_contains(self.size(), index[0] as int, index[1] as int, world_pos),
    {
        let size = self.tile_size.get();
        proof {
            let size = self.size();
            lemma_one_tile_holds_position(
                size,
                tile_index(world_pos.x as int, size),
                tile_index(world_pos.z as int, size),
                world_pos,
            );
        }
        [floor_div_clamped(world_pos.x, size), floor_div_clamped(world_pos.z, size)]
    }

    /// The centre of the tile with the coordinate `[x, z]`, at height zero.
    pub fn coord_to_tile(&self, index: [i32; 2]) -> (tile: Vec3i)
        ensures
            tile == self.centre_of((index[0], index[1])),
            tile.x == tile_centre(index[0] as int, self.size()),
            tile.y == 0,
            tile.z == tile_centre(index[1] as int, self.size()),
            self.coord_of(tile) == (index[0], index[1]),
    {
        let size = self.tile_size.get();
        proof {
            lemma_centre_maps_to_its_tile(*self, (index[0], index[1]));
        }
        Vec3i { x: centre_along(index[0], size), y: 0, z: centre_along(index[1], size) }
    }

    /// The centre of the tile that holds the world position.
    pub fn world_to_tile(self, position: Vec3i) -> (tile: Vec3i)
        ensures
            tile == self.centre_of(self.coord_of(position)),
    {
        let index = self.world_to_coord(position);
        let tile = self.coord_to_tile(index);
        tile
    }

    /// What the map holds for the tile `(x, z)`, if anything.
    pub fn get_tile_status(&self, x: i32, z: i32) -> (status: Option<bool>)
        ensures
            status == (if self.tiles().dom().contains((x, z)) {
                Some(self.tiles()[(x, z)])
            } else {
                None
            }),
    {
        self.hashmap.get((x, z))
    }

    /// Store `status` for the tile `(x, z)`: `true` blocks it, `false` keeps
    /// an entry for it that leaves it open.
    pub fn set_tile_status(&mut self, x: i32, z: i32, status: bool)
        ensures
            final(self).size() == old(self).size(),
            final(self).tiles() == old(self).tiles().insert((x, z), status),
    {
        self.hashmap.insert((x, z), status);
    }

    /// Remove what the map holds for the tile `(x, z)`, which leaves it open.
    pub fn clear_tile_status(&mut self, x: i32, z: i32)
        ensures
            final(self).size() == old(self).size(),
            final(self).tiles() == old(self).tiles().remove((x, z)),
    {
        self.hashmap.remove((x, z));
    }

    /// Whether the tile is blocked.
    pub fn is_blocked(&self, coord: (i32, i32)) -> (blocked: bool)
        ensures
            blocked == self.blocked(coord),
    {
        match self.hashmap.get(coord) {
            Some(true) => true,
            _ => false,
        }
    }

    /// Whether the tile that holds the world position is blocked.
    pub fn obstructed(&self, translation: &Vec3i) -> (blocked: bool)
        ensures
            blocked == self.blocked(self.coord_of(*translation)),
    {
        let index = self.world_to_coord(*translation);
        self.is_blocked((index[0], index[1]))
    }

    /// The box of the tile `(x, z)`.
    pub fn tile_collider(&self, x: i32, z: i32) -> (tile: BoxCollider)
        ensures
            tile == self.tile_box((x, z)),
    {
        let centre = self.coord_to_tile([x, z]);
        let size = self.tile_size() as i64;
        BoxCollider::new(centre, Orientation::identity(), Vec3i::splat(size))
    }

    /// The tiles that the collider covers, column by column: ordered by `x`,
    /// and by `z` within a column.
    pub fn tiles_covered_by_collider(&self, collider: &BoxCollider) -> (covered: Vec<(i32, i32)>)
        ensures
            forall|t: (i32, i32)| covered@.contains(t) <==> self.covers(*collider, t),
            forall|i: int, j: int|
                0 <= i < j < covered.len() ==> scanned_before(
                    #[trigger] covered[i],
                    #[trigger] covered[j],
                ),
    {
        let size = self.tile_size();
        let x_shadow = collider.project_onto_axis(&Axis { x: AXIS_ONE, y: 0, z: 0 });
        let z_shadow = collider.project_onto_axis(&Axis { x: 0, y: 0, z: AXIS_ONE });
        let first_x = projection_index_clamped(x_shadow.0, size);
        let last_x = projection_index_clamped(x_shadow.1, size);
        let first_z = projection_index_clamped(z_shadow.0, size);
        let last_z = projection_index_clamped(z_shadow.1, size);
        let mut covered: Vec<(i32, i32)> = Vec::new();
        let mut x: i64 = first_x as i64;
        while x <= last_x as i64
            invariant
                first_x <= x <= i32::MAX + 1,
                first_x == self.first_column(*collider),
                last_x == self.last_column(*collider),
                first_z == self.first_row(*collider),
                last_z == self.last_row(*collider),
                forall|i: int|
                    0 <= i < covered.len() ==> self.covers(*collider, #[trigger] covered[i])
                        && covered[i].0 < x,
                forall|t: (i32, i32)|
                    self.covers(*collider, t) && t.0 < x ==> #[trigger] covered@.contains(t),
                forall|i: int, j: int|
                    0 <= i < j < covered.len() ==> scanned_before(
                        #[trigger] covered[i],
                        #[trigger] covered[j],
                    ),
            decreases last_x + 1 - x,
        {
            let mut z: i64 = first_z as i64;
            while z <= last_z as i64
                invariant
                    first_x <= x <= last_x,
                    first_z <= z <= i32::MAX + 1,
                    first_x == self.first_column(*collider),
                    last_x == self.last_column(*collider),
                    first_z == self.first_row(*collider),
                    last_z == self.last_row(*collider),
                    forall|i: int|
                        0 <= i < covered.len() ==> self.covers(*collider, #[trigger] covered[i])
                            && (covered[i].0 < x || (covered[i].0 == x && covered[i].1 < z)),
                    forall|t: (i32, i32)|
                        self.covers(*collider, t) && (t.0 < x || (t.0 == x && t.1 < z))
                            ==> #[trigger] covered@.contains(t),
                    forall|i: int, j: int|
                        0 <= i < j < covered.len() ==> scanned_before(
                            #[trigger] covered[i],
                            #[trigger] covered[j],
                        ),
                decreases last_z + 1 - z,
            {
                let tile_collider = self.tile_collider(x as i32, z as i32);
                if collider.is_colliding_with_tile(&tile_collider) {
                    let ghost earlier = covered@;
                    covered.push((x as i32, z as i32));
                    proof {
                        let here = (x as i32, z as i32);
                        assert(covered@[earlier.len() as int] == here);
                        assert forall|t: (i32, i32)|
                            self.covers(*collider, t) && (t.0 < x || (t.0 == x && t.1 < z + 1))
                                implies #[trigger] covered@.contains(t) by {
                            if t == here {
                            } else {
                                assert(earlier.contains(t));
                                let i = choose|i: int| 0 <= i < earlier.len() && earlier[i] == t;
                                assert(covered@[i] == t);
                            }
                        }
                    }
                }
                z += 1;
            }
            x += 1;
        }
        proof {
            assert forall|t: (i32, i32)| covered@.contains(t) implies self.covers(
                *collider,
                t,
            ) by {
                let i = choose|i: int| 0 <= i < covered.len() && covered[i] == t;
                assert(self.covers(*collider, covered[i]));
            }
        }
        covered
    }

    /// Mark the tiles that a collider covers as blocked.
    pub fn mark_tiles_from_collider(&mut self, collider: &BoxCollider)
        ensures
            final(self).size() == old(self).size(),
            final(self).tiles() == marked(old(self).tiles(), old(self).covered(*collider)),
    {
        let covered = self.tiles_covered_by_collider(collider);
        let ghost before = *self;
        let mut i: usize = 0;
        while i < covered.len()
            invariant
                0 <= i <= covered.len(),
                self.size() == before.size(),
                self.tiles() == marked(
                    before.tiles(),
                    Set::new(|t: (i32, i32)| covered@.take(i as int).contains(t)),
                ),
            decreases covered.len() - i,
        {
            let ghost so_far = Set::new(|t: (i32, i32)| covered@.take(i as int).contains(t));
            let ghost next = Set::new(|t: (i32, i32)| covered@.take(i + 1).contains(t));
            self.hashmap.insert(covered[i], true);
            proof {
                lemma_take_one_more(covered@, i as int);
                assert(self.tiles() =~= marked(before.tiles(), next));
            }
            i += 1;
        }
        proof {
            assert(covered@.take(covered.len() as int) == covered@);
            assert(Set::new(|t: (i32, i32)| covered@.contains(t)) =~= before.covered(*collider));
        }
    }

    /// Remove from the map the tiles that a collider covers.
    pub fn unmark_tiles_from_collider(&mut self, collider: &BoxCollider)
        ensures
            final(self).size() == old(self).size(),
            final(self).tiles() == unmarked(old(self).tiles(), old(self).covered(*collider)),
    {
        let covered = self.tiles_covered_by_collider(collider);
        let ghost before = *self;
        let mut i: usize = 0;
        while i < covered.len()
            invariant
                0 <= i <= covered.len(),
                self.size() == before.size(),
                self.tiles() == unmarked(
                    before.tiles(),
                    Set::new(|t: (i32, i32)| covered@.take(i as int).contains(t)),
                ),
            decreases covered.len() - i,
        {
            let ghost next = Set::new(|t: (i32, i32)| covered@.take(i + 1).contains(t));
            self.hashmap.remove(covered[i]);
            proof {
                lemma_take_one_more(covered@, i as int);
                assert(self.tiles() =~= unmarked(before.tiles(), next));
            }
            i += 1;
        }
        proof {
            assert(covered@.take(covered.len() as int) == covered@);
            assert(Set::new(|t: (i32, i32)| covered@.contains(t)) =~= before.covered(*collider));
        }
    }
}

impl Default for Grid {
    /// A grid with tiles of [`DEFAULT_TILE_SIZE`] and nothing blocked.
    fn default() -> (grid: Grid)
        ensures
            grid.size() == DEFAULT_TILE_SIZE,
            grid.tiles() == no_tiles(),
    {
        Grid { tile_size: TileSize { units: DEFAULT_TILE_SIZE }, hashmap: TileMap::new() }
    }
}

impl Clone for Grid {
    /// An independent copy of the grid.
    fn clone(&self) -> (copy: Grid)
        ensures
            copy.size() == self.size(),
            copy.tiles() == self.tiles(),
    {
        self.duplicate()
    }
}

/// The centre, along one axis, of the tile with the given index.
fn centre_along(index: i32, tile_size: i32) -> (centre: i64)
    requires
        tile_size > 0,
    ensures
        centre == tile_centre(index as int, tile_size as int),
{
    proof {
        crate::collider::lemma_product_range(
            index as int,
            tile_size as int,
            0x8000_0000,
            0x8000_0000,
        );
    }
    (index as i64) * (tile_size as i64) + (tile_size as i64) / 2
}


/// The tiles among the first `count + 1` of a list are those among the first
/// `count` and the one after them.
proof fn lemma_take_one_more(tiles: Seq<(i32, i32)>, count: int)
    requires
        0 <= count < tiles.len(),
    ensures
        forall|t: (i32, i32)|
            #[trigger] tiles.take(count + 1).contains(t) <==> tiles.take(count).contains(t) || t
                == tiles[count],
{
    let longer = tiles.take(count + 1);
    let shorter = tiles.take(count);
    assert forall|t: (i32, i32)| #[trigger]
        longer.contains(t) <==> shorter.contains(t) || t == tiles[count] by {
        if longer.contains(t) {
            let i = choose|i: int| 0 <= i < longer.len() && longer[i] == t;
            if i < count {
                assert(shorter[i] == t);
            }
        }
        if shorter.contains(t) {
            let i = choose|i: int| 0 <= i < shorter.len() && shorter[i] == t;
            assert(longer[i] == t);
        }
        if t == tiles[count] {
            assert(longer[count] == t);
        }
    }
}

/// The index of the tile that holds a projection onto a world axis, brought
/// into the range of `i32`.
fn projection_index_clamped(projection: i128, tile_size: i32) -> (index: i32)
    requires
        tile_size > 0,
    ensures
        index == clamp_to_i32(projection_tile_index(projection as int, tile_size as int)),
{
    let divisor: i128 = PROJECTION_PER_UNIT * (tile_size as i128);
    let quotient = projection.checked_div_euclid(divisor);
    match quotient {
        Some(q) => {
            if q < i32::MIN as i128 {
                i32::MIN
            } else if q > i32::MAX as i128 {
                i32::MAX
            } else {
                q as i32
            }
        },
        None => {
            proof {
                assert(i128::MIN <= (projection as int) / (divisor as int) <= i128::MAX)
                    by (nonlinear_arith)
                    requires
                        divisor > 0,
                        i128::MIN <= projection <= i128::MAX,
                ;
            }
            0
        },
    }
}

} // verus!
