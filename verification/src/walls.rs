//! Rooms on a bounded grid, and the walls that their borders ask for.
//!
//! Every tile of a square world belongs to a room, room `0` standing for no
//! room at all. A tile needs a wall on each edge beyond which lies another
//! room or the end of the world.

use vstd::prelude::*;
use crate::grid::Grid;
use crate::tile_map::no_tiles;

verus! {

/// The number of tiles along each side of the world.
pub const WORLD_SIZE: usize = 50;

/// The tile size of the grid under the rooms: one metre.
pub const ROOM_TILE_SIZE: i32 = 1000;

/// The edge of a tile towards lower `z`.
pub const DOWN: usize = 0;

/// The edge of a tile towards higher `x`.
pub const RIGHT: usize = 1;

/// The edge of a tile towards higher `z`.
pub const UP: usize = 2;

/// The edge of a tile towards lower `x`.
pub const LEFT: usize = 3;

/// One tile of the world: its room, which of its four edges need a wall, and
/// whether it changed since the changes were last collected.
#[derive(Clone, Copy, Debug)]
struct Tile {
    directions: [bool; 4],
    room: i32,
    updated: bool,
}

/// The rooms of the world and the walls between them.
pub struct BuildingTiles {
    pub grid: Grid,
    tiles: Vec<Vec<Tile>>,
    pub current_room: i32,
    pub tool: i32,
}

/// Whether the tile `(x, z)` lies in the world.
pub open spec fn in_range(x: int, z: int) -> bool {
    0 <= x < WORLD_SIZE && 0 <= z < WORLD_SIZE
}

/// The tile beyond the given edge of the tile `(x, z)`.
pub open spec fn beside(x: int, z: int, edge: int) -> (int, int) {
    if edge == DOWN {
        (x, z - 1)
    } else if edge == RIGHT {
        (x + 1, z)
    } else if edge == UP {
        (x, z + 1)
    } else {
        (x - 1, z)
    }
}

/// Whether the tile `(a, b)` is the tile `(x, z)` or shares an edge with it.
pub open spec fn touches(a: int, b: int, x: int, z: int) -> bool {
    ||| (a == x && b == z)
    ||| (a == x && (b == z - 1 || b == z + 1))
    ||| (b == z && (a == x - 1 || a == x + 1))
}

/// Whether the tile `(x, z)` lies in the rectangle that the two corners span,
/// the corners included. Which corner is which makes no difference.
pub open spec fn in_rect(x: int, z: int, positions: [[i32; 2]; 2]) -> bool {
    let (x1, z1) = (positions[0][0] as int, positions[0][1] as int);
    let (x2, z2) = (positions[1][0] as int, positions[1][1] as int);
    &&& (x1 <= x <= x2 || x2 <= x <= x1)
    &&& (z1 <= z <= z2 || z2 <= z <= z1)
}

impl BuildingTiles {
    /// Whether the store holds a tile for each place of the world.
    pub closed spec fn sized(self) -> bool {
        &&& self.tiles.len() == WORLD_SIZE
        &&& forall|i: int| 0 <= i < WORLD_SIZE ==> (#[trigger] self.tiles[i]).len() == WORLD_SIZE
    }

    /// The room of the tile `(x, z)`.
    pub closed spec fn room_of(self, x: int, z: int) -> int {
        self.tiles[x][z].room as int
    }

    /// The wall flags of the tile `(x, z)`, one for each edge.
    pub closed spec fn walls_of(self, x: int, z: int) -> Seq<bool> {
        self.tiles[x][z].directions@
    }

    /// Whether the tile `(x, z)` changed since the changes were last
    /// collected.
    pub closed spec fn updated_at(self, x: int, z: int) -> bool {
        self.tiles[x][z].updated
    }

    /// Whether the tile `(x, z)` needs a wall on the given edge: beyond the
    /// edge lies the end of the world, or a tile of another room.
    pub open spec fn needs_wall(self, x: int, z: int, edge: int) -> bool {
        let next = beside(x, z, edge);
        !in_range(next.0, next.1) || self.room_of(next.0, next.1) != self.room_of(x, z)
    }

    /// Whether the wall flags of the tile `(x, z)` are what its neighbours
    /// ask for.
    pub open spec fn walls_fit(self, x: int, z: int) -> bool {
        &&& self.walls_of(x, z).len() == 4
        &&& self.walls_of(x, z)[DOWN as int] == self.needs_wall(x, z, DOWN as int)
        &&& self.walls_of(x, z)[RIGHT as int] == self.needs_wall(x, z, RIGHT as int)
        &&& self.walls_of(x, z)[UP as int] == self.needs_wall(x, z, UP as int)
        &&& self.walls_of(x, z)[LEFT as int] == self.needs_wall(x, z, LEFT as int)
    }

    /// Whether the world is valid: it has all its tiles, and every tile has
    /// walls exactly where its room ends.
    pub open spec fn wf(self) -> bool {
        &&& self.sized()
        &&& forall|x: int, z: int| in_range(x, z) ==> #[trigger] self.walls_fit(x, z)
    }

    /// The room that [`BuildingTiles::set_room_to_tile`] gives to a tile: the
    /// field `current_room`.
    pub closed spec fn room_in_use(self) -> int {
        self.current_room as int
    }

    /// The tool in use: the field `tool`.
    pub closed spec fn tool_in_use(self) -> int {
        self.tool as int
    }

    /// The grid under the rooms: the field `grid`.
    pub closed spec fn grid_in_use(self) -> Grid {
        self.grid
    }

    /// Whether the grid, the room in use and the tool in use are as in
    /// `other`.
    pub open spec fn same_settings(self, other: BuildingTiles) -> bool {
        &&& self.grid_in_use() == other.grid_in_use()
        &&& self.room_in_use() == other.room_in_use()
        &&& self.tool_in_use() == other.tool_in_use()
    }

    /// Whether every tile has the room that it has in `other`.
    pub open spec fn same_rooms(self, other: BuildingTiles) -> bool {
        forall|x: int, z: int| in_range(x, z) ==> #[trigger] self.room_of(x, z) == other.room_of(x, z)
    }

    /// Whether every tile has the wall flags that it has in `other`.
    pub open spec fn same_walls(self, other: BuildingTiles) -> bool {
        forall|x: int, z: int|
            in_range(x, z) ==> #[trigger] self.walls_of(x, z) == other.walls_of(x, z)
    }

    /// Whether every tile is marked as changed exactly if it is in `other`.
    pub open spec fn same_updates(self, other: BuildingTiles) -> bool {
        forall|x: int, z: int|
            in_range(x, z) ==> #[trigger] self.updated_at(x, z) == other.updated_at(x, z)
    }

    /// Whether every tile that is not marked as changed has walls exactly
    /// where its room ends.
    pub open spec fn fits_where_unchanged(self) -> bool {
        &&& self.sized()
        &&& forall|x: int, z: int|
            in_range(x, z) && !self.updated_at(x, z) ==> #[trigger] self.walls_fit(x, z)
    }

    /// The tile `(x, z)`.
    fn tile(&self, x: usize, z: usize) -> (tile: Tile)
        requires
            self.sized(),
            in_range(x as int, z as int),
        ensures
            tile.room == self.room_of(x as int, z as int),
            tile.directions@ == self.walls_of(x as int, z as int),
            tile.updated == self.updated_at(x as int, z as int),
    {
        self.tiles[x][z]
    }

    /// Replace the tile `(x, z)`.
    fn put(&mut self, x: usize, z: usize, tile: Tile)
        requires
            old(self).sized(),
            in_range(x as int, z as int),
        ensures
            final(self).sized(),
            final(self).same_settings(*old(self)),
            forall|a: int, b: int|
                in_range(a, b) ==> #[trigger] final(self).room_of(a, b) == (if a == x && b == z {
                    tile.room as int
                } else {
                    old(self).room_of(a, b)
                }),
            forall|a: int, b: int|
                in_range(a, b) ==> #[trigger] final(self).walls_of(a, b) == (if a == x && b == z {
                    tile.directions@
                } else {
                    old(self).walls_of(a, b)
                }),
            forall|a: int, b: int|
                in_range(a, b) ==> #[trigger] final(self).updated_at(a, b) == (if a == x && b
                    == z {
                    tile.updated
                } else {
                    old(self).updated_at(a, b)
                }),
    {
        self.tiles[x][z] = tile;
    }

    /// The wall flags that the neighbours of the tile `(x, z)` ask for.
    fn walls_for(&self, x: usize, z: usize) -> (flags: [bool; 4])
        requires
            self.sized(),
            in_range(x as int, z as int),
        ensures
            flags[DOWN as int] == self.needs_wall(x as int, z as int, DOWN as int),
            flags[RIGHT as int] == self.needs_wall(x as int, z as int, RIGHT as int),
            flags[UP as int] == self.needs_wall(x as int, z as int, UP as int),
            flags[LEFT as int] == self.needs_wall(x as int, z as int, LEFT as int),
    {
        let room = self.tiles[x][z].room;
        [
            z == 0 || self.tiles[x][z - 1].room != room,
            x == WORLD_SIZE - 1 || self.tiles[x + 1][z].room != room,
            z == WORLD_SIZE - 1 || self.tiles[x][z + 1].room != room,
            x == 0 || self.tiles[x - 1][z].room != room,
        ]
    }

    /// Work out anew the walls of every tile that is marked as changed.
    fn calc_walls_in_tiles(&mut self)
        requires
            old(self).fits_where_unchanged(),
        ensures
            final(self).wf(),
            final(self).same_settings(*old(self)),
            final(self).same_rooms(*old(self)),
            final(self).same_updates(*old(self)),
    {
        let mut x: usize = 0;
        while x < WORLD_SIZE
            invariant
                0 <= x <= WORLD_SIZE,
                self.sized(),
                self.same_settings(*old(self)),
                self.same_rooms(*old(self)),
                self.same_updates(*old(self)),
                forall|a: int, b: int|
                    in_range(a, b) && (!self.updated_at(a, b) || a < x) ==> #[trigger] self.walls_fit(
                        a,
                        b,
                    ),
            decreases WORLD_SIZE - x,
        {
            let mut z: usize = 0;
            while z < WORLD_SIZE
                invariant
                    0 <= x < WORLD_SIZE,
                    0 <= z <= WORLD_SIZE,
                    self.sized(),
                    self.same_settings(*old(self)),
                    self.same_rooms(*old(self)),
                    self.same_updates(*old(self)),
                    forall|a: int, b: int|
                        in_range(a, b) && (!self.updated_at(a, b) || a < x || (a == x && b < z))
                            ==> #[trigger] self.walls_fit(a, b),
                decreases WORLD_SIZE - z,
            {
                let tile = self.tile(x, z);
                if tile.updated {
                    let flags = self.walls_for(x, z);
                    let ghost before = *self;
                    self.put(x, z, Tile { directions: flags, room: tile.room, updated: true });
                    proof {
                        assert(self.same_rooms(before));
                        assert forall|a: int, b: int|
                            in_range(a, b) && (!self.updated_at(a, b) || a < x || (a == x && b < z
                                + 1)) implies #[trigger] self.walls_fit(a, b) by {
                            if a == x && b == z {
                                assert(self.walls_of(a, b) == flags@);
                            } else {
                                assert(before.walls_fit(a, b));
                                lemma_walls_follow(before, *self, a, b);
                            }
                        }
                    }
                }
                z += 1;
            }
            x += 1;
        }
    }

    /// Mark as changed the tiles of the world that share an edge with the
    /// tile `(x, z)`.
    fn add_adjacent_tiles(&mut self, x: usize, z: usize)
        requires
            old(self).sized(),
            in_range(x as int, z as int),
        ensures
            final(self).sized(),
            final(self).same_settings(*old(self)),
            final(self).same_rooms(*old(self)),
            final(self).same_walls(*old(self)),
            forall|a: int, b: int|
                in_range(a, b) ==> #[trigger] final(self).updated_at(a, b) == (old(
                    self,
                ).updated_at(a, b) || (touches(a, b, x as int, z as int) && !(a == x && b == z))),
    {
        if x > 0 {
            let tile = self.tile(x - 1, z);
            self.put(x - 1, z, Tile { directions: tile.directions, room: tile.room, updated: true });
        }
        if x < WORLD_SIZE - 1 {
            let tile = self.tile(x + 1, z);
            self.put(x + 1, z, Tile { directions: tile.directions, room: tile.room, updated: true });
        }
        if z > 0 {
            let tile = self.tile(x, z - 1);
            self.put(x, z - 1, Tile { directions: tile.directions, room: tile.room, updated: true });
        }
        if z < WORLD_SIZE - 1 {
            let tile = self.tile(x, z + 1);
            self.put(x, z + 1, Tile { directions: tile.directions, room: tile.room, updated: true });
        }
    }

    /// Give the tile `(x, z)` the room in use, and mark it and the tiles
    /// around it as changed. The walls are left as they are.
    fn assign_room(&mut self, x: usize, z: usize)
        requires
            old(self).fits_where_unchanged(),
            in_range(x as int, z as int),
        ensures
            final(self).fits_where_unchanged(),
            final(self).same_settings(*old(self)),
            final(self).same_walls(*old(self)),
            forall|a: int, b: int|
                in_range(a, b) ==> #[trigger] final(self).room_of(a, b) == (if a == x && b == z {
                    old(self).room_in_use()
                } else {
                    old(self).room_of(a, b)
                }),
            forall|a: int, b: int|
                in_range(a, b) ==> #[trigger] final(self).updated_at(a, b) == (old(
                    self,
                ).updated_at(a, b) || touches(a, b, x as int, z as int)),
    {
        let tile = self.tile(x, z);
        self.put(x, z, Tile { directions: tile.directions, room: self.current_room, updated: true });
        self.add_adjacent_tiles(x, z);
        proof {
            assert forall|a: int, b: int|
                in_range(a, b) && !self.updated_at(a, b) implies #[trigger] self.walls_fit(
                a,
                b,
            ) by {
                assert(old(self).walls_fit(a, b));
                lemma_walls_follow(*old(self), *self, a, b);
            }
        }
    }

    /// A world in which no tile has a room: every tile is in room `0`, walls
    /// stand along the border of the world only, and no tile is marked as
    /// changed. The room in use is room `1`, the tool in use is `-1`, and the
    /// grid has tiles of [`ROOM_TILE_SIZE`] with nothing blocked.
    pub fn new() -> (world: BuildingTiles)
        ensures
            world.wf(),
            world.room_in_use() == 1,
            world.tool_in_use() == -1,
            world.grid_in_use().size() == ROOM_TILE_SIZE,
            world.grid_in_use().tiles() == no_tiles(),
            forall|x: int, z: int| in_range(x, z) ==> #[trigger] world.room_of(x, z) == 0,
            forall|x: int, z: int| in_range(x, z) ==> !#[trigger] world.updated_at(x, z),
    {
        let mut tiles: Vec<Vec<Tile>> = Vec::new();
        let mut x: usize = 0;
        while x < WORLD_SIZE
            invariant
                0 <= x <= WORLD_SIZE,
                tiles.len() == x,
                forall|i: int| 0 <= i < x ==> (#[trigger] tiles[i]).len() == WORLD_SIZE,
                forall|i: int, j: int|
                    0 <= i < x && 0 <= j < WORLD_SIZE ==> is_border_tile(
                        #[trigger] tiles[i][j],
                        i,
                        j,
                    ),
            decreases WORLD_SIZE - x,
        {
            let mut row: Vec<Tile> = Vec::new();
            let mut z: usize = 0;
            while z < WORLD_SIZE
                invariant
                    0 <= x < WORLD_SIZE,
                    0 <= z <= WORLD_SIZE,
                    row.len() == z,
                    forall|j: int| 0 <= j < z ==> is_border_tile(#[trigger] row[j], x as int, j),
                decreases WORLD_SIZE - z,
            {
                let down = z == 0;
                let right = x == WORLD_SIZE - 1;
                let up = z == WORLD_SIZE - 1;
                let left = x == 0;
                row.push(
                    Tile {
                        directions: [down, right, up, left],
                        room: 0,
                        updated: false,
                    },
                );
                z += 1;
            }
            tiles.push(row);
            x += 1;
        }
        let grid = match Grid::new(ROOM_TILE_SIZE) {
            Some(grid) => grid,
            None => Grid::default(),
        };
        let world = BuildingTiles { grid, tiles, current_room: 1, tool: -1 };
        proof {
            assert forall|x: int, z: int| in_range(x, z) implies #[trigger] world.walls_fit(
                x,
                z,
            ) by {
                assert(is_border_tile(world.tiles[x][z], x, z));
                assert(forall|e: int|
                    0 <= e < 4 && in_range(beside(x, z, e).0, beside(x, z, e).1) ==> is_border_tile(
                        world.tiles[beside(x, z, e).0][beside(x, z, e).1],
                        beside(x, z, e).0,
                        beside(x, z, e).1,
                    ));
            }
            assert forall|x: int, z: int| in_range(x, z) implies #[trigger] world.room_of(x, z)
                == 0 by {
                assert(is_border_tile(world.tiles[x][z], x, z));
            }
            assert forall|x: int, z: int| in_range(x, z) implies !#[trigger] world.updated_at(
                x,
                z,
            ) by {
                assert(is_border_tile(world.tiles[x][z], x, z));
            }
        }
        world
    }

    /// The room in use.
    pub fn current_room(&self) -> (room: i32)
        ensures
            room == self.room_in_use(),
    {
        self.current_room
    }

    /// Choose the room that the next tiles are given. No tile changes.
    pub fn set_current_room(&mut self, room: i32)
        requires
            old(self).wf(),
        ensures
            final(self).wf(),
            final(self).room_in_use() == room,
            final(self).tool_in_use() == old(self).tool_in_use(),
            final(self).grid_in_use() == old(self).grid_in_use(),
            final(self).same_rooms(*old(self)),
            final(self).same_walls(*old(self)),
            final(self).same_updates(*old(self)),
    {
        self.current_room = room;
        proof {
            assert forall|x: int, z: int| in_range(x, z) implies #[trigger] self.walls_fit(x, z) by {
                assert(old(self).walls_fit(x, z));
                lemma_walls_follow(*old(self), *self, x, z);
            }
        }
    }

    /// The tool in use.
    pub fn tool(&self) -> (tool: i32)
        ensures
            tool == self.tool_in_use(),
    {
        self.tool
    }

    /// Choose the tool in use. No tile changes.
    pub fn set_tool(&mut self, tool: i32)
        requires
            old(self).wf(),
        ensures
            final(self).wf(),
            final(self).tool_in_use() == tool,
            final(self).room_in_use() == old(self).room_in_use(),
            final(self).grid_in_use() == old(self).grid_in_use(),
            final(self).same_rooms(*old(self)),
            final(self).same_walls(*old(self)),
            final(self).same_updates(*old(self)),
    {
        self.tool = tool;
        proof {
            assert forall|x: int, z: int| in_range(x, z) implies #[trigger] self.walls_fit(x, z) by {
                assert(old(self).walls_fit(x, z));
                lemma_walls_follow(*old(self), *self, x, z);
            }
        }
    }

    /// The grid under the rooms.
    pub fn grid(&self) -> (grid: &Grid)
        ensures
            *grid == self.grid_in_use(),
    {
        &self.grid
    }

    /// Give the tile at the position the room in use. A position outside the
    /// world changes nothing. The tile and the tiles that share an edge with
    /// it are marked as changed, and all walls are brought up to date.
    pub fn set_room_to_tile(&mut self, position: [i32; 2])
        requires
            old(self).wf(),
        ensures
            final(self).wf(),
            final(self).same_settings(*old(self)),
            !in_range(position[0] as int, position[1] as int) ==> *final(self) == *old(self),
            forall|a: int, b: int|
                in_range(a, b) ==> #[trigger] final(self).room_of(a, b) == (if a == position[0]
                    && b == position[1] {
                    old(self).room_in_use()
                } else {
                    old(self).room_of(a, b)
                }),
            forall|a: int, b: int|
                in_range(a, b) ==> #[trigger] final(self).updated_at(a, b) == (old(
                    self,
                ).updated_at(a, b) || (in_range(position[0] as int, position[1] as int)
                    && touches(a, b, position[0] as int, position[1] as int))),
    {
        if !Self::check_position_in_range(position) {
            return ;
        }
        let (x, z) = (position[0] as usize, position[1] as usize);
        self.assign_room(x, z);
        self.calc_walls_in_tiles();
    }

    /// Give every tile in the rectangle that the two corners span the room
    /// in use, as [`BuildingTiles::set_room_to_tile`] does for one tile. The
    /// parts of the rectangle outside the world are passed over.
    pub fn set_room_to_tiles(&mut self, positions: [[i32; 2]; 2])
        requires
            old(self).wf(),
        ensures
            final(self).wf(),
            final(self).same_settings(*old(self)),
            forall|a: int, b: int|
                in_range(a, b) ==> #[trigger] final(self).room_of(a, b) == (if in_rect(
                    a,
                    b,
                    positions,
                ) {
                    old(self).room_in_use()
                } else {
                    old(self).room_of(a, b)
                }),
            forall|a: int, b: int|
                in_range(a, b) ==> #[trigger] final(self).updated_at(a, b) == (old(
                    self,
                ).updated_at(a, b) || touches_rect(a, b, positions)),
    {
        let (x1, z1) = (positions[0][0], positions[0][1]);
        let (x2, z2) = (positions[1][0], positions[1][1]);
        let x_min = clamp_to_world(if x1 <= x2 { x1 as i64 } else { x2 as i64 });
        let x_max = clamp_to_world(if x1 <= x2 { x2 as i64 + 1 } else { x1 as i64 + 1 });
        let z_min = clamp_to_world(if z1 <= z2 { z1 as i64 } else { z2 as i64 });
        let z_max = clamp_to_world(if z1 <= z2 { z2 as i64 + 1 } else { z1 as i64 + 1 });
        let mut x: usize = x_min;
        while x < x_max
            invariant
                x_min <= x <= WORLD_SIZE,
                x_max <= WORLD_SIZE,
                z_max <= WORLD_SIZE,
                x_min == world_bound(min_of(positions[0][0] as int, positions[1][0] as int)),
                x_max == world_bound(max_of(positions[0][0] as int, positions[1][0] as int) + 1),
                z_min == world_bound(min_of(positions[0][1] as int, positions[1][1] as int)),
                z_max == world_bound(max_of(positions[0][1] as int, positions[1][1] as int) + 1),
                self.fits_where_unchanged(),
                self.same_settings(*old(self)),
                self.room_in_use() == old(self).room_in_use(),
                forall|a: int, b: int|
                    in_range(a, b) ==> #[trigger] self.room_of(a, b) == (if in_rect(a, b, positions)
                        && a < x {
                        old(self).room_in_use()
                    } else {
                        old(self).room_of(a, b)
                    }),
                forall|a: int, b: int|
                    in_range(a, b) ==> #[trigger] self.updated_at(a, b) == (old(self).updated_at(
                        a,
                        b,
                    ) || touches_part(a, b, positions, x as int, 0)),
            decreases WORLD_SIZE - x,
        {
            let mut z: usize = z_min;
            while z < z_max
                invariant
                    x_min <= x < x_max,
                    z_min <= z <= WORLD_SIZE,
                    x_max <= WORLD_SIZE,
                    z_max <= WORLD_SIZE,
                    x_min == world_bound(min_of(positions[0][0] as int, positions[1][0] as int)),
                    x_max == world_bound(
                        max_of(positions[0][0] as int, positions[1][0] as int) + 1,
                    ),
                    z_min == world_bound(min_of(positions[0][1] as int, positions[1][1] as int)),
                    z_max == world_bound(
                        max_of(positions[0][1] as int, positions[1][1] as int) + 1,
                    ),
                    self.fits_where_unchanged(),
                    self.same_settings(*old(self)),
                    self.room_in_use() == old(self).room_in_use(),
                    forall|a: int, b: int|
                        in_range(a, b) ==> #[trigger] self.room_of(a, b) == (if in_rect(
                            a,
                            b,
                            positions,
                        ) && (a < x || (a == x && b < z)) {
                            old(self).room_in_use()
                        } else {
                            old(self).room_of(a, b)
                        }),
                    forall|a: int, b: int|
                        in_range(a, b) ==> #[trigger] self.updated_at(a, b) == (old(
                            self,
                        ).updated_at(a, b) || touches_part(a, b, positions, x as int, z as int)),
                decreases WORLD_SIZE - z,
            {
                let ghost before = *self;
                self.assign_room(x, z);
                proof {
                    assert(in_rect(x as int, z as int, positions));
                    assert forall|a: int, b: int| in_range(a, b) implies #[trigger] self.updated_at(
                        a,
                        b,
                    ) == (old(self).updated_at(a, b) || touches_part(
                        a,
                        b,
                        positions,
                        x as int,
                        z + 1,
                    )) by {
                        lemma_touches_one_more(a, b, positions, x as int, z as int);
                    }
                }
                z += 1;
            }
            proof {
                assert forall|a: int, b: int| in_range(a, b) implies #[trigger] self.updated_at(
                    a,
                    b,
                ) == (old(self).updated_at(a, b) || touches_part(a, b, positions, x + 1, 0)) by {
                    lemma_touches_next_column(a, b, positions, x as int, z as int);
                }
            }
            x += 1;
        }
        proof {
            assert forall|a: int, b: int| in_range(a, b) implies #[trigger] self.updated_at(a, b)
                == (old(self).updated_at(a, b) || touches_rect(a, b, positions)) by {
                lemma_touches_whole(a, b, positions, x as int);
            }
        }
        self.calc_walls_in_tiles();
    }

    /// The tiles that changed since this was last asked, column by column,
    /// each as `(x, z)`. None of them is marked as changed afterwards.
    pub fn take_recently_updated(&mut self) -> (changed: Vec<(i32, i32)>)
        requires
            old(self).wf(),
        ensures
            final(self).wf(),
            final(self).same_settings(*old(self)),
            final(self).same_rooms(*old(self)),
            final(self).same_walls(*old(self)),
            forall|x: int, z: int| in_range(x, z) ==> !#[trigger] final(self).updated_at(x, z),
            forall|i: int|
                0 <= i < changed.len() ==> in_range(
                    (#[trigger] changed[i]).0 as int,
                    changed[i].1 as int,
                ) && old(self).updated_at(changed[i].0 as int, changed[i].1 as int),
            forall|x: int, z: int|
                in_range(x, z) && old(self).updated_at(x, z) ==> changed@.contains(
                    (x as i32, z as i32),
                ),
            forall|i: int, j: int|
                0 <= i < j < changed.len() ==> crate::grid::scanned_before(
                    #[trigger] changed[i],
                    #[trigger] changed[j],
                ),
            (forall|x: int, z: int| in_range(x, z) ==> !#[trigger] old(self).updated_at(x, z))
                ==> changed@.len() == 0,
    {
        let mut changed: Vec<(i32, i32)> = Vec::new();
        let mut x: usize = 0;
        while x < WORLD_SIZE
            invariant
                0 <= x <= WORLD_SIZE,
                self.sized(),
                self.same_settings(*old(self)),
                self.same_rooms(*old(self)),
                self.same_walls(*old(self)),
                forall|a: int, b: int|
                    in_range(a, b) ==> #[trigger] self.updated_at(a, b) == (old(self).updated_at(
                        a,
                        b,
                    ) && !(a < x)),
                forall|i: int|
                    0 <= i < changed.len() ==> in_range(
                        (#[trigger] changed[i]).0 as int,
                        changed[i].1 as int,
                    ) && old(self).updated_at(changed[i].0 as int, changed[i].1 as int)
                        && changed[i].0 < x,
                forall|a: int, b: int|
                    in_range(a, b) && old(self).updated_at(a, b) && a < x ==> changed@.contains(
                        (a as i32, b as i32),
                    ),
                forall|i: int, j: int|
                    0 <= i < j < changed.len() ==> crate::grid::scanned_before(
                        #[trigger] changed[i],
                        #[trigger] changed[j],
                    ),
            decreases WORLD_SIZE - x,
        {
            let mut z: usize = 0;
            while z < WORLD_SIZE
                invariant
                    0 <= x < WORLD_SIZE,
                    0 <= z <= WORLD_SIZE,
                    self.sized(),
                    self.same_settings(*old(self)),
                    self.same_rooms(*old(self)),
                    self.same_walls(*old(self)),
                    forall|a: int, b: int|
                        in_range(a, b) ==> #[trigger] self.updated_at(a, b) == (old(
                            self,
                        ).updated_at(a, b) && !(a < x || (a == x && b < z))),
                    forall|i: int|
                        0 <= i < changed.len() ==> in_range(
                            (#[trigger] changed[i]).0 as int,
                            changed[i].1 as int,
                        ) && old(self).updated_at(changed[i].0 as int, changed[i].1 as int) && (
                        changed[i].0 < x || (changed[i].0 == x && changed[i].1 < z)),
                    forall|a: int, b: int|
                        in_range(a, b) && old(self).updated_at(a, b) && (a < x || (a == x && b < z))
                            ==> changed@.contains((a as i32, b as i32)),
                    forall|i: int, j: int|
                        0 <= i < j < changed.len() ==> crate::grid::scanned_before(
                            #[trigger] changed[i],
                            #[trigger] changed[j],
                        ),
                decreases WORLD_SIZE - z,
            {
                let tile = self.tile(x, z);
                if tile.updated {
                    self.put(x, z, Tile { directions: tile.directions, room: tile.room, updated: false });
                    let ghost earlier = changed@;
                    changed.push((x as i32, z as i32));
                    proof {
                        assert(changed@[earlier.len() as int] == (x as i32, z as i32));
                        assert forall|a: int, b: int|
                            in_range(a, b) && old(self).updated_at(a, b) && (a < x || (a == x && b
                                < z + 1)) implies changed@.contains((a as i32, b as i32)) by {
                            if a == x && b == z {
                            } else {
                                let t = (a as i32, b as i32);
                                assert(earlier.contains(t));
                                let i = choose|i: int| 0 <= i < earlier.len() && earlier[i] == t;
                                assert(changed@[i] == t);
                            }
                        }
                    }
                }
                z += 1;
            }
            x += 1;
        }
        proof {
            assert forall|a: int, b: int| in_range(a, b) implies #[trigger] self.walls_fit(a, b) by {
                assert(old(self).walls_fit(a, b));
                lemma_walls_follow(*old(self), *self, a, b);
            }
            if changed.len() > 0 {
                assert(old(self).updated_at(changed[0].0 as int, changed[0].1 as int));
            }
        }
        changed
    }

    /// Whether the position lies in the world.
    pub fn check_position_in_range(position: [i32; 2]) -> (inside: bool)
        ensures
            inside == in_range(position[0] as int, position[1] as int),
    {
        (position[0] >= 0 && position[0] < WORLD_SIZE as i32) && (position[1] >= 0 && position[1]
            < WORLD_SIZE as i32)
    }

    /// The room of the tile at the position, or `None` outside the world.
    pub fn room(&self, position: [i32; 2]) -> (room: Option<i32>)
        requires
            self.wf(),
        ensures
            room == (if in_range(position[0] as int, position[1] as int) {
                Some(self.room_of(position[0] as int, position[1] as int) as i32)
            } else {
                None
            }),
    {
        if !Self::check_position_in_range(position) {
            return None;
        }
        Some(self.tiles[position[0] as usize][position[1] as usize].room)
    }

    /// Which edges of the tile at the position need a wall, indexed by
    /// [`DOWN`], [`RIGHT`], [`UP`] and [`LEFT`], or `None` outside the world.
    pub fn wall_directions(&self, position: [i32; 2]) -> (walls: Option<[bool; 4]>)
        requires
            self.wf(),
        ensures
            walls.is_some() == in_range(position[0] as int, position[1] as int),
            walls matches Some(flags) ==> flags@ == self.walls_of(
                position[0] as int,
                position[1] as int,
            ) && forall|edge: int|
                0 <= edge < 4 ==> #[trigger] flags[edge] == self.needs_wall(
                    position[0] as int,
                    position[1] as int,
                    edge,
                ),
    {
        if !Self::check_position_in_range(position) {
            return None;
        }
        assert(self.walls_fit(position[0] as int, position[1] as int));
        Some(self.tiles[position[0] as usize][position[1] as usize].directions)
    }
}

/// A tile at the end of the world has a wall there: on an edge beyond which
/// the world ends a tile needs a wall, whatever its room is.
pub proof fn lemma_border_has_wall(world: BuildingTiles, x: int, z: int, edge: int)
    requires
        world.wf(),
        in_range(x, z),
        0 <= edge < 4,
        !in_range(beside(x, z, edge).0, beside(x, z, edge).1),
    ensures
        world.walls_of(x, z)[edge],
{
    assert(world.walls_fit(x, z));
}

/// Two tiles of different rooms that share an edge both have a wall on it.
pub proof fn lemma_rooms_are_walled_off(world: BuildingTiles, x: int, z: int, edge: int)
    requires
        world.wf(),
        in_range(x, z),
        0 <= edge < 4,
        in_range(beside(x, z, edge).0, beside(x, z, edge).1),
        world.room_of(x, z) != world.room_of(beside(x, z, edge).0, beside(x, z, edge).1),
    ensures
        world.walls_of(x, z)[edge],
        world.walls_of(beside(x, z, edge).0, beside(x, z, edge).1)[opposite(edge)],
{
    let next = beside(x, z, edge);
    assert(world.walls_fit(x, z));
    assert(world.walls_fit(next.0, next.1));
    assert(beside(next.0, next.1, opposite(edge)) == (x, z));
}

/// The edge that faces the given edge from the other side.
pub open spec fn opposite(edge: int) -> int {
    if edge == DOWN {
        UP as int
    } else if edge == RIGHT {
        LEFT as int
    } else if edge == UP {
        DOWN as int
    } else {
        RIGHT as int
    }
}

/// Whether `tile` is what the tile `(x, z)` of an empty world holds.
spec fn is_border_tile(tile: Tile, x: int, z: int) -> bool {
    &&& tile.room == 0
    &&& !tile.updated
    &&& tile.directions@.len() == 4
    &&& tile.directions[DOWN as int] == (z == 0)
    &&& tile.directions[RIGHT as int] == (x == WORLD_SIZE - 1)
    &&& tile.directions[UP as int] == (z == WORLD_SIZE - 1)
    &&& tile.directions[LEFT as int] == (x == 0)
}

/// The lesser of two numbers.
spec fn min_of(a: int, b: int) -> int {
    if a <= b {
        a
    } else {
        b
    }
}

/// The greater of two numbers.
spec fn max_of(a: int, b: int) -> int {
    if a >= b {
        a
    } else {
        b
    }
}

/// `value` brought into the range from 0 to [`WORLD_SIZE`].
spec fn world_bound(value: int) -> int {
    if value < 0 {
        0
    } else if value > WORLD_SIZE {
        WORLD_SIZE as int
    } else {
        value
    }
}

/// Whether the tile `(a, b)` is a tile of the world in the rectangle, or
/// shares an edge with one.
pub open spec fn touches_rect(a: int, b: int, positions: [[i32; 2]; 2]) -> bool {
    exists|p: int, q: int|
        in_range(p, q) && in_rect(p, q, positions) && #[trigger] touches(a, b, p, q)
}

/// Whether the tile `(a, b)` is, or shares an edge with, a tile of the world
/// in the rectangle that comes before `(x, z)` when tiles are walked column
/// by column.
spec fn touches_part(a: int, b: int, positions: [[i32; 2]; 2], x: int, z: int) -> bool {
    exists|p: int, q: int|
        in_range(p, q) && in_rect(p, q, positions) && (p < x || (p == x && q < z))
            && #[trigger] touches(a, b, p, q)
}

proof fn lemma_touches_one_more(a: int, b: int, positions: [[i32; 2]; 2], x: int, z: int)
    requires
        in_range(x, z),
        in_rect(x, z, positions),
    ensures
        touches_part(a, b, positions, x, z + 1) == (touches_part(a, b, positions, x, z) || touches(
            a,
            b,
            x,
            z,
        )),
{
    if touches_part(a, b, positions, x, z + 1) {
        let (p, q) = choose|p: int, q: int|
            in_range(p, q) && in_rect(p, q, positions) && (p < x || (p == x && q < z + 1))
                && #[trigger] touches(a, b, p, q);
        if p == x && q == z {
        } else {
            assert(touches(a, b, p, q));
        }
    }
    if touches_part(a, b, positions, x, z) {
        let (p, q) = choose|p: int, q: int|
            in_range(p, q) && in_rect(p, q, positions) && (p < x || (p == x && q < z))
                && #[trigger] touches(a, b, p, q);
        assert(touches(a, b, p, q));
    }
    if touches(a, b, x, z) {
    }
}

proof fn lemma_touches_next_column(a: int, b: int, positions: [[i32; 2]; 2], x: int, z: int)
    requires
        z >= world_bound(max_of(positions[0][1] as int, positions[1][1] as int) + 1),
    ensures
        touches_part(a, b, positions, x + 1, 0) == touches_part(a, b, positions, x, z),
{
    if touches_part(a, b, positions, x + 1, 0) {
        let (p, q) = choose|p: int, q: int|
            in_range(p, q) && in_rect(p, q, positions) && (p < x + 1 || (p == x + 1 && q < 0))
                && #[trigger] touches(a, b, p, q);
        assert(touches(a, b, p, q));
    }
    if touches_part(a, b, positions, x, z) {
        let (p, q) = choose|p: int, q: int|
            in_range(p, q) && in_rect(p, q, positions) && (p < x || (p == x && q < z))
                && #[trigger] touches(a, b, p, q);
        assert(touches(a, b, p, q));
    }
}

proof fn lemma_touches_whole(a: int, b: int, positions: [[i32; 2]; 2], x: int)
    requires
        x >= world_bound(max_of(positions[0][0] as int, positions[1][0] as int) + 1),
    ensures
        touches_part(a, b, positions, x, 0) == touches_rect(a, b, positions),
{
    if touches_rect(a, b, positions) {
        let (p, q) = choose|p: int, q: int|
            in_range(p, q) && in_rect(p, q, positions) && #[trigger] touches(a, b, p, q);
        assert(touches(a, b, p, q));
    }
    if touches_part(a, b, positions, x, 0) {
        let (p, q) = choose|p: int, q: int|
            in_range(p, q) && in_rect(p, q, positions) && (p < x || (p == x && q < 0))
                && #[trigger] touches(a, b, p, q);
        assert(touches(a, b, p, q));
    }
}

/// `value` brought into the range from 0 to [`WORLD_SIZE`].
fn clamp_to_world(value: i64) -> (bound: usize)
    ensures
        bound == world_bound(value as int),
{
    if value < 0 {
        0
    } else if value > WORLD_SIZE as i64 {
        WORLD_SIZE
    } else {
        value as usize
    }
}

impl Default for BuildingTiles {
    /// A world in which no tile has a room, as [`BuildingTiles::new`] makes
    /// it.
    fn default() -> (world: BuildingTiles)
        ensures
            world.wf(),
            world.room_in_use() == 1,
            world.tool_in_use() == -1,
            world.grid_in_use().size() == ROOM_TILE_SIZE,
            world.grid_in_use().tiles() == no_tiles(),
            forall|x: int, z: int| in_range(x, z) ==> #[trigger] world.room_of(x, z) == 0,
            forall|x: int, z: int| in_range(x, z) ==> !#[trigger] world.updated_at(x, z),
    {
        BuildingTiles::new()
    }
}

/// The walls of a tile still fit after a change that left its wall flags, its
/// room and the rooms of its neighbours alone.
proof fn lemma_walls_follow(before: BuildingTiles, after: BuildingTiles, x: int, z: int)
    requires
        in_range(x, z),
        before.walls_fit(x, z),
        after.walls_of(x, z) == before.walls_of(x, z),
        after.room_of(x, z) == before.room_of(x, z),
        forall|edge: int|
            0 <= edge < 4 && in_range(beside(x, z, edge).0, beside(x, z, edge).1)
                ==> after.room_of(beside(x, z, edge).0, beside(x, z, edge).1) == before.room_of(
                beside(x, z, edge).0,
                beside(x, z, edge).1,
            ),
    ensures
        after.walls_fit(x, z),
{
    assert(beside(x, z, 0) == (x, z - 1));
    assert(beside(x, z, 1) == (x + 1, z));
    assert(beside(x, z, 2) == (x, z + 1));
    assert(beside(x, z, 3) == (x - 1, z));
}

} // verus!
