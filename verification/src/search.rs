//! A* over the occupancy map: which moves a tile offers, what a move costs,
//! the estimate of what is left, and the search itself, which the
//! `pathfinding` crate runs.

use vstd::prelude::*;
use crate::grid::{lemma_centre_maps_to_its_tile, on_grid, Grid};
use crate::path::{corners_cut, Path, PathfindingError};
use crate::vector::Vec3i;

verus! {

/// How many tiles a search may expand. One that expands more has failed.
pub const MAX_ITERATIONS: u32 = 100000;

/// The cost of a move to a tile that shares an edge.
pub const STRAIGHT_COST: i64 = 1;

/// The cost of a move to a tile that shares only a corner.
pub const DIAGONAL_COST: i64 = 2;

/// The offset of move number `k`. The moves are numbered in the order in
/// which a search tries them: left, right, down, up, down-left, down-right,
/// up-left, up-right.
pub open spec fn step_offset(k: int) -> (int, int) {
    if k == 0 {
        (-1, 0)
    } else if k == 1 {
        (1, 0)
    } else if k == 2 {
        (0, -1)
    } else if k == 3 {
        (0, 1)
    } else if k == 4 {
        (-1, -1)
    } else if k == 5 {
        (1, -1)
    } else if k == 6 {
        (-1, 1)
    } else {
        (1, 1)
    }
}

/// The cost of move number `k`: the first four are straight, the rest
/// diagonal.
pub open spec fn step_cost(k: int) -> int {
    if k < 4 {
        STRAIGHT_COST as int
    } else {
        DIAGONAL_COST as int
    }
}

/// Where move number `k` leads from `tile`.
pub open spec fn neighbour(tile: (i32, i32), k: int) -> (int, int) {
    (tile.0 + step_offset(k).0, tile.1 + step_offset(k).1)
}

/// Whether both coordinates can be held in an `i32`.
pub open spec fn tile_on_grid(tile: (int, int)) -> bool {
    on_grid(tile.0) && on_grid(tile.1)
}

/// Whether the tile is open: the map does not hold `true` for it.
pub open spec fn is_open(tiles: Map<(i32, i32), bool>, tile: (i32, i32)) -> bool {
    !(tiles.dom().contains(tile) && tiles[tile])
}

/// The moves among the first `count` that `tile` offers, each with the tile
/// it leads to and its cost: those that stay on the grid and lead to an open
/// tile, in the order of their numbers.
pub open spec fn open_moves(tiles: Map<(i32, i32), bool>, tile: (i32, i32), count: nat) -> Seq<
    ((i32, i32), i64),
>
    decreases count,
{
    if count == 0 {
        Seq::empty()
    } else {
        let k = count - 1;
        let earlier = open_moves(tiles, tile, k as nat);
        let to = neighbour(tile, k);
        if tile_on_grid(to) && is_open(tiles, (to.0 as i32, to.1 as i32)) {
            earlier.push(((to.0 as i32, to.1 as i32), step_cost(k) as i64))
        } else {
            earlier
        }
    }
}

/// The distance between two numbers.
pub open spec fn distance(a: int, b: int) -> int {
    if a >= b {
        a - b
    } else {
        b - a
    }
}

/// The octile distance between two tiles: an estimate, never too high, of
/// what the cheapest way between them costs.
pub open spec fn octile_distance(tile: (i32, i32), goal: (i32, i32)) -> int {
    let dx = distance(tile.0 as int, goal.0 as int);
    let dz = distance(tile.1 as int, goal.1 as int);
    let least = if dx <= dz {
        dx
    } else {
        dz
    };
    STRAIGHT_COST * (dx + dz) + (DIAGONAL_COST - 2 * STRAIGHT_COST) * least
}

/// Whether two tiles share an edge or a corner.
pub open spec fn adjacent(a: (i32, i32), b: (i32, i32)) -> bool {
    a != b && distance(a.0 as int, b.0 as int) <= 1 && distance(a.1 as int, b.1 as int) <= 1
}

/// Whether `route` leads from `start` to `goal` over the open tiles: it
/// begins at `start`, ends at `goal`, and each of its tiles after the first
/// is open and adjacent to the one before.
pub open spec fn is_route(
    tiles: Map<(i32, i32), bool>,
    start: (i32, i32),
    goal: (i32, i32),
    route: Seq<(i32, i32)>,
) -> bool {
    &&& route.len() >= 1
    &&& route[0] == start
    &&& route.last() == goal
    &&& forall|i: int|
        0 <= i < route.len() - 1 ==> adjacent(#[trigger] route[i], route[i + 1]) && is_open(
            tiles,
            route[i + 1],
        )
}

/// The cost of the move between two adjacent tiles: diagonal when both
/// coordinates change, straight otherwise.
pub open spec fn move_cost(from: (i32, i32), to: (i32, i32)) -> int {
    if from.0 != to.0 && from.1 != to.1 {
        DIAGONAL_COST as int
    } else {
        STRAIGHT_COST as int
    }
}

/// The cost of a route: the sum of the costs of its moves.
pub open spec fn route_cost(route: Seq<(i32, i32)>) -> int
    decreases route.len(),
{
    if route.len() <= 1 {
        0
    } else {
        route_cost(route.drop_last()) + move_cost(route[route.len() - 2], route.last())
    }
}

/// Whether `route` leads from `start` to `goal` over the open tiles at no
/// greater cost than any other route that does.
pub open spec fn is_cheapest_route(
    tiles: Map<(i32, i32), bool>,
    start: (i32, i32),
    goal: (i32, i32),
    route: Seq<(i32, i32)>,
) -> bool {
    &&& is_route(tiles, start, goal, route)
    &&& forall|other: Seq<(i32, i32)>| #[trigger]
        is_route(tiles, start, goal, other) ==> route_cost(route) <= route_cost(other)
}

/// Whether no route leads from `start` to `goal` over the open tiles.
pub open spec fn no_route(tiles: Map<(i32, i32), bool>, start: (i32, i32), goal: (i32, i32)) -> bool {
    forall|other: Seq<(i32, i32)>| !#[trigger] is_route(tiles, start, goal, other)
}

/// The cost of two routes laid end to end is the cost of each and of the
/// move that joins them.
proof fn lemma_cost_of_joined(first: Seq<(i32, i32)>, second: Seq<(i32, i32)>)
    requires
        first.len() >= 1,
        second.len() >= 1,
    ensures
        route_cost(first + second) == route_cost(first) + move_cost(first.last(), second[0])
            + route_cost(second),
    decreases second.len(),
{
    let joined = first + second;
    if second.len() == 1 {
        assert(joined.drop_last() =~= first);
    } else {
        let shorter = second.drop_last();
        assert(joined.drop_last() =~= first + shorter);
        lemma_cost_of_joined(first, shorter);
        assert(joined[joined.len() - 2] == second[second.len() - 2]);
        assert(joined.last() == second.last());
        assert(shorter[0] == second[0]);
    }
}

/// A longer beginning of a route costs more than a shorter one.
proof fn lemma_cost_grows(route: Seq<(i32, i32)>, shorter: int, longer: int)
    requires
        1 <= shorter < longer <= route.len(),
    ensures
        route_cost(route.take(shorter)) < route_cost(route.take(longer)),
    decreases longer - shorter,
{
    let long = route.take(longer);
    assert(long.drop_last() =~= route.take(longer - 1));
    if shorter < longer - 1 {
        lemma_cost_grows(route, shorter, longer - 1);
    }
}

/// A route that visits a tile twice is not a cheapest one: leaving out what
/// lies between the two visits gives a route that costs less.
pub proof fn lemma_cheapest_route_visits_no_tile_twice(
    tiles: Map<(i32, i32), bool>,
    start: (i32, i32),
    goal: (i32, i32),
    route: Seq<(i32, i32)>,
)
    requires
        is_cheapest_route(tiles, start, goal, route),
    ensures
        route.no_duplicates(),
{
    assert forall|i: int, j: int| 0 <= i < j < route.len() implies route[i] != route[j] by {
        if route[i] == route[j] {
            let head = route.take(i + 1);
            let tail = route.skip(j + 1);
            let cut = head + tail;
            assert(cut.len() >= 1);
            assert(cut[0] == route[0]);
            assert(cut.last() == route.last()) by {
                if tail.len() == 0 {
                    assert(cut.last() == head.last());
                } else {
                    assert(cut.last() == tail.last());
                }
            }
            assert forall|k: int| 0 <= k < cut.len() - 1 implies adjacent(
                #[trigger] cut[k],
                cut[k + 1],
            ) && is_open(tiles, cut[k + 1]) by {
                if k < i {
                    assert(cut[k] == route[k] && cut[k + 1] == route[k + 1]);
                } else if k == i {
                    assert(cut[k] == route[j]);
                    assert(cut[k + 1] == route[j + 1]);
                    assert(adjacent(route[j], route[j + 1]));
                } else {
                    assert(cut[k] == route[k + j - i]);
                    assert(cut[k + 1] == route[k + j - i + 1]);
                    assert(adjacent(route[k + j - i], route[k + j - i + 1]));
                }
            }
            assert(is_route(tiles, start, goal, cut));
            lemma_cost_grows(route, i + 1, j + 1);
            if tail.len() == 0 {
                assert(cut =~= head);
                assert(route.take(j + 1) =~= route);
            } else {
                lemma_cost_of_joined(head, tail);
                lemma_cost_of_joined(route.take(j + 1), tail);
                assert(route.take(j + 1) + tail =~= route);
                assert(head.last() == route[i]);
                assert(route.take(j + 1).last() == route[j]);
            }
            assert(route_cost(cut) < route_cost(route));
        }
    }
}

/// With a diagonal move at the price of two straight ones, the octile
/// distance is the number of steps along X plus the number along Z.
proof fn lemma_octile_counts_steps(tile: (i32, i32), goal: (i32, i32))
    ensures
        octile_distance(tile, goal) == distance(tile.0 as int, goal.0 as int) + distance(
            tile.1 as int,
            goal.1 as int,
        ),
{
    let dx = distance(tile.0 as int, goal.0 as int);
    let dz = distance(tile.1 as int, goal.1 as int);
    let least = if dx <= dz {
        dx
    } else {
        dz
    };
    assert((DIAGONAL_COST - 2 * STRAIGHT_COST) * least == 0) by (nonlinear_arith)
        requires
            DIAGONAL_COST - 2 * STRAIGHT_COST == 0,
    ;
    assert(STRAIGHT_COST * (dx + dz) == dx + dz) by (nonlinear_arith)
        requires
            STRAIGHT_COST == 1,
    ;
}

/// The estimate is never too high: no route between two tiles costs less
/// than their octile distance. This is what A* asks of an estimate for the
/// way it finds to be a cheapest one.
pub proof fn lemma_estimate_is_never_too_high(
    tiles: Map<(i32, i32), bool>,
    start: (i32, i32),
    goal: (i32, i32),
    route: Seq<(i32, i32)>,
)
    requires
        is_route(tiles, start, goal, route),
    ensures
        octile_distance(start, goal) <= route_cost(route),
    decreases route.len(),
{
    lemma_octile_counts_steps(start, goal);
    if route.len() > 1 {
        let shorter = route.drop_last();
        let before = route[route.len() - 2];
        lemma_octile_counts_steps(start, before);
        assert(shorter.last() == before);
        assert forall|i: int| 0 <= i < shorter.len() - 1 implies adjacent(
            #[trigger] shorter[i],
            shorter[i + 1],
        ) && is_open(tiles, shorter[i + 1]) by {
            assert(shorter[i] == route[i]);
            assert(shorter[i + 1] == route[i + 1]);
        }
        lemma_estimate_is_never_too_high(tiles, start, before, shorter);
        assert(adjacent(route[route.len() - 2], route[route.len() - 2 + 1]));
    }
}

/// What the A* search of the `pathfinding` crate gives for an occupancy map,
/// a start tile and a goal tile, when it is run with the moves of
/// [`expand`], the estimate of [`heuristic`] and the test of [`is_goal`]:
/// the tiles of the way it found, if it found one, and how many tiles it
/// expanded.
pub uninterp spec fn astar_search(
    tiles: Map<(i32, i32), bool>,
    start: (i32, i32),
    goal: (i32, i32),
) -> (Option<Seq<(i32, i32)>>, nat);

/// The offset and the cost of move number `k`.
fn step(k: usize) -> (offset: (i64, i64, i64))
    requires
        k < 8,
    ensures
        (offset.0 as int, offset.1 as int) == step_offset(k as int),
        offset.2 == step_cost(k as int),
{
    if k == 0 {
        (-1, 0, STRAIGHT_COST)
    } else if k == 1 {
        (1, 0, STRAIGHT_COST)
    } else if k == 2 {
        (0, -1, STRAIGHT_COST)
    } else if k == 3 {
        (0, 1, STRAIGHT_COST)
    } else if k == 4 {
        (-1, -1, DIAGONAL_COST)
    } else if k == 5 {
        (1, -1, DIAGONAL_COST)
    } else if k == 6 {
        (-1, 1, DIAGONAL_COST)
    } else {
        (1, 1, DIAGONAL_COST)
    }
}

/// The moves that `tile` offers: to each of its eight neighbours that is on
/// the grid and open, with the cost of the move.
pub fn open_neighbours(grid: &Grid, tile: (i32, i32)) -> (moves: Vec<((i32, i32), i64)>)
    ensures
        moves@ == open_moves(grid.tiles(), tile, 8),
{
    let mut moves: Vec<((i32, i32), i64)> = Vec::new();
    let mut k: usize = 0;
    while k < 8
        invariant
            0 <= k <= 8,
            moves@ == open_moves(grid.tiles(), tile, k as nat),
        decreases 8 - k,
    {
        let (dx, dz, cost) = step(k);
        let x: i64 = tile.0 as i64 + dx;
        let z: i64 = tile.1 as i64 + dz;
        if i32::MIN as i64 <= x && x <= i32::MAX as i64 && i32::MIN as i64 <= z && z
            <= i32::MAX as i64 {
            let to = (x as i32, z as i32);
            if !grid.is_blocked(to) {
                moves.push((to, cost));
            }
        }
        k += 1;
    }
    moves
}

/// One expansion of a search: counts it in `iterations`, and gives the moves
/// that `tile` offers, or none once more than [`MAX_ITERATIONS`] expansions
/// were counted.
pub fn expand(grid: &Grid, tile: (i32, i32), iterations: &mut u32) -> (moves: Vec<
    ((i32, i32), i64),
>)
    ensures
        *final(iterations) == (if *old(iterations) < u32::MAX {
            *old(iterations) + 1
        } else {
            u32::MAX as int
        }),
        moves@ == (if *final(iterations) > MAX_ITERATIONS {
            Seq::empty()
        } else {
            open_moves(grid.tiles(), tile, 8)
        }),
{
    if *iterations < u32::MAX {
        *iterations = *iterations + 1;
    }
    if *iterations > MAX_ITERATIONS {
        Vec::new()
    } else {
        open_neighbours(grid, tile)
    }
}

/// The estimate of what the way from `tile` to `goal` costs.
pub fn heuristic(tile: (i32, i32), goal: (i32, i32)) -> (estimate: i64)
    ensures
        estimate == octile_distance(tile, goal),
        estimate == distance(tile.0 as int, goal.0 as int) + distance(
            tile.1 as int,
            goal.1 as int,
        ),
{
    proof {
        lemma_octile_counts_steps(tile, goal);
    }
    let dx: i64 = if tile.0 >= goal.0 {
        tile.0 as i64 - goal.0 as i64
    } else {
        goal.0 as i64 - tile.0 as i64
    };
    let dz: i64 = if tile.1 >= goal.1 {
        tile.1 as i64 - goal.1 as i64
    } else {
        goal.1 as i64 - tile.1 as i64
    };
    let least: i64 = if dx <= dz {
        dx
    } else {
        dz
    };
    STRAIGHT_COST * (dx + dz) + (DIAGONAL_COST - 2 * STRAIGHT_COST) * least
}

/// Whether `tile` is the goal.
pub fn is_goal(tile: (i32, i32), goal: (i32, i32)) -> (reached: bool)
    ensures
        reached == (tile == goal),
{
    tile.0 == goal.0 && tile.1 == goal.1
}

/// The route that a search found, seen as a sequence of tiles.
pub open spec fn route_view(route: Option<Vec<(i32, i32)>>) -> Option<Seq<(i32, i32)>> {
    match route {
        Some(tiles) => Some(tiles@),
        None => None,
    }
}

/// Trusted: runs `pathfinding::directed::astar::astar` from `start`, with
/// [`expand`] for the successors of a tile, [`heuristic`] for the estimate
/// and [`is_goal`] for the test of success, and returns the tiles of the way
/// found together with the number of expansions.
///
/// The contract claims that the outcome depends on the occupancy map, the
/// start and the goal alone, and that a way which `astar` returns begins at
/// the start, ends at a tile that passed the test of success, and goes at
/// each step to a tile that the successors of the tile before held. It also
/// claims what `astar` is documented to compute where the estimate is never
/// too high, which [`lemma_estimate_is_never_too_high`] shows: as long as the
/// limit on expansions was not passed, so that every tile was given all its
/// moves, a way returned is a cheapest one, and `None` means that there is
/// no way.
#[verifier::external_body]
pub(crate) fn run_astar(grid: &Grid, start: (i32, i32), goal: (i32, i32)) -> (outcome: (
    Option<Vec<(i32, i32)>>,
    u32,
))
    ensures
        (route_view(outcome.0), outcome.1 as nat) == astar_search(grid.tiles(), start, goal),
        outcome.0 matches Some(route) ==> is_route(grid.tiles(), start, goal, route@),
        outcome.1 <= MAX_ITERATIONS ==> (match outcome.0 {
            Some(route) => is_cheapest_route(grid.tiles(), start, goal, route@),
            None => no_route(grid.tiles(), start, goal),
        }),
{
    let mut expanded: u32 = 0;
    let found = pathfinding::directed::astar::astar(
        &start,
        |tile| expand(grid, *tile, &mut expanded),
        |tile| heuristic(*tile, goal),
        |tile| is_goal(*tile, goal),
    );
    (found.map(|way| way.0), expanded)
}

/// The outcome of a path request, with the path seen as its waypoints.
pub open spec fn path_view(outcome: Result<Path, PathfindingError>) -> Result<
    Seq<Vec3i>,
    PathfindingError,
> {
    match outcome {
        Ok(path) => Ok(path@),
        Err(error) => Err(error),
    }
}

/// Whether `steps` is a way whose waypoints lie in the tiles of `route`, one
/// after the other.
spec fn follows(grid: Grid, steps: Seq<Vec3i>, route: Seq<(i32, i32)>) -> bool {
    &&& steps.len() == route.len()
    &&& forall|i: int|
        0 <= i < steps.len() ==> grid.coord_of(#[trigger] steps[i]) == route[i] && steps[i].y == 0
}

/// The waypoints made of the tiles of a route lie at height zero, each in
/// the tile it was made of.
proof fn lemma_steps_lie_on_route(grid: Grid, route: Seq<(i32, i32)>)
    requires
        grid.wf(),
    ensures
        follows(grid, grid.centres_of(route), route),
{
    let steps = grid.centres_of(route);
    assert forall|i: int| 0 <= i < steps.len() implies grid.coord_of(#[trigger] steps[i])
        == route[i] && steps[i].y == 0 by {
        lemma_centre_maps_to_its_tile(grid, route[i]);
        assert(steps[i] == grid.centre_of(route[i]));
    }
}

/// Waypoints that follow a route without a tile visited twice, from an open
/// tile, are a way in the sense of [`Grid::is_way`].
proof fn lemma_following_a_route_is_a_way(
    grid: Grid,
    start: Vec3i,
    end: Vec3i,
    route: Seq<(i32, i32)>,
    steps: Seq<Vec3i>,
)
    requires
        !grid.blocked(grid.coord_of(start)),
        is_route(grid.tiles(), grid.coord_of(start), grid.coord_of(end), route),
        route.no_duplicates(),
        follows(grid, steps, route),
        steps[0] == grid.centre_of(grid.coord_of(start)),
        steps.last() == grid.centre_of(grid.coord_of(end)),
    ensures
        grid.is_way(start, end, steps),
{
    assert forall|i: int| 0 <= i < steps.len() implies (#[trigger] steps[i]).y == 0
        && !grid.blocked(grid.coord_of(steps[i])) by {
        if i > 0 {
            assert(adjacent(route[i - 1], route[i - 1 + 1]) && is_open(
                grid.tiles(),
                route[i - 1 + 1],
            ));
        }
    }
    assert forall|i: int| 0 <= i < steps.len() - 1 implies adjacent(
        grid.coord_of(#[trigger] steps[i]),
        grid.coord_of(steps[i + 1]),
    ) by {
        assert(adjacent(route[i], route[i + 1]));
    }
    assert forall|i: int, j: int| 0 <= i < j < steps.len() implies grid.coord_of(
        #[trigger] steps[i],
    ) != grid.coord_of(#[trigger] steps[j]) by {
        assert(route[i] != route[j]);
    }
}

/// A cheapest route, walked on the grid, is a way in the sense of
/// [`Grid::is_way`].
proof fn lemma_route_gives_way(grid: Grid, start: Vec3i, end: Vec3i, route: Seq<(i32, i32)>)
    requires
        grid.wf(),
        !grid.blocked(grid.coord_of(start)),
        is_cheapest_route(grid.tiles(), grid.coord_of(start), grid.coord_of(end), route),
    ensures
        grid.is_way(start, end, grid.centres_of(route)),
{
    let steps = grid.centres_of(route);
    lemma_cheapest_route_visits_no_tile_twice(
        grid.tiles(),
        grid.coord_of(start),
        grid.coord_of(end),
        route,
    );
    lemma_steps_lie_on_route(grid, route);
    assert(steps[0] == grid.centre_of(route[0]));
    assert(steps.last() == grid.centre_of(route.last()));
    lemma_following_a_route_is_a_way(grid, start, end, route, steps);
}

impl Grid {
    /// The centres of the tiles of a route, in order.
    pub open spec fn centres_of(self, route: Seq<(i32, i32)>) -> Seq<Vec3i> {
        route.map_values(|tile: (i32, i32)| self.centre_of(tile))
    }

    /// What the outcome of a search becomes. A search that expanded more
    /// tiles than [`MAX_ITERATIONS`] has failed, whatever it found. Else the
    /// outcome is the centres of the tiles of the way found, or the news that
    /// there is none.
    pub open spec fn path_of(self, outcome: (Option<Seq<(i32, i32)>>, nat)) -> Result<
        Seq<Vec3i>,
        PathfindingError,
    > {
        if outcome.1 > MAX_ITERATIONS {
            Err(PathfindingError::IterationLimitExceeded)
        } else {
            match outcome.0 {
                Some(route) => Ok(self.centres_of(route)),
                None => Err(PathfindingError::NoPath),
            }
        }
    }

    /// What a path request gives: nothing when the tile of the start or of
    /// the end is blocked, else whatever the search between the two tiles
    /// gives.
    pub open spec fn path_between(self, start: Vec3i, end: Vec3i) -> Result<
        Seq<Vec3i>,
        PathfindingError,
    > {
        if self.blocked(self.coord_of(start)) || self.blocked(self.coord_of(end)) {
            Err(PathfindingError::Blocked)
        } else {
            self.path_of(astar_search(self.tiles(), self.coord_of(start), self.coord_of(end)))
        }
    }

    /// How many tiles a path request expands: none when the tile of the
    /// start or of the end is blocked, else as many as the search between the
    /// two tiles does.
    pub open spec fn expansions_between(self, start: Vec3i, end: Vec3i) -> nat {
        if self.blocked(self.coord_of(start)) || self.blocked(self.coord_of(end)) {
            0
        } else {
            astar_search(self.tiles(), self.coord_of(start), self.coord_of(end)).1
        }
    }

    /// Whether `steps` is a way over the grid from `start` to `end`: it
    /// begins at the centre of the start's tile and ends at the centre of the
    /// end's tile, every waypoint lies at height zero in an open tile, each
    /// waypoint's tile is adjacent to the one before, and no tile is visited
    /// twice.
    pub open spec fn is_way(self, start: Vec3i, end: Vec3i, steps: Seq<Vec3i>) -> bool {
        &&& steps.len() >= 1
        &&& steps[0] == self.centre_of(self.coord_of(start))
        &&& steps.last() == self.centre_of(self.coord_of(end))
        &&& forall|i: int|
            0 <= i < steps.len() ==> (#[trigger] steps[i]).y == 0 && !self.blocked(
                self.coord_of(steps[i]),
            )
        &&& forall|i: int|
            0 <= i < steps.len() - 1 ==> adjacent(
                self.coord_of(#[trigger] steps[i]),
                self.coord_of(steps[i + 1]),
            )
        &&& forall|i: int, j: int|
            0 <= i < j < steps.len() ==> self.coord_of(#[trigger] steps[i]) != self.coord_of(
                #[trigger] steps[j],
            )
    }

    /// Whether `steps` is a cheapest way from `start` to `end`: the centres of
    /// the tiles of a route that costs no more than any other route between
    /// the two tiles.
    pub open spec fn is_cheapest_way(self, start: Vec3i, end: Vec3i, steps: Seq<Vec3i>) -> bool {
        exists|route: Seq<(i32, i32)>|
            #![auto]
            is_cheapest_route(self.tiles(), self.coord_of(start), self.coord_of(end), route)
                && steps == self.centres_of(route)
    }

    /// Turn the outcome of a search into the outcome of a path request. A
    /// search that expanded more tiles than [`MAX_ITERATIONS`] has failed,
    /// whatever it found. Else the path is the centres of the tiles of
    /// `route`, in order, and without a route there is no path.
    pub fn path_from_search(&self, route: Option<Vec<(i32, i32)>>, expanded: u32) -> (outcome:
        Result<Path, PathfindingError>)
        ensures
            path_view(outcome) == self.path_of((route_view(route), expanded as nat)),
    {
        if expanded > MAX_ITERATIONS {
            return Err(PathfindingError::IterationLimitExceeded);
        }
        match route {
            Some(tiles) => {
                let mut steps: Vec<Vec3i> = Vec::new();
                let mut i: usize = 0;
                while i < tiles.len()
                    invariant
                        0 <= i <= tiles.len(),
                        steps.len() == i,
                        forall|j: int| 0 <= j < i ==> #[trigger] steps[j] == self.centre_of(tiles[j]),
                    decreases tiles.len() - i,
                {
                    let tile = tiles[i];
                    steps.push(self.coord_to_tile([tile.0, tile.1]));
                    i += 1;
                }
                assert(steps@ =~= self.centres_of(tiles@));
                Ok(Path { steps })
            },
            None => Err(PathfindingError::NoPath),
        }
    }

    /// Find a way from `start` to `end` over the open tiles, and tell how
    /// many tiles the search expanded on the way.
    ///
    /// Fails at once with [`PathfindingError::Blocked`], with no tile
    /// expanded, when the tile of either end is blocked. Fails with
    /// [`PathfindingError::IterationLimitExceeded`] when the search expanded
    /// more tiles than [`MAX_ITERATIONS`], and with
    /// [`PathfindingError::NoPath`] only where there is no way at all. A way
    /// that is found is a cheapest one: it begins at the centre of the
    /// start's tile, ends at the centre of the end's tile, goes from each tile
    /// to an open tile next to it, and visits no tile twice.
    pub fn find_path_counted(&self, start: &Vec3i, end: &Vec3i) -> (outcome: (
        Result<Path, PathfindingError>,
        u32,
    ))
        ensures
            path_view(outcome.0) == self.path_between(*start, *end),
            outcome.1 == self.expansions_between(*start, *end),
            self.blocked(self.coord_of(*start)) || self.blocked(self.coord_of(*end)) ==> outcome.0
                == Err::<Path, PathfindingError>(PathfindingError::Blocked) && outcome.1 == 0,
            outcome.1 > MAX_ITERATIONS ==> outcome.0 == Err::<Path, PathfindingError>(
                PathfindingError::IterationLimitExceeded,
            ),
            outcome.0 matches Ok(path) ==> self.is_way(*start, *end, path@) && self.is_cheapest_way(
                *start,
                *end,
                path@,
            ),
            outcome.0 == Err::<Path, PathfindingError>(PathfindingError::NoPath) ==> no_route(
                self.tiles(),
                self.coord_of(*start),
                self.coord_of(*end),
            ),
    {
        if self.obstructed(start) || self.obstructed(end) {
            return (Err(PathfindingError::Blocked), 0);
        }
        let size = self.tile_size();
        let start_index = self.world_to_coord(*start);
        let end_index = self.world_to_coord(*end);
        let found = run_astar(
            self,
            (start_index[0], start_index[1]),
            (end_index[0], end_index[1]),
        );
        let ghost route = found.0;
        let expanded = found.1;
        let outcome = self.path_from_search(found.0, expanded);
        proof {
            if expanded <= MAX_ITERATIONS {
                if let Some(tiles) = route {
                    lemma_route_gives_way(*self, *start, *end, tiles@);
                }
            }
        }
        (outcome, expanded)
    }

    /// Find a way from `start` to `end` over the open tiles.
    ///
    /// Fails at once with [`PathfindingError::Blocked`] when the tile of
    /// either end is blocked. Fails with
    /// [`PathfindingError::IterationLimitExceeded`] when the search expanded
    /// more tiles than [`MAX_ITERATIONS`], and with
    /// [`PathfindingError::NoPath`] only where there is no way at all. A way
    /// that is found is a cheapest one: it begins at the centre of the
    /// start's tile, ends at the centre of the end's tile, goes from each tile
    /// to an open tile next to it, and visits no tile twice.
    pub fn find_path(&self, start: &Vec3i, end: &Vec3i) -> (outcome: Result<
        Path,
        PathfindingError,
    >)
        ensures
            path_view(outcome) == self.path_between(*start, *end),
            self.blocked(self.coord_of(*start)) || self.blocked(self.coord_of(*end)) ==> outcome
                == Err::<Path, PathfindingError>(PathfindingError::Blocked),
            self.expansions_between(*start, *end) > MAX_ITERATIONS ==> outcome == Err::<
                Path,
                PathfindingError,
            >(PathfindingError::IterationLimitExceeded),
            outcome matches Ok(path) ==> self.is_way(*start, *end, path@) && self.is_cheapest_way(
                *start,
                *end,
                path@,
            ),
            outcome == Err::<Path, PathfindingError>(PathfindingError::NoPath) ==> no_route(
                self.tiles(),
                self.coord_of(*start),
                self.coord_of(*end),
            ),
    {
        self.find_path_counted(start, end).0
    }

    /// Find a way from `start` to `end` as [`Grid::find_path`] does, and cut
    /// its corners as [`Path::optimize_corners`] does.
    pub fn find_optimized_path(&self, start: &Vec3i, end: &Vec3i) -> (outcome: Result<
        Path,
        PathfindingError,
    >)
        ensures
            path_view(outcome) == (match self.path_between(*start, *end) {
                Ok(steps) => Ok(corners_cut(steps, 0)),
                Err(error) => Err(error),
            }),
    {
        match self.find_path(start, end) {
            Ok(path) => {
                let mut path = path;
                path.optimize_corners();
                Ok(path)
            },
            Err(error) => Err(error),
        }
    }
}

} // verus!
