use tile_grid::grid::{floor_div_clamped, Grid, DEFAULT_TILE_SIZE};
use tile_grid::vector::{Vec3i, UNITS_PER_METRE};

fn metre_grid() -> Grid {
    Grid::new(1000).unwrap()
}

#[test]
fn new_rejects_tile_sizes_that_are_not_positive() {
    assert!(Grid::new(0).is_none());
    assert!(Grid::new(-5).is_none());
    assert!(Grid::new(1).is_some());
    assert_eq!(Grid::new(250).unwrap().tile_size(), 250);
}

#[test]
fn default_grid_has_tiles_of_a_fifth_of_a_metre() {
    let grid = Grid::default();
    assert_eq!(grid.tile_size(), 200);
    assert_eq!(DEFAULT_TILE_SIZE as i64 * 5, UNITS_PER_METRE);
    assert_eq!(grid.get_tile_status(0, 0), None);
}

#[test]
fn world_to_coord_rounds_towards_minus_infinity() {
    let grid = metre_grid();
    assert_eq!(grid.world_to_coord(Vec3i::new(0, 0, 0)), [0, 0]);
    assert_eq!(grid.world_to_coord(Vec3i::new(999, 0, 999)), [0, 0]);
    assert_eq!(grid.world_to_coord(Vec3i::new(1000, 0, 2500)), [1, 2]);
    assert_eq!(grid.world_to_coord(Vec3i::new(-1, 0, -1000)), [-1, -1]);
    assert_eq!(grid.world_to_coord(Vec3i::new(-1001, 0, -2000)), [-2, -2]);
}

#[test]
fn world_to_coord_ignores_height() {
    let grid = metre_grid();
    assert_eq!(grid.world_to_coord(Vec3i::new(1500, -70000, 2500)), [1, 2]);
    assert_eq!(grid.world_to_coord(Vec3i::new(1500, 123456, 2500)), [1, 2]);
}

#[test]
fn world_to_coord_saturates_far_away() {
    let grid = Grid::new(1).unwrap();
    assert_eq!(grid.world_to_coord(Vec3i::new(i64::MAX, 0, i64::MIN)), [i32::MAX, i32::MIN]);
    assert_eq!(
        grid.world_to_coord(Vec3i::new(i32::MAX as i64, 0, i32::MIN as i64)),
        [i32::MAX, i32::MIN]
    );
}

#[test]
fn floor_div_clamped_exact_values() {
    assert_eq!(floor_div_clamped(7, 2), 3);
    assert_eq!(floor_div_clamped(-7, 2), -4);
    assert_eq!(floor_div_clamped(-8, 2), -4);
    assert_eq!(floor_div_clamped(0, 9), 0);
    assert_eq!(floor_div_clamped(i64::MAX, 1), i32::MAX);
    assert_eq!(floor_div_clamped(i64::MIN, 1), i32::MIN);
    assert_eq!(floor_div_clamped(i64::MIN, i32::MAX), i32::MIN);
    assert_eq!(floor_div_clamped(-4294967298, 2), i32::MIN);
    assert_eq!(floor_div_clamped(-4294967295, 2), i32::MIN);
    assert_eq!(floor_div_clamped(-4294967294, 2), i32::MIN + 1);
}

#[test]
fn coord_to_tile_gives_the_centre_at_height_zero() {
    let grid = metre_grid();
    assert_eq!(grid.coord_to_tile([0, 0]), Vec3i::new(500, 0, 500));
    assert_eq!(grid.coord_to_tile([3, -2]), Vec3i::new(3500, 0, -1500));
    let small = Grid::default();
    assert_eq!(small.coord_to_tile([1, 1]), Vec3i::new(300, 0, 300));
}

#[test]
fn coord_to_tile_with_an_odd_tile_size_rounds_the_centre_down() {
    let grid = Grid::new(3).unwrap();
    assert_eq!(grid.coord_to_tile([0, 0]), Vec3i::new(1, 0, 1));
    assert_eq!(grid.coord_to_tile([-1, 2]), Vec3i::new(-2, 0, 7));
}

#[test]
fn coord_to_tile_reaches_the_ends_of_the_grid() {
    let grid = Grid::new(i32::MAX).unwrap();
    let far = grid.coord_to_tile([i32::MAX, i32::MIN]);
    assert_eq!(far.x, i32::MAX as i64 * i32::MAX as i64 + (i32::MAX as i64) / 2);
    assert_eq!(far.z, i32::MIN as i64 * i32::MAX as i64 + (i32::MAX as i64) / 2);
    assert_eq!(grid.world_to_coord(far), [i32::MAX, i32::MIN]);
}

#[test]
fn tile_centres_map_back_to_their_tiles() {
    for size in [1, 2, 3, 200, 1000, 4097] {
        let grid = Grid::new(size).unwrap();
        for x in -20..=20 {
            for z in -20..=20 {
                let centre = grid.coord_to_tile([x, z]);
                assert_eq!(grid.world_to_coord(centre), [x, z]);
            }
        }
        for c in [i32::MIN, i32::MIN + 1, -1, 0, 1, i32::MAX - 1, i32::MAX] {
            let centre = grid.coord_to_tile([c, 0]);
            assert_eq!(grid.world_to_coord(centre), [c, 0]);
        }
    }
}

#[test]
fn every_position_lies_in_exactly_one_tile() {
    let grid = Grid::new(200).unwrap();
    let size = 200i64;
    let mut p = -1000i64;
    while p <= 1000 {
        let tile = grid.world_to_coord(Vec3i::new(p, 0, -p));
        let mut holders = 0;
        for x in -8..=8i64 {
            if x * size <= p && p < (x + 1) * size {
                holders += 1;
                assert_eq!(tile[0] as i64, x);
            }
        }
        assert_eq!(holders, 1);
        let mut holders = 0;
        for z in -8..=8i64 {
            if z * size <= -p && -p < (z + 1) * size {
                holders += 1;
                assert_eq!(tile[1] as i64, z);
            }
        }
        assert_eq!(holders, 1);
        p += 1;
    }
}

#[test]
fn tile_edges_belong_to_the_tile_above() {
    let grid = Grid::new(200).unwrap();
    assert_eq!(grid.world_to_coord(Vec3i::new(199, 0, 200)), [0, 1]);
    assert_eq!(grid.world_to_coord(Vec3i::new(-200, 0, -201)), [-1, -2]);
}

#[test]
fn world_to_tile_snaps_to_the_centre() {
    assert_eq!(metre_grid().world_to_tile(Vec3i::new(1999, 42, -1)), Vec3i::new(1500, 0, -500));
}

#[test]
fn tile_status_follows_set_and_clear() {
    let mut grid = metre_grid();
    assert_eq!(grid.get_tile_status(2, 3), None);
    assert!(!grid.is_blocked((2, 3)));
    grid.set_tile_status(2, 3, true);
    assert_eq!(grid.get_tile_status(2, 3), Some(true));
    assert_eq!(grid.get_tile_status(3, 2), None);
    assert!(grid.is_blocked((2, 3)));
    grid.set_tile_status(2, 3, false);
    assert_eq!(grid.get_tile_status(2, 3), Some(false));
    assert!(!grid.is_blocked((2, 3)));
    grid.set_tile_status(2, 3, true);
    grid.clear_tile_status(2, 3);
    assert_eq!(grid.get_tile_status(2, 3), None);
    assert!(!grid.is_blocked((2, 3)));
}

#[test]
fn obstructed_looks_at_the_tile_of_the_position() {
    let mut grid = metre_grid();
    grid.set_tile_status(-1, 4, true);
    assert!(grid.obstructed(&Vec3i::new(-1, 900, 4000)));
    assert!(grid.obstructed(&Vec3i::new(-1000, 0, 4999)));
    assert!(!grid.obstructed(&Vec3i::new(0, 0, 4000)));
    assert!(!grid.obstructed(&Vec3i::new(-1, 0, 5000)));
}

#[test]
fn a_copy_of_a_grid_is_independent() {
    let mut grid = metre_grid();
    grid.set_tile_status(1, 1, true);
    let mut copy = grid.clone();
    assert_eq!(copy.tile_size(), 1000);
    assert_eq!(copy.get_tile_status(1, 1), Some(true));
    copy.set_tile_status(2, 2, true);
    copy.clear_tile_status(1, 1);
    assert_eq!(grid.get_tile_status(1, 1), Some(true));
    assert_eq!(grid.get_tile_status(2, 2), None);
    let other = grid.duplicate();
    assert_eq!(other.get_tile_status(1, 1), Some(true));
}
