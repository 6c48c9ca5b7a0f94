use tile_grid::walls::{BuildingTiles, DOWN, LEFT, RIGHT, ROOM_TILE_SIZE, UP, WORLD_SIZE};

#[test]
fn edges_are_numbered_clockwise_from_down() {
    assert_eq!((DOWN, RIGHT, UP, LEFT), (0, 1, 2, 3));
    assert_eq!(WORLD_SIZE, 50);
    assert_eq!(ROOM_TILE_SIZE, 1000);
}

#[test]
fn positions_in_range() {
    assert!(BuildingTiles::check_position_in_range([0, 0]));
    assert!(BuildingTiles::check_position_in_range([49, 49]));
    assert!(!BuildingTiles::check_position_in_range([50, 0]));
    assert!(!BuildingTiles::check_position_in_range([0, 50]));
    assert!(!BuildingTiles::check_position_in_range([-1, 3]));
    assert!(!BuildingTiles::check_position_in_range([3, -1]));
    assert!(!BuildingTiles::check_position_in_range([i32::MIN, i32::MAX]));
}

#[test]
fn a_new_world_has_walls_along_its_border_only() {
    let world = BuildingTiles::new();
    assert_eq!(world.current_room, 1);
    assert_eq!(world.tool, -1);
    assert_eq!(world.grid.tile_size(), 1000);
    for x in 0..50 {
        for z in 0..50 {
            assert_eq!(world.room([x, z]), Some(0));
            assert_eq!(
                world.wall_directions([x, z]),
                Some([z == 0, x == 49, z == 49, x == 0])
            );
        }
    }
    let world = BuildingTiles::default();
    assert_eq!(world.wall_directions([0, 0]), Some([true, false, false, true]));
    assert_eq!(world.wall_directions([49, 49]), Some([false, true, true, false]));
}

#[test]
fn outside_the_world_there_is_nothing_to_read() {
    let world = BuildingTiles::new();
    assert_eq!(world.wall_directions([50, 0]), None);
    assert_eq!(world.wall_directions([0, -1]), None);
    assert_eq!(world.room([-1, 0]), None);
    assert_eq!(world.room([0, 50]), None);
}

#[test]
fn a_room_of_one_tile_is_walled_on_all_sides() {
    let mut world = BuildingTiles::new();
    world.take_recently_updated();
    world.set_room_to_tile([10, 20]);
    assert_eq!(world.room([10, 20]), Some(1));
    assert_eq!(world.wall_directions([10, 20]), Some([true, true, true, true]));
    assert_eq!(world.wall_directions([10, 19]), Some([false, false, true, false]));
    assert_eq!(world.wall_directions([11, 20]), Some([false, false, false, true]));
    assert_eq!(world.wall_directions([10, 21]), Some([true, false, false, false]));
    assert_eq!(world.wall_directions([9, 20]), Some([false, true, false, false]));
    assert_eq!(world.wall_directions([11, 21]), Some([false, false, false, false]));
    assert_eq!(
        world.take_recently_updated(),
        vec![(9, 20), (10, 19), (10, 20), (10, 21), (11, 20)]
    );
    assert_eq!(world.take_recently_updated(), Vec::new());
}

#[test]
fn tiles_of_one_room_have_no_wall_between_them() {
    let mut world = BuildingTiles::new();
    world.set_room_to_tile([10, 20]);
    world.set_room_to_tile([11, 20]);
    assert_eq!(world.wall_directions([10, 20]), Some([true, false, true, true]));
    assert_eq!(world.wall_directions([11, 20]), Some([true, true, true, false]));
}

#[test]
fn a_tile_that_leaves_a_room_is_walled_off_from_it() {
    let mut world = BuildingTiles::new();
    world.set_room_to_tile([10, 20]);
    world.set_room_to_tile([11, 20]);
    world.current_room = 2;
    world.set_room_to_tile([11, 20]);
    assert_eq!(world.room([11, 20]), Some(2));
    assert_eq!(world.wall_directions([11, 20]), Some([true, true, true, true]));
    // The neighbour stays in room 1 and gets its wall back.
    assert_eq!(world.wall_directions([10, 20]), Some([true, true, true, true]));
    world.current_room = 0;
    world.set_room_to_tile([11, 20]);
    world.set_room_to_tile([10, 20]);
    for x in 8..=13 {
        for z in 18..=22 {
            assert_eq!(world.wall_directions([x, z]), Some([false, false, false, false]));
        }
    }
}

#[test]
fn setting_a_room_outside_the_world_changes_nothing() {
    let mut world = BuildingTiles::new();
    world.take_recently_updated();
    world.set_room_to_tile([50, 10]);
    world.set_room_to_tile([10, 50]);
    world.set_room_to_tile([-1, 10]);
    world.set_room_to_tile([10, -1]);
    world.set_room_to_tile([i32::MAX, i32::MIN]);
    assert_eq!(world.take_recently_updated(), Vec::new());
    for x in 0..50 {
        for z in 0..50 {
            assert_eq!(world.room([x, z]), Some(0));
            assert_eq!(
                world.wall_directions([x, z]),
                Some([z == 0, x == 49, z == 49, x == 0])
            );
        }
    }
}

#[test]
fn a_tile_at_the_end_of_the_world_keeps_its_outer_wall() {
    let mut world = BuildingTiles::new();
    for room in [1, 2, 0, -3, i32::MAX] {
        world.current_room = room;
        world.set_room_to_tiles([[0, 0], [49, 49]]);
        for i in 0..50 {
            assert_eq!(world.wall_directions([i, 0]).unwrap()[DOWN], true);
            assert_eq!(world.wall_directions([49, i]).unwrap()[RIGHT], true);
            assert_eq!(world.wall_directions([i, 49]).unwrap()[UP], true);
            assert_eq!(world.wall_directions([0, i]).unwrap()[LEFT], true);
        }
        assert_eq!(world.wall_directions([0, 0]), Some([true, false, false, true]));
        assert_eq!(world.wall_directions([25, 25]), Some([false, false, false, false]));
        assert_eq!(world.room([25, 25]), Some(room));
    }
    world.current_room = 5;
    world.set_room_to_tile([0, 7]);
    assert_eq!(world.wall_directions([0, 7]), Some([true, true, true, true]));
    world.set_room_to_tile([0, 8]);
    assert_eq!(world.wall_directions([0, 7]), Some([true, true, false, true]));
}

#[test]
fn two_rooms_side_by_side_are_walled_on_both_sides() {
    let mut world = BuildingTiles::new();
    world.set_current_room(1);
    world.set_room_to_tiles([[0, 0], [4, 4]]);
    world.set_current_room(2);
    world.set_room_to_tiles([[5, 0], [9, 4]]);
    for z in 0..=4 {
        assert_eq!(world.room([4, z]), Some(1));
        assert_eq!(world.room([5, z]), Some(2));
        assert_eq!(world.wall_directions([4, z]).unwrap()[RIGHT], true);
        assert_eq!(world.wall_directions([5, z]).unwrap()[LEFT], true);
        assert_eq!(world.wall_directions([4, z]).unwrap()[LEFT], false);
        assert_eq!(world.wall_directions([5, z]).unwrap()[RIGHT], false);
        assert_eq!(world.wall_directions([9, z]).unwrap()[RIGHT], true);
    }
    assert_eq!(world.wall_directions([4, 4]), Some([false, true, true, false]));
    assert_eq!(world.wall_directions([5, 4]), Some([false, false, true, true]));
    assert_eq!(world.wall_directions([4, 5]), Some([true, false, false, false]));
    assert_eq!(world.wall_directions([2, 2]), Some([false, false, false, false]));
    assert_eq!(world.wall_directions([0, 0]), Some([true, false, false, true]));
    assert_eq!(world.room([10, 0]), Some(0));
    assert_eq!(world.room([4, 5]), Some(0));
}

#[test]
fn the_corners_of_a_rectangle_come_in_any_order() {
    let corners = [
        [[2, 3], [6, 8]],
        [[6, 8], [2, 3]],
        [[2, 8], [6, 3]],
        [[6, 3], [2, 8]],
    ];
    for pair in corners {
        let mut world = BuildingTiles::new();
        world.current_room = 4;
        world.set_room_to_tiles(pair);
        for x in 0..50 {
            for z in 0..50 {
                let inside = (2..=6).contains(&x) && (3..=8).contains(&z);
                assert_eq!(world.room([x, z]), Some(if inside { 4 } else { 0 }));
            }
        }
        assert_eq!(world.wall_directions([2, 3]), Some([true, false, false, true]));
        assert_eq!(world.wall_directions([6, 8]), Some([false, true, true, false]));
    }
}

#[test]
fn a_rectangle_of_one_tile_is_that_tile() {
    let mut world = BuildingTiles::new();
    world.set_room_to_tiles([[7, 7], [7, 7]]);
    assert_eq!(world.room([7, 7]), Some(1));
    assert_eq!(world.room([7, 8]), Some(0));
    assert_eq!(world.wall_directions([7, 7]), Some([true, true, true, true]));
}

#[test]
fn the_part_of_a_rectangle_outside_the_world_is_passed_over() {
    let mut world = BuildingTiles::new();
    world.current_room = 3;
    world.set_room_to_tiles([[-5, 47], [2, 60]]);
    for x in 0..50 {
        for z in 0..50 {
            let inside = x <= 2 && z >= 47;
            assert_eq!(world.room([x, z]), Some(if inside { 3 } else { 0 }));
        }
    }
    assert_eq!(world.wall_directions([0, 49]), Some([false, false, true, true]));
    assert_eq!(world.wall_directions([2, 47]), Some([true, true, false, false]));
    let mut world = BuildingTiles::new();
    world.take_recently_updated();
    world.set_room_to_tiles([[50, 0], [i32::MAX, 49]]);
    world.set_room_to_tiles([[i32::MIN, i32::MIN], [-1, i32::MAX]]);
    assert_eq!(world.take_recently_updated(), Vec::new());
    assert_eq!(world.room([49, 0]), Some(0));
}

#[test]
fn a_new_world_reports_nothing_as_changed() {
    let mut world = BuildingTiles::new();
    assert_eq!(world.take_recently_updated(), Vec::new());
    assert_eq!(world.wall_directions([0, 0]), Some([true, false, false, true]));
    let mut world = BuildingTiles::default();
    assert_eq!(world.take_recently_updated(), Vec::new());
}

#[test]
fn a_new_world_has_its_settings() {
    for world in [BuildingTiles::new(), BuildingTiles::default()] {
        assert_eq!(world.current_room(), 1);
        assert_eq!(world.tool(), -1);
        assert_eq!(world.grid().tile_size(), ROOM_TILE_SIZE);
        assert_eq!(world.grid().tile_size(), 1000);
        for x in -3..=52 {
            for z in -3..=52 {
                assert_eq!(world.grid().get_tile_status(x, z), None);
            }
        }
    }
}

#[test]
fn choosing_a_room_or_a_tool_changes_no_tile() {
    let mut world = BuildingTiles::new();
    world.set_room_to_tile([3, 3]);
    world.take_recently_updated();
    world.set_current_room(7);
    world.set_tool(2);
    assert_eq!(world.current_room(), 7);
    assert_eq!(world.current_room, 7);
    assert_eq!(world.tool(), 2);
    assert_eq!(world.tool, 2);
    assert_eq!(world.grid().tile_size(), 1000);
    assert_eq!(world.room([3, 3]), Some(1));
    assert_eq!(world.wall_directions([3, 3]), Some([true, true, true, true]));
    assert_eq!(world.take_recently_updated(), Vec::new());
    world.set_room_to_tile([3, 4]);
    assert_eq!(world.room([3, 4]), Some(7));
    assert_eq!(world.wall_directions([3, 3]), Some([true, true, true, true]));
    world.set_current_room(1);
    world.set_room_to_tile([3, 4]);
    assert_eq!(world.wall_directions([3, 3]), Some([true, true, false, true]));
    assert_eq!(world.tool(), 2);
}

#[test]
fn a_rectangle_reports_its_tiles_and_those_around_it() {
    let mut world = BuildingTiles::new();
    world.take_recently_updated();
    world.set_room_to_tiles([[10, 10], [11, 10]]);
    assert_eq!(
        world.take_recently_updated(),
        vec![(9, 10), (10, 9), (10, 10), (10, 11), (11, 9), (11, 10), (11, 11), (12, 10)]
    );
    world.set_room_to_tile([0, 0]);
    assert_eq!(world.take_recently_updated(), vec![(0, 0), (0, 1), (1, 0)]);
}
