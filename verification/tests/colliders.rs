use tile_grid::collider::{
    Axis, BoxCollider, FinePoint, Orientation, AXIS_ONE, COLLISION_INSET, FINE_PER_UNIT,
    PROJECTION_PER_UNIT,
};
use tile_grid::vector::Vec3i;

fn upright(centre: (i64, i64, i64), size: i64) -> BoxCollider {
    BoxCollider::new(
        Vec3i::new(centre.0, centre.1, centre.2),
        Orientation::identity(),
        Vec3i::splat(size),
    )
}

/// A rotation by an eighth of a turn about the Y axis.
fn eighth_turn() -> Orientation {
    Orientation {
        x_axis: Axis { x: 2896, y: 0, z: -2896 },
        y_axis: Axis { x: 0, y: 4096, z: 0 },
        z_axis: Axis { x: 2896, y: 0, z: 2896 },
    }
}

#[test]
fn scales_fit_together() {
    assert_eq!(FINE_PER_UNIT, 2 * AXIS_ONE as i128);
    assert_eq!(PROJECTION_PER_UNIT, FINE_PER_UNIT * AXIS_ONE as i128);
    assert_eq!(COLLISION_INSET, -100);
}

#[test]
fn identity_has_the_world_axes() {
    let id = Orientation::identity();
    assert_eq!(id.x_axis, Axis { x: 4096, y: 0, z: 0 });
    assert_eq!(id.y_axis, Axis { x: 0, y: 4096, z: 0 });
    assert_eq!(id.z_axis, Axis { x: 0, y: 0, z: 4096 });
}

#[test]
fn new_keeps_what_it_is_given() {
    let b = BoxCollider::new(Vec3i::new(1, 2, 3), eighth_turn(), Vec3i::new(4, 5, 6));
    assert_eq!(b.translation, Vec3i::new(1, 2, 3));
    assert_eq!(b.scale, Vec3i::new(4, 5, 6));
    assert_eq!(b.rotation, eighth_turn());
    assert_eq!(b.get_axes(), [eighth_turn().x_axis, eighth_turn().y_axis, eighth_turn().z_axis]);
}

#[test]
fn corners_of_an_upright_box() {
    let b = upright((0, 0, 0), 2000);
    let h = 1000 * 8192i128;
    let corners = b.get_corners();
    assert_eq!(corners[0], FinePoint { x: -h, y: -h, z: -h });
    assert_eq!(corners[1], FinePoint { x: h, y: -h, z: -h });
    assert_eq!(corners[2], FinePoint { x: -h, y: h, z: -h });
    assert_eq!(corners[3], FinePoint { x: h, y: h, z: -h });
    assert_eq!(corners[4], FinePoint { x: -h, y: -h, z: h });
    assert_eq!(corners[5], FinePoint { x: h, y: -h, z: h });
    assert_eq!(corners[6], FinePoint { x: -h, y: h, z: h });
    assert_eq!(corners[7], FinePoint { x: h, y: h, z: h });
    for i in 0..8 {
        assert_eq!(b.get_corner(i), corners[i]);
    }
}

#[test]
fn corners_follow_the_centre_and_the_extents() {
    let b = BoxCollider::new(
        Vec3i::new(10, -20, 30),
        Orientation::identity(),
        Vec3i::new(2, 4, 6),
    );
    assert_eq!(
        b.get_corner(0),
        FinePoint { x: 9 * 8192, y: -22 * 8192, z: 27 * 8192 }
    );
    assert_eq!(
        b.get_corner(7),
        FinePoint { x: 11 * 8192, y: -18 * 8192, z: 33 * 8192 }
    );
}

#[test]
fn corners_of_a_turned_box() {
    let b = BoxCollider::new(Vec3i::new(0, 0, 0), eighth_turn(), Vec3i::new(1000, 1000, 1000));
    // Corner 5 goes forwards along the box's X and Z axes, backwards along Y.
    assert_eq!(b.get_corner(5), FinePoint { x: 2 * 1000 * 2896, y: -1000 * 4096, z: 0 });
    // Corner 1 goes forwards along X only.
    assert_eq!(b.get_corner(1), FinePoint { x: 0, y: -1000 * 4096, z: -2 * 1000 * 2896 });
}

#[test]
fn corners_at_the_ends_of_the_number_range_do_not_overflow() {
    let wild = Orientation {
        x_axis: Axis { x: i16::MIN, y: i16::MIN, z: i16::MIN },
        y_axis: Axis { x: i16::MIN, y: i16::MIN, z: i16::MIN },
        z_axis: Axis { x: i16::MIN, y: i16::MIN, z: i16::MIN },
    };
    let b = BoxCollider::new(Vec3i::splat(i64::MIN), wild, Vec3i::splat(i64::MIN));
    let far = b.get_corner(0);
    assert_eq!(far.x, 8192 * (i64::MIN as i128) - 3 * (i64::MIN as i128) * (i16::MIN as i128));
    let shadow = b.project_onto_axis(&Axis { x: i16::MIN, y: i16::MIN, z: i16::MIN });
    assert!(shadow.0 <= shadow.1);
    assert!(b.overlaps(&b, i64::MIN) || !b.overlaps(&b, i64::MIN));
    assert!(b.overlaps(&b, i64::MAX));
}

#[test]
fn shadow_of_an_upright_box() {
    let b = upright((3000, 0, 0), 1000);
    let x = Axis { x: 4096, y: 0, z: 0 };
    assert_eq!(b.project_onto_axis(&x), (2500 * 33554432, 3500 * 33554432));
    let z = Axis { x: 0, y: 0, z: 4096 };
    assert_eq!(b.project_onto_axis(&z), (-500 * 33554432, 500 * 33554432));
}

#[test]
fn boxes_that_touch_overlap_only_without_tolerance() {
    let a = upright((0, 0, 0), 1000);
    let b = upright((1000, 0, 0), 1000);
    assert!(a.overlaps(&b, 0));
    assert!(!a.overlaps(&b, -1));
    assert!(!a.overlaps(&b, -100));
    assert!(a.overlaps(&b, 100));
    assert!(!a.is_colliding_with_tile(&b));
}

#[test]
fn inset_widens_and_narrows_the_boxes() {
    let a = upright((0, 0, 0), 1000);
    let near = upright((1050, 0, 0), 1000);
    assert!(!a.overlaps(&near, 0));
    assert!(!a.overlaps(&near, 49));
    assert!(a.overlaps(&near, 50));
    let deep = upright((900, 0, 0), 1000);
    assert!(a.overlaps(&deep, -100));
    assert!(!a.overlaps(&deep, -101));
    assert!(a.is_colliding_with_tile(&deep));
}

#[test]
fn boxes_apart_on_any_one_axis_do_not_overlap() {
    let a = upright((0, 0, 0), 1000);
    assert!(!a.overlaps(&upright((0, 1001, 0), 1000), 0));
    assert!(!a.overlaps(&upright((0, 0, -1001), 1000), 0));
    assert!(!a.overlaps(&upright((1001, 0, 0), 1000), 0));
    assert!(a.overlaps(&upright((999, 999, -999), 1000), 0));
}

#[test]
fn a_turned_box_reaches_further_along_the_world_axes() {
    let turned = BoxCollider::new(Vec3i::new(0, 0, 0), eighth_turn(), Vec3i::splat(1000));
    let near = upright((1150, 0, 0), 1000);
    let far = upright((1300, 0, 0), 1000);
    assert!(turned.overlaps(&near, 0));
    assert!(!turned.overlaps(&far, 0));
    let straight = upright((0, 0, 0), 1000);
    assert!(!straight.overlaps(&near, 0));
}

#[test]
fn a_face_normal_of_the_turned_box_can_separate() {
    // The corner tile of a diamond: no world axis separates the two, the
    // diamond's own axes do.
    let diamond = BoxCollider::new(
        Vec3i::new(1500, 0, 1500),
        eighth_turn(),
        Vec3i::new(1414, 1000, 1414),
    );
    let corner_tile = upright((400, 0, 400), 1000);
    assert!(!diamond.overlaps(&corner_tile, 0));
    let edge_tile = upright((500, 0, 1500), 1000);
    assert!(diamond.overlaps(&edge_tile, 0));
}

#[test]
fn overlap_is_symmetric() {
    let boxes = [
        upright((0, 0, 0), 1000),
        upright((1000, 0, 0), 1000),
        upright((1050, 0, 300), 700),
        BoxCollider::new(Vec3i::new(0, 0, 0), eighth_turn(), Vec3i::splat(1000)),
        BoxCollider::new(Vec3i::new(900, 100, -800), eighth_turn(), Vec3i::new(300, 2000, 1500)),
        BoxCollider::new(Vec3i::new(1500, 0, 1500), eighth_turn(), Vec3i::new(1414, 1000, 1414)),
        upright((400, 0, 400), 1000),
    ];
    let mut hits = 0;
    for a in boxes.iter() {
        for b in boxes.iter() {
            for inset in [-300, -100, -1, 0, 1, 100, 300] {
                assert_eq!(a.overlaps(b, inset), b.overlaps(a, inset));
                if a.overlaps(b, inset) {
                    hits += 1;
                }
            }
        }
    }
    assert!(hits > 0 && hits < 7 * 7 * 7);
}

#[test]
fn colliding_with_others_skips_the_own_entity() {
    let me = upright((0, 0, 0), 1000);
    let others = vec![(7u64, me), (8u64, upright((5000, 0, 0), 1000))];
    assert!(!me.is_colliding_with(7, &others, 0));
    assert!(me.is_colliding_with(9, &others, 0));
    let crowd = vec![
        (7u64, me),
        (8u64, upright((5000, 0, 0), 1000)),
        (9u64, upright((900, 0, 0), 1000)),
    ];
    assert!(me.is_colliding_with(7, &crowd, 0));
    assert!(me.is_colliding_with(7, &crowd, -100));
    assert!(!me.is_colliding_with(7, &crowd, -101));
    assert!(!me.is_colliding_with(7, &Vec::new(), 1000));
}
