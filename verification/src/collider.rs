//! Oriented box colliders and the separating-axis test between two of them.
//!
//! All of it is exact integer arithmetic. The axes of a box are stored with
//! [`AXIS_ONE`] standing for the length one, its corners are counted in
//! [`FINE_PER_UNIT`]-ths of a world unit, and so the projection of a corner onto
//! an axis counts [`PROJECTION_PER_UNIT`]-ths of a world unit.

use vstd::prelude::*;
use crate::vector::Vec3i;

verus! {

/// The component value that stands for the length one in an [`Axis`].
pub const AXIS_ONE: i16 = 4096;

/// How many steps of a [`FinePoint`] coordinate make up one world unit: twice
/// [`AXIS_ONE`], so that half extents along a stored axis stay whole numbers.
pub const FINE_PER_UNIT: i128 = 8192;

/// How many steps of a projection make up one world unit: [`FINE_PER_UNIT`]
/// times [`AXIS_ONE`].
pub const PROJECTION_PER_UNIT: i128 = 33554432;

/// The inset with which a collider is tested against a tile: a tenth of a
/// metre of tolerance, so that a box which only touches a tile's edge does
/// not block the tile.
pub const COLLISION_INSET: i64 = -100;

/// A direction in the world, with [`AXIS_ONE`] standing for the length one.
#[derive(Clone, Copy, Debug, PartialEq, Eq, Structural)]
pub struct Axis {
    pub x: i16,
    pub y: i16,
    pub z: i16,
}

/// The rotation of a box, given by the directions into which it turns the
/// world's X, Y and Z axes: the columns of its rotation matrix.
#[derive(Clone, Copy, Debug, PartialEq, Eq, Structural)]
pub struct Orientation {
    pub x_axis: Axis,
    pub y_axis: Axis,
    pub z_axis: Axis,
}

/// A point of the world in mathematical integers, counted in
/// [`FINE_PER_UNIT`]-ths of a world unit.
pub struct Point3 {
    pub x: int,
    pub y: int,
    pub z: int,
}

/// A point of the world, counted in [`FINE_PER_UNIT`]-ths of a world unit.
#[derive(Clone, Copy, Debug, PartialEq, Eq, Structural)]
pub struct FinePoint {
    pub x: i128,
    pub y: i128,
    pub z: i128,
}

impl View for FinePoint {
    type V = Point3;

    open spec fn view(&self) -> Point3 {
        Point3 { x: self.x as int, y: self.y as int, z: self.z as int }
    }
}

/// A box with a centre, a rotation and full extents along its own axes.
#[derive(Clone, Copy, Debug, PartialEq, Eq, Structural)]
pub struct BoxCollider {
    pub scale: Vec3i,
    pub translation: Vec3i,
    pub rotation: Orientation,
}

/// The sign, `1` or `-1`, with which corner number `corner` (from 0 to 7)
/// takes the half extent along the box's axis number `axis` (0, 1 or 2): the
/// bit `axis` of the corner's number decides.
pub open spec fn corner_sign(corner: int, axis: int) -> int {
    let bit = if axis == 0 {
        corner % 2
    } else if axis == 1 {
        (corner / 2) % 2
    } else {
        (corner / 4) % 2
    };
    if bit == 1 {
        1
    } else {
        -1
    }
}

/// The scalar product of a point and a direction.
pub open spec fn dot(point: Point3, axis: Axis) -> int {
    point.x * axis.x + point.y * axis.y + point.z * axis.z
}

/// An inset of world units, counted in steps of a projection.
pub open spec fn inset_in_projection(inset: int) -> int {
    inset * PROJECTION_PER_UNIT
}

impl Orientation {
    /// The rotation that turns nothing.
    pub fn identity() -> (rotation: Orientation)
        ensures
            rotation == Orientation::spec_identity(),
    {
        Orientation {
            x_axis: Axis { x: AXIS_ONE, y: 0, z: 0 },
            y_axis: Axis { x: 0, y: AXIS_ONE, z: 0 },
            z_axis: Axis { x: 0, y: 0, z: AXIS_ONE },
        }
    }

    /// The rotation that turns nothing.
    pub open spec fn spec_identity() -> Orientation {
        Orientation {
            x_axis: Axis { x: AXIS_ONE, y: 0, z: 0 },
            y_axis: Axis { x: 0, y: AXIS_ONE, z: 0 },
            z_axis: Axis { x: 0, y: 0, z: AXIS_ONE },
        }
    }
}

impl BoxCollider {
    /// Corner number `corner` of the box: the centre moved by half the extent
    /// along each of the box's three axes, forwards or backwards as
    /// [`corner_sign`] says.
    pub open spec fn corner(self, corner: int) -> Point3 {
        let r = self.rotation;
        let sx = corner_sign(corner, 0) * self.scale.x;
        let sy = corner_sign(corner, 1) * self.scale.y;
        let sz = corner_sign(corner, 2) * self.scale.z;
        Point3 {
            x: FINE_PER_UNIT * self.translation.x + sx * r.x_axis.x + sy * r.y_axis.x + sz
                * r.z_axis.x,
            y: FINE_PER_UNIT * self.translation.y + sx * r.x_axis.y + sy * r.y_axis.y + sz
                * r.z_axis.y,
            z: FINE_PER_UNIT * self.translation.z + sx * r.x_axis.z + sy * r.y_axis.z + sz
                * r.z_axis.z,
        }
    }

    /// The projection of corner number `corner` onto `axis`.
    pub open spec fn projection(self, corner: int, axis: Axis) -> int {
        dot(self.corner(corner), axis)
    }

    /// The least projection onto `axis` among the first `count` corners.
    pub open spec fn lowest_of(self, axis: Axis, count: nat) -> int
        decreases count,
    {
        if count <= 1 {
            self.projection(0, axis)
        } else {
            let rest = self.lowest_of(axis, (count - 1) as nat);
            let last = self.projection(count - 1, axis);
            if last < rest {
                last
            } else {
                rest
            }
        }
    }

    /// The greatest projection onto `axis` among the first `count` corners.
    pub open spec fn highest_of(self, axis: Axis, count: nat) -> int
        decreases count,
    {
        if count <= 1 {
            self.projection(0, axis)
        } else {
            let rest = self.highest_of(axis, (count - 1) as nat);
            let last = self.projection(count - 1, axis);
            if last > rest {
                last
            } else {
                rest
            }
        }
    }

    /// The lower end of the box's shadow on `axis`.
    pub open spec fn lowest(self, axis: Axis) -> int {
        self.lowest_of(axis, 8)
    }

    /// The upper end of the box's shadow on `axis`.
    pub open spec fn highest(self, axis: Axis) -> int {
        self.highest_of(axis, 8)
    }

    /// Whether the shadows of the two boxes on `axis` meet once each is
    /// widened by `inset` world units. A negative inset narrows them.
    pub open spec fn shadows_meet(self, other: BoxCollider, axis: Axis, inset: int) -> bool {
        &&& self.lowest(axis) <= other.highest(axis) + inset_in_projection(inset)
        &&& self.highest(axis) >= other.lowest(axis) - inset_in_projection(inset)
    }

    /// Whether no face normal of either box separates the two: their shadows
    /// meet on the three axes of this box and on the three of the other. The
    /// nine directions across pairs of edges are left out on purpose, so two
    /// boxes that only those would separate count as overlapping.
    pub open spec fn overlaps_spec(self, other: BoxCollider, inset: int) -> bool {
        &&& self.shadows_meet(other, self.rotation.x_axis, inset)
        &&& self.shadows_meet(other, self.rotation.y_axis, inset)
        &&& self.shadows_meet(other, self.rotation.z_axis, inset)
        &&& self.shadows_meet(other, other.rotation.x_axis, inset)
        &&& self.shadows_meet(other, other.rotation.y_axis, inset)
        &&& self.shadows_meet(other, other.rotation.z_axis, inset)
    }

    /// The box with the given centre, rotation and full extents.
    pub fn new(translation: Vec3i, rotation: Orientation, scale: Vec3i) -> (collider: BoxCollider)
        ensures
            collider == (BoxCollider { scale, translation, rotation }),
    {
        BoxCollider { scale, translation, rotation }
    }

    /// The three axes of the box, in the order X, Y, Z.
    pub fn get_axes(&self) -> (axes: [Axis; 3])
        ensures
            axes[0] == self.rotation.x_axis,
            axes[1] == self.rotation.y_axis,
            axes[2] == self.rotation.z_axis,
    {
        [self.rotation.x_axis, self.rotation.y_axis, self.rotation.z_axis]
    }

    /// Corner number `index` of the box.
    pub fn get_corner(&self, index: usize) -> (corner: FinePoint)
        requires
            index < 8,
        ensures
            corner@ == self.corner(index as int),
    {
        let r = self.rotation;
        let xs = index % 2 == 1;
        let ys = (index / 2) % 2 == 1;
        let zs = (index / 4) % 2 == 1;
        proof {
            lemma_corner_range(*self, index as int);
        }
        let cx = corner_coordinate(
            self.translation.x,
            half_step(self.scale.x, r.x_axis.x, xs),
            half_step(self.scale.y, r.y_axis.x, ys),
            half_step(self.scale.z, r.z_axis.x, zs),
        );
        let cy = corner_coordinate(
            self.translation.y,
            half_step(self.scale.x, r.x_axis.y, xs),
            half_step(self.scale.y, r.y_axis.y, ys),
            half_step(self.scale.z, r.z_axis.y, zs),
        );
        let cz = corner_coordinate(
            self.translation.z,
            half_step(self.scale.x, r.x_axis.z, xs),
            half_step(self.scale.y, r.y_axis.z, ys),
            half_step(self.scale.z, r.z_axis.z, zs),
        );
        FinePoint { x: cx, y: cy, z: cz }
    }

    /// The eight corners of the box, corner number `i` at index `i`.
    pub fn get_corners(&self) -> (corners: [FinePoint; 8])
        ensures
            forall|i: int| 0 <= i < 8 ==> (#[trigger] corners[i])@ == self.corner(i),
    {
        [
            self.get_corner(0),
            self.get_corner(1),
            self.get_corner(2),
            self.get_corner(3),
            self.get_corner(4),
            self.get_corner(5),
            self.get_corner(6),
            self.get_corner(7),
        ]
    }

    /// The shadow of the box on `axis`: the least and the greatest projection
    /// of its corners.
    pub fn project_onto_axis(&self, axis: &Axis) -> (shadow: (i128, i128))
        ensures
            shadow.0 == self.lowest(*axis),
            shadow.1 == self.highest(*axis),
            -PROJECTION_LIMIT <= shadow.0 <= shadow.1 <= PROJECTION_LIMIT,
    {
        let corners = self.get_corners();
        let mut min = project_point(&corners[0], axis, Ghost(*self), Ghost(0));
        let mut max = min;
        let mut i: usize = 1;
        while i < 8
            invariant
                1 <= i <= 8,
                forall|k: int| 0 <= k < 8 ==> (#[trigger] corners[k])@ == self.corner(k),
                min == self.lowest_of(*axis, i as nat),
                max == self.highest_of(*axis, i as nat),
                -PROJECTION_LIMIT <= min <= max <= PROJECTION_LIMIT,
            decreases 8 - i,
        {
            let p = project_point(&corners[i], axis, Ghost(*self), Ghost(i as int));
            if p < min {
                min = p;
            }
            if p > max {
                max = p;
            }
            i += 1;
        }
        (min, max)
    }

    /// Whether the shadows of the two boxes on `axis` meet once `inset` is
    /// allowed for.
    pub fn projections_overlap(&self, other: &BoxCollider, axis: Axis, inset: i64) -> (meet: bool)
        ensures
            meet == self.shadows_meet(*other, axis, inset as int),
    {
        let self_proj = self.project_onto_axis(&axis);
        let other_proj = other.project_onto_axis(&axis);
        let margin: i128 = (inset as i128) * PROJECTION_PER_UNIT;
        self_proj.0 <= other_proj.1 + margin && self_proj.1 >= other_proj.0 - margin
    }

    /// Whether the two boxes overlap, by the separating-axis test on the six
    /// face normals of the two boxes. A box with an extent of zero is flat,
    /// and one with an axis of zero has no width along it; the test takes
    /// both as it takes any other box.
    pub fn overlaps(&self, other: &BoxCollider, inset: i64) -> (hit: bool)
        ensures
            hit == self.overlaps_spec(*other, inset as int),
    {
        let axes_a = self.get_axes();
        let axes_b = other.get_axes();
        let mut k: usize = 0;
        while k < 3
            invariant
                0 <= k <= 3,
                axes_a[0] == self.rotation.x_axis,
                axes_a[1] == self.rotation.y_axis,
                axes_a[2] == self.rotation.z_axis,
                forall|j: int| 0 <= j < k ==> self.shadows_meet(*other, #[trigger] axes_a[j], inset as int),
            decreases 3 - k,
        {
            if !self.projections_overlap(other, axes_a[k], inset) {
                return false;
            }
            k += 1;
        }
        let mut k: usize = 0;
        while k < 3
            invariant
                0 <= k <= 3,
                axes_b[0] == other.rotation.x_axis,
                axes_b[1] == other.rotation.y_axis,
                axes_b[2] == other.rotation.z_axis,
                forall|j: int| 0 <= j < k ==> self.shadows_meet(*other, #[trigger] axes_b[j], inset as int),
                forall|j: int| 0 <= j < 3 ==> self.shadows_meet(*other, #[trigger] axes_a[j], inset as int),
                axes_a[0] == self.rotation.x_axis,
                axes_a[1] == self.rotation.y_axis,
                axes_a[2] == self.rotation.z_axis,
            decreases 3 - k,
        {
            if !self.projections_overlap(other, axes_b[k], inset) {
                return false;
            }
            k += 1;
        }
        true
    }

    /// Whether the box overlaps a tile's box, with the tolerance of
    /// [`COLLISION_INSET`].
    pub fn is_colliding_with_tile(&self, tile: &BoxCollider) -> (hit: bool)
        ensures
            hit == self.overlaps_spec(*tile, COLLISION_INSET as int),
    {
        self.overlaps(tile, COLLISION_INSET)
    }

    /// Whether the box overlaps any box of `others` that belongs to another
    /// entity than `self_entity`. Each entry of `others` is an entity's
    /// number and its box.
    pub fn is_colliding_with(
        &self,
        self_entity: u64,
        others: &Vec<(u64, BoxCollider)>,
        inset: i64,
    ) -> (hit: bool)
        ensures
            hit == exists|i: int|
                0 <= i < others.len() && (#[trigger] others[i]).0 != self_entity
                    && self.overlaps_spec(others[i].1, inset as int),
    {
        let mut i: usize = 0;
        while i < others.len()
            invariant
                0 <= i <= others.len(),
                forall|j: int|
                    0 <= j < i ==> !((#[trigger] others[j]).0 != self_entity && self.overlaps_spec(
                        others[j].1,
                        inset as int,
                    )),
            decreases others.len() - i,
        {
            if others[i].0 != self_entity && self.overlaps(&others[i].1, inset) {
                return true;
            }
            i += 1;
        }
        false
    }
}

/// The greatest size of a half extent taken along one axis component.
pub open spec fn step_limit() -> int {
    0x4000_0000_0000_0000_0000int
}

/// The greatest size of a corner's coordinate.
pub open spec fn corner_limit() -> int {
    0x1_0000_0000_0000_0000_0000int
}

/// The greatest size of a projection.
pub const PROJECTION_LIMIT: i128 = 0x2_0000_0000_0000_0000_0000_0000;

/// The product of two bounded numbers is bounded by the product of the bounds.
pub proof fn lemma_product_range(a: int, b: int, bound_a: int, bound_b: int)
    requires
        -bound_a <= a <= bound_a,
        -bound_b <= b <= bound_b,
    ensures
        -(bound_a * bound_b) <= a * b <= bound_a * bound_b,
{
    assert((bound_a - a) * (bound_b - b) >= 0) by (nonlinear_arith)
        requires
            bound_a - a >= 0,
            bound_b - b >= 0,
    ;
    assert((bound_a + a) * (bound_b + b) >= 0) by (nonlinear_arith)
        requires
            bound_a + a >= 0,
            bound_b + b >= 0,
    ;
    assert((bound_a - a) * (bound_b + b) >= 0) by (nonlinear_arith)
        requires
            bound_a - a >= 0,
            bound_b + b >= 0,
    ;
    assert((bound_a + a) * (bound_b - b) >= 0) by (nonlinear_arith)
        requires
            bound_a + a >= 0,
            bound_b - b >= 0,
    ;
    assert((bound_a - a) * (bound_b - b) == bound_a * bound_b - bound_a * b - a * bound_b + a * b)
        by (nonlinear_arith);
    assert((bound_a + a) * (bound_b + b) == bound_a * bound_b + bound_a * b + a * bound_b + a * b)
        by (nonlinear_arith);
    assert((bound_a - a) * (bound_b + b) == bound_a * bound_b + bound_a * b - a * bound_b - a * b)
        by (nonlinear_arith);
    assert((bound_a + a) * (bound_b - b) == bound_a * bound_b - bound_a * b + a * bound_b - a * b)
        by (nonlinear_arith);
}

/// Half an extent taken along one component of an axis stays within
/// [`step_limit`].
pub proof fn lemma_step_range(sign: int, extent: i64, component: i16)
    requires
        sign == 1 || sign == -1,
    ensures
        -step_limit() <= sign * extent * component <= step_limit(),
{
    let signed = sign * extent;
    assert(signed == extent || signed == -extent) by (nonlinear_arith)
        requires
            signed == sign * extent,
            sign == 1 || sign == -1,
    ;
    lemma_product_range(signed, component as int, 0x8000_0000_0000_0000, 0x8000);
    assert(0x8000_0000_0000_0000int * 0x8000int == step_limit());
}

/// Every coordinate of every corner stays within [`corner_limit`].
pub proof fn lemma_corner_range(collider: BoxCollider, corner: int)
    ensures
        -corner_limit() <= collider.corner(corner).x <= corner_limit(),
        -corner_limit() <= collider.corner(corner).y <= corner_limit(),
        -corner_limit() <= collider.corner(corner).z <= corner_limit(),
{
    let r = collider.rotation;
    let s = collider.scale;
    let sx = corner_sign(corner, 0);
    let sy = corner_sign(corner, 1);
    let sz = corner_sign(corner, 2);
    lemma_step_range(sx, s.x, r.x_axis.x);
    lemma_step_range(sy, s.y, r.y_axis.x);
    lemma_step_range(sz, s.z, r.z_axis.x);
    lemma_step_range(sx, s.x, r.x_axis.y);
    lemma_step_range(sy, s.y, r.y_axis.y);
    lemma_step_range(sz, s.z, r.z_axis.y);
    lemma_step_range(sx, s.x, r.x_axis.z);
    lemma_step_range(sy, s.y, r.y_axis.z);
    lemma_step_range(sz, s.z, r.z_axis.z);
}

/// Every projection of every corner stays within [`PROJECTION_LIMIT`].
pub proof fn lemma_projection_range(collider: BoxCollider, corner: int, axis: Axis)
    ensures
        -PROJECTION_LIMIT <= collider.projection(corner, axis) <= PROJECTION_LIMIT,
{
    let c = collider.corner(corner);
    lemma_corner_range(collider, corner);
    lemma_product_range(c.x, axis.x as int, corner_limit(), 0x8000);
    lemma_product_range(c.y, axis.y as int, corner_limit(), 0x8000);
    lemma_product_range(c.z, axis.z as int, corner_limit(), 0x8000);
    assert(corner_limit() * 0x8000int == 0x8000_0000_0000_0000_0000_0000int);
}

/// Half of `extent` along an axis whose component is `component`, forwards or
/// backwards.
fn half_step(extent: i64, component: i16, forwards: bool) -> (step: i128)
    ensures
        step == (if forwards {
            1int
        } else {
            -1int
        }) * extent * component,
        -step_limit() <= step <= step_limit(),
{
    proof {
        lemma_step_range(1, extent, component);
        lemma_step_range(-1, extent, component);
        assert(1 * extent * component == extent * component) by (nonlinear_arith);
        assert(-1 * extent * component == -(extent * component)) by (nonlinear_arith);
    }
    let product: i128 = (extent as i128) * (component as i128);
    if forwards {
        product
    } else {
        -product
    }
}

/// One coordinate of a corner: the centre, in fine steps, moved by the three
/// half steps.
fn corner_coordinate(centre: i64, along_x: i128, along_y: i128, along_z: i128) -> (coordinate:
    i128)
    requires
        -step_limit() <= along_x <= step_limit(),
        -step_limit() <= along_y <= step_limit(),
        -step_limit() <= along_z <= step_limit(),
    ensures
        coordinate == FINE_PER_UNIT * centre + along_x + along_y + along_z,
{
    FINE_PER_UNIT * (centre as i128) + along_x + along_y + along_z
}

/// The projection of a corner of `collider` onto `axis`.
fn project_point(
    point: &FinePoint,
    axis: &Axis,
    Ghost(collider): Ghost<BoxCollider>,
    Ghost(corner): Ghost<int>,
) -> (projection: i128)
    requires
        point@ == collider.corner(corner),
    ensures
        projection == collider.projection(corner, *axis),
        -PROJECTION_LIMIT <= projection <= PROJECTION_LIMIT,
{
    proof {
        lemma_corner_range(collider, corner);
        lemma_projection_range(collider, corner, *axis);
        lemma_product_range(point.x as int, axis.x as int, corner_limit(), 0x8000);
        lemma_product_range(point.y as int, axis.y as int, corner_limit(), 0x8000);
        lemma_product_range(point.z as int, axis.z as int, corner_limit(), 0x8000);
        assert(corner_limit() * 0x8000int == 0x8000_0000_0000_0000_0000_0000int);
    }
    point.x * (axis.x as i128) + point.y * (axis.y as i128) + point.z * (axis.z as i128)
}

/// The separating-axis test does not depend on which box is asked.
pub proof fn lemma_overlap_is_symmetric(a: BoxCollider, b: BoxCollider, inset: int)
    ensures
        a.overlaps_spec(b, inset) == b.overlaps_spec(a, inset),
{
}

} // verus!
