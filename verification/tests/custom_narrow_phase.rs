use bvh_closest_points::bounding_volume::{Aabb, SimdAabb};
use bvh_closest_points::closest_points_composite::{
    closest_points_composite_shape_shape, CompositeShapeAgainstShapeClosestPointsVisitor,
    PartClosestPoints,
};
use bvh_closest_points::compound::Compound;
use bvh_closest_points::default_query_dispatcher::DefaultQueryDispatcher;
use bvh_closest_points::math::{Isometry, Point, Real, Rigid, Vector};
use bvh_closest_points::partitioning::{Qbvh, QbvhNode};
use bvh_closest_points::query::{ClosestPoints, Contact, QueryDispatcher, Unsupported};
use bvh_closest_points::shape::{Cuboid, Shape, TypedSimdCompositeShape};

/// A narrow phase that takes rectangles for overlapping only where they
/// share more than their rim, and reports rectangles that touch as apart by
/// nothing.
struct OpenRectangles;

impl QueryDispatcher<Cuboid, Cuboid> for OpenRectangles {
    fn contact(&self, _pos12: Rigid, _g1: &Cuboid, _g2: &Cuboid) -> Contact {
        unreachable!()
    }

    fn lemma_contact_is_sound(&self, _pos12: Rigid, _g1: &Cuboid, _g2: &Cuboid) {
        unreachable!()
    }

    fn closest_points(
        &self,
        pos12: &Isometry,
        g1: &Cuboid,
        g2: &Cuboid,
        margin: Real,
    ) -> Result<ClosestPoints, Unsupported> {
        let b2 = g2.compute_aabb(pos12);
        let h1 = g1.half_extents;
        let touch_x = b2.maxs.x == -h1.x || b2.mins.x == h1.x;
        let touch_y = b2.maxs.y == -h1.y || b2.mins.y == h1.y;
        let answer = DefaultQueryDispatcher.closest_points(pos12, g1, g2, margin)?;
        if answer == ClosestPoints::Intersecting && (touch_x || touch_y) && margin >= 0 {
            let x = h1.x.min(b2.maxs.x).min(b2.mins.x.max(-h1.x).max(-h1.x));
            let y = h1.y.min(b2.maxs.y).min(b2.mins.y.max(-h1.y).max(-h1.y));
            let shared = Point::new(x, y);
            Ok(ClosestPoints::WithinMargin(
                shared,
                pos12.inverse().transform_point(&shared),
            ))
        } else {
            Ok(answer)
        }
    }
}

/// A narrow phase that knows no pair of shapes.
struct KnowsNothing;

impl QueryDispatcher<Cuboid, Cuboid> for KnowsNothing {
    fn contact(&self, _pos12: Rigid, _g1: &Cuboid, _g2: &Cuboid) -> Contact {
        unreachable!()
    }

    fn lemma_contact_is_sound(&self, _pos12: Rigid, _g1: &Cuboid, _g2: &Cuboid) {
        unreachable!()
    }

    fn closest_points(
        &self,
        _pos12: &Isometry,
        _g1: &Cuboid,
        _g2: &Cuboid,
        _margin: Real,
    ) -> Result<ClosestPoints, Unsupported> {
        Err(Unsupported)
    }
}

fn cuboid(hx: i64, hy: i64) -> Cuboid {
    Cuboid::new(Vector::new(hx, hy)).unwrap()
}

fn leaf(part: &(Isometry, Cuboid), id: u32) -> QbvhNode {
    let none = Aabb::new(Point::new(0, 0), Point::new(0, 0));
    QbvhNode {
        simd_aabb: SimdAabb::from_lanes([part.1.compute_aabb(&part.0), none, none, none]),
        children: [Some(id), None, None, None],
        leaf: true,
    }
}

/// Two parts, each in a leaf node of its own under the root: the first at
/// the origin, the second twelve steps to the right of it.
fn two_leaves() -> Compound<Cuboid> {
    let parts = vec![
        (Isometry::translation(0, 0), cuboid(5, 5)),
        (Isometry::translation(12, 0), cuboid(5, 5)),
    ];
    let none = Aabb::new(Point::new(0, 0), Point::new(0, 0));
    let first = leaf(&parts[0], 0);
    let second = leaf(&parts[1], 1);
    let root = QbvhNode {
        simd_aabb: SimdAabb::from_lanes([
            first.simd_aabb.extract(0),
            second.simd_aabb.extract(0),
            none,
            none,
        ]),
        children: [Some(1), Some(2), None, None],
        leaf: false,
    };
    let qbvh = Qbvh::new(vec![root, first, second]).unwrap();
    Compound::new(parts, qbvh).unwrap()
}

#[test]
fn narrow_phase_of_open_rectangles_tells_touching_from_overlapping() {
    let d = OpenRectangles;
    let g = cuboid(5, 5);
    assert_eq!(
        d.closest_points(&Isometry::translation(10, 0), &g, &g, 0),
        Ok(ClosestPoints::WithinMargin(Point::new(5, -5), Point::new(-5, -5)))
    );
    assert_eq!(
        d.closest_points(&Isometry::translation(9, 0), &g, &g, 0),
        Ok(ClosestPoints::Intersecting)
    );
    assert_eq!(
        d.closest_points(&Isometry::translation(11, 0), &g, &g, 0),
        Ok(ClosestPoints::Disjoint)
    );
}

#[test]
fn part_that_touches_is_found_at_distance_zero() {
    let compound = two_leaves();
    let query = cuboid(5, 5);
    let pos12 = Isometry::translation(-10, 0);
    let res = closest_points_composite_shape_shape(&OpenRectangles, &pos12, &compound, &query, 3);
    assert_eq!(
        res,
        ClosestPoints::WithinMargin(Point::new(-5, -5), Point::new(-5, -5))
    );
}

#[test]
fn part_that_touches_in_an_earlier_node_hides_a_part_that_overlaps() {
    let compound = two_leaves();
    let query = cuboid(5, 5);
    let pos12 = Isometry::translation(10, 0);
    let res = closest_points_composite_shape_shape(&OpenRectangles, &pos12, &compound, &query, 3);
    assert_eq!(
        res,
        ClosestPoints::WithinMargin(Point::new(5, -5), Point::new(5, -5))
    );
    let pos12 = Isometry::translation(11, 0);
    let mut visitor = CompositeShapeAgainstShapeClosestPointsVisitor::new(
        &OpenRectangles,
        &pos12,
        &compound,
        &query,
        3,
    );
    assert_eq!(
        compound.typed_qbvh().traverse_best_first(&mut visitor),
        Some(PartClosestPoints { part: 1, points: ClosestPoints::Intersecting })
    );
}

#[test]
fn narrow_phase_that_fails_for_every_part_leaves_the_shapes_disjoint() {
    let compound = two_leaves();
    let query = cuboid(5, 5);
    for x in [-100, 0, 10, 12, 100] {
        let res = closest_points_composite_shape_shape(
            &KnowsNothing,
            &Isometry::translation(x, 0),
            &compound,
            &query,
            i64::MAX,
        );
        assert_eq!(res, ClosestPoints::Disjoint);
    }
}
