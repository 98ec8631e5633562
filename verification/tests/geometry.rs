use bvh_closest_points::bounding_volume::{interval_gap, Aabb, SimdAabb};
use bvh_closest_points::math::{distance_squared, Isometry, Point, Rotation, Vector};
use bvh_closest_points::query::ClosestPoints;
use bvh_closest_points::simd::{lane_is_set, SIMD_WIDTH};

#[test]
fn squared_distance_of_a_three_four_five_triangle() {
    assert_eq!(distance_squared(&Point::new(0, 0), &Point::new(3, 4)), 25);
    assert_eq!(distance_squared(&Point::new(-1, 2), &Point::new(-1, 2)), 0);
    assert_eq!(distance_squared(&Point::new(10, 0), &Point::new(-10, 0)), 400);
}

#[test]
fn squared_distance_at_the_largest_coordinates() {
    let far = 0x3fff_ffff;
    let d = distance_squared(&Point::new(far, far), &Point::new(-far, -far));
    assert_eq!(d, 2 * (2 * far) * (2 * far));
}

#[test]
fn origin_is_the_point_zero() {
    assert_eq!(Point::origin(), Point::new(0, 0));
}

#[test]
fn quarter_turns_rotate_counter_clockwise() {
    let v = Vector::new(3, 1);
    assert_eq!(Rotation::Identity.rotate(&v), Vector::new(3, 1));
    assert_eq!(Rotation::Quarter.rotate(&v), Vector::new(-1, 3));
    assert_eq!(Rotation::Half.rotate(&v), Vector::new(-3, -1));
    assert_eq!(Rotation::ThreeQuarters.rotate(&v), Vector::new(1, -3));
}

#[test]
fn rotations_compose_by_adding_their_turns() {
    let all = [
        Rotation::Identity,
        Rotation::Quarter,
        Rotation::Half,
        Rotation::ThreeQuarters,
    ];
    for (i, a) in all.iter().enumerate() {
        for (j, b) in all.iter().enumerate() {
            assert_eq!(a.after(b), all[(i + j) % 4]);
        }
        assert_eq!(a.after(&a.inverse()), Rotation::Identity);
    }
}

#[test]
fn a_pose_rotates_and_then_translates() {
    let pose = Isometry::new(Vector::new(5, -2), Rotation::Quarter);
    assert_eq!(pose.transform_point(&Point::new(3, 7)), Point::new(-2, 1));
    assert_eq!(
        Isometry::translation(4, 9).transform_point(&Point::new(1, 1)),
        Point::new(5, 10)
    );
    assert_eq!(
        Isometry::identity().transform_point(&Point::new(-8, 6)),
        Point::new(-8, 6)
    );
}

#[test]
fn inverse_pose_undoes_the_pose() {
    let all = [
        Rotation::Identity,
        Rotation::Quarter,
        Rotation::Half,
        Rotation::ThreeQuarters,
    ];
    let p = Point::new(3, 7);
    for r in all.iter() {
        let pose = Isometry::new(Vector::new(5, -2), *r);
        let q = pose.transform_point(&p);
        assert_eq!(pose.inverse().transform_point(&q), p);
        assert_eq!(pose.inverse().inverse(), pose);
    }
}

#[test]
fn inv_mul_is_the_inverse_followed_by_the_other_pose() {
    let a = Isometry::new(Vector::new(5, -2), Rotation::Quarter);
    let b = Isometry::new(Vector::new(-3, 8), Rotation::Half);
    let rel = a.inv_mul(&b);
    let p = Point::new(2, 9);
    assert_eq!(
        rel.transform_point(&p),
        a.inverse().transform_point(&b.transform_point(&p))
    );
    assert_eq!(rel, Isometry::new(Vector::new(10, 8), Rotation::Quarter));
}

#[test]
fn poses_keep_distances() {
    let pose = Isometry::new(Vector::new(100, 40), Rotation::ThreeQuarters);
    let p = Point::new(3, 7);
    let q = Point::new(-4, 1);
    assert_eq!(
        distance_squared(&pose.transform_point(&p), &pose.transform_point(&q)),
        distance_squared(&p, &q)
    );
}

#[test]
fn center_rounds_towards_mins_and_half_extents_round_up() {
    let even = Aabb::new(Point::new(-2, 4), Point::new(6, 10));
    assert_eq!(even.center(), Point::new(2, 7));
    assert_eq!(even.half_extents(), Vector::new(4, 3));
    let odd = Aabb::new(Point::new(0, -3), Point::new(5, 0));
    assert_eq!(odd.center(), Point::new(2, -2));
    assert_eq!(odd.half_extents(), Vector::new(3, 2));
    let dot = Aabb::new(Point::new(7, 7), Point::new(7, 7));
    assert_eq!(dot.center(), Point::new(7, 7));
    assert_eq!(dot.half_extents(), Vector::new(0, 0));
}

#[test]
fn gap_of_an_interval_to_zero() {
    assert_eq!(interval_gap(3, 9), 3);
    assert_eq!(interval_gap(-9, -4), 4);
    assert_eq!(interval_gap(-2, 5), 0);
    assert_eq!(interval_gap(0, 5), 0);
    assert_eq!(interval_gap(-5, 0), 0);
}

#[test]
fn batch_of_boxes_keeps_each_lane() {
    let lanes = [
        Aabb::new(Point::new(0, 0), Point::new(1, 1)),
        Aabb::new(Point::new(2, 2), Point::new(3, 3)),
        Aabb::new(Point::new(-4, -4), Point::new(4, 4)),
        Aabb::new(Point::new(9, 8), Point::new(10, 12)),
    ];
    let batch = SimdAabb::from_lanes(lanes);
    for i in 0..SIMD_WIDTH {
        assert_eq!(batch.extract(i), lanes[i]);
    }
    let same = SimdAabb::splat(lanes[3]);
    for i in 0..SIMD_WIDTH {
        assert_eq!(same.extract(i), lanes[3]);
    }
}

#[test]
fn boxes_shift_and_grow_lane_by_lane() {
    let batch = SimdAabb::from_lanes([
        Aabb::new(Point::new(0, 0), Point::new(1, 1)),
        Aabb::new(Point::new(2, 2), Point::new(3, 3)),
        Aabb::new(Point::new(-4, -4), Point::new(4, 4)),
        Aabb::new(Point::new(9, 8), Point::new(10, 12)),
    ]);
    let moved = batch.shifted_and_loosened(&Vector::new(-5, 1), &Vector::new(2, 3));
    assert_eq!(
        moved.extract(0),
        Aabb::new(Point::new(-7, -2), Point::new(-2, 5))
    );
    assert_eq!(
        moved.extract(3),
        Aabb::new(Point::new(2, 6), Point::new(7, 16))
    );
}

#[test]
fn squared_distance_from_the_origin_to_each_lane() {
    let batch = SimdAabb::from_lanes([
        Aabb::new(Point::new(3, 4), Point::new(8, 9)),
        Aabb::new(Point::new(-9, -8), Point::new(-6, -5)),
        Aabb::new(Point::new(-4, -4), Point::new(4, 4)),
        Aabb::new(Point::new(-1, 7), Point::new(1, 12)),
    ]);
    assert_eq!(batch.distance_to_origin(), [25, 61, 0, 49]);
}

#[test]
fn lane_bits_count_from_the_lowest() {
    assert!(lane_is_set(0b0101, 0));
    assert!(!lane_is_set(0b0101, 1));
    assert!(lane_is_set(0b0101, 2));
    assert!(!lane_is_set(0b0101, 3));
}

#[test]
fn flipping_exchanges_the_two_points() {
    let p = Point::new(1, 2);
    let q = Point::new(3, 4);
    assert_eq!(
        ClosestPoints::WithinMargin(p, q).flipped(),
        ClosestPoints::WithinMargin(q, p)
    );
    assert_eq!(ClosestPoints::Intersecting.flipped(), ClosestPoints::Intersecting);
    assert_eq!(ClosestPoints::Disjoint.flipped(), ClosestPoints::Disjoint);
    assert_eq!(
        ClosestPoints::WithinMargin(p, q).flipped().flipped(),
        ClosestPoints::WithinMargin(p, q)
    );
}
