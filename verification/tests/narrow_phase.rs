use bvh_closest_points::bounding_volume::Aabb;
use bvh_closest_points::default_query_dispatcher::DefaultQueryDispatcher;
use bvh_closest_points::math::{Isometry, Point, Rotation, Vector};
use bvh_closest_points::query::{ClosestPoints, QueryDispatcher, Unsupported};
use bvh_closest_points::shape::{Ball, Cuboid, Shape};

fn cuboid(hx: i64, hy: i64) -> Cuboid {
    Cuboid::new(Vector::new(hx, hy)).unwrap()
}

#[test]
fn shapes_outside_the_coordinate_range_are_refused() {
    assert!(Cuboid::new(Vector::new(-1, 5)).is_none());
    assert!(Cuboid::new(Vector::new(5, 0x1000_0001)).is_none());
    assert!(Cuboid::new(Vector::new(0, 0x1000_0000)).is_some());
    assert!(Ball::new(-1).is_none());
    assert!(Ball::new(0x1000_0001).is_none());
    assert_eq!(Ball::new(7).unwrap().radius, 7);
}

#[test]
fn box_of_a_cuboid_follows_its_pose() {
    let c = cuboid(3, 1);
    assert_eq!(
        c.compute_aabb(&Isometry::translation(10, 20)),
        Aabb::new(Point::new(7, 19), Point::new(13, 21))
    );
    assert_eq!(
        c.compute_aabb(&Isometry::new(Vector::new(10, 20), Rotation::Quarter)),
        Aabb::new(Point::new(9, 17), Point::new(11, 23))
    );
    assert_eq!(
        c.compute_aabb(&Isometry::new(Vector::new(10, 20), Rotation::Half)),
        Aabb::new(Point::new(7, 19), Point::new(13, 21))
    );
}

#[test]
fn box_of_a_ball_is_a_square_around_its_center() {
    let b = Ball::new(4).unwrap();
    assert_eq!(
        b.compute_aabb(&Isometry::new(Vector::new(-3, 5), Rotation::ThreeQuarters)),
        Aabb::new(Point::new(-7, 1), Point::new(1, 9))
    );
}

#[test]
fn cuboids_apart_along_one_axis() {
    let d = DefaultQueryDispatcher;
    let r = d.closest_points(&Isometry::translation(10, 0), &cuboid(2, 2), &cuboid(3, 1), 5);
    assert_eq!(
        r,
        Ok(ClosestPoints::WithinMargin(Point::new(2, -1), Point::new(-3, -1)))
    );
    let r = d.closest_points(&Isometry::translation(10, 0), &cuboid(2, 2), &cuboid(3, 1), 4);
    assert_eq!(r, Ok(ClosestPoints::Disjoint));
}

#[test]
fn cuboids_apart_across_a_corner() {
    let d = DefaultQueryDispatcher;
    let r = d.closest_points(&Isometry::translation(-10, 9), &cuboid(2, 2), &cuboid(4, 3), 6);
    assert_eq!(
        r,
        Ok(ClosestPoints::WithinMargin(Point::new(-2, 2), Point::new(4, -3)))
    );
    let r = d.closest_points(&Isometry::translation(-10, 9), &cuboid(2, 2), &cuboid(4, 3), 5);
    assert_eq!(r, Ok(ClosestPoints::Disjoint));
}

#[test]
fn second_point_is_given_in_the_frame_of_the_second_cuboid() {
    let d = DefaultQueryDispatcher;
    let pose = Isometry::new(Vector::new(10, 0), Rotation::Quarter);
    let r = d.closest_points(&pose, &cuboid(2, 2), &cuboid(3, 1), 100);
    let expected_second = pose.inverse().transform_point(&Point::new(9, -2));
    assert_eq!(expected_second, Point::new(-2, 1));
    assert_eq!(
        r,
        Ok(ClosestPoints::WithinMargin(Point::new(2, -2), expected_second))
    );
}

#[test]
fn cuboids_that_touch_or_overlap_intersect() {
    let d = DefaultQueryDispatcher;
    let r = d.closest_points(&Isometry::translation(5, 0), &cuboid(2, 2), &cuboid(3, 1), 0);
    assert_eq!(r, Ok(ClosestPoints::Intersecting));
    let r = d.closest_points(&Isometry::translation(1, 1), &cuboid(2, 2), &cuboid(3, 1), 0);
    assert_eq!(r, Ok(ClosestPoints::Intersecting));
    let r = d.closest_points(&Isometry::translation(6, 0), &cuboid(2, 2), &cuboid(3, 1), 0);
    assert_eq!(r, Ok(ClosestPoints::Disjoint));
}

#[test]
fn negative_margin_leaves_nothing_within_it() {
    let d = DefaultQueryDispatcher;
    let r = d.closest_points(&Isometry::translation(6, 0), &cuboid(2, 2), &cuboid(3, 1), -1);
    assert_eq!(r, Ok(ClosestPoints::Disjoint));
    let r = d.closest_points(&Isometry::translation(5, 0), &cuboid(2, 2), &cuboid(3, 1), -1);
    assert_eq!(r, Ok(ClosestPoints::Intersecting));
}

#[test]
fn very_wide_margin_holds_every_distance() {
    let d = DefaultQueryDispatcher;
    let r = d.closest_points(
        &Isometry::translation(0x2000_0000, -0x2000_0000),
        &cuboid(1, 1),
        &cuboid(1, 1),
        i64::MAX,
    );
    assert_eq!(
        r,
        Ok(ClosestPoints::WithinMargin(Point::new(1, -1), Point::new(-1, 1)))
    );
}

#[test]
fn ball_against_a_cuboid_along_an_axis() {
    let d = DefaultQueryDispatcher;
    let ball = Ball::new(3).unwrap();
    let r = d.closest_points(&Isometry::translation(10, 1), &cuboid(2, 2), &ball, 5);
    assert_eq!(
        r,
        Ok(ClosestPoints::WithinMargin(Point::new(2, 1), Point::new(-3, 0)))
    );
    let r = d.closest_points(&Isometry::translation(10, 1), &cuboid(2, 2), &ball, 4);
    assert_eq!(r, Ok(ClosestPoints::Disjoint));
    let turned = Isometry::new(Vector::new(0, -9), Rotation::Quarter);
    let r = d.closest_points(&turned, &cuboid(2, 2), &ball, 4);
    assert_eq!(
        r,
        Ok(ClosestPoints::WithinMargin(Point::new(0, -2), Point::new(3, 0)))
    );
}

#[test]
fn ball_that_reaches_a_cuboid_intersects() {
    let d = DefaultQueryDispatcher;
    let ball = Ball::new(5).unwrap();
    let r = d.closest_points(&Isometry::translation(7, 0), &cuboid(2, 2), &ball, 0);
    assert_eq!(r, Ok(ClosestPoints::Intersecting));
    let r = d.closest_points(&Isometry::translation(5, 6), &cuboid(2, 2), &ball, 0);
    assert_eq!(r, Ok(ClosestPoints::Intersecting));
    let r = d.closest_points(&Isometry::translation(0, 0), &cuboid(2, 2), &ball, 0);
    assert_eq!(r, Ok(ClosestPoints::Intersecting));
}

#[test]
fn ball_across_a_corner_is_not_supported() {
    let d = DefaultQueryDispatcher;
    let ball = Ball::new(1).unwrap();
    let r = d.closest_points(&Isometry::translation(10, 10), &cuboid(2, 2), &ball, 100);
    assert_eq!(r, Err(Unsupported));
}
