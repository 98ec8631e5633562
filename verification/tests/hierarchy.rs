use bvh_closest_points::bounding_volume::{Aabb, SimdAabb};
use bvh_closest_points::compound::Compound;
use bvh_closest_points::math::{Isometry, Point, Vector};
use bvh_closest_points::partitioning::{Qbvh, QbvhNode};
use bvh_closest_points::shape::Cuboid;

fn boxes(lanes: [(i64, i64, i64, i64); 4]) -> SimdAabb {
    SimdAabb::from_lanes(lanes.map(|(x0, y0, x1, y1)| Aabb::new(Point::new(x0, y0), Point::new(x1, y1))))
}

fn leaf(bx: (i64, i64, i64, i64), id: u32) -> QbvhNode {
    let none = (0, 0, 0, 0);
    QbvhNode {
        simd_aabb: boxes([bx, none, none, none]),
        children: [Some(id), None, None, None],
        leaf: true,
    }
}

fn root_over(bx: (i64, i64, i64, i64), child: u32) -> QbvhNode {
    let none = (0, 0, 0, 0);
    QbvhNode {
        simd_aabb: boxes([bx, none, none, none]),
        children: [Some(child), None, None, None],
        leaf: false,
    }
}

#[test]
fn hierarchy_without_nodes_is_accepted() {
    let q = Qbvh::new(vec![]).unwrap();
    assert!(q.is_empty());
    assert_eq!(q.nodes().len(), 0);
}

#[test]
fn hierarchy_keeps_its_nodes() {
    let nodes = vec![root_over((-5, -5, 5, 5), 1), leaf((-1, -1, 1, 1), 0)];
    let q = Qbvh::new(nodes.clone()).unwrap();
    assert!(!q.is_empty());
    assert_eq!(q.nodes(), &nodes);
}

#[test]
fn child_that_does_not_come_after_its_parent_is_refused() {
    assert!(Qbvh::new(vec![root_over((-5, -5, 5, 5), 0)]).is_none());
    assert!(Qbvh::new(vec![
        leaf((-1, -1, 1, 1), 0),
        root_over((-5, -5, 5, 5), 0),
    ])
    .is_none());
}

#[test]
fn child_beyond_the_last_node_is_refused() {
    assert!(Qbvh::new(vec![root_over((-5, -5, 5, 5), 2), leaf((-1, -1, 1, 1), 0)]).is_none());
}

#[test]
fn lane_that_does_not_enclose_its_child_is_refused() {
    assert!(Qbvh::new(vec![root_over((-5, -5, 5, 5), 1), leaf((-1, -1, 6, 1), 0)]).is_none());
    assert!(Qbvh::new(vec![root_over((-5, -5, 5, 5), 1), leaf((-5, -5, 5, 5), 0)]).is_some());
}

#[test]
fn leaf_lane_with_an_empty_box_is_refused() {
    assert!(Qbvh::new(vec![leaf((1, 0, 0, 0), 0)]).is_none());
    assert!(Qbvh::new(vec![leaf((0, 0, 0, 0), 0)]).is_some());
}

#[test]
fn boxes_beyond_the_world_are_refused() {
    assert!(Qbvh::new(vec![leaf((0, 0, 0x2000_0001, 0), 0)]).is_none());
    assert!(Qbvh::new(vec![leaf((0, 0, 0x2000_0000, 0), 0)]).is_some());
    let none = (0, 0, 0, 0);
    let unused_lane_too_far = QbvhNode {
        simd_aabb: boxes([none, (0, -0x2000_0001, 0, 0), none, none]),
        children: [Some(0), None, None, None],
        leaf: true,
    };
    assert!(Qbvh::new(vec![unused_lane_too_far]).is_none());
}

#[test]
fn composite_needs_a_part_for_every_leaf_lane() {
    let part = (Isometry::translation(0, 0), Cuboid::new(Vector::new(1, 1)).unwrap());
    let q = Qbvh::new(vec![leaf((-1, -1, 1, 1), 1)]).unwrap();
    assert!(Compound::new(vec![part], q).is_none());
    let q = Qbvh::new(vec![leaf((-1, -1, 1, 1), 0)]).unwrap();
    assert!(Compound::new(vec![part], q).is_some());
}

#[test]
fn composite_needs_leaf_boxes_around_its_parts() {
    let part = (Isometry::translation(3, 0), Cuboid::new(Vector::new(1, 1)).unwrap());
    let q = Qbvh::new(vec![leaf((-1, -1, 1, 1), 0)]).unwrap();
    assert!(Compound::new(vec![part], q).is_none());
    let q = Qbvh::new(vec![leaf((2, -1, 4, 1), 0)]).unwrap();
    assert!(Compound::new(vec![part], q).is_some());
    let q = Qbvh::new(vec![leaf((0, -8, 9, 8), 0)]).unwrap();
    assert!(Compound::new(vec![part], q).is_some());
}

#[test]
fn composite_needs_poses_within_bounds() {
    let part = (
        Isometry::translation(0x1000_0001, 0),
        Cuboid::new(Vector::new(1, 1)).unwrap(),
    );
    let q = Qbvh::new(vec![leaf((0x1000_0000, -1, 0x1000_0002, 1), 0)]).unwrap();
    assert!(Compound::new(vec![part], q).is_none());
}
