use bvh_closest_points::bounding_volume::{Aabb, SimdAabb};
use bvh_closest_points::closest_points_composite::{
    closest_points_composite_shape_shape, closest_points_shape_composite_shape,
    CompositeShapeAgainstShapeClosestPointsVisitor, PartClosestPoints,
};
use bvh_closest_points::compound::{pose_is_bounded, Compound};
use bvh_closest_points::default_query_dispatcher::DefaultQueryDispatcher;
use bvh_closest_points::math::{distance_squared, Isometry, Point, Rotation, Vector};
use bvh_closest_points::partitioning::{
    Qbvh, QbvhNode, SimdBestFirstVisitStatus, SimdBestFirstVisitor,
};
use bvh_closest_points::query::{ClosestPoints, QueryDispatcher};
use bvh_closest_points::shape::{Ball, Cuboid, Shape, TypedSimdCompositeShape};

/// One unit of length, in lattice steps.
const UNIT: i64 = 1000;

fn cuboid(hx: i64, hy: i64) -> Cuboid {
    Cuboid::new(Vector::new(hx, hy)).unwrap()
}

fn empty_box() -> Aabb {
    Aabb::new(Point::new(0, 0), Point::new(0, 0))
}

/// A leaf node over up to four parts, given by their identifiers.
fn leaf_node(parts: &[(Isometry, Cuboid)], ids: &[u32]) -> QbvhNode {
    let mut boxes = [empty_box(); 4];
    let mut children = [None; 4];
    for (lane, id) in ids.iter().enumerate() {
        let (pose, shape) = &parts[*id as usize];
        boxes[lane] = shape.compute_aabb(pose);
        children[lane] = Some(*id);
    }
    QbvhNode { simd_aabb: SimdAabb::from_lanes(boxes), children, leaf: true }
}

fn hull(node: &QbvhNode) -> Aabb {
    let mut mins = Point::new(i64::MAX, i64::MAX);
    let mut maxs = Point::new(i64::MIN, i64::MIN);
    for lane in 0..4 {
        if node.children[lane].is_some() {
            let b = node.simd_aabb.extract(lane);
            mins = Point::new(mins.x.min(b.mins.x), mins.y.min(b.mins.y));
            maxs = Point::new(maxs.x.max(b.maxs.x), maxs.y.max(b.maxs.y));
        }
    }
    Aabb::new(mins, maxs)
}

/// An inner node over up to four nodes, given by their indices.
fn inner_node(nodes: &[QbvhNode], below: &[u32]) -> QbvhNode {
    let mut boxes = [empty_box(); 4];
    let mut children = [None; 4];
    for (lane, child) in below.iter().enumerate() {
        boxes[lane] = hull(&nodes[*child as usize]);
        children[lane] = Some(*child);
    }
    QbvhNode { simd_aabb: SimdAabb::from_lanes(boxes), children, leaf: false }
}

/// A composite whose hierarchy is one leaf node: for at most four parts.
fn flat(parts: Vec<(Isometry, Cuboid)>) -> Compound<Cuboid> {
    let ids: Vec<u32> = (0..parts.len() as u32).collect();
    let qbvh = Qbvh::new(vec![leaf_node(&parts, &ids)]).unwrap();
    Compound::new(parts, qbvh).unwrap()
}

/// A composite whose hierarchy has a root over groups of parts, each group a
/// leaf node: for at most sixteen parts.
fn grouped(parts: Vec<(Isometry, Cuboid)>, groups: &[&[u32]]) -> Compound<Cuboid> {
    let mut nodes = vec![leaf_node(&parts, &[])];
    for group in groups {
        nodes.push(leaf_node(&parts, group));
    }
    let below: Vec<u32> = (1..=groups.len() as u32).collect();
    nodes[0] = inner_node(&nodes, &below);
    let qbvh = Qbvh::new(nodes).unwrap();
    Compound::new(parts, qbvh).unwrap()
}

/// The candidate of least weight among all parts, each resolved in turn.
fn exhaustive(
    parts: &[(Isometry, Cuboid)],
    pos12: &Isometry,
    g2: &Cuboid,
    margin: i64,
) -> Option<i64> {
    let mut best: Option<i64> = None;
    for (pose, shape) in parts {
        let rel = pose.inv_mul(pos12);
        if let Ok(ClosestPoints::WithinMargin(p1, p2)) =
            DefaultQueryDispatcher.closest_points(&rel, shape, g2, margin)
        {
            let w = distance_squared(&pose.transform_point(&p1), &pos12.transform_point(&p2));
            if best.map_or(true, |b| w < b) {
                best = Some(w);
            }
        }
    }
    best
}

/// The squared distance between the two reported points.
fn weight(res: &ClosestPoints) -> Option<i64> {
    match res {
        ClosestPoints::WithinMargin(p1, p2) => Some(distance_squared(p1, p2)),
        _ => None,
    }
}

fn two_boxes() -> Compound<Cuboid> {
    flat(vec![
        (Isometry::translation(0, 0), cuboid(UNIT / 2, UNIT / 2)),
        (Isometry::translation(10 * UNIT, 0), cuboid(UNIT / 2, UNIT / 2)),
    ])
}

#[test]
fn two_boxes_against_a_point_half_a_unit_from_the_second() {
    let point = Ball::new(0).unwrap();
    let pos12 = Isometry::translation(11 * UNIT, 0);
    let res = closest_points_composite_shape_shape(
        &DefaultQueryDispatcher,
        &pos12,
        &two_boxes(),
        &point,
        UNIT,
    );
    assert_eq!(
        res,
        ClosestPoints::WithinMargin(
            Point::new(10 * UNIT + UNIT / 2, 0),
            Point::new(11 * UNIT, 0)
        )
    );
    assert_eq!(weight(&res), Some((UNIT / 2) * (UNIT / 2)));
}

#[test]
fn two_boxes_against_a_point_on_the_rim_of_the_second() {
    let point = Ball::new(0).unwrap();
    let pos12 = Isometry::translation(10 * UNIT + UNIT / 2, 0);
    let compound = two_boxes();
    let res =
        closest_points_composite_shape_shape(&DefaultQueryDispatcher, &pos12, &compound, &point, UNIT);
    assert_eq!(res, ClosestPoints::Intersecting);
    let mut visitor = CompositeShapeAgainstShapeClosestPointsVisitor::new(
        &DefaultQueryDispatcher,
        &pos12,
        &compound,
        &point,
        UNIT,
    );
    let found = compound.typed_qbvh().traverse_best_first(&mut visitor);
    assert_eq!(
        found,
        Some(PartClosestPoints { part: 1, points: ClosestPoints::Intersecting })
    );
}

#[test]
fn two_boxes_against_a_point_between_them_beyond_the_margin() {
    let point = Ball::new(0).unwrap();
    let res = closest_points_composite_shape_shape(
        &DefaultQueryDispatcher,
        &Isometry::translation(5 * UNIT, 0),
        &two_boxes(),
        &point,
        UNIT / 10,
    );
    assert_eq!(res, ClosestPoints::Disjoint);
}

#[test]
fn box_at_the_origin_under_a_ball_at_the_origin() {
    let compound = flat(vec![(Isometry::identity(), cuboid(UNIT, UNIT))]);
    let ball = Ball::new(UNIT / 2).unwrap();
    let pos12 = Isometry::identity();
    let res =
        closest_points_composite_shape_shape(&DefaultQueryDispatcher, &pos12, &compound, &ball, 0);
    assert_eq!(res, ClosestPoints::Intersecting);
    let mut visitor = CompositeShapeAgainstShapeClosestPointsVisitor::new(
        &DefaultQueryDispatcher,
        &pos12,
        &compound,
        &ball,
        0,
    );
    let found = compound.typed_qbvh().traverse_best_first(&mut visitor);
    assert_eq!(
        found,
        Some(PartClosestPoints { part: 0, points: ClosestPoints::Intersecting })
    );
}

fn row_of_boxes() -> Vec<(Isometry, Cuboid)> {
    vec![
        (Isometry::translation(0, 0), cuboid(10, 10)),
        (Isometry::translation(100, 0), cuboid(10, 10)),
        (Isometry::new(Vector::new(200, 0), Rotation::Quarter), cuboid(30, 5)),
        (Isometry::translation(300, 0), cuboid(10, 10)),
        (Isometry::translation(0, 100), cuboid(10, 10)),
        (Isometry::translation(100, 100), cuboid(10, 10)),
        (Isometry::new(Vector::new(200, 100), Rotation::Half), cuboid(10, 20)),
        (Isometry::translation(300, 100), cuboid(10, 10)),
        (Isometry::translation(150, 50), cuboid(1, 1)),
    ]
}

fn row_composite() -> Compound<Cuboid> {
    grouped(row_of_boxes(), &[&[0, 1, 2, 3], &[4, 5, 6, 7], &[8]])
}

#[test]
fn the_only_overlapping_part_is_found_with_its_identifier() {
    let compound = row_composite();
    let query = cuboid(3, 3);
    for (id, (pose, _)) in row_of_boxes().iter().enumerate() {
        let pos12 = Isometry::new(pose.translation, Rotation::ThreeQuarters);
        let mut visitor = CompositeShapeAgainstShapeClosestPointsVisitor::new(
            &DefaultQueryDispatcher,
            &pos12,
            &compound,
            &query,
            1000,
        );
        let found = compound.typed_qbvh().traverse_best_first(&mut visitor);
        assert_eq!(
            found,
            Some(PartClosestPoints { part: id as u32, points: ClosestPoints::Intersecting })
        );
        let res = closest_points_composite_shape_shape(
            &DefaultQueryDispatcher,
            &pos12,
            &compound,
            &query,
            1000,
        );
        assert_eq!(res, ClosestPoints::Intersecting);
    }
}

#[test]
fn reported_points_are_the_nearest_of_all_parts() {
    let compound = row_composite();
    let query = cuboid(2, 2);
    let pos12 = Isometry::translation(240, 40);
    let res =
        closest_points_composite_shape_shape(&DefaultQueryDispatcher, &pos12, &compound, &query, 100);
    assert_eq!(
        res,
        ClosestPoints::WithinMargin(Point::new(205, 30), Point::new(238, 38))
    );
    assert_eq!(weight(&res), Some(33 * 33 + 8 * 8));
    assert!(weight(&res).unwrap() <= 100 * 100);
}

#[test]
fn pruned_search_finds_the_weight_of_the_exhaustive_search() {
    let compound = row_composite();
    let parts = row_of_boxes();
    let query = cuboid(2, 3);
    let mut seen_points = 0;
    let mut seen_disjoint = 0;
    for x in (-80..400).step_by(37) {
        for y in (-90..200).step_by(29) {
            for margin in [0, 15, 60, 500] {
                let pos12 = Isometry::new(Vector::new(x, y), Rotation::Quarter);
                let res = closest_points_composite_shape_shape(
                    &DefaultQueryDispatcher,
                    &pos12,
                    &compound,
                    &query,
                    margin,
                );
                let overlapping = parts.iter().any(|(pose, shape)| {
                    DefaultQueryDispatcher.closest_points(&pose.inv_mul(&pos12), shape, &query, margin)
                        == Ok(ClosestPoints::Intersecting)
                });
                if overlapping {
                    assert_eq!(res, ClosestPoints::Intersecting);
                } else {
                    let least = exhaustive(&parts, &pos12, &query, margin);
                    assert_eq!(weight(&res), least);
                    match least {
                        Some(w) => {
                            assert!(w <= margin * margin);
                            seen_points += 1;
                        }
                        None => {
                            assert_eq!(res, ClosestPoints::Disjoint);
                            seen_disjoint += 1;
                        }
                    }
                }
            }
        }
    }
    assert!(seen_points > 50);
    assert!(seen_disjoint > 50);
}

#[test]
fn parts_all_beyond_the_margin_are_disjoint() {
    let compound = row_composite();
    let query = cuboid(2, 2);
    let pos12 = Isometry::translation(150, -80);
    let res =
        closest_points_composite_shape_shape(&DefaultQueryDispatcher, &pos12, &compound, &query, 64);
    assert_eq!(res, ClosestPoints::Disjoint);
    let res =
        closest_points_composite_shape_shape(&DefaultQueryDispatcher, &pos12, &compound, &query, 65);
    assert_eq!(
        res,
        ClosestPoints::WithinMargin(Point::new(195, -30), Point::new(152, -78))
    );
    assert_eq!(weight(&res), Some(43 * 43 + 48 * 48));
}

#[test]
fn exchanging_the_shapes_flips_the_answer() {
    let compound = row_composite();
    let query = cuboid(2, 7);
    for rotation in [Rotation::Identity, Rotation::Quarter, Rotation::Half, Rotation::ThreeQuarters] {
        for (x, y, margin) in [(240, 40, 100), (150, -80, 10), (100, 100, 10), (-50, 50, 45)] {
            let pos12 = Isometry::new(Vector::new(x, y), rotation);
            let direct = closest_points_composite_shape_shape(
                &DefaultQueryDispatcher,
                &pos12,
                &compound,
                &query,
                margin,
            );
            let exchanged = closest_points_shape_composite_shape(
                &DefaultQueryDispatcher,
                &pos12.inverse(),
                &query,
                &compound,
                margin,
            );
            assert_eq!(exchanged, direct.flipped());
            assert_eq!(exchanged.flipped(), direct);
        }
    }
}

#[test]
fn shape_against_composite_gives_the_point_of_the_shape_first() {
    let compound = two_boxes();
    let point = Ball::new(0).unwrap();
    let pos12 = Isometry::translation(-11 * UNIT, 0);
    let res = closest_points_shape_composite_shape(
        &DefaultQueryDispatcher,
        &pos12,
        &point,
        &compound,
        UNIT,
    );
    assert_eq!(
        res,
        ClosestPoints::WithinMargin(
            Point::new(11 * UNIT, 0),
            Point::new(10 * UNIT + UNIT / 2, 0)
        )
    );
}

#[test]
fn wider_margins_keep_what_narrower_margins_found() {
    let compound = row_composite();
    let query = cuboid(2, 2);
    let pos12 = Isometry::translation(150, -80);
    let mut found_before = false;
    for margin in [0, 10, 50, 64, 65, 100, 1000, 0x8000_0000, i64::MAX] {
        let res = closest_points_composite_shape_shape(
            &DefaultQueryDispatcher,
            &pos12,
            &compound,
            &query,
            margin,
        );
        if found_before {
            assert_ne!(res, ClosestPoints::Disjoint);
        }
        if matches!(res, ClosestPoints::WithinMargin(_, _)) {
            found_before = true;
        }
        if margin >= 0x8000_0000 {
            assert!(matches!(res, ClosestPoints::WithinMargin(_, _)));
        }
    }
    assert!(found_before);
}

#[test]
fn negative_margin_finds_only_overlaps() {
    let compound = row_composite();
    let query = cuboid(2, 2);
    let apart = closest_points_composite_shape_shape(
        &DefaultQueryDispatcher,
        &Isometry::translation(150, -80),
        &compound,
        &query,
        -5,
    );
    assert_eq!(apart, ClosestPoints::Disjoint);
    let over = closest_points_composite_shape_shape(
        &DefaultQueryDispatcher,
        &Isometry::translation(100, 100),
        &compound,
        &query,
        -5,
    );
    assert_eq!(over, ClosestPoints::Intersecting);
}

#[test]
fn parts_that_the_narrow_phase_cannot_resolve_are_left_out() {
    let compound = flat(vec![
        (Isometry::translation(0, 0), cuboid(10, 10)),
        (Isometry::translation(100, 0), cuboid(10, 10)),
    ]);
    let ball = Ball::new(5).unwrap();
    let diagonal = closest_points_composite_shape_shape(
        &DefaultQueryDispatcher,
        &Isometry::translation(50, 50),
        &compound,
        &ball,
        1000,
    );
    assert_eq!(diagonal, ClosestPoints::Disjoint);
    let beside = closest_points_composite_shape_shape(
        &DefaultQueryDispatcher,
        &Isometry::translation(130, 50),
        &compound,
        &ball,
        1000,
    );
    assert_eq!(beside, ClosestPoints::Disjoint);
    let level = closest_points_composite_shape_shape(
        &DefaultQueryDispatcher,
        &Isometry::translation(130, 4),
        &compound,
        &ball,
        1000,
    );
    assert_eq!(
        level,
        ClosestPoints::WithinMargin(Point::new(110, 4), Point::new(125, 4))
    );
}

#[test]
fn traversal_of_an_empty_hierarchy_finds_nothing() {
    let qbvh = Qbvh::new(vec![]).unwrap();
    assert!(qbvh.is_empty());
    let compound: Compound<Cuboid> = Compound::new(vec![], qbvh).unwrap();
    let query = cuboid(1, 1);
    let pos12 = Isometry::identity();
    let mut visitor = CompositeShapeAgainstShapeClosestPointsVisitor::new(
        &DefaultQueryDispatcher,
        &pos12,
        &compound,
        &query,
        10,
    );
    assert_eq!(compound.typed_qbvh().traverse_best_first(&mut visitor), None);
}

#[test]
fn visit_of_an_inner_node_scores_and_masks_its_lanes() {
    let compound = row_composite();
    let query = cuboid(2, 2);
    let pos12 = Isometry::translation(150, -80);
    let mut visitor = CompositeShapeAgainstShapeClosestPointsVisitor::new(
        &DefaultQueryDispatcher,
        &pos12,
        &compound,
        &query,
        1000,
    );
    let root = compound.typed_qbvh().nodes()[0];
    assert!(!root.leaf);
    match visitor.visit(48 * 48 + 1, &root.simd_aabb, None) {
        SimdBestFirstVisitStatus::MaybeContinue { weights, mask, results } => {
            assert_eq!(weights, [48 * 48, 158 * 158, 127 * 127, 148 * 148 + 78 * 78]);
            assert_eq!(mask, [true, false, false, false]);
            assert_eq!(results, [None; 4]);
        }
        SimdBestFirstVisitStatus::ExitEarly(_) => panic!("an inner node does not end the search"),
    }
    match visitor.visit(48 * 48, &root.simd_aabb, None) {
        SimdBestFirstVisitStatus::MaybeContinue { mask, .. } => {
            assert_eq!(mask, [false; 4]);
        }
        SimdBestFirstVisitStatus::ExitEarly(_) => panic!("an inner node does not end the search"),
    }
    match visitor.visit(i64::MAX, &root.simd_aabb, None) {
        SimdBestFirstVisitStatus::MaybeContinue { mask, .. } => {
            assert_eq!(mask, [true; 4]);
        }
        SimdBestFirstVisitStatus::ExitEarly(_) => panic!("an inner node does not end the search"),
    }
}

#[test]
fn visit_of_a_leaf_node_resolves_the_lanes_below_the_best() {
    let compound = row_composite();
    let query = cuboid(2, 2);
    let pos12 = Isometry::translation(150, -80);
    let mut visitor = CompositeShapeAgainstShapeClosestPointsVisitor::new(
        &DefaultQueryDispatcher,
        &pos12,
        &compound,
        &query,
        90,
    );
    let leaf = compound.typed_qbvh().nodes()[1];
    assert!(leaf.leaf);
    match visitor.visit(80 * 80, &leaf.simd_aabb, Some(leaf.children)) {
        SimdBestFirstVisitStatus::MaybeContinue { weights, mask, results } => {
            assert_eq!(weights, [0, 38 * 38 + 68 * 68, 43 * 43 + 48 * 48, 0]);
            assert_eq!(mask, [false, true, true, false]);
            assert_eq!(
                results,
                [
                    None,
                    Some(PartClosestPoints {
                        part: 1,
                        points: ClosestPoints::WithinMargin(
                            Point::new(110, -10),
                            Point::new(148, -78)
                        ),
                    }),
                    Some(PartClosestPoints {
                        part: 2,
                        points: ClosestPoints::WithinMargin(
                            Point::new(195, -30),
                            Point::new(152, -78)
                        ),
                    }),
                    None,
                ]
            );
        }
        SimdBestFirstVisitStatus::ExitEarly(_) => panic!("no part overlaps the query"),
    }
}

#[test]
fn visit_of_a_leaf_node_ends_the_search_at_an_overlap() {
    let compound = row_composite();
    let query = cuboid(2, 2);
    let pos12 = Isometry::translation(200, 20);
    let mut visitor = CompositeShapeAgainstShapeClosestPointsVisitor::new(
        &DefaultQueryDispatcher,
        &pos12,
        &compound,
        &query,
        1000,
    );
    let leaf = compound.typed_qbvh().nodes()[1];
    let status = visitor.visit(i64::MAX, &leaf.simd_aabb, Some(leaf.children));
    assert!(matches!(
        status,
        SimdBestFirstVisitStatus::ExitEarly(Some(PartClosestPoints {
            part: 2,
            points: ClosestPoints::Intersecting,
        }))
    ));
    let status = visitor.visit(0, &leaf.simd_aabb, Some(leaf.children));
    assert!(matches!(
        status,
        SimdBestFirstVisitStatus::MaybeContinue { mask: [false, false, false, false], .. }
    ));
}

#[test]
fn poses_within_bounds_are_told_from_those_beyond() {
    assert!(pose_is_bounded(&Isometry::translation(0x1000_0000, -0x1000_0000)));
    assert!(!pose_is_bounded(&Isometry::translation(0x1000_0001, 0)));
    assert!(!pose_is_bounded(&Isometry::translation(0, -0x1000_0001)));
}

#[test]
fn of_two_equally_near_parts_the_one_found_first_is_kept() {
    let compound = flat(vec![
        (Isometry::translation(-20, 0), cuboid(5, 5)),
        (Isometry::translation(20, 0), cuboid(5, 5)),
    ]);
    let query = cuboid(5, 5);
    let pos12 = Isometry::identity();
    let res =
        closest_points_composite_shape_shape(&DefaultQueryDispatcher, &pos12, &compound, &query, 10);
    assert_eq!(
        res,
        ClosestPoints::WithinMargin(Point::new(-15, -5), Point::new(-5, -5))
    );
    assert_eq!(weight(&res), Some(100));
    let mut visitor = CompositeShapeAgainstShapeClosestPointsVisitor::new(
        &DefaultQueryDispatcher,
        &pos12,
        &compound,
        &query,
        10,
    );
    let found = compound.typed_qbvh().traverse_best_first(&mut visitor);
    assert_eq!(found.map(|r| r.part), Some(0));
}

#[test]
fn reported_points_share_the_frame_of_the_composite() {
    let compound = flat(vec![(Isometry::translation(20, 0), cuboid(1, 1))]);
    let ball = Ball::new(1).unwrap();
    let pos12 = Isometry::translation(26, 0);
    let res =
        closest_points_composite_shape_shape(&DefaultQueryDispatcher, &pos12, &compound, &ball, 5);
    assert_eq!(
        res,
        ClosestPoints::WithinMargin(Point::new(21, 0), Point::new(25, 0))
    );
    assert_eq!(weight(&res), Some(16));
    let turned = Isometry::new(Vector::new(26, 0), Rotation::Quarter);
    let res =
        closest_points_composite_shape_shape(&DefaultQueryDispatcher, &turned, &compound, &ball, 5);
    assert_eq!(
        res,
        ClosestPoints::WithinMargin(Point::new(21, 0), Point::new(25, 0))
    );
    let exchanged = closest_points_shape_composite_shape(
        &DefaultQueryDispatcher,
        &pos12.inverse(),
        &ball,
        &compound,
        5,
    );
    assert_eq!(
        exchanged,
        ClosestPoints::WithinMargin(Point::new(25, 0), Point::new(21, 0))
    );
    assert_eq!(weight(&exchanged), Some(16));
}
