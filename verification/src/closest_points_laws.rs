//! What holds of every closest-points search over a composite shape.

use vstd::prelude::*;

use crate::closest_points_composite::{
    composite_shape_shape_answer, is_composite_answer, is_exchanged_answer,
    lemma_traversal_finds_closest_part, no_part_beats, pair_weight, part_outcome,
    shape_composite_shape_answer, CompositeShapeAgainstShapeClosestPointsVisitor,
    PartClosestPoints,
};
use crate::math::{
    distance_squared_spec, lattice_point, lemma_inv_mul_applies, lemma_inverse_undoes,
    lemma_motion_keeps_distance, lemma_rotation_is_linear, Isometry, Point, Real, Rigid,
    COORD_MAX,
};
use crate::partitioning::{best_first_answer, BestFirstModel, LeafOutcome, PartId};
use crate::query::{within_margin, ClosestPoints, Contact, QueryDispatcher};
use crate::shape::{Shape, TypedSimdCompositeShape};

verus! {

/// How part `id` of `g1` and `g2` lie to each other, as the narrow phase
/// tells it for the part's shape and `g2` under the pose of `g2` relative to
/// the part. Only meant for a part that `g1` has.
pub open spec fn part_contact<D, G1, G2>(
    dispatcher: &D,
    pos12: Rigid,
    g1: &G1,
    g2: &G2,
    id: PartId,
) -> Contact where D: QueryDispatcher<G1::PartShape, G2>, G1: TypedSimdCompositeShape, G2: Shape {
    dispatcher.contact(
        g1.part(id).unwrap().0@.inv_mul(pos12),
        &g1.part(id).unwrap().1,
        g2,
    )
}

/// Squared distance between part `id` of `g1` and `g2`, in the frame of
/// `g1`, where the narrow phase finds them apart.
pub open spec fn part_distance_squared<D, G1, G2>(
    dispatcher: &D,
    pos12: Rigid,
    g1: &G1,
    g2: &G2,
    id: PartId,
) -> int where D: QueryDispatcher<G1::PartShape, G2>, G1: TypedSimdCompositeShape, G2: Shape {
    match part_contact(dispatcher, pos12, g1, g2, id) {
        Contact::Nearest(q1, q2) => pair_weight(g1.part(id).unwrap().0@, pos12, q1, q2),
        _ => 0,
    }
}

/// The nearest points of a part that the hierarchy holds keep their distance
/// when they are taken into the frame of the composite, the first from the
/// frame of the part and the second from the frame of `g2`, and both are
/// points of the lattice there. So a part is a candidate exactly when its
/// distance to `g2` is within the margin, and the candidate holds its two
/// nearest points in the frame of the composite.
pub proof fn lemma_part_distance<D, G1, G2>(
    dispatcher: &D,
    pos12: Rigid,
    g1: &G1,
    g2: &G2,
    margin: Real,
    id: PartId,
) where D: QueryDispatcher<G1::PartShape, G2>, G1: TypedSimdCompositeShape, G2: Shape
    requires
        g1.wf(),
        g2.wf(),
        pos12.bounded(COORD_MAX as int),
        g1.qbvh().holds_part(id),
    ensures
        g1.part(id) is Some,
        match part_contact(dispatcher, pos12, g1, g2, id) {
            Contact::Unsupported => part_outcome(dispatcher, pos12, g1, g2, margin, id) is Miss,
            Contact::Overlapping => part_outcome(dispatcher, pos12, g1, g2, margin, id) is Stop,
            Contact::Nearest(q1, q2) => {
                let pose = g1.part(id).unwrap().0;
                let w = part_distance_squared(dispatcher, pos12, g1, g2, id);
                let p1 = lattice_point(pose@.apply(q1@));
                let p2 = lattice_point(pos12.apply(q2@));
                &&& p1@ == pose@.apply(q1@)
                &&& p2@ == pos12.apply(q2@)
                &&& w == distance_squared_spec(p1@, p2@)
                &&& w == distance_squared_spec(q1@, pose@.inv_mul(pos12).apply(q2@))
                &&& if 0 <= margin && w <= margin * margin {
                    part_outcome(dispatcher, pos12, g1, g2, margin, id) == (LeafOutcome::Hit {
                        weight: w,
                        result: PartClosestPoints {
                            part: id,
                            points: ClosestPoints::WithinMargin(p1, p2),
                        },
                    })
                } else {
                    part_outcome(dispatcher, pos12, g1, g2, margin, id) is Miss
                }
            },
        },
{
    let (n, i) = choose|n: int, i: int| g1.qbvh().holds_at(n, i, id);
    g1.lemma_hierarchy_bounds_parts(n, i);
    let (pose, shape) = g1.part(id).unwrap();
    let rel = pose@.inv_mul(pos12);
    match dispatcher.contact(rel, &shape, g2) {
        Contact::Nearest(q1, q2) => {
            dispatcher.lemma_contact_is_sound(rel, &shape, g2);
            shape.lemma_aabb_encloses(pose@, q1@);
            g2.lemma_aabb_encloses(pos12, q2@);
            lemma_inv_mul_applies(pose@, pos12, q2@);
            lemma_motion_keeps_distance(pose@, q1@, rel.apply(q2@));
        },
        _ => {},
    }
}

/// If exactly one part overlaps the second shape, and no part is a candidate
/// at distance zero, a best-first traversal with the visitor finds the
/// overlapping part, with `Intersecting`.
pub proof fn lemma_single_overlapping_part_is_found<D, G1, G2>(
    v: CompositeShapeAgainstShapeClosestPointsVisitor<D, G1, G2>,
    found: Option<PartClosestPoints>,
    id: PartId,
) where D: QueryDispatcher<G1::PartShape, G2>, G1: TypedSimdCompositeShape, G2: Shape
    requires
        v.wf(),
        best_first_answer(v, v.g1().qbvh()@, found),
        v.g1().qbvh().holds_part(id),
        forall|other: PartId| #[trigger]
            v.g1().qbvh().holds_part(other) ==> (part_contact(
                v.dispatcher(),
                v.pos12()@,
                v.g1(),
                v.g2(),
                other,
            ) is Overlapping <==> other == id),
        forall|other: PartId| #[trigger]
            v.g1().qbvh().holds_part(other) ==> match v.leaf_outcome(other) {
                LeafOutcome::Hit { weight, .. } => weight != 0,
                _ => true,
            },
    ensures
        found == Some(PartClosestPoints { part: id, points: ClosestPoints::Intersecting }),
{
    let d = v.dispatcher();
    let pos12 = v.pos12()@;
    lemma_traversal_finds_closest_part(v, found);
    lemma_part_distance(d, pos12, v.g1(), v.g2(), v.margin(), id);
    match found {
        None => {},
        Some(r) => {
            lemma_part_distance(d, pos12, v.g1(), v.g2(), v.margin(), r.part);
        },
    }
}

/// If exactly one part overlaps the second shape, and no part is a candidate
/// at distance zero, the answer for the composite is `Intersecting`.
pub proof fn lemma_single_overlapping_part_gives_intersecting<D, G1, G2>(
    dispatcher: &D,
    pos12: Rigid,
    g1: &G1,
    g2: &G2,
    margin: Real,
    res: ClosestPoints,
    id: PartId,
) where D: QueryDispatcher<G1::PartShape, G2>, G1: TypedSimdCompositeShape, G2: Shape
    requires
        g1.wf(),
        g2.wf(),
        pos12.bounded(COORD_MAX as int),
        is_composite_answer(dispatcher, pos12, g1, g2, margin, res),
        g1.qbvh().holds_part(id),
        forall|other: PartId| #[trigger]
            g1.qbvh().holds_part(other) ==> (part_contact(dispatcher, pos12, g1, g2, other)
                is Overlapping <==> other == id),
        forall|other: PartId| #[trigger]
            g1.qbvh().holds_part(other) ==> match part_outcome(
                dispatcher,
                pos12,
                g1,
                g2,
                margin,
                other,
            ) {
                LeafOutcome::Hit { weight, .. } => weight != 0,
                _ => true,
            },
    ensures
        res == ClosestPoints::Intersecting,
{
    lemma_part_distance(dispatcher, pos12, g1, g2, margin, id);
    if res != ClosestPoints::Disjoint {
        let found = choose|found: PartId| #[trigger]
            g1.qbvh().holds_part(found) && match part_outcome(
                dispatcher,
                pos12,
                g1,
                g2,
                margin,
                found,
            ) {
                LeafOutcome::Miss => false,
                LeafOutcome::Stop { result } => res == result.points,
                LeafOutcome::Hit { weight, result } => res == result.points && no_part_beats(
                    dispatcher,
                    pos12,
                    g1,
                    g2,
                    margin,
                    weight,
                ),
            };
        lemma_part_distance(dispatcher, pos12, g1, g2, margin, found);
    }
}

/// When no part overlaps the second shape, the two points that the search
/// reports are apart by no more than the margin, and by exactly the least
/// distance between a part and the second shape: some part is that far from
/// it, and no part that the narrow phase finds apart from it is nearer.
pub proof fn lemma_reported_points_are_nearest<D, G1, G2>(
    dispatcher: &D,
    pos12: Rigid,
    g1: &G1,
    g2: &G2,
    margin: Real,
    p1: Point,
    p2: Point,
) where D: QueryDispatcher<G1::PartShape, G2>, G1: TypedSimdCompositeShape, G2: Shape
    requires
        g1.wf(),
        g2.wf(),
        pos12.bounded(COORD_MAX as int),
        is_composite_answer(dispatcher, pos12, g1, g2, margin, ClosestPoints::WithinMargin(p1, p2)),
        forall|id: PartId| #[trigger]
            g1.qbvh().holds_part(id) ==> !(part_contact(dispatcher, pos12, g1, g2, id)
                is Overlapping),
    ensures
        within_margin(p1@, p2@, margin),
        exists|id: PartId| #[trigger]
            g1.qbvh().holds_part(id) && part_contact(dispatcher, pos12, g1, g2, id) is Nearest
                && part_distance_squared(dispatcher, pos12, g1, g2, id) == distance_squared_spec(
                p1@,
                p2@,
            ),
        forall|id: PartId| #[trigger]
            g1.qbvh().holds_part(id) && part_contact(dispatcher, pos12, g1, g2, id) is Nearest
                ==> distance_squared_spec(p1@, p2@) <= part_distance_squared(
                dispatcher,
                pos12,
                g1,
                g2,
                id,
            ),
{
    let res = ClosestPoints::WithinMargin(p1, p2);
    let found = choose|found: PartId| #[trigger]
        g1.qbvh().holds_part(found) && match part_outcome(
            dispatcher,
            pos12,
            g1,
            g2,
            margin,
            found,
        ) {
            LeafOutcome::Miss => false,
            LeafOutcome::Stop { result } => res == result.points,
            LeafOutcome::Hit { weight, result } => res == result.points && no_part_beats(
                dispatcher,
                pos12,
                g1,
                g2,
                margin,
                weight,
            ),
        };
    lemma_part_distance(dispatcher, pos12, g1, g2, margin, found);
    let w = part_distance_squared(dispatcher, pos12, g1, g2, found);
    assert(w == distance_squared_spec(p1@, p2@));
    assert forall|id: PartId| #[trigger]
        g1.qbvh().holds_part(id) && part_contact(dispatcher, pos12, g1, g2, id)
            is Nearest implies w <= part_distance_squared(dispatcher, pos12, g1, g2, id) by {
        lemma_part_distance(dispatcher, pos12, g1, g2, margin, id);
    }
}

/// If every part is farther from the second shape than the margin, the
/// answer for the composite is `Disjoint`.
pub proof fn lemma_all_parts_beyond_margin_give_disjoint<D, G1, G2>(
    dispatcher: &D,
    pos12: Rigid,
    g1: &G1,
    g2: &G2,
    margin: Real,
    res: ClosestPoints,
) where D: QueryDispatcher<G1::PartShape, G2>, G1: TypedSimdCompositeShape, G2: Shape
    requires
        g1.wf(),
        g2.wf(),
        pos12.bounded(COORD_MAX as int),
        is_composite_answer(dispatcher, pos12, g1, g2, margin, res),
        forall|id: PartId| #[trigger]
            g1.qbvh().holds_part(id) ==> part_contact(dispatcher, pos12, g1, g2, id) is Nearest
                && (margin < 0 || part_distance_squared(dispatcher, pos12, g1, g2, id) > margin
                * margin),
    ensures
        res == ClosestPoints::Disjoint,
{
    if res != ClosestPoints::Disjoint {
        let found = choose|found: PartId| #[trigger]
            g1.qbvh().holds_part(found) && !(part_outcome(
                dispatcher,
                pos12,
                g1,
                g2,
                margin,
                found,
            ) is Miss);
        lemma_part_distance(dispatcher, pos12, g1, g2, margin, found);
    }
}

/// The search over a composite and a shape, and the search with the roles of
/// the two shapes exchanged under the inverse pose, answer with flips of
/// each other: `res` answers the first exactly when its flip answers the
/// second, and the flip of that flip is `res` again.
pub proof fn lemma_exchanged_roles_flip_the_answer<D, G1, G2>(
    dispatcher: &D,
    pos12: Rigid,
    g1: &G1,
    g2: &G2,
    margin: Real,
    res: ClosestPoints,
) where D: QueryDispatcher<G1::PartShape, G2>, G1: TypedSimdCompositeShape, G2: Shape
    ensures
        is_composite_answer(dispatcher, pos12, g1, g2, margin, res) <==> is_exchanged_answer(
            dispatcher,
            pos12.inverse(),
            g2,
            g1,
            margin,
            res.flipped_spec(),
        ),
        res.flipped_spec().flipped_spec() == res,
{
    lemma_inverse_undoes(pos12, pos12.translation);
}

/// The search over a composite and a shape, and the search over the shape
/// and the composite under the inverse pose, return flips of each other.
pub proof fn lemma_exchanged_searches_return_flips<D, G1, G2>(
    dispatcher: &D,
    pos12: &Isometry,
    g1: &G1,
    g2: &G2,
    margin: Real,
) where D: QueryDispatcher<G1::PartShape, G2>, G1: TypedSimdCompositeShape, G2: Shape
    requires
        pos12@.bounded(COORD_MAX as int),
    ensures
        shape_composite_shape_answer(dispatcher, &pos12.inverse_spec(), g2, g1, margin)
            == composite_shape_shape_answer(dispatcher, pos12, g1, g2, margin).flipped_spec(),
        shape_composite_shape_answer(
            dispatcher,
            &pos12.inverse_spec(),
            g2,
            g1,
            margin,
        ).flipped_spec() == composite_shape_shape_answer(dispatcher, pos12, g1, g2, margin),
{
    lemma_inverse_undoes(pos12@, pos12@.translation);
    lemma_rotation_is_linear(
        pos12@.rotation.inverse_spec(),
        pos12@.translation,
        pos12@.translation,
    );
    assert(pos12.inverse_spec()@ == pos12@.inverse());
    assert(pos12.inverse_spec().inverse_spec() == *pos12);
}

/// A search without pruning, which resolves every part and keeps a candidate
/// of least weight, finds no other distance than the best-first traversal
/// with its pruning: when no part overlaps the second shape and `least` is a
/// candidate that no candidate beats, the traversal finds a candidate of the
/// same weight, whatever the hierarchy.
pub proof fn lemma_pruning_keeps_the_minimum<D, G1, G2>(
    v: CompositeShapeAgainstShapeClosestPointsVisitor<D, G1, G2>,
    found: Option<PartClosestPoints>,
    least: PartId,
) where D: QueryDispatcher<G1::PartShape, G2>, G1: TypedSimdCompositeShape, G2: Shape
    requires
        v.wf(),
        best_first_answer(v, v.g1().qbvh()@, found),
        v.g1().qbvh().holds_part(least),
        v.leaf_outcome(least) is Hit,
        forall|id: PartId| #[trigger]
            v.g1().qbvh().holds_part(id) ==> match v.leaf_outcome(id) {
                LeafOutcome::Miss => true,
                LeafOutcome::Hit { weight, .. } => v.leaf_outcome(least)->Hit_weight <= weight,
                LeafOutcome::Stop { .. } => false,
            },
    ensures
        found is Some,
        v.leaf_outcome(found.unwrap().part) matches LeafOutcome::Hit { weight, result } && result
            == found.unwrap() && weight == v.leaf_outcome(least)->Hit_weight,
{
    lemma_traversal_finds_closest_part(v, found);
}

/// A wider margin never turns an answer with points into `Disjoint`.
pub proof fn lemma_wider_margin_keeps_contact<D, G1, G2>(
    dispatcher: &D,
    pos12: Rigid,
    g1: &G1,
    g2: &G2,
    margin: Real,
    wider: Real,
    res: ClosestPoints,
    wider_res: ClosestPoints,
) where D: QueryDispatcher<G1::PartShape, G2>, G1: TypedSimdCompositeShape, G2: Shape
    requires
        g1.wf(),
        g2.wf(),
        pos12.bounded(COORD_MAX as int),
        margin <= wider,
        is_composite_answer(dispatcher, pos12, g1, g2, margin, res),
        is_composite_answer(dispatcher, pos12, g1, g2, wider, wider_res),
        res is WithinMargin,
    ensures
        wider_res != ClosestPoints::Disjoint,
{
    let found = choose|found: PartId| #[trigger]
        g1.qbvh().holds_part(found) && !(part_outcome(dispatcher, pos12, g1, g2, margin, found)
            is Miss);
    lemma_part_distance(dispatcher, pos12, g1, g2, margin, found);
    lemma_part_distance(dispatcher, pos12, g1, g2, wider, found);
    assert(margin * margin <= wider * wider) by (nonlinear_arith)
        requires
            0 <= margin <= wider,
    ;
}

/// Least margin from which on every distance between two points of the
/// world is within the margin.
pub const WORLD_SPAN: Real = 0x8000_0000;

/// A margin of at least `WORLD_SPAN` turns every `Disjoint` answer into one
/// with points, as long as the narrow phase knows how to tell the distance
/// of at least one part.
pub proof fn lemma_wide_margin_reaches_every_part<D, G1, G2>(
    dispatcher: &D,
    pos12: Rigid,
    g1: &G1,
    g2: &G2,
    margin: Real,
    wide: Real,
    res: ClosestPoints,
    wide_res: ClosestPoints,
    id: PartId,
) where D: QueryDispatcher<G1::PartShape, G2>, G1: TypedSimdCompositeShape, G2: Shape
    requires
        g1.wf(),
        g2.wf(),
        pos12.bounded(COORD_MAX as int),
        WORLD_SPAN <= wide,
        is_composite_answer(dispatcher, pos12, g1, g2, margin, res),
        is_composite_answer(dispatcher, pos12, g1, g2, wide, wide_res),
        res == ClosestPoints::Disjoint,
        g1.qbvh().holds_part(id),
        part_contact(dispatcher, pos12, g1, g2, id) is Nearest,
    ensures
        wide_res is WithinMargin,
{
    lemma_part_distance(dispatcher, pos12, g1, g2, wide, id);
    let (n, i) = choose|n: int, i: int| g1.qbvh().holds_at(n, i, id);
    g1.lemma_hierarchy_bounds_parts(n, i);
    let (pose, shape) = g1.part(id).unwrap();
    let rel = pose@.inv_mul(pos12);
    let w = part_distance_squared(dispatcher, pos12, g1, g2, id);
    match dispatcher.contact(rel, &shape, g2) {
        Contact::Nearest(q1, q2) => {
            dispatcher.lemma_contact_is_sound(rel, &shape, g2);
            shape.lemma_aabb_encloses(pose@, q1@);
            g2.lemma_aabb_encloses(pos12, q2@);
            let d = pose@.apply(q1@).minus(pos12.apply(q2@));
            assert(d.x * d.x + d.y * d.y <= wide * wide) by (nonlinear_arith)
                requires
                    -0x4000_0000 <= d.x <= 0x4000_0000,
                    -0x4000_0000 <= d.y <= 0x4000_0000,
                    0x8000_0000 <= wide,
            ;
        },
        _ => {},
    }
    assert(part_outcome(dispatcher, pos12, g1, g2, wide, id) is Hit);
    if wide_res == ClosestPoints::Intersecting {
        let found = choose|found: PartId| #[trigger]
            g1.qbvh().holds_part(found) && match part_outcome(
                dispatcher,
                pos12,
                g1,
                g2,
                wide,
                found,
            ) {
                LeafOutcome::Miss => false,
                LeafOutcome::Stop { result } => wide_res == result.points,
                LeafOutcome::Hit { weight, result } => wide_res == result.points && no_part_beats(
                    dispatcher,
                    pos12,
                    g1,
                    g2,
                    wide,
                    weight,
                ),
            };
        lemma_part_distance(dispatcher, pos12, g1, g2, wide, found);
        lemma_part_distance(dispatcher, pos12, g1, g2, margin, found);
    }
}

/// The answer for the composite is unique, unless two parts are candidates
/// of the same weight or a part is a candidate at distance zero while another
/// overlaps the second shape: without such parts, two answers are the same.
pub proof fn lemma_answer_is_unique_without_ties<D, G1, G2>(
    dispatcher: &D,
    pos12: Rigid,
    g1: &G1,
    g2: &G2,
    margin: Real,
    res: ClosestPoints,
    other_res: ClosestPoints,
) where D: QueryDispatcher<G1::PartShape, G2>, G1: TypedSimdCompositeShape, G2: Shape
    requires
        is_composite_answer(dispatcher, pos12, g1, g2, margin, res),
        is_composite_answer(dispatcher, pos12, g1, g2, margin, other_res),
        forall|a: PartId, b: PartId|
            #![trigger g1.qbvh().holds_part(a), g1.qbvh().holds_part(b)]
            g1.qbvh().holds_part(a) && g1.qbvh().holds_part(b) && a != b ==> match (
                part_outcome(dispatcher, pos12, g1, g2, margin, a),
                part_outcome(dispatcher, pos12, g1, g2, margin, b),
            ) {
                (
                    LeafOutcome::Hit { weight: wa, .. },
                    LeafOutcome::Hit { weight: wb, .. },
                ) => wa != wb,
                (LeafOutcome::Hit { weight: wa, .. }, LeafOutcome::Stop { .. }) => wa != 0,
                _ => true,
            },
    ensures
        res == other_res,
{
    if res != ClosestPoints::Disjoint && other_res != ClosestPoints::Disjoint {
        let a = choose|id: PartId| #[trigger]
            g1.qbvh().holds_part(id) && match part_outcome(dispatcher, pos12, g1, g2, margin, id) {
                LeafOutcome::Miss => false,
                LeafOutcome::Stop { result } => res == result.points,
                LeafOutcome::Hit { weight, result } => res == result.points && no_part_beats(
                    dispatcher,
                    pos12,
                    g1,
                    g2,
                    margin,
                    weight,
                ),
            };
        let b = choose|id: PartId| #[trigger]
            g1.qbvh().holds_part(id) && match part_outcome(dispatcher, pos12, g1, g2, margin, id) {
                LeafOutcome::Miss => false,
                LeafOutcome::Stop { result } => other_res == result.points,
                LeafOutcome::Hit { weight, result } => other_res == result.points && no_part_beats(
                    dispatcher,
                    pos12,
                    g1,
                    g2,
                    margin,
                    weight,
                ),
            };
        assert(g1.qbvh().holds_part(a) && g1.qbvh().holds_part(b));
    }
}

} // verus!
