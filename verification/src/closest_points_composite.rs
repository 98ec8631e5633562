//! Closest points between a composite shape and another shape.

use vstd::prelude::*;

use crate::bounding_volume::{
    gap, lemma_center_and_half_extents_cover, lemma_distance_to_origin_is_not_negative,
    lemma_loosened_distance_is_lower_bound, lemma_loosened_distance_is_monotone, Box2, SimdAabb,
};
use crate::math::{
    distance_squared, distance_squared_spec, lattice_point, lattice_vector,
    lemma_inv_mul_applies, lemma_rotation_is_linear, Isometry, Point, Real, Rigid, Vec2, Vector,
    COORD_MAX, WORLD_MAX,
};
use crate::partitioning::{
    admissible, all_settled, best_first_answer, best_first_result, first_stop_is, in_subtree, lane_is_active,
    lane_is_resolved, lane_stops, lanes_are_resolved, lanes_are_scored, leaf_lane, node_data,
    settled, some_part_hits_with, some_part_stops_with, BestFirstModel, LeafOutcome, PartId,
    SimdBestFirstVisitStatus, SimdBestFirstVisitor,
};
use crate::query::{closest_points_of, ClosestPoints, Contact, QueryDispatcher, Unsupported};
use crate::shape::{part_is_bounded, Shape, TypedSimdCompositeShape};
use crate::simd::{lane_bit, lane_is_set, simd_bitmask, simd_lt, simd_splat, SIMD_WIDTH};

verus! {

/// The closest points between one part of a composite shape and another
/// shape.
#[derive(Clone, Copy, Debug, PartialEq, Eq, Structural)]
pub struct PartClosestPoints {
    /// The part of the composite shape.
    pub part: PartId,
    /// The closest points. The first point of a pair lies on the part, the
    /// second on the other shape; both are given in the frame of the
    /// composite shape.
    pub points: ClosestPoints,
}

/// What the narrow phase answers for part `id` of the composite `g1` against
/// `g2`, in the frame of the part: the answer for the part's shape and `g2`
/// under the pose of `g2` relative to the part. A composite without such a
/// part has no answer for it.
pub open spec fn part_answer<D, G1, G2>(
    dispatcher: &D,
    pos12: Rigid,
    g1: &G1,
    g2: &G2,
    margin: Real,
    id: PartId,
) -> Result<ClosestPoints, Unsupported> where
    D: QueryDispatcher<G1::PartShape, G2>,
    G1: TypedSimdCompositeShape,
    G2: Shape,
 {
    match g1.part(id) {
        Some((pose, shape)) => closest_points_of(
            dispatcher.contact(pose@.inv_mul(pos12), &shape, g2),
            pose@.inv_mul(pos12),
            margin,
        ),
        None => Err(Unsupported),
    }
}

/// Squared distance, in the frame of the composite, between a point `p1` of
/// a part under the pose `pose` and a point `p2` of the other shape under
/// the pose `pos12`.
pub open spec fn pair_weight(pose: Rigid, pos12: Rigid, p1: Point, p2: Point) -> int {
    distance_squared_spec(pose.apply(p1@), pos12.apply(p2@))
}

/// What part `id` contributes to the search: nothing when the narrow phase
/// fails or finds the part beyond the margin; an end of the search when it
/// finds the part overlapping; else a candidate, weighed by the squared
/// distance between its two points, both of which are given in the frame of
/// the composite: the first taken there by the pose of the part, the second
/// by `pos12`.
pub open spec fn part_outcome<D, G1, G2>(
    dispatcher: &D,
    pos12: Rigid,
    g1: &G1,
    g2: &G2,
    margin: Real,
    id: PartId,
) -> LeafOutcome<PartClosestPoints> where
    D: QueryDispatcher<G1::PartShape, G2>,
    G1: TypedSimdCompositeShape,
    G2: Shape,
 {
    match part_answer(dispatcher, pos12, g1, g2, margin, id) {
        Ok(ClosestPoints::WithinMargin(p1, p2)) => LeafOutcome::Hit {
            weight: pair_weight(g1.part(id).unwrap().0@, pos12, p1, p2),
            result: PartClosestPoints {
                part: id,
                points: ClosestPoints::WithinMargin(
                    lattice_point(g1.part(id).unwrap().0@.apply(p1@)),
                    lattice_point(pos12.apply(p2@)),
                ),
            },
        },
        Ok(ClosestPoints::Intersecting) => LeafOutcome::Stop {
            result: PartClosestPoints { part: id, points: ClosestPoints::Intersecting },
        },
        _ => LeafOutcome::Miss,
    }
}

/// A visitor for computing the closest points between a composite shape and
/// a shape.
pub struct CompositeShapeAgainstShapeClosestPointsVisitor<'a, D, G1, G2> {
    msum_shift: Vector,
    msum_margin: Vector,
    margin: Real,
    dispatcher: &'a D,
    pos12: &'a Isometry,
    g1: &'a G1,
    g2: &'a G2,
}

impl<'a, D, G1, G2> CompositeShapeAgainstShapeClosestPointsVisitor<'a, D, G1, G2> where
    D: QueryDispatcher<G1::PartShape, G2>,
    G1: TypedSimdCompositeShape,
    G2: Shape,
 {
    /// The displacement by which every visited box is moved.
    pub closed spec fn msum_shift(&self) -> Vec2 {
        self.msum_shift@
    }

    /// The amount by which every visited box is grown on every side.
    pub closed spec fn msum_margin(&self) -> Vec2 {
        self.msum_margin@
    }

    /// The margin of the query.
    pub closed spec fn margin(&self) -> Real {
        self.margin
    }

    /// The narrow phase that resolves the parts.
    pub closed spec fn dispatcher(&self) -> &D {
        self.dispatcher
    }

    /// The pose that maps the frame of `g2` into the frame of `g1`.
    pub closed spec fn pos12(&self) -> Isometry {
        *self.pos12
    }

    /// The composite shape.
    pub closed spec fn g1(&self) -> &G1 {
        self.g1
    }

    /// The other shape.
    pub closed spec fn g2(&self) -> &G2 {
        self.g2
    }

    /// The visitor that `new` returns.
    pub closed spec fn for_query(
        dispatcher: &'a D,
        pos12: &'a Isometry,
        g1: &'a G1,
        g2: &'a G2,
        margin: Real,
    ) -> Self {
        CompositeShapeAgainstShapeClosestPointsVisitor {
            msum_shift: lattice_vector(g2.aabb(pos12@).center().negated()),
            msum_margin: lattice_vector(g2.aabb(pos12@).half_extents()),
            margin,
            dispatcher,
            pos12,
            g1,
            g2,
        }
    }

    /// Initializes a visitor for computing the closest points between a
    /// composite shape and a shape. The box of `g2` in the frame of `g1` is
    /// taken once: the visitor moves boxes by the negated center of that box
    /// and grows them by its half extents.
    pub fn new(dispatcher: &'a D, pos12: &'a Isometry, g1: &'a G1, g2: &'a G2, margin: Real) -> (r:
        CompositeShapeAgainstShapeClosestPointsVisitor<'a, D, G1, G2>)
        requires
            g2.wf(),
            pos12@.bounded(COORD_MAX as int),
        ensures
            r.msum_shift() == g2.aabb(pos12@).center().negated(),
            r.msum_margin() == g2.aabb(pos12@).half_extents(),
            r.margin() == margin,
            r.dispatcher() == dispatcher,
            r.pos12() == *pos12,
            r.g1() == g1,
            r.g2() == g2,
            r == Self::for_query(dispatcher, pos12, g1, g2, margin),
    {
        let ls_aabb2 = g2.compute_aabb(pos12);
        proof {
            g2.lemma_aabb_encloses(pos12@, Vec2 { x: 0, y: 0 });
            lemma_center_and_half_extents_cover(ls_aabb2@);
        }
        let center = ls_aabb2.center();
        CompositeShapeAgainstShapeClosestPointsVisitor {
            msum_shift: Vector { x: -center.x, y: -center.y },
            msum_margin: ls_aabb2.half_extents(),
            margin,
            dispatcher,
            pos12,
            g1,
            g2,
        }
    }
}

impl<'a, D, G1, G2> BestFirstModel for CompositeShapeAgainstShapeClosestPointsVisitor<
    'a,
    D,
    G1,
    G2,
> where D: QueryDispatcher<G1::PartShape, G2>, G1: TypedSimdCompositeShape, G2: Shape {
    type Result = PartClosestPoints;

    /// The two shapes are well formed, the pose is within bounds, and the
    /// visitor holds the negated center and the half extents of the box of
    /// `g2` in the frame of `g1`.
    open spec fn wf(&self) -> bool {
        &&& self.g1().wf()
        &&& self.g2().wf()
        &&& self.pos12()@.bounded(COORD_MAX as int)
        &&& self.msum_shift() == self.g2().aabb(self.pos12()@).center().negated()
        &&& self.msum_margin() == self.g2().aabb(self.pos12()@).half_extents()
    }

    /// Boxes within the world's bounds; on every occupied lane of a leaf
    /// node, a part of `g1` that the lane's box bounds.
    open spec fn accepts(&self, bv: SimdAabb, data: Option<[Option<PartId>; 4]>) -> bool {
        &&& bv.bounded(WORLD_MAX as int)
        &&& data matches Some(ids) ==> forall|i: int|
            0 <= i < SIMD_WIDTH && (#[trigger] ids[i]) is Some ==> part_is_bounded(
                self.g1().part(ids[i].unwrap()),
                bv.lane(i),
            )
    }

    /// Squared distance from the origin to the box, once it is moved by the
    /// visitor's shift and grown by the visitor's margin. This is at most
    /// the squared distance from the box to the box of `g2`.
    open spec fn lower_bound(&self, bv: Box2) -> int {
        bv.shifted_and_loosened(self.msum_shift(), self.msum_margin()).distance_to_origin_squared()
    }

    /// What the part contributes, as `part_outcome` tells it.
    open spec fn leaf_outcome(&self, id: PartId) -> LeafOutcome<PartClosestPoints> {
        part_outcome(self.dispatcher(), self.pos12()@, self.g1(), self.g2(), self.margin(), id)
    }
}

impl<'a, D, G1, G2> SimdBestFirstVisitor for CompositeShapeAgainstShapeClosestPointsVisitor<
    'a,
    D,
    G1,
    G2,
> where D: QueryDispatcher<G1::PartShape, G2>, G1: TypedSimdCompositeShape, G2: Shape {
    #[verifier::loop_isolation(false)]
    fn visit(&mut self, best: Real, bv: &SimdAabb, data: Option<[Option<PartId>; 4]>) -> (status:
        SimdBestFirstVisitStatus<PartClosestPoints>) {
        proof {
            self.g2.lemma_aabb_encloses(self.pos12@, Vec2 { x: 0, y: 0 });
            lemma_center_and_half_extents_cover(self.g2.aabb(self.pos12@));
        }
        // The Minkowski sum of each lane's box and the box of `g2`, mirrored.
        let msum = bv.shifted_and_loosened(&self.msum_shift, &self.msum_margin);
        let dist = msum.distance_to_origin();
        let below = simd_lt(&dist, &simd_splat(best));
        assert forall|i: int| 0 <= i < SIMD_WIDTH implies (#[trigger] dist[i]) == self.lower_bound(
            bv.lane(i),
        ) && below[i] == (dist[i] < best) by {
            assert(msum.lane(i) == bv.lane(i).shifted_and_loosened(
                self.msum_shift@,
                self.msum_margin@,
            ));
        }

        if let Some(data) = data {
            let bitmask = simd_bitmask(&below);
            let mut weights: [Real; 4] = [0;4];
            let mut mask: [bool; 4] = [false;4];
            let mut results: [Option<PartClosestPoints>; 4] = [None;4];
            let mut ii: usize = 0;
            while ii < SIMD_WIDTH
                invariant
                    ii <= SIMD_WIDTH,
                    *self == *old(self),
                    forall|i: int|
                        0 <= i < ii ==> #[trigger] lane_is_resolved(
                            *self,
                            best,
                            *bv,
                            data,
                            i,
                            weights[i],
                            mask[i],
                            results[i],
                        ),
                    forall|i: int| ii <= i < SIMD_WIDTH ==> (#[trigger] weights[i]) == 0,
                    forall|i: int| ii <= i < SIMD_WIDTH ==> !(#[trigger] mask[i]),
                    forall|i: int| ii <= i < SIMD_WIDTH ==> (#[trigger] results[i]) is None,
                decreases SIMD_WIDTH - ii,
            {
                let ghost lane = ii as int;
                assert(lane_bit(bitmask, lane) == below[lane]);
                assert(dist[lane] == self.lower_bound(bv.lane(lane)));
                assert(lane_is_active(*self, best, *bv, data, lane) == (data[lane] is Some
                    && lane_bit(bitmask, lane)));
                if lane_is_set(bitmask, ii) {
                    if let Some(part_id) = data[ii] {
                        assert(part_is_bounded(self.g1.part(part_id), bv.lane(lane)));
                        let (part_pos1, g1) = self.g1.typed_part_at(part_id);
                        let rel = part_pos1.inv_mul(self.pos12);
                        let pts = self.dispatcher.closest_points(&rel, g1, self.g2, self.margin);
                        assert(pts == part_answer(
                            self.dispatcher,
                            self.pos12@,
                            self.g1,
                            self.g2,
                            self.margin,
                            part_id,
                        ));
                        match pts {
                            Ok(ClosestPoints::WithinMargin(p1, p2)) => {
                                proof {
                                    self.dispatcher.lemma_contact_is_sound(rel@, g1, self.g2);
                                    g1.lemma_aabb_encloses(part_pos1@, p1@);
                                    self.g2.lemma_aabb_encloses(self.pos12@, p2@);
                                }
                                let p1 = part_pos1.transform_point(&p1);
                                let p2_1 = self.pos12.transform_point(&p2);
                                weights[ii] = distance_squared(&p1, &p2_1);
                                results[ii] = Some(
                                    PartClosestPoints {
                                        part: part_id,
                                        points: ClosestPoints::WithinMargin(p1, p2_1),
                                    },
                                );
                                mask[ii] = true;
                            },
                            Ok(ClosestPoints::Intersecting) => {
                                proof {
                                    assert(lane_stops(*self, best, *bv, data, lane));
                                    assert forall|k: int| 0 <= k < lane implies !lane_stops(
                                        *self,
                                        best,
                                        *bv,
                                        data,
                                        k,
                                    ) by {
                                        assert(lane_is_resolved(
                                            *self,
                                            best,
                                            *bv,
                                            data,
                                            k,
                                            weights[k],
                                            mask[k],
                                            results[k],
                                        ));
                                    }
                                    assert(first_stop_is(
                                        *self,
                                        best,
                                        *bv,
                                        data,
                                        Some(
                                            PartClosestPoints {
                                                part: part_id,
                                                points: ClosestPoints::Intersecting,
                                            },
                                        ),
                                    ));
                                }
                                return SimdBestFirstVisitStatus::ExitEarly(
                                    Some(
                                        PartClosestPoints {
                                            part: part_id,
                                            points: ClosestPoints::Intersecting,
                                        },
                                    ),
                                );
                            },
                            _ => {},
                        }
                    }
                }
                assert(lane_is_resolved(
                    *self,
                    best,
                    *bv,
                    data,
                    lane,
                    weights[lane],
                    mask[lane],
                    results[lane],
                ));
                ii += 1;
            }
            assert(lanes_are_resolved(*self, best, *bv, data, weights, mask, results));
            SimdBestFirstVisitStatus::MaybeContinue { weights, mask, results }
        } else {
            let results: [Option<PartClosestPoints>; 4] = [None;4];
            assert(lanes_are_scored(*self, best, *bv, dist, below, results));
            SimdBestFirstVisitStatus::MaybeContinue { weights: dist, mask: below, results }
        }
    }
}

/// No part that the hierarchy of `g1` holds beats a candidate of weight `w`:
/// each contributes nothing or is a candidate of at least that weight, and
/// if one overlaps `g2`, `w` is zero.
pub open spec fn no_part_beats<D, G1, G2>(
    dispatcher: &D,
    pos12: Rigid,
    g1: &G1,
    g2: &G2,
    margin: Real,
    w: int,
) -> bool where D: QueryDispatcher<G1::PartShape, G2>, G1: TypedSimdCompositeShape, G2: Shape {
    forall|id: PartId| #[trigger]
        g1.qbvh().holds_part(id) ==> match part_outcome(dispatcher, pos12, g1, g2, margin, id) {
            LeafOutcome::Miss => true,
            LeafOutcome::Hit { weight, .. } => w <= weight,
            LeafOutcome::Stop { .. } => w == 0,
        }
}

/// No part that the hierarchy of `g1` holds overlaps `g2` or is within the
/// margin of it, as far as the narrow phase can tell.
pub open spec fn no_part_contributes<D, G1, G2>(
    dispatcher: &D,
    pos12: Rigid,
    g1: &G1,
    g2: &G2,
    margin: Real,
) -> bool where D: QueryDispatcher<G1::PartShape, G2>, G1: TypedSimdCompositeShape, G2: Shape {
    forall|id: PartId| #[trigger]
        g1.qbvh().holds_part(id) ==> part_outcome(dispatcher, pos12, g1, g2, margin, id) is Miss
}

/// What the search over the parts of `g1` finds. Nothing, exactly when no
/// part contributes. Else a part that the hierarchy holds, with its closest
/// points: a part that overlaps `g2`, or a part within the margin that no
/// part beats.
pub open spec fn is_closest_part<D, G1, G2>(
    dispatcher: &D,
    pos12: Rigid,
    g1: &G1,
    g2: &G2,
    margin: Real,
    found: Option<PartClosestPoints>,
) -> bool where D: QueryDispatcher<G1::PartShape, G2>, G1: TypedSimdCompositeShape, G2: Shape {
    match found {
        None => no_part_contributes(dispatcher, pos12, g1, g2, margin),
        Some(r) => g1.qbvh().holds_part(r.part) && match part_outcome(
            dispatcher,
            pos12,
            g1,
            g2,
            margin,
            r.part,
        ) {
            LeafOutcome::Miss => false,
            LeafOutcome::Stop { result } => r == result,
            LeafOutcome::Hit { weight, result } => r == result && no_part_beats(
                dispatcher,
                pos12,
                g1,
                g2,
                margin,
                weight,
            ),
        },
    }
}

/// The closest points between the composite `g1` and `g2`: `Disjoint` exactly
/// when no part contributes; `Intersecting` only if a part overlaps `g2`;
/// else the closest points of a part within the margin that no part beats,
/// the first on `g1` and the second on `g2`, both in the frame of `g1`.
pub open spec fn is_composite_answer<D, G1, G2>(
    dispatcher: &D,
    pos12: Rigid,
    g1: &G1,
    g2: &G2,
    margin: Real,
    res: ClosestPoints,
) -> bool where D: QueryDispatcher<G1::PartShape, G2>, G1: TypedSimdCompositeShape, G2: Shape {
    match res {
        ClosestPoints::Disjoint => no_part_contributes(dispatcher, pos12, g1, g2, margin),
        _ => exists|id: PartId| #[trigger]
            g1.qbvh().holds_part(id) && match part_outcome(dispatcher, pos12, g1, g2, margin, id) {
                LeafOutcome::Miss => false,
                LeafOutcome::Stop { result } => res == result.points,
                LeafOutcome::Hit { weight, result } => res == result.points && no_part_beats(
                    dispatcher,
                    pos12,
                    g1,
                    g2,
                    margin,
                    weight,
                ),
            },
    }
}

/// The score of the box of a leaf lane is never negative and is at most the
/// weight of the lane's part, if that part is a candidate; it is zero if the
/// part overlaps `g2`. Scores and weights stay below `Real::MAX`.
pub proof fn lemma_leaf_score_is_admissible<D, G1, G2>(
    v: CompositeShapeAgainstShapeClosestPointsVisitor<D, G1, G2>,
    n: int,
    i: int,
) where D: QueryDispatcher<G1::PartShape, G2>, G1: TypedSimdCompositeShape, G2: Shape
    requires
        v.wf(),
        leaf_lane(v.g1().qbvh()@, n, i) is Some,
    ensures
        0 <= v.lower_bound(v.g1().qbvh()@[n].simd_aabb.lane(i)) < Real::MAX,
        match v.leaf_outcome(leaf_lane(v.g1().qbvh()@, n, i).unwrap()) {
            LeafOutcome::Miss => true,
            LeafOutcome::Hit { weight, .. } => v.lower_bound(v.g1().qbvh()@[n].simd_aabb.lane(i))
                <= weight < Real::MAX,
            LeafOutcome::Stop { .. } => v.lower_bound(v.g1().qbvh()@[n].simd_aabb.lane(i)) == 0,
        },
{
    let nodes = v.g1().qbvh()@;
    let id = leaf_lane(nodes, n, i).unwrap();
    let bx = nodes[n].simd_aabb.lane(i);
    let pos12 = v.pos12()@;
    let b2 = v.g2().aabb(pos12);
    let shift = v.msum_shift();
    let margin = v.msum_margin();
    v.g1().lemma_hierarchy_bounds_parts(n, i);
    v.g2().lemma_aabb_encloses(pos12, Vec2 { x: 0, y: 0 });
    lemma_center_and_half_extents_cover(b2);
    assert(nodes[n].simd_aabb.bounded(WORLD_MAX as int));
    assert(bx.bounded(WORLD_MAX as int));
    let loose = bx.shifted_and_loosened(shift, margin);
    lemma_distance_to_origin_is_not_negative(loose);
    lemma_squares_below(gap(loose.mins.x, loose.maxs.x), gap(loose.mins.y, loose.maxs.y));
    let (pose, shape) = v.g1().part(id).unwrap();
    let rel = pose@.inv_mul(pos12);
    match v.dispatcher().contact(rel, &shape, v.g2()) {
        Contact::Unsupported => {},
        Contact::Overlapping => {
            v.dispatcher().lemma_contact_is_sound(rel, &shape, v.g2());
            let p = choose|p: Vec2| v.g2().contains(p) && #[trigger] shape.contains(rel.apply(p));
            lemma_inv_mul_applies(pose@, pos12, p);
            shape.lemma_aabb_encloses(pose@, rel.apply(p));
            v.g2().lemma_aabb_encloses(pos12, p);
            let q = pos12.apply(p);
            lemma_loosened_distance_is_lower_bound(bx, shift, margin, q, q);
        },
        Contact::Nearest(p1, p2) => {
            v.dispatcher().lemma_contact_is_sound(rel, &shape, v.g2());
            shape.lemma_aabb_encloses(pose@, p1@);
            v.g2().lemma_aabb_encloses(pos12, p2@);
            lemma_loosened_distance_is_lower_bound(
                bx,
                shift,
                margin,
                pose@.apply(p1@),
                pos12.apply(p2@),
            );
            let d = pose@.apply(p1@).minus(pos12.apply(p2@));
            lemma_squares_below(d.x, d.y);
        },
    }
}

/// Two squares of numbers of magnitude at most `0x6000_0000` add to less
/// than `Real::MAX`.
proof fn lemma_squares_below(a: int, b: int)
    requires
        -0x6000_0000 <= a <= 0x6000_0000,
        -0x6000_0000 <= b <= 0x6000_0000,
    ensures
        a * a + b * b < Real::MAX,
{
    assert(a * a <= 0x2400_0000_0000_0000 && b * b <= 0x2400_0000_0000_0000) by (nonlinear_arith)
        requires
            -0x6000_0000 <= a <= 0x6000_0000,
            -0x6000_0000 <= b <= 0x6000_0000,
    ;
}

/// The scores of the visitor can guide a best-first search, and the visitor
/// can be asked to visit every node of the hierarchy of its composite.
pub proof fn lemma_visitor_is_admissible<D, G1, G2>(
    v: CompositeShapeAgainstShapeClosestPointsVisitor<D, G1, G2>,
) where D: QueryDispatcher<G1::PartShape, G2>, G1: TypedSimdCompositeShape, G2: Shape
    requires
        v.wf(),
    ensures
        admissible(v),
        v.g1().qbvh().wf(),
        forall|m: int|
            0 <= m < v.g1().qbvh()@.len() ==> v.accepts(
                (#[trigger] v.g1().qbvh()@[m]).simd_aabb,
                node_data(v.g1().qbvh()@, m),
            ),
{
    let nodes = v.g1().qbvh()@;
    let shift = v.msum_shift();
    let margin = v.msum_margin();
    v.g1().lemma_hierarchy_bounds_parts(0, 0);
    v.g2().lemma_aabb_encloses(v.pos12()@, Vec2 { x: 0, y: 0 });
    lemma_center_and_half_extents_cover(v.g2().aabb(v.pos12()@));
    assert forall|b: Box2| 0 <= #[trigger] v.lower_bound(b) by {
        lemma_distance_to_origin_is_not_negative(b.shifted_and_loosened(shift, margin));
    }
    assert forall|outer: Box2, inner: Box2|
        outer.encloses(inner) && inner.inhabited() implies #[trigger] v.lower_bound(outer)
        <= #[trigger] v.lower_bound(inner) by {
        lemma_loosened_distance_is_monotone(outer, inner, shift, margin);
    }
    assert forall|m: int| 0 <= m < nodes.len() implies v.accepts(
        (#[trigger] nodes[m]).simd_aabb,
        node_data(nodes, m),
    ) by {
        if nodes[m].leaf {
            let ids = nodes[m].children;
            assert forall|i: int|
                0 <= i < SIMD_WIDTH && (#[trigger] ids[i]) is Some implies part_is_bounded(
                v.g1().part(ids[i].unwrap()),
                nodes[m].simd_aabb.lane(i),
            ) by {
                v.g1().lemma_hierarchy_bounds_parts(m, i);
            }
        }
    }
}

/// What a best-first traversal with the visitor returns is what the search
/// over the parts of the composite finds.
pub proof fn lemma_traversal_finds_closest_part<D, G1, G2>(
    v: CompositeShapeAgainstShapeClosestPointsVisitor<D, G1, G2>,
    found: Option<PartClosestPoints>,
) where D: QueryDispatcher<G1::PartShape, G2>, G1: TypedSimdCompositeShape, G2: Shape
    requires
        v.wf(),
        best_first_answer(v, v.g1().qbvh()@, found),
    ensures
        is_closest_part(v.dispatcher(), v.pos12()@, v.g1(), v.g2(), v.margin(), found),
{
    let nodes = v.g1().qbvh()@;
    let d = v.dispatcher();
    let pos12 = v.pos12()@;
    match found {
        None => {
            assert forall|id: PartId| #[trigger] v.g1().qbvh().holds_part(id) implies part_outcome(
                d,
                pos12,
                v.g1(),
                v.g2(),
                v.margin(),
                id,
            ) is Miss by {
                let (n, i) = choose|n: int, i: int| v.g1().qbvh().holds_at(n, i, id);
                lemma_leaf_score_is_admissible(v, n, i);
                assert(settled(v, nodes, n, i, Real::MAX as int));
            }
        },
        Some(r) => {
            if some_part_stops_with(v, nodes, r) {
                let (n, i) = choose|n: int, i: int|
                    in_subtree(nodes, 0, n) && (#[trigger] leaf_lane(nodes, n, i)) is Some
                        && v.leaf_outcome(leaf_lane(nodes, n, i).unwrap()) == (LeafOutcome::Stop::<
                        PartClosestPoints,
                    > { result: r });
                assert(v.g1().qbvh().holds_at(n, i, r.part));
            } else {
                let w = choose|w: int|
                    w < Real::MAX && #[trigger] some_part_hits_with(v, nodes, w, r) && all_settled(
                        v,
                        nodes,
                        w,
                    );
                let (n, i) = choose|n: int, i: int|
                    in_subtree(nodes, 0, n) && (#[trigger] leaf_lane(nodes, n, i)) is Some
                        && v.leaf_outcome(leaf_lane(nodes, n, i).unwrap()) == (LeafOutcome::Hit::<
                        PartClosestPoints,
                    > { weight: w, result: r });
                assert(v.g1().qbvh().holds_at(n, i, r.part));
                lemma_leaf_score_is_admissible(v, n, i);
                assert forall|id: PartId| #[trigger]
                    v.g1().qbvh().holds_part(id) implies match part_outcome(
                    d,
                    pos12,
                    v.g1(),
                    v.g2(),
                    v.margin(),
                    id,
                ) {
                    LeafOutcome::Miss => true,
                    LeafOutcome::Hit { weight, .. } => w <= weight,
                    LeafOutcome::Stop { .. } => w == 0,
                } by {
                    let (n2, i2) = choose|n2: int, i2: int| v.g1().qbvh().holds_at(n2, i2, id);
                    lemma_leaf_score_is_admissible(v, n2, i2);
                    assert(settled(v, nodes, n2, i2, w));
                }
            }
        },
    }
}

/// What `closest_points_composite_shape_shape` returns: the points of what
/// a best-first traversal of the hierarchy of `g1` returns for the visitor
/// of the query, or `Disjoint` if it returns nothing.
pub open spec fn composite_shape_shape_answer<D, G1, G2>(
    dispatcher: &D,
    pos12: &Isometry,
    g1: &G1,
    g2: &G2,
    margin: Real,
) -> ClosestPoints where
    D: QueryDispatcher<G1::PartShape, G2>,
    G1: TypedSimdCompositeShape,
    G2: Shape,
 {
    match best_first_result(
        CompositeShapeAgainstShapeClosestPointsVisitor::for_query(
            dispatcher,
            pos12,
            g1,
            g2,
            margin,
        ),
        g1.qbvh()@,
    ) {
        Some(r) => r.points,
        None => ClosestPoints::Disjoint,
    }
}

/// What `closest_points_shape_composite_shape` returns: the flip of what
/// `closest_points_composite_shape_shape` returns for the composite and the
/// shape under the inverse pose.
pub open spec fn shape_composite_shape_answer<D, G1, G2>(
    dispatcher: &D,
    pos12: &Isometry,
    g1: &G1,
    g2: &G2,
    margin: Real,
) -> ClosestPoints where
    D: QueryDispatcher<G2::PartShape, G1>,
    G1: Shape,
    G2: TypedSimdCompositeShape,
 {
    composite_shape_shape_answer(
        dispatcher,
        &pos12.inverse_spec(),
        g2,
        g1,
        margin,
    ).flipped_spec()
}

/// Closest points between a composite shape and any other shape, where
/// `pos12` maps the frame of `g2` into the frame of `g1`. Points are given
/// in the frame of `g1`, the point on `g1` first. The hierarchy of the
/// composite shape must not be empty.
pub fn closest_points_composite_shape_shape<D, G1, G2>(
    dispatcher: &D,
    pos12: &Isometry,
    g1: &G1,
    g2: &G2,
    margin: Real,
) -> (res: ClosestPoints) where
    D: QueryDispatcher<G1::PartShape, G2>,
    G1: TypedSimdCompositeShape,
    G2: Shape,

    requires
        g1.wf(),
        g2.wf(),
        pos12@.bounded(COORD_MAX as int),
        g1.qbvh()@.len() > 0,
    ensures
        is_composite_answer(dispatcher, pos12@, g1, g2, margin, res),
        res == composite_shape_shape_answer(dispatcher, pos12, g1, g2, margin),
{
    let mut visitor = CompositeShapeAgainstShapeClosestPointsVisitor::new(
        dispatcher,
        pos12,
        g1,
        g2,
        margin,
    );
    let ghost v = visitor;
    proof {
        lemma_visitor_is_admissible(v);
    }
    let found = g1.typed_qbvh().traverse_best_first(&mut visitor);
    proof {
        lemma_traversal_finds_closest_part(v, found);
    }
    match found {
        Some(r) => r.points,
        None => ClosestPoints::Disjoint,
    }
}

/// What the search with the roles of the two shapes exchanged answers for a
/// shape `g1` and a composite `g2`, where `pos12` maps the frame of `g2`
/// into the frame of `g1`: the flip of an answer for the composite and the
/// shape under the inverse pose. Points are given in the frame of the
/// composite `g2`, the point on `g1` first.
pub open spec fn is_exchanged_answer<D, G1, G2>(
    dispatcher: &D,
    pos12: Rigid,
    g1: &G1,
    g2: &G2,
    margin: Real,
    res: ClosestPoints,
) -> bool where D: QueryDispatcher<G2::PartShape, G1>, G1: Shape, G2: TypedSimdCompositeShape {
    is_composite_answer(dispatcher, pos12.inverse(), g2, g1, margin, res.flipped_spec())
}

/// Closest points between a shape and a composite shape, where `pos12` maps
/// the frame of `g2` into the frame of `g1`: those between the composite
/// shape and the shape under the inverse pose, with the roles of the two
/// shapes exchanged. Points are given in the frame of the composite `g2`,
/// the point on `g1` first. The hierarchy of the composite shape must not be
/// empty.
pub fn closest_points_shape_composite_shape<D, G1, G2>(
    dispatcher: &D,
    pos12: &Isometry,
    g1: &G1,
    g2: &G2,
    margin: Real,
) -> (res: ClosestPoints) where
    D: QueryDispatcher<G2::PartShape, G1>,
    G1: Shape,
    G2: TypedSimdCompositeShape,

    requires
        g1.wf(),
        g2.wf(),
        pos12@.bounded(COORD_MAX as int),
        g2.qbvh()@.len() > 0,
    ensures
        is_exchanged_answer(dispatcher, pos12@, g1, g2, margin, res),
        res == shape_composite_shape_answer(dispatcher, pos12, g1, g2, margin),
{
    proof {
        lemma_rotation_is_linear(
            pos12@.rotation.inverse_spec(),
            pos12@.translation,
            pos12@.translation,
        );
    }
    let pos21 = pos12.inverse();
    closest_points_composite_shape_shape(dispatcher, &pos21, g2, g1, margin).flipped()
}

} // verus!
