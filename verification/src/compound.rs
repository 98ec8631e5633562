//! A composite shape that holds its parts in a vector.

use vstd::prelude::*;

use crate::bounding_volume::{Aabb, SimdAabb};
use crate::math::{Isometry, COORD_MAX};
use crate::partitioning::{leaf_lane, PartId, Qbvh, QbvhNode};
use crate::shape::{part_is_bounded, Shape, TypedSimdCompositeShape};
use crate::simd::SIMD_WIDTH;

verus! {

/// The part that a sequence of parts has for an identifier: the identifier
/// is the part's index.
pub open spec fn part_of<S>(shapes: Seq<(Isometry, S)>, id: PartId) -> Option<(Isometry, S)> {
    if id < shapes.len() {
        Some(shapes[id as int])
    } else {
        None
    }
}

/// Every occupied leaf lane of the hierarchy holds the index of a part whose
/// pose is within bounds and whose box, under that pose, the lane's box
/// encloses.
pub open spec fn leaves_bound_parts<S: Shape>(
    shapes: Seq<(Isometry, S)>,
    nodes: Seq<QbvhNode>,
) -> bool {
    forall|n: int, i: int| #[trigger]
        leaf_lane(nodes, n, i) is Some ==> part_is_bounded(
            part_of(shapes, leaf_lane(nodes, n, i).unwrap()),
            nodes[n].simd_aabb.lane(i),
        )
}

/// A composite shape: parts, each a shape under a pose, and a hierarchy
/// whose leaf lanes hold indices of parts.
pub struct Compound<S> {
    shapes: Vec<(Isometry, S)>,
    qbvh: Qbvh,
}

impl<S: Shape> Compound<S> {
    /// The parts, each with its pose.
    pub closed spec fn shapes(&self) -> Seq<(Isometry, S)> {
        self.shapes@
    }

    /// The composite shape with these parts under this hierarchy, if every
    /// occupied leaf lane of the hierarchy holds the index of a part whose
    /// pose is within bounds and whose box the lane's box encloses.
    pub fn new(shapes: Vec<(Isometry, S)>, qbvh: Qbvh) -> (r: Option<Compound<S>>)
        requires
            qbvh.wf(),
            forall|k: int| 0 <= k < shapes.len() ==> (#[trigger] shapes[k]).1.wf(),
        ensures
            r is Some <==> leaves_bound_parts(shapes@, qbvh@),
            r matches Some(c) ==> c.wf() && c.shapes() == shapes@ && c.qbvh() == qbvh,
    {
        let mut n: usize = 0;
        while n < qbvh.nodes().len()
            invariant
                qbvh.wf(),
                n <= qbvh@.len(),
                forall|k: int| 0 <= k < shapes.len() ==> (#[trigger] shapes[k]).1.wf(),
                forall|m: int, i: int|
                    0 <= m < n && (#[trigger] leaf_lane(qbvh@, m, i)) is Some ==> part_is_bounded(
                        part_of(shapes@, leaf_lane(qbvh@, m, i).unwrap()),
                        qbvh@[m].simd_aabb.lane(i),
                    ),
            decreases qbvh@.len() - n,
        {
            let node = &qbvh.nodes()[n];
            if node.leaf {
                let mut i: usize = 0;
                while i < SIMD_WIDTH
                    invariant
                        qbvh.wf(),
                        n < qbvh@.len(),
                        *node == qbvh@[n as int],
                        node.leaf,
                        i <= SIMD_WIDTH,
                        forall|k: int| 0 <= k < shapes.len() ==> (#[trigger] shapes[k]).1.wf(),
                        forall|k: int|
                            0 <= k < i && (#[trigger] leaf_lane(qbvh@, n as int, k)) is Some
                                ==> part_is_bounded(
                                part_of(shapes@, leaf_lane(qbvh@, n as int, k).unwrap()),
                                qbvh@[n as int].simd_aabb.lane(k),
                            ),
                    decreases SIMD_WIDTH - i,
                {
                    if let Some(id) = node.children[i] {
                        assert(leaf_lane(qbvh@, n as int, i as int) == Some(id));
                        if !lane_bounds_part(&shapes, &node.simd_aabb, i, id) {
                            return None;
                        }
                    }
                    i += 1;
                }
            }
            n += 1;
        }
        Some(Compound { shapes, qbvh })
    }
}

/// Whether a pose is within the bounds of the poses of a query.
pub fn pose_is_bounded(pose: &Isometry) -> (r: bool)
    ensures
        r == pose@.bounded(COORD_MAX as int),
{
    -COORD_MAX <= pose.translation.x && pose.translation.x <= COORD_MAX && -COORD_MAX
        <= pose.translation.y && pose.translation.y <= COORD_MAX
}

/// Whether `id` is the index of a part whose pose is within bounds and whose
/// box, under that pose, the box of lane `i` encloses.
fn lane_bounds_part<S: Shape>(
    shapes: &Vec<(Isometry, S)>,
    bv: &SimdAabb,
    i: usize,
    id: PartId,
) -> (r: bool)
    requires
        i < SIMD_WIDTH,
        forall|k: int| 0 <= k < shapes.len() ==> (#[trigger] shapes[k]).1.wf(),
    ensures
        r == part_is_bounded(part_of(shapes@, id), bv.lane(i as int)),
{
    if (id as usize) < shapes.len() {
        let part = &shapes[id as usize];
        if pose_is_bounded(&part.0) {
            let aabb: Aabb = part.1.compute_aabb(&part.0);
            bv.mins[i].x <= aabb.mins.x && bv.mins[i].y <= aabb.mins.y && aabb.maxs.x
                <= bv.maxs[i].x && aabb.maxs.y <= bv.maxs[i].y
        } else {
            false
        }
    } else {
        false
    }
}

impl<S: Shape> TypedSimdCompositeShape for Compound<S> {
    type PartShape = S;

    /// The hierarchy is well formed and its leaf lanes bound the parts that
    /// they hold.
    open spec fn wf(&self) -> bool {
        self.qbvh().wf() && leaves_bound_parts(self.shapes(), self.qbvh()@)
    }

    closed spec fn qbvh(&self) -> Qbvh {
        self.qbvh
    }

    /// The part at index `id`.
    open spec fn part(&self, id: PartId) -> Option<(Isometry, S)> {
        part_of(self.shapes(), id)
    }

    proof fn lemma_hierarchy_bounds_parts(&self, n: int, i: int) {
    }

    fn typed_qbvh(&self) -> (q: &Qbvh) {
        &self.qbvh
    }

    fn typed_part_at(&self, id: PartId) -> (r: (Isometry, &S)) {
        let part = &self.shapes[id as usize];
        (part.0, &part.1)
    }
}

} // verus!
