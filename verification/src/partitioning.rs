//! A bounding-volume hierarchy whose nodes pack `SIMD_WIDTH` sibling boxes,
//! and its best-first traversal.

use vstd::prelude::*;

use crate::bounding_volume::{Box2, SimdAabb};
use crate::math::{Real, WORLD_MAX};
use crate::simd::{lane_bit, lane_is_set, simd_bitmask, SIMD_WIDTH};

verus! {

/// Identifier of one part of a composite shape.
pub type PartId = u32;

/// One node of a hierarchy: `SIMD_WIDTH` boxes, and for each of them what it
/// bounds. In a leaf node an occupied lane holds the identifier of a part; in
/// an inner node it holds the index of a child node, and the lane's box
/// encloses the boxes of that child's occupied lanes.
#[derive(Clone, Copy, Debug, PartialEq, Eq)]
pub struct QbvhNode {
    pub simd_aabb: SimdAabb,
    pub children: [Option<u32>; 4],
    pub leaf: bool,
}

/// The child node below lane `j` of node `m`, or `-1` where there is none.
pub open spec fn child_of(nodes: Seq<QbvhNode>, m: int, j: int) -> int {
    if 0 <= m < nodes.len() && 0 <= j < SIMD_WIDTH && !nodes[m].leaf {
        match nodes[m].children[j] {
            Some(c) => if m < c < nodes.len() {
                c as int
            } else {
                -1
            },
            None => -1,
        }
    } else {
        -1
    }
}

/// The part that lane `i` of node `n` holds, if `n` is a leaf node and the
/// lane is occupied.
pub open spec fn leaf_lane(nodes: Seq<QbvhNode>, n: int, i: int) -> Option<PartId> {
    if 0 <= n < nodes.len() && 0 <= i < SIMD_WIDTH && nodes[n].leaf {
        nodes[n].children[i]
    } else {
        None
    }
}

/// Number of nodes that a traversal starting at `m` can reach, each counted
/// once for every path that leads to it.
pub open spec fn subtree_size(nodes: Seq<QbvhNode>, m: int) -> nat
    decreases nodes.len() - m,
{
    if 0 <= m < nodes.len() {
        1 + lane_size(nodes, m, 0) + lane_size(nodes, m, 1) + lane_size(nodes, m, 2) + lane_size(
            nodes,
            m,
            3,
        )
    } else {
        0
    }
}

/// The part of `subtree_size(nodes, m)` that lies below lane `j`.
pub open spec fn lane_size(nodes: Seq<QbvhNode>, m: int, j: int) -> nat
    decreases nodes.len() - m, 0int,
{
    let c = child_of(nodes, m, j);
    if 0 <= m < c < nodes.len() {
        subtree_size(nodes, c)
    } else {
        0
    }
}

/// Node `n` is `m` or lies below it.
pub open spec fn in_subtree(nodes: Seq<QbvhNode>, m: int, n: int) -> bool
    decreases nodes.len() - m,
{
    0 <= m < nodes.len() && (m == n || below_lane(nodes, m, 0, n) || below_lane(nodes, m, 1, n)
        || below_lane(nodes, m, 2, n) || below_lane(nodes, m, 3, n))
}

/// Node `n` is the child below lane `j` of node `m`, or lies below that child.
pub open spec fn below_lane(nodes: Seq<QbvhNode>, m: int, j: int, n: int) -> bool
    decreases nodes.len() - m, 0int,
{
    let c = child_of(nodes, m, j);
    0 <= m < c < nodes.len() && in_subtree(nodes, c, n)
}

/// What the nodes of a hierarchy must satisfy at lane `j` of node `m`.
pub open spec fn lane_wf(nodes: Seq<QbvhNode>, m: int, j: int) -> bool {
    match nodes[m].children[j] {
        None => true,
        Some(c) => if nodes[m].leaf {
            nodes[m].simd_aabb.lane(j).inhabited()
        } else {
            &&& m < c < nodes.len()
            &&& forall|k: int|
                0 <= k < SIMD_WIDTH && (#[trigger] nodes[c as int].children[k]) is Some
                    ==> nodes[m].simd_aabb.lane(j).encloses(nodes[c as int].simd_aabb.lane(k))
        },
    }
}

/// What the nodes of a hierarchy must satisfy: boxes within the world's
/// bounds; in a leaf node, an inhabited box on every occupied lane; in an
/// inner node, children that come later in the sequence than their parent
/// and whose occupied lanes the parent's lane encloses.
pub open spec fn nodes_wf(nodes: Seq<QbvhNode>) -> bool {
    &&& nodes.len() <= u32::MAX
    &&& forall|m: int|
        0 <= m < nodes.len() ==> (#[trigger] nodes[m]).simd_aabb.bounded(WORLD_MAX as int)
    &&& forall|m: int, j: int|
        0 <= m < nodes.len() && 0 <= j < SIMD_WIDTH ==> #[trigger] lane_wf(nodes, m, j)
}

/// A bounding-volume hierarchy over the parts of a composite shape. Node 0 is
/// the root.
pub struct Qbvh {
    nodes: Vec<QbvhNode>,
}

impl View for Qbvh {
    type V = Seq<QbvhNode>;

    closed spec fn view(&self) -> Seq<QbvhNode> {
        self.nodes@
    }
}

impl Qbvh {
    /// The nodes are what the nodes of a hierarchy must be.
    pub open spec fn wf(&self) -> bool {
        nodes_wf(self@)
    }

    /// Lane `i` of node `n` is a leaf lane that a traversal from the root can
    /// reach, and holds part `id`.
    pub open spec fn holds_at(&self, n: int, i: int, id: PartId) -> bool {
        in_subtree(self@, 0, n) && leaf_lane(self@, n, i) == Some(id)
    }

    /// Some leaf lane that a traversal from the root can reach holds part
    /// `id`.
    pub open spec fn holds_part(&self, id: PartId) -> bool {
        exists|n: int, i: int| self.holds_at(n, i, id)
    }

    /// Whether the hierarchy has no node.
    pub fn is_empty(&self) -> (r: bool)
        ensures
            r == (self@.len() == 0),
    {
        self.nodes.len() == 0
    }

    /// The nodes of the hierarchy, the root first.
    pub fn nodes(&self) -> (r: &Vec<QbvhNode>)
        ensures
            r@ == self@,
    {
        &self.nodes
    }

    /// The hierarchy with these nodes, the root first, if they are what the
    /// nodes of a hierarchy must be.
    pub fn new(nodes: Vec<QbvhNode>) -> (r: Option<Qbvh>)
        ensures
            r is Some <==> nodes_wf(nodes@),
            r matches Some(q) ==> q@ == nodes@,
    {
        if nodes.len() > u32::MAX as usize {
            return None;
        }
        let mut m: usize = 0;
        while m < nodes.len()
            invariant
                m <= nodes.len() <= u32::MAX,
                forall|p: int| 0 <= p < m ==> (#[trigger] nodes@[p]).simd_aabb.bounded(WORLD_MAX as int),
                forall|p: int, j: int|
                    0 <= p < m && 0 <= j < SIMD_WIDTH ==> #[trigger] lane_wf(nodes@, p, j),
            decreases nodes.len() - m,
        {
            if !simd_aabb_is_bounded(&nodes[m].simd_aabb) {
                return None;
            }
            let mut j: usize = 0;
            while j < SIMD_WIDTH
                invariant
                    m < nodes.len(),
                    j <= SIMD_WIDTH,
                    forall|k: int| 0 <= k < j ==> #[trigger] lane_wf(nodes@, m as int, k),
                decreases SIMD_WIDTH - j,
            {
                if !lane_is_wf(&nodes, m, j) {
                    return None;
                }
                j += 1;
            }
            m += 1;
        }
        Some(Qbvh { nodes })
    }
}

/// Whether lane `j` holds a box whose coordinates are within the world's
/// bounds.
fn lane_is_bounded(bv: &SimdAabb, j: usize) -> (r: bool)
    requires
        j < SIMD_WIDTH,
    ensures
        r == bv.lane(j as int).bounded(WORLD_MAX as int),
{
    let lo = bv.mins[j];
    let hi = bv.maxs[j];
    -WORLD_MAX <= lo.x && lo.x <= WORLD_MAX && -WORLD_MAX <= lo.y && lo.y <= WORLD_MAX && -WORLD_MAX
        <= hi.x && hi.x <= WORLD_MAX && -WORLD_MAX <= hi.y && hi.y <= WORLD_MAX
}

/// Whether every lane holds a box whose coordinates are within the world's
/// bounds.
fn simd_aabb_is_bounded(bv: &SimdAabb) -> (r: bool)
    ensures
        r == bv.bounded(WORLD_MAX as int),
{
    let mut j: usize = 0;
    while j < SIMD_WIDTH
        invariant
            j <= SIMD_WIDTH,
            forall|k: int| 0 <= k < j ==> (#[trigger] bv.lane(k)).bounded(WORLD_MAX as int),
        decreases SIMD_WIDTH - j,
    {
        if !lane_is_bounded(bv, j) {
            return false;
        }
        j += 1;
    }
    true
}

/// Whether the box of lane `j` of `outer` encloses the box of lane `k` of
/// `inner`.
fn lane_encloses(outer: &SimdAabb, j: usize, inner: &SimdAabb, k: usize) -> (r: bool)
    requires
        j < SIMD_WIDTH,
        k < SIMD_WIDTH,
    ensures
        r == outer.lane(j as int).encloses(inner.lane(k as int)),
{
    outer.mins[j].x <= inner.mins[k].x && outer.mins[j].y <= inner.mins[k].y && inner.maxs[k].x
        <= outer.maxs[j].x && inner.maxs[k].y <= outer.maxs[j].y
}

/// Whether the nodes satisfy at lane `j` of node `m` what the nodes of a
/// hierarchy must.
fn lane_is_wf(nodes: &Vec<QbvhNode>, m: usize, j: usize) -> (r: bool)
    requires
        m < nodes.len(),
        j < SIMD_WIDTH,
    ensures
        r == lane_wf(nodes@, m as int, j as int),
{
    let node = &nodes[m];
    match node.children[j] {
        None => true,
        Some(c) => {
            if node.leaf {
                node.simd_aabb.mins[j].x <= node.simd_aabb.maxs[j].x && node.simd_aabb.mins[j].y
                    <= node.simd_aabb.maxs[j].y
            } else if m < c as usize && (c as usize) < nodes.len() {
                let child = &nodes[c as usize];
                let mut k: usize = 0;
                while k < SIMD_WIDTH
                    invariant
                        k <= SIMD_WIDTH,
                        j < SIMD_WIDTH,
                        m < nodes.len(),
                        c < nodes.len(),
                        *node == nodes@[m as int],
                        *child == nodes@[c as int],
                        !node.leaf,
                        m < c,
                        node.children[j as int] == Some(c),
                        forall|p: int|
                            0 <= p < k && (#[trigger] nodes@[c as int].children[p]) is Some
                                ==> nodes@[m as int].simd_aabb.lane(j as int).encloses(
                                nodes@[c as int].simd_aabb.lane(p),
                            ),
                    decreases SIMD_WIDTH - k,
                {
                    if child.children[k].is_some() && !lane_encloses(
                        &node.simd_aabb,
                        j,
                        &child.simd_aabb,
                        k,
                    ) {
                        assert(nodes@[c as int].children[k as int] is Some);
                        return false;
                    }
                    k += 1;
                }
                true
            } else {
                false
            }
        },
    }
}

/// What resolving the part of one leaf lane gives to a best-first search.
pub enum LeafOutcome<Res> {
    /// The part contributes nothing.
    Miss,
    /// The part is a candidate of the given weight; the search keeps the
    /// candidate of least weight.
    Hit { weight: int, result: Res },
    /// The part ends the search with the given result.
    Stop { result: Res },
}

/// What one visit of a node tells the traversal.
pub enum SimdBestFirstVisitStatus<Res> {
    /// The traversal goes on. Lane `i` counts only where `mask[i]` is set. In
    /// an inner node `weights[i]` is then the cost with which the child below
    /// the lane is queued; in a leaf node `results[i]` is then a candidate of
    /// weight `weights[i]`.
    MaybeContinue { weights: [Real; 4], mask: [bool; 4], results: [Option<Res>; 4] },
    /// The traversal ends at once, with this result or, if there is none,
    /// with the best candidate found so far.
    ExitEarly(Option<Res>),
}

/// What a node hands to a visit besides its boxes: the parts of its lanes if
/// it is a leaf node, nothing if it is an inner node.
pub open spec fn node_data(nodes: Seq<QbvhNode>, m: int) -> Option<[Option<PartId>; 4]> {
    if nodes[m].leaf {
        Some(nodes[m].children)
    } else {
        None
    }
}

/// What a query that a best-first traversal can drive computes: a score for
/// every box, which is a lower bound on the weight of the candidates inside
/// it, and an outcome for every part.
pub trait BestFirstModel: Sized {
    type Result: Copy;

    /// The query's own invariant.
    spec fn wf(&self) -> bool;

    /// The nodes that the query can be asked to visit.
    spec fn accepts(&self, bv: SimdAabb, data: Option<[Option<PartId>; 4]>) -> bool;

    /// The score of a box.
    spec fn lower_bound(&self, bv: Box2) -> int;

    /// What resolving part `id` gives.
    spec fn leaf_outcome(&self, id: PartId) -> LeafOutcome<Self::Result>;
}

/// A query that a best-first traversal can drive.
pub trait SimdBestFirstVisitor: BestFirstModel {
    /// Visits one node while `best` is the least weight found so far: scores
    /// its lanes, drops those whose score is not below `best`, and, in a leaf
    /// node, resolves the parts of the lanes that are left.
    fn visit(&mut self, best: Real, bv: &SimdAabb, data: Option<[Option<PartId>; 4]>) -> (status:
        SimdBestFirstVisitStatus<Self::Result>)
        requires
            old(self).wf(),
            old(self).accepts(*bv, data),
        ensures
            *final(self) == *old(self),
            visit_answers(*old(self), best, *bv, data, status),
    ;
}

/// Lane `i` of a leaf node is resolved by a visit: it is occupied and its
/// score is below `best`.
pub open spec fn lane_is_active<V: BestFirstModel>(
    v: V,
    best: Real,
    bv: SimdAabb,
    ids: [Option<PartId>; 4],
    i: int,
) -> bool {
    ids[i] is Some && v.lower_bound(bv.lane(i)) < best
}

/// Lane `i` of a leaf node is resolved by a visit and ends the search.
pub open spec fn lane_stops<V: BestFirstModel>(
    v: V,
    best: Real,
    bv: SimdAabb,
    ids: [Option<PartId>; 4],
    i: int,
) -> bool {
    lane_is_active(v, best, bv, ids, i) && v.leaf_outcome(ids[i].unwrap()) is Stop
}

/// What a visit reports for lane `i` of a leaf node none of whose lanes ends
/// the search: the lane does not end it; the visit reports the candidate of
/// the lane's part if the lane is resolved and its part is a candidate, and
/// nothing otherwise.
pub open spec fn lane_is_resolved<V: BestFirstModel>(
    v: V,
    best: Real,
    bv: SimdAabb,
    ids: [Option<PartId>; 4],
    i: int,
    weight: Real,
    mask: bool,
    result: Option<V::Result>,
) -> bool {
    if lane_stops(v, best, bv, ids, i) {
        false
    } else if lane_is_active(v, best, bv, ids, i) && v.leaf_outcome(ids[i].unwrap()) is Hit {
        &&& mask
        &&& v.leaf_outcome(ids[i].unwrap()) == (LeafOutcome::Hit {
            weight: weight as int,
            result: result.unwrap(),
        })
        &&& result is Some
    } else {
        !mask && weight == 0 && result is None
    }
}

/// What a visit reports for an inner node: the score of every lane, and a
/// mask of the lanes whose score is below `best`.
pub open spec fn lanes_are_scored<V: BestFirstModel>(
    v: V,
    best: Real,
    bv: SimdAabb,
    weights: [Real; 4],
    mask: [bool; 4],
    results: [Option<V::Result>; 4],
) -> bool {
    forall|i: int|
        0 <= i < SIMD_WIDTH ==> {
            &&& (#[trigger] weights[i]) == v.lower_bound(bv.lane(i))
            &&& mask[i] == (weights[i] < best)
            &&& results[i] is None
        }
}

/// What a visit reports for a leaf node none of whose lanes ends the search.
pub open spec fn lanes_are_resolved<V: BestFirstModel>(
    v: V,
    best: Real,
    bv: SimdAabb,
    ids: [Option<PartId>; 4],
    weights: [Real; 4],
    mask: [bool; 4],
    results: [Option<V::Result>; 4],
) -> bool {
    forall|i: int|
        0 <= i < SIMD_WIDTH ==> #[trigger] lane_is_resolved(
            v,
            best,
            bv,
            ids,
            i,
            weights[i],
            mask[i],
            results[i],
        )
}

/// The result with which a visit of a leaf node ends the search: that of the
/// first resolved lane whose part ends it.
pub open spec fn first_stop_is<V: BestFirstModel>(
    v: V,
    best: Real,
    bv: SimdAabb,
    ids: [Option<PartId>; 4],
    r: Option<V::Result>,
) -> bool {
    exists|i: int|
        {
            &&& 0 <= i < SIMD_WIDTH
            &&& #[trigger] lane_stops(v, best, bv, ids, i)
            &&& forall|k: int| 0 <= k < i ==> !lane_stops(v, best, bv, ids, k)
            &&& r is Some
            &&& v.leaf_outcome(ids[i].unwrap()) == (LeafOutcome::Stop::<V::Result> {
                result: r.unwrap(),
            })
        }
}

/// The status that a visit returns. For an inner node: the score of every
/// lane, and a mask of the lanes whose score is below `best`. For a leaf
/// node: an early exit with the result of the first resolved lane that ends
/// the search; if there is none, what `lane_is_resolved` says of each lane.
pub open spec fn visit_answers<V: BestFirstModel>(
    v: V,
    best: Real,
    bv: SimdAabb,
    data: Option<[Option<PartId>; 4]>,
    status: SimdBestFirstVisitStatus<V::Result>,
) -> bool {
    match data {
        None => match status {
            SimdBestFirstVisitStatus::MaybeContinue { weights, mask, results } => lanes_are_scored(
                v,
                best,
                bv,
                weights,
                mask,
                results,
            ),
            SimdBestFirstVisitStatus::ExitEarly(_) => false,
        },
        Some(ids) => match status {
            SimdBestFirstVisitStatus::MaybeContinue {
                weights,
                mask,
                results,
            } => lanes_are_resolved(v, best, bv, ids, weights, mask, results),
            SimdBestFirstVisitStatus::ExitEarly(r) => first_stop_is(v, best, bv, ids, r),
        },
    }
}

/// The scores of a visitor can guide a search: they are never negative, and
/// a box that encloses an inhabited one scores no higher than that one.
pub open spec fn admissible<V: BestFirstModel>(v: V) -> bool {
    &&& forall|b: Box2| 0 <= #[trigger] v.lower_bound(b)
    &&& forall|outer: Box2, inner: Box2|
        outer.encloses(inner) && inner.inhabited() ==> #[trigger] v.lower_bound(outer)
            <= #[trigger] v.lower_bound(inner)
}

/// Nothing at lane `i` of node `n` can beat a candidate of weight `b`: the
/// lane is no occupied leaf lane, or its score is at least `b`, or its part
/// contributes nothing, or its part is a candidate of weight at least `b`.
pub open spec fn settled<V: BestFirstModel>(
    v: V,
    nodes: Seq<QbvhNode>,
    n: int,
    i: int,
    b: int,
) -> bool {
    match leaf_lane(nodes, n, i) {
        None => true,
        Some(id) => v.lower_bound(nodes[n].simd_aabb.lane(i)) >= b || match v.leaf_outcome(id) {
            LeafOutcome::Miss => true,
            LeafOutcome::Hit { weight, .. } => weight >= b,
            LeafOutcome::Stop { .. } => false,
        },
    }
}

/// No leaf lane that a traversal from the root can reach can beat a candidate
/// of weight `b`.
pub open spec fn all_settled<V: BestFirstModel>(v: V, nodes: Seq<QbvhNode>, b: int) -> bool {
    forall|n: int, i: int| in_subtree(nodes, 0, n) ==> #[trigger] settled(v, nodes, n, i, b)
}

/// Some leaf lane that a traversal from the root can reach holds a part that
/// ends the search with result `r`.
pub open spec fn some_part_stops_with<V: BestFirstModel>(
    v: V,
    nodes: Seq<QbvhNode>,
    r: V::Result,
) -> bool {
    exists|n: int, i: int|
        in_subtree(nodes, 0, n) && (#[trigger] leaf_lane(nodes, n, i)) is Some && v.leaf_outcome(
            leaf_lane(nodes, n, i).unwrap(),
        ) == (LeafOutcome::Stop::<V::Result> { result: r })
}

/// Some leaf lane that a traversal from the root can reach holds a part that
/// is a candidate of weight `w` with result `r`.
pub open spec fn some_part_hits_with<V: BestFirstModel>(
    v: V,
    nodes: Seq<QbvhNode>,
    w: int,
    r: V::Result,
) -> bool {
    exists|n: int, i: int|
        in_subtree(nodes, 0, n) && (#[trigger] leaf_lane(nodes, n, i)) is Some && v.leaf_outcome(
            leaf_lane(nodes, n, i).unwrap(),
        ) == (LeafOutcome::Hit::<V::Result> { weight: w, result: r })
}

/// What a best-first traversal returns. Nothing, when no reachable leaf lane
/// holds a part that ends the search or is a candidate that the search could
/// take. Else the result of a part that ends the search, or the result of a
/// candidate that no reachable leaf lane can beat.
pub open spec fn best_first_answer<V: BestFirstModel>(
    v: V,
    nodes: Seq<QbvhNode>,
    res: Option<V::Result>,
) -> bool {
    match res {
        None => all_settled(v, nodes, Real::MAX as int),
        Some(r) => some_part_stops_with(v, nodes, r) || exists|w: int|
            w < Real::MAX && #[trigger] some_part_hits_with(v, nodes, w, r) && all_settled(
                v,
                nodes,
                w,
            ),
    }
}

/// A node that waits to be visited, with the score of the lane that led to
/// it.
#[derive(Clone, Copy, Debug, PartialEq, Eq)]
pub struct WeightedValue {
    pub value: u32,
    pub cost: Real,
}

/// Number of visits that the waiting nodes can still cause.
spec fn total_size(nodes: Seq<QbvhNode>, queue: Seq<WeightedValue>) -> nat
    decreases queue.len(),
{
    if queue.len() == 0 {
        0
    } else {
        total_size(nodes, queue.drop_last()) + subtree_size(nodes, queue.last().value as int)
    }
}

/// The part of `subtree_size(nodes, m)` that lies below the lanes before `k`.
spec fn lanes_size(nodes: Seq<QbvhNode>, m: int, k: int) -> nat
    decreases k,
{
    if k <= 0 {
        0
    } else {
        lanes_size(nodes, m, k - 1) + lane_size(nodes, m, k - 1)
    }
}

/// The score with which a node waits is a lower bound for this lane.
spec fn floor_ok<V: BestFirstModel>(v: V, nodes: Seq<QbvhNode>, n: int, i: int, cost: int) -> bool {
    leaf_lane(nodes, n, i) is Some ==> cost <= v.lower_bound(nodes[n].simd_aabb.lane(i))
}

/// A waiting node can be reached from the root, and waits with a score that
/// is a lower bound for every leaf lane below it.
spec fn entry_ok<V: BestFirstModel>(v: V, nodes: Seq<QbvhNode>, e: WeightedValue) -> bool {
    &&& 0 <= e.value < nodes.len()
    &&& in_subtree(nodes, 0, e.value as int)
    &&& forall|n: int, i: int|
        in_subtree(nodes, e.value as int, n) ==> #[trigger] floor_ok(v, nodes, n, i, e.cost as int)
}

/// Node `n` is a waiting node or lies below one.
spec fn pending(nodes: Seq<QbvhNode>, queue: Seq<WeightedValue>, n: int) -> bool {
    exists|q: int| 0 <= q < queue.len() && in_subtree(nodes, (#[trigger] queue[q]).value as int, n)
}

/// Every reachable leaf lane is settled or still waits.
spec fn covered<V: BestFirstModel>(
    v: V,
    nodes: Seq<QbvhNode>,
    queue: Seq<WeightedValue>,
    best: int,
) -> bool {
    forall|n: int, i: int|
        in_subtree(nodes, 0, n) ==> #[trigger] settled(v, nodes, n, i, best) || pending(
            nodes,
            queue,
            n,
        )
}

/// The best candidate so far is the candidate of a reachable part.
spec fn best_ok<V: BestFirstModel>(
    v: V,
    nodes: Seq<QbvhNode>,
    best_cost: Real,
    best_result: Option<V::Result>,
) -> bool {
    match best_result {
        None => best_cost == Real::MAX,
        Some(r) => best_cost < Real::MAX && some_part_hits_with(v, nodes, best_cost as int, r),
    }
}

/// Lane `j` of the inner node `m` has been dealt with: its child waits, or
/// every leaf lane below it is settled.
spec fn lane_handled<V: BestFirstModel>(
    v: V,
    nodes: Seq<QbvhNode>,
    queue: Seq<WeightedValue>,
    m: int,
    j: int,
    best: int,
) -> bool {
    let c = child_of(nodes, m, j);
    c >= 0 ==> (exists|q: int| 0 <= q < queue.len() && (#[trigger] queue[q]).value == c) || forall|
        n: int,
        i: int,
    | in_subtree(nodes, c, n) ==> #[trigger] settled(v, nodes, n, i, best)
}

/// Index of the first entry of least cost among the first `k` entries.
spec fn least_index(queue: Seq<WeightedValue>, k: int) -> int
    decreases k,
{
    if k <= 1 {
        0
    } else {
        let p = least_index(queue, k - 1);
        if queue[k - 1].cost < queue[p].cost {
            k - 1
        } else {
            p
        }
    }
}

/// The first lane from `i` on that a visit of a leaf node resolves and whose
/// part ends the search, or `SIMD_WIDTH` if there is none.
spec fn first_stop<V: BestFirstModel>(
    v: V,
    best: Real,
    bv: SimdAabb,
    ids: [Option<PartId>; 4],
    i: int,
) -> int
    decreases SIMD_WIDTH - i,
{
    if i >= SIMD_WIDTH {
        SIMD_WIDTH as int
    } else if lane_stops(v, best, bv, ids, i) {
        i
    } else {
        first_stop(v, best, bv, ids, i + 1)
    }
}

/// The best candidate once the lanes before `k` of a leaf node are taken:
/// each resolved lane whose part is a candidate that weighs less than the
/// best so far replaces it.
spec fn taken<V: BestFirstModel>(
    v: V,
    best0: Real,
    bv: SimdAabb,
    ids: [Option<PartId>; 4],
    k: int,
    best: Real,
    result: Option<V::Result>,
) -> (Real, Option<V::Result>)
    decreases k,
{
    if k <= 0 {
        (best, result)
    } else {
        let prev = taken(v, best0, bv, ids, k - 1, best, result);
        if lane_is_active(v, best0, bv, ids, k - 1) {
            match v.leaf_outcome(ids[k - 1].unwrap()) {
                LeafOutcome::Hit { weight, result: r } => if weight < prev.0 {
                    (weight as Real, Some(r))
                } else {
                    prev
                },
                _ => prev,
            }
        } else {
            prev
        }
    }
}

/// The waiting nodes once the lanes before `k` of the inner node `m` are
/// dealt with: the child below each lane whose score is below `best` waits
/// with that score, behind those that waited before.
spec fn queued<V: BestFirstModel>(
    v: V,
    nodes: Seq<QbvhNode>,
    m: int,
    best: Real,
    queue: Seq<WeightedValue>,
    k: int,
) -> Seq<WeightedValue>
    decreases k,
{
    if k <= 0 {
        queue
    } else {
        let prev = queued(v, nodes, m, best, queue, k - 1);
        let c = child_of(nodes, m, k - 1);
        let score = v.lower_bound(nodes[m].simd_aabb.lane(k - 1));
        if c >= 0 && score < best {
            prev.push(WeightedValue { value: c as u32, cost: score as Real })
        } else {
            prev
        }
    }
}

/// What the traversal returns from a state in which `queue` holds the
/// waiting nodes and `result`, of weight `best`, is the best candidate so
/// far, within `fuel` visits.
spec fn run<V: BestFirstModel>(
    v: V,
    nodes: Seq<QbvhNode>,
    fuel: nat,
    queue: Seq<WeightedValue>,
    best: Real,
    result: Option<V::Result>,
) -> Option<V::Result>
    decreases fuel,
{
    if fuel == 0 || queue.len() == 0 {
        result
    } else {
        let k = least_index(queue, queue.len() as int);
        let m = queue[k].value as int;
        let rest = queue.remove(k);
        if queue[k].cost >= best || !(0 <= m < nodes.len()) {
            result
        } else if nodes[m].leaf {
            let stop = first_stop(v, best, nodes[m].simd_aabb, nodes[m].children, 0);
            if stop < SIMD_WIDTH {
                Some(v.leaf_outcome(nodes[m].children[stop].unwrap())->Stop_result)
            } else {
                let t = taken(
                    v,
                    best,
                    nodes[m].simd_aabb,
                    nodes[m].children,
                    SIMD_WIDTH as int,
                    best,
                    result,
                );
                run(v, nodes, (fuel - 1) as nat, rest, t.0, t.1)
            }
        } else {
            run(
                v,
                nodes,
                (fuel - 1) as nat,
                queued(v, nodes, m, best, rest, SIMD_WIDTH as int),
                best,
                result,
            )
        }
    }
}

/// What a best-first traversal of the hierarchy returns for the query `v`:
/// the outcome of visiting, from the root on, always the waiting node of
/// least score, the one that waits longest among equals, as long as that
/// score is below the weight of the best candidate, and of keeping the
/// first candidate of least weight.
pub closed spec fn best_first_result<V: BestFirstModel>(v: V, nodes: Seq<QbvhNode>) -> Option<
    V::Result,
> {
    if nodes.len() == 0 {
        None
    } else {
        run(
            v,
            nodes,
            subtree_size(nodes, 0),
            seq![WeightedValue { value: 0, cost: 0 }],
            Real::MAX,
            None,
        )
    }
}

/// A visit of a leaf node that goes on found no lane that ends the search.
proof fn lemma_no_stop<V: BestFirstModel>(
    v: V,
    best: Real,
    bv: SimdAabb,
    ids: [Option<PartId>; 4],
    weights: [Real; 4],
    mask: [bool; 4],
    results: [Option<V::Result>; 4],
    i: int,
)
    requires
        lanes_are_resolved(v, best, bv, ids, weights, mask, results),
        0 <= i <= SIMD_WIDTH,
    ensures
        first_stop(v, best, bv, ids, i) == SIMD_WIDTH,
    decreases SIMD_WIDTH - i,
{
    if i < SIMD_WIDTH {
        assert(lane_is_resolved(v, best, bv, ids, i, weights[i], mask[i], results[i]));
        lemma_no_stop(v, best, bv, ids, weights, mask, results, i + 1);
    }
}

/// The first lane that ends the search is the one before which none does.
proof fn lemma_first_stop<V: BestFirstModel>(
    v: V,
    best: Real,
    bv: SimdAabb,
    ids: [Option<PartId>; 4],
    stop: int,
    i: int,
)
    requires
        0 <= i <= stop < SIMD_WIDTH,
        lane_stops(v, best, bv, ids, stop),
        forall|k: int| 0 <= k < stop ==> !lane_stops(v, best, bv, ids, k),
    ensures
        first_stop(v, best, bv, ids, i) == stop,
    decreases stop - i,
{
    if i < stop {
        lemma_first_stop(v, best, bv, ids, stop, i + 1);
    }
}

proof fn lemma_total_size_remove(nodes: Seq<QbvhNode>, queue: Seq<WeightedValue>, k: int)
    requires
        0 <= k < queue.len(),
    ensures
        total_size(nodes, queue.remove(k)) + subtree_size(nodes, queue[k].value as int)
            == total_size(nodes, queue),
    decreases queue.len(),
{
    if k == queue.len() - 1 {
        assert(queue.remove(k) =~= queue.drop_last());
    } else {
        lemma_total_size_remove(nodes, queue.drop_last(), k);
        assert(queue.remove(k).drop_last() =~= queue.drop_last().remove(k));
        assert(queue.remove(k).last() == queue.last());
    }
}

proof fn lemma_total_size_push(nodes: Seq<QbvhNode>, queue: Seq<WeightedValue>, e: WeightedValue)
    ensures
        total_size(nodes, queue.push(e)) == total_size(nodes, queue) + subtree_size(
            nodes,
            e.value as int,
        ),
{
    assert(queue.push(e).drop_last() =~= queue);
}

proof fn lemma_subtree_size_by_lanes(nodes: Seq<QbvhNode>, m: int)
    requires
        0 <= m < nodes.len(),
    ensures
        subtree_size(nodes, m) == 1 + lanes_size(nodes, m, 4),
{
    assert(lanes_size(nodes, m, 0) == 0);
    assert(lanes_size(nodes, m, 1) == lanes_size(nodes, m, 0) + lane_size(nodes, m, 0));
    assert(lanes_size(nodes, m, 2) == lanes_size(nodes, m, 1) + lane_size(nodes, m, 1));
    assert(lanes_size(nodes, m, 3) == lanes_size(nodes, m, 2) + lane_size(nodes, m, 2));
    assert(lanes_size(nodes, m, 4) == lanes_size(nodes, m, 3) + lane_size(nodes, m, 3));
}

/// A node that lies below `m` lies below one of the lanes of `m`.
pub proof fn lemma_below_some_lane(nodes: Seq<QbvhNode>, m: int, n: int)
    requires
        in_subtree(nodes, m, n),
        m != n,
    ensures
        exists|j: int| 0 <= j < SIMD_WIDTH && #[trigger] below_lane(nodes, m, j, n),
{
    if below_lane(nodes, m, 0, n) {
    } else if below_lane(nodes, m, 1, n) {
    } else if below_lane(nodes, m, 2, n) {
    } else {
        assert(below_lane(nodes, m, 3, n));
    }
}

/// A node below a node below `a` lies below `a`.
pub proof fn lemma_in_subtree_transitive(nodes: Seq<QbvhNode>, a: int, b: int, c: int)
    requires
        in_subtree(nodes, a, b),
        in_subtree(nodes, b, c),
    ensures
        in_subtree(nodes, a, c),
    decreases nodes.len() - a,
{
    if a != b {
        lemma_below_some_lane(nodes, a, b);
        let j = choose|j: int| 0 <= j < SIMD_WIDTH && #[trigger] below_lane(nodes, a, j, b);
        lemma_in_subtree_transitive(nodes, child_of(nodes, a, j), b, c);
        assert(below_lane(nodes, a, j, c));
    }
}

/// A box that encloses the occupied lanes of node `c` encloses every occupied
/// leaf lane below `c`.
pub proof fn lemma_leaf_lanes_within(
    nodes: Seq<QbvhNode>,
    c: int,
    bx: Box2,
    n: int,
    i: int,
)
    requires
        nodes_wf(nodes),
        0 <= c < nodes.len(),
        forall|k: int|
            0 <= k < SIMD_WIDTH && (#[trigger] nodes[c].children[k]) is Some ==> bx.encloses(
                nodes[c].simd_aabb.lane(k),
            ),
        in_subtree(nodes, c, n),
        leaf_lane(nodes, n, i) is Some,
    ensures
        bx.encloses(nodes[n].simd_aabb.lane(i)),
    decreases nodes.len() - c,
{
    if n != c {
        lemma_below_some_lane(nodes, c, n);
        let j = choose|j: int| 0 <= j < SIMD_WIDTH && #[trigger] below_lane(nodes, c, j, n);
        let c2 = child_of(nodes, c, j);
        assert(lane_wf(nodes, c, j));
        assert(nodes[c].children[j] is Some);
        assert forall|k: int|
            0 <= k < SIMD_WIDTH && (#[trigger] nodes[c2].children[k]) is Some implies bx.encloses(
            nodes[c2].simd_aabb.lane(k),
        ) by {
            assert(nodes[c].simd_aabb.lane(j).encloses(nodes[c2].simd_aabb.lane(k)));
        }
        lemma_leaf_lanes_within(nodes, c2, bx, n, i);
    }
}

/// Index of the first entry of least cost.
fn least_cost_index(queue: &Vec<WeightedValue>) -> (k: usize)
    requires
        queue.len() > 0,
    ensures
        k < queue.len(),
        forall|q: int| 0 <= q < queue.len() ==> queue[k as int].cost <= (#[trigger] queue[q]).cost,
        k == least_index(queue@, queue.len() as int),
{
    let mut k: usize = 0;
    let mut q: usize = 1;
    while q < queue.len()
        invariant
            k < queue.len(),
            1 <= q <= queue.len(),
            forall|p: int| 0 <= p < q ==> queue[k as int].cost <= (#[trigger] queue[p]).cost,
            k == least_index(queue@, q as int),
        decreases queue.len() - q,
    {
        if queue[q].cost < queue[k].cost {
            k = q;
        }
        q += 1;
    }
    k
}

/// The score of a lane of an inner node is a lower bound for every occupied
/// leaf lane below the lane's child.
proof fn lemma_lane_score_is_floor<V: BestFirstModel>(
    v: V,
    nodes: Seq<QbvhNode>,
    m: int,
    j: int,
    n: int,
    i: int,
)
    requires
        nodes_wf(nodes),
        admissible(v),
        child_of(nodes, m, j) >= 0,
        in_subtree(nodes, child_of(nodes, m, j), n),
        leaf_lane(nodes, n, i) is Some,
    ensures
        v.lower_bound(nodes[m].simd_aabb.lane(j)) <= v.lower_bound(nodes[n].simd_aabb.lane(i)),
{
    let c = child_of(nodes, m, j);
    let bx = nodes[m].simd_aabb.lane(j);
    assert(lane_wf(nodes, m, j));
    lemma_leaf_lanes_within(nodes, c, bx, n, i);
    assert(lane_wf(nodes, n, i));
}

/// Once the cheapest waiting node costs no less than the best candidate, no
/// reachable leaf lane can beat that candidate.
proof fn lemma_settled_when_queue_is_high<V: BestFirstModel>(
    v: V,
    nodes: Seq<QbvhNode>,
    queue: Seq<WeightedValue>,
    best: int,
)
    requires
        forall|q: int| 0 <= q < queue.len() ==> entry_ok(v, nodes, #[trigger] queue[q]),
        covered(v, nodes, queue, best),
        forall|q: int| 0 <= q < queue.len() ==> best <= (#[trigger] queue[q]).cost,
    ensures
        all_settled(v, nodes, best),
{
    assert forall|n: int, i: int| in_subtree(nodes, 0, n) implies #[trigger] settled(
        v,
        nodes,
        n,
        i,
        best,
    ) by {
        if !settled(v, nodes, n, i, best) {
            assert(pending(nodes, queue, n));
            let q = choose|q: int|
                0 <= q < queue.len() && in_subtree(nodes, (#[trigger] queue[q]).value as int, n);
            assert(entry_ok(v, nodes, queue[q]));
            assert(floor_ok(v, nodes, n, i, queue[q].cost as int));
        }
    }
}

/// After the visit of a leaf node all of whose lanes are settled, every
/// reachable leaf lane is settled or still waits.
proof fn lemma_covered_after_leaf<V: BestFirstModel>(
    v: V,
    nodes: Seq<QbvhNode>,
    before: Seq<WeightedValue>,
    k: int,
    best0: int,
    best1: int,
)
    requires
        0 <= k < before.len(),
        covered(v, nodes, before, best0),
        0 <= before[k].value < nodes.len(),
        nodes[before[k].value as int].leaf,
        best1 <= best0,
        forall|i: int|
            0 <= i < SIMD_WIDTH ==> #[trigger] settled(v, nodes, before[k].value as int, i, best1),
    ensures
        covered(v, nodes, before.remove(k), best1),
{
    let after = before.remove(k);
    let m = before[k].value as int;
    assert forall|n: int, i: int| in_subtree(nodes, 0, n) implies #[trigger] settled(
        v,
        nodes,
        n,
        i,
        best1,
    ) || pending(nodes, after, n) by {
        if settled(v, nodes, n, i, best0) {
        } else {
            assert(pending(nodes, before, n));
            let q = choose|q: int|
                0 <= q < before.len() && in_subtree(nodes, (#[trigger] before[q]).value as int, n);
            if q < k {
                assert(after[q] == before[q]);
            } else if q > k {
                assert(after[q - 1] == before[q]);
            } else {
                assert(n == m);
                if 0 <= i < SIMD_WIDTH {
                    assert(settled(v, nodes, m, i, best1));
                }
            }
        }
    }
}

/// After the visit of an inner node all of whose lanes are dealt with, every
/// reachable leaf lane is settled or still waits.
proof fn lemma_covered_after_inner<V: BestFirstModel>(
    v: V,
    nodes: Seq<QbvhNode>,
    before: Seq<WeightedValue>,
    k: int,
    queue: Seq<WeightedValue>,
    best: int,
)
    requires
        0 <= k < before.len(),
        covered(v, nodes, before, best),
        0 <= before[k].value < nodes.len(),
        !nodes[before[k].value as int].leaf,
        before.remove(k).len() <= queue.len(),
        forall|q: int| 0 <= q < before.len() - 1 ==> queue[q] == before.remove(k)[q],
        forall|j: int|
            0 <= j < SIMD_WIDTH ==> #[trigger] lane_handled(
                v,
                nodes,
                queue,
                before[k].value as int,
                j,
                best,
            ),
    ensures
        covered(v, nodes, queue, best),
{
    let m = before[k].value as int;
    assert forall|n: int, i: int| in_subtree(nodes, 0, n) implies #[trigger] settled(
        v,
        nodes,
        n,
        i,
        best,
    ) || pending(nodes, queue, n) by {
        if !settled(v, nodes, n, i, best) {
            assert(pending(nodes, before, n));
            let q = choose|q: int|
                0 <= q < before.len() && in_subtree(nodes, (#[trigger] before[q]).value as int, n);
            if q < k {
                assert(queue[q] == before.remove(k)[q]);
                assert(in_subtree(nodes, queue[q].value as int, n));
            } else if q > k {
                assert(queue[q - 1] == before.remove(k)[q - 1]);
                assert(in_subtree(nodes, queue[q - 1].value as int, n));
            } else {
                assert(leaf_lane(nodes, n, i) is Some);
                assert(n != m);
                lemma_below_some_lane(nodes, m, n);
                let j = choose|j: int| 0 <= j < SIMD_WIDTH && #[trigger] below_lane(nodes, m, j, n);
                assert(lane_handled(v, nodes, queue, m, j, best));
                let c = child_of(nodes, m, j);
                let p = choose|p: int| 0 <= p < queue.len() && (#[trigger] queue[p]).value == c;
                assert(in_subtree(nodes, queue[p].value as int, n));
            }
        }
    }
}

impl Qbvh {
    /// Takes the candidates that a visit of the leaf node `m` reported: each
    /// one that weighs less than the best so far replaces it.
    fn take_candidates<V: BestFirstModel>(
        &self,
        Ghost(v): Ghost<V>,
        m: usize,
        weights: [Real; 4],
        mask: [bool; 4],
        results: [Option<V::Result>; 4],
        best: Real,
        best_result: Option<V::Result>,
    ) -> (r: (Real, Option<V::Result>))
        requires
            m < self@.len(),
            self@[m as int].leaf,
            in_subtree(self@, 0, m as int),
            visit_answers(
                v,
                best,
                self@[m as int].simd_aabb,
                Some(self@[m as int].children),
                SimdBestFirstVisitStatus::MaybeContinue { weights, mask, results },
            ),
            best_ok(v, self@, best, best_result),
        ensures
            r.0 <= best,
            best_ok(v, self@, r.0, r.1),
            forall|i: int| 0 <= i < SIMD_WIDTH ==> #[trigger] settled(v, self@, m as int, i, r.0 as int),
            r == taken(
                v,
                best,
                self@[m as int].simd_aabb,
                self@[m as int].children,
                SIMD_WIDTH as int,
                best,
                best_result,
            ),
    {
        let ghost nodes = self@;
        let ghost ids = nodes[m as int].children;
        let ghost bv = nodes[m as int].simd_aabb;
        let bitmask = simd_bitmask(&mask);
        let ghost first_result = best_result;
        let mut best_cost = best;
        let mut best_result = best_result;
        let mut ii: usize = 0;
        while ii < SIMD_WIDTH
            invariant
                ii <= SIMD_WIDTH,
                (best_cost, best_result) == taken(v, best, bv, ids, ii as int, best, first_result),
                m < nodes.len(),
                nodes == self@,
                ids == nodes[m as int].children,
                bv == nodes[m as int].simd_aabb,
                nodes[m as int].leaf,
                in_subtree(nodes, 0, m as int),
                forall|i: int| 0 <= i < 4 ==> lane_bit(bitmask, i) == mask[i],
                lanes_are_resolved(v, best, bv, ids, weights, mask, results),
                best_cost <= best,
                best_ok(v, nodes, best_cost, best_result),
                forall|i: int| 0 <= i < ii ==> #[trigger] settled(v, nodes, m as int, i, best_cost as int),
            decreases SIMD_WIDTH - ii,
        {
            let ghost cost_before = best_cost;
            assert(lane_bit(bitmask, ii as int) == mask[ii as int]);
            assert(lane_is_resolved(
                v,
                best,
                bv,
                ids,
                ii as int,
                weights[ii as int],
                mask[ii as int],
                results[ii as int],
            ));
            assert(leaf_lane(nodes, m as int, ii as int) == ids[ii as int]);
            if lane_is_set(bitmask, ii) {
                if weights[ii] < best_cost {
                    if let Some(r) = results[ii] {
                        best_cost = weights[ii];
                        best_result = Some(r);
                        assert(some_part_hits_with(v, nodes, best_cost as int, r));
                    }
                }
            }
            assert forall|i: int| 0 <= i < ii + 1 implies #[trigger] settled(
                v,
                nodes,
                m as int,
                i,
                best_cost as int,
            ) by {
                if i < ii {
                    assert(settled(v, nodes, m as int, i, cost_before as int));
                }
            }
            ii += 1;
        }
        (best_cost, best_result)
    }

    /// Queues the children of the inner node `m` below the lanes that a
    /// visit left in its mask, each with the score of its lane.
    fn queue_children<V: BestFirstModel>(
        &self,
        Ghost(v): Ghost<V>,
        m: usize,
        weights: [Real; 4],
        mask: [bool; 4],
        Ghost(best): Ghost<Real>,
        queue: &mut Vec<WeightedValue>,
    )
        requires
            self.wf(),
            admissible(v),
            m < self@.len(),
            !self@[m as int].leaf,
            in_subtree(self@, 0, m as int),
            forall|i: int|
                0 <= i < SIMD_WIDTH ==> (#[trigger] weights[i]) == v.lower_bound(
                    self@[m as int].simd_aabb.lane(i),
                ) && mask[i] == (weights[i] < best),
            forall|q: int| 0 <= q < old(queue).len() ==> entry_ok(v, self@, #[trigger] old(queue)@[q]),
        ensures
            old(queue).len() <= final(queue).len(),
            forall|q: int| 0 <= q < old(queue).len() ==> final(queue)@[q] == old(queue)@[q],
            forall|q: int|
                0 <= q < final(queue).len() ==> entry_ok(v, self@, #[trigger] final(queue)@[q]),
            forall|j: int|
                0 <= j < SIMD_WIDTH ==> #[trigger] lane_handled(
                    v,
                    self@,
                    final(queue)@,
                    m as int,
                    j,
                    best as int,
                ),
            total_size(self@, final(queue)@) <= total_size(self@, old(queue)@) + lanes_size(
                self@,
                m as int,
                4,
            ),
            final(queue)@ == queued(v, self@, m as int, best, old(queue)@, SIMD_WIDTH as int),
    {
        let ghost nodes = self@;
        let ghost start = queue@;
        let node = self.nodes[m];
        let bitmask = simd_bitmask(&mask);
        let mut ii: usize = 0;
        while ii < SIMD_WIDTH
            invariant
                ii <= SIMD_WIDTH,
                self.wf(),
                nodes == self@,
                start == old(queue)@,
                admissible(v),
                m < nodes.len(),
                node == nodes[m as int],
                !node.leaf,
                in_subtree(nodes, 0, m as int),
                forall|i: int| 0 <= i < 4 ==> lane_bit(bitmask, i) == mask[i],
                forall|i: int|
                    0 <= i < SIMD_WIDTH ==> (#[trigger] weights[i]) == v.lower_bound(
                        node.simd_aabb.lane(i),
                    ) && mask[i] == (weights[i] < best),
                start.len() <= queue.len(),
                queue@ == queued(v, nodes, m as int, best, start, ii as int),
                forall|q: int| 0 <= q < start.len() ==> queue@[q] == start[q],
                forall|q: int| 0 <= q < queue.len() ==> entry_ok(v, nodes, #[trigger] queue@[q]),
                forall|j: int|
                    0 <= j < ii ==> #[trigger] lane_handled(
                        v,
                        nodes,
                        queue@,
                        m as int,
                        j,
                        best as int,
                    ),
                total_size(nodes, queue@) <= total_size(nodes, start) + lanes_size(
                    nodes,
                    m as int,
                    ii as int,
                ),
            decreases SIMD_WIDTH - ii,
        {
            let ghost queue_before = queue@;
            let ghost c = child_of(nodes, m as int, ii as int);
            assert(lane_bit(bitmask, ii as int) == mask[ii as int]);
            assert(lane_wf(nodes, m as int, ii as int));
            assert(weights[ii as int] == v.lower_bound(node.simd_aabb.lane(ii as int)));
            assert(lanes_size(nodes, m as int, ii + 1) == lanes_size(nodes, m as int, ii as int)
                + lane_size(nodes, m as int, ii as int));
            if lane_is_set(bitmask, ii) {
                if let Some(child) = node.children[ii] {
                    if (child as usize) < self.nodes.len() {
                        let e = WeightedValue { value: child, cost: weights[ii] };
                        queue.push(e);
                        proof {
                            lemma_total_size_push(nodes, queue_before, e);
                            assert(c == child);
                            assert(in_subtree(nodes, c, c));
                            assert(below_lane(nodes, m as int, ii as int, c));
                            assert(in_subtree(nodes, m as int, c));
                            lemma_in_subtree_transitive(nodes, 0, m as int, c);
                            assert forall|n: int, i: int|
                                in_subtree(nodes, c, n) implies #[trigger] floor_ok(
                                v,
                                nodes,
                                n,
                                i,
                                e.cost as int,
                            ) by {
                                if leaf_lane(nodes, n, i) is Some {
                                    lemma_lane_score_is_floor(v, nodes, m as int, ii as int, n, i);
                                }
                            }
                            assert(entry_ok(v, nodes, e));
                            assert(queue@[queue.len() - 1] == e);
                        }
                    }
                }
            }
            proof {
                assert forall|j: int| 0 <= j < ii + 1 implies #[trigger] lane_handled(
                    v,
                    nodes,
                    queue@,
                    m as int,
                    j,
                    best as int,
                ) by {
                    let cj = child_of(nodes, m as int, j);
                    if j < ii {
                        assert(lane_handled(v, nodes, queue_before, m as int, j, best as int));
                        if cj >= 0 && exists|q: int|
                            0 <= q < queue_before.len() && (#[trigger] queue_before[q]).value
                                == cj {
                            let q = choose|q: int|
                                0 <= q < queue_before.len() && (#[trigger] queue_before[q]).value
                                    == cj;
                            assert(queue@[q] == queue_before[q]);
                        }
                    } else if cj >= 0 {
                        if mask[ii as int] {
                            assert(queue@[queue.len() - 1].value == cj);
                        } else {
                            assert forall|n: int, i: int|
                                in_subtree(nodes, cj, n) implies #[trigger] settled(
                                v,
                                nodes,
                                n,
                                i,
                                best as int,
                            ) by {
                                if leaf_lane(nodes, n, i) is Some {
                                    lemma_lane_score_is_floor(v, nodes, m as int, ii as int, n, i);
                                }
                            }
                        }
                    }
                }
            }
            ii += 1;
        }
    }

    /// Walks the hierarchy from the root, always visiting next the waiting
    /// node of least score, as long as that score is below the weight of the
    /// best candidate found. Returns the result with which a part ended the
    /// search; else the candidate of least weight, which no reachable part
    /// can beat; else nothing, when no reachable part ends the search or is a
    /// candidate. On a hierarchy without nodes it returns nothing. Among
    /// waiting nodes of the same score the one that waits longest is visited
    /// first, and among candidates of the same weight the one found first
    /// is kept, so that the result is `best_first_result` of the query and
    /// the nodes. The waiting nodes are kept in a vector, from which the
    /// node of least score is taken by a scan.
    pub fn traverse_best_first<V: SimdBestFirstVisitor>(&self, visitor: &mut V) -> (res: Option<
        V::Result,
    >)
        requires
            self.wf(),
            old(visitor).wf(),
            admissible(*old(visitor)),
            forall|m: int|
                0 <= m < self@.len() ==> old(visitor).accepts(
                    (#[trigger] self@[m]).simd_aabb,
                    node_data(self@, m),
                ),
        ensures
            *final(visitor) == *old(visitor),
            best_first_answer(*old(visitor), self@, res),
            res == best_first_result(*old(visitor), self@),
    {
        let ghost nodes = self@;
        let ghost v = *visitor;
        let mut queue: Vec<WeightedValue> = Vec::new();
        let mut best_cost: Real = Real::MAX;
        let mut best_result: Option<V::Result> = None;
        if self.nodes.len() == 0 {
            return None;
        }
        queue.push(WeightedValue { value: 0, cost: 0 });
        let ghost mut fuel: nat = subtree_size(nodes, 0);
        let ghost target = best_first_result(v, nodes);
        assert(queue@ =~= seq![WeightedValue { value: 0, cost: 0 }]);
        assert(total_size(nodes, queue@) == fuel) by {
            assert(queue@.drop_last() =~= Seq::<WeightedValue>::empty());
            assert(total_size(nodes, queue@.drop_last()) == 0);
        }
        assert(entry_ok(v, nodes, queue@[0])) by {
            assert forall|n: int, i: int| in_subtree(nodes, 0, n) implies #[trigger] floor_ok(
                v,
                nodes,
                n,
                i,
                0,
            ) by {}
        }
        assert(covered(v, nodes, queue@, best_cost as int)) by {
            assert forall|n: int, i: int| in_subtree(nodes, 0, n) implies #[trigger] settled(
                v,
                nodes,
                n,
                i,
                best_cost as int,
            ) || pending(nodes, queue@, n) by {
                assert(in_subtree(nodes, queue@[0].value as int, n));
            }
        }
        while queue.len() > 0
            invariant
                nodes == self@,
                self.wf(),
                *visitor == v,
                v == *old(visitor),
                v.wf(),
                admissible(v),
                forall|m: int|
                    0 <= m < nodes.len() ==> v.accepts(
                        (#[trigger] nodes[m]).simd_aabb,
                        node_data(nodes, m),
                    ),
                forall|q: int| 0 <= q < queue.len() ==> entry_ok(v, nodes, #[trigger] queue@[q]),
                covered(v, nodes, queue@, best_cost as int),
                best_ok(v, nodes, best_cost, best_result),
                total_size(nodes, queue@) <= fuel,
                target == best_first_result(v, nodes),
                run(v, nodes, fuel, queue@, best_cost, best_result) == target,
            decreases total_size(nodes, queue@),
        {
            let k = least_cost_index(&queue);
            let ghost before = queue@;
            let ghost fuel_before = fuel;
            let entry = queue.remove(k);
            proof {
                assert(entry_ok(v, nodes, before[k as int]));
                assert(subtree_size(nodes, before[k as int].value as int) >= 1);
                lemma_total_size_remove(nodes, before, k as int);
                assert(fuel >= 1);
                fuel = (fuel - 1) as nat;
            }
            proof {
                lemma_total_size_remove(nodes, before, k as int);
                assert(entry_ok(v, nodes, before[k as int]));
                assert forall|q: int| 0 <= q < queue.len() implies entry_ok(
                    v,
                    nodes,
                    #[trigger] queue@[q],
                ) by {
                    if q < k {
                        assert(queue@[q] == before[q]);
                    } else {
                        assert(queue@[q] == before[q + 1]);
                    }
                }
            }
            if entry.cost >= best_cost {
                proof {
                    lemma_settled_when_queue_is_high(v, nodes, before, best_cost as int);
                    assert(run(v, nodes, fuel_before, before, best_cost, best_result)
                        == best_result);
                }
                return best_result;
            }
            let m = entry.value as usize;
            let node = self.nodes[m];
            let data = if node.leaf {
                Some(node.children)
            } else {
                None
            };
            assert(data == node_data(nodes, m as int));
            assert(nodes[m as int].simd_aabb == node.simd_aabb);
            proof {
                lemma_subtree_size_by_lanes(nodes, m as int);
            }
            match visitor.visit(best_cost, &node.simd_aabb, data) {
                SimdBestFirstVisitStatus::ExitEarly(result) => {
                    match result {
                        Some(r) => {
                            proof {
                                let ids = data.unwrap();
                                let i = choose|i: int|
                                    0 <= i < SIMD_WIDTH && #[trigger] lane_stops(
                                        v,
                                        best_cost,
                                        node.simd_aabb,
                                        ids,
                                        i,
                                    ) && (forall|k: int|
                                        0 <= k < i ==> !lane_stops(
                                            v,
                                            best_cost,
                                            node.simd_aabb,
                                            ids,
                                            k,
                                        )) && v.leaf_outcome(ids[i].unwrap()) == (
                                    LeafOutcome::Stop::<V::Result> { result: r });
                                assert(leaf_lane(nodes, m as int, i) == ids[i]);
                                assert(some_part_stops_with(v, nodes, r));
                                lemma_first_stop(v, best_cost, node.simd_aabb, ids, i, 0);
                                assert(node.children == nodes[m as int].children);
                                assert(run(v, nodes, fuel_before, before, best_cost, best_result)
                                    == Some(r));
                            }
                            return Some(r);
                        },
                        None => {
                            return best_result;
                        },
                    }
                },
                SimdBestFirstVisitStatus::MaybeContinue { weights, mask, results } => {
                    if node.leaf {
                        proof {
                            lemma_no_stop(
                                v,
                                best_cost,
                                node.simd_aabb,
                                node.children,
                                weights,
                                mask,
                                results,
                                0,
                            );
                        }
                        let taken = self.take_candidates::<V>(
                            Ghost(v),
                            m,
                            weights,
                            mask,
                            results,
                            best_cost,
                            best_result,
                        );
                        proof {
                            lemma_covered_after_leaf(
                                v,
                                nodes,
                                before,
                                k as int,
                                best_cost as int,
                                taken.0 as int,
                            );
                        }
                        best_cost = taken.0;
                        best_result = taken.1;
                    } else {
                        self.queue_children::<V>(
                            Ghost(v),
                            m,
                            weights,
                            mask,
                            Ghost(best_cost),
                            &mut queue,
                        );
                        proof {
                            lemma_covered_after_inner(
                                v,
                                nodes,
                                before,
                                k as int,
                                queue@,
                                best_cost as int,
                            );
                        }
                    }
                },
            }
        }
        proof {
            lemma_settled_when_queue_is_high(v, nodes, queue@, best_cost as int);
        }
        best_result
    }
}

} // verus!
