//! Axis-aligned bounding boxes, alone and in batches of `SIMD_WIDTH`.

use vstd::prelude::*;

use crate::math::{distance_squared_spec, Point, Real, Vec2, Vector, WORLD_MAX};
use crate::simd::SIMD_WIDTH;



verus! {

/// Distance from zero to the interval `[lo, hi]` of the line.
pub open spec fn gap(lo: int, hi: int) -> int {
    if lo > 0 {
        lo
    } else if hi < 0 {
        -hi
    } else {
        0
    }
}

/// The mathematical value of an [`Aabb`]: the points `p` with
/// `mins <= p <= maxs` on both axes.
pub struct Box2 {
    pub mins: Vec2,
    pub maxs: Vec2,
}

impl Box2 {
    /// The point `p` lies in the box.
    pub open spec fn contains(self, p: Vec2) -> bool {
        self.mins.x <= p.x <= self.maxs.x && self.mins.y <= p.y <= self.maxs.y
    }

    /// The box reaches at least as far as `inner` on every side.
    pub open spec fn encloses(self, inner: Box2) -> bool {
        &&& self.mins.x <= inner.mins.x
        &&& self.mins.y <= inner.mins.y
        &&& inner.maxs.x <= self.maxs.x
        &&& inner.maxs.y <= self.maxs.y
    }

    /// The box holds at least one point.
    pub open spec fn inhabited(self) -> bool {
        self.mins.x <= self.maxs.x && self.mins.y <= self.maxs.y
    }

    /// Both corners have coordinates of magnitude at most `b`.
    pub open spec fn bounded(self, b: int) -> bool {
        self.mins.bounded(b) && self.maxs.bounded(b)
    }

    /// The lattice point nearest to the middle of the box, towards `mins`.
    pub open spec fn center(self) -> Vec2 {
        Vec2 {
            x: self.mins.x + (self.maxs.x - self.mins.x) / 2,
            y: self.mins.y + (self.maxs.y - self.mins.y) / 2,
        }
    }

    /// Half of the box's extents, rounded up to the lattice.
    pub open spec fn half_extents(self) -> Vec2 {
        Vec2 {
            x: (self.maxs.x - self.mins.x + 1) / 2,
            y: (self.maxs.y - self.mins.y + 1) / 2,
        }
    }

    /// The box moved by `shift` and then grown by `margin` on every side.
    pub open spec fn shifted_and_loosened(self, shift: Vec2, margin: Vec2) -> Box2 {
        Box2 {
            mins: self.mins.plus(shift).minus(margin),
            maxs: self.maxs.plus(shift).plus(margin),
        }
    }

    /// Squared Euclidean distance from the origin to the box; zero when the
    /// box holds the origin.
    pub open spec fn distance_to_origin_squared(self) -> int {
        gap(self.mins.x, self.maxs.x) * gap(self.mins.x, self.maxs.x) + gap(
            self.mins.y,
            self.maxs.y,
        ) * gap(self.mins.y, self.maxs.y)
    }
}

/// An axis-aligned bounding box.
#[derive(Clone, Copy, Debug, PartialEq, Eq, Structural)]
pub struct Aabb {
    pub mins: Point,
    pub maxs: Point,
}

impl View for Aabb {
    type V = Box2;

    open spec fn view(&self) -> Box2 {
        Box2 { mins: self.mins@, maxs: self.maxs@ }
    }
}

impl Aabb {
    /// The box from `mins` to `maxs`.
    pub fn new(mins: Point, maxs: Point) -> (r: Aabb)
        ensures
            r.mins == mins,
            r.maxs == maxs,
    {
        Aabb { mins, maxs }
    }

    /// The lattice point nearest to the middle of the box, towards `mins`.
    pub fn center(&self) -> (c: Point)
        requires
            self@.inhabited(),
            self@.bounded(WORLD_MAX as int),
        ensures
            c@ == self@.center(),
    {
        Point {
            x: self.mins.x + (self.maxs.x - self.mins.x) / 2,
            y: self.mins.y + (self.maxs.y - self.mins.y) / 2,
        }
    }

    /// Half of the box's extents, rounded up to the lattice.
    pub fn half_extents(&self) -> (h: Vector)
        requires
            self@.inhabited(),
            self@.bounded(WORLD_MAX as int),
        ensures
            h@ == self@.half_extents(),
    {
        Vector {
            x: (self.maxs.x - self.mins.x + 1) / 2,
            y: (self.maxs.y - self.mins.y + 1) / 2,
        }
    }
}

/// A box around its center reaches at least as far as the box itself once it
/// is grown by its half extents.
pub proof fn lemma_center_and_half_extents_cover(b: Box2)
    requires
        b.inhabited(),
    ensures
        b.center().minus(b.half_extents()).x <= b.mins.x,
        b.center().minus(b.half_extents()).y <= b.mins.y,
        b.maxs.x <= b.center().plus(b.half_extents()).x,
        b.maxs.y <= b.center().plus(b.half_extents()).y,
        b.center().bounded(WORLD_MAX as int) <== b.bounded(WORLD_MAX as int),
        0 <= b.half_extents().x <= b.maxs.x - b.mins.x,
        0 <= b.half_extents().y <= b.maxs.y - b.mins.y,
{
}

/// Largest magnitude of a coordinate of a box whose distance to the origin is
/// taken.
pub const LOOSENED_MAX: Real = 0x6000_0000;

/// `SIMD_WIDTH` axis-aligned bounding boxes, held as one array of lower
/// corners and one of upper corners: lane `i` is the box from `mins[i]` to
/// `maxs[i]`.
#[derive(Clone, Copy, Debug, PartialEq, Eq)]
pub struct SimdAabb {
    pub mins: [Point; 4],
    pub maxs: [Point; 4],
}

impl SimdAabb {
    /// The box of lane `i`.
    pub open spec fn lane(&self, i: int) -> Box2 {
        Box2 { mins: self.mins[i]@, maxs: self.maxs[i]@ }
    }

    /// Every lane's box has coordinates of magnitude at most `b`.
    pub open spec fn bounded(&self, b: int) -> bool {
        forall|i: int| 0 <= i < SIMD_WIDTH ==> (#[trigger] self.lane(i)).bounded(b)
    }

    /// The batch whose every lane is `aabb`.
    pub fn splat(aabb: Aabb) -> (r: SimdAabb)
        ensures
            forall|i: int| 0 <= i < SIMD_WIDTH ==> #[trigger] r.lane(i) == aabb@,
    {
        SimdAabb { mins: [aabb.mins;4], maxs: [aabb.maxs;4] }
    }

    /// The batch whose lane `i` is `aabbs[i]`.
    pub fn from_lanes(aabbs: [Aabb; 4]) -> (r: SimdAabb)
        ensures
            forall|i: int| 0 <= i < SIMD_WIDTH ==> #[trigger] r.lane(i) == aabbs[i]@,
    {
        SimdAabb {
            mins: [aabbs[0].mins, aabbs[1].mins, aabbs[2].mins, aabbs[3].mins],
            maxs: [aabbs[0].maxs, aabbs[1].maxs, aabbs[2].maxs, aabbs[3].maxs],
        }
    }

    /// The box of one lane.
    pub fn extract(&self, lane: usize) -> (r: Aabb)
        requires
            lane < SIMD_WIDTH,
        ensures
            r@ == self.lane(lane as int),
    {
        Aabb { mins: self.mins[lane], maxs: self.maxs[lane] }
    }

    /// Every lane moved by `shift` and then grown by `margin` on every side.
    pub fn shifted_and_loosened(&self, shift: &Vector, margin: &Vector) -> (r: SimdAabb)
        requires
            self.bounded(WORLD_MAX as int),
            shift@.bounded(WORLD_MAX as int),
            margin@.bounded(WORLD_MAX as int),
        ensures
            forall|i: int|
                0 <= i < SIMD_WIDTH ==> #[trigger] r.lane(i) == self.lane(i).shifted_and_loosened(
                    shift@,
                    margin@,
                ),
            r.bounded(LOOSENED_MAX as int),
    {
        let mut mins = self.mins;
        let mut maxs = self.maxs;
        let mut ii: usize = 0;
        while ii < SIMD_WIDTH
            invariant
                ii <= SIMD_WIDTH,
                self.bounded(WORLD_MAX as int),
                shift@.bounded(WORLD_MAX as int),
                margin@.bounded(WORLD_MAX as int),
                forall|i: int|
                    0 <= i < ii ==> (Box2 { mins: (#[trigger] mins[i])@, maxs: maxs[i]@ })
                        == self.lane(i).shifted_and_loosened(shift@, margin@),
                forall|i: int| ii <= i < SIMD_WIDTH ==> #[trigger] mins[i] == self.mins[i],
                forall|i: int| ii <= i < SIMD_WIDTH ==> #[trigger] maxs[i] == self.maxs[i],
            decreases SIMD_WIDTH - ii,
        {
            assert(self.lane(ii as int).bounded(WORLD_MAX as int));
            let lo = mins[ii];
            let hi = maxs[ii];
            mins[ii] = Point { x: lo.x + shift.x - margin.x, y: lo.y + shift.y - margin.y };
            maxs[ii] = Point { x: hi.x + shift.x + margin.x, y: hi.y + shift.y + margin.y };
            ii += 1;
        }
        let r = SimdAabb { mins, maxs };
        assert forall|i: int| 0 <= i < SIMD_WIDTH implies (#[trigger] r.lane(i)).bounded(
            LOOSENED_MAX as int,
        ) by {
            assert(self.lane(i).bounded(WORLD_MAX as int));
            assert(r.lane(i) == (Box2 { mins: mins[i]@, maxs: maxs[i]@ }));
        }
        r
    }

    /// Squared Euclidean distance from the origin to each lane's box; zero
    /// for a lane whose box holds the origin.
    pub fn distance_to_origin(&self) -> (dist: [Real; 4])
        requires
            self.bounded(LOOSENED_MAX as int),
        ensures
            forall|i: int|
                0 <= i < SIMD_WIDTH ==> #[trigger] dist[i]
                    == self.lane(i).distance_to_origin_squared(),
    {
        let mut dist: [Real; 4] = [0;4];
        let mut ii: usize = 0;
        while ii < SIMD_WIDTH
            invariant
                ii <= SIMD_WIDTH,
                self.bounded(LOOSENED_MAX as int),
                forall|i: int|
                    0 <= i < ii ==> #[trigger] dist[i]
                        == self.lane(i).distance_to_origin_squared(),
            decreases SIMD_WIDTH - ii,
        {
            assert(self.lane(ii as int).bounded(LOOSENED_MAX as int));
            let gx = interval_gap(self.mins[ii].x, self.maxs[ii].x);
            let gy = interval_gap(self.mins[ii].y, self.maxs[ii].y);
            assert(0 <= gx * gx <= 0x2400_0000_0000_0000 && 0 <= gy * gy <= 0x2400_0000_0000_0000)
                by (nonlinear_arith)
                requires
                    0 <= gx <= 0x6000_0000,
                    0 <= gy <= 0x6000_0000,
            ;
            dist[ii] = gx * gx + gy * gy;
            ii += 1;
        }
        dist
    }
}

/// Distance from zero to the interval `[lo, hi]` of the line.
pub fn interval_gap(lo: Real, hi: Real) -> (g: Real)
    requires
        Real::MIN < hi,
    ensures
        g == gap(lo as int, hi as int),
{
    if lo > 0 {
        lo
    } else if hi < 0 {
        -hi
    } else {
        0
    }
}

/// Squares grow with the magnitude of what is squared.
pub proof fn lemma_square_is_monotone(g: int, d: int)
    requires
        0 <= g,
        g <= d || g <= -d,
    ensures
        0 <= g * g <= d * d,
{
    assert(0 <= g * g <= d * d) by (nonlinear_arith)
        requires
            0 <= g,
            g <= d || g <= -d,
    ;
}

/// Distance from zero to an interval is at most the magnitude of each of its
/// members.
pub proof fn lemma_gap_below_member(lo: int, hi: int, d: int)
    requires
        lo <= d <= hi,
    ensures
        0 <= gap(lo, hi) * gap(lo, hi) <= d * d,
{
    lemma_square_is_monotone(gap(lo, hi), d);
}

/// Distance from zero to an interval does not grow when the interval does.
pub proof fn lemma_gap_of_wider_interval(lo: int, hi: int, inner_lo: int, inner_hi: int)
    requires
        lo <= inner_lo <= inner_hi <= hi,
    ensures
        0 <= gap(lo, hi) * gap(lo, hi) <= gap(inner_lo, inner_hi) * gap(inner_lo, inner_hi),
{
    lemma_square_is_monotone(gap(lo, hi), gap(inner_lo, inner_hi));
}

/// The distance from the origin to a box is never negative.
pub proof fn lemma_distance_to_origin_is_not_negative(b: Box2)
    ensures
        0 <= b.distance_to_origin_squared(),
{
    lemma_square_is_monotone(0, gap(b.mins.x, b.maxs.x));
    lemma_square_is_monotone(0, gap(b.mins.y, b.maxs.y));
    assert(gap(b.mins.x, b.maxs.x) * gap(b.mins.x, b.maxs.x) >= 0) by (nonlinear_arith);
    assert(gap(b.mins.y, b.maxs.y) * gap(b.mins.y, b.maxs.y) >= 0) by (nonlinear_arith);
}

/// The Minkowski bound: when `q` lies within `margin` of `-shift` on both
/// axes, the box `b`, moved by `shift` and grown by `margin`, is no farther
/// from the origin than any point `p` of `b` is from `q`.
pub proof fn lemma_loosened_distance_is_lower_bound(
    b: Box2,
    shift: Vec2,
    margin: Vec2,
    p: Vec2,
    q: Vec2,
)
    requires
        b.contains(p),
        -shift.x - margin.x <= q.x <= -shift.x + margin.x,
        -shift.y - margin.y <= q.y <= -shift.y + margin.y,
    ensures
        b.shifted_and_loosened(shift, margin).distance_to_origin_squared() <= distance_squared_spec(
            p,
            q,
        ),
{
    let m = b.shifted_and_loosened(shift, margin);
    lemma_gap_below_member(m.mins.x, m.maxs.x, p.x - q.x);
    lemma_gap_below_member(m.mins.y, m.maxs.y, p.y - q.y);
}

/// A box that encloses another is, after the same move and growth, no farther
/// from the origin than the other.
pub proof fn lemma_loosened_distance_is_monotone(
    outer: Box2,
    inner: Box2,
    shift: Vec2,
    margin: Vec2,
)
    requires
        outer.encloses(inner),
        inner.inhabited(),
        0 <= margin.x,
        0 <= margin.y,
    ensures
        outer.shifted_and_loosened(shift, margin).distance_to_origin_squared()
            <= inner.shifted_and_loosened(shift, margin).distance_to_origin_squared(),
{
    let o = outer.shifted_and_loosened(shift, margin);
    let i = inner.shifted_and_loosened(shift, margin);
    lemma_gap_of_wider_interval(o.mins.x, o.maxs.x, i.mins.x, i.maxs.x);
    lemma_gap_of_wider_interval(o.mins.y, o.maxs.y, i.mins.y, i.maxs.y);
}

} // verus!
