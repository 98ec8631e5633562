//! Shapes, and composite shapes made of posed parts under a hierarchy.

use vstd::prelude::*;

use crate::bounding_volume::{Aabb, Box2};
use crate::math::{Isometry, Point, Real, Rigid, Rotation, Vec2, Vector, COORD_MAX, WORLD_MAX};
use crate::partitioning::{leaf_lane, PartId, Qbvh};

verus! {

/// A set of points of the plane, given in a frame of its own.
pub trait Shape: Sized {
    /// The shape's own invariant.
    spec fn wf(&self) -> bool;

    /// Whether `p`, in the shape's frame, belongs to the shape.
    spec fn contains(&self, p: Vec2) -> bool;

    /// The box that `compute_aabb` returns for the shape under `pos`.
    spec fn aabb(&self, pos: Rigid) -> Box2;

    /// The points of a shape lie within `COORD_MAX` of its frame's origin,
    /// and the box of the shape under a pose is inhabited and encloses the
    /// shape under that pose.
    proof fn lemma_aabb_encloses(&self, pos: Rigid, p: Vec2)
        requires
            self.wf(),
            pos.bounded(COORD_MAX as int),
        ensures
            self.aabb(pos).inhabited(),
            self.aabb(pos).bounded(WORLD_MAX as int),
            self.contains(p) ==> p.bounded(COORD_MAX as int) && self.aabb(pos).contains(
                pos.apply(p),
            ),
    ;

    /// An axis-aligned box around the shape under the pose `pos`.
    fn compute_aabb(&self, pos: &Isometry) -> (r: Aabb)
        requires
            self.wf(),
            pos@.bounded(COORD_MAX as int),
        ensures
            r@ == self.aabb(pos@),
    ;
}

/// A shape made of parts, each a shape under a pose of its own in the
/// composite's frame, with a hierarchy of bounding volumes whose leaf lanes
/// hold the parts' identifiers.
pub trait TypedSimdCompositeShape: Sized {
    type PartShape: Shape;

    /// The composite's own invariant.
    spec fn wf(&self) -> bool;

    /// The hierarchy that `typed_qbvh` returns.
    spec fn qbvh(&self) -> Qbvh;

    /// The pose and the shape of part `id`, if there is such a part.
    spec fn part(&self, id: PartId) -> Option<(Isometry, Self::PartShape)>;

    /// The hierarchy is well formed, and every occupied leaf lane of it holds
    /// a part of the composite whose box, under the part's pose, the lane's
    /// box encloses.
    proof fn lemma_hierarchy_bounds_parts(&self, n: int, i: int)
        requires
            self.wf(),
        ensures
            self.qbvh().wf(),
            leaf_lane(self.qbvh()@, n, i) matches Some(id) ==> part_is_bounded(
                self.part(id),
                self.qbvh()@[n].simd_aabb.lane(i),
            ),
    ;

    /// The hierarchy over the parts.
    fn typed_qbvh(&self) -> (q: &Qbvh)
        requires
            self.wf(),
        ensures
            *q == self.qbvh(),
    ;

    /// The pose and the shape of part `id`.
    fn typed_part_at(&self, id: PartId) -> (r: (Isometry, &Self::PartShape))
        requires
            self.wf(),
            self.part(id) is Some,
        ensures
            self.part(id) == Some((r.0, *r.1)),
    ;
}

/// There is such a part, it is a well-formed shape under a pose within
/// bounds, and `bx` encloses its box under that pose.
pub open spec fn part_is_bounded<S: Shape>(part: Option<(Isometry, S)>, bx: Box2) -> bool {
    match part {
        Some((pose, shape)) => {
            &&& shape.wf()
            &&& pose@.bounded(COORD_MAX as int)
            &&& bx.encloses(shape.aabb(pose@))
        },
        None => false,
    }
}

/// A rectangle centered at the origin of its frame, with sides along the
/// axes.
#[derive(Clone, Copy, Debug, PartialEq, Eq, Structural)]
pub struct Cuboid {
    pub half_extents: Vector,
}

/// The half extents, along the axes, of a rectangle with half extents
/// `half_extents` once it is turned by `rotation`.
pub open spec fn turned_extents(half_extents: Vec2, rotation: Rotation) -> Vec2 {
    match rotation {
        Rotation::Identity | Rotation::Half => half_extents,
        Rotation::Quarter | Rotation::ThreeQuarters => Vec2 {
            x: half_extents.y,
            y: half_extents.x,
        },
    }
}

impl Cuboid {
    /// The rectangle with these half extents, if neither is negative or
    /// above `COORD_MAX`.
    pub fn new(half_extents: Vector) -> (r: Option<Cuboid>)
        ensures
            r is Some <==> (Cuboid { half_extents }).wf(),
            r matches Some(c) ==> c.half_extents == half_extents,
    {
        if 0 <= half_extents.x && half_extents.x <= COORD_MAX && 0 <= half_extents.y
            && half_extents.y <= COORD_MAX {
            Some(Cuboid { half_extents })
        } else {
            None
        }
    }
}

impl Shape for Cuboid {
    open spec fn wf(&self) -> bool {
        0 <= self.half_extents.x <= COORD_MAX && 0 <= self.half_extents.y <= COORD_MAX
    }

    open spec fn contains(&self, p: Vec2) -> bool {
        -self.half_extents.x <= p.x <= self.half_extents.x && -self.half_extents.y <= p.y
            <= self.half_extents.y
    }

    open spec fn aabb(&self, pos: Rigid) -> Box2 {
        Box2 {
            mins: pos.translation.minus(turned_extents(self.half_extents@, pos.rotation)),
            maxs: pos.translation.plus(turned_extents(self.half_extents@, pos.rotation)),
        }
    }

    proof fn lemma_aabb_encloses(&self, pos: Rigid, p: Vec2) {
    }

    fn compute_aabb(&self, pos: &Isometry) -> (r: Aabb) {
        let ext = match pos.rotation {
            Rotation::Identity | Rotation::Half => self.half_extents,
            Rotation::Quarter | Rotation::ThreeQuarters => Vector {
                x: self.half_extents.y,
                y: self.half_extents.x,
            },
        };
        Aabb {
            mins: Point { x: pos.translation.x - ext.x, y: pos.translation.y - ext.y },
            maxs: Point { x: pos.translation.x + ext.x, y: pos.translation.y + ext.y },
        }
    }
}

/// A disc centered at the origin of its frame.
#[derive(Clone, Copy, Debug, PartialEq, Eq, Structural)]
pub struct Ball {
    pub radius: Real,
}

impl Ball {
    /// The disc with this radius, if it is neither negative nor above
    /// `COORD_MAX`.
    pub fn new(radius: Real) -> (r: Option<Ball>)
        ensures
            r is Some <==> (Ball { radius }).wf(),
            r matches Some(b) ==> b.radius == radius,
    {
        if 0 <= radius && radius <= COORD_MAX {
            Some(Ball { radius })
        } else {
            None
        }
    }
}

/// A coordinate of a point of a disc around the origin is within the radius.
pub proof fn lemma_disc_is_within_radius(x: int, y: int, r: int)
    requires
        0 <= r,
        x * x + y * y <= r * r,
    ensures
        -r <= x <= r,
        -r <= y <= r,
{
    assert(-r <= x <= r && -r <= y <= r) by (nonlinear_arith)
        requires
            0 <= r,
            x * x + y * y <= r * r,
    ;
}

impl Shape for Ball {
    open spec fn wf(&self) -> bool {
        0 <= self.radius <= COORD_MAX
    }

    open spec fn contains(&self, p: Vec2) -> bool {
        p.norm_squared() <= self.radius * self.radius
    }

    open spec fn aabb(&self, pos: Rigid) -> Box2 {
        Box2 {
            mins: pos.translation.minus(Vec2 { x: self.radius as int, y: self.radius as int }),
            maxs: pos.translation.plus(Vec2 { x: self.radius as int, y: self.radius as int }),
        }
    }

    proof fn lemma_aabb_encloses(&self, pos: Rigid, p: Vec2) {
        if self.contains(p) {
            lemma_disc_is_within_radius(p.x, p.y, self.radius as int);
        }
    }

    fn compute_aabb(&self, pos: &Isometry) -> (r: Aabb) {
        Aabb {
            mins: Point { x: pos.translation.x - self.radius, y: pos.translation.y - self.radius },
            maxs: Point { x: pos.translation.x + self.radius, y: pos.translation.y + self.radius },
        }
    }
}

} // verus!
