//! Closest points between two shapes, and the narrow phase that finds them.

use vstd::prelude::*;

use crate::math::{distance_squared_spec, Isometry, Point, Real, Rigid, Vec2, WORLD_MAX};
use crate::shape::Shape;

verus! {

/// Closest points between two shapes.
#[derive(Clone, Copy, Debug, PartialEq, Eq, Structural)]
pub enum ClosestPoints {
    /// The two shapes overlap.
    Intersecting,
    /// The two shapes are apart by no more than the margin. The first point
    /// lies on the first shape and the second on the second shape. A search
    /// over a composite shape gives both points in one frame; a narrow phase
    /// gives each in the frame of its shape.
    WithinMargin(Point, Point),
    /// The two shapes are apart by more than the margin.
    Disjoint,
}

impl ClosestPoints {
    /// The same answer with the roles of the two shapes exchanged.
    pub open spec fn flipped_spec(self) -> ClosestPoints {
        match self {
            ClosestPoints::WithinMargin(p1, p2) => ClosestPoints::WithinMargin(p2, p1),
            other => other,
        }
    }

    /// The same answer with the roles of the two shapes exchanged.
    pub fn flipped(&self) -> (r: ClosestPoints)
        ensures
            r == self.flipped_spec(),
    {
        match *self {
            ClosestPoints::WithinMargin(p1, p2) => ClosestPoints::WithinMargin(p2, p1),
            other => other,
        }
    }
}

/// No narrow phase is known for a pair of shapes.
#[derive(Clone, Copy, Debug, PartialEq, Eq, Structural)]
pub struct Unsupported;

/// How two shapes lie to each other, whatever the margin of a query.
pub enum Contact {
    /// No narrow phase is known for the pair.
    Unsupported,
    /// The shapes overlap.
    Overlapping,
    /// The shapes are apart, and these are their nearest points: the first
    /// on the first shape, the second on the second, each in the frame of
    /// its shape.
    Nearest(Point, Point),
}

/// Two points are apart by no more than `margin`.
pub open spec fn within_margin(a: Vec2, b: Vec2, margin: Real) -> bool {
    0 <= margin && distance_squared_spec(a, b) <= margin * margin
}

/// The answer of a closest-points query with a margin, for two shapes that
/// lie to each other as `contact` tells, the second under the pose `pos12`
/// in the frame of the first.
pub open spec fn closest_points_of(contact: Contact, pos12: Rigid, margin: Real) -> Result<
    ClosestPoints,
    Unsupported,
> {
    match contact {
        Contact::Unsupported => Err(Unsupported),
        Contact::Overlapping => Ok(ClosestPoints::Intersecting),
        Contact::Nearest(p1, p2) => if within_margin(p1@, pos12.apply(p2@), margin) {
            Ok(ClosestPoints::WithinMargin(p1, p2))
        } else {
            Ok(ClosestPoints::Disjoint)
        },
    }
}

/// A narrow phase: exact closest-points queries between two shapes.
pub trait QueryDispatcher<S1: Shape, S2: Shape>: Sized {
    /// How `g1` and `g2` lie to each other when `pos12` maps the frame of
    /// `g2` into the frame of `g1`.
    spec fn contact(&self, pos12: Rigid, g1: &S1, g2: &S2) -> Contact;

    /// Nearest points lie on their shapes, and shapes that overlap have a
    /// point in common.
    proof fn lemma_contact_is_sound(&self, pos12: Rigid, g1: &S1, g2: &S2)
        requires
            g1.wf(),
            g2.wf(),
        ensures
            match self.contact(pos12, g1, g2) {
                Contact::Unsupported => true,
                Contact::Overlapping => exists|p: Vec2|
                    g2.contains(p) && #[trigger] g1.contains(pos12.apply(p)),
                Contact::Nearest(p1, p2) => g1.contains(p1@) && g2.contains(p2@),
            },
    ;

    /// Closest points between `g1` and `g2`, where `pos12` maps the frame of
    /// `g2` into the frame of `g1`. Each point of a pair is given in the
    /// frame of its shape.
    fn closest_points(&self, pos12: &Isometry, g1: &S1, g2: &S2, margin: Real) -> (r: Result<
        ClosestPoints,
        Unsupported,
    >)
        requires
            g1.wf(),
            g2.wf(),
            pos12@.bounded(WORLD_MAX as int),
        ensures
            r == closest_points_of(self.contact(pos12@, g1, g2), pos12@, margin),
    ;
}

} // verus!
