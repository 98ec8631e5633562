//! A narrow phase for rectangles and discs.

use vstd::prelude::*;

use crate::bounding_volume::lemma_square_is_monotone;
use crate::math::{
    distance_squared, distance_squared_spec, lattice_point, lemma_inverse_undoes,
    lemma_rotation_inverse, lemma_rotation_is_linear, Isometry, Point, Real, Rigid, Rotation,
    Vec2, Vector, WORLD_MAX,
};
use crate::query::{ClosestPoints, Contact, QueryDispatcher, Unsupported};
use crate::shape::{lemma_disc_is_within_radius, turned_extents, Ball, Cuboid, Shape};

verus! {

/// The narrow phase of this crate: it knows rectangles against rectangles,
/// and rectangles against discs where the answer lies on the lattice.
#[derive(Clone, Copy, Debug, PartialEq, Eq, Structural)]
pub struct DefaultQueryDispatcher;

/// Two intervals of the line have a point in common.
pub open spec fn intervals_meet(lo1: int, hi1: int, lo2: int, hi2: int) -> bool {
    lo1 <= hi2 && lo2 <= hi1
}

/// The point of `[lo1, hi1]` nearest to `[lo2, hi2]`; where the two meet,
/// the least point that they have in common.
pub open spec fn nearest_in_first(lo1: int, hi1: int, lo2: int, hi2: int) -> int {
    if hi1 < lo2 {
        hi1
    } else if hi2 < lo1 {
        lo1
    } else if lo1 <= lo2 {
        lo2
    } else {
        lo1
    }
}

/// The point of `[lo2, hi2]` nearest to `[lo1, hi1]`; where the two meet,
/// the least point that they have in common.
pub open spec fn nearest_in_second(lo1: int, hi1: int, lo2: int, hi2: int) -> int {
    if hi1 < lo2 {
        lo2
    } else if hi2 < lo1 {
        hi2
    } else if lo1 <= lo2 {
        lo2
    } else {
        lo1
    }
}

/// The point of a rectangle with half extents `h1` that is nearest to a
/// rectangle with half extents `h2` under the pose `pos12`.
pub open spec fn cuboid_nearest_first(pos12: Rigid, h1: Vec2, h2: Vec2) -> Vec2 {
    let e = turned_extents(h2, pos12.rotation);
    let t = pos12.translation;
    Vec2 {
        x: nearest_in_first(-h1.x, h1.x, t.x - e.x, t.x + e.x),
        y: nearest_in_first(-h1.y, h1.y, t.y - e.y, t.y + e.y),
    }
}

/// The point of a rectangle with half extents `h2` under the pose `pos12`
/// that is nearest to a rectangle with half extents `h1`, in the frame of
/// that one.
pub open spec fn cuboid_nearest_second(pos12: Rigid, h1: Vec2, h2: Vec2) -> Vec2 {
    let e = turned_extents(h2, pos12.rotation);
    let t = pos12.translation;
    Vec2 {
        x: nearest_in_second(-h1.x, h1.x, t.x - e.x, t.x + e.x),
        y: nearest_in_second(-h1.y, h1.y, t.y - e.y, t.y + e.y),
    }
}

/// How two rectangles lie to each other: they overlap when they have a point
/// in common; else their nearest points are known.
pub open spec fn cuboid_cuboid_contact(pos12: Rigid, g1: Cuboid, g2: Cuboid) -> Contact {
    let h1 = g1.half_extents@;
    let e = turned_extents(g2.half_extents@, pos12.rotation);
    let t = pos12.translation;
    if intervals_meet(-h1.x, h1.x, t.x - e.x, t.x + e.x) && intervals_meet(
        -h1.y,
        h1.y,
        t.y - e.y,
        t.y + e.y,
    ) {
        Contact::Overlapping
    } else {
        Contact::Nearest(
            lattice_point(cuboid_nearest_first(pos12, h1, g2.half_extents@)),
            lattice_point(
                pos12.inverse().apply(cuboid_nearest_second(pos12, h1, g2.half_extents@)),
            ),
        )
    }
}

/// The point of `[lo1, hi1]` nearest to `[lo2, hi2]`, and the point of
/// `[lo2, hi2]` nearest to `[lo1, hi1]`.
fn nearest_on_axis(lo1: Real, hi1: Real, lo2: Real, hi2: Real) -> (r: (Real, Real))
    ensures
        r.0 == nearest_in_first(lo1 as int, hi1 as int, lo2 as int, hi2 as int),
        r.1 == nearest_in_second(lo1 as int, hi1 as int, lo2 as int, hi2 as int),
{
    if hi1 < lo2 {
        (hi1, lo2)
    } else if hi2 < lo1 {
        (lo1, hi2)
    } else if lo1 <= lo2 {
        (lo2, lo2)
    } else {
        (lo1, lo1)
    }
}

/// Whether two points at squared distance `d` are apart by no more than
/// `margin`.
fn is_within_margin(d: Real, margin: Real) -> (r: bool)
    requires
        0 <= d <= 0x3fff_ffff_ffff_ffff,
    ensures
        r == (0 <= margin && d <= margin * margin),
{
    if margin < 0 {
        false
    } else if margin >= 0x8000_0000 {
        assert(d <= margin * margin) by (nonlinear_arith)
            requires
                0x8000_0000 <= margin,
                d <= 0x3fff_ffff_ffff_ffff,
        ;
        true
    } else {
        assert(0 <= margin * margin <= 0x3fff_ffff_0000_0001) by (nonlinear_arith)
            requires
                0 <= margin <= 0x7fff_ffff,
        ;
        d <= margin * margin
    }
}

/// The half extents, along the axes, of a rectangle with half extents
/// `half_extents` once it is turned by `rotation`.
fn turn_extents(half_extents: &Vector, rotation: &Rotation) -> (r: Vector)
    ensures
        r@ == turned_extents(half_extents@, *rotation),
{
    match rotation {
        Rotation::Identity | Rotation::Half => *half_extents,
        Rotation::Quarter | Rotation::ThreeQuarters => Vector {
            x: half_extents.y,
            y: half_extents.x,
        },
    }
}

impl QueryDispatcher<Cuboid, Cuboid> for DefaultQueryDispatcher {
    open spec fn contact(&self, pos12: Rigid, g1: &Cuboid, g2: &Cuboid) -> Contact {
        cuboid_cuboid_contact(pos12, *g1, *g2)
    }

    proof fn lemma_contact_is_sound(&self, pos12: Rigid, g1: &Cuboid, g2: &Cuboid) {
        let h1 = g1.half_extents@;
        let h2 = g2.half_extents@;
        let t = pos12.translation;
        let q = cuboid_nearest_second(pos12, h1, h2);
        let p = pos12.inverse().apply(q);
        lemma_inverse_undoes(pos12, q);
        lemma_rotation_is_linear(pos12.rotation.inverse_spec(), q, t);
        lemma_rotation_is_linear(pos12.rotation.inverse_spec(), t, t);
        lemma_rotation_inverse(pos12.rotation, t);
        assert(p == pos12.rotation.inverse_spec().apply(q.minus(t)));
        assert(g2.contains(p));
        if self.contact(pos12, g1, g2) is Overlapping {
            assert(g1.contains(pos12.apply(p)));
        }
    }

    fn closest_points(&self, pos12: &Isometry, g1: &Cuboid, g2: &Cuboid, margin: Real) -> (r:
        Result<ClosestPoints, Unsupported>) {
        let h1 = g1.half_extents;
        let e = turn_extents(&g2.half_extents, &pos12.rotation);
        let t = pos12.translation;
        let x = nearest_on_axis(-h1.x, h1.x, t.x - e.x, t.x + e.x);
        let y = nearest_on_axis(-h1.y, h1.y, t.y - e.y, t.y + e.y);
        let meet = -h1.x <= t.x + e.x && t.x - e.x <= h1.x && -h1.y <= t.y + e.y && t.y - e.y
            <= h1.y;
        if meet {
            Ok(ClosestPoints::Intersecting)
        } else {
            let p1 = Point { x: x.0, y: y.0 };
            let q = Point { x: x.1, y: y.1 };
            let p2 = pos12.inverse().transform_point(&q);
            proof {
                lemma_inverse_undoes(pos12@, q@);
                assert(p1 == lattice_point(
                    cuboid_nearest_first(pos12@, g1.half_extents@, g2.half_extents@),
                ));
                assert(q@ == cuboid_nearest_second(pos12@, g1.half_extents@, g2.half_extents@));
                assert(p2@ == pos12@.inverse().apply(q@));
                assert(p2 == lattice_point(pos12@.inverse().apply(q@)));
            }
            let d = distance_squared(&p1, &q);
            proof {
                let dv = p1@.minus(q@);
                assert(dv.x * dv.x + dv.y * dv.y <= 0x3fff_ffff_ffff_ffff) by (nonlinear_arith)
                    requires
                        -0x4000_0000 <= dv.x <= 0x4000_0000,
                        -0x4000_0000 <= dv.y <= 0x4000_0000,
                ;
            }
            if is_within_margin(d, margin) {
                Ok(ClosestPoints::WithinMargin(p1, p2))
            } else {
                Ok(ClosestPoints::Disjoint)
            }
        }
    }
}

/// The number of `[lo, hi]` nearest to `x`.
pub open spec fn clamped(x: int, lo: int, hi: int) -> int {
    if x < lo {
        lo
    } else if hi < x {
        hi
    } else {
        x
    }
}

/// The point of a rectangle with half extents `h1` that is nearest to `t`.
pub open spec fn cuboid_point_nearest_to(h1: Vec2, t: Vec2) -> Vec2 {
    Vec2 { x: clamped(t.x, -h1.x, h1.x), y: clamped(t.y, -h1.y, h1.y) }
}

/// From the center of a disc of radius `r` to the point of its rim that is
/// nearest to a point which lies at `delta` as seen from the center, where
/// `delta` runs along one axis.
pub open spec fn rim_offset(delta: Vec2, r: int) -> Vec2 {
    if delta.x > 0 {
        Vec2 { x: r, y: 0 }
    } else if delta.x < 0 {
        Vec2 { x: -r, y: 0 }
    } else if delta.y > 0 {
        Vec2 { x: 0, y: r }
    } else {
        Vec2 { x: 0, y: -r }
    }
}

/// How a rectangle and a disc lie to each other. They overlap when the point
/// of the rectangle nearest to the disc's center is within the radius of it.
/// Else, where that point and the center are on one line along an axis, the
/// nearest points are that point and a point of the rim. Else the nearest
/// point of the rim is no point of the lattice, and the pair is not
/// supported.
pub open spec fn cuboid_ball_contact(pos12: Rigid, g1: Cuboid, g2: Ball) -> Contact {
    let t = pos12.translation;
    let q = cuboid_point_nearest_to(g1.half_extents@, t);
    let delta = q.minus(t);
    if delta.norm_squared() <= g2.radius * g2.radius {
        Contact::Overlapping
    } else if delta.x == 0 || delta.y == 0 {
        Contact::Nearest(
            lattice_point(q),
            lattice_point(
                pos12.rotation.inverse_spec().apply(rim_offset(delta, g2.radius as int)),
            ),
        )
    } else {
        Contact::Unsupported
    }
}

/// The number of `[lo, hi]` nearest to `x`.
fn clamp_to(x: Real, lo: Real, hi: Real) -> (r: Real)
    ensures
        r == clamped(x as int, lo as int, hi as int),
{
    if x < lo {
        lo
    } else if hi < x {
        hi
    } else {
        x
    }
}

impl QueryDispatcher<Cuboid, Ball> for DefaultQueryDispatcher {
    open spec fn contact(&self, pos12: Rigid, g1: &Cuboid, g2: &Ball) -> Contact {
        cuboid_ball_contact(pos12, *g1, *g2)
    }

    proof fn lemma_contact_is_sound(&self, pos12: Rigid, g1: &Cuboid, g2: &Ball) {
        let t = pos12.translation;
        let r = g2.radius as int;
        let q = cuboid_point_nearest_to(g1.half_extents@, t);
        let delta = q.minus(t);
        let inv = pos12.rotation.inverse_spec();
        if delta.norm_squared() <= r * r {
            let p = pos12.inverse().apply(q);
            lemma_inverse_undoes(pos12, q);
            lemma_rotation_is_linear(inv, q, t);
            lemma_rotation_is_linear(inv, delta, delta);
            lemma_rotation_is_linear(inv, t, t);
            assert(p == inv.apply(delta));
            assert(g1.contains(pos12.apply(p)));
        } else if delta.x == 0 || delta.y == 0 {
            let off = rim_offset(delta, r);
            lemma_rotation_is_linear(inv, off, off);
            assert((-r) * (-r) == r * r) by (nonlinear_arith);
            assert(off.norm_squared() == r * r);
            assert(-r <= inv.apply(off).x <= r && -r <= inv.apply(off).y <= r);
        }
    }

    fn closest_points(&self, pos12: &Isometry, g1: &Cuboid, g2: &Ball, margin: Real) -> (r: Result<
        ClosestPoints,
        Unsupported,
    >) {
        let t = pos12.translation;
        let q = Point {
            x: clamp_to(t.x, -g1.half_extents.x, g1.half_extents.x),
            y: clamp_to(t.y, -g1.half_extents.y, g1.half_extents.y),
        };
        let center = Point { x: t.x, y: t.y };
        let gap2 = distance_squared(&q, &center);
        let radius = g2.radius;
        assert(0 <= radius * radius <= 0x100_0000_0000_0000) by (nonlinear_arith)
            requires
                0 <= radius <= 0x1000_0000,
        ;
        if gap2 <= radius * radius {
            Ok(ClosestPoints::Intersecting)
        } else if q.x == t.x || q.y == t.y {
            let off = if q.x > t.x {
                Vector { x: radius, y: 0 }
            } else if q.x < t.x {
                Vector { x: -radius, y: 0 }
            } else if q.y > t.y {
                Vector { x: 0, y: radius }
            } else {
                Vector { x: 0, y: -radius }
            };
            assert(off@ == rim_offset(q@.minus(t@), radius as int));
            let p2v = pos12.rotation.inverse().rotate(&off);
            let p2 = Point { x: p2v.x, y: p2v.y };
            let on_rim = Point { x: t.x + off.x, y: t.y + off.y };
            proof {
                lemma_rotation_inverse(pos12@.rotation, off@);
                assert(pos12@.apply(p2@) == on_rim@);
                let dv = q@.minus(on_rim@);
                assert(dv.x * dv.x + dv.y * dv.y <= 0x3fff_ffff_ffff_ffff) by (nonlinear_arith)
                    requires
                        -0x4000_0000 <= dv.x <= 0x4000_0000,
                        -0x4000_0000 <= dv.y <= 0x4000_0000,
                ;
            }
            let d = distance_squared(&q, &on_rim);
            if is_within_margin(d, margin) {
                Ok(ClosestPoints::WithinMargin(q, p2))
            } else {
                Ok(ClosestPoints::Disjoint)
            }
        } else {
            Err(Unsupported)
        }
    }
}

/// A point of a rectangle with half extents `h` stays, under the pose `pos`,
/// within the turned extents of the pose's translation.
proof fn lemma_posed_cuboid_point(pos: Rigid, h: Vec2, b: Vec2)
    requires
        -h.x <= b.x <= h.x,
        -h.y <= b.y <= h.y,
    ensures
        pos.translation.x - turned_extents(h, pos.rotation).x <= pos.apply(b).x
            <= pos.translation.x + turned_extents(h, pos.rotation).x,
        pos.translation.y - turned_extents(h, pos.rotation).y <= pos.apply(b).y
            <= pos.translation.y + turned_extents(h, pos.rotation).y,
{
}

/// Two points, one in each of two intervals, are no nearer to each other
/// than the nearest points of the intervals.
proof fn lemma_nearest_on_axis_is_least(lo1: int, hi1: int, lo2: int, hi2: int, a: int, b: int)
    requires
        lo1 <= a <= hi1,
        lo2 <= b <= hi2,
    ensures
        ({
            let g = nearest_in_first(lo1, hi1, lo2, hi2) - nearest_in_second(lo1, hi1, lo2, hi2);
            &&& 0 <= g * g <= (a - b) * (a - b)
            &&& !intervals_meet(lo1, hi1, lo2, hi2) ==> 0 < g * g
        }),
{
    let g = nearest_in_first(lo1, hi1, lo2, hi2) - nearest_in_second(lo1, hi1, lo2, hi2);
    if g >= 0 {
        lemma_square_is_monotone(g, a - b);
    } else {
        lemma_square_is_monotone(-g, a - b);
        assert((-g) * (-g) == g * g) by (nonlinear_arith);
    }
    if g != 0 {
        assert(0 < g * g) by (nonlinear_arith)
            requires
                g != 0,
        ;
    }
}

/// Rectangles that the narrow phase finds apart share no point, and no point
/// of the one is nearer to a point of the other than the two points that the
/// narrow phase gives.
pub proof fn lemma_cuboid_cuboid_nearest_is_least(
    pos12: Rigid,
    g1: Cuboid,
    g2: Cuboid,
    a: Vec2,
    b: Vec2,
)
    requires
        g1.wf(),
        g2.wf(),
        pos12.bounded(WORLD_MAX as int),
        cuboid_cuboid_contact(pos12, g1, g2) is Nearest,
        g1.contains(a),
        g2.contains(b),
    ensures
        0 < distance_squared_spec(
            cuboid_cuboid_contact(pos12, g1, g2)->Nearest_0@,
            pos12.apply(cuboid_cuboid_contact(pos12, g1, g2)->Nearest_1@),
        ) <= distance_squared_spec(a, pos12.apply(b)),
        a != pos12.apply(b),
{
    let h1 = g1.half_extents@;
    let h2 = g2.half_extents@;
    let e = turned_extents(h2, pos12.rotation);
    let t = pos12.translation;
    let q = cuboid_nearest_second(pos12, h1, h2);
    let image = pos12.apply(b);
    lemma_posed_cuboid_point(pos12, h2, b);
    lemma_inverse_undoes(pos12, q);
    lemma_rotation_is_linear(pos12.rotation.inverse_spec(), q, t);
    lemma_rotation_is_linear(pos12.rotation.inverse_spec(), t, t);
    lemma_rotation_inverse(pos12.rotation, t);
    assert(pos12.inverse().apply(q) == pos12.rotation.inverse_spec().apply(q.minus(t)));
    lemma_nearest_on_axis_is_least(-h1.x, h1.x, t.x - e.x, t.x + e.x, a.x, image.x);
    lemma_nearest_on_axis_is_least(-h1.y, h1.y, t.y - e.y, t.y + e.y, a.y, image.y);
}

/// A number whose square is above the square of a radius is, if positive,
/// above the radius.
proof fn lemma_beyond_radius(d: int, r: int)
    requires
        0 <= r,
        0 < d,
        r * r < d * d,
    ensures
        r < d,
{
    assert(r < d) by (nonlinear_arith)
        requires
            0 <= r,
            0 < d,
            r * r < d * d,
    ;
}

/// A rectangle and a disc that the narrow phase finds apart share no point,
/// and no point of the one is nearer to a point of the other than the two
/// points that the narrow phase gives.
pub proof fn lemma_cuboid_ball_nearest_is_least(
    pos12: Rigid,
    g1: Cuboid,
    g2: Ball,
    a: Vec2,
    b: Vec2,
)
    requires
        g1.wf(),
        g2.wf(),
        pos12.bounded(WORLD_MAX as int),
        cuboid_ball_contact(pos12, g1, g2) is Nearest,
        g1.contains(a),
        g2.contains(b),
    ensures
        0 < distance_squared_spec(
            cuboid_ball_contact(pos12, g1, g2)->Nearest_0@,
            pos12.apply(cuboid_ball_contact(pos12, g1, g2)->Nearest_1@),
        ) <= distance_squared_spec(a, pos12.apply(b)),
        a != pos12.apply(b),
{
    let t = pos12.translation;
    let r = g2.radius as int;
    let q = cuboid_point_nearest_to(g1.half_extents@, t);
    let delta = q.minus(t);
    let off = rim_offset(delta, r);
    let inv = pos12.rotation.inverse_spec();
    let image = pos12.apply(b);
    let turned = pos12.rotation.apply(b);
    lemma_rotation_is_linear(pos12.rotation, b, b);
    lemma_disc_is_within_radius(turned.x, turned.y, r);
    lemma_rotation_is_linear(inv, off, off);
    lemma_rotation_inverse(pos12.rotation, off);
    assert(pos12.apply(inv.apply(off)) == t.plus(off));
    let on_rim = t.plus(off);
    let along = if delta.x != 0 {
        delta.x
    } else {
        delta.y
    };
    let between = if delta.x != 0 {
        a.x - image.x
    } else {
        a.y - image.y
    };
    assert(delta.norm_squared() == along * along) by (nonlinear_arith)
        requires
            delta.x == 0 || delta.y == 0,
            along == if delta.x != 0 {
                delta.x
            } else {
                delta.y
            },
    ;
    if along > 0 {
        lemma_beyond_radius(along, r);
        lemma_square_is_monotone(along - r, between);
    } else {
        assert((-along) * (-along) == along * along) by (nonlinear_arith);
        lemma_beyond_radius(-along, r);
        lemma_square_is_monotone(-along - r, between);
    }
    let reach = if along > 0 {
        along - r
    } else {
        -along - r
    };
    let d = q.minus(on_rim);
    assert(d.x * d.x + d.y * d.y == reach * reach) by (nonlinear_arith)
        requires
            (d.x == reach || d.x == -reach) && d.y == 0 || (d.y == reach || d.y == -reach) && d.x
                == 0,
    ;
    assert(0 < reach * reach) by (nonlinear_arith)
        requires
            0 < reach,
    ;
    let across = a.minus(image);
    assert(between * between <= across.x * across.x + across.y * across.y) by (nonlinear_arith)
        requires
            between == across.x || between == across.y,
    ;
}

} // verus!
