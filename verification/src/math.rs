//! Points, vectors and rigid motions of the integer lattice.

use vstd::prelude::*;

verus! {

/// The scalar type of every coordinate, margin and search cost.
pub type Real = i64;

/// Largest magnitude of a coordinate of a shape in its own frame, and of a
/// component of the translation of a pose handed to a query.
pub const COORD_MAX: Real = 0x1000_0000;

/// Largest magnitude of a coordinate once a pose has been applied to it.
pub const WORLD_MAX: Real = 0x2000_0000;

/// Largest magnitude of a coordinate of a point whose squared distance to
/// another point is taken.
pub const REACH_MAX: Real = 0x3fff_ffff;

/// Two scalars of at most this magnitude add and subtract without overflow.
pub const HALF_RANGE: Real = 0x3fff_ffff_ffff_ffff;

/// A point or a displacement of the plane with unbounded integer coordinates:
/// the mathematical value of a [`Point`] and of a [`Vector`].
pub struct Vec2 {
    pub x: int,
    pub y: int,
}

impl Vec2 {
    /// The sum of two displacements, or a point moved by a displacement.
    pub open spec fn plus(self, rhs: Vec2) -> Vec2 {
        Vec2 { x: self.x + rhs.x, y: self.y + rhs.y }
    }

    /// The displacement from `rhs` to `self`.
    pub open spec fn minus(self, rhs: Vec2) -> Vec2 {
        Vec2 { x: self.x - rhs.x, y: self.y - rhs.y }
    }

    /// The opposite displacement.
    pub open spec fn negated(self) -> Vec2 {
        Vec2 { x: -self.x, y: -self.y }
    }

    /// Both coordinates have magnitude at most `b`.
    pub open spec fn bounded(self, b: int) -> bool {
        -b <= self.x <= b && -b <= self.y <= b
    }

    /// The squared Euclidean length.
    pub open spec fn norm_squared(self) -> int {
        self.x * self.x + self.y * self.y
    }
}

/// Squared Euclidean distance between two points.
pub open spec fn distance_squared_spec(p: Vec2, q: Vec2) -> int {
    p.minus(q).norm_squared()
}

/// A displacement of the lattice.
#[derive(Clone, Copy, Debug, PartialEq, Eq, Structural)]
pub struct Vector {
    pub x: Real,
    pub y: Real,
}

impl View for Vector {
    type V = Vec2;

    open spec fn view(&self) -> Vec2 {
        Vec2 { x: self.x as int, y: self.y as int }
    }
}

/// A point of the lattice.
#[derive(Clone, Copy, Debug, PartialEq, Eq, Structural)]
pub struct Point {
    pub x: Real,
    pub y: Real,
}

impl View for Point {
    type V = Vec2;

    open spec fn view(&self) -> Vec2 {
        Vec2 { x: self.x as int, y: self.y as int }
    }
}

impl Vector {
    pub fn new(x: Real, y: Real) -> (r: Vector)
        ensures
            r.x == x,
            r.y == y,
    {
        Vector { x, y }
    }
}

impl Point {
    pub fn new(x: Real, y: Real) -> (r: Point)
        ensures
            r.x == x,
            r.y == y,
    {
        Point { x, y }
    }

    pub fn origin() -> (r: Point)
        ensures
            r.x == 0,
            r.y == 0,
    {
        Point { x: 0, y: 0 }
    }
}

/// Squared Euclidean distance between two points.
pub fn distance_squared(p: &Point, q: &Point) -> (d: Real)
    requires
        p@.bounded(REACH_MAX as int),
        q@.bounded(REACH_MAX as int),
    ensures
        d == distance_squared_spec(p@, q@),
        0 <= d,
{
    let dx: Real = p.x - q.x;
    let dy: Real = p.y - q.y;
    assert(0 <= dx * dx <= 0x3fff_ffff_0000_0004 && 0 <= dy * dy <= 0x3fff_ffff_0000_0004)
        by (nonlinear_arith)
        requires
            -0x7fff_fffe <= dx <= 0x7fff_fffe,
            -0x7fff_fffe <= dy <= 0x7fff_fffe,
    ;
    dx * dx + dy * dy
}

/// The point of the lattice with these coordinates, where a `Real` holds
/// them.
pub open spec fn lattice_point(p: Vec2) -> Point {
    Point { x: p.x as Real, y: p.y as Real }
}

/// The displacement of the lattice with these components, where a `Real`
/// holds them.
pub open spec fn lattice_vector(v: Vec2) -> Vector {
    Vector { x: v.x as Real, y: v.y as Real }
}

/// A rotation of the plane that maps the lattice onto itself: a number of
/// counter-clockwise quarter turns.
#[derive(Clone, Copy, Debug, PartialEq, Eq, Structural)]
pub enum Rotation {
    Identity,
    Quarter,
    Half,
    ThreeQuarters,
}

impl Rotation {
    /// The displacement `v`, turned.
    pub open spec fn apply(self, v: Vec2) -> Vec2 {
        match self {
            Rotation::Identity => v,
            Rotation::Quarter => Vec2 { x: -v.y, y: v.x },
            Rotation::Half => Vec2 { x: -v.x, y: -v.y },
            Rotation::ThreeQuarters => Vec2 { x: v.y, y: -v.x },
        }
    }

    /// The rotation that undoes this one.
    pub open spec fn inverse_spec(self) -> Rotation {
        match self {
            Rotation::Identity => Rotation::Identity,
            Rotation::Quarter => Rotation::ThreeQuarters,
            Rotation::Half => Rotation::Half,
            Rotation::ThreeQuarters => Rotation::Quarter,
        }
    }

    /// The number of quarter turns, from zero to three.
    pub open spec fn turns(self) -> int {
        match self {
            Rotation::Identity => 0,
            Rotation::Quarter => 1,
            Rotation::Half => 2,
            Rotation::ThreeQuarters => 3,
        }
    }

    /// The rotation by `n` quarter turns.
    pub open spec fn from_turns(n: int) -> Rotation {
        let k = n % 4;
        if k == 0 {
            Rotation::Identity
        } else if k == 1 {
            Rotation::Quarter
        } else if k == 2 {
            Rotation::Half
        } else {
            Rotation::ThreeQuarters
        }
    }

    /// The rotation that turns by `rhs` first and by `self` after it.
    pub open spec fn after_spec(self, rhs: Rotation) -> Rotation {
        Rotation::from_turns(self.turns() + rhs.turns())
    }

    /// The rotation that undoes this one.
    pub fn inverse(&self) -> (r: Rotation)
        ensures
            r == self.inverse_spec(),
    {
        match self {
            Rotation::Identity => Rotation::Identity,
            Rotation::Quarter => Rotation::ThreeQuarters,
            Rotation::Half => Rotation::Half,
            Rotation::ThreeQuarters => Rotation::Quarter,
        }
    }

    fn quarter_more(&self) -> (r: Rotation)
        ensures
            r == Rotation::Quarter.after_spec(*self),
    {
        match self {
            Rotation::Identity => Rotation::Quarter,
            Rotation::Quarter => Rotation::Half,
            Rotation::Half => Rotation::ThreeQuarters,
            Rotation::ThreeQuarters => Rotation::Identity,
        }
    }

    /// The rotation that turns by `rhs` first and by `self` after it.
    pub fn after(&self, rhs: &Rotation) -> (r: Rotation)
        ensures
            r == self.after_spec(*rhs),
    {
        match self {
            Rotation::Identity => *rhs,
            Rotation::Quarter => rhs.quarter_more(),
            Rotation::Half => rhs.quarter_more().quarter_more(),
            Rotation::ThreeQuarters => rhs.quarter_more().quarter_more().quarter_more(),
        }
    }

    /// Turns a displacement.
    pub fn rotate(&self, v: &Vector) -> (r: Vector)
        requires
            v@.bounded(Real::MAX as int),
        ensures
            r@ == self.apply(v@),
    {
        match self {
            Rotation::Identity => *v,
            Rotation::Quarter => Vector { x: -v.y, y: v.x },
            Rotation::Half => Vector { x: -v.x, y: -v.y },
            Rotation::ThreeQuarters => Vector { x: v.y, y: -v.x },
        }
    }
}

/// The mathematical value of an [`Isometry`]: the map `p -> rotation(p) +
/// translation`.
pub struct Rigid {
    pub rotation: Rotation,
    pub translation: Vec2,
}

impl Rigid {
    /// The image of the point `p`.
    pub open spec fn apply(self, p: Vec2) -> Vec2 {
        self.rotation.apply(p).plus(self.translation)
    }

    /// The motion that undoes this one.
    pub open spec fn inverse(self) -> Rigid {
        Rigid {
            rotation: self.rotation.inverse_spec(),
            translation: self.rotation.inverse_spec().apply(self.translation).negated(),
        }
    }

    /// The motion `self.inverse()` after `rhs`.
    pub open spec fn inv_mul(self, rhs: Rigid) -> Rigid {
        Rigid {
            rotation: self.rotation.inverse_spec().after_spec(rhs.rotation),
            translation: self.rotation.inverse_spec().apply(
                rhs.translation.minus(self.translation),
            ),
        }
    }

    /// Both components of the translation have magnitude at most `b`.
    pub open spec fn bounded(self, b: int) -> bool {
        self.translation.bounded(b)
    }
}

/// A rigid motion of the lattice: a rotation by quarter turns followed by a
/// translation.
#[derive(Clone, Copy, Debug, PartialEq, Eq, Structural)]
pub struct Isometry {
    pub rotation: Rotation,
    pub translation: Vector,
}

impl View for Isometry {
    type V = Rigid;

    open spec fn view(&self) -> Rigid {
        Rigid { rotation: self.rotation, translation: self.translation@ }
    }
}

impl Isometry {
    /// The motion that turns by `rotation` and then moves by `translation`.
    pub fn new(translation: Vector, rotation: Rotation) -> (r: Isometry)
        ensures
            r.rotation == rotation,
            r.translation == translation,
    {
        Isometry { rotation, translation }
    }

    /// The motion that leaves every point in place.
    pub fn identity() -> (r: Isometry)
        ensures
            r@ == (Rigid { rotation: Rotation::Identity, translation: Vec2 { x: 0, y: 0 } }),
    {
        Isometry { rotation: Rotation::Identity, translation: Vector { x: 0, y: 0 } }
    }

    /// The motion that moves every point by `(x, y)`.
    pub fn translation(x: Real, y: Real) -> (r: Isometry)
        ensures
            r@ == (Rigid { rotation: Rotation::Identity, translation: Vec2 { x: x as int, y: y as int } }),
    {
        Isometry { rotation: Rotation::Identity, translation: Vector { x, y } }
    }

    /// The motion that undoes this one, as a motion of the lattice. Its
    /// value is `self@.inverse()` wherever that value has a translation that
    /// a `Vector` holds.
    pub open spec fn inverse_spec(&self) -> Isometry {
        Isometry {
            rotation: self.rotation.inverse_spec(),
            translation: lattice_vector(self@.inverse().translation),
        }
    }

    /// The motion that undoes this one.
    pub fn inverse(&self) -> (r: Isometry)
        requires
            self@.bounded(HALF_RANGE as int),
        ensures
            r@ == self@.inverse(),
            r == self.inverse_spec(),
    {
        let inv = self.rotation.inverse();
        let t = inv.rotate(&self.translation);
        Isometry { rotation: inv, translation: Vector { x: -t.x, y: -t.y } }
    }

    /// The motion `self.inverse()` after `rhs`, which maps the frame of `rhs`
    /// into the frame of `self`.
    pub fn inv_mul(&self, rhs: &Isometry) -> (r: Isometry)
        requires
            self@.bounded(HALF_RANGE as int),
            rhs@.bounded(HALF_RANGE as int),
        ensures
            r@ == self@.inv_mul(rhs@),
    {
        let inv = self.rotation.inverse();
        let d = Vector {
            x: rhs.translation.x - self.translation.x,
            y: rhs.translation.y - self.translation.y,
        };
        Isometry { rotation: inv.after(&rhs.rotation), translation: inv.rotate(&d) }
    }

    /// The image of `p`, as a point of the lattice. It is the point whose
    /// value is `self@.apply(p@)` wherever that value has coordinates that a
    /// `Real` holds.
    pub open spec fn transform_point_spec(&self, p: Point) -> Point {
        lattice_point(self@.apply(p@))
    }

    /// The image of the point `p`.
    pub fn transform_point(&self, p: &Point) -> (r: Point)
        requires
            self@.bounded(HALF_RANGE as int),
            p@.bounded(HALF_RANGE as int),
        ensures
            r@ == self@.apply(p@),
            r == self.transform_point_spec(*p),
    {
        let v = self.rotation.rotate(&Vector { x: p.x, y: p.y });
        Point { x: v.x + self.translation.x, y: v.y + self.translation.y }
    }
}

/// Turning by the sum of two rotations is turning by one after the other.
pub proof fn lemma_after_applies_both(a: Rotation, b: Rotation, v: Vec2)
    ensures
        a.after_spec(b).apply(v) == a.apply(b.apply(v)),
{
}

/// A rotation and its inverse undo each other.
pub proof fn lemma_rotation_inverse(a: Rotation, v: Vec2)
    ensures
        a.apply(a.inverse_spec().apply(v)) == v,
        a.inverse_spec().apply(a.apply(v)) == v,
        a.inverse_spec().inverse_spec() == a,
{
}

/// Rotations keep sums, differences and magnitudes.
pub proof fn lemma_rotation_is_linear(a: Rotation, u: Vec2, v: Vec2)
    ensures
        a.apply(u.plus(v)) == a.apply(u).plus(a.apply(v)),
        a.apply(u.minus(v)) == a.apply(u).minus(a.apply(v)),
        a.apply(u.negated()) == a.apply(u).negated(),
        a.apply(u).norm_squared() == u.norm_squared(),
        forall|b: int| u.bounded(b) ==> a.apply(u).bounded(b),
{
    assert((-u.x) * (-u.x) == u.x * u.x) by (nonlinear_arith);
    assert((-u.y) * (-u.y) == u.y * u.y) by (nonlinear_arith);
}

/// The inverse of a motion undoes it, and is undone by it.
pub proof fn lemma_inverse_undoes(m: Rigid, p: Vec2)
    ensures
        m.inverse().apply(m.apply(p)) == p,
        m.apply(m.inverse().apply(p)) == p,
        m.inverse().inverse() == m,
{
    lemma_rotation_inverse(m.rotation, p);
    lemma_rotation_inverse(m.rotation, m.translation);
    lemma_rotation_is_linear(m.rotation.inverse_spec(), m.rotation.apply(p), m.translation);
    lemma_rotation_is_linear(m.rotation, m.rotation.inverse_spec().apply(p), m.rotation.inverse_spec().apply(m.translation));
    lemma_rotation_is_linear(
        m.rotation,
        m.rotation.inverse_spec().apply(m.translation),
        Vec2 { x: 0, y: 0 },
    );
}

/// `a.inv_mul(b)` maps a point as `b` followed by the inverse of `a` does.
pub proof fn lemma_inv_mul_applies(a: Rigid, b: Rigid, p: Vec2)
    ensures
        a.inv_mul(b).apply(p) == a.inverse().apply(b.apply(p)),
        a.apply(a.inv_mul(b).apply(p)) == b.apply(p),
        a.bounded(COORD_MAX as int) && b.bounded(COORD_MAX as int) ==> a.inv_mul(b).bounded(
            WORLD_MAX as int,
        ),
{
    let inv = a.rotation.inverse_spec();
    lemma_after_applies_both(inv, b.rotation, p);
    lemma_rotation_is_linear(inv, b.rotation.apply(p), b.translation);
    lemma_rotation_is_linear(inv, b.translation, a.translation);
    lemma_rotation_is_linear(inv, b.rotation.apply(p).plus(b.translation), a.translation);
    lemma_inverse_undoes(a, b.apply(p));
}

/// A rigid motion keeps the distance between two points.
pub proof fn lemma_motion_keeps_distance(m: Rigid, p: Vec2, q: Vec2)
    ensures
        distance_squared_spec(m.apply(p), m.apply(q)) == distance_squared_spec(p, q),
{
    lemma_rotation_is_linear(m.rotation, p, q);
    lemma_rotation_is_linear(m.rotation, p.minus(q), q);
    assert(m.apply(p).minus(m.apply(q)) == m.rotation.apply(p.minus(q)));
}

} // verus!
