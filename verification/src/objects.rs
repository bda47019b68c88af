//! What the primitives decide by comparing numbers: which roots a sphere
//! reports and in which order, when a ray counts as parallel to a plane
//! or a triangle, whether it crosses a triangle inside, which interval
//! of a ray lies inside a cube, and along which axis the normal of a cube
//! points.
//!
//! A number is given by its key: an integer that is negative, zero or
//! positive as the number is, and ordered as the numbers are; see the
//! module `key`.

use vstd::prelude::*;
use crate::key::{EPSILON, ONE};
use crate::world::Roots;

verus! {

/// The key of the slope below which a ray counts as parallel to a plane:
/// one hundred-thousandth.
pub const PLANE_PARALLEL: i64 = 0x3727_c5ac;

/// The key of the determinant below which a ray counts as parallel to a
/// triangle: one thousandth.
pub const TRI_PARALLEL: i64 = 0x3a83_126f;

/// The axes of space.
#[derive(Copy, Clone, Debug, PartialEq, Eq, Structural)]
pub enum Axis {
    X,
    Y,
    Z,
}

/// The unit sphere at the origin.
#[derive(Copy, Clone, Debug)]
pub struct Sphere {}

/// The cube that reaches from minus one to one along every axis.
#[derive(Copy, Clone, Debug)]
pub struct Cube {}

/// The plane through the origin across the y axis.
#[derive(Copy, Clone, Debug)]
pub struct Plane {}

/// A triangle.
#[derive(Copy, Clone, Debug)]
pub struct Tri {}

/// The lesser of the two ends of a pair.
pub open spec fn lo(p: (i64, i64)) -> i64 {
    if p.0 > p.1 {
        p.1
    } else {
        p.0
    }
}

/// The greater of the two ends of a pair.
pub open spec fn hi(p: (i64, i64)) -> i64 {
    if p.0 > p.1 {
        p.0
    } else {
        p.1
    }
}

/// The greatest of three keys.
pub open spec fn max3(a: i64, b: i64, c: i64) -> i64 {
    if a >= b && a >= c {
        a
    } else if b >= c {
        b
    } else {
        c
    }
}

/// The least of three keys.
pub open spec fn min3(a: i64, b: i64, c: i64) -> i64 {
    if a <= b && a <= c {
        a
    } else if b <= c {
        b
    } else {
        c
    }
}

/// Whether `t` lies between the two ends of a pair, ends included.
pub open spec fn between(p: (i64, i64), t: i64) -> bool {
    lo(p) <= t <= hi(p)
}

fn ordered(p: (i64, i64)) -> (r: (i64, i64))
    ensures
        r == (lo(p), hi(p)),
{
    if p.0 > p.1 {
        (p.1, p.0)
    } else {
        p
    }
}

fn greatest(a: i64, b: i64, c: i64) -> (m: i64)
    ensures
        m == max3(a, b, c),
{
    if a >= b && a >= c {
        a
    } else if b >= c {
        b
    } else {
        c
    }
}

fn least(a: i64, b: i64, c: i64) -> (m: i64)
    ensures
        m == min3(a, b, c),
{
    if a <= b && a <= c {
        a
    } else if b <= c {
        b
    } else {
        c
    }
}

impl Sphere {
    /// The roots of a ray against the sphere: see [`Sphere::intersect`].
    pub open spec fn spec_intersect(discriminant: i64, t1: i64, t2: i64) -> Roots {
        if discriminant < 0 {
            Roots::Miss
        } else {
            Roots::Pair(lo((t1, t2)), hi((t1, t2)))
        }
    }

    /// The roots of a ray against the sphere, from the discriminant of
    /// its quadratic equation and the two solutions: none where the
    /// discriminant is negative, else both solutions, the lesser first.
    /// A ray that touches the sphere has the same root twice.
    pub fn intersect(discriminant: i64, t1: i64, t2: i64) -> (r: Roots)
        ensures
            r == Sphere::spec_intersect(discriminant, t1, t2),
    {
        if discriminant < 0 {
            return Roots::Miss;
        }
        let (a, b) = ordered((t1, t2));
        Roots::Pair(a, b)
    }
}

impl Plane {
    /// The root of a ray against the plane.
    ///
    /// `slope` is the key of the size of the part of the direction that
    /// leads towards the plane, and `t` the key of the distance at which
    /// the ray crosses the plane. A ray whose slope is below
    /// [`PLANE_PARALLEL`] counts as parallel: it misses the plane, also
    /// where it lies in it.
    pub fn intersect(slope: i64, t: i64) -> (r: Roots)
        ensures
            r == if slope < PLANE_PARALLEL {
                Roots::Miss
            } else {
                Roots::Single(t, None)
            },
    {
        if slope < PLANE_PARALLEL {
            Roots::Miss
        } else {
            Roots::Single(t, None)
        }
    }
}

impl Tri {
    /// Whether a ray crosses the plane of the triangle inside the
    /// triangle, from the keys of the size of the determinant, of the two
    /// coordinates of the crossing in the triangle, and of their sum. A
    /// ray with a determinant below [`TRI_PARALLEL`] counts as parallel.
    /// Inside, neither coordinate is negative and their sum is not above
    /// one.
    pub open spec fn spec_hits(determinant: i64, u: i64, v: i64, u_plus_v: i64) -> bool {
        &&& determinant >= TRI_PARALLEL
        &&& 0 <= u <= ONE
        &&& 0 <= v
        &&& u_plus_v <= ONE
    }

    /// The root of a ray against the triangle: the distance `t` with the
    /// coordinates `uv` of the crossing where the ray crosses the plane
    /// of the triangle inside the triangle, and none where it counts as
    /// parallel or crosses outside.
    pub fn intersect(determinant: i64, u: i64, v: i64, u_plus_v: i64, t: i64, uv: (u32, u32)) -> (r:
        Roots)
        ensures
            r == if Tri::spec_hits(determinant, u, v, u_plus_v) {
                Roots::Single(t, Some(uv))
            } else {
                Roots::Miss
            },
    {
        if determinant < TRI_PARALLEL {
            return Roots::Miss;
        }
        if u < 0 || u > ONE {
            return Roots::Miss;
        }
        if v < 0 || u_plus_v > ONE {
            return Roots::Miss;
        }
        Roots::Single(t, Some(uv))
    }
}

impl Cube {
    /// Whether a ray runs along a pair of faces of the cube, from the key
    /// of the size of the part of its direction that leads across them:
    /// it does where that size is below [`EPSILON`]. Such a ray never
    /// crosses the two faces.
    pub fn runs_along_faces(direction_size: i64) -> (b: bool)
        ensures
            b == (direction_size < EPSILON),
    {
        direction_size < EPSILON
    }

    /// The roots of a ray against the cube, from the two distances at
    /// which the ray crosses the pair of faces across each axis.
    ///
    /// The ray is inside the cube where it is between the faces of all
    /// three axes: from the last of the three entries to the first of the
    /// three exits. Where the last entry lies behind the first exit the
    /// ray misses the cube.
    pub fn intersect(x: (i64, i64), y: (i64, i64), z: (i64, i64)) -> (r: Roots)
        ensures
            r == Cube::spec_intersect(x, y, z),
    {
        let (xtmin, xtmax) = ordered(x);
        let (ytmin, ytmax) = ordered(y);
        let (ztmin, ztmax) = ordered(z);
        let tmin = greatest(xtmin, ytmin, ztmin);
        let tmax = least(xtmax, ytmax, ztmax);
        if tmin > tmax {
            Roots::Miss
        } else {
            Roots::Pair(tmin, tmax)
        }
    }

    /// The roots of a ray against the cube: see [`Cube::intersect`].
    pub open spec fn spec_intersect(x: (i64, i64), y: (i64, i64), z: (i64, i64)) -> Roots {
        let tmin = max3(lo(x), lo(y), lo(z));
        let tmax = min3(hi(x), hi(y), hi(z));
        if tmin > tmax {
            Roots::Miss
        } else {
            Roots::Pair(tmin, tmax)
        }
    }

    /// The axis along which the normal at a point of the surface points,
    /// from the sizes of the three coordinates of the point: the axis of
    /// the greatest, and of equal ones the first.
    pub fn normal(x: i64, y: i64, z: i64) -> (a: Axis)
        ensures
            a == if x >= y && x >= z {
                Axis::X
            } else if y >= z {
                Axis::Y
            } else {
                Axis::Z
            },
    {
        let maxc = greatest(x, y, z);
        if maxc == x {
            Axis::X
        } else if maxc == y {
            Axis::Y
        } else {
            Axis::Z
        }
    }
}

/// A ray from the centre of the sphere leaves it at opposite distances:
/// where the two solutions are opposite numbers, the roots are opposite
/// too, the negative one first.
pub proof fn lemma_roots_from_the_centre(discriminant: i64, t: i64)
    requires
        discriminant >= 0,
        t > i64::MIN,
    ensures
        ({
            let a: i64 = if t < 0 {
                t
            } else {
                (-t) as i64
            };
            Sphere::spec_intersect(discriminant, t, (-t) as i64) == Roots::Pair(a, (-a) as i64)
                && a <= 0
        }),
{
}

/// The roots of a cube bound the part of the ray that is between the
/// faces of all three axes: a distance lies between the two roots exactly
/// when it lies between the crossings of every axis, and where the ray
/// misses no distance does.
pub proof fn lemma_cube_roots_bound_the_inside(
    x: (i64, i64),
    y: (i64, i64),
    z: (i64, i64),
    t: i64,
)
    ensures
        between(x, t) && between(y, t) && between(z, t) <==> match Cube::spec_intersect(x, y, z) {
            Roots::Pair(tmin, tmax) => tmin <= t <= tmax,
            _ => false,
        },
{
}

/// The roots of a cube are in ascending order, and each is one of the
/// crossings that were given.
pub proof fn lemma_cube_roots_are_crossings(x: (i64, i64), y: (i64, i64), z: (i64, i64))
    ensures
        match Cube::spec_intersect(x, y, z) {
            Roots::Pair(tmin, tmax) => {
                &&& tmin <= tmax
                &&& tmin == x.0 || tmin == x.1 || tmin == y.0 || tmin == y.1 || tmin == z.0 || tmin
                    == z.1
                &&& tmax == x.0 || tmax == x.1 || tmax == y.0 || tmax == y.1 || tmax == z.0 || tmax
                    == z.1
            },
            Roots::Miss => true,
            Roots::Single(_, _) => false,
        },
{
}

} // verus!
