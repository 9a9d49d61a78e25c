//! The scene's primitive shape and the ray that is marched through it.

use vstd::prelude::*;
use crate::arith::{UNIT, floor_sqrt, isqrt, lemma_floor_sqrt_of_square};
use crate::linear::{Vector, COORD_LIMIT, POINT_LIMIT, VECTOR_LIMIT};

verus! {

/// A sphere of whole-unit radius. Spheres that share an `id` form a group
/// whose members never shadow one another.
pub struct Sphere {
    pub radius: u32,
    pub id: u32,
    pub center: Vector<i64>,
}

impl Sphere {
    /// The signed distance from `p` to the surface: negative inside.
    pub open spec fn distance_at(self, p: Vector<int>) -> int {
        self.center@.minus(p).length() - self.radius as int * UNIT as int
    }

    /// The signed distance from `p` in fine counts (`DETAIL` to a count),
    /// rounded down.
    pub open spec fn fine_distance_at(self, p: Vector<int>) -> int {
        floor_sqrt(self.center@.minus(p).norm_sq() * (DETAIL * DETAIL)) - self.radius as int * UNIT as int
            * DETAIL as int
    }

    /// The center and the radius lie within the scene's coordinate bound.
    pub open spec fn placed(self) -> bool {
        &&& self.center@.bounded(COORD_LIMIT as int)
        &&& self.radius as int * UNIT as int <= COORD_LIMIT
    }

    pub fn new(radius: u32, point: Vector<i64>, id: u32) -> (r: Sphere)
        ensures
            r.radius == radius,
            r.center == point,
            r.id == id,
    {
        Sphere { radius, center: point, id }
    }

    /// Signed distance from `point` to the surface of the sphere.
    pub fn sdf(&self, point: &Vector<i64>) -> (r: i64)
        requires
            self.placed(),
            point@.bounded(POINT_LIMIT as int),
        ensures
            r as int == self.distance_at(point@),
            -(self.radius as int * UNIT as int) <= r < 2 * (COORD_LIMIT + POINT_LIMIT),
    {
        let d: Vector<i64> = self.center.sub(*point);
        let l: i64 = d.len();
        proof {
            lemma_length_below(d@, COORD_LIMIT + POINT_LIMIT);
        }
        l - self.radius as i64 * UNIT
    }
}

/// Bound on the points at which fine distances are taken (2^42 counts).
pub const FINE_POINT_LIMIT: i64 = 4_398_046_511_104;

/// Fine counts to one count.
pub const DETAIL: i64 = 10_000;

impl Sphere {
    /// Signed distance from `point` to the surface, in fine counts.
    pub fn fine_sdf(&self, point: &Vector<i64>) -> (r: i64)
        requires
            self.placed(),
            point@.bounded(FINE_POINT_LIMIT as int - COORD_LIMIT),
        ensures
            r as int == self.fine_distance_at(point@),
            -0x40_0000_0000_0000 <= r < 0x200_0000_0000_0000,
    {
        let d: Vector<i64> = self.center.sub(*point);
        let (x, y, z) = (d.x as i128, d.y as i128, d.z as i128);
        let ghost b = FINE_POINT_LIMIT as int;
        proof {
            assert(0 <= x * x <= b * b && 0 <= y * y <= b * b && 0 <= z * z <= b * b) by (nonlinear_arith)
                requires
                    -b <= x <= b,
                    -b <= y <= b,
                    -b <= z <= b,
            ;
        }
        let n: i128 = x * x + y * y + z * z;
        let f: i128 = 100_000_000;
        assert(f == DETAIL * DETAIL);
        proof {
            assert(n * f < 0x2_0000_0000_0000_0000_0000_0000_0000) by (nonlinear_arith)
                requires
                    0 <= n <= 3 * (b * b),
                    b == 0x400_0000_0000,
                    f == 100_000_000,
            ;
            assert(0 <= n * f) by (nonlinear_arith)
                requires
                    0 <= n,
                    f == 100_000_000,
            ;
        }
        let root: u64 = isqrt(n as u128 * f as u128);
        proof {
            if root >= 0x200_0000_0000_0000 {
                assert(root * root >= 0x200_0000_0000_0000 * 0x200_0000_0000_0000) by (nonlinear_arith)
                    requires
                        root >= 0x200_0000_0000_0000,
                ;
            }
            assert(self.radius as int * UNIT as int * DETAIL as int <= COORD_LIMIT * DETAIL) by (nonlinear_arith)
                requires
                    self.radius as int * UNIT as int <= COORD_LIMIT,
            ;
        }
        root as i64 - self.radius as i64 * UNIT * DETAIL
    }
}

/// The length of a vector bounded by `b` stays under `2 * b`.
pub proof fn lemma_length_below(v: Vector<int>, b: int)
    requires
        0 < b,
        v.bounded(b),
    ensures
        0 <= v.length() < 2 * b,
{
    let n = v.norm_sq();
    assert(v.x * v.x <= b * b && v.y * v.y <= b * b && v.z * v.z <= b * b) by (nonlinear_arith)
        requires
            v.bounded(b),
    ;
    assert(3 * (b * b) < (2 * b) * (2 * b)) by (nonlinear_arith)
        requires
            0 < b,
    ;
    assert(0 <= v.x * v.x && 0 <= v.y * v.y && 0 <= v.z * v.z) by (nonlinear_arith);
    crate::arith::lemma_floor_root_exists(n);
    crate::arith::lemma_floor_sqrt_bounds(n, 0);
    let l = v.length();
    assert(crate::arith::is_floor_root(n, l));
    if l >= 2 * b {
        assert((2 * b) * (2 * b) <= l * l) by (nonlinear_arith)
            requires
                2 * b <= l,
                0 <= b,
        ;
    }
}

/// The distance of a sphere at its own center is minus its radius, and at a
/// point lying `d` units (in fixed point) from the center it is `d` minus the
/// radius.
pub proof fn lemma_sphere_distance(s: Sphere, p: Vector<int>, d: int)
    requires
        0 <= d,
        s.center@.minus(p).norm_sq() == d * d,
    ensures
        s.distance_at(s.center@) == -(s.radius as int * UNIT as int),
        s.distance_at(p) == d - s.radius as int * UNIT as int,
{
    lemma_floor_sqrt_of_square(0);
    assert(s.center@.minus(s.center@).norm_sq() == 0);
    lemma_floor_sqrt_of_square(d);
}

/// A half-line: it starts at `position` and runs along `direction`.
pub struct Ray {
    pub direction: Vector<i64>,
    pub position: Vector<i64>,
}

impl Ray {
    pub fn new(direction: Vector<i64>, position: Vector<i64>) -> (r: Ray)
        ensures
            r.direction == direction,
            r.position == position,
    {
        Ray { direction, position }
    }

    /// Scales the direction to unit length (a zero direction stays zero).
    pub fn normalize(&mut self)
        requires
            old(self).direction@.bounded(VECTOR_LIMIT as int),
        ensures
            final(self).direction@ == old(self).direction@.normalized(),
            final(self).direction@.bounded(UNIT as int),
            final(self).position == old(self).position,
    {
        self.direction = self.direction.normalize();
    }
}

} // verus!
