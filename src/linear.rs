//! Three-component vectors over fixed-point coordinates.
//!
//! An executable `Vector<i64>` is viewed as a `Vector<int>`; every operation
//! is stated over that mathematical view. Divisions round toward negative
//! infinity.

use vstd::prelude::*;
use crate::arith::{UNIT, floor_sqrt, isqrt, div_floor, lemma_floor_sqrt_bounds};

verus! {

/// Bound on the coordinates a scene is built from (2^40 counts).
pub const COORD_LIMIT: i64 = 1_099_511_627_776;

/// Bound on the points at which distances are evaluated (2^46 counts).
pub const POINT_LIMIT: i64 = 70_368_744_177_664;

/// Bound on the vectors whose length can be taken (2^60 counts).
pub const VECTOR_LIMIT: i64 = 1_152_921_504_606_846_976;

/// Squared lengths below this (2^88) are normalized at sub-count precision.
pub const FINE_LIMIT: u128 = 309_485_009_821_345_068_724_781_056;

/// A triple of coordinates.
#[derive(Debug, Copy, Clone, PartialEq, Eq)]
pub struct Vector<T> {
    pub x: T,
    pub y: T,
    pub z: T,
}

impl<T> Vector<T> {
    pub fn new(x: T, y: T, z: T) -> (r: Self)
        ensures
            r.x == x,
            r.y == y,
            r.z == z,
    {
        Vector { x, y, z }
    }
}

impl View for Vector<i64> {
    type V = Vector<int>;

    open spec fn view(&self) -> Vector<int> {
        Vector { x: self.x as int, y: self.y as int, z: self.z as int }
    }
}

impl Vector<int> {
    pub open spec fn zero() -> Vector<int> {
        Vector { x: 0, y: 0, z: 0 }
    }

    /// Every component lies in `[-b, b]`.
    pub open spec fn bounded(self, b: int) -> bool {
        -b <= self.x <= b && -b <= self.y <= b && -b <= self.z <= b
    }

    /// Every component fits an `i64`.
    pub open spec fn fits(self) -> bool {
        i64::MIN <= self.x <= i64::MAX && i64::MIN <= self.y <= i64::MAX && i64::MIN <= self.z
            <= i64::MAX
    }

    pub open spec fn plus(self, o: Vector<int>) -> Vector<int> {
        Vector { x: self.x + o.x, y: self.y + o.y, z: self.z + o.z }
    }

    pub open spec fn minus(self, o: Vector<int>) -> Vector<int> {
        Vector { x: self.x - o.x, y: self.y - o.y, z: self.z - o.z }
    }

    pub open spec fn negated(self) -> Vector<int> {
        Vector { x: -self.x, y: -self.y, z: -self.z }
    }

    /// Multiplication by the fixed-point scalar `k`.
    pub open spec fn scaled(self, k: int) -> Vector<int> {
        Vector { x: self.x * k / UNIT as int, y: self.y * k / UNIT as int, z: self.z * k / UNIT as int }
    }

    /// Division by the non-zero fixed-point scalar `k`, rounded down.
    pub open spec fn divided(self, k: int) -> Vector<int> {
        Vector {
            x: floor_quotient(self.x * UNIT as int, k),
            y: floor_quotient(self.y * UNIT as int, k),
            z: floor_quotient(self.z * UNIT as int, k),
        }
    }

    /// Component-wise division by the non-zero components of `o`, rounded down.
    pub open spec fn divided_by(self, o: Vector<int>) -> Vector<int> {
        Vector {
            x: floor_quotient(self.x * UNIT as int, o.x),
            y: floor_quotient(self.y * UNIT as int, o.y),
            z: floor_quotient(self.z * UNIT as int, o.z),
        }
    }

    /// Fixed-point dot product.
    pub open spec fn dot(self, o: Vector<int>) -> int {
        (self.x * o.x + self.y * o.y + self.z * o.z) / UNIT as int
    }

    pub open spec fn norm_sq(self) -> int {
        self.x * self.x + self.y * self.y + self.z * self.z
    }

    /// Euclidean length, rounded down.
    pub open spec fn length(self) -> int {
        floor_sqrt(self.norm_sq())
    }

    /// Each component times `UNIT`, divided by the length (rounded down);
    /// zero where the length is zero.
    pub open spec fn divided_by_length(self) -> Vector<int> {
        let l = self.length();
        if l == 0 {
            Vector::<int>::zero()
        } else {
            Vector {
                x: self.x * UNIT as int / l,
                y: self.y * UNIT as int / l,
                z: self.z * UNIT as int / l,
            }
        }
    }

    /// Every component times `UNIT`.
    pub open spec fn times_unit(self) -> Vector<int> {
        Vector { x: self.x * UNIT as int, y: self.y * UNIT as int, z: self.z * UNIT as int }
    }

    /// The vector scaled to length `UNIT`, the zero vector to itself. The
    /// length is taken to a millionth of a count wherever that square fits
    /// 128 bits (below `FINE_LIMIT`), else to a count.
    pub open spec fn normalized(self) -> Vector<int> {
        if self.norm_sq() < FINE_LIMIT {
            self.times_unit().divided_by_length()
        } else {
            self.divided_by_length()
        }
    }
}

/// `a / b` rounded toward negative infinity, for `b != 0`.
pub open spec fn floor_quotient(a: int, b: int) -> int {
    if b > 0 {
        a / b
    } else {
        (-a) / (-b)
    }
}

/// `a * UNIT / b` rounded down, computed exactly.
fn fixed_quotient(a: i64, b: i64) -> (r: i128)
    requires
        b != 0,
    ensures
        r as int == floor_quotient(a as int * UNIT as int, b as int),
{
    let n: i128 = a as i128 * UNIT as i128;
    assert(-0x1_0000_0000_0000_0000_0000_0000 < n < 0x1_0000_0000_0000_0000_0000_0000) by (nonlinear_arith)
        requires
            n == a as int * 1_000_000,
            i64::MIN <= a <= i64::MAX,
    ;
    if b > 0 {
        div_floor(n, b as i128)
    } else {
        div_floor(-n, -(b as i128))
    }
}

/// `len <= 2^61` for every vector bounded by 2^60, and the length bounds each
/// component.
proof fn lemma_length_facts(v: Vector<int>)
    requires
        v.bounded(VECTOR_LIMIT as int),
    ensures
        0 <= v.length() <= 2 * VECTOR_LIMIT,
        -v.length() <= v.x <= v.length(),
        -v.length() <= v.y <= v.length(),
        -v.length() <= v.z <= v.length(),
        v.norm_sq() <= 3 * VECTOR_LIMIT * VECTOR_LIMIT,
{
    let b = VECTOR_LIMIT as int;
    assert(v.x * v.x <= b * b && v.y * v.y <= b * b && v.z * v.z <= b * b) by (nonlinear_arith)
        requires
            v.bounded(b),
    ;
    assert(0 <= v.y * v.y && 0 <= v.z * v.z && 0 <= v.x * v.x) by (nonlinear_arith);
    lemma_floor_sqrt_bounds(v.norm_sq(), v.x);
    lemma_floor_sqrt_bounds(v.norm_sq(), v.y);
    lemma_floor_sqrt_bounds(v.norm_sq(), v.z);
    let n = v.norm_sq();
    assert(3 * (b * b) <= (2 * b) * (2 * b)) by (nonlinear_arith);
    assert(n <= (2 * b) * (2 * b));
    lemma_floor_sqrt_bounds(n, 0);
    if v.length() > 2 * b {
        crate::arith::lemma_floor_root_exists(n);
        assert(crate::arith::is_floor_root(n, v.length()));
        assert((2 * b + 1) * (2 * b + 1) <= v.length() * v.length()) by (nonlinear_arith)
            requires
                2 * b + 1 <= v.length(),
                0 <= b,
        ;
    }
}

/// The length bounds each component, and neither it nor the square is negative.
proof fn lemma_within_length(v: Vector<int>)
    ensures
        0 <= v.norm_sq(),
        0 <= v.length(),
        -v.length() <= v.x <= v.length(),
        -v.length() <= v.y <= v.length(),
        -v.length() <= v.z <= v.length(),
{
    assert(0 <= v.y * v.y && 0 <= v.z * v.z && 0 <= v.x * v.x) by (nonlinear_arith);
    lemma_floor_sqrt_bounds(v.norm_sq(), v.x);
    lemma_floor_sqrt_bounds(v.norm_sq(), v.y);
    lemma_floor_sqrt_bounds(v.norm_sq(), v.z);
}

/// Scaling by `UNIT` scales the squared length by `UNIT^2`.
proof fn lemma_times_unit_norm(v: Vector<int>)
    ensures
        v.times_unit().norm_sq() == (UNIT as int * UNIT as int) * v.norm_sq(),
{
    let u = UNIT as int;
    assert((v.x * u) * (v.x * u) == (u * u) * (v.x * v.x)) by (nonlinear_arith);
    assert((v.y * u) * (v.y * u) == (u * u) * (v.y * v.y)) by (nonlinear_arith);
    assert((v.z * u) * (v.z * u) == (u * u) * (v.z * v.z)) by (nonlinear_arith);
    vstd::arithmetic::mul::lemma_mul_is_distributive_add(u * u, v.x * v.x, v.y * v.y);
    vstd::arithmetic::mul::lemma_mul_is_distributive_add(u * u, v.x * v.x + v.y * v.y, v.z * v.z);
}

/// A normalized vector has components in `[-UNIT, UNIT]`.
pub proof fn lemma_normalized_bounded(v: Vector<int>)
    ensures
        v.normalized().bounded(UNIT as int),
{
    lemma_divided_bounded(v);
    lemma_divided_bounded(v.times_unit());
}

proof fn lemma_divided_bounded(v: Vector<int>)
    ensures
        v.divided_by_length().bounded(UNIT as int),
{
    lemma_within_length(v);
    let l = v.length();
    if l != 0 {
        lemma_unit_quotient(v.x, l);
        lemma_unit_quotient(v.y, l);
        lemma_unit_quotient(v.z, l);
    }
}

proof fn lemma_unit_quotient(a: int, l: int)
    requires
        0 < l,
        -l <= a <= l,
    ensures
        -(UNIT as int) <= a * UNIT as int / l <= UNIT as int,
{
    let u = UNIT as int;
    assert(-l * u <= a * u <= l * u) by (nonlinear_arith)
        requires
            -l <= a <= l,
            u > 0,
    ;
    vstd::arithmetic::div_mod::lemma_div_is_ordered(a * u, l * u, l);
    vstd::arithmetic::div_mod::lemma_div_is_ordered(-l * u, a * u, l);
    assert(l * u / l == u) by {
        vstd::arithmetic::div_mod::lemma_div_by_multiple(u, l);
    }
    assert((-l * u) / l == -u) by {
        assert(-l * u == (-u) * l + 0) by (nonlinear_arith);
        vstd::arithmetic::div_mod::lemma_fundamental_div_mod_converse(-l * u, l, -u, 0);
    }
}

/// One component of a normalization: `n = x * UNIT / l` leaves the remainder
/// `e` in `[0, l)`, which gives `(n l)^2` in terms of `x`.
proof fn lemma_normalized_component(x: int, l: int) -> (e: int)
    requires
        0 < l,
        -l <= x <= l,
    ensures
        0 <= e < l,
        (x * UNIT as int / l) * l == x * UNIT as int - e,
        -(l * l) <= x * e <= l * l,
        0 <= e * e <= l * l,
        ((x * UNIT as int / l) * l) * ((x * UNIT as int / l) * l) == (x * UNIT as int) * (x * UNIT as int)
            - 2 * UNIT as int * (x * e) + e * e,
{
    let u = UNIT as int;
    let n = x * u / l;
    vstd::arithmetic::div_mod::lemma_fundamental_div_mod(x * u, l);
    let e = (x * u) % l;
    assert(n * l == x * u - e) by (nonlinear_arith)
        requires
            x * u == l * n + e,
    ;
    assert(-(l * l) <= x * e <= l * l) by (nonlinear_arith)
        requires
            -l <= x <= l,
            0 <= e < l,
    ;
    assert(0 <= e * e <= l * l) by (nonlinear_arith)
        requires
            0 <= e < l,
    ;
    assert((n * l) * (n * l) == (x * u) * (x * u) - 2 * u * (x * e) + e * e) by (nonlinear_arith)
        requires
            n * l == x * u - e,
    ;
    e
}

/// Every vector but zero normalizes to a length within four counts of `UNIT`.
pub proof fn lemma_normalized_length(v: Vector<int>)
    requires
        v.norm_sq() > 0,
    ensures
        UNIT - 4 <= v.normalized().length() <= UNIT + 4,
{
    let u = UNIT as int;
    if v.norm_sq() < FINE_LIMIT {
        lemma_times_unit_norm(v);
        assert(u * u <= (u * u) * v.norm_sq()) by (nonlinear_arith)
            requires
                v.norm_sq() >= 1,
        ;
        lemma_floor_sqrt_bounds(v.times_unit().norm_sq(), u);
        lemma_divided_length(v.times_unit());
    } else {
        let b = 0x1000_0000_0000int;
        assert(b * b == FINE_LIMIT);
        lemma_floor_sqrt_bounds(v.norm_sq(), b);
        lemma_divided_length(v);
    }
}

/// No normalized vector is longer than four counts over `UNIT`; the zero
/// vector stays zero.
pub proof fn lemma_normalized_length_at_most(v: Vector<int>)
    ensures
        v.normalized().length() <= UNIT + 4,
        v.norm_sq() == 0 ==> v.normalized() == Vector::<int>::zero(),
{
    lemma_within_length(v);
    if v.norm_sq() > 0 {
        lemma_normalized_length(v);
    } else {
        crate::arith::lemma_floor_sqrt_of_square(0);
        assert(v.x == 0 && v.y == 0 && v.z == 0) by (nonlinear_arith)
            requires
                v.x * v.x + v.y * v.y + v.z * v.z == 0,
        ;
        assert(v.times_unit().norm_sq() == 0);
        assert(Vector::<int>::zero().norm_sq() == 0);
    }
}

/// Dividing by the length a vector at least one unit long gives a length
/// within four counts of `UNIT`.
proof fn lemma_divided_length(v: Vector<int>)
    requires
        v.length() >= UNIT,
    ensures
        UNIT - 4 <= v.divided_by_length().length() <= UNIT + 4,
{
    let u = UNIT as int;
    let l = v.length();
    let nn = v.norm_sq();
    lemma_within_length(v);
    crate::arith::lemma_floor_root_exists(nn);
    assert(crate::arith::is_floor_root(nn, l));
    let ex = lemma_normalized_component(v.x, l);
    let ey = lemma_normalized_component(v.y, l);
    let ez = lemma_normalized_component(v.z, l);
    let w = v.divided_by_length();
    let s = w.norm_sq();
    let ax = (w.x * l) * (w.x * l);
    let ay = (w.y * l) * (w.y * l);
    let az = (w.z * l) * (w.z * l);
    assert(s * (l * l) == ax + ay + az) by (nonlinear_arith)
        requires
            s == w.x * w.x + w.y * w.y + w.z * w.z,
            ax == (w.x * l) * (w.x * l),
            ay == (w.y * l) * (w.y * l),
            az == (w.z * l) * (w.z * l),
    ;
    let q = (v.x * ex) + (v.y * ey) + (v.z * ez);
    lemma_times_unit_norm(v);
    assert(l != 0);
    assert(w.x == v.x * u / l && w.y == v.y * u / l && w.z == v.z * u / l);
    assert(ax == (v.x * u) * (v.x * u) - 2 * u * (v.x * ex) + ex * ex);
    assert(ay == (v.y * u) * (v.y * u) - 2 * u * (v.y * ey) + ey * ey);
    assert(az == (v.z * u) * (v.z * u) - 2 * u * (v.z * ez) + ez * ez);
    assert(v.times_unit().norm_sq() == (v.x * u) * (v.x * u) + (v.y * u) * (v.y * u) + (v.z * u) * (v.z * u));
    assert(2 * u * (v.x * ex) + 2 * u * (v.y * ey) + 2 * u * (v.z * ez) == 2 * u * q) by (nonlinear_arith)
        requires
            q == (v.x * ex) + (v.y * ey) + (v.z * ez),
    ;
    assert(s * (l * l) == (u * u) * nn - 2 * u * q + (ex * ex + ey * ey + ez * ez));
    // upper bound
    assert(nn < l * l + 2 * l + 1) by (nonlinear_arith)
        requires
            nn < (l + 1) * (l + 1),
    ;
    assert(s * (l * l) < (u * u + 8 * u + 16) * (l * l)) by (nonlinear_arith)
        requires
            s * (l * l) == (u * u) * nn - 2 * u * q + (ex * ex + ey * ey + ez * ez),
            nn < l * l + 2 * l + 1,
            -3 * (l * l) <= q,
            ex * ex + ey * ey + ez * ez <= 3 * (l * l),
            u <= l,
            0 < u,
    ;
    assert(s < (u + 4) * (u + 4)) by (nonlinear_arith)
        requires
            s * (l * l) < (u * u + 8 * u + 16) * (l * l),
            0 < l,
    ;
    // lower bound
    assert(s * (l * l) >= (u * u - 6 * u) * (l * l)) by (nonlinear_arith)
        requires
            s * (l * l) == (u * u) * nn - 2 * u * q + (ex * ex + ey * ey + ez * ez),
            l * l <= nn,
            q <= 3 * (l * l),
            0 <= ex * ex + ey * ey + ez * ez,
            0 < u,
    ;
    assert(s >= (u - 4) * (u - 4)) by (nonlinear_arith)
        requires
            s * (l * l) >= (u * u - 6 * u) * (l * l),
            0 < l,
            u == 1_000_000,
    ;
    let r = w.length();
    assert(0 <= s) by (nonlinear_arith)
        requires
            s == w.x * w.x + w.y * w.y + w.z * w.z,
    ;
    crate::arith::lemma_floor_root_exists(s);
    assert(crate::arith::is_floor_root(s, r));
    if r > u + 4 {
        assert((u + 4) * (u + 4) <= r * r) by (nonlinear_arith)
            requires
                u + 4 <= r,
                0 < u,
        ;
    }
    if r < u - 4 {
        assert((r + 1) * (r + 1) <= (u - 4) * (u - 4)) by (nonlinear_arith)
            requires
                0 <= r,
                r + 1 <= u - 4,
        ;
    }
}

impl Vector<i64> {
    pub fn add(self, o: Vector<i64>) -> (r: Vector<i64>)
        requires
            self@.plus(o@).fits(),
        ensures
            r@ == self@.plus(o@),
    {
        Vector { x: self.x + o.x, y: self.y + o.y, z: self.z + o.z }
    }

    pub fn sub(self, o: Vector<i64>) -> (r: Vector<i64>)
        requires
            self@.minus(o@).fits(),
        ensures
            r@ == self@.minus(o@),
    {
        Vector { x: self.x - o.x, y: self.y - o.y, z: self.z - o.z }
    }

    pub fn add_assign(&mut self, o: Vector<i64>)
        requires
            old(self)@.plus(o@).fits(),
        ensures
            final(self)@ == old(self)@.plus(o@),
    {
        *self = self.add(o);
    }

    pub fn sub_assign(&mut self, o: Vector<i64>)
        requires
            old(self)@.minus(o@).fits(),
        ensures
            final(self)@ == old(self)@.minus(o@),
    {
        *self = self.sub(o);
    }

    /// Divides every component by the non-zero fixed-point scalar `k`.
    pub fn div(self, k: i64) -> (r: Vector<i64>)
        requires
            k != 0,
            self@.divided(k as int).fits(),
        ensures
            r@ == self@.divided(k as int),
    {
        let x: i128 = fixed_quotient(self.x, k);
        let y: i128 = fixed_quotient(self.y, k);
        let z: i128 = fixed_quotient(self.z, k);
        Vector { x: x as i64, y: y as i64, z: z as i64 }
    }

    /// Divides each component by the matching component of `o`, none zero.
    pub fn div_assign(&mut self, o: Vector<i64>)
        requires
            o.x != 0 && o.y != 0 && o.z != 0,
            old(self)@.divided_by(o@).fits(),
        ensures
            final(self)@ == old(self)@.divided_by(o@),
    {
        let x: i128 = fixed_quotient(self.x, o.x);
        let y: i128 = fixed_quotient(self.y, o.y);
        let z: i128 = fixed_quotient(self.z, o.z);
        *self = Vector { x: x as i64, y: y as i64, z: z as i64 };
    }

    /// Multiplies every component by the fixed-point scalar `k` in place.
    pub fn mul_assign(&mut self, k: i64)
        requires
            old(self)@.scaled(k as int).fits(),
        ensures
            final(self)@ == old(self)@.scaled(k as int),
    {
        *self = self.mul(k);
    }

    /// Multiplies every component by the fixed-point scalar `k`.
    pub fn mul(self, k: i64) -> (r: Vector<i64>)
        requires
            self@.scaled(k as int).fits(),
        ensures
            r@ == self@.scaled(k as int),
    {
        let u: i128 = UNIT as i128;
        let x: i128 = div_floor(self.x as i128 * k as i128, u);
        let y: i128 = div_floor(self.y as i128 * k as i128, u);
        let z: i128 = div_floor(self.z as i128 * k as i128, u);
        Vector { x: x as i64, y: y as i64, z: z as i64 }
    }

    /// Fixed-point dot product.
    pub fn dot(&self, other: &Vector<i64>) -> (r: i64)
        requires
            self@.bounded(COORD_LIMIT as int),
            other@.bounded(COORD_LIMIT as int),
        ensures
            r as int == self@.dot(other@),
    {
        let ghost b = COORD_LIMIT as int;
        let (ax, ay, az) = (self.x as i128, self.y as i128, self.z as i128);
        let (bx, by, bz) = (other.x as i128, other.y as i128, other.z as i128);
        proof {
            assert(-b * b <= ax * bx <= b * b) by (nonlinear_arith)
                requires -b <= ax <= b, -b <= bx <= b;
            assert(-b * b <= ay * by <= b * b) by (nonlinear_arith)
                requires -b <= ay <= b, -b <= by <= b;
            assert(-b * b <= az * bz <= b * b) by (nonlinear_arith)
                requires -b <= az <= b, -b <= bz <= b;
        }
        let s: i128 = ax * bx + ay * by + az * bz;
        let q: i128 = div_floor(s, UNIT as i128);
        proof {
            vstd::arithmetic::div_mod::lemma_div_is_ordered(s as int, 3 * b * b, UNIT as int);
            vstd::arithmetic::div_mod::lemma_div_is_ordered(-3 * b * b, s as int, UNIT as int);
        }
        q as i64
    }

    /// Euclidean length, rounded down.
    pub fn len(&self) -> (r: i64)
        requires
            self@.bounded(VECTOR_LIMIT as int),
        ensures
            r as int == self@.length(),
            0 <= r,
    {
        proof {
            lemma_length_facts(self@);
            assert(0 <= self@.x * self@.x && 0 <= self@.y * self@.y && 0 <= self@.z * self@.z)
                by (nonlinear_arith);
        }
        let (x, y, z) = (self.x as i128, self.y as i128, self.z as i128);
        let n: i128 = x * x + y * y + z * z;
        let r: u64 = isqrt(n as u128);
        r as i64
    }

    /// The vector scaled to length `UNIT`; the zero vector is returned as it is.
    pub fn normalize(self) -> (r: Vector<i64>)
        requires
            self@.bounded(VECTOR_LIMIT as int),
        ensures
            r@ == self@.normalized(),
            r@.bounded(UNIT as int),
            self@.norm_sq() > 0 ==> UNIT - 4 <= r@.length(),
            r@.length() <= UNIT + 4,
    {
        proof {
            lemma_normalized_length_at_most(self@);
            lemma_length_facts(self@);
            lemma_normalized_bounded(self@);
            if self@.norm_sq() > 0 {
                lemma_normalized_length(self@);
            }
        }
        let (x, y, z) = (self.x as i128, self.y as i128, self.z as i128);
        proof {
            assert(0 <= x * x <= VECTOR_LIMIT * VECTOR_LIMIT && 0 <= y * y <= VECTOR_LIMIT * VECTOR_LIMIT
                && 0 <= z * z <= VECTOR_LIMIT * VECTOR_LIMIT) by (nonlinear_arith)
                requires
                    self@.bounded(VECTOR_LIMIT as int),
                    x == self.x,
                    y == self.y,
                    z == self.z,
            ;
        }
        let n: i128 = x * x + y * y + z * z;
        let u: i128 = UNIT as i128;
        if (n as u128) < FINE_LIMIT {
            proof {
                lemma_times_unit_norm(self@);
                assert(n * (u * u) < 0x1_0000_0000_0000_0000_0000_0000_0000_0000) by (nonlinear_arith)
                    requires
                        0 <= n < FINE_LIMIT,
                        u == UNIT,
                ;
                assert((u * u) * n == n * (u * u)) by (nonlinear_arith);
                assert(-0x10_0000_0000_0000_0000_0000_0000 < x * (u * u) < 0x10_0000_0000_0000_0000_0000_0000)
                    by (nonlinear_arith)
                    requires
                        -VECTOR_LIMIT <= x <= VECTOR_LIMIT,
                        u == UNIT,
                ;
                assert(-0x10_0000_0000_0000_0000_0000_0000 < y * (u * u) < 0x10_0000_0000_0000_0000_0000_0000)
                    by (nonlinear_arith)
                    requires
                        -VECTOR_LIMIT <= y <= VECTOR_LIMIT,
                        u == UNIT,
                ;
                assert(-0x10_0000_0000_0000_0000_0000_0000 < z * (u * u) < 0x10_0000_0000_0000_0000_0000_0000)
                    by (nonlinear_arith)
                    requires
                        -VECTOR_LIMIT <= z <= VECTOR_LIMIT,
                        u == UNIT,
                ;
                assert(x * (u * u) == (x * u) * u) by (nonlinear_arith);
                assert(y * (u * u) == (y * u) * u) by (nonlinear_arith);
                assert(z * (u * u) == (z * u) * u) by (nonlinear_arith);
            }
            let l: u64 = isqrt(n as u128 * (u * u) as u128);
            if l == 0 {
                Vector { x: 0, y: 0, z: 0 }
            } else {
                let qx: i128 = div_floor(x * (u * u), l as i128);
                let qy: i128 = div_floor(y * (u * u), l as i128);
                let qz: i128 = div_floor(z * (u * u), l as i128);
                Vector { x: qx as i64, y: qy as i64, z: qz as i64 }
            }
        } else {
            let l: i64 = self.len();
            let qx: i128 = div_floor(x * u, l as i128);
            let qy: i128 = div_floor(y * u, l as i128);
            let qz: i128 = div_floor(z * u, l as i128);
            Vector { x: qx as i64, y: qy as i64, z: qz as i64 }
        }
    }
}

} // verus!
