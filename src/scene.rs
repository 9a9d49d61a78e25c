//! The scene: spheres, point lights and a camera, and the sphere-tracing
//! pipeline that turns a ray into a color.

use vstd::prelude::*;
use crate::arith::UNIT;
use crate::linear::{Vector, COORD_LIMIT, POINT_LIMIT, VECTOR_LIMIT};
use crate::primitives::{Ray, Sphere, lemma_length_below, DETAIL, FINE_POINT_LIMIT};
use crate::arith::floor_sqrt;
use crate::canvas::{Canvas, pixels_of, width_of, height_of};

verus! {

/// The distance reported when no sphere is taken into account (2^62 counts).
pub const FAR: i64 = 4_611_686_018_427_387_904;

/// How many steps the primary march may take.
pub const STEP_BUDGET: u32 = 100;

/// The primary march stops on a surface once closer than this.
pub const HIT_THRESHOLD: i64 = 1_000;

/// The primary march gives up once every surface is farther than this.
pub const MAX_DISTANCE: i64 = 1_000_000_000;

/// Offset of the finite differences that estimate a normal.
pub const NORMAL_STEP: i64 = 100;

/// The shadow march counts a surface this close as blocking the light.
pub const SHADOW_THRESHOLD: i64 = 100;

/// Visibility margin a shadow march starts from, above full light.
pub const SHADOW_START: i64 = 1_100_000;

/// Bound on the points that are shaded (2^41 counts): a hit of a ray from
/// within `COORD_LIMIT` lies inside it.
pub const SHADE_LIMIT: i64 = 2_199_023_255_552;

/// Bound on the origin of a marched ray, and on how far it is followed (2^45 counts).
pub const TRACE_LIMIT: i64 = 35_184_372_088_832;

/// Bound on any distance a query returns when at least one sphere counts.
pub const NEAR_LIMIT: i64 = 2 * (COORD_LIMIT + POINT_LIMIT);

/// The camera: where rays start from, and the resolution that maps pixels to
/// screen coordinates.
pub struct Camera {
    pub position: Vector<i64>,
    pub resolution: [u32; 2],
}

impl Camera {
    pub fn new(resolution: [u32; 2], position: Vector<i64>) -> (r: Camera)
        ensures
            r.resolution == resolution,
            r.position == position,
    {
        Camera { resolution, position }
    }
}

/// Where a primary ray met a surface.
pub struct Hit {
    pub position: Vector<i64>,
    /// The group id of the sphere that was hit.
    pub owner: u32,
    /// The distance marched along the ray.
    pub travelled: i64,
}

/// The spec view of an optional hit: position, owner, distance marched.
pub open spec fn hit_view(h: Option<Hit>) -> Option<(Vector<int>, u32, int)> {
    match h {
        Some(h) => Some((h.position@, h.owner, h.travelled as int)),
        None => None,
    }
}

/// Whether sphere `s` takes part in a query that skips group `skip`.
pub open spec fn counts(s: Sphere, skip: Option<u32>) -> bool {
    skip != Some(s.id)
}

/// The distance-and-owner pair of a query over `spheres` at `p`: the least
/// signed distance of the spheres that count, with the id of the first sphere
/// that attains it; `(FAR, 0)` when none counts.
pub open spec fn nearest_among(spheres: Seq<Sphere>, p: Vector<int>, skip: Option<u32>) -> (int, u32)
    decreases spheres.len(),
{
    if spheres.len() == 0 {
        (FAR as int, 0)
    } else {
        let prev = nearest_among(spheres.drop_last(), p, skip);
        let s = spheres.last();
        let d = s.distance_at(p);
        if counts(s, skip) && d < prev.0 {
            (d, s.id)
        } else {
            prev
        }
    }
}

/// The least fine distance of `spheres` at `p`; `FAR` for none.
pub open spec fn fine_nearest(spheres: Seq<Sphere>, p: Vector<int>) -> int
    decreases spheres.len(),
{
    if spheres.len() == 0 {
        FAR as int
    } else {
        let prev = fine_nearest(spheres.drop_last(), p);
        let d = spheres.last().fine_distance_at(p);
        if d < prev {
            d
        } else {
            prev
        }
    }
}

/// The fine distance is `FAR` without spheres, and otherwise one sphere's.
pub proof fn lemma_fine_nearest_range(spheres: Seq<Sphere>, p: Vector<int>)
    requires
        forall|i: int| 0 <= i < spheres.len() ==> (#[trigger] spheres[i]).placed(),
        p.bounded(FINE_POINT_LIMIT as int - COORD_LIMIT),
    ensures
        spheres.len() == 0 ==> fine_nearest(spheres, p) == FAR,
        spheres.len() > 0 ==> -0x40_0000_0000_0000 <= fine_nearest(spheres, p) < 0x200_0000_0000_0000,
    decreases spheres.len(),
{
    if spheres.len() > 0 {
        let rest = spheres.drop_last();
        assert forall|i: int| 0 <= i < rest.len() implies (#[trigger] rest[i]).placed() by {
            assert(rest[i] == spheres[i]);
        }
        lemma_fine_nearest_range(rest, p);
        lemma_fine_distance_range(spheres.last(), p);
    }
}

proof fn lemma_fine_distance_range(s: Sphere, p: Vector<int>)
    requires
        s.placed(),
        p.bounded(FINE_POINT_LIMIT as int - COORD_LIMIT),
    ensures
        -0x40_0000_0000_0000 <= s.fine_distance_at(p) < 0x200_0000_0000_0000,
{
    let v = s.center@.minus(p);
    let b = FINE_POINT_LIMIT as int;
    let f = DETAIL as int * DETAIL as int;
    assert(0 <= v.x * v.x <= b * b && 0 <= v.y * v.y <= b * b && 0 <= v.z * v.z <= b * b) by (nonlinear_arith)
        requires
            v.bounded(b),
    ;
    let n = v.norm_sq() * f;
    assert(0 <= n < 0x2_0000_0000_0000_0000_0000_0000_0000) by (nonlinear_arith)
        requires
            0 <= v.norm_sq() <= 3 * (b * b),
            b == 0x400_0000_0000,
            f == 100_000_000,
            n == v.norm_sq() * f,
    ;
    crate::arith::lemma_floor_root_exists(n);
    crate::arith::lemma_floor_sqrt_bounds(n, 0);
    let r = floor_sqrt(n);
    assert(crate::arith::is_floor_root(n, r));
    if r >= 0x200_0000_0000_0000 {
        assert(r * r >= 0x200_0000_0000_0000 * 0x200_0000_0000_0000) by (nonlinear_arith)
            requires
                r >= 0x200_0000_0000_0000,
        ;
    }
    assert(s.radius as int * UNIT as int * DETAIL as int <= COORD_LIMIT * DETAIL) by (nonlinear_arith)
        requires
            s.radius as int * UNIT as int <= COORD_LIMIT,
    ;
}

/// The range of a query's distance: `FAR` exactly when no sphere counts,
/// otherwise the distance of one that does.
pub proof fn lemma_nearest_range(spheres: Seq<Sphere>, p: Vector<int>, skip: Option<u32>)
    requires
        forall|i: int| 0 <= i < spheres.len() ==> (#[trigger] spheres[i]).placed(),
        p.bounded(POINT_LIMIT as int),
    ensures
        (nearest_among(spheres, p, skip).0 == FAR) <==> (forall|i: int|
            0 <= i < spheres.len() ==> !counts(#[trigger] spheres[i], skip)),
        nearest_among(spheres, p, skip).0 != FAR ==> -(u32::MAX as int * UNIT as int)
            <= nearest_among(spheres, p, skip).0 < NEAR_LIMIT,
    decreases spheres.len(),
{
    if spheres.len() > 0 {
        let rest = spheres.drop_last();
        assert forall|i: int| 0 <= i < rest.len() implies (#[trigger] rest[i]).placed() by {
            assert(rest[i] == spheres[i]);
        }
        lemma_nearest_range(rest, p, skip);
        let s = spheres.last();
        lemma_sphere_distance_range(s, p);
        if forall|i: int| 0 <= i < spheres.len() ==> !counts(#[trigger] spheres[i], skip) {
            assert forall|i: int| 0 <= i < rest.len() implies !counts(#[trigger] rest[i], skip) by {
                assert(rest[i] == spheres[i]);
            }
        } else {
            let k = choose|i: int| 0 <= i < spheres.len() && counts(#[trigger] spheres[i], skip);
            if k < rest.len() {
                assert(rest[k] == spheres[k]);
            }
        }
        if forall|i: int| 0 <= i < rest.len() ==> !counts(#[trigger] rest[i], skip) {
            if counts(s, skip) {
                assert(!(forall|i: int| 0 <= i < spheres.len() ==> !counts(#[trigger] spheres[i], skip)));
            } else {
                assert forall|i: int| 0 <= i < spheres.len() implies !counts(#[trigger] spheres[i], skip) by {
                    if i < rest.len() {
                        assert(rest[i] == spheres[i]);
                    }
                }
            }
        } else {
            let k = choose|i: int| 0 <= i < rest.len() && counts(#[trigger] rest[i], skip);
            assert(spheres[k] == rest[k]);
        }
    }
}

/// A query's distance is the least distance of the spheres that count, and
/// its owner is the id of the first sphere in order that attains it; with no
/// sphere counting it is `(FAR, 0)`.
pub proof fn lemma_nearest_is_first_minimum(spheres: Seq<Sphere>, p: Vector<int>, skip: Option<u32>)
    requires
        forall|i: int| 0 <= i < spheres.len() ==> (#[trigger] spheres[i]).distance_at(p) < FAR,
    ensures
        forall|i: int|
            0 <= i < spheres.len() && counts(spheres[i], skip) ==> nearest_among(spheres, p, skip).0
                <= (#[trigger] spheres[i]).distance_at(p),
        (forall|i: int| 0 <= i < spheres.len() ==> !counts(#[trigger] spheres[i], skip))
            ==> nearest_among(spheres, p, skip) == (FAR as int, 0u32),
        (exists|i: int| 0 <= i < spheres.len() && counts(#[trigger] spheres[i], skip)) ==> exists|i: int|
            {
                &&& 0 <= i < spheres.len()
                &&& counts(#[trigger] spheres[i], skip)
                &&& nearest_among(spheres, p, skip) == (spheres[i].distance_at(p), spheres[i].id)
                &&& forall|j: int|
                    0 <= j < i && counts(#[trigger] spheres[j], skip) ==> spheres[j].distance_at(p)
                        > nearest_among(spheres, p, skip).0
            },
    decreases spheres.len(),
{
    if spheres.len() > 0 {
        let rest = spheres.drop_last();
        let last = spheres.len() - 1;
        assert forall|i: int| 0 <= i < rest.len() implies (#[trigger] rest[i]).distance_at(p) < FAR by {
            assert(rest[i] == spheres[i]);
        }
        lemma_nearest_is_first_minimum(rest, p, skip);
        let prev = nearest_among(rest, p, skip);
        let r = nearest_among(spheres, p, skip);
        let s = spheres[last];
        assert forall|i: int|
            0 <= i < spheres.len() && counts(spheres[i], skip) implies r.0
                <= (#[trigger] spheres[i]).distance_at(p) by {
            if i < last {
                assert(rest[i] == spheres[i]);
            }
        }
        if forall|i: int| 0 <= i < rest.len() ==> !counts(#[trigger] rest[i], skip) {
            if counts(s, skip) {
                assert(r == (s.distance_at(p), s.id));
                assert forall|j: int|
                    0 <= j < last && counts(#[trigger] spheres[j], skip) implies spheres[j].distance_at(p)
                        > r.0 by {
                    assert(rest[j] == spheres[j]);
                }
            } else {
                assert forall|i: int| 0 <= i < spheres.len() implies !counts(#[trigger] spheres[i], skip) by {
                    if i < last {
                        assert(rest[i] == spheres[i]);
                    }
                }
            }
        } else {
            let k0 = choose|i: int| 0 <= i < rest.len() && counts(#[trigger] rest[i], skip);
            assert(counts(spheres[k0], skip));
            let k = choose|i: int|
                {
                    &&& 0 <= i < rest.len()
                    &&& counts(#[trigger] rest[i], skip)
                    &&& prev == (rest[i].distance_at(p), rest[i].id)
                    &&& forall|j: int|
                        0 <= j < i && counts(#[trigger] rest[j], skip) ==> rest[j].distance_at(p) > prev.0
                };
            if counts(s, skip) && s.distance_at(p) < prev.0 {
                assert forall|j: int|
                    0 <= j < last && counts(#[trigger] spheres[j], skip) implies spheres[j].distance_at(p)
                        > r.0 by {
                    assert(rest[j] == spheres[j]);
                }
            } else {
                assert(spheres[k] == rest[k]);
                assert forall|j: int|
                    0 <= j < k && counts(#[trigger] spheres[j], skip) implies spheres[j].distance_at(p)
                        > r.0 by {
                    assert(rest[j] == spheres[j]);
                }
            }
        }
    }
}

proof fn lemma_single_sphere(spheres: Seq<Sphere>, p: Vector<int>)
    requires
        spheres.len() == 1,
        spheres[0].distance_at(p) < FAR,
    ensures
        nearest_among(spheres, p, None) == (spheres[0].distance_at(p), spheres[0].id),
{
    assert(spheres.drop_last().len() == 0);
    assert(nearest_among(spheres.drop_last(), p, None) == (FAR as int, 0u32));
}

/// Taking `b` whole units off a numerator takes `b` off the floor quotient.
proof fn lemma_step_back(a: int, b: int)
    ensures
        (a - b * UNIT as int) / UNIT as int == a / UNIT as int - b,
{
    let u = UNIT as int;
    vstd::arithmetic::div_mod::lemma_fundamental_div_mod(a, u);
    let q = a / u;
    let m = a % u;
    assert(a - b * u == (q - b) * u + m) by (nonlinear_arith)
        requires
            a == u * q + m,
    ;
    vstd::arithmetic::div_mod::lemma_fundamental_div_mod_converse(a - b * u, u, q - b, m);
}

proof fn lemma_nearest_at_least(spheres: Seq<Sphere>, p: Vector<int>, skip: Option<u32>, bound: int)
    requires
        bound <= FAR,
        forall|i: int| 0 <= i < spheres.len() ==> (#[trigger] spheres[i]).distance_at(p) >= bound,
    ensures
        nearest_among(spheres, p, skip).0 >= bound,
    decreases spheres.len(),
{
    if spheres.len() > 0 {
        let rest = spheres.drop_last();
        assert forall|i: int| 0 <= i < rest.len() implies (#[trigger] rest[i]).distance_at(p) >= bound by {
            assert(rest[i] == spheres[i]);
        }
        lemma_nearest_at_least(rest, p, skip, bound);
        assert(spheres[spheres.len() - 1].distance_at(p) >= bound);
    }
}

/// Normalizing keeps a non-negative z component non-negative.
proof fn lemma_normalized_z(v: Vector<int>)
    requires
        v.z >= 0,
    ensures
        v.normalized().z >= 0,
{
    lemma_divided_z(v);
    assert(v.times_unit().z >= 0) by (nonlinear_arith)
        requires
            v.z >= 0,
            v.times_unit().z == v.z * 1_000_000,
    ;
    lemma_divided_z(v.times_unit());
}

proof fn lemma_divided_z(v: Vector<int>)
    requires
        v.z >= 0,
    ensures
        v.divided_by_length().z >= 0,
{
    assert(0 <= v.x * v.x && 0 <= v.y * v.y && 0 <= v.z * v.z) by (nonlinear_arith);
    crate::arith::lemma_floor_sqrt_bounds(v.norm_sq(), 0);
    let l = v.length();
    if l != 0 {
        assert(0 <= v.z * UNIT as int) by (nonlinear_arith)
            requires
                v.z >= 0,
        ;
        vstd::arithmetic::div_mod::lemma_div_pos_is_pos(v.z * UNIT as int, l);
    }
}

proof fn lemma_nothing_counts(spheres: Seq<Sphere>, p: Vector<int>, id: u32)
    requires
        forall|i: int| 0 <= i < spheres.len() ==> (#[trigger] spheres[i]).id == id,
    ensures
        nearest_among(spheres, p, Some(id)) == (FAR as int, 0u32),
    decreases spheres.len(),
{
    if spheres.len() > 0 {
        let rest = spheres.drop_last();
        assert forall|i: int| 0 <= i < rest.len() implies (#[trigger] rest[i]).id == id by {
            assert(rest[i] == spheres[i]);
        }
        lemma_nothing_counts(rest, p, id);
        assert(spheres[spheres.len() - 1].id == id);
    }
}

proof fn lemma_sphere_distance_range(s: Sphere, p: Vector<int>)
    requires
        s.placed(),
        p.bounded(POINT_LIMIT as int),
    ensures
        -(u32::MAX as int * UNIT as int) <= s.distance_at(p) < NEAR_LIMIT,
{
    lemma_length_below(s.center@.minus(p), (COORD_LIMIT + POINT_LIMIT) as int);
    assert(s.radius as int * UNIT as int <= u32::MAX as int * UNIT as int) by (nonlinear_arith)
        requires
            s.radius <= u32::MAX,
    ;
}

/// The point `t` counts along `dir` from `origin`.
pub open spec fn along(origin: Vector<int>, dir: Vector<int>, t: int) -> Vector<int> {
    origin.plus(dir.scaled(t))
}

proof fn lemma_unit_step(a: int, t: int)
    requires
        -(UNIT as int) <= a <= UNIT as int,
        0 <= t,
    ensures
        -t <= a * t / UNIT as int <= t,
{
    let u = UNIT as int;
    assert(-(u * t) <= a * t <= u * t) by (nonlinear_arith)
        requires
            -u <= a <= u,
            0 <= t,
    ;
    vstd::arithmetic::div_mod::lemma_div_is_ordered(a * t, u * t, u);
    vstd::arithmetic::div_mod::lemma_div_is_ordered(-(u * t), a * t, u);
    assert(u * t == t * u) by (nonlinear_arith);
    vstd::arithmetic::div_mod::lemma_fundamental_div_mod_converse(u * t, u, t, 0);
    assert(-(u * t) == (-t) * u + 0) by (nonlinear_arith);
    vstd::arithmetic::div_mod::lemma_fundamental_div_mod_converse(-(u * t), u, -t, 0);
}

/// The point `t` counts along the unit-bounded `dir` from `origin`.
fn point_at(origin: Vector<i64>, dir: Vector<i64>, t: i64) -> (r: Vector<i64>)
    requires
        origin@.bounded(TRACE_LIMIT as int),
        dir@.bounded(UNIT as int),
        0 <= t <= TRACE_LIMIT,
    ensures
        r@ == along(origin@, dir@, t as int),
        r@.bounded(POINT_LIMIT as int),
{
    proof {
        lemma_unit_step(dir.x as int, t as int);
        lemma_unit_step(dir.y as int, t as int);
        lemma_unit_step(dir.z as int, t as int);
    }
    origin.add(dir.mul(t))
}

/// Fixed-point color value to an 8-bit channel: times 255, rounded down and
/// clamped to `0..=255`.
pub open spec fn channel(c: int) -> u8 {
    let v = c * 255 / UNIT as int;
    if v <= 0 {
        0
    } else if v >= 255 {
        255
    } else {
        v as u8
    }
}

/// Converts one fixed-point color component to an 8-bit channel.
pub fn to_channel(c: i64) -> (r: u8)
    ensures
        r == channel(c as int),
{
    let v: i128 = crate::arith::div_floor(c as i128 * 255, UNIT as i128);
    if v <= 0 {
        0
    } else if v >= 255 {
        255
    } else {
        v as u8
    }
}

proof fn lemma_square_of_sum(a: int, b: int, c: int)
    ensures
        (a + b + c) * (a + b + c) == a * a + b * b + c * c + 2 * (a * b) + 2 * (a * c) + 2 * (b * c),
{
    assert((a + b + c) * (a + b + c) == a * a + b * b + c * c + 2 * (a * b) + 2 * (a * c) + 2 * (b * c))
        by (nonlinear_arith);
}

proof fn lemma_square_of_difference(a: int, b: int)
    ensures
        (a - b) * (a - b) == a * a + b * b - 2 * (a * b),
{
    assert((a - b) * (a - b) == a * a + b * b - 2 * (a * b)) by (nonlinear_arith);
}

/// Cauchy-Schwarz on integer vectors.
proof fn lemma_cauchy_schwarz(a: Vector<int>, b: Vector<int>)
    ensures
        (a.x * b.x + a.y * b.y + a.z * b.z) * (a.x * b.x + a.y * b.y + a.z * b.z) <= a.norm_sq() * b.norm_sq(),
{
    let (x1, y1, z1, x2, y2, z2) = (a.x, a.y, a.z, b.x, b.y, b.z);
    let (xx, yy, zz) = (x1 * x2, y1 * y2, z1 * z2);
    lemma_square_of_sum(xx, yy, zz);
    lemma_square_of_difference(x1 * y2, y1 * x2);
    lemma_square_of_difference(y1 * z2, z1 * y2);
    lemma_square_of_difference(x1 * z2, z1 * x2);
    assert(xx * xx == (x1 * x1) * (x2 * x2)) by (nonlinear_arith) requires xx == x1 * x2;
    assert(yy * yy == (y1 * y1) * (y2 * y2)) by (nonlinear_arith) requires yy == y1 * y2;
    assert(zz * zz == (z1 * z1) * (z2 * z2)) by (nonlinear_arith) requires zz == z1 * z2;
    assert(xx * yy == (x1 * y2) * (y1 * x2)) by (nonlinear_arith) requires xx == x1 * x2, yy == y1 * y2;
    assert(yy * zz == (y1 * z2) * (z1 * y2)) by (nonlinear_arith) requires yy == y1 * y2, zz == z1 * z2;
    assert(xx * zz == (x1 * z2) * (z1 * x2)) by (nonlinear_arith) requires xx == x1 * x2, zz == z1 * z2;
    assert((x1 * y2) * (x1 * y2) == (x1 * x1) * (y2 * y2)) by (nonlinear_arith);
    assert((y1 * x2) * (y1 * x2) == (y1 * y1) * (x2 * x2)) by (nonlinear_arith);
    assert((y1 * z2) * (y1 * z2) == (y1 * y1) * (z2 * z2)) by (nonlinear_arith);
    assert((z1 * y2) * (z1 * y2) == (z1 * z1) * (y2 * y2)) by (nonlinear_arith);
    assert((x1 * z2) * (x1 * z2) == (x1 * x1) * (z2 * z2)) by (nonlinear_arith);
    assert((z1 * x2) * (z1 * x2) == (z1 * z1) * (x2 * x2)) by (nonlinear_arith);
    let (p, q, r) = (x1 * y2 - y1 * x2, y1 * z2 - z1 * y2, x1 * z2 - z1 * x2);
    assert(0 <= p * p && 0 <= q * q && 0 <= r * r) by (nonlinear_arith);
    let (sa, sb) = (x1 * x1 + y1 * y1 + z1 * z1, x2 * x2 + y2 * y2 + z2 * z2);
    assert(sa * sb == (x1 * x1) * (x2 * x2) + (x1 * x1) * (y2 * y2) + (x1 * x1) * (z2 * z2) + (y1 * y1) * (x2
        * x2) + (y1 * y1) * (y2 * y2) + (y1 * y1) * (z2 * z2) + (z1 * z1) * (x2 * x2) + (z1 * z1) * (y2 * y2)
        + (z1 * z1) * (z2 * z2)) by (nonlinear_arith)
        requires
            sa == x1 * x1 + y1 * y1 + z1 * z1,
            sb == x2 * x2 + y2 * y2 + z2 * z2,
    ;
}

/// Two vectors no longer than four counts over `UNIT` have a dot product
/// within eleven counts of `[-UNIT, UNIT]`.
proof fn lemma_dot_of_units(a: Vector<int>, b: Vector<int>)
    requires
        a.length() <= UNIT + 4,
        b.length() <= UNIT + 4,
    ensures
        -(UNIT + 11) <= a.dot(b) <= UNIT + 10,
{
    let u = UNIT as int;
    let m = (u + 5) * (u + 5);
    assert(0 <= a.x * a.x && 0 <= a.y * a.y && 0 <= a.z * a.z) by (nonlinear_arith);
    assert(0 <= b.x * b.x && 0 <= b.y * b.y && 0 <= b.z * b.z) by (nonlinear_arith);
    crate::arith::lemma_floor_root_exists(a.norm_sq());
    crate::arith::lemma_floor_root_exists(b.norm_sq());
    assert(crate::arith::is_floor_root(a.norm_sq(), a.length()));
    assert(crate::arith::is_floor_root(b.norm_sq(), b.length()));
    assert(a.norm_sq() < m) by (nonlinear_arith)
        requires
            a.norm_sq() < (a.length() + 1) * (a.length() + 1),
            0 <= a.length() <= u + 4,
            m == (u + 5) * (u + 5),
    ;
    assert(b.norm_sq() < m) by (nonlinear_arith)
        requires
            b.norm_sq() < (b.length() + 1) * (b.length() + 1),
            0 <= b.length() <= u + 4,
            m == (u + 5) * (u + 5),
    ;
    lemma_cauchy_schwarz(a, b);
    let d = a.x * b.x + a.y * b.y + a.z * b.z;
    assert(a.norm_sq() * b.norm_sq() <= m * m) by (nonlinear_arith)
        requires
            0 <= a.norm_sq() < m,
            0 <= b.norm_sq() < m,
    ;
    assert(-m <= d <= m) by (nonlinear_arith)
        requires
            d * d <= m * m,
            0 < m,
    ;
    vstd::arithmetic::div_mod::lemma_div_is_ordered(d, m, u);
    vstd::arithmetic::div_mod::lemma_div_is_ordered(-m, d, u);
    assert(m == (u + 10) * u + 25 && -m == (-(u + 10) - 1) * u + (u - 25)) by (nonlinear_arith)
        requires
            m == (u + 5) * (u + 5),
    ;
    vstd::arithmetic::div_mod::lemma_fundamental_div_mod_converse(m, u, u + 10, 25);
    vstd::arithmetic::div_mod::lemma_fundamental_div_mod_converse(-m, u, -(u + 10) - 1, u - 25);
}

/// Pure red of intensity `a`.
pub open spec fn red(a: int) -> Vector<int> {
    Vector { x: a, y: 0, z: 0 }
}

/// Red light scaled by the alignment `a` and then the visibility `l`.
proof fn lemma_red(a: int, l: int)
    requires
        0 <= a <= UNIT + 10,
        0 <= l <= UNIT,
    ensures
        red(UNIT as int).scaled(a) == red(a),
        0 <= red(a).scaled(l).x <= UNIT + 10,
        red(a).scaled(l).y == 0,
        red(a).scaled(l).z == 0,
{
    let u = UNIT as int;
    assert(u * a == a * u) by (nonlinear_arith);
    vstd::arithmetic::div_mod::lemma_fundamental_div_mod_converse(u * a, u, a, 0);
    assert(0 * a == 0 && 0 * l == 0);
    assert(0 <= a * l <= (u + 10) * u) by (nonlinear_arith)
        requires
            0 <= a <= u + 10,
            0 <= l <= u,
    ;
    vstd::arithmetic::div_mod::lemma_div_is_ordered(a * l, (u + 10) * u, u);
    vstd::arithmetic::div_mod::lemma_div_is_ordered(0, a * l, u);
    vstd::arithmetic::div_mod::lemma_fundamental_div_mod_converse((u + 10) * u, u, u + 10, 0);
}

proof fn lemma_screen_coordinate(p: int, w: int)
    requires
        0 <= p <= u32::MAX,
        0 < w <= u32::MAX,
    ensures
        -(VECTOR_LIMIT as int) <= (2 * p - w) * UNIT as int / w <= VECTOR_LIMIT,
{
    let u = UNIT as int;
    let b = 0x2_0000_0000 * u;
    assert(-b <= (2 * p - w) * u <= b) by (nonlinear_arith)
        requires
            0 <= p <= u32::MAX,
            0 < w <= u32::MAX,
            u == UNIT,
            b == 0x2_0000_0000 * u,
    ;
    vstd::arithmetic::div_mod::lemma_div_is_ordered((2 * p - w) * u, b, w);
    vstd::arithmetic::div_mod::lemma_div_is_ordered(-b, (2 * p - w) * u, w);
    vstd::arithmetic::div_mod::lemma_div_is_ordered_by_denominator(b, 1, w);
    assert(b / 1 == b);
    let q = -b / w;
    let r = -b % w;
    vstd::arithmetic::div_mod::lemma_fundamental_div_mod(-b, w);
    assert(q >= -b) by (nonlinear_arith)
        requires
            -b == w * q + r,
            0 <= r < w,
            1 <= w,
            0 <= b,
    ;
}

fn within(v: &Vector<i64>, b: i64) -> (r: bool)
    requires
        b >= 0,
    ensures
        r == v@.bounded(b as int),
{
    -b <= v.x && v.x <= b && -b <= v.y && v.y <= b && -b <= v.z && v.z <= b
}

/// A scene: spheres, point lights and one camera. It is read, never changed,
/// while an image is made.
pub struct Scene {
    pub camera: Camera,
    pub spheres: Vec<Sphere>,
    pub light: Vec<Vector<i64>>,
}

impl Scene {
    /// Every coordinate and radius lies within `COORD_LIMIT`.
    pub open spec fn wf(&self) -> bool {
        &&& forall|i: int| 0 <= i < self.spheres@.len() ==> (#[trigger] self.spheres@[i]).placed()
        &&& forall|i: int| 0 <= i < self.light@.len() ==> (#[trigger] self.light@[i])@.bounded(COORD_LIMIT as int)
        &&& self.camera.position@.bounded(COORD_LIMIT as int)
    }

    pub open spec fn nearest(&self, p: Vector<int>, skip: Option<u32>) -> (int, u32) {
        nearest_among(self.spheres@, p, skip)
    }

    /// The primary march from `t` counts along the ray, with `fuel` steps left:
    /// the first point whose distance falls under `HIT_THRESHOLD`, with its
    /// owner and its `t`, or `None` once a distance exceeds `MAX_DISTANCE` or
    /// the steps run out.
    pub open spec fn march_from(&self, origin: Vector<int>, dir: Vector<int>, t: int, fuel: nat) -> Option<(Vector<int>, u32, int)>
        decreases fuel,
    {
        if fuel == 0 {
            None
        } else {
            let pos = along(origin, dir, t);
            let (d, id) = self.nearest(pos, None);
            if d < HIT_THRESHOLD {
                Some((pos, id, t))
            } else if d > MAX_DISTANCE {
                None
            } else {
                self.march_from(origin, dir, t + d, (fuel - 1) as nat)
            }
        }
    }

    /// The outcome of marching a ray from its origin with the full step budget.
    pub open spec fn march_spec(&self, origin: Vector<int>, dir: Vector<int>) -> Option<(Vector<int>, u32, int)> {
        self.march_from(origin, dir, 0, STEP_BUDGET as nat)
    }

    /// Symmetric differences of the scene distance around `p`, one per axis,
    /// in fine counts.
    pub open spec fn gradient_at(&self, p: Vector<int>) -> Vector<int> {
        let e = NORMAL_STEP as int;
        let sp = self.spheres@;
        Vector {
            x: fine_nearest(sp, p.plus(Vector { x: e, y: 0, z: 0 })) - fine_nearest(sp, p.plus(Vector { x: -e, y: 0, z: 0 })),
            y: fine_nearest(sp, p.plus(Vector { x: 0, y: e, z: 0 })) - fine_nearest(sp, p.plus(Vector { x: 0, y: -e, z: 0 })),
            z: fine_nearest(sp, p.plus(Vector { x: 0, y: 0, z: e })) - fine_nearest(sp, p.plus(Vector { x: 0, y: 0, z: -e })),
        }
    }

    /// The estimated surface normal at `p`: the normalized gradient, negated.
    pub open spec fn normal_at(&self, p: Vector<int>) -> Vector<int> {
        Vector::<int>::zero().minus(self.gradient_at(p).normalized())
    }

    /// The shadow march toward a light `distance` counts away along `dir`,
    /// now `total` counts on and with least margin `min_dif` so far.
    pub open spec fn shadow_from(
        &self,
        start: Vector<int>,
        dir: Vector<int>,
        distance: int,
        id: u32,
        total: int,
        min_dif: int,
    ) -> int
        decreases (if total < distance { distance - total } else { 0 }),
    {
        if total < distance {
            let d = self.nearest(along(start, dir, total), Some(id)).0;
            let dif = d - SHADOW_THRESHOLD;
            if dif <= 0 {
                0
            } else {
                let m = if dif < min_dif { dif } else { min_dif };
                self.shadow_from(start, dir, distance, id, total + d, m)
            }
        } else if min_dif < UNIT {
            min_dif
        } else {
            UNIT as int
        }
    }

    /// Visibility of a light from `start`, where `direction` points from the
    /// light toward `start` and the light is `distance` counts away, leaving
    /// out group `id`.
    pub open spec fn shadow(&self, start: Vector<int>, direction: Vector<int>, distance: int, id: u32) -> int {
        self.shadow_from(
            start,
            Vector::<int>::zero().minus(direction.normalized()),
            distance,
            id,
            0,
            SHADOW_START as int,
        )
    }

    /// The lights `0..n` folded into (visibility, alignment): each light in
    /// front of the surface raises the alignment to its own if larger and
    /// the visibility to its shadow march's if larger.
    pub open spec fn shade_lights(&self, p: Vector<int>, normal: Vector<int>, id: u32, n: nat) -> (int, int)
        decreases n,
    {
        if n == 0 {
            (0, 0)
        } else {
            let prev = self.shade_lights(p, normal, id, (n - 1) as nat);
            let dv = p.minus(self.light@[n - 1]@);
            let dir = dv.normalized();
            let dot = normal.dot(dir);
            if dot <= 0 {
                prev
            } else {
                let angle = if dot > prev.1 { dot } else { prev.1 };
                let vis = self.shadow(p, dir, dv.length(), id);
                let light = if vis > prev.0 { vis } else { prev.0 };
                (light, angle)
            }
        }
    }

    /// (visibility, alignment) of the surface point `p` owned by group `id`.
    pub open spec fn shade(&self, p: Vector<int>, id: u32) -> (int, int) {
        self.shade_lights(p, self.normal_at(p), id, self.light@.len())
    }

    /// The color a ray from `origin` along `dir` brings back: black on a miss,
    /// otherwise red scaled by the alignment and then by the visibility of the
    /// hit point.
    pub open spec fn color_spec(&self, origin: Vector<int>, dir: Vector<int>) -> Vector<int> {
        match self.march_spec(origin, dir) {
            Some((p, id, _)) => {
                let (light, angle) = self.shade(p, id);
                red(UNIT as int).scaled(angle).scaled(light)
            },
            None => Vector::<int>::zero(),
        }
    }

    /// Screen coordinates of pixel `(px, py)`: `(2 px - w) / w`, `(2 py - h) / h`, 1.
    pub open spec fn uv_of(&self, px: int, py: int) -> Vector<int> {
        let w = self.camera.resolution[0] as int;
        let h = self.camera.resolution[1] as int;
        Vector { x: (2 * px - w) * UNIT as int / w, y: (2 * py - h) * UNIT as int / h, z: UNIT as int }
    }

    /// The 8-bit color of pixel `(px, py)`; background for a camera with a
    /// zero resolution, which maps no pixel to the screen.
    pub open spec fn pixel_spec(&self, px: int, py: int) -> (u8, u8, u8) {
        if self.camera.resolution[0] == 0 || self.camera.resolution[1] == 0 {
            (0, 0, 0)
        } else {
            let c = self.color_spec(self.camera.position@, self.uv_of(px, py).normalized());
            (channel(c.x), channel(c.y), channel(c.z))
        }
    }

    /// A surface never shades itself: where every sphere of the scene belongs
    /// to the group `id` (a scene of one sphere, say), the shadow march from a
    /// point of that group toward a light finds it fully visible.
    pub proof fn lemma_self_shadow_free(&self, start: Vector<int>, direction: Vector<int>, distance: int, id: u32)
        requires
            forall|i: int| 0 <= i < self.spheres@.len() ==> (#[trigger] self.spheres@[i]).id == id,
        ensures
            self.shadow(start, direction, distance, id) == UNIT,
    {
        let dir = Vector::<int>::zero().minus(direction.normalized());
        self.lemma_self_shadow_free_from(start, dir, distance, id, 0, SHADOW_START as int);
    }

    proof fn lemma_self_shadow_free_from(
        &self,
        start: Vector<int>,
        dir: Vector<int>,
        distance: int,
        id: u32,
        total: int,
        min_dif: int,
    )
        requires
            forall|i: int| 0 <= i < self.spheres@.len() ==> (#[trigger] self.spheres@[i]).id == id,
            UNIT <= min_dif <= SHADOW_START,
        ensures
            self.shadow_from(start, dir, distance, id, total, min_dif) == UNIT,
        decreases (if total < distance { distance - total } else { 0 }),
    {
        if total < distance {
            lemma_nothing_counts(self.spheres@, along(start, dir, total), id);
            self.lemma_self_shadow_free_from(start, dir, distance, id, total + FAR, min_dif);
        }
    }

    /// A ray that nowhere along it comes within `HIT_THRESHOLD` of a surface
    /// (one aimed away from every sphere, say) ends in a miss.
    pub proof fn lemma_clear_ray_misses(&self, origin: Vector<int>, dir: Vector<int>)
        requires
            forall|t: int| 0 <= t ==> #[trigger] self.nearest(along(origin, dir, t), None).0 >= HIT_THRESHOLD,
        ensures
            self.march_spec(origin, dir) is None,
    {
        self.lemma_clear_ray_misses_from(origin, dir, 0, STEP_BUDGET as nat);
    }

    proof fn lemma_clear_ray_misses_from(&self, origin: Vector<int>, dir: Vector<int>, t: int, fuel: nat)
        requires
            0 <= t,
            forall|t: int| 0 <= t ==> #[trigger] self.nearest(along(origin, dir, t), None).0 >= HIT_THRESHOLD,
        ensures
            self.march_from(origin, dir, t, fuel) is None,
        decreases fuel,
    {
        if fuel > 0 {
            let d = self.nearest(along(origin, dir, t), None).0;
            if d <= MAX_DISTANCE {
                self.lemma_clear_ray_misses_from(origin, dir, t + d, (fuel - 1) as nat);
            }
        }
    }

    /// A ray of exact unit direction aimed at the center of the scene's only
    /// sphere, from outside it and with the surface no farther than
    /// `MAX_DISTANCE`, hits that sphere after marching the distance to the
    /// center less the radius, up to `HIT_THRESHOLD`.
    pub proof fn lemma_aimed_ray_hits(&self, origin: Vector<int>, dir: Vector<int>, dist: int)
        requires
            self.spheres@.len() == 1,
            dir.norm_sq() == UNIT * UNIT,
            self.spheres@[0].center@ == along(origin, dir, dist),
            self.spheres@[0].center@.minus(origin).norm_sq() == dist * dist,
            self.spheres@[0].radius * UNIT <= dist <= self.spheres@[0].radius * UNIT + MAX_DISTANCE,
        ensures
            self.march_spec(origin, dir) matches Some((p, id, t)) && id == self.spheres@[0].id
                && -HIT_THRESHOLD < t - (dist - self.spheres@[0].radius * UNIT) < HIT_THRESHOLD,
    {
        let sp = self.spheres@;
        let s = sp[0];
        let u = UNIT as int;
        let r = s.radius as int;
        let big_r = r * u;
        crate::primitives::lemma_sphere_distance(s, origin, dist);
        assert(along(origin, dir, 0) == origin) by {
            assert(dir.x * 0 == 0 && dir.y * 0 == 0 && dir.z * 0 == 0);
        }
        lemma_single_sphere(sp, origin);
        if dist - big_r >= HIT_THRESHOLD {
            let t = dist - big_r;
            let p = along(origin, dir, t);
            let arm = Vector::<int> { x: dir.x * r, y: dir.y * r, z: dir.z * r };
            lemma_step_back(dir.x * dist, dir.x * r);
            lemma_step_back(dir.y * dist, dir.y * r);
            lemma_step_back(dir.z * dist, dir.z * r);
            assert(dir.x * t == dir.x * dist - (dir.x * r) * u) by (nonlinear_arith)
                requires
                    t == dist - r * u,
            ;
            assert(dir.y * t == dir.y * dist - (dir.y * r) * u) by (nonlinear_arith)
                requires
                    t == dist - r * u,
            ;
            assert(dir.z * t == dir.z * dist - (dir.z * r) * u) by (nonlinear_arith)
                requires
                    t == dist - r * u,
            ;
            assert(s.center@.minus(p) == arm);
            assert((dir.x * r) * (dir.x * r) == (r * r) * (dir.x * dir.x)) by (nonlinear_arith);
            assert((dir.y * r) * (dir.y * r) == (r * r) * (dir.y * dir.y)) by (nonlinear_arith);
            assert((dir.z * r) * (dir.z * r) == (r * r) * (dir.z * dir.z)) by (nonlinear_arith);
            vstd::arithmetic::mul::lemma_mul_is_distributive_add(r * r, dir.x * dir.x, dir.y * dir.y);
            vstd::arithmetic::mul::lemma_mul_is_distributive_add(
                r * r,
                dir.x * dir.x + dir.y * dir.y,
                dir.z * dir.z,
            );
            assert((r * r) * (u * u) == big_r * big_r) by (nonlinear_arith)
                requires
                    big_r == r * u,
            ;
            assert(arm.norm_sq() == big_r * big_r);
            assert(0 <= big_r) by (nonlinear_arith)
                requires
                    big_r == r * u,
                    0 <= r,
                    0 < u,
            ;
            crate::arith::lemma_floor_sqrt_of_square(big_r);
            assert(s.distance_at(p) == 0);
            lemma_single_sphere(sp, p);
            assert(self.march_from(origin, dir, t, 99) == Some((p, s.id, t)));
        }
    }

    /// A ray that never runs backward in z, from a point that every sphere
    /// lies behind (by more than `HIT_THRESHOLD`), ends in a miss.
    pub proof fn lemma_forward_ray_misses(&self, origin: Vector<int>, dir: Vector<int>)
        requires
            dir.z >= 0,
            forall|i: int|
                0 <= i < self.spheres@.len() ==> (#[trigger] self.spheres@[i]).center.z + self.spheres@[i].radius
                    * UNIT + HIT_THRESHOLD <= origin.z,
        ensures
            self.march_spec(origin, dir) is None,
    {
        assert forall|t: int| 0 <= t implies #[trigger] self.nearest(along(origin, dir, t), None).0
            >= HIT_THRESHOLD by {
            let p = along(origin, dir, t);
            assert(0 <= dir.z * t) by (nonlinear_arith)
                requires
                    0 <= dir.z,
                    0 <= t,
            ;
            vstd::arithmetic::div_mod::lemma_div_pos_is_pos(dir.z * t, UNIT as int);
            assert forall|i: int| 0 <= i < self.spheres@.len() implies (#[trigger] self.spheres@[i]).distance_at(p)
                >= HIT_THRESHOLD by {
                let s = self.spheres@[i];
                let v = s.center@.minus(p);
                assert(0 <= v.x * v.x && 0 <= v.y * v.y && 0 <= v.z * v.z) by (nonlinear_arith);
                crate::arith::lemma_floor_sqrt_bounds(v.norm_sq(), v.z);
            }
            lemma_nearest_at_least(self.spheres@, p, None, HIT_THRESHOLD as int);
        }
        self.lemma_clear_ray_misses(origin, dir);
    }

    /// When every sphere lies behind the camera (by more than
    /// `HIT_THRESHOLD`), every pixel is background.
    pub proof fn lemma_scene_behind_camera_is_dark(&self, px: int, py: int)
        requires
            forall|i: int|
                0 <= i < self.spheres@.len() ==> (#[trigger] self.spheres@[i]).center.z + self.spheres@[i].radius
                    * UNIT + HIT_THRESHOLD <= self.camera.position.z,
        ensures
            self.pixel_spec(px, py) == (0u8, 0u8, 0u8),
    {
        if self.camera.resolution[0] != 0 && self.camera.resolution[1] != 0 {
            let uv = self.uv_of(px, py);
            lemma_normalized_z(uv);
            self.lemma_forward_ray_misses(self.camera.position@, uv.normalized());
            assert(0int * 255 / UNIT as int == 0);
        }
    }

    pub fn new(spheres: Vec<Sphere>, light: Vec<Vector<i64>>, camera: Camera) -> (r: Scene)
        ensures
            r.spheres@ == spheres@,
            r.light@ == light@,
            r.camera == camera,
    {
        Scene { spheres, light, camera }
    }

    /// Whether every coordinate and radius of the scene lies within `COORD_LIMIT`.
    pub fn is_valid(&self) -> (r: bool)
        ensures
            r == self.wf(),
    {
        let mut i: usize = 0;
        while i < self.spheres.len()
            invariant
                0 <= i <= self.spheres@.len(),
                forall|k: int| 0 <= k < i ==> (#[trigger] self.spheres@[k]).placed(),
            decreases self.spheres@.len() - i,
        {
            if !within(&self.spheres[i].center, COORD_LIMIT) || self.spheres[i].radius as i64 * UNIT
                > COORD_LIMIT {
                return false;
            }
            i = i + 1;
        }
        let mut j: usize = 0;
        while j < self.light.len()
            invariant
                0 <= j <= self.light@.len(),
                forall|i: int| 0 <= i < self.spheres@.len() ==> (#[trigger] self.spheres@[i]).placed(),
                forall|k: int| 0 <= k < j ==> (#[trigger] self.light@[k])@.bounded(COORD_LIMIT as int),
            decreases self.light@.len() - j,
        {
            if !within(&self.light[j], COORD_LIMIT) {
                return false;
            }
            j = j + 1;
        }
        within(&self.camera.position, COORD_LIMIT)
    }

    fn closest(&self, point: &Vector<i64>, skip: Option<u32>) -> (r: (i64, u32))
        requires
            self.wf(),
            point@.bounded(POINT_LIMIT as int),
        ensures
            (r.0 as int, r.1) == self.nearest(point@, skip),
    {
        let mut min: i64 = FAR;
        let mut id: u32 = 0;
        let n = self.spheres.len();
        let mut i: usize = 0;
        while i < n
            invariant
                self.wf(),
                point@.bounded(POINT_LIMIT as int),
                n == self.spheres@.len(),
                0 <= i <= n,
                (min as int, id) == nearest_among(self.spheres@.subrange(0, i as int), point@, skip),
            decreases n - i,
        {
            let sphere = &self.spheres[i];
            proof {
                assert(self.spheres@.subrange(0, i + 1).drop_last() =~= self.spheres@.subrange(0, i as int));
                assert(self.spheres@[i as int].placed());
            }
            let skipped: bool = match skip {
                Some(g) => sphere.id == g,
                None => false,
            };
            if !skipped {
                let distance: i64 = sphere.sdf(point);
                if distance < min {
                    min = distance;
                    id = sphere.id;
                }
            }
            i = i + 1;
        }
        proof {
            assert(self.spheres@.subrange(0, n as int) =~= self.spheres@);
        }
        (min, id)
    }

    /// The least signed distance from `point` to any sphere, and the id of the
    /// first sphere that attains it; `(FAR, 0)` for a scene without spheres.
    pub fn distance_to_closest(&self, point: &Vector<i64>) -> (r: (i64, u32))
        requires
            self.wf(),
            point@.bounded(POINT_LIMIT as int),
        ensures
            (r.0 as int, r.1) == self.nearest(point@, None),
    {
        self.closest(point, None)
    }

    /// Marches `ray` through the scene: `Some` hit exactly when some step of
    /// the march comes within `HIT_THRESHOLD` of a surface before a distance
    /// exceeds `MAX_DISTANCE` and before `STEP_BUDGET` steps are spent.
    pub fn march(&self, ray: &Ray) -> (r: Option<Hit>)
        requires
            self.wf(),
            ray.position@.bounded(COORD_LIMIT as int),
            ray.direction@.bounded(UNIT as int),
        ensures
            hit_view(r) == self.march_spec(ray.position@, ray.direction@),
            r matches Some(h) ==> h.position@.bounded(SHADE_LIMIT as int) && 0 <= h.travelled,
    {
        let mut total_distance: i64 = 0;
        let mut step: u32 = 0;
        while step < STEP_BUDGET
            invariant
                self.wf(),
                ray.position@.bounded(COORD_LIMIT as int),
                ray.direction@.bounded(UNIT as int),
                0 <= step <= STEP_BUDGET,
                0 <= total_distance <= step as int * MAX_DISTANCE,
                self.march_spec(ray.position@, ray.direction@) == self.march_from(
                    ray.position@,
                    ray.direction@,
                    total_distance as int,
                    (STEP_BUDGET - step) as nat,
                ),
            decreases STEP_BUDGET - step,
        {
            let current_position: Vector<i64> = point_at(ray.position, ray.direction, total_distance);
            proof {
                lemma_unit_step(ray.direction.x as int, total_distance as int);
                lemma_unit_step(ray.direction.y as int, total_distance as int);
                lemma_unit_step(ray.direction.z as int, total_distance as int);
            }
            let (distance, id) = self.distance_to_closest(&current_position);
            if distance < HIT_THRESHOLD {
                return Some(Hit { position: current_position, owner: id, travelled: total_distance });
            }
            if distance > MAX_DISTANCE {
                return None;
            }
            total_distance = total_distance + distance;
            step = step + 1;
        }
        None
    }

    /// Estimates the surface normal at `point` by finite differences of the
    /// fine distances, normalized and negated.
    pub fn calculate_normal(&self, point: Vector<i64>) -> (r: Vector<i64>)
        requires
            self.wf(),
            point@.bounded(SHADE_LIMIT as int),
        ensures
            r@ == self.normal_at(point@),
            r@.bounded(UNIT as int),
            r@.length() <= UNIT + 4,
            self.gradient_at(point@).norm_sq() > 0 ==> UNIT - 4 <= r@.length(),
    {
        let gradient_x: i64 = self.gradient(point, Vector::new(NORMAL_STEP, 0, 0));
        let gradient_y: i64 = self.gradient(point, Vector::new(0, NORMAL_STEP, 0));
        let gradient_z: i64 = self.gradient(point, Vector::new(0, 0, NORMAL_STEP));
        let mut normal: Vector<i64> = Vector::new(gradient_x, gradient_y, gradient_z);
        normal = normal.normalize();
        let r = Vector::new(0, 0, 0).sub(normal);
        proof {
            assert(r@.norm_sq() == normal@.norm_sq()) by (nonlinear_arith)
                requires
                    r@.x == -normal@.x,
                    r@.y == -normal@.y,
                    r@.z == -normal@.z,
            ;
        }
        r
    }

    /// Distance at `point + step` minus distance at `point - step`.
    fn gradient(&self, point: Vector<i64>, step: Vector<i64>) -> (r: i64)
        requires
            self.wf(),
            point@.bounded(SHADE_LIMIT as int),
            step@.bounded(NORMAL_STEP as int),
        ensures
            r == fine_nearest(self.spheres@, point@.plus(step@)) - fine_nearest(self.spheres@, point@.minus(step@)),
            -VECTOR_LIMIT <= r <= VECTOR_LIMIT,
    {
        let ahead: Vector<i64> = point.add(step);
        let behind: Vector<i64> = point.sub(step);
        let a: i64 = self.fine_closest(&ahead);
        let b: i64 = self.fine_closest(&behind);
        proof {
            lemma_fine_nearest_range(self.spheres@, ahead@);
            lemma_fine_nearest_range(self.spheres@, behind@);
        }
        a - b
    }

    /// The least signed distance from `point` to any sphere, in fine counts;
    /// `FAR` for a scene without spheres.
    fn fine_closest(&self, point: &Vector<i64>) -> (r: i64)
        requires
            self.wf(),
            point@.bounded(FINE_POINT_LIMIT as int - COORD_LIMIT),
        ensures
            r as int == fine_nearest(self.spheres@, point@),
    {
        let mut min: i64 = FAR;
        let n = self.spheres.len();
        let mut i: usize = 0;
        while i < n
            invariant
                self.wf(),
                point@.bounded(FINE_POINT_LIMIT as int - COORD_LIMIT),
                n == self.spheres@.len(),
                0 <= i <= n,
                min as int == fine_nearest(self.spheres@.subrange(0, i as int), point@),
            decreases n - i,
        {
            proof {
                assert(self.spheres@.subrange(0, i + 1).drop_last() =~= self.spheres@.subrange(0, i as int));
                assert(self.spheres@[i as int].placed());
            }
            let distance: i64 = self.spheres[i].fine_sdf(point);
            if distance < min {
                min = distance;
            }
            i = i + 1;
        }
        proof {
            assert(self.spheres@.subrange(0, n as int) =~= self.spheres@);
        }
        min
    }

    /// Visibility, in `[0, UNIT]`, of a light `distance` counts away from
    /// `start_position`, seen along the reverse of `direction`; spheres of
    /// group `id` are ignored. Zero when a sphere blocks the light; below
    /// `UNIT` when the march passes within a unit of one.
    pub fn cast_light(&self, start_position: Vector<i64>, direction: Vector<i64>, distance: i64, id: u32) -> (r: i64)
        requires
            self.wf(),
            start_position@.bounded(SHADE_LIMIT as int),
            direction@.bounded(VECTOR_LIMIT as int),
            0 <= distance <= TRACE_LIMIT,
        ensures
            r as int == self.shadow(start_position@, direction@, distance as int, id),
            0 <= r <= UNIT,
    {
        let mut total_distance: i64 = 0;
        let toward: Vector<i64> = Vector::new(0, 0, 0).sub(direction.normalize());
        let mut min_dif: i64 = SHADOW_START;
        while total_distance < distance
            invariant
                self.wf(),
                start_position@.bounded(SHADE_LIMIT as int),
                toward@.bounded(UNIT as int),
                0 <= distance <= TRACE_LIMIT,
                0 <= total_distance,
                0 < min_dif <= SHADOW_START,
                self.shadow(start_position@, direction@, distance as int, id) == self.shadow_from(
                    start_position@,
                    toward@,
                    distance as int,
                    id,
                    total_distance as int,
                    min_dif as int,
                ),
            decreases (if total_distance < distance { distance - total_distance } else { 0 }),
        {
            let current_position: Vector<i64> = point_at(start_position, toward, total_distance);
            let (distance_to_closest, _) = self.distance_to_closest_offset(&current_position, id);
            proof {
                lemma_nearest_range(self.spheres@, current_position@, Some(id));
            }
            let dif: i64 = distance_to_closest - SHADOW_THRESHOLD;
            if dif <= 0 {
                return 0;
            }
            if dif < min_dif {
                min_dif = dif;
            }
            total_distance = total_distance + distance_to_closest;
        }
        if min_dif < UNIT {
            min_dif
        } else {
            UNIT
        }
    }

    /// The visibility and the alignment of the surface point `start_position`
    /// owned by group `id`: over the lights in front of the surface, the
    /// largest shadow visibility and the largest cosine between the normal and
    /// the light's direction. Rounding may carry the cosine up to ten counts
    /// past `UNIT`, never more.
    pub fn light_process(&self, start_position: Vector<i64>, id: u32) -> (r: (i64, i64))
        requires
            self.wf(),
            start_position@.bounded(SHADE_LIMIT as int),
        ensures
            (r.0 as int, r.1 as int) == self.shade(start_position@, id),
            0 <= r.0 <= UNIT,
            0 <= r.1 <= UNIT + 10,
    {
        let normal: Vector<i64> = self.calculate_normal(start_position);
        let mut light: i64 = 0;
        let mut light_angle: i64 = 0;
        let n = self.light.len();
        let mut i: usize = 0;
        while i < n
            invariant
                self.wf(),
                start_position@.bounded(SHADE_LIMIT as int),
                normal@ == self.normal_at(start_position@),
                normal@.bounded(UNIT as int),
                normal@.length() <= UNIT + 4,
                n == self.light@.len(),
                0 <= i <= n,
                (light as int, light_angle as int) == self.shade_lights(start_position@, normal@, id, i as nat),
                0 <= light <= UNIT,
                0 <= light_angle <= UNIT + 10,
            decreases n - i,
        {
            let light_source: Vector<i64> = self.light[i];
            proof {
                assert(self.light@[i as int]@.bounded(COORD_LIMIT as int));
            }
            let difference: Vector<i64> = start_position.sub(light_source);
            let distance: i64 = difference.len();
            proof {
                lemma_length_below(difference@, SHADE_LIMIT + COORD_LIMIT);
            }
            let direction: Vector<i64> = difference.normalize();
            let dot: i64 = normal.dot(&direction);
            proof {
                lemma_dot_of_units(normal@, direction@);
            }
            if dot > 0 {
                if dot > light_angle {
                    light_angle = dot;
                }
                let result: i64 = self.cast_light(start_position, direction, distance, id);
                if result > light {
                    light = result;
                }
            }
            i = i + 1;
        }
        (light, light_angle)
    }

    /// The color of `ray`: black when the march misses, otherwise red scaled
    /// by the alignment and the visibility of the hit point.
    pub fn ray_march(&self, ray: &Ray) -> (r: Vector<i64>)
        requires
            self.wf(),
            ray.position@.bounded(COORD_LIMIT as int),
            ray.direction@.bounded(UNIT as int),
        ensures
            r@ == self.color_spec(ray.position@, ray.direction@),
            0 <= r@.x <= UNIT + 10,
            r@.y == 0,
            r@.z == 0,
    {
        match self.march(ray) {
            Some(hit) => {
                let (light, light_angle) = self.light_process(hit.position, hit.owner);
                proof {
                    lemma_red(light_angle as int, light as int);
                }
                Vector::new(UNIT, 0, 0).mul(light_angle).mul(light)
            },
            None => Vector::new(0, 0, 0),
        }
    }

    /// The color of the ray from the camera along the screen coordinates `uv`.
    pub fn fragment(&self, uv: Vector<i64>) -> (r: Vector<i64>)
        requires
            self.wf(),
            uv@.bounded(VECTOR_LIMIT as int),
        ensures
            r@ == self.color_spec(self.camera.position@, uv@.normalized()),
            0 <= r@.x <= UNIT + 10,
            r@.y == 0,
            r@.z == 0,
    {
        let ro: Vector<i64> = self.camera.position;
        let mut ray: Ray = Ray::new(uv, ro);
        ray.normalize();
        self.ray_march(&ray)
    }

    /// The 8-bit color of pixel `(x, y)`.
    pub fn pixel(&self, x: u32, y: u32) -> (r: (u8, u8, u8))
        requires
            self.wf(),
        ensures
            r == self.pixel_spec(x as int, y as int),
    {
        if self.camera.resolution[0] == 0 || self.camera.resolution[1] == 0 {
            return (0, 0, 0);
        }
        let resx: i128 = self.camera.resolution[0] as i128;
        let resy: i128 = self.camera.resolution[1] as i128;
        proof {
            lemma_screen_coordinate(x as int, resx as int);
            lemma_screen_coordinate(y as int, resy as int);
        }
        let u: i128 = crate::arith::div_floor((2 * x as i128 - resx) * UNIT as i128, resx);
        let v: i128 = crate::arith::div_floor((2 * y as i128 - resy) * UNIT as i128, resy);
        let uv: Vector<i64> = Vector::new(u as i64, v as i64, UNIT);
        let color: Vector<i64> = self.fragment(uv);
        (to_channel(color.x), to_channel(color.y), to_channel(color.z))
    }

    /// Colors every pixel of `img` by `pixel`.
    pub fn render(&self, img: &mut Canvas)
        requires
            self.wf(),
        ensures
            width_of(*final(img)) == width_of(*old(img)),
            height_of(*final(img)) == height_of(*old(img)),
            forall|x: u32, y: u32|
                x < width_of(*old(img)) && y < height_of(*old(img)) ==> {
                    &&& #[trigger] pixels_of(*final(img)).contains_key((x, y))
                    &&& pixels_of(*final(img))[(x, y)] == self.pixel_spec(x as int, y as int)
                },
    {
        let width: u32 = img.width();
        let height: u32 = img.height();
        let mut y: u32 = 0;
        while y < height
            invariant
                self.wf(),
                width == width_of(*old(img)),
                height == height_of(*old(img)),
                width_of(*img) == width,
                height_of(*img) == height,
                0 <= y <= height,
                forall|a: u32, b: u32|
                    a < width && b < y ==> {
                        &&& #[trigger] pixels_of(*img).contains_key((a, b))
                        &&& pixels_of(*img)[(a, b)] == self.pixel_spec(a as int, b as int)
                    },
            decreases height - y,
        {
            let mut x: u32 = 0;
            while x < width
                invariant
                    self.wf(),
                    width_of(*img) == width,
                    height_of(*img) == height,
                    0 <= x <= width,
                    y < height,
                    forall|a: u32, b: u32|
                        (a < width && b < y) || (a < x && b == y) ==> {
                            &&& #[trigger] pixels_of(*img).contains_key((a, b))
                            &&& pixels_of(*img)[(a, b)] == self.pixel_spec(a as int, b as int)
                        },
                decreases width - x,
            {
                let rgb = self.pixel(x, y);
                img.put(x, y, rgb);
                x = x + 1;
            }
            y = y + 1;
        }
    }

    /// As `distance_to_closest`, leaving out every sphere of group `offset`.
    pub fn distance_to_closest_offset(&self, point: &Vector<i64>, offset: u32) -> (r: (i64, u32))
        requires
            self.wf(),
            point@.bounded(POINT_LIMIT as int),
        ensures
            (r.0 as int, r.1) == self.nearest(point@, Some(offset)),
    {
        self.closest(point, Some(offset))
    }
}

} // verus!
