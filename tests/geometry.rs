use raymarch::arith::{div_floor, isqrt, UNIT};
use raymarch::linear::Vector;
use raymarch::primitives::{Ray, Sphere};

fn v(x: i64, y: i64, z: i64) -> Vector<i64> {
    Vector::new(x, y, z)
}

#[test]
fn vector_new_keeps_components() {
    let a = Vector::new(1, -2, 3);
    assert_eq!((a.x, a.y, a.z), (1, -2, 3));
}

#[test]
fn isqrt_exact_and_floor() {
    assert_eq!(isqrt(0), 0);
    assert_eq!(isqrt(1), 1);
    assert_eq!(isqrt(15), 3);
    assert_eq!(isqrt(16), 4);
    assert_eq!(isqrt(1_000_000_000_000), 1_000_000);
    assert_eq!(isqrt(u128::MAX), u64::MAX);
}

#[test]
fn div_floor_rounds_down() {
    assert_eq!(div_floor(7, 2), 3);
    assert_eq!(div_floor(-7, 2), -4);
    assert_eq!(div_floor(-6, 2), -3);
    assert_eq!(div_floor(-1, 1_000_000), -1);
}

#[test]
fn add_sub_mul() {
    let a = v(1, 2, 3);
    let b = v(10, 20, 30);
    assert_eq!(a.add(b), v(11, 22, 33));
    assert_eq!(a.sub(b), v(-9, -18, -27));
    assert_eq!(v(2 * UNIT, -3 * UNIT, 5).mul(UNIT / 2), v(UNIT, -3 * UNIT / 2, 2));
    assert_eq!(v(-1, 0, 1).mul(1), v(-1, 0, 0));
}

#[test]
fn dot_and_len() {
    assert_eq!(v(UNIT, 2 * UNIT, 3 * UNIT).dot(&v(4 * UNIT, -5 * UNIT, 6 * UNIT)), 12 * UNIT);
    assert_eq!(v(3 * UNIT, 4 * UNIT, 12 * UNIT).len(), 13 * UNIT);
    assert_eq!(v(1, 1, 0).len(), 1);
}

#[test]
fn normalize_has_unit_length() {
    assert_eq!(v(3 * UNIT, 4 * UNIT, 0).normalize(), v(600_000, 800_000, 0));
    assert_eq!(v(3 * UNIT, 4 * UNIT, 0).normalize().len(), UNIT);
    let n = v(UNIT, 2 * UNIT, 3 * UNIT).normalize();
    assert_eq!(n, v(267_261, 534_522, 801_783));
    assert!((n.len() - UNIT).abs() <= 3);
    let m = v(-7 * UNIT, 0, 24 * UNIT).normalize();
    assert!((m.len() - UNIT).abs() <= 3);
}

#[test]
fn normalize_short_vectors_to_unit_length() {
    assert_eq!(v(141, 141, 0).normalize(), v(707_106, 707_106, 0));
    assert!((v(141, 141, 0).normalize().len() - UNIT).abs() <= 4);
    assert_eq!(v(1, 1, 1).normalize(), v(577_350, 577_350, 577_350));
    assert!((v(1, 1, 1).normalize().len() - UNIT).abs() <= 4);
    assert_eq!(v(0, 0, -1).normalize(), v(0, 0, -UNIT));
}

#[test]
fn normalize_zero_is_zero() {
    assert_eq!(v(0, 0, 0).normalize(), v(0, 0, 0));
}

#[test]
fn sphere_distance_at_center_and_outside() {
    let s = Sphere::new(10, v(0, 0, 20 * UNIT), 1);
    assert_eq!(s.sdf(&v(0, 0, 20 * UNIT)), -10 * UNIT);
    assert_eq!(s.sdf(&v(0, 0, 45 * UNIT)), 15 * UNIT);
    assert_eq!(s.sdf(&v(0, 0, 10 * UNIT)), 0);
    assert_eq!(s.sdf(&v(3 * UNIT, 4 * UNIT, 20 * UNIT)), -5 * UNIT);
}

#[test]
fn sphere_fine_distance() {
    let s = Sphere::new(10, v(0, 0, 20 * UNIT), 1);
    assert_eq!(s.fine_sdf(&v(0, 0, 45 * UNIT)), 15 * UNIT * 10_000);
    assert_eq!(s.fine_sdf(&v(0, 0, 20 * UNIT)), -10 * UNIT * 10_000);
    assert_eq!(s.fine_sdf(&v(0, 0, 10 * UNIT - 1)), 10_000);
}

#[test]
fn ray_normalize_keeps_position() {
    let mut r = Ray::new(v(0, 0, 5 * UNIT), v(1, 2, 3));
    r.normalize();
    assert_eq!(r.direction, v(0, 0, UNIT));
    assert_eq!(r.position, v(1, 2, 3));
    let mut short = Ray::new(v(141, 141, 0), v(0, 0, 0));
    short.normalize();
    assert_eq!(short.direction, v(707_106, 707_106, 0));
}

#[test]
fn compound_assignments() {
    let mut a = v(1, 2, 3);
    a.add_assign(v(10, 10, 10));
    assert_eq!(a, v(11, 12, 13));
    a.sub_assign(v(1, 2, 3));
    assert_eq!(a, v(10, 10, 10));
    let mut b = v(2 * UNIT, -UNIT, 3);
    b.mul_assign(3 * UNIT);
    assert_eq!(b, v(6 * UNIT, -3 * UNIT, 9));
}

#[test]
fn scalar_and_componentwise_division() {
    assert_eq!(v(6 * UNIT, -3 * UNIT, 7).div(2 * UNIT), v(3 * UNIT, -3 * UNIT / 2, 3));
    assert_eq!(v(6 * UNIT, -3 * UNIT, 7).div(-2 * UNIT), v(-3 * UNIT, 3 * UNIT / 2, -4));
    let mut c = v(6 * UNIT, 6 * UNIT, -6 * UNIT);
    c.div_assign(v(2 * UNIT, 4 * UNIT, 4 * UNIT));
    assert_eq!(c, v(3 * UNIT, 3 * UNIT / 2, -3 * UNIT / 2));
}
