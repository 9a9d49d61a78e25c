//! Fixed-point constants and the two integer operations the geometry needs:
//! floor division and the floor square root.

use vstd::prelude::*;

verus! {

/// One scene unit, in fixed-point counts.
pub const UNIT: i64 = 1_000_000;

/// The floor square root of `n`: the unique `r >= 0` with `r * r <= n < (r + 1) * (r + 1)`.
pub open spec fn is_floor_root(n: int, r: int) -> bool {
    0 <= r && r * r <= n && n < (r + 1) * (r + 1)
}

pub open spec fn floor_sqrt(n: int) -> int {
    choose|r: int| #[trigger] is_floor_root(n, r)
}

/// The floor root is unique.
pub proof fn lemma_floor_root_unique(n: int, a: int, b: int)
    requires
        is_floor_root(n, a),
        is_floor_root(n, b),
    ensures
        a == b,
{
    if a < b {
        assert((a + 1) * (a + 1) <= b * b) by (nonlinear_arith)
            requires
                0 <= a,
                a + 1 <= b,
        ;
    } else if b < a {
        assert((b + 1) * (b + 1) <= a * a) by (nonlinear_arith)
            requires
                0 <= b,
                b + 1 <= a,
        ;
    }
}

/// Once one floor root is known, `floor_sqrt` names it.
pub proof fn lemma_floor_sqrt_is(n: int, r: int)
    requires
        is_floor_root(n, r),
    ensures
        floor_sqrt(n) == r,
{
    assert(is_floor_root(n, floor_sqrt(n)));
    lemma_floor_root_unique(n, r, floor_sqrt(n));
}

/// The root of an exact square.
pub proof fn lemma_floor_sqrt_of_square(d: int)
    requires
        0 <= d,
    ensures
        floor_sqrt(d * d) == d,
{
    assert(d * d < (d + 1) * (d + 1)) by (nonlinear_arith)
        requires
            0 <= d,
    ;
    lemma_floor_sqrt_is(d * d, d);
}

/// A component never exceeds the root of a sum of squares that contains it.
pub proof fn lemma_floor_sqrt_bounds(n: int, x: int)
    requires
        x * x <= n,
    ensures
        -floor_sqrt(n) <= x <= floor_sqrt(n),
        0 <= floor_sqrt(n),
{
    let r = floor_sqrt(n);
    assert(0 <= x * x) by (nonlinear_arith);
    assert(is_floor_root(n, r)) by {
        lemma_floor_root_exists(n);
    }
    if x > r {
        assert((r + 1) * (r + 1) <= x * x) by (nonlinear_arith)
            requires
                0 <= r,
                r + 1 <= x,
        ;
    } else if x < -r {
        assert((r + 1) * (r + 1) <= x * x) by (nonlinear_arith)
            requires
                0 <= r,
                r + 1 <= -x,
        ;
    }
}

/// Every non-negative integer has a floor root.
pub proof fn lemma_floor_root_exists(n: int)
    requires
        0 <= n,
    ensures
        exists|r: int| #[trigger] is_floor_root(n, r),
    decreases n,
{
    if n == 0 {
        assert(is_floor_root(0, 0));
    } else {
        lemma_floor_root_exists(n - 1);
        let r = choose|r: int| #[trigger] is_floor_root(n - 1, r);
        if n < (r + 1) * (r + 1) {
            assert(is_floor_root(n, r));
        } else {
            assert((r + 1) * (r + 1) <= n);
            assert(n < (r + 2) * (r + 2)) by (nonlinear_arith)
                requires
                    n - 1 < (r + 1) * (r + 1),
                    0 <= r,
            ;
            assert(is_floor_root(n, r + 1));
        }
    }
}

/// Floor square root by bisection.
pub fn isqrt(n: u128) -> (r: u64)
    ensures
        is_floor_root(n as int, r as int),
        r as int == floor_sqrt(n as int),
{
    // invariant: lo * lo <= n < hi * hi
    let mut lo: u128 = 0;
    let mut hi: u128 = 0x1_0000_0000_0000_0000;
    assert(n < hi * hi) by (nonlinear_arith)
        requires
            hi == 0x1_0000_0000_0000_0000u128,
            n <= u128::MAX,
    ;
    while hi - lo > 1
        invariant
            lo < hi <= 0x1_0000_0000_0000_0000,
            lo * lo <= n,
            n < hi * hi,
        decreases hi - lo,
    {
        let mid: u128 = lo + (hi - lo) / 2;
        assert(mid * mid <= 0xffff_ffff_ffff_ffff_ffff_ffff_ffff_ffff) by (nonlinear_arith)
            requires
                mid < 0x1_0000_0000_0000_0000,
        ;
        if mid * mid <= n {
            lo = mid;
        } else {
            hi = mid;
        }
    }
    assert(hi == lo + 1);
    proof {
        lemma_floor_sqrt_is(n as int, lo as int);
    }
    lo as u64
}

/// Floor division by a positive divisor.
pub fn div_floor(a: i128, b: i128) -> (q: i128)
    requires
        b > 0,
    ensures
        q as int == a as int / b as int,
{
    if a >= 0 {
        a / b
    } else {
        let na: i128 = -(a + 1);
        let t: i128 = na / b;
        proof {
            let ai = a as int;
            let bi = b as int;
            let ti = t as int;
            let m = (na as int) % bi;
            assert(na as int == bi * ti + m && 0 <= m < bi) by {
                vstd::arithmetic::div_mod::lemma_fundamental_div_mod(na as int, bi);
            }
            // a = -(na + 1) = b * (-t - 1) + (b - 1 - m)
            assert(ai == bi * (-ti - 1) + (bi - 1 - m)) by (nonlinear_arith)
                requires
                    na as int == bi * ti + m,
                    na as int == -(ai + 1),
            ;
            vstd::arithmetic::div_mod::lemma_fundamental_div_mod_converse(
                ai,
                bi,
                -ti - 1,
                bi - 1 - m,
            );
        }
        -t - 1
    }
}

} // verus!
