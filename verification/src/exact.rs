//! Exact integer arithmetic shared by the geometric routines: rounded-down
//! division, cross products and scaling by a fraction of the unit interval.
use vstd::prelude::*;

verus! {

/// Largest magnitude of the difference of two `i32` coordinates.
pub open spec fn delta_bound() -> int {
    0xFFFF_FFFF
}

/// Largest magnitude of the cross product of two coordinate differences.
pub open spec fn cross_bound() -> int {
    2 * delta_bound() * delta_bound()
}

/// The 2D cross product `r x s`.
pub open spec fn cross(rx: int, ry: int, sx: int, sy: int) -> int {
    rx * sy - ry * sx
}

/// Whether the fraction `n / d` lies in the closed unit interval. False for `d == 0`.
pub open spec fn in_unit(n: int, d: int) -> bool {
    if d > 0 {
        0 <= n <= d
    } else {
        d < 0 && d <= n <= 0
    }
}

/// `n / d` rounded down, for `d != 0`.
pub open spec fn ratio_floor(n: int, d: int) -> int {
    if d > 0 {
        n / d
    } else {
        (-n) / (-d)
    }
}

/// `a * n / d` rounded down, for `d != 0`.
pub open spec fn scale_floor(a: int, n: int, d: int) -> int {
    ratio_floor(a * n, d)
}

/// A product is bounded by the product of the bounds of its factors.
pub proof fn lemma_mul_bound(a: int, b: int, ba: int, bb: int)
    by (nonlinear_arith)
    requires
        -ba <= a <= ba,
        -bb <= b <= bb,
    ensures
        -(ba * bb) <= a * b <= ba * bb,
{
}

/// Rounded-down division is the unique quotient with a remainder in `[0, d)`.
pub proof fn lemma_floor_unique(a: int, d: int, q: int)
    by (nonlinear_arith)
    requires
        d > 0,
        q * d <= a < q * d + d,
    ensures
        a / d == q,
{
}

/// Rounded-down division brackets the dividend.
pub proof fn lemma_floor_bracket(a: int, d: int)
    by (nonlinear_arith)
    requires
        d > 0,
    ensures
        (a / d) * d <= a < (a / d) * d + d,
{
}

/// Scaling by a fraction of the unit interval stays between zero and the scaled value.
pub proof fn lemma_scale_floor_range(a: int, n: int, d: int)
    requires
        in_unit(n, d),
    ensures
        a >= 0 ==> 0 <= scale_floor(a, n, d) <= a,
        a <= 0 ==> a <= scale_floor(a, n, d) <= 0,
        n == 0 ==> scale_floor(a, n, d) == 0,
        n == d ==> scale_floor(a, n, d) == a,
{
    let (m, e) = if d > 0 { (n, d) } else { (-n, -d) };
    assert(scale_floor(a, n, d) == (a * m) / e) by (nonlinear_arith)
        requires
            d != 0,
            (m == n && e == d && d > 0) || (m == -n && e == -d && d < 0),
            scale_floor(a, n, d) == if d > 0 { (a * n) / d } else { (-(a * n)) / (-d) },
    ;
    let q = (a * m) / e;
    lemma_floor_bracket(a * m, e);
    assert(a >= 0 ==> 0 <= q <= a) by (nonlinear_arith)
        requires
            e > 0,
            0 <= m <= e,
            q * e <= a * m < q * e + e,
    ;
    assert(a <= 0 ==> a <= q <= 0) by (nonlinear_arith)
        requires
            e > 0,
            0 <= m <= e,
            q * e <= a * m < q * e + e,
    ;
    assert(m == 0 ==> q == 0) by (nonlinear_arith)
        requires
            e > 0,
            q * e <= a * m < q * e + e,
    ;
    assert(m == e ==> q == a) by (nonlinear_arith)
        requires
            e > 0,
            q * e <= a * m < q * e + e,
    ;
}

/// When the numerator is a multiple of the denominator, scaling is exact.
pub proof fn lemma_scale_floor_exact(a: int, k: int, h: int)
    requires
        a != 0,
        h != 0,
    ensures
        scale_floor(a, k * h, a * h) == k,
{
    let d = a * h;
    assert(d != 0) by (nonlinear_arith)
        requires
            a != 0,
            h != 0,
            d == a * h,
    ;
    if d > 0 {
        assert(k * d <= a * (k * h) < k * d + d) by (nonlinear_arith)
            requires
                d == a * h,
                d > 0,
        ;
        lemma_floor_unique(a * (k * h), d, k);
    } else {
        assert(k * (-d) <= -(a * (k * h)) < k * (-d) + (-d)) by (nonlinear_arith)
            requires
                d == a * h,
                d < 0,
        ;
        lemma_floor_unique(-(a * (k * h)), -d, k);
    }
}

/// A fraction of the unit interval stays one when both of its terms are
/// multiplied by the same number.
pub proof fn lemma_in_unit_scaled(k: int, a: int, h: int)
    by (nonlinear_arith)
    requires
        h != 0,
        in_unit(k, a),
    ensures
        in_unit(k * h, a * h),
{
}

/// Division rounded toward negative infinity.
pub fn floor_div(a: i128, d: i128) -> (q: i128)
    requires
        d > 0,
    ensures
        q == a as int / d as int,
{
    let t: i128 = a / d;
    let r: i128 = a % d;
    let ghost ai = a as int;
    let ghost di = d as int;
    assert(ai == t * di + r) by (nonlinear_arith)
        requires
            t == (if ai >= 0 { ai / di } else { -((-ai) / di) }),
            r == (if ai >= 0 { ai % di } else { -((-ai) % di) }),
            di > 0,
    ;
    if r < 0 {
        assert(ai / di == t - 1) by (nonlinear_arith)
            requires
                ai == t * di + r,
                -di < r < 0,
                di > 0,
        ;
        assert(ai / di >= ai) by (nonlinear_arith)
            requires
                ai < 0,
                di > 0,
        ;
        t - 1
    } else {
        assert(ai / di == t) by (nonlinear_arith)
            requires
                ai == t * di + r,
                0 <= r < di,
                di > 0,
        ;
        t
    }
}

/// Whether `n / d` lies in the closed unit interval.
pub fn is_unit_fraction(n: i128, d: i128) -> (r: bool)
    ensures
        r == in_unit(n as int, d as int),
{
    if d > 0 {
        0 <= n && n <= d
    } else {
        d < 0 && d <= n && n <= 0
    }
}

/// The difference of two coordinates.
pub fn delta(from: i32, to: i32) -> (d: i64)
    ensures
        d == to - from,
        -delta_bound() <= d <= delta_bound(),
{
    to as i64 - from as i64
}

/// The product of two coordinate differences.
pub fn product(a: i64, b: i64) -> (r: i128)
    requires
        -delta_bound() <= a <= delta_bound(),
        -delta_bound() <= b <= delta_bound(),
    ensures
        r == a * b,
{
    proof {
        lemma_mul_bound(a as int, b as int, delta_bound(), delta_bound());
    }
    let a: i128 = a as i128;
    let b: i128 = b as i128;
    a * b
}

/// The cross product of two coordinate differences.
pub fn cross_of(rx: i64, ry: i64, sx: i64, sy: i64) -> (c: i128)
    requires
        -delta_bound() <= rx <= delta_bound(),
        -delta_bound() <= ry <= delta_bound(),
        -delta_bound() <= sx <= delta_bound(),
        -delta_bound() <= sy <= delta_bound(),
    ensures
        c == cross(rx as int, ry as int, sx as int, sy as int),
        -cross_bound() <= c <= cross_bound(),
{
    proof {
        lemma_mul_bound(rx as int, sy as int, delta_bound(), delta_bound());
        lemma_mul_bound(ry as int, sx as int, delta_bound(), delta_bound());
    }
    let rx: i128 = rx as i128;
    let ry: i128 = ry as i128;
    let sx: i128 = sx as i128;
    let sy: i128 = sy as i128;
    rx * sy - ry * sx
}

/// `a * n / d` rounded down, for a fraction `n / d` of the unit interval.
pub fn scale_by(a: i64, n: i128, d: i128) -> (r: i64)
    requires
        -delta_bound() <= a <= delta_bound(),
        -cross_bound() <= n <= cross_bound(),
        -cross_bound() <= d <= cross_bound(),
        in_unit(n as int, d as int),
    ensures
        r == scale_floor(a as int, n as int, d as int),
        a >= 0 ==> 0 <= r <= a,
        a <= 0 ==> a <= r <= 0,
{
    proof {
        lemma_scale_floor_range(a as int, n as int, d as int);
        lemma_mul_bound(a as int, n as int, delta_bound(), cross_bound());
    }
    let a: i128 = a as i128;
    let q: i128 = if d > 0 {
        floor_div(a * n, d)
    } else {
        floor_div(-(a * n), -d)
    };
    q as i64
}

/// `n / d` rounded down.
pub fn floor_ratio(n: i128, d: i128) -> (q: i128)
    requires
        d != 0,
        i128::MIN < n,
        i128::MIN < d,
    ensures
        q == ratio_floor(n as int, d as int),
        n >= 0 ==> -n <= q <= n,
        n <= 0 ==> n <= q <= -n,
{
    proof {
        lemma_ratio_floor_bound(n as int, d as int);
    }
    if d > 0 {
        floor_div(n, d)
    } else {
        floor_div(-n, -d)
    }
}

/// A quotient is no larger in magnitude than its dividend.
pub proof fn lemma_ratio_floor_bound(n: int, d: int)
    requires
        d != 0,
    ensures
        n >= 0 ==> -n <= ratio_floor(n, d) <= n,
        n <= 0 ==> n <= ratio_floor(n, d) <= -n,
{
    let (m, e) = if d > 0 {
        (n, d)
    } else {
        (-n, -d)
    };
    let q = m / e;
    lemma_floor_bracket(m, e);
    assert(m >= 0 ==> 0 <= q <= m) by (nonlinear_arith)
        requires
            e >= 1,
            q * e <= m < q * e + e,
    ;
    assert(m <= 0 ==> m <= q <= 0) by (nonlinear_arith)
        requires
            e >= 1,
            q * e <= m < q * e + e,
    ;
}

} // verus!
