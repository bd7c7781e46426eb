//! Parametric clipping of a segment against an axis-aligned rectangle: the
//! interval of the segment's parameter that lies in the rectangle, and what
//! holds of it.
use crate::exact::{delta_bound, lemma_floor_bracket, product};
use crate::plane::{lemma_point_along_bounds, point_along, Line2, Point2};
use vstd::prelude::*;

verus! {

/// A closed interval `[lo, hi]` of the parameter along a segment, each end a
/// fraction with a positive denominator.
pub struct Span {
    pub lo_num: int,
    pub lo_den: int,
    pub hi_num: int,
    pub hi_den: int,
}

impl Span {
    /// The whole segment: from zero to one.
    pub open spec fn full() -> Span {
        Span { lo_num: 0, lo_den: 1, hi_num: 1, hi_den: 1 }
    }

    /// Both denominators are positive and `0 <= lo <= hi <= 1`.
    pub open spec fn wf(self) -> bool {
        &&& self.lo_den > 0
        &&& self.hi_den > 0
        &&& 0 <= self.lo_num <= self.lo_den
        &&& 0 <= self.hi_num <= self.hi_den
        &&& self.lo_num * self.hi_den <= self.hi_num * self.lo_den
    }

    /// Whether the fraction `n / d`, with `d > 0`, lies in the interval.
    pub open spec fn holds(self, n: int, d: int) -> bool {
        self.lo_num * d <= n * self.lo_den && n * self.hi_den <= self.hi_num * d
    }
}

/// Cuts the interval `t` down to the parameters `s` with `p * s <= q`: for
/// `p < 0` the segment enters the half-plane at `q / p`, for `p > 0` it leaves
/// it there, and for `p == 0` it runs along its border, inside or outside.
/// `None` where nothing is left.
pub open spec fn clip_plane(p: int, q: int, t: Span) -> Option<Span> {
    if p == 0 {
        if q < 0 {
            None
        } else {
            Some(t)
        }
    } else if p < 0 {
        if (-q) * t.hi_den > t.hi_num * (-p) {
            None
        } else if (-q) * t.lo_den > t.lo_num * (-p) {
            Some(Span { lo_num: -q, lo_den: -p, ..t })
        } else {
            Some(t)
        }
    } else {
        if q * t.lo_den < t.lo_num * p {
            None
        } else if q * t.hi_den < t.hi_num * p {
            Some(Span { hi_num: q, hi_den: p, ..t })
        } else {
            Some(t)
        }
    }
}

/// Cuts what is left of an interval at one more half-plane.
pub open spec fn clip_plane_next(p: int, q: int, t: Option<Span>) -> Option<Span> {
    match t {
        Some(t) => clip_plane(p, q, t),
        None => None,
    }
}

/// The lesser of two coordinates.
pub open spec fn low(a: int, b: int) -> int {
    if a <= b {
        a
    } else {
        b
    }
}

/// The greater of two coordinates.
pub open spec fn high(a: int, b: int) -> int {
    if a <= b {
        b
    } else {
        a
    }
}

/// The interval of the parameter of `line` that lies in the rectangle with
/// opposite corners `bound[0]` and `bound[1]`, cut at its left, right, bottom
/// and top in turn. `None` where no point of the segment lies in the rectangle.
pub open spec fn lb_span(line: Line2<i32>, bound: Line2<i32>) -> Option<Span> {
    let dx = line[1].x - line[0].x;
    let dy = line[1].y - line[0].y;
    let left = clip_plane(-dx, line[0].x - low(bound[0].x as int, bound[1].x as int), Span::full());
    let right = clip_plane_next(dx, high(bound[0].x as int, bound[1].x as int) - line[0].x, left);
    let bottom = clip_plane_next(
        -dy,
        line[0].y - low(bound[0].y as int, bound[1].y as int),
        right,
    );
    clip_plane_next(dy, high(bound[0].y as int, bound[1].y as int) - line[0].y, bottom)
}

/// Whether `p` lies in the rectangle with opposite corners `bound[0]` and
/// `bound[1]`, sides included.
pub open spec fn in_rect(bound: Line2<i32>, p: Point2<i32>) -> bool {
    &&& low(bound[0].x as int, bound[1].x as int) <= p.x <= high(
        bound[0].x as int,
        bound[1].x as int,
    )
    &&& low(bound[0].y as int, bound[1].y as int) <= p.y <= high(
        bound[0].y as int,
        bound[1].y as int,
    )
}

/// Whether the point of `line` at the fraction `n / d` of its length, with
/// `d > 0`, lies in the rectangle with opposite corners `bound[0]` and
/// `bound[1]`. The point is taken exactly, without rounding.
pub open spec fn in_rect_at(line: Line2<i32>, bound: Line2<i32>, n: int, d: int) -> bool {
    let x = d * line[0].x + n * (line[1].x - line[0].x);
    let y = d * line[0].y + n * (line[1].y - line[0].y);
    &&& d * low(bound[0].x as int, bound[1].x as int) <= x <= d * high(
        bound[0].x as int,
        bound[1].x as int,
    )
    &&& d * low(bound[0].y as int, bound[1].y as int) <= y <= d * high(
        bound[0].y as int,
        bound[1].y as int,
    )
}

/// Fractions with positive denominators are ordered transitively.
pub proof fn lemma_fraction_order(a: int, b: int, c: int, d: int, e: int, f: int)
    requires
        b > 0,
        d > 0,
        f > 0,
        a * d <= c * b,
        c * f <= e * d,
    ensures
        a * f <= e * b,
        a * d < c * b || c * f < e * d ==> a * f < e * b,
{
    assert(a * d * f <= c * b * f) by (nonlinear_arith)
        requires
            a * d <= c * b,
            f > 0,
    ;
    assert(c * f * b <= e * d * b) by (nonlinear_arith)
        requires
            c * f <= e * d,
            b > 0,
    ;
    assert(a * d < c * b ==> a * d * f < c * b * f) by (nonlinear_arith)
        requires
            f > 0,
    ;
    assert(c * f < e * d ==> c * f * b < e * d * b) by (nonlinear_arith)
        requires
            b > 0,
    ;
    assert(c * b * f == c * f * b) by (nonlinear_arith);
    assert(a * d * f == (a * f) * d && e * d * b == (e * b) * d) by (nonlinear_arith);
    assert((a * f) * d <= (e * b) * d ==> a * f <= e * b) by (nonlinear_arith)
        requires
            d > 0,
    ;
    assert((a * f) * d < (e * b) * d ==> a * f < e * b) by (nonlinear_arith)
        requires
            d > 0,
    ;
}

/// Cutting at a half-plane keeps an interval well formed, and keeps exactly
/// the parameters of it that lie in the half-plane.
pub proof fn lemma_clip_plane(p: int, q: int, t: Span, n: int, d: int)
    requires
        t.wf(),
        d > 0,
    ensures
        clip_plane(p, q, t) matches Some(cut) ==> cut.wf() && (cut.holds(n, d) <==> t.holds(n, d)
            && p * n <= q * d),
        clip_plane(p, q, t).is_none() ==> !(t.holds(n, d) && p * n <= q * d),
        clip_plane(p, q, t) matches Some(cut) ==> (cut.lo_num == t.lo_num && cut.lo_den
            == t.lo_den) || (p < 0 && cut.lo_num == -q && cut.lo_den == -p),
        clip_plane(p, q, t) matches Some(cut) ==> (cut.hi_num == t.hi_num && cut.hi_den
            == t.hi_den) || (p > 0 && cut.hi_num == q && cut.hi_den == p),
{
    if p == 0 {
        assert(p * n == 0) by (nonlinear_arith)
            requires
                p == 0,
        ;
        assert(q < 0 ==> q * d < 0) by (nonlinear_arith)
            requires
                d > 0,
        ;
        assert(q >= 0 ==> q * d >= 0) by (nonlinear_arith)
            requires
                d > 0,
        ;
    } else if p < 0 {
        // in the half-plane: n / d >= (-q) / (-p)
        assert(p * n <= q * d <==> (-q) * d <= n * (-p)) by (nonlinear_arith);
        if (-q) * t.hi_den > t.hi_num * (-p) {
            if t.holds(n, d) && (-q) * d <= n * (-p) {
                lemma_fraction_order(-q, -p, n, d, t.hi_num, t.hi_den);
            }
        } else if (-q) * t.lo_den > t.lo_num * (-p) {
            let cut = Span { lo_num: -q, lo_den: -p, ..t };
            assert(-q >= 0) by (nonlinear_arith)
                requires
                    (-q) * t.lo_den > t.lo_num * (-p),
                    t.lo_den > 0,
                    t.lo_num >= 0,
                    -p > 0,
            ;
            lemma_fraction_order(-q, -p, t.hi_num, t.hi_den, 1, 1);
            if (-q) * d <= n * (-p) {
                lemma_fraction_order(t.lo_num, t.lo_den, -q, -p, n, d);
            }
        } else {
            if t.holds(n, d) {
                lemma_fraction_order(-q, -p, t.lo_num, t.lo_den, n, d);
            }
        }
    } else {
        // in the half-plane: n / d <= q / p
        assert(p * n <= q * d <==> n * p <= q * d) by (nonlinear_arith);
        if q * t.lo_den < t.lo_num * p {
            if t.holds(n, d) && n * p <= q * d {
                lemma_fraction_order(t.lo_num, t.lo_den, n, d, q, p);
            }
        } else if q * t.hi_den < t.hi_num * p {
            let cut = Span { hi_num: q, hi_den: p, ..t };
            lemma_fraction_order(0, 1, t.lo_num, t.lo_den, q, p);
            lemma_fraction_order(q, p, t.hi_num, t.hi_den, 1, 1);
            if n * p <= q * d {
                lemma_fraction_order(n, d, q, p, t.hi_num, t.hi_den);
            }
        } else {
            if t.holds(n, d) {
                lemma_fraction_order(n, d, t.hi_num, t.hi_den, q, p);
            }
        }
    }
}

/// A half-plane test on the parameter is the matching side test on the point.
proof fn lemma_plane_is_side(x0: int, dx: int, lo: int, hi: int, n: int, d: int)
    by (nonlinear_arith)
    ensures
        (-dx) * n <= (x0 - lo) * d <==> d * lo <= d * x0 + n * dx,
        dx * n <= (hi - x0) * d <==> d * x0 + n * dx <= d * hi,
{
}

/// The interval that `lb_span` leaves holds exactly the parameters whose
/// points lie in the rectangle.
pub proof fn lemma_lb_span(line: Line2<i32>, bound: Line2<i32>, n: int, d: int)
    requires
        d > 0,
        0 <= n <= d,
    ensures
        lb_span(line, bound) matches Some(t) ==> t.wf() && (t.holds(n, d) <==> in_rect_at(
            line,
            bound,
            n,
            d,
        )),
        lb_span(line, bound).is_none() ==> !in_rect_at(line, bound, n, d),
{
    let dx = line[1].x - line[0].x;
    let dy = line[1].y - line[0].y;
    let xlo = low(bound[0].x as int, bound[1].x as int);
    let xhi = high(bound[0].x as int, bound[1].x as int);
    let ylo = low(bound[0].y as int, bound[1].y as int);
    let yhi = high(bound[0].y as int, bound[1].y as int);
    let full = Span::full();
    assert(full.holds(n, d)) by (nonlinear_arith)
        requires
            full == (Span { lo_num: 0, lo_den: 1, hi_num: 1, hi_den: 1 }),
            0 <= n <= d,
    ;
    lemma_plane_is_side(line[0].x as int, dx, xlo, xhi, n, d);
    lemma_plane_is_side(line[0].y as int, dy, ylo, yhi, n, d);
    lemma_clip_plane(-dx, line[0].x - xlo, full, n, d);
    let left = clip_plane(-dx, line[0].x - xlo, full);
    if let Some(l) = left {
        lemma_clip_plane(dx, xhi - line[0].x, l, n, d);
        let right = clip_plane(dx, xhi - line[0].x, l);
        if let Some(r) = right {
            lemma_clip_plane(-dy, line[0].y - ylo, r, n, d);
            let bottom = clip_plane(-dy, line[0].y - ylo, r);
            if let Some(b) = bottom {
                lemma_clip_plane(dy, yhi - line[0].y, b, n, d);
            }
        }
    }
}

/// A segment is clipped away if and only if none of its points lies in the
/// rectangle.
pub proof fn lemma_lb_none_iff_miss(line: Line2<i32>, bound: Line2<i32>)
    ensures
        lb_span(line, bound).is_none() <==> forall|n: int, d: int|
            d > 0 && 0 <= n <= d ==> !#[trigger] in_rect_at(line, bound, n, d),
{
    match lb_span(line, bound) {
        None => {
            assert forall|n: int, d: int| d > 0 && 0 <= n <= d implies !#[trigger] in_rect_at(
                line,
                bound,
                n,
                d,
            ) by {
                lemma_lb_span(line, bound, n, d);
            }
        },
        Some(t) => {
            lemma_lb_span(line, bound, 0, 1);
            lemma_lb_span(line, bound, t.lo_num, t.lo_den);
            assert(t.holds(t.lo_num, t.lo_den)) by (nonlinear_arith)
                requires
                    t.lo_num * t.hi_den <= t.hi_num * t.lo_den,
            ;
            assert(in_rect_at(line, bound, t.lo_num, t.lo_den));
        },
    }
}

/// A segment of which no point lies in the rectangle is clipped away.
pub proof fn lemma_lb_miss(line: Line2<i32>, bound: Line2<i32>)
    requires
        forall|n: int, d: int|
            d > 0 && 0 <= n <= d ==> !#[trigger] in_rect_at(line, bound, n, d),
    ensures
        lb_span(line, bound).is_none(),
{
    lemma_lb_none_iff_miss(line, bound);
}

/// A half-plane that holds both ends of the segment leaves it whole.
proof fn lemma_clip_plane_full(p: int, q: int)
    requires
        q >= 0,
        q >= p,
    ensures
        clip_plane(p, q, Span::full()) == Some(Span::full()),
{
    let t = Span::full();
    assert((-q) * t.hi_den == -q && t.hi_num * (-p) == -p && (-q) * t.lo_den == -q && t.lo_num * (
    -p) == 0 && q * t.lo_den == q && t.lo_num * p == 0 && q * t.hi_den == q && t.hi_num * p == p)
        by (nonlinear_arith)
        requires
            t == (Span { lo_num: 0, lo_den: 1, hi_num: 1, hi_den: 1 }),
    ;
}

/// A segment with both ends in the rectangle is left whole.
pub proof fn lemma_lb_inside(line: Line2<i32>, bound: Line2<i32>)
    requires
        in_rect(bound, line[0]),
        in_rect(bound, line[1]),
    ensures
        lb_span(line, bound) == Some(Span::full()),
{
    let dx = line[1].x - line[0].x;
    let dy = line[1].y - line[0].y;
    lemma_clip_plane_full(-dx, line[0].x - low(bound[0].x as int, bound[1].x as int));
    lemma_clip_plane_full(dx, high(bound[0].x as int, bound[1].x as int) - line[0].x);
    lemma_clip_plane_full(-dy, line[0].y - low(bound[0].y as int, bound[1].y as int));
    lemma_clip_plane_full(dy, high(bound[0].y as int, bound[1].y as int) - line[0].y);
}

/// A rounded-down quotient lies between the integers that bound the fraction.
proof fn lemma_floor_between(a: int, d: int, lo: int, hi: int)
    requires
        d > 0,
        lo * d <= a <= hi * d,
    ensures
        lo <= a / d <= hi,
{
    lemma_floor_bracket(a, d);
    let q = a / d;
    assert(lo <= q) by (nonlinear_arith)
        requires
            d > 0,
            lo * d <= a,
            a < q * d + d,
    ;
    assert(q <= hi) by (nonlinear_arith)
        requires
            d > 0,
            a <= hi * d,
            q * d <= a,
    ;
}

/// A point of the segment that lies in the rectangle still lies in it once its
/// coordinates are rounded down.
pub proof fn lemma_rounded_in_rect(line: Line2<i32>, bound: Line2<i32>, n: int, d: int)
    requires
        d > 0,
        0 <= n <= d,
        in_rect_at(line, bound, n, d),
    ensures
        in_rect(bound, point_along(line, n, d)),
{
    let dx = line[1].x - line[0].x;
    let dy = line[1].y - line[0].y;
    let xlo = low(bound[0].x as int, bound[1].x as int);
    let xhi = high(bound[0].x as int, bound[1].x as int);
    let ylo = low(bound[0].y as int, bound[1].y as int);
    let yhi = high(bound[0].y as int, bound[1].y as int);
    lemma_point_along_bounds(line, n, d);
    assert((xlo - line[0].x) * d <= dx * n <= (xhi - line[0].x) * d) by (nonlinear_arith)
        requires
            d * xlo <= d * line[0].x + n * dx <= d * xhi,
    ;
    assert((ylo - line[0].y) * d <= dy * n <= (yhi - line[0].y) * d) by (nonlinear_arith)
        requires
            d * ylo <= d * line[0].y + n * dy <= d * yhi,
    ;
    lemma_floor_between(dx * n, d, xlo - line[0].x, xhi - line[0].x);
    lemma_floor_between(dy * n, d, ylo - line[0].y, yhi - line[0].y);
}

/// Both ends of a clipped segment lie in the rectangle.
pub proof fn lemma_lb_ends_in_rect(line: Line2<i32>, bound: Line2<i32>)
    ensures
        lb_span(line, bound) matches Some(t) ==> in_rect(
            bound,
            point_along(line, t.lo_num, t.lo_den),
        ) && in_rect(bound, point_along(line, t.hi_num, t.hi_den)),
{
    if let Some(t) = lb_span(line, bound) {
        lemma_lb_span(line, bound, 0, 1);
        lemma_lb_span(line, bound, t.lo_num, t.lo_den);
        lemma_lb_span(line, bound, t.hi_num, t.hi_den);
        assert(t.holds(t.lo_num, t.lo_den) && t.holds(t.hi_num, t.hi_den)) by (nonlinear_arith)
            requires
                t.lo_num * t.hi_den <= t.hi_num * t.lo_den,
        ;
        lemma_rounded_in_rect(line, bound, t.lo_num, t.lo_den);
        lemma_rounded_in_rect(line, bound, t.hi_num, t.hi_den);
    }
}

/// An interval of the parameter in machine integers.
pub struct Interval {
    pub lo_num: i64,
    pub lo_den: i64,
    pub hi_num: i64,
    pub hi_den: i64,
}

impl View for Interval {
    type V = Span;

    open spec fn view(&self) -> Span {
        Span {
            lo_num: self.lo_num as int,
            lo_den: self.lo_den as int,
            hi_num: self.hi_num as int,
            hi_den: self.hi_den as int,
        }
    }
}

impl Interval {
    /// Each term is the difference of two coordinates, or zero or one.
    pub open spec fn bounded(&self) -> bool {
        &&& -delta_bound() <= self.lo_num <= delta_bound()
        &&& -delta_bound() <= self.lo_den <= delta_bound()
        &&& -delta_bound() <= self.hi_num <= delta_bound()
        &&& -delta_bound() <= self.hi_den <= delta_bound()
    }

    pub fn full() -> (t: Interval)
        ensures
            t@ == Span::full(),
            t.bounded(),
    {
        Interval { lo_num: 0, lo_den: 1, hi_num: 1, hi_den: 1 }
    }

    /// Cuts the interval down to the parameters `s` with `p * s <= q`.
    pub fn cut(self, p: i64, q: i64) -> (res: Option<Interval>)
        requires
            self.bounded(),
            -delta_bound() <= p <= delta_bound(),
            -delta_bound() <= q <= delta_bound(),
        ensures
            res matches Some(t) ==> t.bounded() && clip_plane(p as int, q as int, self@) == Some(
                t@,
            ),
            res.is_none() ==> clip_plane(p as int, q as int, self@).is_none(),
    {
        if p == 0 {
            if q < 0 {
                None
            } else {
                Some(self)
            }
        } else if p < 0 {
            if product(-q, self.hi_den) > product(self.hi_num, -p) {
                None
            } else if product(-q, self.lo_den) > product(self.lo_num, -p) {
                Some(Interval { lo_num: -q, lo_den: -p, ..self })
            } else {
                Some(self)
            }
        } else {
            if product(q, self.lo_den) < product(self.lo_num, p) {
                None
            } else if product(q, self.hi_den) < product(self.hi_num, p) {
                Some(Interval { hi_num: q, hi_den: p, ..self })
            } else {
                Some(self)
            }
        }
    }
}

} // verus!
