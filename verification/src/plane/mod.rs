//! Plane geometry on integer coordinates: points, segments, their
//! intersections and axis-aligned rectangles.
use crate::exact::{
    cross, cross_of, delta, in_unit, is_unit_fraction, lemma_floor_bracket,
    lemma_scale_floor_range, scale_by, scale_floor,
};
use crate::plane::liang_barsky::{
    in_rect, in_rect_at, lb_span, lemma_lb_ends_in_rect, lemma_lb_inside, lemma_lb_span, Interval,
};
use crate::Either;
use vstd::prelude::*;

pub mod liang_barsky;
pub mod polygon;
pub mod raster;
pub mod scanline;
pub mod sutherland_hodgman;

pub use raster::{draw_line, draw_rect};

verus! {

/// A point of the plane.
#[derive(Copy, Clone, Debug, PartialEq, Eq)]
pub struct Point2<N> {
    pub x: N,
    pub y: N,
}

/// A directed segment from its first point to its second. Where it stands for
/// an axis-aligned rectangle, the two points are opposite corners.
pub type Line2<N> = [Point2<N>; 2];

impl<N> Point2<N> {
    pub fn new(x: N, y: N) -> (p: Self)
        ensures
            p.x == x,
            p.y == y,
    {
        Point2 { x, y }
    }
}

/// The cross product of the directions of `a` and `b`; zero where they are parallel.
pub open spec fn direction_cross(a: Line2<i32>, b: Line2<i32>) -> int {
    cross(a[1].x - a[0].x, a[1].y - a[0].y, b[1].x - b[0].x, b[1].y - b[0].y)
}

/// Numerator of the position along `a` at which the line through `b` is met;
/// the denominator is `direction_cross(a, b)`.
pub open spec fn along_first(a: Line2<i32>, b: Line2<i32>) -> int {
    cross(b[0].x - a[0].x, b[0].y - a[0].y, b[1].x - b[0].x, b[1].y - b[0].y)
}

/// Numerator of the position along `b` at which the line through `a` is met;
/// the denominator is `direction_cross(a, b)`.
pub open spec fn along_second(a: Line2<i32>, b: Line2<i32>) -> int {
    cross(b[0].x - a[0].x, b[0].y - a[0].y, a[1].x - a[0].x, a[1].y - a[0].y)
}

/// The point of `a` at the fraction `n / d` of its length, each coordinate rounded down.
pub open spec fn point_along(a: Line2<i32>, n: int, d: int) -> Point2<i32> {
    Point2 {
        x: (a[0].x + scale_floor(a[1].x - a[0].x, n, d)) as i32,
        y: (a[0].y + scale_floor(a[1].y - a[0].y, n, d)) as i32,
    }
}

/// Whether segment `a` meets the infinite line through `inf` in a single point.
pub open spec fn meets_line(a: Line2<i32>, inf: Line2<i32>) -> bool {
    in_unit(along_first(a, inf), direction_cross(a, inf))
}

/// Whether segments `a` and `b` meet in a single point.
pub open spec fn meets_segment(a: Line2<i32>, b: Line2<i32>) -> bool {
    &&& in_unit(along_second(a, b), direction_cross(a, b))
    &&& in_unit(along_first(a, b), direction_cross(a, b))
}

/// Where `a` meets the line through `b`, rounded down to integer coordinates.
pub open spec fn meeting_point(a: Line2<i32>, b: Line2<i32>) -> Point2<i32> {
    point_along(a, along_first(a, b), direction_cross(a, b))
}

/// What `inf_line_intersection` returns.
pub open spec fn inf_line_intersection_spec(a: Line2<i32>, inf: Line2<i32>) -> Option<
    Either<Point2<i32>, Line2<i32>>,
> {
    if meets_line(a, inf) {
        Some(Either::A(meeting_point(a, inf)))
    } else {
        None
    }
}

/// What `line_intersection` returns.
pub open spec fn line_intersection_spec(a: Line2<i32>, b: Line2<i32>) -> Option<
    Either<Point2<i32>, Line2<i32>>,
> {
    if meets_segment(a, b) {
        Some(Either::A(meeting_point(a, b)))
    } else {
        None
    }
}

/// A point of a segment, rounded down, stays within the segment's bounding box;
/// at the fractions zero and one it is an end of the segment.
pub proof fn lemma_point_along_bounds(a: Line2<i32>, n: int, d: int)
    requires
        in_unit(n, d),
    ensures
        a[0].x <= a[1].x ==> a[0].x <= point_along(a, n, d).x <= a[1].x,
        a[1].x <= a[0].x ==> a[1].x <= point_along(a, n, d).x <= a[0].x,
        a[0].y <= a[1].y ==> a[0].y <= point_along(a, n, d).y <= a[1].y,
        a[1].y <= a[0].y ==> a[1].y <= point_along(a, n, d).y <= a[0].y,
        point_along(a, n, d).x == a[0].x + scale_floor(a[1].x - a[0].x, n, d),
        point_along(a, n, d).y == a[0].y + scale_floor(a[1].y - a[0].y, n, d),
        n == 0 ==> point_along(a, n, d) == a[0],
        n == d ==> point_along(a, n, d) == a[1],
{
    lemma_scale_floor_range(a[1].x - a[0].x, n, d);
    lemma_scale_floor_range(a[1].y - a[0].y, n, d);
}

/// On which side of the line through `b` the point `p` lies: positive on one
/// side, negative on the other, zero on the line.
pub open spec fn side_of(b: Line2<i32>, p: Point2<i32>) -> int {
    cross(p.x - b[0].x, p.y - b[0].y, b[1].x - b[0].x, b[1].y - b[0].y)
}

/// A segment meets a line in a single point if and only if it is not parallel
/// to it and has no two ends strictly on the same side of it.
pub proof fn lemma_meets_line_iff_straddles(a: Line2<i32>, b: Line2<i32>)
    ensures
        meets_line(a, b) <==> direction_cross(a, b) != 0 && !(side_of(b, a[0]) > 0 && side_of(
            b,
            a[1],
        ) > 0) && !(side_of(b, a[0]) < 0 && side_of(b, a[1]) < 0),
{
    let sx = b[1].x - b[0].x;
    let sy = b[1].y - b[0].y;
    let ux = a[0].x - b[0].x;
    let uy = a[0].y - b[0].y;
    let rx = a[1].x - a[0].x;
    let ry = a[1].y - a[0].y;
    assert(along_first(a, b) == -side_of(b, a[0])) by (nonlinear_arith)
        requires
            along_first(a, b) == (-ux) * sy - (-uy) * sx,
            side_of(b, a[0]) == ux * sy - uy * sx,
    ;
    assert(side_of(b, a[1]) == side_of(b, a[0]) + direction_cross(a, b)) by (nonlinear_arith)
        requires
            side_of(b, a[1]) == (ux + rx) * sy - (uy + ry) * sx,
            side_of(b, a[0]) == ux * sy - uy * sx,
            direction_cross(a, b) == rx * sy - ry * sx,
    ;
}

/// The point of `a` at the fraction `n / d` of its length, exactly: its
/// coordinates multiplied by `d`.
pub open spec fn point_along_times(a: Line2<i32>, n: int, d: int) -> (int, int) {
    (d * a[0].x + n * (a[1].x - a[0].x), d * a[0].y + n * (a[1].y - a[0].y))
}

/// Whether `v` is `exact / d` rounded down, for `d != 0`.
pub open spec fn rounds_down(v: int, exact: int, d: int) -> bool {
    if d > 0 {
        d * v <= exact < d * v + d
    } else {
        d * v >= exact > d * v + d
    }
}

/// The point in which a segment meets a line lies on that line, and is
/// returned with each coordinate rounded down.
pub proof fn lemma_meeting_point(a: Line2<i32>, b: Line2<i32>)
    requires
        meets_line(a, b),
    ensures
        ({
            let d = direction_cross(a, b);
            let exact = point_along_times(a, along_first(a, b), d);
            &&& cross(
                exact.0 - d * b[0].x,
                exact.1 - d * b[0].y,
                b[1].x - b[0].x,
                b[1].y - b[0].y,
            ) == 0
            &&& rounds_down(meeting_point(a, b).x as int, exact.0, d)
            &&& rounds_down(meeting_point(a, b).y as int, exact.1, d)
        }),
{
    let d = direction_cross(a, b);
    let n = along_first(a, b);
    let rx = a[1].x - a[0].x;
    let ry = a[1].y - a[0].y;
    let sx = b[1].x - b[0].x;
    let sy = b[1].y - b[0].y;
    let fx = b[0].x - a[0].x;
    let fy = b[0].y - a[0].y;
    let rs = rx * sy;
    let sr = ry * sx;
    let fs = fx * sy;
    let gs = fy * sx;
    assert((n * rx - d * fx) * sy == n * rs - d * fs) by (nonlinear_arith)
        requires
            rs == rx * sy,
            fs == fx * sy,
    ;
    assert((n * ry - d * fy) * sx == n * sr - d * gs) by (nonlinear_arith)
        requires
            sr == ry * sx,
            gs == fy * sx,
    ;
    assert(n * rs - n * sr == n * d && d * fs - d * gs == d * n && n * d == d * n)
        by (nonlinear_arith)
        requires
            d == rs - sr,
            n == fs - gs,
    ;
    assert((n * rx - d * fx) * sy - (n * ry - d * fy) * sx == 0);
    assert(d * a[0].x + n * rx - d * b[0].x == n * rx - d * fx && d * a[0].y + n * ry - d * b[0].y
        == n * ry - d * fy) by (nonlinear_arith)
        requires
            fx == b[0].x - a[0].x,
            fy == b[0].y - a[0].y,
    ;
    lemma_point_along_bounds(a, n, d);
    lemma_scale_rounds(rx, n, d, a[0].x as int);
    lemma_scale_rounds(ry, n, d, a[0].y as int);
}

/// Scaling by a fraction rounds the exact product down.
proof fn lemma_scale_rounds(r: int, n: int, d: int, from: int)
    requires
        d != 0,
    ensures
        rounds_down(from + scale_floor(r, n, d), d * from + n * r, d),
{
    let q = scale_floor(r, n, d);
    if d > 0 {
        lemma_floor_bracket(r * n, d);
        assert(d * (from + q) <= d * from + n * r < d * (from + q) + d) by (nonlinear_arith)
            requires
                q * d <= r * n < q * d + d,
        ;
    } else {
        lemma_floor_bracket(-(r * n), -d);
        assert(d * (from + q) >= d * from + n * r > d * (from + q) + d) by (nonlinear_arith)
            requires
                q * (-d) <= -(r * n) < q * (-d) + (-d),
        ;
    }
}

/// The point of `a` at the fraction `n / d` of its length.
fn point_at(a: &Line2<i32>, n: i128, d: i128) -> (p: Point2<i32>)
    requires
        in_unit(n as int, d as int),
        -crate::exact::cross_bound() <= n <= crate::exact::cross_bound(),
        -crate::exact::cross_bound() <= d <= crate::exact::cross_bound(),
    ensures
        p == point_along(*a, n as int, d as int),
{
    let x: i64 = a[0].x as i64 + scale_by(delta(a[0].x, a[1].x), n, d);
    let y: i64 = a[0].y as i64 + scale_by(delta(a[0].y, a[1].y), n, d);
    Point2 { x: x as i32, y: y as i32 }
}

/// Intersects segment `a` with the infinite line through the two points of
/// `inf`. The result is the single point where they cross, with coordinates
/// rounded down, or `None` where `a` does not reach the line or is parallel to
/// it. An overlap of parallel lines is not reported.
pub fn inf_line_intersection(a: &Line2<i32>, inf: &Line2<i32>) -> (res: Option<
    Either<Point2<i32>, Line2<i32>>,
>)
    ensures
        res == inf_line_intersection_spec(*a, *inf),
{
    let rx: i64 = delta(a[0].x, a[1].x);
    let ry: i64 = delta(a[0].y, a[1].y);
    let sx: i64 = delta(inf[0].x, inf[1].x);
    let sy: i64 = delta(inf[0].y, inf[1].y);
    let rxs: i128 = cross_of(rx, ry, sx, sy);
    let t: i128 = cross_of(delta(a[0].x, inf[0].x), delta(a[0].y, inf[0].y), sx, sy);
    if is_unit_fraction(t, rxs) {
        Some(Either::A(point_at(a, t, rxs)))
    } else {
        None
    }
}

/// Intersects the segments `a` and `b`. The result is the single point where
/// they cross, with coordinates rounded down, or `None` where they do not
/// touch or are parallel. An overlap of parallel segments is not reported.
pub fn line_intersection(a: &Line2<i32>, b: &Line2<i32>) -> (res: Option<
    Either<Point2<i32>, Line2<i32>>,
>)
    ensures
        res == line_intersection_spec(*a, *b),
{
    let rx: i64 = delta(a[0].x, a[1].x);
    let ry: i64 = delta(a[0].y, a[1].y);
    let sx: i64 = delta(b[0].x, b[1].x);
    let sy: i64 = delta(b[0].y, b[1].y);
    let dx: i64 = delta(a[0].x, b[0].x);
    let dy: i64 = delta(a[0].y, b[0].y);
    let rxs: i128 = cross_of(rx, ry, sx, sy);
    let u: i128 = cross_of(dx, dy, rx, ry);
    if is_unit_fraction(u, rxs) {
        let t: i128 = cross_of(dx, dy, sx, sy);
        if is_unit_fraction(t, rxs) {
            return Some(Either::A(point_at(a, t, rxs)));
        }
    }
    None
}

/// The single-point crossings of each of `edges` with `line`, in the order of
/// the edges. Each point is computed along its edge.
pub open spec fn crossings_with(edges: Seq<Line2<i32>>, line: Line2<i32>) -> Seq<
    Either<Point2<i32>, Line2<i32>>,
>
    decreases edges.len(),
{
    if edges.len() == 0 {
        Seq::empty()
    } else {
        let rest = crossings_with(edges.drop_last(), line);
        match line_intersection_spec(edges.last(), line) {
            Some(e) => rest.push(e),
            None => rest,
        }
    }
}

/// The single-point crossings of the segments of `firsts` with those of
/// `seconds`, taken pair by pair: all the pairs of `firsts[0]`, then all those
/// of `firsts[1]`, up to the pair of `firsts[i]` and `seconds[j - 1]`. Each
/// point is computed along the segment of `firsts`.
pub open spec fn crossings_between(
    firsts: Seq<Line2<i32>>,
    seconds: Seq<Line2<i32>>,
    i: int,
    j: int,
) -> Seq<Either<Point2<i32>, Line2<i32>>>
    recommends
        0 <= i < firsts.len(),
        0 <= j <= seconds.len(),
    decreases i, j,
{
    if j > 0 {
        let rest = crossings_between(firsts, seconds, i, j - 1);
        match line_intersection_spec(firsts[i], seconds[j - 1]) {
            Some(e) => rest.push(e),
            None => rest,
        }
    } else if i > 0 {
        crossings_between(firsts, seconds, i - 1, seconds.len() as int)
    } else {
        Seq::empty()
    }
}

/// The four corners of the rectangle with opposite corners `rect[0]` and
/// `rect[1]`, starting at `rect[0]` and passing next through the corner that
/// shares its `y`.
pub fn rect_to_vertices<N: Copy>(rect: &Line2<N>) -> (verts: [Point2<N>; 4])
    ensures
        verts@ == rect_vertices(*rect),
{
    let verts = [
        rect[0],
        Point2 { x: rect[1].x, y: rect[0].y },
        rect[1],
        Point2 { x: rect[0].x, y: rect[1].y },
    ];
    assert(verts@ =~= rect_vertices(*rect));
    verts
}

/// What `rect_to_vertices` returns.
pub open spec fn rect_vertices<N>(rect: Line2<N>) -> Seq<Point2<N>> {
    seq![
        rect[0],
        Point2 { x: rect[1].x, y: rect[0].y },
        rect[1],
        Point2 { x: rect[0].x, y: rect[1].y },
    ]
}

/// What `rect_to_edges` returns.
pub open spec fn rect_edges<N>(rect: Line2<N>) -> Seq<Line2<N>> {
    Seq::new(4, |i: int| [rect_vertices(rect)[i], rect_vertices(rect)[(i + 1) % 4]])
}

/// The four sides of the rectangle with opposite corners `rect[0]` and
/// `rect[1]`, each from one corner of `rect_to_vertices` to the next, the last
/// back to the first.
pub fn rect_to_edges<N: Copy>(rect: &Line2<N>) -> (edges: [Line2<N>; 4])
    ensures
        edges@ == rect_edges(*rect),
{
    let verts = rect_to_vertices(rect);
    let edges = [
        [verts[0], verts[1]],
        [verts[1], verts[2]],
        [verts[2], verts[3]],
        [verts[3], verts[0]],
    ];
    assert(edges@ =~= rect_edges(*rect));
    edges
}

/// The points in which the sides of rectangle `r1` cross the sides of
/// rectangle `r2`.
pub fn aabb_collision(r1: &Line2<i32>, r2: &Line2<i32>) -> (res: Vec<
    Either<Point2<i32>, Line2<i32>>,
>)
    ensures
        res@ == crossings_between(rect_edges(*r1), rect_edges(*r2), 3, 4),
{
    let e1 = rect_to_edges(r1);
    let e2 = rect_to_edges(r2);
    let mut res = Vec::new();
    let mut i: usize = 0;
    while i < 4
        invariant
            0 <= i <= 4,
            e1@ == rect_edges(*r1),
            e2@ == rect_edges(*r2),
            i == 0 ==> res@ == Seq::<Either<Point2<i32>, Line2<i32>>>::empty(),
            i > 0 ==> res@ == crossings_between(e1@, e2@, i - 1, 4),
        decreases 4 - i,
    {
        let mut j: usize = 0;
        while j < 4
            invariant
                0 <= i < 4,
                0 <= j <= 4,
                e1@ == rect_edges(*r1),
                e2@ == rect_edges(*r2),
                res@ == crossings_between(e1@, e2@, i as int, j as int),
            decreases 4 - j,
        {
            if let Some(e) = line_intersection(&e1[i], &e2[j]) {
                res.push(e);
            }
            j += 1;
        }
        i += 1;
    }
    res
}

/// Clips the segment `line` against the rectangle with opposite corners
/// `bound[0]` and `bound[1]`, given in either order. The result is the part of
/// the segment that lies in the rectangle, sides included, with for each end
/// whether it was moved: an end that is kept is returned as it is, one that is
/// moved lies where the segment crosses the border, rounded down to integer
/// coordinates. `None` where no point of the segment lies in the rectangle.
///
/// The part is found as an interval of the parameter that runs from zero at
/// `line[0]` to one at `line[1]`: the interval holds exactly the parameters
/// whose points lie in the rectangle.
pub fn lb_clip(line: &Line2<i32>, bound: &Line2<i32>) -> (res: Option<(Line2<i32>, [bool; 2])>)
    ensures
        res.is_some() == lb_span(*line, *bound).is_some(),
        res matches Some((seg, clipped)) ==> {
            let t = lb_span(*line, *bound).unwrap();
            &&& seg[0] == point_along(*line, t.lo_num, t.lo_den)
            &&& seg[1] == point_along(*line, t.hi_num, t.hi_den)
            &&& clipped[0] == (t.lo_num != 0)
            &&& clipped[1] == (t.hi_num != t.hi_den)
            &&& !clipped[0] ==> seg[0] == line[0]
            &&& !clipped[1] ==> seg[1] == line[1]
            &&& in_rect(*bound, seg[0])
            &&& in_rect(*bound, seg[1])
            &&& forall|n: int, d: int|
                d > 0 && 0 <= n <= d ==> (t.holds(n, d) <==> #[trigger] in_rect_at(
                    *line,
                    *bound,
                    n,
                    d,
                ))
        },
        res.is_none() ==> forall|n: int, d: int|
            d > 0 && 0 <= n <= d ==> !#[trigger] in_rect_at(*line, *bound, n, d),
        in_rect(*bound, line[0]) && in_rect(*bound, line[1]) ==> res == Some(
            (*line, [false, false]),
        ),
{
    proof {
        if in_rect(*bound, line[0]) && in_rect(*bound, line[1]) {
            lemma_lb_inside(*line, *bound);
        }
    }
    proof {
        assert forall|n: int, d: int| d > 0 && 0 <= n <= d implies (lb_span(*line, *bound)
            matches Some(t) ==> (t.holds(n, d) <==> #[trigger] in_rect_at(*line, *bound, n, d)))
            && (lb_span(*line, *bound).is_none() ==> !in_rect_at(*line, *bound, n, d)) by {
            lemma_lb_span(*line, *bound, n, d);
        }
    }
    let (xlo, xhi) = if bound[0].x <= bound[1].x {
        (bound[0].x, bound[1].x)
    } else {
        (bound[1].x, bound[0].x)
    };
    let (ylo, yhi) = if bound[0].y <= bound[1].y {
        (bound[0].y, bound[1].y)
    } else {
        (bound[1].y, bound[0].y)
    };
    let dx: i64 = delta(line[0].x, line[1].x);
    let dy: i64 = delta(line[0].y, line[1].y);
    let t = Interval::full();
    let t = match t.cut(-dx, delta(xlo, line[0].x)) {
        Some(t) => t,
        None => return None,
    };
    let t = match t.cut(dx, delta(line[0].x, xhi)) {
        Some(t) => t,
        None => return None,
    };
    let t = match t.cut(-dy, delta(ylo, line[0].y)) {
        Some(t) => t,
        None => return None,
    };
    let t = match t.cut(dy, delta(line[0].y, yhi)) {
        Some(t) => t,
        None => return None,
    };
    proof {
        lemma_lb_span(*line, *bound, 0, 1);
        lemma_lb_ends_in_rect(*line, *bound);
        lemma_point_along_bounds(*line, t.lo_num as int, t.lo_den as int);
        lemma_point_along_bounds(*line, t.hi_num as int, t.hi_den as int);
    }
    let a = point_at(line, t.lo_num as i128, t.lo_den as i128);
    let b = point_at(line, t.hi_num as i128, t.hi_den as i128);
    Some(([a, b], [t.lo_num != 0, t.hi_num != t.hi_den]))
}

} // verus!
