//! Filling a polygon row by row: where the edges cross a row of pixels, and
//! which pixels of the row are colored.
use crate::buffer::Buffer;
use crate::exact::lemma_scale_floor_exact;
use crate::plane::liang_barsky::{high, low};
use crate::plane::polygon::cyclic_edges;
use crate::plane::{
    along_first, direction_cross, lemma_point_along_bounds, meeting_point, meets_line, Line2,
    Point2,
};
use vstd::prelude::*;

verus! {

/// The points in which each of `edges` crosses the infinite line through
/// `inf`, in the order of the edges.
pub open spec fn line_crossings(edges: Seq<Line2<i32>>, inf: Line2<i32>) -> Seq<Point2<i32>>
    decreases edges.len(),
{
    if edges.len() == 0 {
        Seq::empty()
    } else {
        let rest = line_crossings(edges.drop_last(), inf);
        if meets_line(edges.last(), inf) {
            rest.push(meeting_point(edges.last(), inf))
        } else {
            rest
        }
    }
}

/// The horizontal segment at row `y` that spans a buffer of `width` columns.
pub open spec fn scan_probe(width: int, y: int) -> Line2<i32> {
    [
        Point2 { x: 0, y: y as i32 },
        Point2 {
            x: if width <= i32::MAX {
                width as i32
            } else {
                i32::MAX
            },
            y: y as i32,
        },
    ]
}

/// The run of row `y` that a scanline fill of the polygon `pts` colors in a
/// buffer of `width` columns: from the lesser to the greater `x` of the two
/// points in which the edges cross the row. `None` where the edges do not
/// cross the row in exactly two points; such a row is left as it is.
pub open spec fn row_span(pts: Seq<Point2<i32>>, width: int, y: int) -> Option<(int, int)> {
    let hits = line_crossings(cyclic_edges(pts), scan_probe(width, y));
    if i32::MIN <= y <= i32::MAX && hits.len() == 2 {
        Some((low(hits[0].x as int, hits[1].x as int), high(hits[0].x as int, hits[1].x as int)))
    } else {
        None
    }
}

/// Whether a scanline fill of the polygon `pts` colors the pixel `(x, y)` of a
/// buffer of `width` columns.
pub open spec fn fills(pts: Seq<Point2<i32>>, width: int, x: int, y: int) -> bool {
    row_span(pts, width, y) matches Some((from, to)) && from <= x <= to
}

/// Whether every point of `pts` is a pixel of `buf`.
pub open spec fn all_on<T: Copy>(pts: Seq<Point2<i32>>, buf: Buffer<T>) -> bool {
    forall|i: int| 0 <= i < pts.len() ==> buf.holds(#[trigger] pts[i].x as int, pts[i].y as int)
}

/// Whether every point of `pts` is a pixel of row `y` of `buf`.
pub open spec fn all_on_row<T: Copy>(pts: Seq<Point2<i32>>, buf: Buffer<T>, y: int) -> bool {
    forall|i: int|
        0 <= i < pts.len() ==> (#[trigger] pts[i]).y == y && buf.holds(
            pts[i].x as int,
            pts[i].y as int,
        )
}

/// A crossing with a row lies on that row, between the ends of its edge.
proof fn lemma_row_crossing(edge: Line2<i32>, width: int, y: int)
    requires
        0 < width,
        i32::MIN <= y <= i32::MAX,
        meets_line(edge, scan_probe(width, y)),
    ensures
        meeting_point(edge, scan_probe(width, y)).y == y,
        low(edge[0].y as int, edge[1].y as int) <= y <= high(edge[0].y as int, edge[1].y as int),
        low(edge[0].x as int, edge[1].x as int) <= meeting_point(edge, scan_probe(width, y)).x
            <= high(edge[0].x as int, edge[1].x as int),
{
    let probe = scan_probe(width, y);
    let w = probe[1].x - probe[0].x;
    let ry = edge[1].y - edge[0].y;
    let rx = edge[1].x - edge[0].x;
    let k = y - edge[0].y;
    let dx = probe[0].x - edge[0].x;
    assert(probe[1].y - probe[0].y == 0);
    assert(direction_cross(edge, probe) == ry * (-w) && along_first(edge, probe) == k * (-w))
        by (nonlinear_arith)
        requires
            direction_cross(edge, probe) == rx * (probe[1].y - probe[0].y) - ry * w,
            along_first(edge, probe) == dx * (probe[1].y - probe[0].y) - k * w,
            probe[1].y - probe[0].y == 0,
    ;
    assert(ry != 0) by (nonlinear_arith)
        requires
            ry * (-w) != 0,
    ;
    lemma_scale_floor_exact(ry, k, -w);
    lemma_point_along_bounds(edge, along_first(edge, probe), direction_cross(edge, probe));
}

/// The crossings with a row lie on that row, on pixels of a buffer that holds
/// the polygon, and there are none where the row is not one between the
/// lowest and the highest point.
pub(crate) proof fn lemma_row_crossings<T: Copy>(
    pts: Seq<Point2<i32>>,
    buf: Buffer<T>,
    y: int,
    n: int,
    y_min: int,
    y_max: int,
)
    requires
        0 <= n <= pts.len(),
        i32::MIN <= y <= i32::MAX,
        all_on(pts, buf),
        forall|i: int| 0 <= i < pts.len() ==> y_min <= #[trigger] pts[i].y <= y_max,
    ensures
        all_on_row(
            line_crossings(cyclic_edges(pts).take(n), scan_probe(buf.size[0] as int, y)),
            buf,
            y,
        ),
        !(y_min <= y <= y_max) ==> line_crossings(
            cyclic_edges(pts).take(n),
            scan_probe(buf.size[0] as int, y),
        ).len() == 0,
    decreases n,
{
    if n > 0 {
        let edges = cyclic_edges(pts);
        let probe = scan_probe(buf.size[0] as int, y);
        lemma_row_crossings(pts, buf, y, n - 1, y_min, y_max);
        assert(edges.take(n).drop_last() =~= edges.take(n - 1));
        let edge = edges[n - 1];
        assert(edge[0] == pts[n - 1]);
        assert(edge[1] == pts[n % (pts.len() as int)]);
        assert(buf.holds(pts[n - 1].x as int, pts[n - 1].y as int));
        assert(buf.holds(
            pts[n % (pts.len() as int)].x as int,
            pts[n % (pts.len() as int)].y as int,
        ));
        if meets_line(edge, probe) {
            lemma_row_crossing(edge, buf.size[0] as int, y);
        }
    }
}

} // verus!
