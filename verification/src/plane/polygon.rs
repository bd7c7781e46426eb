//! Polygons as cyclic sequences of points: their edges, their crossings with
//! lines, their clipping against a rectangle and their filling.
use crate::buffer::Buffer;
use crate::plane::liang_barsky::{high, low};
use crate::plane::raster::{draw_line, lemma_steps_flat};
use crate::plane::scanline::{
    all_on, fills, lemma_row_crossings, line_crossings, scan_probe,
};
use crate::plane::sutherland_hodgman::{
    clip_side, clip_spec, clipped_points, lemma_clip_keeps_polygon, lemma_clip_succeeds,
    lemma_clip_within_rect, rect_holds,
};
use crate::plane::{crossings_with, inf_line_intersection, line_intersection, Line2, Point2};
use crate::Either;
use vstd::prelude::*;

pub use crate::plane::sutherland_hodgman::{ClipError, Side};

verus! {

/// An ordered, cyclic sequence of points: each point is joined to the next,
/// and the last to the first.
#[derive(Clone, Debug)]
pub struct Polygon<N> {
    pub points: Vec<Point2<N>>,
}

/// A walk over the edges of a polygon. `a` is the index of the point at which
/// the next edge starts.
pub struct EdgeIterator<'a, N> {
    pub polygon: &'a Polygon<N>,
    pub a: usize,
}

/// The edges of the cyclic point sequence `points`: the edge at `i` runs from
/// point `i` to the point after it, the last edge back to point zero.
pub open spec fn cyclic_edges<N>(points: Seq<Point2<N>>) -> Seq<Line2<N>> {
    Seq::new(points.len(), |i: int| [points[i], points[(i + 1) % (points.len() as int)]])
}

impl<'a, N: Copy> EdgeIterator<'a, N> {
    fn new(polygon: &'a Polygon<N>) -> (it: Self)
        ensures
            it.polygon == polygon,
            it.a == 0,
    {
        EdgeIterator { polygon, a: 0 }
    }

    /// The next edge of the polygon, or `None` once every edge was handed out.
    pub fn next(&mut self) -> (edge: Option<Line2<N>>)
        ensures
            final(self).polygon == old(self).polygon,
            old(self).a < old(self).polygon.points@.len() ==> edge == Some(
                cyclic_edges(old(self).polygon.points@)[old(self).a as int],
            ) && final(self).a == old(self).a + 1,
            old(self).a >= old(self).polygon.points@.len() ==> edge.is_none() && final(self).a
                == old(self).a,
    {
        let n = self.polygon.points.len();
        if self.a >= n {
            return None;
        }
        let line = [self.polygon.points[self.a], self.polygon.points[(self.a + 1) % n]];
        self.a += 1;
        Some(line)
    }
}

impl<N: Copy> Polygon<N> {
    /// A polygon proper has at least three points. Clipping keeps that, and
    /// so does every constructor here; the functions take fewer points too,
    /// and say what they do with them.
    pub open spec fn wf(&self) -> bool {
        self.points@.len() >= 3
    }

    /// The edges of the polygon, as a sequence.
    pub open spec fn spec_edges(&self) -> Seq<Line2<N>> {
        cyclic_edges(self.points@)
    }

    /// A walk over the edges of the polygon, from the edge that starts at
    /// point zero.
    pub fn edges(&self) -> (it: EdgeIterator<'_, N>)
        ensures
            it.polygon == self,
            it.a == 0,
    {
        EdgeIterator::new(self)
    }
}

/// Whether `y` is the least `y` among `points`.
pub open spec fn is_min_y(points: Seq<Point2<i32>>, y: int) -> bool {
    &&& exists|i: int| 0 <= i < points.len() && #[trigger] points[i].y == y
    &&& forall|i: int| 0 <= i < points.len() ==> y <= #[trigger] points[i].y
}

/// Whether `y` is the greatest `y` among `points`.
pub open spec fn is_max_y(points: Seq<Point2<i32>>, y: int) -> bool {
    &&& exists|i: int| 0 <= i < points.len() && #[trigger] points[i].y == y
    &&& forall|i: int| 0 <= i < points.len() ==> y >= #[trigger] points[i].y
}

impl Polygon<i32> {
    /// The axis-aligned square with half side `r` around `(off_x, off_y)`,
    /// starting at its corner of least `x` and `y` and passing next through the
    /// corner that shares its `y`.
    pub fn square(r: i32, off_x: i32, off_y: i32) -> (sq: Polygon<i32>)
        requires
            i32::MIN <= off_x - r,
            off_x - r <= i32::MAX,
            i32::MIN <= off_x + r <= i32::MAX,
            i32::MIN <= off_y - r,
            off_y - r <= i32::MAX,
            i32::MIN <= off_y + r <= i32::MAX,
        ensures
            sq.wf(),
            sq.points@ == seq![
                Point2 { x: (off_x - r) as i32, y: (off_y - r) as i32 },
                Point2 { x: (off_x + r) as i32, y: (off_y - r) as i32 },
                Point2 { x: (off_x + r) as i32, y: (off_y + r) as i32 },
                Point2 { x: (off_x - r) as i32, y: (off_y + r) as i32 },
            ],
    {
        let mut points = Vec::new();
        points.push(Point2 { x: off_x - r, y: off_y - r });
        points.push(Point2 { x: off_x + r, y: off_y - r });
        points.push(Point2 { x: off_x + r, y: off_y + r });
        points.push(Point2 { x: off_x - r, y: off_y + r });
        assert(points@ =~= seq![
            Point2 { x: (off_x - r) as i32, y: (off_y - r) as i32 },
            Point2 { x: (off_x + r) as i32, y: (off_y - r) as i32 },
            Point2 { x: (off_x + r) as i32, y: (off_y + r) as i32 },
            Point2 { x: (off_x - r) as i32, y: (off_y + r) as i32 },
        ]);
        Polygon { points }
    }

    /// The least `y` among the points of the polygon.
    pub fn min_y(&self) -> (res: i32)
        requires
            self.points@.len() > 0,
        ensures
            is_min_y(self.points@, res as int),
    {
        let mut res = self.points[0].y;
        let mut i: usize = 1;
        let ghost mut at: int = 0;
        while i < self.points.len()
            invariant
                1 <= i <= self.points@.len(),
                0 <= at < i,
                self.points@[at].y == res,
                forall|k: int| 0 <= k < i ==> res <= #[trigger] self.points@[k].y,
            decreases self.points@.len() - i,
        {
            if res > self.points[i].y {
                res = self.points[i].y;
                proof {
                    at = i as int;
                }
            }
            i += 1;
        }
        res
    }

    /// The greatest `y` among the points of the polygon.
    pub fn max_y(&self) -> (res: i32)
        requires
            self.points@.len() > 0,
        ensures
            is_max_y(self.points@, res as int),
    {
        let mut res = self.points[0].y;
        let mut i: usize = 1;
        let ghost mut at: int = 0;
        while i < self.points.len()
            invariant
                1 <= i <= self.points@.len(),
                0 <= at < i,
                self.points@[at].y == res,
                forall|k: int| 0 <= k < i ==> res >= #[trigger] self.points@[k].y,
            decreases self.points@.len() - i,
        {
            if res < self.points[i].y {
                res = self.points[i].y;
                proof {
                    at = i as int;
                }
            }
            i += 1;
        }
        res
    }

    /// The points in which the edges of the polygon cross the segment `line`,
    /// in the order of the edges.
    pub fn intersection_line(&self, line: Line2<i32>) -> (res: Vec<
        Either<Point2<i32>, Line2<i32>>,
    >)
        ensures
            res@ == crossings_with(self.spec_edges(), line),
    {
        let mut res = Vec::new();
        let mut it = self.edges();
        let ghost edges = self.spec_edges();
        loop
            invariant
                it.polygon == self,
                edges == self.spec_edges(),
                0 <= it.a <= edges.len(),
                res@ == crossings_with(edges.take(it.a as int), line),
            ensures
                res@ == crossings_with(edges, line),
            decreases edges.len() - it.a,
        {
            let ghost before = it.a as int;
            match it.next() {
                Some(edge) => {
                    assert(edges.take(before + 1).drop_last() =~= edges.take(before));
                    if let Some(i) = line_intersection(&edge, &line) {
                        res.push(i);
                    }
                },
                None => {
                    assert(edges.take(before) =~= edges);
                    break ;
                },
            }
        }
        res
    }
}

/// The points in which the sides of the rectangle with opposite corners
/// `rect[0]` and `rect[1]` cross the segment `line`. The sides are taken from
/// `rect[0]` along `x`, from `rect[0]` along `y`, then the two that end in
/// `rect[1]`, along `y` and along `x`.
pub fn line_rect_intersection(line: &Line2<i32>, rect: &Line2<i32>) -> (res: Vec<
    Either<Point2<i32>, Line2<i32>>,
>)
    ensures
        res@ == crossings_with(rect_sides(*rect), *line),
{
    let tl = Point2 { x: rect[0].x, y: rect[1].y };
    let br = Point2 { x: rect[1].x, y: rect[0].y };
    let edges = [[rect[0], br], [rect[0], tl], [br, rect[1]], [tl, rect[1]]];
    assert(edges@ =~= rect_sides(*rect));
    let mut res = Vec::new();
    let mut i: usize = 0;
    while i < 4
        invariant
            0 <= i <= 4,
            edges@ == rect_sides(*rect),
            res@ == crossings_with(edges@.take(i as int), *line),
        decreases 4 - i,
    {
        assert(edges@.take(i + 1).drop_last() =~= edges@.take(i as int));
        if let Some(e) = line_intersection(&edges[i], line) {
            res.push(e);
        }
        i += 1;
    }
    assert(edges@.take(4) =~= edges@);
    res
}

/// The four sides of a rectangle in the order in which `line_rect_intersection`
/// takes them.
pub open spec fn rect_sides(rect: Line2<i32>) -> Seq<Line2<i32>> {
    seq![
        [rect[0], Point2 { x: rect[1].x, y: rect[0].y }],
        [rect[0], Point2 { x: rect[0].x, y: rect[1].y }],
        [Point2 { x: rect[1].x, y: rect[0].y }, rect[1]],
        [Point2 { x: rect[0].x, y: rect[1].y }, rect[1]],
    ]
}

impl Polygon<i32> {
    /// Clips the polygon against the rectangle from its low corner `bound[0]`
    /// to its high corner `bound[1]`, one side after the other: left, top,
    /// right, bottom. At each side the points within it are kept, and each edge
    /// that leaves or enters is cut where it crosses the side, the cut rounded
    /// down to integer coordinates. `Ok(None)` where nothing of the polygon is
    /// left, and for a polygon without points. `Err` where an edge has to be
    /// cut at a side without length.
    pub fn clip(&self, bound: &Line2<i32>) -> (res: Result<Option<Polygon<i32>>, ClipError>)
        ensures
            clipped_points(res) == clip_spec(self.points@, *bound),
            res matches Ok(Some(kept)) ==> kept.points@.len() > 0 && forall|i: int|
                0 <= i < kept.points@.len() ==> rect_holds(*bound, #[trigger] kept.points@[i]),
            bound[0].x != bound[1].x && bound[0].y != bound[1].y ==> res.is_ok(),
            self.wf() ==> (res matches Ok(Some(kept)) ==> kept.wf()),
    {
        proof {
            if self.wf() {
                lemma_clip_keeps_polygon(self.points@, *bound);
            }
            lemma_clip_within_rect(self.points@, *bound);
            if bound[0].x != bound[1].x && bound[0].y != bound[1].y {
                lemma_clip_succeeds(self.points@, *bound);
            }
        }
        let left = match clip_side(self, bound, Side::Left) {
            Ok(Some(p)) => p,
            Ok(None) => return Ok(None),
            Err(e) => return Err(e),
        };
        let top = match clip_side(&left, bound, Side::Top) {
            Ok(Some(p)) => p,
            Ok(None) => return Ok(None),
            Err(e) => return Err(e),
        };
        let right = match clip_side(&top, bound, Side::Right) {
            Ok(Some(p)) => p,
            Ok(None) => return Ok(None),
            Err(e) => return Err(e),
        };
        clip_side(&right, bound, Side::Bottom)
    }
}

impl Polygon<i32> {
    /// The points in which the edges of the polygon cross the infinite line
    /// through `inf`, in the order of the edges.
    pub fn intersection_inf_line(&self, inf: Line2<i32>) -> (res: Vec<Point2<i32>>)
        ensures
            res@ == line_crossings(self.spec_edges(), inf),
    {
        let mut res = Vec::new();
        let mut it = self.edges();
        let ghost edges = self.spec_edges();
        loop
            invariant
                it.polygon == self,
                edges == self.spec_edges(),
                0 <= it.a <= edges.len(),
                res@ == line_crossings(edges.take(it.a as int), inf),
            ensures
                res@ == line_crossings(edges, inf),
            decreases edges.len() - it.a,
        {
            let ghost before = it.a as int;
            match it.next() {
                Some(edge) => {
                    assert(edges.take(before + 1).drop_last() =~= edges.take(before));
                    if let Some(Either::A(p)) = inf_line_intersection(&edge, &inf) {
                        res.push(p);
                    }
                },
                None => {
                    assert(edges.take(before) =~= edges);
                    break ;
                },
            }
        }
        res
    }

    /// Fills the polygon with `c`, row by row. The points of the polygon have
    /// to be pixels of the buffer. Each row from the lowest point
    /// of the polygon to its highest is crossed with every edge. Where that
    /// gives exactly two points, the pixels of the row from one to the other
    /// are colored, both included. Any other row is left as it is, and so is
    /// every pixel outside those runs.
    pub fn draw<T: Copy>(&self, buf: &mut Buffer<T>, c: T)
        requires
            old(buf).wf(),
            all_on(self.points@, *old(buf)),
        ensures
            final(buf).wf(),
            final(buf).size == old(buf).size,
            forall|x: int, y: int|
                old(buf).holds(x, y) ==> #[trigger] final(buf).at(x, y) == (if fills(
                    self.points@,
                    old(buf).size[0] as int,
                    x,
                    y,
                ) {
                    c
                } else {
                    old(buf).at(x, y)
                }),
    {
        if self.points.len() == 0 {
            assert(cyclic_edges(self.points@) =~= Seq::empty());
            return ;
        }
        let y_min = self.min_y();
        let y_max = self.max_y();
        let width = buf.size[0];
        let right: i32 = if width <= i32::MAX as usize {
            width as i32
        } else {
            i32::MAX
        };
        let ghost pts = self.points@;
        let mut y: i64 = y_min as i64;
        proof {
            assert forall|x: int, v: int| old(buf).holds(x, v) && v < y_min implies !fills(
                pts,
                width as int,
                x,
                v,
            ) by {
                lemma_row_crossings(pts, *old(buf), v, pts.len() as int, y_min as int, y_max as int);
                assert(cyclic_edges(pts).take(pts.len() as int) =~= cyclic_edges(pts));
            }
        }
        while y <= y_max as i64
            invariant
                y_min <= y <= y_max + 1,
                pts == self.points@,
                pts.len() > 0,
                width == old(buf).size[0],
                right == scan_probe(width as int, 0)[1].x,
                is_min_y(pts, y_min as int),
                is_max_y(pts, y_max as int),
                all_on(pts, *old(buf)),
                buf.wf(),
                buf.size == old(buf).size,
                forall|x: int, v: int|
                    old(buf).holds(x, v) ==> #[trigger] buf.at(x, v) == (if v < y && fills(
                        pts,
                        width as int,
                        x,
                        v,
                    ) {
                        c
                    } else {
                        old(buf).at(x, v)
                    }),
            decreases y_max + 1 - y,
        {
            let probe = [Point2 { x: 0, y: y as i32 }, Point2 { x: right, y: y as i32 }];
            assert(probe == scan_probe(width as int, y as int));
            let hits = self.intersection_inf_line(probe);
            proof {
                lemma_row_crossings(pts, *old(buf), y as int, pts.len() as int, y_min as int, y_max as int);
                assert(cyclic_edges(pts).take(pts.len() as int) =~= cyclic_edges(pts));
            }
            if hits.len() == 2 {
                let ghost before = *buf;
                let run = [hits[0], hits[1]];
                draw_line(buf, c, run);
                proof {
                    assert forall|x: int, v: int| old(buf).holds(x, v) implies #[trigger] buf.at(
                        x,
                        v,
                    ) == (if v < y + 1 && fills(pts, width as int, x, v) {
                        c
                    } else {
                        old(buf).at(x, v)
                    }) by {
                        lemma_steps_flat(
                            low(run[0].x as int, run[1].x as int),
                            y as int,
                            high(run[0].x as int, run[1].x as int),
                            x,
                            v,
                        );
                    }
                }
            }
            y += 1;
        }
        proof {
            assert forall|x: int, v: int| old(buf).holds(x, v) && v > y_max implies !fills(
                pts,
                width as int,
                x,
                v,
            ) by {
                if v <= i32::MAX {
                    lemma_row_crossings(
                        pts,
                        *old(buf),
                        v,
                        pts.len() as int,
                        y_min as int,
                        y_max as int,
                    );
                    assert(cyclic_edges(pts).take(pts.len() as int) =~= cyclic_edges(pts));
                }
            }
        }
    }
}

} // verus!
