//! Clipping of a polygon against an axis-aligned rectangle, one side after
//! the other: what is kept at each side, and what holds of the result.
use crate::exact::{in_unit, lemma_in_unit_scaled, lemma_scale_floor_exact};
use crate::plane::polygon::Polygon;
use crate::plane::{
    along_first, direction_cross, inf_line_intersection, lemma_point_along_bounds, meeting_point,
    meets_line, Line2, Point2,
};
use crate::Either;
use vstd::prelude::*;

verus! {

/// A side of an axis-aligned rectangle. The rectangle lies within each of its
/// sides: to the right of `Left`, below `Top`, and so on, `y` growing upward.
#[derive(Copy, Clone, Debug, PartialEq, Eq)]
pub enum Side {
    Top,
    Bottom,
    Left,
    Right,
}

/// Why a polygon could not be clipped.
#[derive(Copy, Clone, Debug, PartialEq, Eq)]
pub enum ClipError {
    /// An edge had to be cut at a side of the rectangle that has no length, so
    /// that no line runs through that side for the edge to cross.
    Parallel,
}

/// Whether `p` lies within `side` of the rectangle from its low corner
/// `bound[0]` to its high corner `bound[1]`: on the side or on the part of the
/// plane that holds the rectangle.
pub open spec fn within_side(side: Side, bound: Line2<i32>, p: Point2<i32>) -> bool {
    match side {
        Side::Left => p.x >= bound[0].x,
        Side::Right => p.x <= bound[1].x,
        Side::Bottom => p.y >= bound[0].y,
        Side::Top => p.y <= bound[1].y,
    }
}

/// Whether `p` lies in the rectangle from its low corner `bound[0]` to its high
/// corner `bound[1]`, sides included.
pub open spec fn rect_holds(bound: Line2<i32>, p: Point2<i32>) -> bool {
    bound[0].x <= p.x <= bound[1].x && bound[0].y <= p.y <= bound[1].y
}

/// The segment of `side` between the two corners of the rectangle on it.
pub open spec fn side_line(side: Side, bound: Line2<i32>) -> Line2<i32> {
    match side {
        Side::Left => [bound[0], Point2 { x: bound[0].x, y: bound[1].y }],
        Side::Right => [Point2 { x: bound[1].x, y: bound[0].y }, bound[1]],
        Side::Bottom => [bound[0], Point2 { x: bound[1].x, y: bound[0].y }],
        Side::Top => [Point2 { x: bound[0].x, y: bound[1].y }, bound[1]],
    }
}

/// The points that the edge from `a` to `b` adds to the polygon clipped at
/// `side`: `b` where it lies within the side, and before it the point at which
/// the edge crosses the side where only one of `a` and `b` lies within.
/// `None` where the edge has to be cut and does not meet the line of the side
/// in a single point.
pub open spec fn clip_edge(a: Point2<i32>, b: Point2<i32>, bound: Line2<i32>, side: Side) -> Option<
    Seq<Point2<i32>>,
> {
    let b_in = within_side(side, bound, b);
    if within_side(side, bound, a) == b_in {
        Some(
            if b_in {
                seq![b]
            } else {
                Seq::empty()
            },
        )
    } else if meets_line([a, b], side_line(side, bound)) {
        let p = meeting_point([a, b], side_line(side, bound));
        Some(
            if b_in {
                seq![p, b]
            } else {
                seq![p]
            },
        )
    } else {
        None
    }
}

/// The points that the first `k` edges of the cyclic sequence `pts` add to the
/// polygon clipped at `side`. The first edge is the one that ends in `pts[0]`.
pub open spec fn clip_walk(pts: Seq<Point2<i32>>, bound: Line2<i32>, side: Side, k: nat) -> Option<
    Seq<Point2<i32>>,
>
    decreases k,
{
    if k == 0 {
        Some(Seq::empty())
    } else {
        let a = if k == 1 {
            pts.last()
        } else {
            pts[k - 2]
        };
        match (clip_walk(pts, bound, side, (k - 1) as nat), clip_edge(a, pts[k - 1], bound, side)) {
            (Some(before), Some(added)) => Some(before + added),
            _ => None,
        }
    }
}

/// The cyclic sequence `pts` clipped at one side of a rectangle: `Ok(None)`
/// where nothing of it is left.
pub open spec fn clip_side_spec(pts: Seq<Point2<i32>>, bound: Line2<i32>, side: Side) -> Result<
    Option<Seq<Point2<i32>>>,
    ClipError,
> {
    match clip_walk(pts, bound, side, pts.len()) {
        None => Err(ClipError::Parallel),
        Some(kept) => Ok(
            if kept.len() == 0 {
                None
            } else {
                Some(kept)
            },
        ),
    }
}

/// Clips what an earlier pass left at one more side.
pub open spec fn clip_next(
    before: Result<Option<Seq<Point2<i32>>>, ClipError>,
    bound: Line2<i32>,
    side: Side,
) -> Result<Option<Seq<Point2<i32>>>, ClipError> {
    match before {
        Ok(Some(pts)) => clip_side_spec(pts, bound, side),
        _ => before,
    }
}

/// The cyclic sequence `pts` clipped against the rectangle from its low corner
/// `bound[0]` to its high corner `bound[1]`: at its left side, then at its
/// top, its right and its bottom.
pub open spec fn clip_spec(pts: Seq<Point2<i32>>, bound: Line2<i32>) -> Result<
    Option<Seq<Point2<i32>>>,
    ClipError,
> {
    clip_next(
        clip_next(
            clip_next(clip_side_spec(pts, bound, Side::Left), bound, Side::Top),
            bound,
            Side::Right,
        ),
        bound,
        Side::Bottom,
    )
}

/// The points of an optional polygon.
pub open spec fn clipped_points(res: Result<Option<Polygon<i32>>, ClipError>) -> Result<
    Option<Seq<Point2<i32>>>,
    ClipError,
> {
    match res {
        Ok(Some(p)) => Ok(Some(p.points@)),
        Ok(None) => Ok(None),
        Err(e) => Err(e),
    }
}

fn is_within(side: Side, bound: &Line2<i32>, p: Point2<i32>) -> (r: bool)
    ensures
        r == within_side(side, *bound, p),
{
    match side {
        Side::Left => p.x >= bound[0].x,
        Side::Right => p.x <= bound[1].x,
        Side::Bottom => p.y >= bound[0].y,
        Side::Top => p.y <= bound[1].y,
    }
}

fn line_of_side(side: Side, bound: &Line2<i32>) -> (l: Line2<i32>)
    ensures
        l == side_line(side, *bound),
{
    match side {
        Side::Left => [bound[0], Point2 { x: bound[0].x, y: bound[1].y }],
        Side::Right => [Point2 { x: bound[1].x, y: bound[0].y }, bound[1]],
        Side::Bottom => [bound[0], Point2 { x: bound[1].x, y: bound[0].y }],
        Side::Top => [Point2 { x: bound[0].x, y: bound[1].y }, bound[1]],
    }
}

/// Once a walk has failed it stays failed.
proof fn lemma_walk_fails_on(pts: Seq<Point2<i32>>, bound: Line2<i32>, side: Side, k: nat, n: nat)
    requires
        k <= n,
        clip_walk(pts, bound, side, k).is_none(),
    ensures
        clip_walk(pts, bound, side, n).is_none(),
    decreases n,
{
    if k < n {
        lemma_walk_fails_on(pts, bound, side, k, (n - 1) as nat);
    }
}

pub(crate) fn clip_side(poly: &Polygon<i32>, bound: &Line2<i32>, side: Side) -> (res: Result<
    Option<Polygon<i32>>,
    ClipError,
>)
    ensures
        clipped_points(res) == clip_side_spec(poly.points@, *bound, side),
{
    let boundary = line_of_side(side, bound);
    let mut res: Vec<Point2<i32>> = Vec::new();
    let n = poly.points.len();
    if n == 0 {
        return Ok(None);
    }
    let mut a = poly.points[n - 1];
    let mut i: usize = 0;
    while i < n
        invariant
            0 <= i <= n,
            n == poly.points@.len(),
            n > 0,
            boundary == side_line(side, *bound),
            a == (if i == 0 {
                poly.points@.last()
            } else {
                poly.points@[i - 1]
            }),
            clip_walk(poly.points@, *bound, side, i as nat) == Some(res@),
        decreases n - i,
    {
        let b = poly.points[i];
        let b_in = is_within(side, bound, b);
        let ghost before = res@;
        if is_within(side, bound, a) != b_in {
            match inf_line_intersection(&[a, b], &boundary) {
                Some(Either::A(p)) => res.push(p),
                _ => {
                    proof {
                        assert(clip_edge(a, b, *bound, side).is_none());
                        assert(clip_walk(poly.points@, *bound, side, (i + 1) as nat).is_none());
                        lemma_walk_fails_on(poly.points@, *bound, side, (i + 1) as nat, n as nat);
                    }
                    return Err(ClipError::Parallel);
                },
            }
        }
        if b_in {
            res.push(b);
        }
        proof {
            let added = clip_edge(a, b, *bound, side).unwrap();
            assert(res@ =~= before + added);
        }
        a = b;
        i += 1;
    }
    if res.len() == 0 {
        Ok(None)
    } else {
        Ok(Some(Polygon { points: res }))
    }
}

/// Whether every point of `pts` lies within `side` of the rectangle `bound`.
pub open spec fn all_within(pts: Seq<Point2<i32>>, bound: Line2<i32>, side: Side) -> bool {
    forall|i: int| 0 <= i < pts.len() ==> within_side(side, bound, #[trigger] pts[i])
}

/// Whether the line of `side` runs through two distinct corners of `bound`.
pub open spec fn side_has_length(side: Side, bound: Line2<i32>) -> bool {
    match side {
        Side::Left | Side::Right => bound[0].y != bound[1].y,
        Side::Bottom | Side::Top => bound[0].x != bound[1].x,
    }
}

/// The terms of the fraction at which an edge that is cut at a side meets the
/// line of that side.
proof fn lemma_cut_fraction(a: Point2<i32>, b: Point2<i32>, bound: Line2<i32>, side: Side) -> (t: (
    int,
    int,
    int,
))
    requires
        within_side(side, bound, a) != within_side(side, bound, b),
    ensures
        ({
            let (k, r, h) = t;
            &&& r != 0
            &&& in_unit(k, r)
            &&& along_first([a, b], side_line(side, bound)) == k * h
            &&& direction_cross([a, b], side_line(side, bound)) == r * h
            &&& h != 0 <==> side_has_length(side, bound)
            &&& match side {
                Side::Left => r == b.x - a.x && k == bound[0].x - a.x,
                Side::Right => r == b.x - a.x && k == bound[1].x - a.x,
                Side::Bottom => r == b.y - a.y && k == bound[0].y - a.y,
                Side::Top => r == b.y - a.y && k == bound[1].y - a.y,
            }
        }),
{
    let l = side_line(side, bound);
    let sx = l[1].x - l[0].x;
    let sy = l[1].y - l[0].y;
    let rx = b.x - a.x;
    let ry = b.y - a.y;
    let dx = l[0].x - a.x;
    let dy = l[0].y - a.y;
    match side {
        Side::Left | Side::Right => {
            assert(sx == 0);
            assert(rx * sy - ry * sx == rx * sy && dx * sy - dy * sx == dx * sy)
                by (nonlinear_arith)
                requires
                    sx == 0,
            ;
            (dx, rx, sy)
        },
        Side::Bottom | Side::Top => {
            assert(sy == 0);
            assert(rx * sy - ry * sx == ry * (-sx) && dx * sy - dy * sx == dy * (-sx))
                by (nonlinear_arith)
                requires
                    sy == 0,
            ;
            (dy, ry, -sx)
        },
    }
}

/// What an edge adds lies within the side at which it is clipped, and within
/// every side of any rectangle that both of its ends lie within.
proof fn lemma_edge_within(
    a: Point2<i32>,
    b: Point2<i32>,
    bound: Line2<i32>,
    side: Side,
    other: Line2<i32>,
    held: Side,
)
    requires
        clip_edge(a, b, bound, side).is_some(),
    ensures
        all_within(clip_edge(a, b, bound, side).unwrap(), bound, side),
        within_side(held, other, a) && within_side(held, other, b) ==> all_within(
            clip_edge(a, b, bound, side).unwrap(),
            other,
            held,
        ),
{
    if within_side(side, bound, a) != within_side(side, bound, b) {
        let l = side_line(side, bound);
        let (k, r, h) = lemma_cut_fraction(a, b, bound, side);
        assert(h != 0) by (nonlinear_arith)
            requires
                r * h != 0,
        ;
        lemma_scale_floor_exact(r, k, h);
        lemma_point_along_bounds([a, b], along_first([a, b], l), direction_cross([a, b], l));
    }
}

/// An edge can be clipped at every side that has a length.
proof fn lemma_edge_succeeds(a: Point2<i32>, b: Point2<i32>, bound: Line2<i32>, side: Side)
    requires
        side_has_length(side, bound),
    ensures
        clip_edge(a, b, bound, side).is_some(),
{
    if within_side(side, bound, a) != within_side(side, bound, b) {
        let (k, r, h) = lemma_cut_fraction(a, b, bound, side);
        lemma_in_unit_scaled(k, r, h);
    }
}

/// What a walk keeps lies within the side at which it clips, and within every
/// side of any rectangle that all the points lie within.
proof fn lemma_walk_within(
    pts: Seq<Point2<i32>>,
    bound: Line2<i32>,
    side: Side,
    k: nat,
    other: Line2<i32>,
    held: Side,
)
    requires
        k <= pts.len(),
        clip_walk(pts, bound, side, k).is_some(),
    ensures
        all_within(clip_walk(pts, bound, side, k).unwrap(), bound, side),
        all_within(pts, other, held) ==> all_within(
            clip_walk(pts, bound, side, k).unwrap(),
            other,
            held,
        ),
    decreases k,
{
    if k > 0 {
        let a = if k == 1 {
            pts.last()
        } else {
            pts[k - 2]
        };
        lemma_walk_within(pts, bound, side, (k - 1) as nat, other, held);
        lemma_edge_within(a, pts[k - 1], bound, side, other, held);
        let before = clip_walk(pts, bound, side, (k - 1) as nat).unwrap();
        let added = clip_edge(a, pts[k - 1], bound, side).unwrap();
        let all = before + added;
        assert forall|i: int| 0 <= i < all.len() implies within_side(side, bound, #[trigger] all[i]) by {
            if i >= before.len() {
                assert(all[i] == added[i - before.len()]);
            }
        }
        if all_within(pts, other, held) {
            assert forall|i: int| 0 <= i < all.len() implies within_side(
                held,
                other,
                #[trigger] all[i],
            ) by {
                if i >= before.len() {
                    assert(all[i] == added[i - before.len()]);
                }
            }
        }
    }
}

/// A walk along a side that has a length does not fail.
proof fn lemma_walk_succeeds(pts: Seq<Point2<i32>>, bound: Line2<i32>, side: Side, k: nat)
    requires
        side_has_length(side, bound),
    ensures
        clip_walk(pts, bound, side, k).is_some(),
    decreases k,
{
    if k > 0 {
        let a = if k == 1 {
            pts.last()
        } else {
            pts[k - 2]
        };
        lemma_walk_succeeds(pts, bound, side, (k - 1) as nat);
        lemma_edge_succeeds(a, pts[k - 1], bound, side);
    }
}

/// A walk over points that all lie within the side keeps each of them.
proof fn lemma_walk_keeps_all(pts: Seq<Point2<i32>>, bound: Line2<i32>, side: Side, k: nat)
    requires
        k <= pts.len(),
        all_within(pts, bound, side),
    ensures
        clip_walk(pts, bound, side, k) == Some(pts.take(k as int)),
    decreases k,
{
    if k > 0 {
        lemma_walk_keeps_all(pts, bound, side, (k - 1) as nat);
        let a = if k == 1 {
            pts.last()
        } else {
            pts[k - 2]
        };
        assert(within_side(side, bound, a));
        assert(within_side(side, bound, pts[k - 1]));
        assert(pts.take(k - 1) + seq![pts[k - 1]] =~= pts.take(k as int));
    } else {
        assert(pts.take(0) =~= Seq::empty());
    }
}

/// One more pass keeps the points within the sides of the earlier passes, and
/// brings them within its own.
proof fn lemma_pass_within(
    before: Result<Option<Seq<Point2<i32>>>, ClipError>,
    bound: Line2<i32>,
    side: Side,
    other: Line2<i32>,
    held: Side,
)
    ensures
        clip_next(before, bound, side) matches Ok(Some(kept)) ==> {
            &&& before matches Ok(Some(pts))
            &&& kept.len() > 0
            &&& all_within(kept, bound, side)
            &&& (all_within(before->Ok_0->Some_0, other, held) ==> all_within(kept, other, held))
        },
{
    if let Ok(Some(pts)) = before {
        if clip_walk(pts, bound, side, pts.len()).is_some() {
            lemma_walk_within(pts, bound, side, pts.len(), other, held);
        }
    }
}

/// The four passes of a clip, each as the result of the pass before it.
pub open spec fn clip_passes(pts: Seq<Point2<i32>>, bound: Line2<i32>) -> (
    Result<Option<Seq<Point2<i32>>>, ClipError>,
    Result<Option<Seq<Point2<i32>>>, ClipError>,
    Result<Option<Seq<Point2<i32>>>, ClipError>,
    Result<Option<Seq<Point2<i32>>>, ClipError>,
) {
    let left = clip_side_spec(pts, bound, Side::Left);
    let top = clip_next(left, bound, Side::Top);
    let right = clip_next(top, bound, Side::Right);
    (left, top, right, clip_next(right, bound, Side::Bottom))
}

/// Every point of a clipped polygon lies in the rectangle against which it was
/// clipped.
pub proof fn lemma_clip_within_rect(pts: Seq<Point2<i32>>, bound: Line2<i32>)
    ensures
        clip_spec(pts, bound) matches Ok(Some(kept)) ==> forall|i: int|
            0 <= i < kept.len() ==> rect_holds(bound, #[trigger] kept[i]),
{
    let (left, top, right, bottom) = clip_passes(pts, bound);
    if let Ok(Some(kept)) = clip_spec(pts, bound) {
        lemma_pass_within(Ok(Some(pts)), bound, Side::Left, bound, Side::Left);
        lemma_pass_within(left, bound, Side::Top, bound, Side::Left);
        lemma_pass_within(top, bound, Side::Right, bound, Side::Left);
        lemma_pass_within(top, bound, Side::Right, bound, Side::Top);
        lemma_pass_within(right, bound, Side::Bottom, bound, Side::Left);
        lemma_pass_within(right, bound, Side::Bottom, bound, Side::Top);
        lemma_pass_within(right, bound, Side::Bottom, bound, Side::Right);
        assert forall|i: int| 0 <= i < kept.len() implies rect_holds(bound, #[trigger] kept[i]) by {
            assert(within_side(Side::Left, bound, kept[i]));
            assert(within_side(Side::Top, bound, kept[i]));
            assert(within_side(Side::Right, bound, kept[i]));
            assert(within_side(Side::Bottom, bound, kept[i]));
        }
    }
}

/// Clipping moves no point outward: a side of any rectangle that all the
/// points of a polygon lie within has all the points of the clipped polygon
/// within it too. So the clipped polygon stays in the bounding box of the
/// polygon.
pub proof fn lemma_clip_keeps_side(
    pts: Seq<Point2<i32>>,
    bound: Line2<i32>,
    other: Line2<i32>,
    held: Side,
)
    requires
        all_within(pts, other, held),
    ensures
        clip_spec(pts, bound) matches Ok(Some(kept)) ==> all_within(kept, other, held),
{
    let (left, top, right, bottom) = clip_passes(pts, bound);
    if let Ok(Some(kept)) = clip_spec(pts, bound) {
        lemma_pass_within(Ok(Some(pts)), bound, Side::Left, other, held);
        lemma_pass_within(left, bound, Side::Top, other, held);
        lemma_pass_within(top, bound, Side::Right, other, held);
        lemma_pass_within(right, bound, Side::Bottom, other, held);
    }
}

/// Clipping against a rectangle with a width and a height does not fail.
pub proof fn lemma_clip_succeeds(pts: Seq<Point2<i32>>, bound: Line2<i32>)
    requires
        bound[0].x != bound[1].x,
        bound[0].y != bound[1].y,
    ensures
        clip_spec(pts, bound).is_ok(),
{
    let (left, top, right, bottom) = clip_passes(pts, bound);
    lemma_walk_succeeds(pts, bound, Side::Left, pts.len());
    if let Ok(Some(l)) = left {
        lemma_walk_succeeds(l, bound, Side::Top, l.len());
    }
    if let Ok(Some(t)) = top {
        lemma_walk_succeeds(t, bound, Side::Right, t.len());
    }
    if let Ok(Some(r)) = right {
        lemma_walk_succeeds(r, bound, Side::Bottom, r.len());
    }
}

/// A polygon whose points all lie in the rectangle is left as it is.
pub proof fn lemma_clip_inside_unchanged(pts: Seq<Point2<i32>>, bound: Line2<i32>)
    requires
        pts.len() > 0,
        forall|i: int| 0 <= i < pts.len() ==> rect_holds(bound, #[trigger] pts[i]),
    ensures
        clip_spec(pts, bound) == Ok::<Option<Seq<Point2<i32>>>, ClipError>(Some(pts)),
{
    assert(pts.take(pts.len() as int) =~= pts);
    assert(all_within(pts, bound, Side::Left));
    assert(all_within(pts, bound, Side::Top));
    assert(all_within(pts, bound, Side::Right));
    assert(all_within(pts, bound, Side::Bottom));
    lemma_walk_keeps_all(pts, bound, Side::Left, pts.len());
    lemma_walk_keeps_all(pts, bound, Side::Top, pts.len());
    lemma_walk_keeps_all(pts, bound, Side::Right, pts.len());
    lemma_walk_keeps_all(pts, bound, Side::Bottom, pts.len());
}

/// Whether the point at `j` of the cyclic sequence `pts` lies within `side`.
pub open spec fn stays(pts: Seq<Point2<i32>>, bound: Line2<i32>, side: Side, j: int) -> bool {
    within_side(side, bound, pts[j])
}

/// Whether the edge that ends in the point at `j` crosses `side`: one of its
/// ends lies within the side and the other does not.
pub open spec fn turns(pts: Seq<Point2<i32>>, bound: Line2<i32>, side: Side, j: int) -> bool {
    stays(pts, bound, side, j) != within_side(
        side,
        bound,
        if j == 0 {
            pts.last()
        } else {
            pts[j - 1]
        },
    )
}

/// How many of the first `k` points lie within `side`.
pub open spec fn stay_count(pts: Seq<Point2<i32>>, bound: Line2<i32>, side: Side, k: nat) -> nat
    decreases k,
{
    if k == 0 {
        0
    } else {
        stay_count(pts, bound, side, (k - 1) as nat) + if stays(pts, bound, side, k - 1) {
            1nat
        } else {
            0nat
        }
    }
}

/// How many of the first `k` edges cross `side`.
pub open spec fn turn_count(pts: Seq<Point2<i32>>, bound: Line2<i32>, side: Side, k: nat) -> nat
    decreases k,
{
    if k == 0 {
        0
    } else {
        turn_count(pts, bound, side, (k - 1) as nat) + if turns(pts, bound, side, k - 1) {
            1nat
        } else {
            0nat
        }
    }
}

/// A walk keeps one point for each point within the side and one for each
/// edge that crosses it.
proof fn lemma_walk_len(pts: Seq<Point2<i32>>, bound: Line2<i32>, side: Side, k: nat)
    requires
        k <= pts.len(),
        clip_walk(pts, bound, side, k).is_some(),
    ensures
        clip_walk(pts, bound, side, k).unwrap().len() == stay_count(pts, bound, side, k)
            + turn_count(pts, bound, side, k),
    decreases k,
{
    if k > 0 {
        lemma_walk_len(pts, bound, side, (k - 1) as nat);
    }
}

/// Counts of points and edges grow with the number of them that is looked at.
proof fn lemma_counts_grow(pts: Seq<Point2<i32>>, bound: Line2<i32>, side: Side, j: nat, k: nat)
    requires
        j <= k,
    ensures
        stay_count(pts, bound, side, j) <= stay_count(pts, bound, side, k),
        turn_count(pts, bound, side, j) <= turn_count(pts, bound, side, k),
    decreases k,
{
    if j < k {
        lemma_counts_grow(pts, bound, side, j, (k - 1) as nat);
    }
}

/// Where all of the first `k` points lie on the same side as the last point,
/// they are counted all or not at all, and no edge among them crosses.
proof fn lemma_counts_uniform(pts: Seq<Point2<i32>>, bound: Line2<i32>, side: Side, k: nat)
    requires
        0 < pts.len(),
        k <= pts.len(),
        forall|j: int|
            0 <= j < pts.len() ==> #[trigger] stays(pts, bound, side, j) == stays(
                pts,
                bound,
                side,
                pts.len() - 1,
            ),
    ensures
        turn_count(pts, bound, side, k) == 0,
        stay_count(pts, bound, side, k) == if stays(pts, bound, side, pts.len() - 1) {
            k
        } else {
            0
        },
    decreases k,
{
    if k > 0 {
        lemma_counts_uniform(pts, bound, side, (k - 1) as nat);
        assert(stays(pts, bound, side, k - 1) == stays(pts, bound, side, pts.len() - 1));
        if k > 1 {
            assert(stays(pts, bound, side, k - 2) == stays(pts, bound, side, pts.len() - 1));
        }
    }
}

/// Between two points on different sides, an edge crosses.
proof fn lemma_turn_between(pts: Seq<Point2<i32>>, bound: Line2<i32>, side: Side, a: int, b: int) -> (j:
    int)
    requires
        0 <= a < b < pts.len(),
        stays(pts, bound, side, a) != stays(pts, bound, side, b),
    ensures
        a < j <= b,
        turns(pts, bound, side, j),
    decreases b - a,
{
    if stays(pts, bound, side, b - 1) != stays(pts, bound, side, b) {
        b
    } else {
        lemma_turn_between(pts, bound, side, a, b - 1)
    }
}

/// Two edges that cross are counted twice.
proof fn lemma_two_turns(pts: Seq<Point2<i32>>, bound: Line2<i32>, side: Side, i: int, j: int)
    requires
        0 <= i < j < pts.len(),
        turns(pts, bound, side, i),
        turns(pts, bound, side, j),
    ensures
        turn_count(pts, bound, side, pts.len()) >= 2,
{
    lemma_counts_grow(pts, bound, side, i as nat, (i + 1) as nat);
    lemma_counts_grow(pts, bound, side, (i + 1) as nat, j as nat);
    lemma_counts_grow(pts, bound, side, (j + 1) as nat, pts.len());
    assert(turn_count(pts, bound, side, (i + 1) as nat) >= 1);
    assert(turn_count(pts, bound, side, (j + 1) as nat) >= turn_count(pts, bound, side, j as nat)
        + 1);
}

/// A point within the side is counted.
proof fn lemma_one_stay(pts: Seq<Point2<i32>>, bound: Line2<i32>, side: Side, i: int)
    requires
        0 <= i < pts.len(),
        stays(pts, bound, side, i),
    ensures
        stay_count(pts, bound, side, pts.len()) >= 1,
{
    lemma_counts_grow(pts, bound, side, (i + 1) as nat, pts.len());
}

/// What is kept of a polygon at one side is a polygon again, or nothing: of
/// three points or more, three or more are kept, or none.
proof fn lemma_walk_keeps_polygon(pts: Seq<Point2<i32>>, bound: Line2<i32>, side: Side)
    requires
        pts.len() >= 3,
        clip_walk(pts, bound, side, pts.len()).is_some(),
    ensures
        clip_walk(pts, bound, side, pts.len()).unwrap().len() == 0 || clip_walk(
            pts,
            bound,
            side,
            pts.len(),
        ).unwrap().len() >= 3,
{
    let n = pts.len() as int;
    lemma_walk_len(pts, bound, side, pts.len());
    let last = stays(pts, bound, side, n - 1);
    if forall|j: int| 0 <= j < n ==> #[trigger] stays(pts, bound, side, j) == last {
        lemma_counts_uniform(pts, bound, side, pts.len());
    } else {
        let m = choose|j: int| 0 <= j < n && #[trigger] stays(pts, bound, side, j) != last;
        // an edge crosses on the way from the point at `m` to the last point
        let j2 = lemma_turn_between(pts, bound, side, m, n - 1);
        if stays(pts, bound, side, 0) != last {
            // the edge that closes the polygon crosses too
            assert(turns(pts, bound, side, 0));
            lemma_two_turns(pts, bound, side, 0, j2);
        } else {
            let j1 = lemma_turn_between(pts, bound, side, 0, m);
            lemma_two_turns(pts, bound, side, j1, j2);
        }
        if last {
            lemma_one_stay(pts, bound, side, n - 1);
        } else {
            lemma_one_stay(pts, bound, side, m);
        }
    }
}

/// A clipped polygon is a polygon again: of three points or more, three or
/// more are left, or nothing at all.
pub proof fn lemma_clip_keeps_polygon(pts: Seq<Point2<i32>>, bound: Line2<i32>)
    requires
        pts.len() >= 3,
    ensures
        clip_spec(pts, bound) matches Ok(Some(kept)) ==> kept.len() >= 3,
{
    let (left, top, right, bottom) = clip_passes(pts, bound);
    if let Ok(Some(kept)) = clip_spec(pts, bound) {
        lemma_walk_keeps_polygon(pts, bound, Side::Left);
        let l = left->Ok_0->Some_0;
        lemma_walk_keeps_polygon(l, bound, Side::Top);
        let t = top->Ok_0->Some_0;
        lemma_walk_keeps_polygon(t, bound, Side::Right);
        let r = right->Ok_0->Some_0;
        lemma_walk_keeps_polygon(r, bound, Side::Bottom);
    }
}

} // verus!
