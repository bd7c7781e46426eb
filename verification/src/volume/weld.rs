//! Building a solid from loose triangles: corners that are equal become one
//! shared point.
use crate::volume::polyhedron::{corner, corner_index, count, place, Polyhedron};
use vstd::prelude::*;
use vstd::std_specs::cmp::PartialEqSpec;

verus! {

/// Whether `points` holds a point that `p` is equal to.
pub open spec fn known<P: PartialEq>(points: Seq<P>, p: P) -> bool {
    exists|j: int| 0 <= j < points.len() && p.eq_spec(&#[trigger] points[j])
}

/// Whether `i` is the index under which `p` is found in `points`: the first
/// at which `points` holds a point that `p` is equal to, or, where `p` is
/// equal to none of them, not even to itself, one at which `p` itself stands
/// after points that it is not equal to.
pub open spec fn found_at<P: PartialEq>(points: Seq<P>, p: P, i: int) -> bool {
    &&& 0 <= i < points.len()
    &&& p.eq_spec(&points[i]) || points[i] == p
    &&& forall|j: int| 0 <= j < i ==> !p.eq_spec(&#[trigger] points[j])
}

/// The points of the first `n` corners of `tris`, each point once, in the
/// order in which they first occur. The corners are counted triangle by
/// triangle, three for each.
pub open spec fn welded<P: PartialEq>(tris: Seq<[P; 3]>, n: int) -> Seq<P>
    decreases n,
{
    if n <= 0 {
        Seq::empty()
    } else {
        let before = welded(tris, n - 1);
        let p = tris[(n - 1) / 3][(n - 1) % 3];
        if known(before, p) {
            before
        } else {
            before.push(p)
        }
    }
}

/// The points only grow in number as more corners are taken in.
pub proof fn lemma_welded_grows<P: PartialEq>(tris: Seq<[P; 3]>, n: int, m: int)
    requires
        n <= m,
    ensures
        welded(tris, n).len() <= welded(tris, m).len(),
    decreases m - n,
{
    if n < m {
        lemma_welded_grows(tris, n, m - 1);
    }
}

/// Whether `more` holds the points of `points`, each at its index, and maybe
/// others after them.
pub open spec fn extends<P>(more: Seq<P>, points: Seq<P>) -> bool {
    &&& points.len() <= more.len()
    &&& forall|j: int| 0 <= j < points.len() ==> #[trigger] more[j] == points[j]
}

/// An index under which a point is found stays one when more points follow.
pub proof fn lemma_found_at_stays<P: PartialEq>(points: Seq<P>, more: Seq<P>, p: P, i: int)
    requires
        found_at(points, p, i),
        extends(more, points),
    ensures
        found_at(more, p, i),
{
}

/// The index at which `points` holds a point equal to `p`, after adding `p`
/// where it held none.
fn intern<P: Copy + PartialEq>(points: &mut Vec<P>, p: P) -> (i: usize)
    ensures
        i < final(points)@.len() <= old(points)@.len() + 1,
        final(points)@.len() > old(points)@.len() ==> i == old(points)@.len(),
        extends(final(points)@, old(points)@),
        P::obeys_eq_spec() ==> found_at(final(points)@, p, place(i)),
        P::obeys_eq_spec() ==> final(points)@ == (if known(old(points)@, p) {
            old(points)@
        } else {
            old(points)@.push(p)
        }),
{
    let mut i: usize = 0;
    while i < points.len()
        invariant
            i <= points@.len(),
            points@ == old(points)@,
            P::obeys_eq_spec() ==> forall|j: int| 0 <= j < i ==> !p.eq_spec(&#[trigger] points@[j]),
        decreases points@.len() - i,
    {
        if p == points[i] {
            return i;
        }
        i += 1;
    }
    points.push(p);
    i
}

/// The most points that the corners of faces can tell apart.
pub open spec fn max_points() -> int {
    65536
}

impl<P: Copy + PartialEq> Polyhedron<P> {
    /// The solid with the triangles `tris` as its faces. Corners that are
    /// equal share one point: the points are those of the corners, each once,
    /// in the order in which they first occur, and each face names the points
    /// of its triangle in the order of its corners. `None` where there are
    /// more points than the corners of faces can tell apart.
    pub fn from_iter(tris: &[[P; 3]]) -> (res: Option<Polyhedron<P>>)
        ensures
            res matches Some(m) ==> {
                &&& m.wf()
                &&& m.faces@.len() == tris@.len()
                &&& P::obeys_eq_spec() ==> m.points@ == welded(tris@, 3 * count(tris@.len()))
                &&& P::obeys_eq_spec() ==> forall|i: int, k: int|
                    0 <= i < tris@.len() && 0 <= k < 3 ==> found_at(
                        m.points@,
                        tris@[i][k],
                        corner(#[trigger] m.faces@[i][k]),
                    )
            },
            P::obeys_eq_spec() ==> (res.is_none() <==> welded(tris@, 3 * count(tris@.len())).len()
                > max_points()),
    {
        let mut points: Vec<P> = Vec::new();
        let mut faces: Vec<[u16; 3]> = Vec::new();
        let mut i: usize = 0;
        while i < tris.len()
            invariant
                i <= tris@.len(),
                faces@.len() == i,
                points@.len() <= max_points(),
                forall|a: int, k: int|
                    0 <= a < i && 0 <= k < 3 ==> (#[trigger] faces@[a][k]) < points@.len(),
                P::obeys_eq_spec() ==> points@ == welded(tris@, 3 * i),
                P::obeys_eq_spec() ==> forall|a: int, k: int|
                    0 <= a < i && 0 <= k < 3 ==> found_at(
                        points@,
                        tris@[a][k],
                        corner(#[trigger] faces@[a][k]),
                    ),
            decreases tris@.len() - i,
        {
            let tri = tris[i];
            let ghost at_start = points@;
            let ghost faces_before = faces@;
            let a = intern(&mut points, tri[0]);
            let ghost after_a = points@;
            let b = intern(&mut points, tri[1]);
            let ghost after_b = points@;
            let c = intern(&mut points, tri[2]);
            let ghost after_c = points@;
            proof {
                assert(extends(after_c, after_a));
                assert(extends(after_c, at_start));
                if P::obeys_eq_spec() {
                    assert(welded(tris@, 3 * i + 1) == after_a);
                    assert(welded(tris@, 3 * i + 2) == after_b);
                    assert(welded(tris@, 3 * i + 3) == after_c);
                    lemma_welded_grows(tris@, 3 * i + 1, 3 * count(tris@.len()));
                    lemma_welded_grows(tris@, 3 * i + 2, 3 * count(tris@.len()));
                    lemma_welded_grows(tris@, 3 * i + 3, 3 * count(tris@.len()));
                    lemma_found_at_stays(after_a, after_c, tri[0], place(a));
                    lemma_found_at_stays(after_b, after_c, tri[1], place(b));
                    assert forall|n: int, k: int| 0 <= n < i && 0 <= k < 3 implies found_at(
                        after_c,
                        tris@[n][k],
                        corner(#[trigger] faces_before[n][k]),
                    ) by {
                        lemma_found_at_stays(at_start, after_c, tris@[n][k], corner(faces_before[n][k]));
                    }
                }
            }
            let face = match (corner_index(a), corner_index(b), corner_index(c)) {
                (Some(a), Some(b), Some(c)) => [a, b, c],
                _ => {
                    return None;
                },
            };
            faces.push(face);
            i += 1;
        }
        Some(Polyhedron { points, faces })
    }
}

} // verus!
