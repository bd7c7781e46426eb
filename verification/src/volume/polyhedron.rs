//! Triangle meshes with shared vertices.
use vstd::prelude::*;
use vstd::std_specs::convert::IntoSpec;
use vstd::std_specs::iter::IteratorSpec;

verus! {

/// A solid bounded by triangles. Each face names its three corners by their
/// indices into `points`, so that faces share the points they have in common.
#[derive(Clone, Debug)]
pub struct Polyhedron<P> {
    pub points: Vec<P>,
    pub faces: Vec<[u16; 3]>,
}

/// Whether `b` is what `a` converts into, as far as the conversion is
/// specified.
pub open spec fn converts_to<A: Into<B>, B>(a: A, b: B) -> bool {
    A::obeys_into_spec() ==> b == a.into_spec()
}

/// An index as a mathematical integer.
pub open spec fn place(i: usize) -> int {
    i as int
}

/// A corner of a face as a mathematical integer.
pub open spec fn corner(c: u16) -> int {
    c as int
}

/// A length as a mathematical integer.
pub open spec fn count(n: nat) -> int {
    n as int
}

/// The index of a point as a corner of a face, or `None` where it is too
/// large for one.
pub fn corner_index(i: usize) -> (res: Option<u16>)
    ensures
        res.is_some() <==> i <= u16::MAX,
        res matches Some(c) ==> c == i,
{
    if i <= 65535 {
        Some(i as u16)
    } else {
        None
    }
}

impl<P> Polyhedron<P> {
    /// Every corner of every face is the index of a point.
    pub open spec fn wf(&self) -> bool {
        forall|i: int, k: int|
            0 <= i < self.faces@.len() && 0 <= k < 3 ==> (#[trigger] self.faces@[i][k])
                < self.points@.len()
    }

    /// Whether every corner of every face is the index of a point.
    pub fn check(&self) -> (ok: bool)
        ensures
            ok == self.wf(),
    {
        let n = self.points.len();
        let mut i: usize = 0;
        while i < self.faces.len()
            invariant
                0 <= i <= self.faces@.len(),
                n == self.points@.len(),
                forall|a: int, k: int|
                    0 <= a < i && 0 <= k < 3 ==> (#[trigger] self.faces@[a][k]) < n,
            decreases self.faces@.len() - i,
        {
            let face = self.faces[i];
            if face[0] as usize >= n || face[1] as usize >= n || face[2] as usize >= n {
                assert(!(self.faces@[i as int][0] < n && self.faces@[i as int][1] < n
                    && self.faces@[i as int][2] < n));
                return false;
            }
            i += 1;
        }
        true
    }

    /// The solid with `f` applied to each point, and the same faces.
    pub fn map<O, F: Fn(P) -> O>(self, f: F) -> (res: Polyhedron<O>)
        requires
            forall|i: int| 0 <= i < self.points@.len() ==> call_requires(f, (self.points@[i],)),
        ensures
            res.faces@ == self.faces@,
            res.points@.len() == self.points@.len(),
            res.wf() == self.wf(),
            forall|i: int|
                0 <= i < self.points@.len() ==> call_ensures(
                    f,
                    (self.points@[i],),
                    #[trigger] res.points@[i],
                ),
    {
        let ghost pts = self.points@;
        let mut points: Vec<O> = Vec::new();
        for p in it: self.points.into_iter()
            invariant
                it.seq() == pts,
                points@.len() == it.index(),
                forall|i: int| 0 <= i < pts.len() ==> call_requires(f, (pts[i],)),
                forall|i: int|
                    0 <= i < it.index() ==> call_ensures(f, (pts[i],), #[trigger] points@[i]),
        {
            points.push(f(p));
        }
        Polyhedron { points, faces: self.faces }
    }

    /// The solid `o` with each point converted, and the same faces.
    pub fn from<O: Into<P>>(o: Polyhedron<O>) -> (res: Self)
        ensures
            res.faces@ == o.faces@,
            res.points@.len() == o.points@.len(),
            res.wf() == o.wf(),
            forall|i: int|
                0 <= i < o.points@.len() ==> converts_to(o.points@[i], #[trigger] res.points@[i]),
    {
        let convert = |p: O| -> (q: P)
            ensures
                converts_to(p, q),
            {
                p.into()
            };
        o.map(convert)
    }

    /// This solid with each point converted, and the same faces.
    pub fn into<O>(self) -> (res: Polyhedron<O>) where P: Into<O>
        ensures
            res.faces@ == self.faces@,
            res.points@.len() == self.points@.len(),
            res.wf() == self.wf(),
            forall|i: int|
                0 <= i < self.points@.len() ==> converts_to(
                    self.points@[i],
                    #[trigger] res.points@[i],
                ),
    {
        let convert = |p: P| -> (q: O)
            ensures
                converts_to(p, q),
            {
                p.into()
            };
        self.map(convert)
    }

    /// A walk over the points, in their order.
    pub fn points(&self) -> (it: core::slice::Iter<'_, P>)
        ensures
            it.remaining() == self.points@.as_ref(),
            it.decrease() is Some,
            it.initial_value_relation(&it),
    {
        self.points.iter()
    }

    /// The points, to change them or their number in place.
    pub fn points_mut(&mut self) -> (points: &mut Vec<P>)
        ensures
            *points == old(self).points,
            final(self).points == *final(points),
            final(self).faces == old(self).faces,
    {
        &mut self.points
    }

    /// A walk over the faces, in their order.
    pub fn faces(&self) -> (it: core::slice::Iter<'_, [u16; 3]>)
        ensures
            it.remaining() == self.faces@.as_ref(),
            it.decrease() is Some,
            it.initial_value_relation(&it),
    {
        self.faces.iter()
    }

    /// The faces, to change them or their number in place.
    pub fn faces_mut(&mut self) -> (faces: &mut Vec<[u16; 3]>)
        ensures
            *faces == old(self).faces,
            final(self).faces == *final(faces),
            final(self).points == old(self).points,
    {
        &mut self.faces
    }
}


/// The points of the cube: the four of its back, then the four of its front. Coordinates are in halves of a unit.
pub open spec fn cube_points() -> Seq<[i32; 3]> {
    seq![
        [1i32, -1i32, -1i32],
        [-1i32, -1i32, -1i32],
        [-1i32, 1i32, -1i32],
        [1i32, 1i32, -1i32],
        [-1i32, -1i32, 1i32],
        [1i32, -1i32, 1i32],
        [1i32, 1i32, 1i32],
        [-1i32, 1i32, 1i32],
    ]
}

/// The faces of the cube: two triangles for each of its sides, the back
/// first, then the front, the bottom, the top, the left and the right.
pub open spec fn cube_faces() -> Seq<[u16; 3]> {
    seq![
        [0u16, 1u16, 2u16],
        [2u16, 3u16, 0u16],
        [4u16, 5u16, 6u16],
        [6u16, 7u16, 4u16],
        [5u16, 4u16, 1u16],
        [1u16, 0u16, 5u16],
        [3u16, 2u16, 7u16],
        [7u16, 6u16, 3u16],
        [1u16, 4u16, 7u16],
        [7u16, 2u16, 1u16],
        [5u16, 0u16, 3u16],
        [3u16, 6u16, 5u16],
    ]
}

/// The points of the octahedron: the four of its middle square, then its
/// top and its bottom. Coordinates are in halves of a unit.
pub open spec fn octohedron_points() -> Seq<[i32; 3]> {
    seq![
        [-1i32, 0i32, -1i32],
        [1i32, 0i32, -1i32],
        [1i32, 0i32, 1i32],
        [-1i32, 0i32, 1i32],
        [0i32, 1i32, 0i32],
        [0i32, -1i32, 0i32],
    ]
}

/// The faces of the octahedron: the four that meet at its top, then the
/// four that meet at its bottom.
pub open spec fn octohedron_faces() -> Seq<[u16; 3]> {
    seq![
        [4u16, 1u16, 0u16],
        [4u16, 2u16, 1u16],
        [4u16, 3u16, 2u16],
        [4u16, 0u16, 3u16],
        [5u16, 0u16, 1u16],
        [5u16, 1u16, 2u16],
        [5u16, 2u16, 3u16],
        [5u16, 3u16, 0u16],
    ]
}

/// The points of the flat triangle. Coordinates are in halves of a unit.
pub open spec fn triangle_points() -> Seq<[i32; 3]> {
    seq![
        [1i32, -1i32, -1i32],
        [-1i32, -1i32, -1i32],
        [0i32, -1i32, 1i32],
    ]
}

/// The one face of the flat triangle.
pub open spec fn triangle_faces() -> Seq<[u16; 3]> {
    seq![
        [0u16, 1u16, 2u16],
    ]
}

/// The points of the flat square. Coordinates are in halves of a unit.
pub open spec fn quad_points() -> Seq<[i32; 3]> {
    seq![
        [1i32, -1i32, -1i32],
        [-1i32, -1i32, -1i32],
        [-1i32, -1i32, 1i32],
        [1i32, -1i32, 1i32],
    ]
}

/// The two faces of the flat square.
pub open spec fn quad_faces() -> Seq<[u16; 3]> {
    seq![
        [0u16, 1u16, 2u16],
        [2u16, 3u16, 0u16],
    ]
}

/// The points of the rising triangle. Coordinates are in halves of a unit.
pub open spec fn ramp_tri_points() -> Seq<[i32; 3]> {
    seq![
        [1i32, -1i32, -1i32],
        [-1i32, -1i32, -1i32],
        [-1i32, 1i32, 1i32],
    ]
}

/// The one face of the rising triangle.
pub open spec fn ramp_tri_faces() -> Seq<[u16; 3]> {
    seq![
        [0u16, 1u16, 2u16],
    ]
}

/// The points of the rising square. Coordinates are in halves of a unit.
pub open spec fn ramp_quad_points() -> Seq<[i32; 3]> {
    seq![
        [1i32, -1i32, -1i32],
        [-1i32, -1i32, -1i32],
        [-1i32, 1i32, 1i32],
        [1i32, 1i32, 1i32],
    ]
}

/// The two faces of the rising square.
pub open spec fn ramp_quad_faces() -> Seq<[u16; 3]> {
    seq![
        [0u16, 1u16, 2u16],
        [2u16, 3u16, 0u16],
    ]
}

impl Polyhedron<[i32; 3]> {
    /// A cube of side one around the origin. Coordinates are in halves of a unit.
    pub fn cube() -> (res: Self)
        ensures
            res.points@ == cube_points(),
            res.faces@ == cube_faces(),
            res.wf(),
    {
        let points: Vec<[i32; 3]> = vec![
            [1, -1, -1],
            [-1, -1, -1],
            [-1, 1, -1],
            [1, 1, -1],
            [-1, -1, 1],
            [1, -1, 1],
            [1, 1, 1],
            [-1, 1, 1],
        ];
        let faces: Vec<[u16; 3]> = vec![
            [0, 1, 2],
            [2, 3, 0],
            [4, 5, 6],
            [6, 7, 4],
            [5, 4, 1],
            [1, 0, 5],
            [3, 2, 7],
            [7, 6, 3],
            [1, 4, 7],
            [7, 2, 1],
            [5, 0, 3],
            [3, 6, 5],
        ];
        assert(points@ =~= cube_points());
        assert(faces@ =~= cube_faces());
        Polyhedron { points, faces }
    }

    /// An octahedron around the origin, with its corners half a unit from
    /// the origin along `y` and on the diagonals of the plane `y == 0`. Coordinates are in halves of a unit.
    pub fn octohedron() -> (res: Self)
        ensures
            res.points@ == octohedron_points(),
            res.faces@ == octohedron_faces(),
            res.wf(),
    {
        let points: Vec<[i32; 3]> = vec![
            [-1, 0, -1],
            [1, 0, -1],
            [1, 0, 1],
            [-1, 0, 1],
            [0, 1, 0],
            [0, -1, 0],
        ];
        let faces: Vec<[u16; 3]> = vec![
            [4, 1, 0],
            [4, 2, 1],
            [4, 3, 2],
            [4, 0, 3],
            [5, 0, 1],
            [5, 1, 2],
            [5, 2, 3],
            [5, 3, 0],
        ];
        assert(points@ =~= octohedron_points());
        assert(faces@ =~= octohedron_faces());
        Polyhedron { points, faces }
    }

    /// A single triangle in the plane `y == -1/2`. Coordinates are in halves of a unit.
    pub fn triangle() -> (res: Self)
        ensures
            res.points@ == triangle_points(),
            res.faces@ == triangle_faces(),
            res.wf(),
    {
        let points: Vec<[i32; 3]> = vec![
            [1, -1, -1],
            [-1, -1, -1],
            [0, -1, 1],
        ];
        let faces: Vec<[u16; 3]> = vec![
            [0, 1, 2],
        ];
        assert(points@ =~= triangle_points());
        assert(faces@ =~= triangle_faces());
        Polyhedron { points, faces }
    }

    /// A square of two triangles in the plane `y == -1/2`. Coordinates are in halves of a unit.
    pub fn quad() -> (res: Self)
        ensures
            res.points@ == quad_points(),
            res.faces@ == quad_faces(),
            res.wf(),
    {
        let points: Vec<[i32; 3]> = vec![
            [1, -1, -1],
            [-1, -1, -1],
            [-1, -1, 1],
            [1, -1, 1],
        ];
        let faces: Vec<[u16; 3]> = vec![
            [0, 1, 2],
            [2, 3, 0],
        ];
        assert(points@ =~= quad_points());
        assert(faces@ =~= quad_faces());
        Polyhedron { points, faces }
    }

    /// A single triangle that rises from `y == -1/2` at the back to
    /// `y == 1/2` at the front. Coordinates are in halves of a unit.
    pub fn ramp_tri() -> (res: Self)
        ensures
            res.points@ == ramp_tri_points(),
            res.faces@ == ramp_tri_faces(),
            res.wf(),
    {
        let points: Vec<[i32; 3]> = vec![
            [1, -1, -1],
            [-1, -1, -1],
            [-1, 1, 1],
        ];
        let faces: Vec<[u16; 3]> = vec![
            [0, 1, 2],
        ];
        assert(points@ =~= ramp_tri_points());
        assert(faces@ =~= ramp_tri_faces());
        Polyhedron { points, faces }
    }

    /// A square of two triangles that rises from `y == -1/2` at the back to
    /// `y == 1/2` at the front. Coordinates are in halves of a unit.
    pub fn ramp_quad() -> (res: Self)
        ensures
            res.points@ == ramp_quad_points(),
            res.faces@ == ramp_quad_faces(),
            res.wf(),
    {
        let points: Vec<[i32; 3]> = vec![
            [1, -1, -1],
            [-1, -1, -1],
            [-1, 1, 1],
            [1, 1, 1],
        ];
        let faces: Vec<[u16; 3]> = vec![
            [0, 1, 2],
            [2, 3, 0],
        ];
        assert(points@ =~= ramp_quad_points());
        assert(faces@ =~= ramp_quad_faces());
        Polyhedron { points, faces }
    }
}

} // verus!
