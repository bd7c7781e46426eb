//! The way of a solid onto the screen: from its own space into the world,
//! past the test of which faces look at the eye, through the camera onto the
//! pixels, and into the buffer.
use crate::buffer::{Buffer, Color};
use crate::exact::{cross, cross_bound, cross_of, delta, delta_bound, lemma_mul_bound};
use crate::plane::liang_barsky::lb_span;
use crate::plane::polygon::Polygon;
use crate::plane::scanline::{all_on, fills};
use crate::plane::sutherland_hodgman::{clip_spec, rect_holds, ClipError};
use crate::plane::raster::on_line;
use crate::plane::{draw_line as draw_line_2d, lb_clip, point_along, Line2, Point2};
use crate::volume::matrix::Matrix4;
use crate::volume::polyhedron::Polyhedron;
use crate::volume::{fits_i64, ndc_to_screen, on_screen_plane, screen_coord, Line3};
use vstd::prelude::*;

verus! {

/// A count of columns or rows as a coordinate: itself, or the largest
/// coordinate where it is larger.
pub open spec fn extent(n: usize) -> i32 {
    if n <= i32::MAX {
        n as i32
    } else {
        i32::MAX
    }
}

/// The numbers of columns and rows of `buf`, as coordinates.
pub open spec fn screen_size<T: Copy>(buf: Buffer<T>) -> Point2<i32> {
    Point2 { x: extent(buf.size[0]), y: extent(buf.size[1]) }
}

/// The rectangle of all pixels of a screen of the given size.
pub open spec fn screen_rect(size: Point2<i32>) -> Line2<i32> {
    [Point2 { x: 0, y: 0 }, Point2 { x: (size.x - 1) as i32, y: (size.y - 1) as i32 }]
}

/// The coordinate two below `n`, or the least coordinate where there is none.
pub open spec fn inset(n: i32) -> i32 {
    if n >= i32::MIN + 2 {
        (n - 2) as i32
    } else {
        i32::MIN
    }
}

/// The rectangle of the pixels of a screen that do not lie on its border.
pub open spec fn interior_rect(size: Point2<i32>) -> Line2<i32> {
    [Point2 { x: 1, y: 1 }, Point2 { x: inset(size.x), y: inset(size.y) }]
}

/// The pixel of a screen of the given size at which the point `p` is seen
/// through `transform`: the homogeneous image of `p`, divided by its last
/// coordinate and spread over the screen. `None` where `ndc_to_screen` has no
/// pixel for it, or a homogeneous coordinate does not fit in an `i64`.
pub open spec fn projected(transform: Matrix4, p: [i32; 3], size: Point2<i32>) -> Option<
    Point2<i32>,
> {
    let v = transform.image(p);
    if fits_i64(v.0) && fits_i64(v.1) && fits_i64(v.3) && on_screen_plane(
        [v.0 as i64, v.1 as i64, v.3 as i64],
        size,
        Point2 { x: 0, y: 0 },
    ) {
        Some(
            Point2 {
                x: screen_coord(v.0, v.3, size.x as int, 0) as i32,
                y: screen_coord(v.1, v.3, size.y as int, 0) as i32,
            },
        )
    } else {
        None
    }
}

fn narrow(v: i128) -> (res: Option<i64>)
    ensures
        res.is_some() <==> fits_i64(v as int),
        res matches Some(n) ==> n == v,
{
    if v < -0x8000_0000_0000_0000 || v > 0x7fff_ffff_ffff_ffff {
        None
    } else {
        Some(v as i64)
    }
}

fn inset_of(n: i32) -> (c: i32)
    ensures
        c == inset(n),
{
    if n >= -0x7fff_fffe {
        n - 2
    } else {
        i32::MIN
    }
}

fn coordinate(n: usize) -> (c: i32)
    ensures
        c == extent(n),
{
    if n <= 0x7fff_ffff {
        n as i32
    } else {
        0x7fff_ffff
    }
}

/// The pixel at which `p` is seen through `transform`.
pub fn project(transform: &Matrix4, p: [i32; 3], size: &Point2<i32>) -> (res: Option<Point2<i32>>)
    ensures
        res == projected(*transform, p, *size),
{
    let v = transform.mul_point(p);
    let x = match narrow(v[0]) {
        Some(x) => x,
        None => return None,
    };
    let y = match narrow(v[1]) {
        Some(y) => y,
        None => return None,
    };
    let w = match narrow(v[3]) {
        Some(w) => w,
        None => return None,
    };
    ndc_to_screen(&[x, y, w], size, &Point2 { x: 0, y: 0 })
}

/// The segment of the screen that a line of space is drawn as: the segment
/// between the pixels at which its ends are seen, clipped to the screen.
/// `None` where an end has no pixel, the screen has no pixel, or no part of
/// the segment is on the screen.
pub open spec fn seen_segment(l: Line3<i32>, transform: Matrix4, size: Point2<i32>) -> Option<
    Line2<i32>,
> {
    match (projected(transform, l[0], size), projected(transform, l[1], size)) {
        (Some(a), Some(b)) => {
            if size.x > 0 && size.y > 0 {
                match lb_span([a, b], screen_rect(size)) {
                    Some(t) => Some(
                        [
                            point_along([a, b], t.lo_num, t.lo_den),
                            point_along([a, b], t.hi_num, t.hi_den),
                        ],
                    ),
                    None => None,
                }
            } else {
                None
            }
        },
        _ => None,
    }
}

/// Draws with `c` the line of space `l` as it is seen through `transform`: its
/// ends are taken to their pixels, the segment between them is clipped to the
/// buffer, and what is left is drawn as a line of pixels. Nothing is drawn
/// where an end has no pixel or no part of the segment is on the buffer.
pub fn draw_line<T: Copy>(buf: &mut Buffer<T>, c: T, l: Line3<i32>, transform: &Matrix4)
    requires
        old(buf).wf(),
    ensures
        final(buf).wf(),
        final(buf).size == old(buf).size,
        forall|x: int, y: int|
            old(buf).holds(x, y) ==> #[trigger] final(buf).at(x, y) == (if seen_segment(
                l,
                *transform,
                screen_size(*old(buf)),
            ) matches Some(seg) && on_line(seg, x, y) {
                c
            } else {
                old(buf).at(x, y)
            }),
{
    let size = Point2 { x: coordinate(buf.size[0]), y: coordinate(buf.size[1]) };
    if size.x <= 0 || size.y <= 0 {
        return ;
    }
    let a = match project(transform, l[0], &size) {
        Some(a) => a,
        None => return ,
    };
    let b = match project(transform, l[1], &size) {
        Some(b) => b,
        None => return ,
    };
    let rect = [Point2 { x: 0, y: 0 }, Point2 { x: size.x - 1, y: size.y - 1 }];
    match lb_clip(&[a, b], &rect) {
        Some((seg, _)) => {
            draw_line_2d(buf, c, seg);
        },
        None => {},
    }
}

/// The step from `a` to `b`, coordinate by coordinate.
pub open spec fn from_to(a: [i32; 3], b: [i32; 3]) -> (int, int, int) {
    (b[0] - a[0], b[1] - a[1], b[2] - a[2])
}

/// The cross product of two steps of space.
pub open spec fn cross3(a: (int, int, int), b: (int, int, int)) -> (int, int, int) {
    (cross(a.1, a.2, b.1, b.2), cross(a.2, a.0, b.2, b.0), cross(a.0, a.1, b.0, b.1))
}

/// The dot product of two steps of space.
pub open spec fn dot3(a: (int, int, int), b: (int, int, int)) -> int {
    a.0 * b.0 + a.1 * b.1 + a.2 * b.2
}

/// The normal of the triangle `w0`, `w1`, `w2`: the cross product of its
/// edges from `w0`. Its length is twice the area of the triangle.
pub open spec fn face_normal(w0: [i32; 3], w1: [i32; 3], w2: [i32; 3]) -> (int, int, int) {
    cross3(from_to(w0, w1), from_to(w0, w2))
}

/// Whether the triangle `w0`, `w1`, `w2` looks at `eye`: its normal points
/// into the half of space that holds `eye`. A triangle that is seen edge-on
/// or has no area does not.
pub open spec fn looks_at(w0: [i32; 3], w1: [i32; 3], w2: [i32; 3], eye: [i32; 3]) -> bool {
    dot3(face_normal(w0, w1, w2), from_to(w0, eye)) > 0
}

/// The magnitude of a coordinate of a normal.
pub open spec fn size_of(v: int) -> int {
    if v >= 0 {
        v
    } else {
        -v
    }
}

/// The largest magnitude among the coordinates of `n`.
pub open spec fn largest(n: (int, int, int)) -> int {
    let a = size_of(n.0);
    let b = size_of(n.1);
    let c = size_of(n.2);
    if a >= b && a >= c {
        a
    } else if b >= c {
        b
    } else {
        c
    }
}

/// The color of a face with normal `n`, which is not zero: each of red, green
/// and blue in proportion to the magnitude of one coordinate of the normal,
/// the largest of them at full strength, and full alpha.
pub open spec fn shade(n: (int, int, int)) -> Color {
    let m = largest(n);
    Color {
        r: (255 * size_of(n.0) / m) as u8,
        g: (255 * size_of(n.1) / m) as u8,
        b: (255 * size_of(n.2) / m) as u8,
        a: 255,
    }
}

/// What a face does to the buffer.
pub enum FacePaint {
    /// The face is not drawn: a corner has no place in the world or no pixel,
    /// the face does not look at the eye, or nothing of it is in the clip
    /// rectangle.
    Nothing,
    /// The polygon `outline` is filled with `color`.
    Fill { outline: Seq<Point2<i32>>, color: Color },
    /// The face could not be clipped.
    Failed(ClipError),
}

/// What the triangle with corners `a`, `b` and `c` does to a screen of the
/// given size. The corners are taken into the world by `model`. Where the
/// triangle looks at `eye`, they are taken on to their pixels by `view`, and
/// the triangle of those pixels is clipped to the pixels that are not on the
/// border of the screen.
pub open spec fn face_paint(
    a: [i32; 3],
    b: [i32; 3],
    c: [i32; 3],
    model: Matrix4,
    view: Matrix4,
    eye: [i32; 3],
    size: Point2<i32>,
) -> FacePaint {
    if !(model.takes(a) && model.takes(b) && model.takes(c)) {
        FacePaint::Nothing
    } else {
        let w0 = model.point_image(a);
        let w1 = model.point_image(b);
        let w2 = model.point_image(c);
        if !looks_at(w0, w1, w2, eye) {
            FacePaint::Nothing
        } else {
            match (projected(view, w0, size), projected(view, w1, size), projected(view, w2, size)) {
                (Some(s0), Some(s1), Some(s2)) => match clip_spec(
                    seq![s0, s1, s2],
                    interior_rect(size),
                ) {
                    Ok(Some(outline)) => FacePaint::Fill {
                        outline,
                        color: shade(face_normal(w0, w1, w2)),
                    },
                    Ok(None) => FacePaint::Nothing,
                    Err(e) => FacePaint::Failed(e),
                },
                _ => FacePaint::Nothing,
            }
        }
    }
}

/// The cross product of two steps between coordinates.
fn cross_steps(a: [i64; 3], b: [i64; 3]) -> (n: [i128; 3])
    requires
        forall|k: int| 0 <= k < 3 ==> -delta_bound() <= #[trigger] a[k] <= delta_bound(),
        forall|k: int| 0 <= k < 3 ==> -delta_bound() <= #[trigger] b[k] <= delta_bound(),
    ensures
        (n[0] as int, n[1] as int, n[2] as int) == cross3(
            (a[0] as int, a[1] as int, a[2] as int),
            (b[0] as int, b[1] as int, b[2] as int),
        ),
        forall|k: int| 0 <= k < 3 ==> -cross_bound() <= #[trigger] n[k] <= cross_bound(),
{
    [
        cross_of(a[1], a[2], b[1], b[2]),
        cross_of(a[2], a[0], b[2], b[0]),
        cross_of(a[0], a[1], b[0], b[1]),
    ]
}

/// The step from `a` to `b`.
fn step(a: &[i32; 3], b: &[i32; 3]) -> (d: [i64; 3])
    ensures
        (d[0] as int, d[1] as int, d[2] as int) == from_to(*a, *b),
        forall|k: int| 0 <= k < 3 ==> -delta_bound() <= #[trigger] d[k] <= delta_bound(),
{
    [delta(a[0], b[0]), delta(a[1], b[1]), delta(a[2], b[2])]
}

/// The dot product of a normal with a step.
fn dot_steps(n: [i128; 3], d: [i64; 3]) -> (res: i128)
    requires
        forall|k: int| 0 <= k < 3 ==> -cross_bound() <= #[trigger] n[k] <= cross_bound(),
        forall|k: int| 0 <= k < 3 ==> -delta_bound() <= #[trigger] d[k] <= delta_bound(),
    ensures
        res == dot3(
            (n[0] as int, n[1] as int, n[2] as int),
            (d[0] as int, d[1] as int, d[2] as int),
        ),
{
    proof {
        lemma_mul_bound(n[0] as int, d[0] as int, cross_bound(), delta_bound());
        lemma_mul_bound(n[1] as int, d[1] as int, cross_bound(), delta_bound());
        lemma_mul_bound(n[2] as int, d[2] as int, cross_bound(), delta_bound());
    }
    n[0] * (d[0] as i128) + n[1] * (d[1] as i128) + n[2] * (d[2] as i128)
}

fn size(v: i128) -> (m: i128)
    requires
        -cross_bound() <= v <= cross_bound(),
    ensures
        m == size_of(v as int),
{
    if v >= 0 {
        v
    } else {
        -v
    }
}

/// One channel of the color of a face.
fn channel(v: i128, m: i128) -> (c: u8)
    requires
        0 <= v <= m <= cross_bound(),
        m > 0,
    ensures
        c == 255 * v / (m as int),
{
    assert(0 <= 255 * v / (m as int) <= 255) by (nonlinear_arith)
        requires
            0 <= v <= m,
            m > 0,
    ;
    ((255 * v) / m) as u8
}

/// The color of a face with normal `n`.
fn shade_of(n: [i128; 3]) -> (c: Color)
    requires
        forall|k: int| 0 <= k < 3 ==> -cross_bound() <= #[trigger] n[k] <= cross_bound(),
        largest((n[0] as int, n[1] as int, n[2] as int)) > 0,
    ensures
        c == shade((n[0] as int, n[1] as int, n[2] as int)),
{
    let r = size(n[0]);
    let g = size(n[1]);
    let b = size(n[2]);
    let m = if r >= g && r >= b {
        r
    } else if g >= b {
        g
    } else {
        b
    };
    Color { r: channel(r, m), g: channel(g, m), b: channel(b, m), a: 255 }
}

/// What a triangle does to a screen: the polygon to fill and its color, or
/// `None` where it is not drawn.
pub fn paint(
    a: [i32; 3],
    b: [i32; 3],
    c: [i32; 3],
    model: &Matrix4,
    view: &Matrix4,
    eye: &[i32; 3],
    size: &Point2<i32>,
) -> (res: Result<Option<(Polygon<i32>, Color)>, ClipError>)
    ensures
        match res {
            Ok(Some((outline, color))) => face_paint(a, b, c, *model, *view, *eye, *size) == (
            FacePaint::Fill { outline: outline.points@, color }) && forall|i: int|
                0 <= i < outline.points@.len() ==> rect_holds(
                    interior_rect(*size),
                    #[trigger] outline.points@[i],
                ),
            Ok(None) => face_paint(a, b, c, *model, *view, *eye, *size) == FacePaint::Nothing,
            Err(e) => face_paint(a, b, c, *model, *view, *eye, *size) == FacePaint::Failed(e),
        },
{
    let w0 = match model.transform_point(a) {
        Some(w) => w,
        None => return Ok(None),
    };
    let w1 = match model.transform_point(b) {
        Some(w) => w,
        None => return Ok(None),
    };
    let w2 = match model.transform_point(c) {
        Some(w) => w,
        None => return Ok(None),
    };
    let normal = cross_steps(step(&w0, &w1), step(&w0, &w2));
    if dot_steps(normal, step(&w0, eye)) <= 0 {
        return Ok(None);
    }
    let s0 = match project(view, w0, size) {
        Some(s) => s,
        None => return Ok(None),
    };
    let s1 = match project(view, w1, size) {
        Some(s) => s,
        None => return Ok(None),
    };
    let s2 = match project(view, w2, size) {
        Some(s) => s,
        None => return Ok(None),
    };
    let triangle = Polygon { points: vec![s0, s1, s2] };
    assert(triangle.points@ =~= seq![s0, s1, s2]);
    let rect = [Point2 { x: 1, y: 1 }, Point2 { x: inset_of(size.x), y: inset_of(size.y) }];
    match triangle.clip(&rect) {
        Ok(Some(outline)) => {
            proof {
                let n = (normal[0] as int, normal[1] as int, normal[2] as int);
                let d = from_to(w0, *eye);
                assert(largest(n) > 0) by (nonlinear_arith)
                    requires
                        n.0 * d.0 + n.1 * d.1 + n.2 * d.2 > 0,
                        largest(n) >= size_of(n.0),
                        largest(n) >= size_of(n.1),
                        largest(n) >= size_of(n.2),
                        size_of(n.0) >= n.0,
                        size_of(n.0) >= -n.0,
                        size_of(n.1) >= n.1,
                        size_of(n.1) >= -n.1,
                        size_of(n.2) >= n.2,
                        size_of(n.2) >= -n.2,
                ;
            }
            Ok(Some((outline, shade_of(normal))))
        },
        Ok(None) => Ok(None),
        Err(e) => Err(e),
    }
}

/// Why a solid could not be drawn.
#[derive(Copy, Clone, Debug, PartialEq, Eq)]
pub enum DrawError {
    /// A corner of a face is not the index of a point.
    BadIndex,
    /// A face could not be clipped.
    Clip(ClipError),
}

/// All that a drawing of a solid depends on, but for the pixels themselves.
pub struct Scene {
    /// The points of the solid.
    pub points: Seq<[i32; 3]>,
    /// Its faces.
    pub faces: Seq<[u16; 3]>,
    /// The transform from the space of the solid into the world.
    pub model: Matrix4,
    /// The transform from the world onto the screen plane.
    pub view: Matrix4,
    /// The place of the eye in the world.
    pub eye: [i32; 3],
    /// The numbers of columns and rows of the buffer.
    pub size: [usize; 2],
}

impl Scene {
    /// The size of the screen in coordinates.
    pub open spec fn screen(self) -> Point2<i32> {
        Point2 { x: extent(self.size[0]), y: extent(self.size[1]) }
    }

    /// What face `n` does to the buffer.
    pub open spec fn face(self, n: int) -> FacePaint {
        face_paint(
            self.points[self.faces[n][0] as int],
            self.points[self.faces[n][1] as int],
            self.points[self.faces[n][2] as int],
            self.model,
            self.view,
            self.eye,
            self.screen(),
        )
    }

    /// The first of the faces before `n` that cannot be clipped.
    pub open spec fn first_failed(self, n: int) -> Option<int>
        decreases n,
    {
        if n <= 0 {
            None
        } else {
            match self.first_failed(n - 1) {
                Some(k) => Some(k),
                None => if self.face(n - 1) is Failed {
                    Some(n - 1)
                } else {
                    None
                },
            }
        }
    }

    /// The color of the pixel `(x, y)` after the faces before `n` were
    /// drawn, one after the other, onto a pixel of color `base`. A later
    /// face paints over an earlier one.
    pub open spec fn painted(self, n: int, x: int, y: int, base: Color) -> Color
        decreases n,
    {
        if n <= 0 {
            base
        } else {
            match self.face(n - 1) {
                FacePaint::Fill { outline, color } if fills(outline, self.size[0] as int, x, y) => color,
                _ => self.painted(n - 1, x, y, base),
            }
        }
    }
}

/// A face that does not look at the eye changes no pixel.
pub proof fn lemma_face_away_paints_nothing(
    a: [i32; 3],
    b: [i32; 3],
    c: [i32; 3],
    model: Matrix4,
    view: Matrix4,
    eye: [i32; 3],
    size: Point2<i32>,
)
    requires
        model.takes(a) && model.takes(b) && model.takes(c),
        !looks_at(model.point_image(a), model.point_image(b), model.point_image(c), eye),
    ensures
        face_paint(a, b, c, model, view, eye, size) == FacePaint::Nothing,
{
}

/// Faces that are not drawn leave every pixel as it was.
pub proof fn lemma_unseen_faces_paint_nothing(scene: Scene, n: int, x: int, y: int, base: Color)
    requires
        forall|k: int| 0 <= k < n ==> #[trigger] scene.face(k) == FacePaint::Nothing,
    ensures
        scene.painted(n, x, y, base) == base,
        scene.first_failed(n).is_none(),
    decreases n,
{
    if n > 0 {
        lemma_unseen_faces_paint_nothing(scene, n - 1, x, y, base);
    }
}

impl Polyhedron<[i32; 3]> {
    /// Draws the solid into `buf`, face by face in the order of the faces.
    /// Each face is taken into the world by `model_to_world`. A face that does
    /// not look at `eye` is left out. The corners of the others are taken to
    /// their pixels by `view`, the triangle of those pixels is clipped to the
    /// pixels that are not on the border of the buffer, and what is left is
    /// filled with the color of the face. A face with a corner that has no
    /// place in the world or no pixel is left out as well.
    ///
    /// `Err(BadIndex)` where a corner of a face is not the index of a point;
    /// no pixel has changed then. `Err(Clip(..))` where a face could not be
    /// clipped; the faces before it are drawn then, and none after it.
    pub fn draw(
        &self,
        buf: &mut Buffer<Color>,
        model_to_world: &Matrix4,
        view: &Matrix4,
        eye: &[i32; 3],
    ) -> (res: Result<(), DrawError>)
        requires
            old(buf).wf(),
        ensures
            final(buf).wf(),
            final(buf).size == old(buf).size,
            ({
                let scene = Scene {
                    points: self.points@,
                    faces: self.faces@,
                    model: *model_to_world,
                    view: *view,
                    eye: *eye,
                    size: old(buf).size,
                };
                let n = self.faces@.len() as int;
                match res {
                    Ok(()) => {
                        &&& self.wf()
                        &&& scene.first_failed(n).is_none()
                        &&& forall|x: int, y: int|
                            old(buf).holds(x, y) ==> #[trigger] final(buf).at(x, y)
                                == scene.painted(n, x, y, old(buf).at(x, y))
                    },
                    Err(DrawError::BadIndex) => !self.wf() && *final(buf) == *old(buf),
                    Err(DrawError::Clip(e)) => {
                        &&& self.wf()
                        &&& scene.first_failed(n) matches Some(k)
                        &&& scene.face(k) == FacePaint::Failed(e)
                        &&& forall|x: int, y: int|
                            old(buf).holds(x, y) ==> #[trigger] final(buf).at(x, y)
                                == scene.painted(k, x, y, old(buf).at(x, y))
                    },
                }
            }),
    {
        if !self.check() {
            return Err(DrawError::BadIndex);
        }
        let size = Point2 { x: coordinate(buf.size[0]), y: coordinate(buf.size[1]) };
        let ghost scene = Scene {
            points: self.points@,
            faces: self.faces@,
            model: *model_to_world,
            view: *view,
            eye: *eye,
            size: old(buf).size,
        };
        let mut i: usize = 0;
        while i < self.faces.len()
            invariant
                0 <= i <= self.faces@.len(),
                self.wf(),
                buf.wf(),
                buf.size == old(buf).size,
                size == scene.screen(),
                scene == (Scene {
                    points: self.points@,
                    faces: self.faces@,
                    model: *model_to_world,
                    view: *view,
                    eye: *eye,
                    size: old(buf).size,
                }),
                scene.first_failed(i as int).is_none(),
                forall|x: int, y: int|
                    old(buf).holds(x, y) ==> #[trigger] buf.at(x, y) == scene.painted(
                        i as int,
                        x,
                        y,
                        old(buf).at(x, y),
                    ),
            decreases self.faces@.len() - i,
        {
            let face = self.faces[i];
            assert(self.faces@[i as int][0] < self.points@.len());
            assert(self.faces@[i as int][1] < self.points@.len());
            assert(self.faces@[i as int][2] < self.points@.len());
            let a = self.points[face[0] as usize];
            let b = self.points[face[1] as usize];
            let c = self.points[face[2] as usize];
            match paint(a, b, c, model_to_world, view, eye, &size) {
                Ok(Some((outline, color))) => {
                    assert(all_on(outline.points@, *buf)) by {
                        assert forall|k: int| 0 <= k < outline.points@.len() implies buf.holds(
                            #[trigger] outline.points@[k].x as int,
                            outline.points@[k].y as int,
                        ) by {
                            assert(rect_holds(interior_rect(size), outline.points@[k]));
                        }
                    }
                    outline.draw(buf, color);
                },
                Ok(None) => {},
                Err(e) => {
                    proof {
                        lemma_first_failed_stays(scene, i as int, self.faces@.len() as int);
                    }
                    return Err(DrawError::Clip(e));
                },
            }
            i += 1;
        }
        Ok(())
    }
}

/// The first face that cannot be clipped is the same however many faces
/// after it are looked at.
proof fn lemma_first_failed_stays(scene: Scene, k: int, n: int)
    requires
        0 <= k < n,
        scene.first_failed(k).is_none(),
        scene.face(k) is Failed,
    ensures
        scene.first_failed(n) == Some(k),
    decreases n,
{
    if n > k + 1 {
        lemma_first_failed_stays(scene, k, n - 1);
    }
}

} // verus!
