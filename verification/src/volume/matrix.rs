//! Four by four matrices of whole numbers, for transforms of space in
//! homogeneous coordinates.
use crate::exact::{floor_ratio, lemma_mul_bound, ratio_floor};
use vstd::prelude::*;

verus! {

/// A matrix of four rows and four columns, stored row by row. Its entries are
/// whole numbers: a transform with fractions is written with all of its
/// entries multiplied by a common factor, which does not change where it
/// takes a point.
#[derive(Copy, Clone, Debug, PartialEq, Eq)]
pub struct Matrix4(pub [i32; 16]);

/// Whether `v` can be held in an `i32`.
pub open spec fn fits_i32(v: int) -> bool {
    i32::MIN <= v <= i32::MAX
}

/// The product of one row with one column, of four entries each.
pub open spec fn dot4(a: (int, int, int, int), b: (int, int, int, int)) -> int {
    a.0 * b.0 + a.1 * b.1 + a.2 * b.2 + a.3 * b.3
}

/// The entries of the matrix that leaves every point where it is.
pub open spec fn identity_entries() -> Seq<i32> {
    seq![1i32, 0, 0, 0, 0, 1, 0, 0, 0, 0, 1, 0, 0, 0, 0, 1]
}

/// The entries of the matrix that multiplies each homogeneous coordinate by
/// the entry of `s` for it.
pub open spec fn scale_entries(s: [i32; 4]) -> Seq<i32> {
    seq![s[0], 0, 0, 0, 0, s[1], 0, 0, 0, 0, s[2], 0, 0, 0, 0, s[3]]
}

/// The entries of the matrix that moves every point by `p`.
pub open spec fn translation_entries(p: [i32; 3]) -> Seq<i32> {
    seq![1i32, 0, 0, p[0], 0, 1, 0, p[1], 0, 0, 1, p[2], 0, 0, 0, 1]
}

/// The product of a row with a column, written out.
proof fn lemma_dot4(a: (int, int, int, int), b: (int, int, int, int))
    by (nonlinear_arith)
    ensures
        a.1 == 0 && a.2 == 0 && a.3 == 0 ==> dot4(a, b) == a.0 * b.0,
        a.0 == 0 && a.2 == 0 && a.3 == 0 ==> dot4(a, b) == a.1 * b.1,
        a.0 == 0 && a.1 == 0 && a.3 == 0 ==> dot4(a, b) == a.2 * b.2,
        a.0 == 0 && a.1 == 0 && a.2 == 0 ==> dot4(a, b) == a.3 * b.3,
        a.0 == 1 && a.1 == 0 && a.2 == 0 && b.3 == 1 ==> dot4(a, b) == b.0 + a.3,
        a.0 == 0 && a.1 == 1 && a.2 == 0 && b.3 == 1 ==> dot4(a, b) == b.1 + a.3,
        a.0 == 0 && a.1 == 0 && a.2 == 1 && b.3 == 1 ==> dot4(a, b) == b.2 + a.3,
        a.3 == 1 && b.3 == 1 ==> a.3 * b.3 == 1,
{
}

/// The identity takes every point to itself.
pub proof fn lemma_identity_image(m: Matrix4, q: [i32; 3])
    requires
        m.0@ == identity_entries(),
    ensures
        m.image(q) == (q[0] as int, q[1] as int, q[2] as int, 1int),
        m.takes(q),
        m.point_image(q) == q,
{
    let v = (q[0] as int, q[1] as int, q[2] as int, 1int);
    assert(m.0[0] == 1 && m.0[5] == 1 && m.0[10] == 1 && m.0[15] == 1);
    lemma_dot4(m.row(0), v);
    lemma_dot4(m.row(1), v);
    lemma_dot4(m.row(2), v);
    lemma_dot4(m.row(3), v);
    assert(m.point_image(q)@ =~= q@);
}

/// A translation takes every point to the point that lies `p` from it.
pub proof fn lemma_translation_image(m: Matrix4, p: [i32; 3], q: [i32; 3])
    requires
        m.0@ == translation_entries(p),
    ensures
        m.image(q) == (q[0] + p[0], q[1] + p[1], q[2] + p[2], 1int),
{
    let v = (q[0] as int, q[1] as int, q[2] as int, 1int);
    assert(m.0[0] == 1 && m.0[5] == 1 && m.0[10] == 1 && m.0[15] == 1);
    assert(m.0[3] == p[0] && m.0[7] == p[1] && m.0[11] == p[2]);
    lemma_dot4(m.row(0), v);
    lemma_dot4(m.row(1), v);
    lemma_dot4(m.row(2), v);
    lemma_dot4(m.row(3), v);
}

/// A scaling multiplies each coordinate of a point by its factor, and its
/// last homogeneous coordinate by the last.
pub proof fn lemma_scale_image(m: Matrix4, s: [i32; 4], q: [i32; 3])
    requires
        m.0@ == scale_entries(s),
    ensures
        m.image(q) == (s[0] * q[0], s[1] * q[1], s[2] * q[2], s[3] as int),
{
    let v = (q[0] as int, q[1] as int, q[2] as int, 1int);
    assert(m.0[0] == s[0] && m.0[5] == s[1] && m.0[10] == s[2] && m.0[15] == s[3]);
    lemma_dot4(m.row(0), v);
    lemma_dot4(m.row(1), v);
    lemma_dot4(m.row(2), v);
    lemma_dot4(m.row(3), v);
    assert(s[3] * 1 == s[3]);
}

/// The entries of the projection of a box onto the unit cube, each multiplied
/// by `width * height * (far - near)`. The projection itself divides `x` by
/// `width` and `y` by `height`, and takes `z` to
/// `(2 * z + far + near) / (far - near)`; the common factor stands in the
/// last entry and falls away when a point is divided by its last coordinate.
pub open spec fn orthographic_entries(width: int, height: int, near: int, far: int) -> Seq<int> {
    seq![
        height * (far - near),
        0,
        0,
        0,
        0,
        width * (far - near),
        0,
        0,
        0,
        0,
        2 * (width * height),
        (far + near) * (width * height),
        0,
        0,
        0,
        (width * height) * (far - near),
    ]
}

/// The entries of the projection toward the eye, each multiplied by
/// `width * height * (far - near)`. The projection itself takes `x` to
/// `near * x / width`, `y` to `near * y / height` and `z` to
/// `-((far + near) * z + 2 * far * near) / (far - near)`, and divides by `z`.
pub open spec fn perspective_entries(width: int, height: int, near: int, far: int) -> Seq<int> {
    seq![
        near * (height * (far - near)),
        0,
        0,
        0,
        0,
        near * (width * (far - near)),
        0,
        0,
        0,
        0,
        -((far + near) * (width * height)),
        -(2 * ((far * near) * (width * height))),
        0,
        0,
        (width * height) * (far - near),
        0,
    ]
}

/// Whether every one of `entries` can be held in an `i32`.
pub open spec fn all_fit(entries: Seq<int>) -> bool {
    forall|k: int| 0 <= k < entries.len() ==> fits_i32(#[trigger] entries[k])
}

/// The product of two numbers, of which the second is a coordinate or the
/// difference or sum of two.
fn times(a: i128, b: i64, Ghost(bound): Ghost<int>) -> (r: i128)
    requires
        -bound <= a <= bound,
        bound <= 0x2000_0000_0000_0000_0000_0000,
        -0x1_0000_0000 <= b <= 0x1_0000_0000,
    ensures
        r == a * b,
        -(bound * 0x1_0000_0000) <= r <= bound * 0x1_0000_0000,
{
    proof {
        lemma_mul_bound(a as int, b as int, bound, 0x1_0000_0000);
    }
    a * (b as i128)
}

/// The product of two coordinates.
fn area(a: i32, b: i32) -> (r: i128)
    ensures
        r == a * b,
        -0x4000_0000_0000_0000 <= r <= 0x4000_0000_0000_0000,
{
    proof {
        lemma_mul_bound(a as int, b as int, 0x8000_0000, 0x8000_0000);
    }
    (a as i128) * (b as i128)
}

/// The product of two products of coordinates.
fn areas(a: i128, b: i128) -> (r: i128)
    requires
        -0x4000_0000_0000_0000 <= a <= 0x4000_0000_0000_0000,
        -0x4000_0000_0000_0000 <= b <= 0x4000_0000_0000_0000,
    ensures
        r == a * b,
        -0x1000_0000_0000_0000_0000_0000_0000_0000 <= r <= 0x1000_0000_0000_0000_0000_0000_0000_0000,
{
    proof {
        lemma_mul_bound(a as int, b as int, 0x4000_0000_0000_0000, 0x4000_0000_0000_0000);
    }
    a * b
}

/// The matrix with the given entries, where they all fit.
fn narrowed(entries: [i128; 16]) -> (res: Option<Matrix4>)
    ensures
        res.is_some() <==> forall|k: int| 0 <= k < 16 ==> fits_i32(#[trigger] entries[k] as int),
        res matches Some(m) ==> forall|k: int| 0 <= k < 16 ==> #[trigger] m.0[k] == entries[k],
{
    let mut out: [i32; 16] = [0, 0, 0, 0, 0, 0, 0, 0, 0, 0, 0, 0, 0, 0, 0, 0];
    let mut k: usize = 0;
    while k < 16
        invariant
            0 <= k <= 16,
            forall|n: int| 0 <= n < k ==> #[trigger] out[n] == entries[n],
        decreases 16 - k,
    {
        let e = entries[k];
        if e < -0x8000_0000 || e > 0x7fff_ffff {
            assert(!fits_i32(entries[k as int] as int));
            return None;
        }
        out[k] = e as i32;
        k += 1;
    }
    assert forall|n: int| 0 <= n < 16 implies fits_i32(#[trigger] entries[n] as int) by {
        assert(out[n] == entries[n]);
    }
    Some(Matrix4(out))
}

/// Whether the entries of `m` are `entries`.
pub open spec fn has_entries(m: Matrix4, entries: Seq<int>) -> bool {
    forall|k: int| 0 <= k < 16 ==> #[trigger] m.0[k] == entries[k]
}

/// The product of a row of which only some entries are not zero.
proof fn lemma_dot4_sparse(a: (int, int, int, int), b: (int, int, int, int))
    by (nonlinear_arith)
    requires
        b.3 == 1,
    ensures
        a.0 == 0 && a.1 == 0 ==> dot4(a, b) == a.2 * b.2 + a.3,
        a.0 == 0 && a.1 == 0 && a.3 == 0 ==> dot4(a, b) == a.2 * b.2,
        a.0 == 0 && a.1 == 0 && a.2 == 0 ==> dot4(a, b) == a.3,
        a.1 == 0 && a.2 == 0 && a.3 == 0 ==> dot4(a, b) == a.0 * b.0,
        a.0 == 0 && a.2 == 0 && a.3 == 0 ==> dot4(a, b) == a.1 * b.1,
{
}

/// A product of three with its last two factors exchanged.
proof fn lemma_regroup(a: int, b: int, c: int)
    by (nonlinear_arith)
    ensures
        (a * b) * c == (a * c) * b,
{
}

/// A product of two products with the inner factors exchanged.
proof fn lemma_swap4(a: int, b: int, c: int, e: int)
    by (nonlinear_arith)
    ensures
        (a * b) * (c * e) == (a * c) * (b * e),
        (a * b) * (c * e) == a * ((b * c) * e),
{
}

/// The projection of a box divides `x` by the width and `y` by the height,
/// and takes `z` to `(2 * z + far + near) / (far - near)`: those are the
/// quotients of the homogeneous image by its last coordinate.
pub proof fn lemma_orthographic_image(
    m: Matrix4,
    width: int,
    height: int,
    near: int,
    far: int,
    q: [i32; 3],
)
    requires
        has_entries(m, orthographic_entries(width, height, near, far)),
    ensures
        ({
            let v = m.image(q);
            &&& v.3 == (width * height) * (far - near)
            &&& v.0 * width == q[0] * v.3
            &&& v.1 * height == q[1] * v.3
            &&& v.2 * (far - near) == (2 * q[2] + far + near) * v.3
        }),
{
    let e = orthographic_entries(width, height, near, far);
    let p = (q[0] as int, q[1] as int, q[2] as int, 1int);
    assert(m.0[0] == e[0] && m.0[1] == e[1] && m.0[2] == e[2] && m.0[3] == e[3]);
    assert(m.0[4] == e[4] && m.0[5] == e[5] && m.0[6] == e[6] && m.0[7] == e[7]);
    assert(m.0[8] == e[8] && m.0[9] == e[9] && m.0[10] == e[10] && m.0[11] == e[11]);
    assert(m.0[12] == e[12] && m.0[13] == e[13] && m.0[14] == e[14] && m.0[15] == e[15]);
    lemma_dot4_sparse(m.row(0), p);
    lemma_dot4_sparse(m.row(1), p);
    lemma_dot4_sparse(m.row(2), p);
    lemma_dot4_sparse(m.row(3), p);
    let v = m.image(q);
    let wh = width * height;
    let d = far - near;
    assert(v.0 == (height * d) * q[0] && v.1 == (width * d) * q[1] && v.2 == (2 * wh) * q[2] + (
    far + near) * wh && v.3 == wh * d);
    assert(((height * d) * q[0]) * width == q[0] * (wh * d)) by (nonlinear_arith)
        requires
            wh == width * height,
    ;
    assert(((width * d) * q[1]) * height == q[1] * (wh * d)) by (nonlinear_arith)
        requires
            wh == width * height,
    ;
    assert(((2 * wh) * q[2] + (far + near) * wh) * d == (2 * q[2] + far + near) * (wh * d))
        by (nonlinear_arith);
}

/// The projection toward the eye takes `x` to `near * x / (width * z)` and
/// `y` to `near * y / (height * z)`: those are the quotients of the
/// homogeneous image by its last coordinate, which is `z` times the common
/// factor.
pub proof fn lemma_perspective_image(
    m: Matrix4,
    width: int,
    height: int,
    near: int,
    far: int,
    q: [i32; 3],
)
    requires
        has_entries(m, perspective_entries(width, height, near, far)),
    ensures
        ({
            let v = m.image(q);
            &&& v.3 == ((width * height) * (far - near)) * q[2]
            &&& v.0 * (width * q[2]) == (near * q[0]) * v.3
            &&& v.1 * (height * q[2]) == (near * q[1]) * v.3
            &&& v.2 * ((far - near) * q[2]) == (-((far + near) * q[2] + 2 * (far * near))) * v.3
        }),
{
    let e = perspective_entries(width, height, near, far);
    let p = (q[0] as int, q[1] as int, q[2] as int, 1int);
    assert(m.0[0] == e[0] && m.0[1] == e[1] && m.0[2] == e[2] && m.0[3] == e[3]);
    assert(m.0[4] == e[4] && m.0[5] == e[5] && m.0[6] == e[6] && m.0[7] == e[7]);
    assert(m.0[8] == e[8] && m.0[9] == e[9] && m.0[10] == e[10] && m.0[11] == e[11]);
    assert(m.0[12] == e[12] && m.0[13] == e[13] && m.0[14] == e[14] && m.0[15] == e[15]);
    lemma_dot4_sparse(m.row(0), p);
    lemma_dot4_sparse(m.row(1), p);
    lemma_dot4_sparse(m.row(2), p);
    lemma_dot4_sparse(m.row(3), p);
    let v = m.image(q);
    let wh = width * height;
    let d = far - near;
    let x = q[0] as int;
    let y = q[1] as int;
    let z = q[2] as int;
    let f = far * near;
    assert(v.0 == (near * (height * d)) * x && v.1 == (near * (width * d)) * y && v.2 == (-((far
        + near) * wh)) * z + -(2 * (f * wh)) && v.3 == (wh * d) * z);
    let hd = height * d;
    let wd = width * d;
    let whd = wh * d;
    assert(hd * width == whd && wd * height == whd) by (nonlinear_arith)
        requires
            hd == height * d,
            wd == width * d,
            whd == (width * height) * d,
    ;
    lemma_regroup(near, hd, x);
    lemma_swap4(near * x, hd, width, z);
    assert(v.0 * (width * z) == (near * x) * v.3);
    lemma_regroup(near, wd, y);
    lemma_swap4(near * y, wd, height, z);
    assert(v.1 * (height * z) == (near * y) * v.3);
    let t = (far + near) * z + 2 * f;
    assert(v.2 == (-t) * wh) by (nonlinear_arith)
        requires
            v.2 == (-((far + near) * wh)) * z + -(2 * (f * wh)),
            t == (far + near) * z + 2 * f,
    ;
    lemma_swap4(-t, wh, d, z);
    assert(v.2 * (d * z) == (-t) * v.3);
}

impl Matrix4 {
    /// The projection of the box of the given width, height and depth from
    /// `near` to `far` onto the unit cube, with every entry multiplied by
    /// `width * height * (far - near)`. `None` where an entry does not fit in
    /// an `i32`.
    pub fn orthographic(width: i32, height: i32, near: i32, far: i32) -> (res: Option<Matrix4>)
        ensures
            res.is_some() <==> all_fit(
                orthographic_entries(width as int, height as int, near as int, far as int),
            ),
            res matches Some(m) ==> has_entries(
                m,
                orthographic_entries(width as int, height as int, near as int, far as int),
            ),
    {
        let depth: i64 = far as i64 - near as i64;
        let sum: i64 = far as i64 + near as i64;
        let wh = area(width, height);
        let entries = [
            times(height as i128, depth, Ghost(0x8000_0000)),
            0,
            0,
            0,
            0,
            times(width as i128, depth, Ghost(0x8000_0000)),
            0,
            0,
            0,
            0,
            2 * wh,
            times(wh, sum, Ghost(0x4000_0000_0000_0000)),
            0,
            0,
            0,
            times(wh, depth, Ghost(0x4000_0000_0000_0000)),
        ];
        let ghost spec_entries = orthographic_entries(
            width as int,
            height as int,
            near as int,
            far as int,
        );
        proof {
            assert((far + near) * (width * height) == (width * height) * (far + near))
                by (nonlinear_arith);
            assert forall|k: int| 0 <= k < 16 implies #[trigger] entries[k] == spec_entries[k] by {}
        }
        narrowed(entries)
    }

    /// The projection toward an eye at the origin that looks along `z`, for
    /// a window of the given width and height at the distance `near`, with
    /// every entry multiplied by `width * height * (far - near)`. `None` where
    /// an entry does not fit in an `i32`.
    pub fn perspective(width: i32, height: i32, near: i32, far: i32) -> (res: Option<Matrix4>)
        ensures
            res.is_some() <==> all_fit(
                perspective_entries(width as int, height as int, near as int, far as int),
            ),
            res matches Some(m) ==> has_entries(
                m,
                perspective_entries(width as int, height as int, near as int, far as int),
            ),
    {
        let depth: i64 = far as i64 - near as i64;
        let sum: i64 = far as i64 + near as i64;
        let wh = area(width, height);
        let fn_ = area(far, near);
        let entries = [
            times(
                times(height as i128, depth, Ghost(0x8000_0000)),
                near as i64,
                Ghost(0x8000_0000_0000_0000),
            ),
            0,
            0,
            0,
            0,
            times(
                times(width as i128, depth, Ghost(0x8000_0000)),
                near as i64,
                Ghost(0x8000_0000_0000_0000),
            ),
            0,
            0,
            0,
            0,
            -times(wh, sum, Ghost(0x4000_0000_0000_0000)),
            -(2 * areas(fn_, wh)),
            0,
            0,
            times(wh, depth, Ghost(0x4000_0000_0000_0000)),
            0,
        ];
        let ghost spec_entries = perspective_entries(
            width as int,
            height as int,
            near as int,
            far as int,
        );
        proof {
            assert((far + near) * (width * height) == (width * height) * (far + near))
                by (nonlinear_arith);
            assert(near * (height * (far - near)) == (height * (far - near)) * near
                && near * (width * (far - near)) == (width * (far - near)) * near)
                by (nonlinear_arith);
            assert forall|k: int| 0 <= k < 16 implies #[trigger] entries[k] == spec_entries[k] by {}
        }
        narrowed(entries)
    }

    /// The entry in row `r` and column `c`.
    pub open spec fn at(self, r: int, c: int) -> int {
        self.0[4 * r + c] as int
    }

    /// Row `r`.
    pub open spec fn row(self, r: int) -> (int, int, int, int) {
        (self.at(r, 0), self.at(r, 1), self.at(r, 2), self.at(r, 3))
    }

    /// Column `c`.
    pub open spec fn col(self, c: int) -> (int, int, int, int) {
        (self.at(0, c), self.at(1, c), self.at(2, c), self.at(3, c))
    }

    /// The homogeneous coordinates to which the matrix takes the point `p`:
    /// each row times `(p[0], p[1], p[2], 1)`.
    pub open spec fn image(self, p: [i32; 3]) -> (int, int, int, int) {
        let v = (p[0] as int, p[1] as int, p[2] as int, 1int);
        (dot4(self.row(0), v), dot4(self.row(1), v), dot4(self.row(2), v), dot4(self.row(3), v))
    }

    /// The matrix that leaves every point where it is.
    pub fn identity() -> (m: Matrix4)
        ensures
            m.0@ == identity_entries(),
    {
        let m = Matrix4([1, 0, 0, 0, 0, 1, 0, 0, 0, 0, 1, 0, 0, 0, 0, 1]);
        assert(m.0@ =~= identity_entries());
        m
    }

    /// The matrix that multiplies each homogeneous coordinate by the entry
    /// of `s` for it.
    pub fn scale(s: [i32; 4]) -> (m: Matrix4)
        ensures
            m.0@ == scale_entries(s),
    {
        let m = Matrix4([s[0], 0, 0, 0, 0, s[1], 0, 0, 0, 0, s[2], 0, 0, 0, 0, s[3]]);
        assert(m.0@ =~= scale_entries(s));
        m
    }

    /// The matrix that moves every point by `p`.
    pub fn translation(p: [i32; 3]) -> (m: Matrix4)
        ensures
            m.0@ == translation_entries(p),
    {
        let m = Matrix4([1, 0, 0, p[0], 0, 1, 0, p[1], 0, 0, 1, p[2], 0, 0, 0, 1]);
        assert(m.0@ =~= translation_entries(p));
        m
    }

    /// The product of row `r` of this matrix with `v`.
    fn row_dot(&self, r: usize, v: [i64; 4]) -> (d: i128)
        requires
            r < 4,
            forall|k: int| 0 <= k < 4 ==> -0x1_0000_0000 <= #[trigger] v[k] <= 0x1_0000_0000,
        ensures
            d == dot4(self.row(r as int), (v[0] as int, v[1] as int, v[2] as int, v[3] as int)),
            -0x2_0000_0000_0000_0000 <= d <= 0x2_0000_0000_0000_0000,
    {
        let a0: i128 = self.0[4 * r] as i128;
        let a1: i128 = self.0[4 * r + 1] as i128;
        let a2: i128 = self.0[4 * r + 2] as i128;
        let a3: i128 = self.0[4 * r + 3] as i128;
        proof {
            lemma_mul_bound(a0 as int, v[0] as int, 0x8000_0000, 0x1_0000_0000);
            lemma_mul_bound(a1 as int, v[1] as int, 0x8000_0000, 0x1_0000_0000);
            lemma_mul_bound(a2 as int, v[2] as int, 0x8000_0000, 0x1_0000_0000);
            lemma_mul_bound(a3 as int, v[3] as int, 0x8000_0000, 0x1_0000_0000);
        }
        a0 * (v[0] as i128) + a1 * (v[1] as i128) + a2 * (v[2] as i128) + a3 * (v[3] as i128)
    }

    /// The entry in row `i` and column `j` of the product of this matrix
    /// with `r`.
    pub open spec fn product_at(self, r: Matrix4, i: int, j: int) -> int {
        dot4(self.row(i), r.col(j))
    }

    /// The product of this matrix with `r`: the transform that applies `r`
    /// first and this matrix after it. `None` where an entry of the product
    /// does not fit in an `i32`.
    pub fn mul(&self, r: &Matrix4) -> (res: Option<Matrix4>)
        ensures
            res.is_some() <==> forall|i: int, j: int|
                0 <= i < 4 && 0 <= j < 4 ==> fits_i32(#[trigger] self.product_at(*r, i, j)),
            res matches Some(m) ==> forall|i: int, j: int|
                0 <= i < 4 && 0 <= j < 4 ==> #[trigger] m.at(i, j) == self.product_at(*r, i, j),
    {
        let mut out: [i32; 16] = [0, 0, 0, 0, 0, 0, 0, 0, 0, 0, 0, 0, 0, 0, 0, 0];
        let mut k: usize = 0;
        while k < 16
            invariant
                0 <= k <= 16,
                forall|n: int|
                    0 <= n < k ==> #[trigger] out[n] == self.product_at(*r, n / 4, n % 4),
            decreases 16 - k,
        {
            let i = k / 4;
            let j = k % 4;
            let column: [i64; 4] = [
                r.0[j] as i64,
                r.0[4 + j] as i64,
                r.0[8 + j] as i64,
                r.0[12 + j] as i64,
            ];
            let d = self.row_dot(i, column);
            if d < -0x8000_0000 || d > 0x7fff_ffff {
                assert(!fits_i32(self.product_at(*r, i as int, j as int)));
                return None;
            }
            out[k] = d as i32;
            k += 1;
        }
        let m = Matrix4(out);
        proof {
            assert forall|i: int, j: int| 0 <= i < 4 && 0 <= j < 4 implies #[trigger] m.at(i, j)
                == self.product_at(*r, i, j) by {
                let n = 4 * i + j;
                assert(out[n] == self.product_at(*r, n / 4, n % 4));
            }
            assert forall|i: int, j: int| 0 <= i < 4 && 0 <= j < 4 implies fits_i32(
                #[trigger] self.product_at(*r, i, j),
            ) by {
                assert(m.at(i, j) == self.product_at(*r, i, j));
            }
        }
        Some(m)
    }

    /// The homogeneous coordinates to which the matrix takes the point `p`.
    pub fn mul_point(&self, p: [i32; 3]) -> (v: [i128; 4])
        ensures
            (v[0] as int, v[1] as int, v[2] as int, v[3] as int) == self.image(p),
            forall|k: int|
                0 <= k < 4 ==> -0x2_0000_0000_0000_0000 <= #[trigger] v[k]
                    <= 0x2_0000_0000_0000_0000,
    {
        let h: [i64; 4] = [p[0] as i64, p[1] as i64, p[2] as i64, 1];
        [self.row_dot(0, h), self.row_dot(1, h), self.row_dot(2, h), self.row_dot(3, h)]
    }

    /// The point to which the matrix takes `p`: its homogeneous image divided
    /// by its last coordinate, each coordinate rounded down. `None` where
    /// that last coordinate is zero, or a coordinate of the point does not
    /// fit in an `i32`.
    pub fn transform_point(&self, p: [i32; 3]) -> (res: Option<[i32; 3]>)
        ensures
            res.is_some() <==> self.takes(p),
            res matches Some(q) ==> q == self.point_image(p),
    {
        let v = self.mul_point(p);
        if v[3] == 0 {
            return None;
        }
        let x = floor_ratio(v[0], v[3]);
        let y = floor_ratio(v[1], v[3]);
        let z = floor_ratio(v[2], v[3]);
        if x < -0x8000_0000 || x > 0x7fff_ffff || y < -0x8000_0000 || y > 0x7fff_ffff || z
            < -0x8000_0000 || z > 0x7fff_ffff {
            return None;
        }
        Some([x as i32, y as i32, z as i32])
    }

    /// Whether the matrix takes `p` to a point that can be held: the last
    /// homogeneous coordinate is not zero and each quotient fits in an `i32`.
    pub open spec fn takes(self, p: [i32; 3]) -> bool {
        let v = self.image(p);
        &&& v.3 != 0
        &&& fits_i32(ratio_floor(v.0, v.3))
        &&& fits_i32(ratio_floor(v.1, v.3))
        &&& fits_i32(ratio_floor(v.2, v.3))
    }

    /// The three coordinates of the point to which the matrix takes `p`.
    pub open spec fn point_image(self, p: [i32; 3]) -> [i32; 3] {
        let v = self.image(p);
        [ratio_floor(v.0, v.3) as i32, ratio_floor(v.1, v.3) as i32, ratio_floor(v.2, v.3) as i32]
    }
}

} // verus!
