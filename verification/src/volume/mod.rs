//! Solids as triangle meshes, and their way onto the screen.
use crate::exact::{floor_ratio, lemma_mul_bound, ratio_floor};
use crate::plane::Point2;
use crate::volume::matrix::fits_i32;
use vstd::prelude::*;

pub mod matrix;
pub mod pipeline;
pub mod polyhedron;
pub mod weld;

pub use pipeline::draw_line;

verus! {

/// A directed segment of space from its first point to its second, each
/// point by its three coordinates.
pub type Line3<N> = [[N; 3]; 2];

/// Whether `v` can be held in an `i64`.
pub open spec fn fits_i64(v: int) -> bool {
    i64::MIN <= v <= i64::MAX
}

/// The pixel coordinate of the homogeneous coordinate `x` over `w` on a screen
/// of `size` pixels: `x / w` runs from -1 at pixel zero to 1 at pixel `size`,
/// and the result is rounded down and moved by `offset`.
pub open spec fn screen_coord(x: int, w: int, size: int, offset: int) -> int {
    ratio_floor((x + w) * size, 2 * w) + offset
}

/// One pixel coordinate, or `None` where it does not fit in an `i32`.
fn to_screen(x: i64, w: i64, size: i32, offset: i32) -> (res: Option<i32>)
    requires
        w != 0,
    ensures
        res.is_some() <==> fits_i32(screen_coord(x as int, w as int, size as int, offset as int)),
        res matches Some(s) ==> s == screen_coord(x as int, w as int, size as int, offset as int),
{
    let sum: i128 = x as i128 + w as i128;
    proof {
        lemma_mul_bound(sum as int, size as int, 0x1_0000_0000_0000_0000, 0x8000_0000);
    }
    let s: i128 = floor_ratio(sum * (size as i128), 2 * (w as i128)) + offset as i128;
    if s < -0x8000_0000 || s > 0x7fff_ffff {
        None
    } else {
        Some(s as i32)
    }
}

/// Maps the homogeneous coordinates `(x, y, w)` of `ndc` to a pixel of a
/// screen of `size` columns and rows: after the division by `w`, `x` and `y`
/// from -1 to 1 span the screen, and `clip` is added to the pixel. Coordinates
/// are rounded down. `None` where `w` is zero or the pixel does not fit in
/// `i32` coordinates.
pub fn ndc_to_screen(ndc: &[i64; 3], size: &Point2<i32>, clip: &Point2<i32>) -> (res: Option<
    Point2<i32>,
>)
    ensures
        res.is_some() <==> on_screen_plane(*ndc, *size, *clip),
        res matches Some(p) ==> {
            &&& p.x == screen_coord(ndc[0] as int, ndc[2] as int, size.x as int, clip.x as int)
            &&& p.y == screen_coord(ndc[1] as int, ndc[2] as int, size.y as int, clip.y as int)
        },
{
    if ndc[2] == 0 {
        return None;
    }
    let x = match to_screen(ndc[0], ndc[2], size.x, clip.x) {
        Some(x) => x,
        None => return None,
    };
    let y = match to_screen(ndc[1], ndc[2], size.y, clip.y) {
        Some(y) => y,
        None => return None,
    };
    Some(Point2 { x, y })
}

/// Whether `ndc_to_screen` has a pixel for `ndc`.
pub open spec fn on_screen_plane(ndc: [i64; 3], size: Point2<i32>, clip: Point2<i32>) -> bool {
    &&& ndc[2] != 0
    &&& fits_i32(screen_coord(ndc[0] as int, ndc[2] as int, size.x as int, clip.x as int))
    &&& fits_i32(screen_coord(ndc[1] as int, ndc[2] as int, size.y as int, clip.y as int))
}

} // verus!
