//! Rasterization of segments and rectangles into a pixel buffer.
use crate::buffer::Buffer;
use crate::exact::lemma_floor_bracket;
use crate::plane::liang_barsky::{high, low};
use crate::plane::Line2;
use vstd::prelude::*;

verus! {

/// The magnitude of a coordinate difference.
pub open spec fn magnitude(a: int) -> int {
    if a >= 0 {
        a
    } else {
        -a
    }
}

/// Twice the distance, in units of `1 / du`, by which a line that rises `dv`
/// over a run of `du` lies beyond the pixel `k` steps up, at `i` steps along.
pub open spec fn error_at(du: int, dv: int, i: int, k: int) -> int {
    2 * (dv * i) - 2 * (du * k)
}

/// Whether the line from `(u0, v0)` to `(u1, v1)`, which runs at least as far
/// along `u` as along `v` and has `u0 <= u1`, colors the pixel `(u, v)`. It
/// colors one pixel for each `u` from `u0` to `u1`: the one nearest to the
/// line, and of two that are equally near the one nearer to `v0`.
pub open spec fn steps_on(u0: int, v0: int, u1: int, v1: int, u: int, v: int) -> bool {
    let du = u1 - u0;
    let dv = magnitude(v1 - v0);
    let k = if v1 >= v0 {
        v - v0
    } else {
        v0 - v
    };
    &&& u0 <= u <= u1
    &&& if du == 0 {
        k == 0
    } else {
        -du < error_at(du, dv, u - u0, k) <= du
    }
}

/// Whether the line from `l[0]` to `l[1]` colors the pixel `(x, y)`. The line
/// is taken from its end with the lesser coordinate on the axis along which it
/// runs farther; along `x` where it runs equally far along both.
pub open spec fn on_line(l: Line2<i32>, x: int, y: int) -> bool {
    if magnitude(l[1].x - l[0].x) >= magnitude(l[1].y - l[0].y) {
        if l[0].x <= l[1].x {
            steps_on(l[0].x as int, l[0].y as int, l[1].x as int, l[1].y as int, x, y)
        } else {
            steps_on(l[1].x as int, l[1].y as int, l[0].x as int, l[0].y as int, x, y)
        }
    } else {
        if l[0].y <= l[1].y {
            steps_on(l[0].y as int, l[0].x as int, l[1].y as int, l[1].x as int, y, x)
        } else {
            steps_on(l[1].y as int, l[1].x as int, l[0].y as int, l[0].x as int, y, x)
        }
    }
}

/// Whether `(x, y)` lies in the rectangle with opposite corners `rect[0]` and
/// `rect[1]`, sides included.
pub open spec fn in_rect_xy(rect: Line2<i32>, x: int, y: int) -> bool {
    &&& low(rect[0].x as int, rect[1].x as int) <= x <= high(rect[0].x as int, rect[1].x as int)
    &&& low(rect[0].y as int, rect[1].y as int) <= y <= high(rect[0].y as int, rect[1].y as int)
}

/// How the error changes with a step along either axis.
pub proof fn lemma_error_steps(du: int, dv: int, i: int, k: int)
    by (nonlinear_arith)
    ensures
        error_at(du, dv, 0, 0) == 0,
        error_at(du, dv, i + 1, k) == error_at(du, dv, i, k) + 2 * dv,
        error_at(du, dv, i, k + 1) == error_at(du, dv, i, k) - 2 * du,
{
}

/// At most one pixel of each column has its error within half a pixel, and
/// it lies between the ends of the line.
pub proof fn lemma_error_unique(du: int, dv: int, i: int, k: int, j: int)
    by (nonlinear_arith)
    requires
        0 <= dv <= du,
        0 <= i <= du,
        -du < error_at(du, dv, i, k) <= du,
    ensures
        0 <= k <= dv,
        -du < error_at(du, dv, i, j) <= du ==> j == k,
{
}

/// A line along one axis colors the pixels between its ends.
pub proof fn lemma_steps_flat(u0: int, v0: int, u1: int, u: int, v: int)
    requires
        u0 <= u1,
    ensures
        steps_on(u0, v0, u1, v0, u, v) <==> u0 <= u <= u1 && v == v0,
{
    let du = u1 - u0;
    if du > 0 && u0 <= u <= u1 {
        assert(error_at(du, 0, u - u0, v - v0) == -2 * (du * (v - v0))) by (nonlinear_arith);
        assert(-du < -2 * (du * (v - v0)) <= du <==> v - v0 == 0) by (nonlinear_arith)
            requires
                du > 0,
        ;
    }
}

/// A diagonal line colors the pixels that are as far from its start along
/// one axis as along the other.
pub proof fn lemma_steps_diagonal(u0: int, v0: int, u1: int, v1: int, u: int, v: int)
    requires
        u0 < u1,
        magnitude(v1 - v0) == u1 - u0,
    ensures
        steps_on(u0, v0, u1, v1, u, v) <==> u0 <= u <= u1 && (if v1 >= v0 {
            v - v0
        } else {
            v0 - v
        }) == u - u0,
{
    let du = u1 - u0;
    let k = if v1 >= v0 {
        v - v0
    } else {
        v0 - v
    };
    assert(error_at(du, du, u - u0, k) == 2 * (du * (u - u0 - k))) by (nonlinear_arith);
    assert(-du < 2 * (du * (u - u0 - k)) <= du <==> u - u0 - k == 0) by (nonlinear_arith)
        requires
            du > 0,
    ;
}

/// How many steps a line that rises `dv` over a run of `du` has risen at `i`
/// steps along: `dv * i / du` rounded to the nearest whole number, and down
/// where it lies midway between two.
pub open spec fn rise_at(du: int, dv: int, i: int) -> int {
    if du == 0 {
        0
    } else {
        (2 * (dv * i) + du - 1) / (2 * du)
    }
}

/// The pixel of a line at each step along it, in closed form.
pub proof fn lemma_steps_closed_form(u0: int, v0: int, u1: int, v1: int, u: int, v: int)
    requires
        u0 <= u1,
        magnitude(v1 - v0) <= u1 - u0,
    ensures
        steps_on(u0, v0, u1, v1, u, v) <==> u0 <= u <= u1 && (if v1 >= v0 {
            v - v0
        } else {
            v0 - v
        }) == rise_at(u1 - u0, magnitude(v1 - v0), u - u0),
{
    let du = u1 - u0;
    let dv = magnitude(v1 - v0);
    let i = u - u0;
    let k = if v1 >= v0 {
        v - v0
    } else {
        v0 - v
    };
    if du > 0 && u0 <= u <= u1 {
        let r = rise_at(du, dv, i);
        lemma_floor_bracket(2 * (dv * i) + du - 1, 2 * du);
        assert(-du < error_at(du, dv, i, r) <= du) by (nonlinear_arith)
            requires
                r * (2 * du) <= 2 * (dv * i) + du - 1 < r * (2 * du) + 2 * du,
                error_at(du, dv, i, r) == 2 * (dv * i) - 2 * (du * r),
        ;
        lemma_error_unique(du, dv, i, r, k);
    }
}

/// A line colors both of its ends.
pub proof fn lemma_line_covers_ends(l: Line2<i32>)
    ensures
        on_line(l, l[0].x as int, l[0].y as int),
        on_line(l, l[1].x as int, l[1].y as int),
{
    let dx = l[1].x - l[0].x;
    let dy = l[1].y - l[0].y;
    assert(error_at(magnitude(dx), magnitude(dy), 0, 0) == 0 && error_at(
        magnitude(dx),
        magnitude(dy),
        magnitude(dx),
        magnitude(dy),
    ) == 0 && error_at(magnitude(dy), magnitude(dx), 0, 0) == 0 && error_at(
        magnitude(dy),
        magnitude(dx),
        magnitude(dy),
        magnitude(dx),
    ) == 0) by (nonlinear_arith);
}

/// A line colors the same pixels from whichever end it is given.
pub proof fn lemma_line_symmetric(l: Line2<i32>, x: int, y: int)
    ensures
        on_line(l, x, y) == on_line([l[1], l[0]], x, y),
{
}

/// A line colors at most one pixel of each column where it runs at least as
/// far along `x` as along `y`, and at most one of each row where it does not.
pub proof fn lemma_line_one_per_step(l: Line2<i32>, x: int, y: int, u: int, v: int)
    requires
        on_line(l, x, y),
        on_line(l, u, v),
    ensures
        magnitude(l[1].x - l[0].x) >= magnitude(l[1].y - l[0].y) && x == u ==> y == v,
        magnitude(l[1].x - l[0].x) < magnitude(l[1].y - l[0].y) && y == v ==> x == u,
{
    let dx = magnitude(l[1].x - l[0].x);
    let dy = magnitude(l[1].y - l[0].y);
    if dx >= dy && x == u && dx > 0 {
        let (a, b) = if l[0].x <= l[1].x {
            (l[0], l[1])
        } else {
            (l[1], l[0])
        };
        let k = if b.y >= a.y {
            y - a.y
        } else {
            a.y - y
        };
        let j = if b.y >= a.y {
            v - a.y
        } else {
            a.y - v
        };
        lemma_error_unique(dx, dy, x - a.x, k, j);
    }
    if dx < dy && y == v {
        let (a, b) = if l[0].y <= l[1].y {
            (l[0], l[1])
        } else {
            (l[1], l[0])
        };
        let k = if b.x >= a.x {
            x - a.x
        } else {
            a.x - x
        };
        let j = if b.x >= a.x {
            u - a.x
        } else {
            a.x - u
        };
        lemma_error_unique(dy, dx, y - a.y, k, j);
    }
}

/// The first of two coordinates, or the second where they are swapped. A line
/// that runs farther along `y` is drawn with the coordinates swapped.
pub open spec fn pick(swapped: bool, a: int, b: int) -> int {
    if swapped {
        b
    } else {
        a
    }
}

/// `i` steps in the direction `sv`: up, down or not at all.
pub open spec fn stepped(sv: int, i: int) -> int {
    if sv > 0 {
        i
    } else if sv < 0 {
        -i
    } else {
        0
    }
}

/// Colors the pixels `(u0 + i, v0 + stepped(sv, i))` for `i` from zero to `n`.
fn draw_steps<T: Copy>(buf: &mut Buffer<T>, c: T, u0: i32, v0: i32, sv: i32, n: i32, steep: bool)
    requires
        old(buf).wf(),
        0 <= n,
        u0 + n <= i32::MAX,
        i32::MIN <= v0 + stepped(sv as int, n as int) <= i32::MAX,
        old(buf).holds(pick(steep, u0 as int, v0 as int), pick(steep, v0 as int, u0 as int)),
        old(buf).holds(
            pick(steep, u0 + n, v0 + stepped(sv as int, n as int)),
            pick(steep, v0 + stepped(sv as int, n as int), u0 + n),
        ),
    ensures
        final(buf).wf(),
        final(buf).size == old(buf).size,
        forall|x: int, y: int|
            old(buf).holds(x, y) ==> #[trigger] final(buf).at(x, y) == (if u0 <= pick(steep, x, y)
                <= u0 + n && pick(steep, y, x) - v0 == stepped(sv as int, pick(steep, x, y) - u0) {
                c
            } else {
                old(buf).at(x, y)
            }),
{
    let mut i: i64 = 0;
    while i <= n as i64
        invariant
            0 <= i <= n + 1,
            u0 + n <= i32::MAX,
            i32::MIN <= v0 + stepped(sv as int, n as int) <= i32::MAX,
            buf.wf(),
            buf.size == old(buf).size,
            old(buf).holds(pick(steep, u0 as int, v0 as int), pick(steep, v0 as int, u0 as int)),
            old(buf).holds(
                pick(steep, u0 + n, v0 + stepped(sv as int, n as int)),
                pick(steep, v0 + stepped(sv as int, n as int), u0 + n),
            ),
            forall|x: int, y: int|
                old(buf).holds(x, y) ==> #[trigger] buf.at(x, y) == (if u0 <= pick(steep, x, y) < u0
                    + i && pick(steep, y, x) - v0 == stepped(sv as int, pick(steep, x, y) - u0) {
                    c
                } else {
                    old(buf).at(x, y)
                }),
        decreases n + 1 - i,
    {
        let u: i64 = u0 as i64 + i;
        let v: i64 = if sv > 0 {
            v0 as i64 + i
        } else if sv < 0 {
            v0 as i64 - i
        } else {
            v0 as i64
        };
        if steep {
            buf.set(v as usize, u as usize, c);
        } else {
            buf.set(u as usize, v as usize, c);
        }
        i += 1;
    }
}

/// Colors the pixels of the line from `(u0, v0)` to `(u1, v1)`, which runs
/// farther along `u` than along `v`. One pixel is colored for each `u`; an
/// error term, kept in whole numbers, says when `v` takes its next step.
fn draw_driven<T: Copy>(
    buf: &mut Buffer<T>,
    c: T,
    u0: i32,
    v0: i32,
    u1: i32,
    v1: i32,
    steep: bool,
)
    requires
        old(buf).wf(),
        u0 < u1,
        magnitude(v1 - v0) <= u1 - u0,
        old(buf).holds(pick(steep, u0 as int, v0 as int), pick(steep, v0 as int, u0 as int)),
        old(buf).holds(pick(steep, u1 as int, v1 as int), pick(steep, v1 as int, u1 as int)),
    ensures
        final(buf).wf(),
        final(buf).size == old(buf).size,
        forall|x: int, y: int|
            old(buf).holds(x, y) ==> #[trigger] final(buf).at(x, y) == (if steps_on(
                u0 as int,
                v0 as int,
                u1 as int,
                v1 as int,
                pick(steep, x, y),
                pick(steep, y, x),
            ) {
                c
            } else {
                old(buf).at(x, y)
            }),
{
    let du: i64 = u1 as i64 - u0 as i64;
    let rising = v1 >= v0;
    let dv: i64 = if rising {
        v1 as i64 - v0 as i64
    } else {
        v0 as i64 - v1 as i64
    };
    let mut d: i64 = 2 * dv - du;
    let mut i: i64 = 0;
    let mut k: i64 = 0;
    proof {
        lemma_error_steps(du as int, dv as int, 0, 0);
    }
    while i <= du
        invariant
            0 <= i <= du + 1,
            0 < du == u1 - u0,
            0 <= dv <= du,
            dv == magnitude(v1 - v0),
            rising == (v1 >= v0),
            buf.wf(),
            buf.size == old(buf).size,
            old(buf).holds(pick(steep, u0 as int, v0 as int), pick(steep, v0 as int, u0 as int)),
            old(buf).holds(pick(steep, u1 as int, v1 as int), pick(steep, v1 as int, u1 as int)),
            d == error_at(du as int, dv as int, i as int, k as int) + 2 * dv - du,
            -du < error_at(du as int, dv as int, i as int, k as int) <= du,
            i <= du ==> 0 <= k <= dv,
            forall|x: int, y: int|
                old(buf).holds(x, y) ==> #[trigger] buf.at(x, y) == (if pick(steep, x, y) < u0
                    + i && steps_on(
                    u0 as int,
                    v0 as int,
                    u1 as int,
                    v1 as int,
                    pick(steep, x, y),
                    pick(steep, y, x),
                ) {
                    c
                } else {
                    old(buf).at(x, y)
                }),
        decreases du + 1 - i,
    {
        let u: i64 = u0 as i64 + i;
        let v: i64 = if rising {
            v0 as i64 + k
        } else {
            v0 as i64 - k
        };
        let ghost before = *buf;
        if steep {
            buf.set(v as usize, u as usize, c);
        } else {
            buf.set(u as usize, v as usize, c);
        }
        proof {
            assert forall|x: int, y: int| old(buf).holds(x, y) implies #[trigger] buf.at(x, y) == (
            if pick(steep, x, y) < u0 + i + 1 && steps_on(
                u0 as int,
                v0 as int,
                u1 as int,
                v1 as int,
                pick(steep, x, y),
                pick(steep, y, x),
            ) {
                c
            } else {
                old(buf).at(x, y)
            }) by {
                let xu = pick(steep, x, y);
                let xv = pick(steep, y, x);
                let j = if rising {
                    xv - v0
                } else {
                    v0 - xv
                };
                if xu == u {
                    lemma_error_unique(du as int, dv as int, i as int, k as int, j);
                }
            }
            lemma_error_steps(du as int, dv as int, i as int, k as int);
            lemma_error_steps(du as int, dv as int, i as int + 1, k as int);
        }
        if d > 0 {
            k += 1;
            d -= 2 * du;
        }
        d += 2 * dv;
        i += 1;
        proof {
            if i <= du {
                lemma_error_unique(du as int, dv as int, i as int, k as int, k as int);
            }
        }
    }
}

/// Colors with `c` the pixels of the line from `l[0]` to `l[1]`, both ends
/// included. A line along one axis is drawn as one run, a diagonal by stepping
/// both coordinates together, and any other line with one pixel for each step
/// along the axis on which it runs farther, chosen by an error term in whole
/// numbers. No other pixel changes.
pub fn draw_line<T: Copy>(buf: &mut Buffer<T>, c: T, l: Line2<i32>)
    requires
        old(buf).wf(),
        old(buf).holds(l[0].x as int, l[0].y as int),
        old(buf).holds(l[1].x as int, l[1].y as int),
    ensures
        final(buf).wf(),
        final(buf).size == old(buf).size,
        forall|x: int, y: int|
            old(buf).holds(x, y) ==> #[trigger] final(buf).at(x, y) == (if on_line(l, x, y) {
                c
            } else {
                old(buf).at(x, y)
            }),
{
    let dx: i64 = l[1].x as i64 - l[0].x as i64;
    let dy: i64 = l[1].y as i64 - l[0].y as i64;
    let run: i64 = if dx >= 0 {
        dx
    } else {
        -dx
    };
    let rise: i64 = if dy >= 0 {
        dy
    } else {
        -dy
    };
    if dx == 0 && dy != 0 {
        let (a, b) = if l[0].y <= l[1].y {
            (l[0], l[1])
        } else {
            (l[1], l[0])
        };
        draw_steps(buf, c, a.y, a.x, 0, b.y - a.y, true);
        proof {
            assert forall|x: int, y: int| old(buf).holds(x, y) implies #[trigger] buf.at(x, y) == (
            if on_line(l, x, y) {
                c
            } else {
                old(buf).at(x, y)
            }) by {
                lemma_steps_flat(a.y as int, a.x as int, b.y as int, y, x);
            }
        }
    } else if dy == 0 {
        let (x0, x1) = if l[0].x <= l[1].x {
            (l[0].x, l[1].x)
        } else {
            (l[1].x, l[0].x)
        };
        buf.fill_run(l[0].y as usize, x0 as usize, x1 as usize, c);
        proof {
            assert forall|x: int, y: int| old(buf).holds(x, y) implies #[trigger] buf.at(x, y) == (
            if on_line(l, x, y) {
                c
            } else {
                old(buf).at(x, y)
            }) by {
                lemma_steps_flat(x0 as int, l[0].y as int, x1 as int, x, y);
            }
        }
    } else if run == rise {
        let (a, b) = if l[0].x <= l[1].x {
            (l[0], l[1])
        } else {
            (l[1], l[0])
        };
        let sv: i32 = if b.y >= a.y {
            1
        } else {
            -1
        };
        draw_steps(buf, c, a.x, a.y, sv, b.x - a.x, false);
        proof {
            assert forall|x: int, y: int| old(buf).holds(x, y) implies #[trigger] buf.at(x, y) == (
            if on_line(l, x, y) {
                c
            } else {
                old(buf).at(x, y)
            }) by {
                lemma_steps_diagonal(a.x as int, a.y as int, b.x as int, b.y as int, x, y);
            }
        }
    } else if run > rise {
        if l[0].x <= l[1].x {
            draw_driven(buf, c, l[0].x, l[0].y, l[1].x, l[1].y, false);
        } else {
            draw_driven(buf, c, l[1].x, l[1].y, l[0].x, l[0].y, false);
        }
    } else {
        if l[0].y <= l[1].y {
            draw_driven(buf, c, l[0].y, l[0].x, l[1].y, l[1].x, true);
        } else {
            draw_driven(buf, c, l[1].y, l[1].x, l[0].y, l[0].x, true);
        }
    }
}

/// Colors with `c` every pixel of the rectangle with opposite corners
/// `rect[0]` and `rect[1]`, sides included, row by row, each row as one run. No
/// other pixel changes.
pub fn draw_rect<T: Copy>(buf: &mut Buffer<T>, c: T, rect: Line2<i32>)
    requires
        old(buf).wf(),
        old(buf).holds(rect[0].x as int, rect[0].y as int),
        old(buf).holds(rect[1].x as int, rect[1].y as int),
    ensures
        final(buf).wf(),
        final(buf).size == old(buf).size,
        forall|x: int, y: int|
            old(buf).holds(x, y) ==> #[trigger] final(buf).at(x, y) == (if in_rect_xy(rect, x, y) {
                c
            } else {
                old(buf).at(x, y)
            }),
{
    let (x0, x1) = if rect[0].x <= rect[1].x {
        (rect[0].x, rect[1].x)
    } else {
        (rect[1].x, rect[0].x)
    };
    let (y0, y1) = if rect[0].y <= rect[1].y {
        (rect[0].y, rect[1].y)
    } else {
        (rect[1].y, rect[0].y)
    };
    let mut y: i64 = y0 as i64;
    while y <= y1 as i64
        invariant
            y0 <= y <= y1 + 1,
            0 <= x0 <= x1 < buf.size[0],
            0 <= y0 <= y1 < buf.size[1],
            x0 == low(rect[0].x as int, rect[1].x as int),
            x1 == high(rect[0].x as int, rect[1].x as int),
            y0 == low(rect[0].y as int, rect[1].y as int),
            y1 == high(rect[0].y as int, rect[1].y as int),
            buf.wf(),
            buf.size == old(buf).size,
            forall|u: int, v: int|
                old(buf).holds(u, v) ==> #[trigger] buf.at(u, v) == (if in_rect_xy(rect, u, v) && v
                    < y {
                    c
                } else {
                    old(buf).at(u, v)
                }),
        decreases y1 + 1 - y,
    {
        buf.fill_run(y as usize, x0 as usize, x1 as usize, c);
        y += 1;
    }
}

} // verus!
