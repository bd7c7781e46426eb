use softraster::buffer::Buffer;
use softraster::plane::{draw_line, draw_rect, Line2, Point2};

fn lit(buf: &Buffer<u8>) -> Vec<(i32, i32)> {
    let mut out = Vec::new();
    for y in 0..buf.size[1] {
        for x in 0..buf.size[0] {
            if buf.get(x, y) != 0 {
                out.push((x as i32, y as i32));
            }
        }
    }
    out
}

fn line(x0: i32, y0: i32, x1: i32, y1: i32) -> Line2<i32> {
    [Point2::new(x0, y0), Point2::new(x1, y1)]
}

fn drawn(l: Line2<i32>) -> Vec<(i32, i32)> {
    let mut buf = Buffer::new(8, 8, 0u8).unwrap();
    draw_line(&mut buf, 1, l);
    lit(&buf)
}

/// The textbook algorithm, driven along the axis of the larger step from the
/// end with the lesser coordinate on it.
fn reference(l: Line2<i32>) -> Vec<(i32, i32)> {
    let (dx, dy) = (l[1].x - l[0].x, l[1].y - l[0].y);
    let steep = dy.abs() > dx.abs();
    let (a, b) = if steep {
        ((l[0].y, l[0].x), (l[1].y, l[1].x))
    } else {
        ((l[0].x, l[0].y), (l[1].x, l[1].y))
    };
    let (a, b) = if a.0 <= b.0 { (a, b) } else { (b, a) };
    let du = b.0 - a.0;
    let dv = (b.1 - a.1).abs();
    let sv = if b.1 >= a.1 { 1 } else { -1 };
    let mut d = 2 * dv - du;
    let mut v = a.1;
    let mut out = Vec::new();
    for u in a.0..=b.0 {
        out.push(if steep { (v, u) } else { (u, v) });
        if d > 0 {
            v += sv;
            d -= 2 * du;
        }
        d += 2 * dv;
    }
    out.sort_by_key(|p| (p.1, p.0));
    out
}

#[test]
fn bresenham_shallow_line_matches_reference() {
    assert_eq!(drawn(line(0, 0, 4, 2)), vec![(0, 0), (1, 0), (2, 1), (3, 1), (4, 2)]);
}

#[test]
fn vertical_line_covers_both_ends() {
    assert_eq!(drawn(line(2, 1, 2, 5)), vec![(2, 1), (2, 2), (2, 3), (2, 4), (2, 5)]);
    assert_eq!(drawn(line(2, 5, 2, 1)), vec![(2, 1), (2, 2), (2, 3), (2, 4), (2, 5)]);
}

#[test]
fn horizontal_line_is_one_run() {
    assert_eq!(drawn(line(6, 3, 2, 3)), vec![(2, 3), (3, 3), (4, 3), (5, 3), (6, 3)]);
}

#[test]
fn single_point_line_colors_one_pixel() {
    assert_eq!(drawn(line(3, 4, 3, 4)), vec![(3, 4)]);
}

#[test]
fn diagonal_steps_both_coordinates() {
    assert_eq!(drawn(line(1, 1, 4, 4)), vec![(1, 1), (2, 2), (3, 3), (4, 4)]);
    assert_eq!(drawn(line(4, 1, 1, 4)), vec![(4, 1), (3, 2), (2, 3), (1, 4)]);
}

#[test]
fn steep_line_is_driven_by_y() {
    assert_eq!(drawn(line(0, 0, 2, 4)), vec![(0, 0), (0, 1), (1, 2), (1, 3), (2, 4)]);
}

#[test]
fn falling_line_breaks_ties_toward_its_start() {
    assert_eq!(drawn(line(0, 2, 4, 0)), vec![(4, 0), (2, 1), (3, 1), (0, 2), (1, 2)]);
}

#[test]
fn line_is_the_same_from_either_end() {
    for &(x0, y0, x1, y1) in &[(0, 0, 7, 3), (1, 6, 5, 0), (7, 7, 0, 2), (3, 0, 4, 7)] {
        assert_eq!(drawn(line(x0, y0, x1, y1)), drawn(line(x1, y1, x0, y0)));
    }
}

#[test]
fn every_line_of_a_small_grid_matches_the_reference() {
    for x0 in 0..6 {
        for y0 in 0..6 {
            for x1 in 0..6 {
                for y1 in 0..6 {
                    let l = line(x0, y0, x1, y1);
                    assert_eq!(drawn(l), reference(l), "line {:?}", (x0, y0, x1, y1));
                }
            }
        }
    }
}

#[test]
fn line_leaves_other_pixels_alone() {
    let mut buf = Buffer::new(4, 4, 7u8).unwrap();
    draw_line(&mut buf, 9, line(0, 0, 3, 1));
    let nines: Vec<(usize, usize)> = (0..4)
        .flat_map(|y| (0..4).map(move |x| (x, y)))
        .filter(|&(x, y)| buf.get(x, y) == 9)
        .collect();
    assert_eq!(nines, vec![(0, 0), (1, 0), (2, 1), (3, 1)]);
    let sevens = (0..4).flat_map(|y| (0..4).map(move |x| (x, y))).filter(|&(x, y)| buf.get(x, y) == 7);
    assert_eq!(sevens.count(), 12);
}

#[test]
fn rect_fill_takes_corners_in_either_order() {
    let mut buf = Buffer::new(4, 4, 0u8).unwrap();
    draw_rect(&mut buf, 1, line(2, 3, 1, 1));
    assert_eq!(lit(&buf), vec![(1, 1), (2, 1), (1, 2), (2, 2), (1, 3), (2, 3)]);
    let mut other = Buffer::new(4, 4, 0u8).unwrap();
    draw_rect(&mut other, 1, line(1, 3, 2, 1));
    assert_eq!(lit(&other), lit(&buf));
}

#[test]
fn rect_of_one_pixel() {
    let mut buf = Buffer::new(3, 3, 0u8).unwrap();
    draw_rect(&mut buf, 1, line(2, 0, 2, 0));
    assert_eq!(lit(&buf), vec![(2, 0)]);
}
