use softraster::buffer::Buffer;
use softraster::plane::polygon::{ClipError, Polygon};
use softraster::plane::{Line2, Point2};
use softraster::Either;

fn p(x: i32, y: i32) -> Point2<i32> {
    Point2::new(x, y)
}

fn poly(points: &[(i32, i32)]) -> Polygon<i32> {
    Polygon { points: points.iter().map(|&(x, y)| p(x, y)).collect() }
}

fn rect(x0: i32, y0: i32, x1: i32, y1: i32) -> Line2<i32> {
    [p(x0, y0), p(x1, y1)]
}

fn clipped(points: &[(i32, i32)], bound: Line2<i32>) -> Result<Option<Vec<(i32, i32)>>, ClipError> {
    let res = poly(points).clip(&bound)?;
    Ok(res.map(|q| q.points.iter().map(|v| (v.x, v.y)).collect()))
}

fn lit(buf: &Buffer<u8>) -> Vec<(usize, usize)> {
    let mut out = Vec::new();
    for y in 0..buf.size[1] {
        for x in 0..buf.size[0] {
            if buf.get(x, y) != 0 {
                out.push((x, y));
            }
        }
    }
    out
}

#[test]
fn edges_walk_the_polygon_and_close_it() {
    let tri = poly(&[(0, 0), (4, 0), (0, 4)]);
    let mut it = tri.edges();
    assert_eq!(it.next(), Some([p(0, 0), p(4, 0)]));
    assert_eq!(it.next(), Some([p(4, 0), p(0, 4)]));
    assert_eq!(it.next(), Some([p(0, 4), p(0, 0)]));
    assert_eq!(it.next(), None);
    assert_eq!(it.next(), None);
    assert_eq!(it.a, 3);
}

#[test]
fn edges_of_an_empty_polygon() {
    let none: Polygon<u8> = Polygon { points: vec![] };
    assert_eq!(none.edges().next(), None);
}

#[test]
fn square_around_an_offset() {
    let sq = Polygon::square(2, 1, 1);
    assert_eq!(sq.points, vec![p(-1, -1), p(3, -1), p(3, 3), p(-1, 3)]);
    assert_eq!(sq.min_y(), -1);
    assert_eq!(sq.max_y(), 3);
}

#[test]
fn least_and_greatest_y() {
    let q = poly(&[(0, 5), (9, -2), (3, 7), (1, 7), (2, -2)]);
    assert_eq!(q.min_y(), -2);
    assert_eq!(q.max_y(), 7);
    assert_eq!(poly(&[(4, 4)]).min_y(), 4);
    assert_eq!(poly(&[(4, 4)]).max_y(), 4);
}

#[test]
fn polygon_crossings_with_a_segment() {
    let sq = Polygon::square(2, 0, 0);
    assert_eq!(
        sq.intersection_line([p(-5, 0), p(5, 0)]),
        vec![Either::A(p(2, 0)), Either::A(p(-2, 0))]
    );
    assert_eq!(sq.intersection_line([p(-1, 0), p(1, 0)]), vec![]);
    assert_eq!(sq.intersection_inf_line([p(-1, 0), p(1, 0)]), vec![p(2, 0), p(-2, 0)]);
}

#[test]
fn clip_cuts_a_square_to_the_rectangle() {
    assert_eq!(
        clipped(&[(-3, -3), (3, -3), (3, 3), (-3, 3)], rect(0, 0, 5, 5)),
        Ok(Some(vec![(0, 0), (3, 0), (3, 3), (0, 3)]))
    );
}

#[test]
fn clip_leaves_a_polygon_inside_as_it_is() {
    let pts = [(1, 1), (3, 1), (4, 4), (2, 5)];
    assert_eq!(clipped(&pts, rect(0, 0, 5, 5)), Ok(Some(pts.to_vec())));
    assert_eq!(clipped(&pts, rect(1, 1, 4, 5)), Ok(Some(pts.to_vec())));
}

#[test]
fn clip_of_a_polygon_outside_is_empty() {
    assert_eq!(clipped(&[(6, 6), (9, 6), (9, 9)], rect(0, 0, 5, 5)), Ok(None));
    assert_eq!(clipped(&[(-6, 1), (-2, 1), (-2, 3)], rect(0, 0, 5, 5)), Ok(None));
}

#[test]
fn clip_against_corners_in_the_wrong_order_is_empty() {
    assert_eq!(clipped(&[(1, 1), (3, 1), (2, 3)], rect(5, 5, 0, 0)), Ok(None));
}

#[test]
fn clipped_points_lie_in_the_rectangle() {
    let bound = rect(0, 0, 2, 5);
    let got = clipped(&[(0, 0), (3, 1), (0, 1)], bound).unwrap().unwrap();
    assert_eq!(got, vec![(0, 0), (2, 0), (2, 1), (0, 1)]);
    let bound = rect(-2, -1, 6, 3);
    for pts in [
        vec![(-7, -5), (9, 0), (1, 8)],
        vec![(0, 0), (11, 1), (3, 9), (-4, 4)],
        vec![(-3, 2), (7, -6), (8, 7)],
    ] {
        if let Some(got) = clipped(&pts, bound).unwrap() {
            assert!(got.len() >= 3);
            for (x, y) in got {
                assert!(-2 <= x && x <= 6 && -1 <= y && y <= 3, "{:?}", (x, y));
            }
        }
    }
}

#[test]
fn clip_at_a_side_without_length_fails() {
    assert_eq!(
        clipped(&[(-3, -3), (3, -3), (3, 3), (-3, 3)], rect(0, 2, 4, 2)),
        Err(ClipError::Parallel)
    );
    assert_eq!(
        clipped(&[(1, -3), (3, -3), (3, 3), (1, 3)], rect(2, 0, 2, 2)),
        Err(ClipError::Parallel)
    );
}

#[test]
fn clip_at_a_rectangle_without_length_that_cuts_no_edge() {
    assert_eq!(clipped(&[(5, 5), (9, 5), (9, 9)], rect(0, 2, 4, 2)), Ok(None));
}

#[test]
fn triangle_fill_row_two() {
    let mut buf = Buffer::new(8, 8, 0u8).unwrap();
    poly(&[(0, 0), (4, 0), (0, 4)]).draw(&mut buf, 1);
    let row: Vec<usize> = lit(&buf).into_iter().filter(|q| q.1 == 2).map(|q| q.0).collect();
    assert_eq!(row, vec![0, 1, 2]);
}

#[test]
fn triangle_fill_all_rows() {
    let mut buf = Buffer::new(8, 8, 0u8).unwrap();
    poly(&[(0, 0), (4, 0), (0, 4)]).draw(&mut buf, 1);
    let mut want = Vec::new();
    for y in 0..=4 {
        for x in 0..=(4 - y) {
            want.push((x, y));
        }
    }
    assert_eq!(lit(&buf), want);
}

#[test]
fn row_through_a_corner_is_left_out() {
    let mut buf = Buffer::new(8, 8, 0u8).unwrap();
    poly(&[(0, 0), (4, 2), (0, 4)]).draw(&mut buf, 1);
    assert_eq!(
        lit(&buf),
        vec![(0, 0), (0, 1), (1, 1), (2, 1), (0, 3), (1, 3), (2, 3), (0, 4)]
    );
}

#[test]
fn fill_of_a_single_point_draws_nothing() {
    let mut buf = Buffer::new(4, 4, 0u8).unwrap();
    poly(&[(2, 2)]).draw(&mut buf, 1);
    assert_eq!(lit(&buf), vec![]);
}

#[test]
fn fill_of_a_square_covers_it() {
    let mut buf = Buffer::new(6, 6, 0u8).unwrap();
    poly(&[(1, 1), (4, 1), (4, 3), (1, 3)]).draw(&mut buf, 1);
    let mut want = Vec::new();
    for y in 1..=3 {
        for x in 1..=4 {
            want.push((x, y));
        }
    }
    assert_eq!(lit(&buf), want);
}
