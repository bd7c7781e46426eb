use softraster::plane::polygon::line_rect_intersection;
use softraster::plane::{
    aabb_collision, inf_line_intersection, lb_clip, line_intersection, rect_to_edges,
    rect_to_vertices, Line2, Point2,
};
use softraster::Either;

fn p(x: i32, y: i32) -> Point2<i32> {
    Point2::new(x, y)
}

fn line(x0: i32, y0: i32, x1: i32, y1: i32) -> Line2<i32> {
    [p(x0, y0), p(x1, y1)]
}

fn inside(rect: &Line2<i32>, q: &Point2<i32>) -> bool {
    let (x0, x1) = (rect[0].x.min(rect[1].x), rect[0].x.max(rect[1].x));
    let (y0, y1) = (rect[0].y.min(rect[1].y), rect[0].y.max(rect[1].y));
    x0 <= q.x && q.x <= x1 && y0 <= q.y && q.y <= y1
}

#[test]
fn segment_inside_is_returned_unchanged() {
    let rect = line(0, 0, 4, 4);
    for l in [line(1, 1, 3, 2), line(0, 0, 4, 4), line(4, 0, 0, 4), line(2, 2, 2, 2)] {
        assert_eq!(lb_clip(&l, &rect), Some((l, [false, false])));
    }
}

#[test]
fn segment_that_misses_is_clipped_away() {
    let rect = line(0, 0, 4, 4);
    assert_eq!(lb_clip(&line(5, 5, 7, 9), &rect), None);
    assert_eq!(lb_clip(&line(-3, 2, 2, 7), &rect), None);
    assert_eq!(lb_clip(&line(-1, 0, -1, 4), &rect), None);
    assert_eq!(lb_clip(&line(0, 5, 4, 5), &rect), None);
    assert_eq!(lb_clip(&line(6, 6, 6, 6), &rect), None);
}

#[test]
fn segment_through_the_rectangle_is_cut_at_both_ends() {
    let rect = line(0, 0, 4, 4);
    assert_eq!(lb_clip(&line(-2, 2, 6, 2), &rect), Some((line(0, 2, 4, 2), [true, true])));
    assert_eq!(lb_clip(&line(6, 2, -2, 2), &rect), Some((line(4, 2, 0, 2), [true, true])));
}

#[test]
fn cut_points_are_rounded_down() {
    let rect = line(0, 0, 4, 4);
    assert_eq!(lb_clip(&line(-1, 0, 5, 4), &rect), Some((line(0, 0, 4, 3), [true, true])));
}

#[test]
fn segment_with_one_end_inside_keeps_that_end() {
    let rect = line(0, 0, 4, 4);
    assert_eq!(lb_clip(&line(2, 2, 6, 2), &rect), Some((line(2, 2, 4, 2), [false, true])));
    assert_eq!(lb_clip(&line(2, -3, 2, 3), &rect), Some((line(2, 0, 2, 3), [true, false])));
}

#[test]
fn segment_that_touches_the_border_with_one_end() {
    let rect = line(0, 0, 4, 4);
    assert_eq!(lb_clip(&line(0, 2, -3, 2), &rect), Some((line(0, 2, 0, 2), [false, true])));
}

#[test]
fn rectangle_corners_may_come_in_either_order() {
    let l = line(-1, 0, 5, 4);
    let want = Some((line(0, 0, 4, 3), [true, true]));
    assert_eq!(lb_clip(&l, &line(0, 0, 4, 4)), want);
    assert_eq!(lb_clip(&l, &line(4, 4, 0, 0)), want);
    assert_eq!(lb_clip(&l, &line(0, 4, 4, 0)), want);
}

#[test]
fn clipped_ends_lie_in_the_rectangle() {
    let rect = line(-3, 2, 5, -4);
    for x0 in -8..8 {
        for y0 in [-7, -4, 0, 2, 6] {
            for (x1, y1) in [(7, 3), (-6, -5), (0, 0), (5, -4), (-8, 9)] {
                let l = line(x0, y0, x1, y1);
                if let Some((seg, moved)) = lb_clip(&l, &rect) {
                    assert!(inside(&rect, &seg[0]) && inside(&rect, &seg[1]), "{:?}", l);
                    assert_eq!(moved[0], !inside(&rect, &l[0]), "{:?}", l);
                    assert_eq!(moved[1], !inside(&rect, &l[1]), "{:?}", l);
                } else {
                    assert!(!inside(&rect, &l[0]) && !inside(&rect, &l[1]), "{:?}", l);
                }
            }
        }
    }
}

#[test]
fn segments_cross_in_one_point() {
    assert_eq!(
        line_intersection(&line(0, 0, 4, 4), &line(0, 4, 4, 0)),
        Some(Either::A(p(2, 2)))
    );
    assert_eq!(
        line_intersection(&line(0, 0, 4, 0), &line(4, 0, 4, 4)),
        Some(Either::A(p(4, 0)))
    );
}

#[test]
fn crossing_is_rounded_down_along_the_first_segment() {
    assert_eq!(
        line_intersection(&line(0, 0, 3, 1), &line(2, -5, 2, 5)),
        Some(Either::A(p(2, 0)))
    );
    assert_eq!(
        inf_line_intersection(&line(0, 0, -3, -1), &line(-2, 0, -2, 1)),
        Some(Either::A(p(-2, -1)))
    );
}

#[test]
fn parallel_segments_do_not_cross() {
    assert_eq!(line_intersection(&line(0, 0, 4, 0), &line(0, 1, 4, 1)), None);
    assert_eq!(line_intersection(&line(0, 0, 4, 0), &line(2, 0, 6, 0)), None);
    assert_eq!(inf_line_intersection(&line(0, 0, 4, 4), &line(1, 0, 2, 1)), None);
    assert_eq!(inf_line_intersection(&line(0, 0, 4, 4), &line(3, 3, 3, 3)), None);
}

#[test]
fn segments_that_do_not_reach_each_other() {
    assert_eq!(line_intersection(&line(0, 0, 1, 1), &line(0, 4, 4, 0)), None);
    assert_eq!(line_intersection(&line(0, 4, 4, 0), &line(0, 0, 1, 1)), None);
}

#[test]
fn infinite_line_is_met_beyond_its_two_points() {
    assert_eq!(
        inf_line_intersection(&line(0, 4, 4, 0), &line(0, 0, 1, 1)),
        Some(Either::A(p(2, 2)))
    );
    assert_eq!(inf_line_intersection(&line(0, 0, 1, 1), &line(0, 4, 4, 0)), None);
}

#[test]
fn rectangle_corners_and_sides() {
    let rect = line(1, 2, 5, 7);
    assert_eq!(rect_to_vertices(&rect), [p(1, 2), p(5, 2), p(5, 7), p(1, 7)]);
    assert_eq!(
        rect_to_edges(&rect),
        [line(1, 2, 5, 2), line(5, 2, 5, 7), line(5, 7, 1, 7), line(1, 7, 1, 2)]
    );
    let real = [Point2::new(0.5f64, 1.5), Point2::new(2.5, 3.5)];
    assert_eq!(rect_to_vertices(&real)[1], Point2::new(2.5, 1.5));
    assert_eq!(rect_to_edges(&real)[3], [Point2::new(0.5, 3.5), Point2::new(0.5, 1.5)]);
}

#[test]
fn overlapping_rectangles_cross_in_two_points() {
    assert_eq!(
        aabb_collision(&line(0, 0, 4, 4), &line(2, 2, 6, 6)),
        vec![Either::A(p(4, 2)), Either::A(p(2, 4))]
    );
    assert_eq!(aabb_collision(&line(0, 0, 1, 1), &line(3, 3, 6, 6)), vec![]);
}

#[test]
fn line_crosses_two_sides_of_a_rectangle() {
    assert_eq!(
        line_rect_intersection(&line(-1, 2, 5, 2), &line(0, 0, 4, 4)),
        vec![Either::A(p(0, 2)), Either::A(p(4, 2))]
    );
    assert_eq!(line_rect_intersection(&line(1, 1, 3, 3), &line(0, 0, 4, 4)), vec![]);
}
