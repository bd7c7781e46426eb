use softraster::buffer::{Buffer, Color};
use softraster::plane::polygon::ClipError;
use softraster::plane::Point2;
use softraster::volume::matrix::Matrix4;
use softraster::volume::pipeline::{paint, project, DrawError};
use softraster::volume::polyhedron::{corner_index, Polyhedron};
use softraster::volume::{draw_line, ndc_to_screen};

const CLEAR: Color = Color { r: 0, g: 0, b: 0, a: 0 };
const BLUE: Color = Color { r: 0, g: 0, b: 255, a: 255 };

fn lit(buf: &Buffer<Color>) -> Vec<(usize, usize, Color)> {
    let mut out = Vec::new();
    for y in 0..buf.size[1] {
        for x in 0..buf.size[0] {
            if buf.get(x, y) != CLEAR {
                out.push((x, y, buf.get(x, y)));
            }
        }
    }
    out
}

fn quarter() -> Matrix4 {
    Matrix4::scale([1, 1, 1, 4])
}

fn flat_triangle() -> Polyhedron<[i32; 3]> {
    Polyhedron { points: vec![[-2, -2, 0], [2, -2, 0], [-2, 2, 0]], faces: vec![[0, 1, 2]] }
}

#[test]
fn generators_have_the_points_and_faces_of_their_solids() {
    let cube = Polyhedron::cube();
    assert_eq!(cube.points.len(), 8);
    assert_eq!(cube.faces.len(), 12);
    assert_eq!(cube.points[0], [1, -1, -1]);
    assert_eq!(cube.points[7], [-1, 1, 1]);
    assert_eq!(cube.faces[4], [5, 4, 1]);
    assert_eq!(cube.faces[11], [3, 6, 5]);
    let oct = Polyhedron::octohedron();
    assert_eq!(
        oct.points,
        vec![[-1, 0, -1], [1, 0, -1], [1, 0, 1], [-1, 0, 1], [0, 1, 0], [0, -1, 0]]
    );
    assert_eq!(oct.faces.len(), 8);
    assert_eq!(oct.faces[0], [4, 1, 0]);
    assert_eq!(oct.faces[7], [5, 3, 0]);
    let tri = Polyhedron::triangle();
    assert_eq!(tri.points, vec![[1, -1, -1], [-1, -1, -1], [0, -1, 1]]);
    assert_eq!(tri.faces, vec![[0, 1, 2]]);
    let quad = Polyhedron::quad();
    assert_eq!(quad.points, vec![[1, -1, -1], [-1, -1, -1], [-1, -1, 1], [1, -1, 1]]);
    assert_eq!(quad.faces, vec![[0, 1, 2], [2, 3, 0]]);
    let ramp = Polyhedron::ramp_tri();
    assert_eq!(ramp.points, vec![[1, -1, -1], [-1, -1, -1], [-1, 1, 1]]);
    assert_eq!(ramp.faces, vec![[0, 1, 2]]);
    let ramp = Polyhedron::ramp_quad();
    assert_eq!(ramp.points, vec![[1, -1, -1], [-1, -1, -1], [-1, 1, 1], [1, 1, 1]]);
    assert_eq!(ramp.faces, vec![[0, 1, 2], [2, 3, 0]]);
}

#[test]
fn generators_name_only_points_that_exist() {
    for solid in [
        Polyhedron::cube(),
        Polyhedron::octohedron(),
        Polyhedron::triangle(),
        Polyhedron::quad(),
        Polyhedron::ramp_tri(),
        Polyhedron::ramp_quad(),
    ] {
        assert!(solid.check());
    }
    let mut broken = Polyhedron::quad();
    broken.faces_mut()[1][2] = 4;
    assert!(!broken.check());
}

#[test]
fn every_side_of_the_cube_faces_outward_or_inward_as_listed() {
    let cube = Polyhedron::cube();
    let mut axes = Vec::new();
    for f in cube.faces() {
        let [a, b, c] = [cube.points[f[0] as usize], cube.points[f[1] as usize], cube.points[f[2] as usize]];
        let u = [b[0] - a[0], b[1] - a[1], b[2] - a[2]];
        let v = [c[0] - a[0], c[1] - a[1], c[2] - a[2]];
        let n = [u[1] * v[2] - u[2] * v[1], u[2] * v[0] - u[0] * v[2], u[0] * v[1] - u[1] * v[0]];
        assert_eq!(n.iter().filter(|k| **k != 0).count(), 1);
        axes.push(n);
    }
    assert_eq!(axes[0], axes[1]);
    assert_eq!(axes[10], axes[11]);
}

#[test]
fn map_applies_to_each_point_and_keeps_the_faces() {
    let half = Polyhedron::cube().map(|p: [i32; 3]| [p[0] as f32 * 0.5, p[1] as f32 * 0.5, p[2] as f32 * 0.5]);
    assert_eq!(half.points[0], [0.5, -0.5, -0.5]);
    assert_eq!(half.points[6], [0.5, 0.5, 0.5]);
    assert_eq!(half.faces, Polyhedron::cube().faces);
}

#[test]
fn from_and_into_convert_each_point() {
    let small: Polyhedron<u8> = Polyhedron { points: vec![1, 2, 250], faces: vec![[0, 1, 2]] };
    let wide: Polyhedron<u32> = Polyhedron::from(small.clone());
    assert_eq!(wide.points, vec![1, 2, 250]);
    assert_eq!(wide.faces, vec![[0, 1, 2]]);
    let real: Polyhedron<f64> = small.into();
    assert_eq!(real.points, vec![1.0, 2.0, 250.0]);
    assert_eq!(real.faces, vec![[0, 1, 2]]);
}

#[test]
fn walks_over_points_and_faces() {
    let mut quad = Polyhedron::quad();
    assert_eq!(quad.points().count(), 4);
    assert_eq!(quad.points().next(), Some(&[1, -1, -1]));
    assert_eq!(quad.faces().last(), Some(&[2, 3, 0]));
    for p in quad.points_mut().iter_mut() {
        p[1] += 1;
    }
    assert_eq!(quad.points[2], [-1, 0, 1]);
    quad.points_mut().push([0, 0, 0]);
    quad.faces_mut().push([0, 2, 4]);
    assert_eq!(quad.points.len(), 5);
    assert_eq!(quad.faces.len(), 3);
    assert!(quad.check());
}

#[test]
fn triangles_that_share_corners_share_points() {
    let (a, b, c, d) = ([0.0f32, 0.0, 0.0], [1.0, 0.0, 0.0], [0.0, 1.0, 0.0], [1.0, 1.0, 0.0]);
    let solid = Polyhedron::from_iter(&[[a, b, c], [c, b, d], [a, a, d]]).unwrap();
    assert_eq!(solid.points, vec![a, b, c, d]);
    assert_eq!(solid.faces, vec![[0, 1, 2], [2, 1, 3], [0, 0, 3]]);
    let none: Polyhedron<u8> = Polyhedron::from_iter(&[]).unwrap();
    assert!(none.points.is_empty() && none.faces.is_empty());
}

#[test]
fn point_that_is_not_equal_to_itself_is_never_shared() {
    let nan = f32::NAN;
    let solid = Polyhedron::from_iter(&[[nan, 1.0, nan], [1.0, nan, 1.0]]).unwrap();
    assert_eq!(solid.points.len(), 4);
    assert_eq!(solid.faces, vec![[0, 1, 2], [1, 3, 1]]);
}

#[test]
fn more_points_than_corners_can_name_are_refused() {
    let many: Vec<[u32; 3]> = (0..21846).map(|i| [3 * i, 3 * i + 1, 3 * i + 2]).collect();
    assert!(Polyhedron::from_iter(&many).is_none());
    let solid = Polyhedron::from_iter(&many[..21845]).unwrap();
    assert_eq!(solid.points.len(), 65535);
    assert_eq!(solid.faces[21844], [65532, 65533, 65534]);
    let mut full = many[..21845].to_vec();
    full.push([65535, 0, 65535]);
    let solid = Polyhedron::from_iter(&full).unwrap();
    assert_eq!(solid.points.len(), 65536);
    assert_eq!(solid.faces[21845], [65535, 0, 65535]);
    full.push([65536, 0, 0]);
    assert!(Polyhedron::from_iter(&full).is_none());
}

#[test]
fn corner_index_fits_sixteen_bits() {
    assert_eq!(corner_index(0), Some(0));
    assert_eq!(corner_index(65535), Some(65535));
    assert_eq!(corner_index(65536), None);
}

#[test]
fn homogeneous_coordinates_are_spread_over_the_screen() {
    let size = Point2::new(10, 20);
    assert_eq!(ndc_to_screen(&[1, -1, 2], &size, &Point2::new(3, 4)), Some(Point2::new(10, 9)));
    assert_eq!(ndc_to_screen(&[-2, 2, 2], &size, &Point2::new(0, 0)), Some(Point2::new(0, 20)));
    assert_eq!(ndc_to_screen(&[1, 1, -2], &size, &Point2::new(0, 0)), Some(Point2::new(2, 5)));
    assert_eq!(ndc_to_screen(&[-7, 0, 2], &size, &Point2::new(0, 0)), Some(Point2::new(-13, 10)));
}

#[test]
fn point_in_the_plane_of_the_eye_has_no_pixel() {
    let size = Point2::new(10, 20);
    assert_eq!(ndc_to_screen(&[1, 1, 0], &size, &Point2::new(0, 0)), None);
    assert_eq!(ndc_to_screen(&[i64::MAX, 0, 1], &size, &Point2::new(0, 0)), None);
    assert_eq!(ndc_to_screen(&[0, 0, 1], &size, &Point2::new(i32::MAX, 0)), None);
    assert_eq!(ndc_to_screen(&[0, 0, 1], &size, &Point2::new(i32::MAX - 5, 0)), Some(Point2::new(i32::MAX, 10)));
}

#[test]
fn projection_goes_through_the_transform() {
    let size = Point2::new(10, 10);
    assert_eq!(project(&quarter(), [-2, 2, 9], &size), Some(Point2::new(2, 7)));
    assert_eq!(project(&quarter(), [4, -4, 0], &size), Some(Point2::new(10, 0)));
    assert_eq!(project(&Matrix4::scale([1, 1, 1, 0]), [1, 1, 1], &size), None);
}

#[test]
fn face_toward_the_eye_is_filled_with_its_shade() {
    let mut buf = Buffer::new(10, 10, CLEAR).unwrap();
    let res = flat_triangle().draw(&mut buf, &Matrix4::identity(), &quarter(), &[0, 0, 5]);
    assert_eq!(res, Ok(()));
    let mut want = Vec::new();
    for y in 2..=7 {
        for x in 2..=(9 - y) {
            want.push((x, y, BLUE));
        }
    }
    assert_eq!(lit(&buf), want);
}

#[test]
fn face_away_from_the_eye_writes_no_pixel() {
    let mut buf = Buffer::new(10, 10, CLEAR).unwrap();
    let res = flat_triangle().draw(&mut buf, &Matrix4::identity(), &quarter(), &[0, 0, -5]);
    assert_eq!(res, Ok(()));
    assert_eq!(lit(&buf), vec![]);
    let res = flat_triangle().draw(&mut buf, &Matrix4::identity(), &quarter(), &[0, 0, 0]);
    assert_eq!(res, Ok(()));
    assert_eq!(lit(&buf), vec![]);
}

#[test]
fn only_the_half_of_the_cube_that_is_seen_is_drawn() {
    let cube = Polyhedron::cube();
    let size = Point2::new(12, 12);
    let eye = [0, 0, 9];
    let mut seen = 0;
    for f in cube.faces() {
        let [a, b, c] = [cube.points[f[0] as usize], cube.points[f[1] as usize], cube.points[f[2] as usize]];
        if paint(a, b, c, &Matrix4::identity(), &quarter(), &eye, &size).unwrap().is_some() {
            seen += 1;
        }
    }
    assert!(seen > 0 && seen < 12);
}

#[test]
fn shade_follows_the_normal() {
    let size = Point2::new(40, 40);
    let eye = [9, 9, 9];
    let got = paint([0, 0, 0], [4, 0, 0], [0, 3, 1], &Matrix4::identity(), &quarter(), &eye, &size);
    let (outline, color) = got.unwrap().unwrap();
    assert_eq!(color, Color { r: 0, g: 85, b: 255, a: 255 });
    assert_eq!(
        outline.points,
        vec![Point2::new(20, 20), Point2::new(38, 20), Point2::new(38, 21), Point2::new(20, 35)]
    );
}

#[test]
fn face_is_clipped_to_the_pixels_off_the_border() {
    let mut buf = Buffer::new(6, 6, CLEAR).unwrap();
    let big = Polyhedron { points: vec![[-9, -9, 0], [9, -9, 0], [9, 9, 0], [-9, 9, 0]], faces: vec![[0, 1, 2], [2, 3, 0]] };
    assert_eq!(big.draw(&mut buf, &Matrix4::identity(), &quarter(), &[0, 0, 5]), Ok(()));
    let mut want = Vec::new();
    for y in 1..=4 {
        for x in 1..=4 {
            want.push((x, y, BLUE));
        }
    }
    assert_eq!(lit(&buf), want);
}

#[test]
fn later_face_paints_over_an_earlier_one() {
    let mut buf = Buffer::new(10, 10, CLEAR).unwrap();
    let two = Polyhedron {
        points: vec![[-2, -2, 0], [2, -2, 0], [-2, 2, 0], [-2, -2, 1], [-2, 2, 1], [-2, 0, 5]],
        faces: vec![[0, 1, 2], [3, 1, 5]],
    };
    assert_eq!(two.draw(&mut buf, &Matrix4::identity(), &quarter(), &[0, 0, 9]), Ok(()));
    assert_eq!(buf.get(2, 2), Color { r: 31, g: 255, b: 127, a: 255 });
    assert_eq!(buf.get(2, 5), Color { r: 31, g: 255, b: 127, a: 255 });
    assert_eq!(buf.get(2, 6), BLUE);
}

#[test]
fn face_that_names_a_missing_point_stops_the_drawing() {
    let mut buf = Buffer::new(10, 10, CLEAR).unwrap();
    let mut solid = flat_triangle();
    solid.faces.push([0, 1, 3]);
    let res = solid.draw(&mut buf, &Matrix4::identity(), &quarter(), &[0, 0, 5]);
    assert_eq!(res, Err(DrawError::BadIndex));
    assert_eq!(lit(&buf), vec![]);
}

#[test]
fn face_that_cannot_be_clipped_stops_the_drawing() {
    let mut buf = Buffer::new(3, 10, CLEAR).unwrap();
    let solid = Polyhedron { points: vec![[0, -8, 0], [4, -8, 0], [0, 7, 0]], faces: vec![[0, 1, 2]] };
    let eighth = Matrix4::scale([1, 1, 1, 8]);
    let res = solid.draw(&mut buf, &Matrix4::identity(), &eighth, &[0, 0, 5]);
    assert_eq!(res, Err(DrawError::Clip(ClipError::Parallel)));
    assert_eq!(lit(&buf), vec![]);
}

#[test]
fn face_without_a_place_in_the_world_is_left_out() {
    let mut buf = Buffer::new(10, 10, CLEAR).unwrap();
    let res = flat_triangle().draw(&mut buf, &Matrix4::scale([1, 1, 1, 0]), &quarter(), &[0, 0, 5]);
    assert_eq!(res, Ok(()));
    assert_eq!(lit(&buf), vec![]);
    let res = flat_triangle().draw(&mut buf, &Matrix4::identity(), &Matrix4::scale([1, 1, 1, 0]), &[0, 0, 5]);
    assert_eq!(res, Ok(()));
    assert_eq!(lit(&buf), vec![]);
}

#[test]
fn model_transform_moves_the_face() {
    let mut buf = Buffer::new(10, 10, CLEAR).unwrap();
    let moved = Matrix4::translation([1, 0, 0]);
    assert_eq!(flat_triangle().draw(&mut buf, &moved, &quarter(), &[0, 0, 5]), Ok(()));
    assert_eq!(buf.get(2, 2), CLEAR);
    assert_eq!(buf.get(3, 2), BLUE);
    assert_eq!(buf.get(8, 2), BLUE);
}

#[test]
fn line_of_space_is_drawn_between_the_pixels_of_its_ends() {
    let mut buf = Buffer::new(10, 10, 0u8).unwrap();
    draw_line(&mut buf, 1, [[-4, -4, 3], [-1, -2, 7]], &quarter());
    let mut got = Vec::new();
    for y in 0..10 {
        for x in 0..10 {
            if buf.get(x, y) != 0 {
                got.push((x, y));
            }
        }
    }
    assert_eq!(got, vec![(0, 0), (1, 1), (2, 1), (3, 2)]);
}

#[test]
fn line_of_space_is_clipped_to_the_buffer() {
    let mut buf = Buffer::new(10, 10, 0u8).unwrap();
    draw_line(&mut buf, 1, [[-8, 0, 0], [8, 0, 0]], &quarter());
    let row: Vec<usize> = (0..10).filter(|&x| buf.get(x, 5) != 0).collect();
    assert_eq!(row, (0..10).collect::<Vec<_>>());
    assert_eq!(buf.data.iter().filter(|v| **v != 0).count(), 10);
    let mut other = Buffer::new(10, 10, 0u8).unwrap();
    draw_line(&mut other, 1, [[-8, 9, 0], [8, 9, 0]], &quarter());
    draw_line(&mut other, 1, [[0, 0, 0], [1, 1, 1]], &Matrix4::scale([1, 1, 1, 0]));
    assert_eq!(other.data.iter().filter(|v| **v != 0).count(), 0);
}
