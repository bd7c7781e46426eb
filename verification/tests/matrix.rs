use softraster::volume::matrix::Matrix4;

#[test]
fn translate() {
    let p = [0, 0, 0];
    let mat = Matrix4::translation([1, 2, 3]);
    let res = mat.mul_point(p);
    assert_eq!([res[0] / res[3], res[1] / res[3], res[2] / res[3]], [1, 2, 3]);
    assert_eq!(mat.transform_point(p), Some([1, 2, 3]));
}

#[test]
fn scale() {
    let p = [1, 2, 3];
    let mat = Matrix4::scale([2, 3, 4, 1]);
    let res = mat.mul_point(p);
    assert_eq!([res[0] / res[3], res[1] / res[3], res[2] / res[3]], [2, 6, 12]);
    assert_eq!(mat.transform_point(p), Some([2, 6, 12]));
}

#[test]
fn translate_scale() {
    let mat = Matrix4::translation([1, 2, 3]).mul(&Matrix4::scale([2, 3, 4, 1])).unwrap();
    let res = mat.mul_point([1, 2, 3]);
    assert_eq!([res[0] / res[3], res[1] / res[3], res[2] / res[3]], [3, 8, 15]);
    assert_eq!(mat.transform_point([1, 2, 3]), Some([3, 8, 15]));
}

#[test]
fn identity_leaves_points_and_matrices() {
    let id = Matrix4::identity();
    assert_eq!(id.0, [1, 0, 0, 0, 0, 1, 0, 0, 0, 0, 1, 0, 0, 0, 0, 1]);
    assert_eq!(id.mul_point([7, -8, 9]), [7, -8, 9, 1]);
    let m = Matrix4([1, 2, 3, 4, 5, 6, 7, 8, 9, 10, 11, 12, 13, 14, 15, 16]);
    assert_eq!(id.mul(&m), Some(m));
    assert_eq!(m.mul(&id), Some(m));
}

#[test]
fn product_is_rows_times_columns() {
    let a = Matrix4([1, 2, 3, 4, 5, 6, 7, 8, 9, 10, 11, 12, 13, 14, 15, 16]);
    let b = Matrix4([1, 0, 2, 0, 0, 1, 0, 2, -1, 0, 1, 0, 0, -1, 0, 1]);
    assert_eq!(
        a.mul(&b),
        Some(Matrix4([-2, -2, 5, 8, -2, -2, 17, 20, -2, -2, 29, 32, -2, -2, 41, 44]))
    );
    assert_eq!(
        b.mul(&a),
        Some(Matrix4([19, 22, 25, 28, 31, 34, 37, 40, 8, 8, 8, 8, 8, 8, 8, 8]))
    );
}

#[test]
fn product_that_does_not_fit_is_refused() {
    let big = Matrix4::scale([i32::MAX, 1, 1, 1]);
    assert_eq!(big.mul(&Matrix4::scale([2, 1, 1, 1])), None);
    assert_eq!(big.mul(&Matrix4::scale([1, 1, 1, 1])), Some(big));
    assert_eq!(big.mul(&Matrix4::scale([-1, 1, 1, 1])), Some(Matrix4::scale([-i32::MAX, 1, 1, 1])));
}

#[test]
fn homogeneous_image_is_not_divided() {
    let m = Matrix4([2, 0, 0, 1, 0, 3, 0, 2, 0, 0, 4, 3, 1, 1, 1, 5]);
    assert_eq!(m.mul_point([1, 2, 3]), [3, 8, 15, 11]);
    let far = Matrix4::scale([i32::MIN, i32::MAX, 1, 1]);
    assert_eq!(
        far.mul_point([i32::MIN, i32::MIN, 0]),
        [1i128 << 62, -(1i128 << 62) - (i32::MIN as i128), 0, 1]
    );
}

#[test]
fn point_is_divided_by_its_last_coordinate_and_rounded_down() {
    let m = Matrix4::scale([1, 1, 1, 2]);
    assert_eq!(m.transform_point([3, -3, 4]), Some([1, -2, 2]));
    let flip = Matrix4::scale([1, 1, 1, -2]);
    assert_eq!(flip.transform_point([3, -3, 4]), Some([-2, 1, -2]));
}

#[test]
fn point_without_an_image_is_refused() {
    assert_eq!(Matrix4::scale([1, 1, 1, 0]).transform_point([1, 2, 3]), None);
    assert_eq!(Matrix4::scale([2, 1, 1, 1]).transform_point([i32::MAX, 0, 0]), None);
    assert_eq!(Matrix4::scale([1, 1, 2, 1]).transform_point([0, 0, i32::MIN]), None);
    let plane = Matrix4([1, 0, 0, 0, 0, 1, 0, 0, 0, 0, 1, 0, 0, 0, 1, 0]);
    assert_eq!(plane.transform_point([4, 4, 0]), None);
    assert_eq!(plane.transform_point([4, 6, 2]), Some([2, 3, 1]));
}

#[test]
fn box_projection_has_a_common_factor() {
    let m = Matrix4::orthographic(2, 4, 1, 3).unwrap();
    assert_eq!(m.0, [8, 0, 0, 0, 0, 4, 0, 0, 0, 0, 16, 32, 0, 0, 0, 16]);
    assert_eq!(m.transform_point([2, 4, 1]), Some([1, 1, 3]));
    assert_eq!(m.transform_point([-2, 0, -2]), Some([-1, 0, 0]));
    assert_eq!(Matrix4::orthographic(i32::MAX, i32::MAX, 0, 1), None);
    assert!(Matrix4::orthographic(1000, 1000, 0, 2100).is_some());
    assert_eq!(Matrix4::orthographic(1000, 1000, 0, 2200), None);
}

#[test]
fn eye_projection_divides_by_depth() {
    let m = Matrix4::perspective(2, 4, 1, 3).unwrap();
    assert_eq!(m.0, [8, 0, 0, 0, 0, 4, 0, 0, 0, 0, -32, -48, 0, 0, 16, 0]);
    assert_eq!(m.mul_point([4, 8, 2]), [32, 32, -112, 32]);
    assert_eq!(m.transform_point([4, 8, 2]), Some([1, 1, -4]));
    assert_eq!(m.transform_point([4, 8, 0]), None);
    assert_eq!(Matrix4::perspective(i32::MAX, i32::MAX, 1, 3), None);
}
