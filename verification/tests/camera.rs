use softraster::camera::Camera;
use std::cell::Cell;

#[test]
fn new_camera_is_stale() {
    let cam = Camera::new((1, 2), 0i64);
    assert!(cam.stale);
    assert_eq!(cam.pose, (1, 2));
    assert_eq!(cam.cache, 0);
}

#[test]
fn transform_is_computed_once() {
    let calls = Cell::new(0);
    let compute = |pose: &(i64, i64)| {
        calls.set(calls.get() + 1);
        pose.0 * 10 + pose.1
    };
    let mut cam = Camera::new((4, 2), 0i64);
    assert_eq!(*cam.fresh_mat(compute), 42);
    assert!(!cam.stale);
    assert_eq!(calls.get(), 1);
    assert_eq!(*cam.fresh_mat(compute), 42);
    assert_eq!(*cam.fresh_mat(compute), 42);
    assert_eq!(calls.get(), 1);
    assert_eq!(cam.cache, 42);
}

#[test]
fn fresh_cache_is_returned_whatever_would_be_computed() {
    let mut cam = Camera::new(5u8, 1u32);
    assert_eq!(*cam.fresh_mat(|p: &u8| *p as u32 * 2), 10);
    assert_eq!(*cam.fresh_mat(|p: &u8| *p as u32 * 3), 10);
}

#[test]
fn change_of_pose_brings_a_new_transform() {
    let calls = Cell::new(0);
    let compute = |pose: &[i32; 3]| {
        calls.set(calls.get() + 1);
        [pose[0] + 1, pose[1] + 1, pose[2] + 1]
    };
    let mut cam = Camera::new([0, 0, 0], [9, 9, 9]);
    let before = *cam.fresh_mat(compute);
    assert_eq!(before, [1, 1, 1]);
    cam.set_pose([0, 0, 5]);
    assert!(cam.stale);
    assert_eq!(cam.cache, before);
    let after = *cam.fresh_mat(compute);
    assert_eq!(after, [1, 1, 6]);
    assert_ne!(after, before);
    assert_eq!(calls.get(), 2);
}

#[test]
fn change_in_place_marks_the_cache_stale() {
    let mut cam = Camera::new(vec![1, 2], 0usize);
    assert_eq!(*cam.fresh_mat(|p: &Vec<i32>| p.len()), 2);
    cam.pose_mut().push(3);
    assert!(cam.stale);
    assert_eq!(cam.cache, 2);
    assert_eq!(cam.pose, vec![1, 2, 3]);
    assert_eq!(*cam.fresh_mat(|p: &Vec<i32>| p.len()), 3);
    assert!(!cam.stale);
}
