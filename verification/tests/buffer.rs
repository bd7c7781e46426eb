use softraster::buffer::{Buffer, Color};

#[test]
fn new_buffer_is_filled() {
    let c = Color { r: 1, g: 2, b: 3, a: 4 };
    let buf = Buffer::new(3, 2, c).unwrap();
    assert_eq!(buf.size, [3, 2]);
    assert_eq!(buf.data.len(), 6);
    for y in 0..2 {
        for x in 0..3 {
            assert_eq!(buf.get(x, y), c);
        }
    }
}

#[test]
fn new_buffer_refuses_a_size_that_does_not_fit() {
    assert!(Buffer::new(usize::MAX, 2, 0u8).is_none());
    assert!(Buffer::new(usize::MAX, 1, ()).is_some());
    assert!(Buffer::new(0, usize::MAX, 0u8).is_some());
}

#[test]
fn set_writes_row_major() {
    let mut buf = Buffer::new(3, 2, 0u8).unwrap();
    buf.set(1, 1, 5);
    buf.set(2, 0, 6);
    assert_eq!(buf.data, vec![0, 0, 6, 0, 5, 0]);
    assert_eq!(buf.get(1, 1), 5);
    assert_eq!(buf.get(2, 0), 6);
    assert_eq!(buf.get(0, 0), 0);
}

#[test]
fn fill_run_includes_both_ends() {
    let mut buf = Buffer::new(5, 3, 0u8).unwrap();
    buf.fill_run(1, 1, 3, 8);
    assert_eq!(buf.data, vec![0, 0, 0, 0, 0, 0, 8, 8, 8, 0, 0, 0, 0, 0, 0]);
    buf.fill_run(2, 4, 4, 9);
    assert_eq!(buf.get(4, 2), 9);
    assert_eq!(buf.get(3, 2), 0);
}
