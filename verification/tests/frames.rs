use emucore::api::frames::{checker_cells, frame_cells, repeat_cells, strip_cells};
use emucore::api::oldlib::clamp_dirty;

#[test]
fn nine_patch_frame_layout() {
    let v = frame_cells(30, 30, 0, 0, 40, 30, 3);
    assert_eq!(v.len(), 20);
    let top: Vec<(i32, i32, i32, i32, i32, i32)> = vec![
        (0, 0, 10, 10, 0, 0),
        (10, 0, 10, 10, 10, 0),
        (10, 0, 10, 10, 20, 0),
        (10, 0, 10, 10, 30, 0),
        (20, 0, 10, 10, 30, 0),
    ];
    assert_eq!(&v[0..5], &top[..]);
    assert_eq!(v[5], (0, 10, 10, 10, 0, 10));
    assert_eq!(v[10], (0, 10, 10, 10, 0, 20));
    assert_eq!(v[15], (0, 20, 10, 10, 0, 20));
    assert_eq!(v[19], (20, 20, 10, 10, 30, 20));
}

#[test]
fn frame_of_a_zero_grid_is_corners_only() {
    // n == 0: the cells are 0 wide, so every position collapses onto the corner.
    let v = frame_cells(30, 30, 4, 6, 40, 30, 0);
    assert_eq!(v.len(), 4);
    assert_eq!(v[0], (0, 0, 0, 0, 4, 6));
    assert_eq!(v[1], (0, 0, 0, 0, 44, 6));
}

#[test]
fn three_part_strip_layout() {
    let v = strip_cells(30, 8, 5, 7, 25);
    assert_eq!(
        v,
        vec![(0, 0, 10, 8, 5, 7), (10, 0, 10, 8, 15, 7), (10, 0, 10, 8, 25, 7), (20, 0, 10, 8, 20, 7)]
    );
}

#[test]
fn repeated_image_covers_both_ends() {
    let v = repeat_cells(10, 10, 0, 0, 15, 5).unwrap();
    assert_eq!(v, vec![(0, 0, 10, 10, 0, 0), (0, 0, 10, 10, 10, 0)]);
    assert_eq!(repeat_cells(0, 10, 0, 0, 15, 5), Some(vec![]));
    assert_eq!(repeat_cells(10, 10, 0, 20, 15, -30), Some(vec![]));
}

#[test]
fn repeat_that_wraps_forever_is_refused() {
    assert_eq!(repeat_cells(10, 10, 0, 0, 32767, 0), None);
}

#[test]
fn checkerboard_alternates_halves() {
    let v = checker_cells(20, 10, 0, 0, 20, 20).unwrap();
    assert_eq!(
        v,
        vec![(0, 0, 10, 10, 0, 0), (10, 0, 10, 10, 10, 0), (10, 0, 10, 10, 0, 10), (0, 0, 10, 10, 10, 10)]
    );
    assert_eq!(checker_cells(1, 10, 0, 0, 20, 20), Some(vec![]));
}

#[test]
fn dirty_rect_kept_on_screen() {
    assert_eq!(clamp_dirty(-10, 5, 30, 20), (0, 5, 20, 20));
    assert_eq!(clamp_dirty(230, 390, 50, 50), (230, 390, 10, 10));
    assert_eq!(clamp_dirty(300, 0, 10, 10), (0, 0, 0, 0));
}
