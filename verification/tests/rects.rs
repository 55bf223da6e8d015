use emucore::api::rects::{fill_tiles, image_clip, line_rects, old_fill_area, outline_rects};

#[test]
fn image_cut_to_clip_rect() {
    assert_eq!(image_clip(10, 20, 30, 40, 0, 0, 25, 100), Some((10, 20, 15, 40, 0, 0)));
    assert_eq!(image_clip(-5, -5, 10, 10, 0, 0, 100, 100), Some((0, 0, 5, 5, 5, 5)));
    assert_eq!(image_clip(200, 0, 10, 10, 0, 0, 100, 100), None);
}

#[test]
fn old_library_fill_area() {
    assert_eq!(old_fill_area(-5, 10, 20, 5), Some((65531, 10, 20, 5)));
    assert_eq!(old_fill_area(0, 0, 1, 5), None);
    assert_eq!(old_fill_area(300, 0, 10, 10), None);
}

#[test]
fn outline_sides() {
    assert_eq!(outline_rects(2, 3, 10, 5), vec![(2, 3, 10, 1), (2, 7, 10, 1), (2, 3, 1, 5), (11, 3, 1, 5)]);
}

#[test]
fn lines_as_rects() {
    assert_eq!(line_rects(0, 0, 5, 0), vec![(0, 0, 6, 1)]);
    assert_eq!(line_rects(3, 9, 3, 4), vec![(3, 4, 1, 6)]);
    assert_eq!(
        line_rects(0, 0, 4, 2),
        vec![(0, 0, 1, 1), (1, 0, 1, 1), (2, 1, 1, 1), (3, 1, 1, 1), (4, 2, 1, 1)]
    );
    assert_eq!(line_rects(0, 0, -3, 1), vec![(0, 0, 1, 1), (-1, 0, 1, 1), (-2, 0, 1, 1), (-3, 1, 1, 1)]);
}

#[test]
fn area_tiled_with_image() {
    assert_eq!(
        fill_tiles(0, 0, 25, 10, 10, 8),
        vec![(0, 0, 10, 8), (10, 0, 10, 8), (20, 0, 5, 8), (0, 8, 10, 2), (10, 8, 10, 2), (20, 8, 5, 2)]
    );
    assert_eq!(fill_tiles(0, 0, 0, 10, 10, 8), vec![]);
}
