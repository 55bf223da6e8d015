use emucore::gfx::{adopt_allowed, blit_clip, blit_pixels, count_nonblank, fill_rows, image_mask, image_raw, stride_of,
    swap_pairs, Gfx};

#[test]
fn strides() {
    assert_eq!(stride_of(0), 0);
    assert_eq!(stride_of(1), 4);
    assert_eq!(stride_of(4), 4);
    assert_eq!(stride_of(6), 8);
    assert_eq!(stride_of(240), 240);
}

#[test]
fn adopting_a_screen_size() {
    let mut g = Gfx::default();
    assert!(adopt_allowed(&g, 176, 220));
    assert!(!adopt_allowed(&g, 240, 400));
    assert!(!adopt_allowed(&g, 50, 220));
    assert!(!adopt_allowed(&g, 320, 481));
    g.frames = 4;
    assert!(!adopt_allowed(&g, 176, 220));
}

#[test]
fn blit_regions() {
    // 10x10 source (stride 12) onto 20x20 (stride 20).
    assert_eq!(blit_clip(10, 10, 12, 20, 20, 20, 5, 5, None, None, 0, 0), Some((5, 5, 10, 10, 0, 0)));
    assert_eq!(blit_clip(10, 10, 12, 20, 20, 20, -3, 15, None, None, 0, 0), Some((0, 15, 7, 5, 3, 0)));
    assert_eq!(blit_clip(10, 10, 12, 20, 20, 20, 25, 0, None, None, 0, 0), None);
    assert_eq!(blit_clip(10, 10, 12, 20, 20, 20, 0, 0, Some(4), Some(3), 9, 8), Some((0, 0, 3, 2, 9, 8)));
}

#[test]
fn screen_bytes() {
    let mut raw = vec![1, 2, 3, 4, 5];
    swap_pairs(&mut raw);
    assert_eq!(raw, vec![2, 1, 4, 3, 5]);
    assert_eq!(count_nonblank(&vec![0, 0, 0, 1, 2, 0, 9]), 2);
}

#[test]
fn image_upload_bytes() {
    // 2x2 image, stride 4: each row padded with two zero pixels.
    let raw = image_raw(&vec![0x1234, 0xABCD, 0x0001, 0x0002], 2, 2, 4, true);
    assert_eq!(raw, vec![0x34, 0x12, 0xCD, 0xAB, 0, 0, 0, 0, 0x01, 0, 0x02, 0, 0, 0, 0, 0]);
    let raw = image_raw(&vec![0x1234], 1, 1, 4, false);
    assert_eq!(raw, vec![0x12, 0x34, 0, 0, 0, 0, 0, 0]);
    // An empty image still takes one pixel.
    assert_eq!(image_raw(&vec![], 0, 0, 0, true), vec![0, 0]);
}

#[test]
fn image_masks() {
    let idx = Some(vec![0, 5, 5, 1]);
    let m = image_mask(Some(5), &idx, &None, 2, 2, 4).unwrap();
    assert_eq!(m, vec![0, 1, 1, 1, 1, 0, 1, 1]);
    let alpha = Some(vec![1, 0]);
    assert_eq!(image_mask(None, &None, &alpha, 2, 1, 4).unwrap(), vec![1, 0, 1, 1]);
    assert!(image_mask(None, &idx, &None, 2, 2, 4).is_none());
    assert!(image_mask(Some(5), &None, &None, 2, 2, 4).is_none());
}

#[test]
fn pixels_are_blitted() {
    // Two rows of two pixels onto a 3-pixel-wide destination at pixel 1.
    let src = vec![1, 1, 2, 2, 3, 3, 4, 4];
    let mut dst = vec![0u8; 12];
    blit_pixels(&src, &mut dst, 4, 6, 0, 1, 2, 2, None, 0, 0);
    assert_eq!(dst, vec![0, 0, 1, 1, 2, 2, 0, 0, 3, 3, 4, 4]);
    // With a mask: the second pixel of the first row is transparent; the second row
    // has a clear mask row.
    let mask = vec![0, 1, 0, 0];
    let mut dst = vec![9u8; 12];
    blit_pixels(&src, &mut dst, 4, 6, 0, 1, 2, 2, Some(&mask), 2, 0);
    assert_eq!(dst, vec![9, 9, 1, 1, 9, 9, 9, 9, 3, 3, 4, 4]);
    // A destination too short for the second row stops after the first.
    let mut dst = vec![0u8; 8];
    blit_pixels(&src, &mut dst, 4, 6, 0, 1, 2, 2, None, 0, 0);
    assert_eq!(dst, vec![0, 0, 1, 1, 2, 2, 0, 0]);
}

#[test]
fn filled_rectangles() {
    let (row, addrs) = fill_rows(-2, 1, 5, 2, 10, 10, 0x1000, 0xF800, true).unwrap();
    assert_eq!(row, vec![0x00, 0xF8, 0x00, 0xF8, 0x00, 0xF8]);
    assert_eq!(addrs, vec![0x1000 + 20, 0x1000 + 40]);
    assert!(fill_rows(10, 0, 5, 5, 10, 10, 0, 0, true).is_none());
    let (row, _) = fill_rows(0, 0, 1, 1, 10, 10, 0, 0x1234, false).unwrap();
    assert_eq!(row, vec![0x12, 0x34]);
}
