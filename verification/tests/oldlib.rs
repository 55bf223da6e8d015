use emucore::api::oldlib::{tb_center, tb_draw_lines};
use emucore::api::oldlib::lib_random;
use emucore::api::oldlib::and_clip;
use emucore::memblock::MemBlock;
use emucore::api::misc::s32;
use emucore::api::oldlib::{actor_load_rest, cdiv, check_clip_to, clip_blit, cmod, line_ex, rgb888_to_565, s16, tb_layout,
    tb_pages, ActorFrame};
use emucore::api::text::{gbk_cells, text_width};

fn words(v: &[i32]) -> Vec<u8> {
    v.iter().flat_map(|w| w.to_le_bytes()).collect()
}

#[test]
fn sixteen_bit_arithmetic() {
    assert_eq!(s16(0x1_8000), -0x8000);
    assert_eq!(s16(0x1_2345), 0x2345);
    assert_eq!(s16(-1), -1);
    assert_eq!(emucore::api::text::s16(0xFFFF), -1);
    assert_eq!(s32(0xFFFF_FFFE), -2);
}

#[test]
fn c_division() {
    assert_eq!(cdiv(-7, 2), -3);
    assert_eq!(cmod(-7, 2), -1);
    assert_eq!(cdiv(7, -2), -3);
    assert_eq!(cmod(7, -2), 1);
    assert_eq!(cdiv(7, 0), 0);
    assert_eq!(cmod(7, 0), 0);
}

#[test]
fn colours() {
    assert_eq!(rgb888_to_565(0xFF0000), 0xF800);
    assert_eq!(rgb888_to_565(0x00FF00), 0x07E0);
    assert_eq!(rgb888_to_565(0x0000FF), 0x001F);
    assert_eq!(rgb888_to_565(0xFFFFFF), 0xFFFF);
}

#[test]
fn clip_rectangles() {
    assert_eq!(check_clip_to([-5, 0, 300, 400], 240, 320), [0, 0, 240, 320]);
    assert_eq!(check_clip_to([250, 0, 300, 10], 240, 320), [0, 0, 0, 0]);
    assert_eq!(check_clip_to([10, 20, 30, 40], 240, 320), [10, 20, 30, 40]);
}

#[test]
fn blits_are_clipped() {
    let c = [0, 0, 240, 320];
    assert_eq!(clip_blit(c, 0, 0, 10, 10, -3, 5), Some((3, 0, 7, 10, 0, 5)));
    assert_eq!(clip_blit(c, 0, 0, 10, 10, 235, 0), Some((0, 0, 5, 10, 235, 0)));
    assert_eq!(clip_blit(c, 0, 0, 10, 10, -20, 0), None);
    assert_eq!(clip_blit(c, 0, 0, 10, 10, 0, 318), Some((0, 0, 10, 2, 0, 318)));
}

#[test]
fn lines() {
    let c = [0, 0, 240, 320];
    assert_eq!(line_ex(c, 0, 240, 0, 0, 3, 0), vec![0, 2, 4, 6]);
    assert_eq!(line_ex(c, 0, 240, 3, 0, 0, 0), vec![0, 2, 4, 6]);
    assert_eq!(line_ex(c, 0x100, 240, 0, 0, 0, 2), vec![0x100, 0x100 + 480, 0x100 + 960]);
    assert_eq!(line_ex([1, 0, 240, 320], 0, 240, 0, 0, 3, 0), vec![2, 4, 6]);
    assert_eq!(line_ex(c, 0, 240, 0, 0, 2, 2), vec![0, 482, 964]);
}

#[test]
fn text_box_layout() {
    let t = tb_layout(None, b"ab\ncd\0", 100);
    assert_eq!(t.lines, 2);
    assert_eq!(t.starts, vec![0, 3]);
    assert_eq!(t.lens, vec![2, 2]);
    assert_eq!(tb_pages(40, 14, 2), (2, 1));
    assert_eq!(tb_pages(40, 0, 2), (0, 0));
}

#[test]
fn text_box_wraps_long_lines() {
    // 8 pixels a cell: "abcd" is 32 wide, so a box 20 wide holds two per line.
    let t = tb_layout(None, b"abcd\0", 20);
    assert_eq!(t.lines, 2);
    assert_eq!(t.starts, vec![0, 2]);
}

#[test]
fn text_widths() {
    assert_eq!(gbk_cells(b"ab\xB0\xA1c"), 5);
    assert_eq!(gbk_cells(b"\xB0"), 1);
    assert_eq!(text_width(None, b"ab\xB0\xA1"), 32);
}

#[test]
fn actor_description() {
    let d = words(&[1, 1, 2, 11, 22, 3, 1, 1, 5, 1, 1, 2, 3, 4, 5]);
    let a = actor_load_rest(&d);
    assert_eq!(a.frames, vec![ActorFrame { x: 1, y: 2, w: 10, h: 20, img: 3 }]);
    assert_eq!(a.n_acts, 1);
    assert_eq!(a.acts.len(), 1);
    assert_eq!(a.acts[0].nf, 1);
    assert_eq!(a.acts[0].steps.len(), 1);
    assert_eq!(a.acts[0].steps[0].dur, 5);
    assert_eq!(a.acts[0].steps[0].parts, vec![(1, 2, 3, 4, 5)]);
}

#[test]
fn actor_description_values_are_16_bit() {
    let d = words(&[1, 0xFFFF, 0x1_0002, 0, 0, 0, 0]);
    let a = actor_load_rest(&d);
    assert_eq!(a.frames[0].x, -1);
    assert_eq!(a.frames[0].y, 2);
    assert_eq!(a.n_acts, 0);
    assert!(a.acts.is_empty());
    // Past the end of the data every value reads as 0.
    let a = actor_load_rest(&[]);
    assert!(a.frames.is_empty());
    assert_eq!(a.n_acts, 0);
}

#[test]
fn random_in_a_range() {
    // The state after 0 is 12345; 12345 % 10 = 5.
    assert_eq!(lib_random(0, 0, 9), (12345, 5));
    assert_eq!(lib_random(0, 100, 109), (12345, 105));
    // An empty range (hi < lo) wraps the size: 12345 % -1 = 0.
    assert_eq!(lib_random(0, 5, 3), (12345, 5));
    // A zero size gives 0.
    assert_eq!(lib_random(0, 0, -1), (12345, 0));
}

#[test]
fn clip_narrowing() {
    assert_eq!(and_clip([0, 0, 240, 320], 10, 20, 30, 40), [10, 20, 40, 60]);
    assert_eq!(and_clip([0, 0, 240, 320], -10, -20, 30, 40), [0, 0, 20, 20]);
    assert_eq!(and_clip([0, 0, 240, 320], 230, 310, 30, 40), [230, 310, 240, 320]);
    assert_eq!(and_clip([0, 0, 240, 320], 300, 0, 10, 10), [0, 0, 0, 0]);
}

#[test]
fn memory_blocks() {
    let mut b = MemBlock::new(0x1000, 16);
    assert_eq!(b.mb_malloc(5), Some(0x1000));
    assert_eq!(b.ptr, 8);
    assert_eq!(b.mb_malloc(8), Some(0x1008));
    assert_eq!(b.mb_malloc(1), None);
    assert_eq!(b.ptr, 16);
    b.mb_reset();
    assert_eq!(b.mb_malloc(0), Some(0x1000));
    assert_eq!(b.ptr, 0);
}

#[test]
fn text_box_page_lines() {
    assert_eq!(tb_draw_lines(4, 10, 3, 1, 5, 14, 60, 12), vec![(3, 26), (4, 40)]);
    assert_eq!(tb_draw_lines(0, 0, 2, 0, 1, 12, 0, 12), vec![(0, 0)]);
    assert_eq!(tb_draw_lines(0, 0, 0, 0, 4, 12, 0, 12), vec![]);
    assert_eq!(tb_center(30, 100), 35);
    assert_eq!(tb_center(120, 100), 0);
}
