use emucore::font::{color_bytes, draw, paint_line, Font};

fn font_file() -> Vec<u8> {
    let mut d = b"CBEF".to_vec();
    d.extend_from_slice(&[0, 0]);
    d.extend_from_slice(&[8, 2, 16, 2]);
    d.extend_from_slice(&128u32.to_le_bytes());
    d.extend_from_slice(&1u32.to_le_bytes());
    let mut ascii = vec![0u8; 256];
    ascii[65 * 2] = 0x81; // 'A': first row has its outer pixels set
    d.extend_from_slice(&ascii);
    d.extend_from_slice(&[0x80, 0x01, 0x00, 0x00]);
    d
}

#[test]
fn loads_a_font_file() {
    let f = Font::load(&font_file()).unwrap();
    assert_eq!((f.aw, f.ah, f.hw, f.hh), (8, 2, 16, 2));
}

#[test]
fn refuses_bad_font_files() {
    let d = font_file();
    assert!(Font::load(&d[..17]).is_none());
    assert!(Font::load(&d[..d.len() - 1]).is_none());
    let mut bad = d.clone();
    bad[0] = b'X';
    assert!(Font::load(&bad).is_none());
}

#[test]
fn glyph_rows_list_set_pixels() {
    let f = Font::load(&font_file()).unwrap();
    assert_eq!(f.glyph_rows(false, 65), vec![vec![0, 7], vec![]]);
    assert_eq!(f.glyph_rows(true, 0), vec![vec![0, 15], vec![]]);
    assert_eq!(f.glyph_rows(true, 1), vec![Vec::<u32>::new(), vec![]]);
    assert_eq!(f.glyph_rows(false, -1), vec![Vec::<u32>::new(), vec![]]);
}

#[test]
fn glyphs_of_gbk_text() {
    let f = Font::load(&font_file()).unwrap();
    assert_eq!(
        f.iter_glyphs(b"\xA1\xA1A\xC8"),
        vec![(true, 0, 16), (false, 65, 8), (false, 0, 8)]
    );
    assert_eq!(f.iter_glyphs(b"\x81\x40"), vec![(true, -1, 16)]);
    assert_eq!(f.iter_glyphs(b"\xB0\xA2"), vec![(true, 15 * 94 + 1, 16)]);
}

#[test]
fn measures_text() {
    let mut f = Font::load(&font_file()).unwrap();
    assert_eq!(f.measure(b"AB"), 16);
    assert_eq!(f.measure(b"\xA1\xA1A"), 24);
    assert_eq!(f.width_of(b""), 0);
    assert_eq!(f.measure(b"ABCD"), 32);
}

#[test]
fn draws_one_glyph() {
    let f = Font::load(&font_file()).unwrap();
    let p = draw(&f, b"A", 0, 0, 240, 320, 240, 0x1000);
    assert_eq!(p.len(), 1);
    assert_eq!((p[0].off, p[0].len, p[0].at.clone()), (0x1000, 16, vec![0, 14]));
}

#[test]
fn draw_clips_to_the_screen() {
    let f = Font::load(&font_file()).unwrap();
    // Four pixels visible at the right edge; only column 0 of the glyph is inside.
    let p = draw(&f, b"A", 236, 1, 240, 320, 240, 0);
    assert_eq!(p.len(), 1);
    assert_eq!((p[0].off, p[0].len, p[0].at.clone()), ((240 + 236) * 2, 8, vec![0]));
    // Entirely below the screen.
    assert!(draw(&f, b"A", 0, 320, 240, 320, 240, 0).is_empty());
    // Starting left of the screen: column 7 lands at x = 3.
    let p = draw(&f, b"A", -4, 0, 240, 320, 240, 0);
    assert_eq!((p[0].off, p[0].len, p[0].at.clone()), (0, 8, vec![6]));
}

#[test]
fn paints_a_line() {
    let mut line = vec![0u8; 16];
    assert!(paint_line(&mut line, &vec![0, 14], (0x12, 0x34)));
    assert_eq!(line[..2], [0x12, 0x34]);
    assert_eq!(line[14..], [0x12, 0x34]);
    assert!(line[2..14].iter().all(|&b| b == 0));
    assert!(!paint_line(&mut line, &vec![], (1, 1)));
}

#[test]
fn colour_byte_order() {
    assert_eq!(color_bytes(0x1234, true), (0x34, 0x12));
    assert_eq!(color_bytes(0x1234, false), (0x12, 0x34));
}
