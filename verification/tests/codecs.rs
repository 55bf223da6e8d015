use emucore::imgcodec::{decode, decode_gif_variant, decode_png, lzw, paeth, png_from_raw, to565, ImgError};

fn chunk(tag: &[u8; 4], body: &[u8]) -> Vec<u8> {
    let mut c = Vec::new();
    c.extend_from_slice(&(body.len() as u32).to_be_bytes());
    c.extend_from_slice(tag);
    c.extend_from_slice(body);
    c.extend_from_slice(&[0, 0, 0, 0]);
    c
}

fn png(w: u32, h: u32, depth: u8, ctype: u8, interlace: u8, extra: &[Vec<u8>], raw: &[u8]) -> Vec<u8> {
    let mut d = vec![0x89, b'P', b'N', b'G', 0x0D, 0x0A, 0x1A, 0x0A];
    let mut ihdr = Vec::new();
    ihdr.extend_from_slice(&w.to_be_bytes());
    ihdr.extend_from_slice(&h.to_be_bytes());
    ihdr.extend_from_slice(&[depth, ctype, 0, 0, interlace]);
    d.extend_from_slice(&chunk(b"IHDR", &ihdr));
    for e in extra {
        d.extend_from_slice(e);
    }
    let z = miniz_oxide::deflate::compress_to_vec_zlib(raw, 6);
    d.extend_from_slice(&chunk(b"IDAT", &z));
    d.extend_from_slice(&chunk(b"IEND", &[]));
    d
}

#[test]
fn rgb565_packing() {
    assert_eq!(to565(0xFF, 0, 0), 0xF800);
    assert_eq!(to565(0, 0xFF, 0), 0x07E0);
    assert_eq!(to565(0, 0, 0xFF), 0x001F);
    assert_eq!(to565(0x12, 0x34, 0x56), 0x11AA);
}

#[test]
fn paeth_picks_the_nearest() {
    assert_eq!(paeth(10, 20, 10), 20);
    assert_eq!(paeth(20, 10, 10), 20);
    assert_eq!(paeth(5, 5, 5), 5);
    assert_eq!(paeth(1, 100, 50), 50);
}

#[test]
fn decodes_an_rgb_png() {
    let d = png(2, 1, 8, 2, 0, &[], &[0, 0xFF, 0, 0, 0, 0, 0xFF]);
    let im = decode_png(&d).unwrap();
    assert_eq!((im.width, im.height), (2, 1));
    assert_eq!(im.rgb565, vec![0xF800, 0x001F]);
    assert!(im.alpha.is_none());
    assert!(im.transparent.is_none());
    assert!(im.index.is_none());
}

#[test]
fn png_filters_are_undone() {
    // grey, two rows: Sub on the first, Up on the second
    let raw = [1, 10, 5, 2, 1, 1];
    let d = png(2, 2, 8, 0, 0, &[], &raw);
    let im = decode_png(&d).unwrap();
    let g = |v: u8| to565(v, v, v);
    assert_eq!(im.rgb565, vec![g(10), g(15), g(11), g(16)]);
}

#[test]
fn png_alpha_and_palette() {
    // RGBA with one transparent pixel
    let d = png(2, 1, 8, 6, 0, &[], &[0, 1, 2, 3, 255, 4, 5, 6, 0]);
    let im = decode_png(&d).unwrap();
    assert_eq!(im.alpha, Some(vec![0, 1]));
    // 1-bit palette: pixels 1, 0, 1
    let plte = chunk(b"PLTE", &[0, 0, 0, 255, 255, 255]);
    let trns = chunk(b"tRNS", &[0]);
    let d = png(3, 1, 1, 3, 0, &[plte, trns], &[0, 0b1010_0000]);
    let im = decode_png(&d).unwrap();
    assert_eq!(im.rgb565, vec![0xFFFF, 0, 0xFFFF]);
    assert_eq!(im.alpha, Some(vec![0, 1, 0]));
}

#[test]
fn png_errors() {
    assert_eq!(decode_png(b"not a png").unwrap_err(), ImgError::NotPng);
    let sig = [0x89, b'P', b'N', b'G', 0x0D, 0x0A, 0x1A, 0x0A];
    assert_eq!(decode_png(&sig).unwrap_err(), ImgError::NoIhdr);
    assert_eq!(decode_png(&png(1, 1, 8, 2, 1, &[], &[0, 0, 0, 0])).unwrap_err(), ImgError::Interlaced);
    assert_eq!(decode_png(&png(1, 1, 8, 5, 0, &[], &[0, 0])).unwrap_err(), ImgError::ColorType(5));
    assert_eq!(decode_png(&png(1, 1, 16, 2, 0, &[], &[0; 7])).unwrap_err(), ImgError::Depth { depth: 16, ctype: 2 });
    assert_eq!(decode_png(&png(1, 1, 8, 0, 0, &[], &[7, 0])).unwrap_err(), ImgError::Filter(7));
    let mut bad = sig.to_vec();
    let mut ihdr = Vec::new();
    ihdr.extend_from_slice(&1u32.to_be_bytes());
    ihdr.extend_from_slice(&1u32.to_be_bytes());
    ihdr.extend_from_slice(&[8, 0, 0, 0, 0]);
    bad.extend_from_slice(&chunk(b"IHDR", &ihdr));
    bad.extend_from_slice(&chunk(b"IDAT", &[1, 2, 3]));
    assert_eq!(decode_png(&bad).unwrap_err(), ImgError::Inflate);
    let mut short = sig.to_vec();
    short.extend_from_slice(&chunk(b"IHDR", &[0; 5]));
    assert_eq!(decode_png(&short).unwrap_err(), ImgError::IhdrTooShort);
}

#[test]
fn raw_png_rows_stop_at_the_data() {
    // two rows declared, one present: the second stays black
    let im = png_from_raw(&[0, 0xFF, 0xFF, 0xFF], 1, 2, 8, 2, &[], &[]).unwrap();
    assert_eq!(im.rgb565, vec![0xFFFF, 0]);
    assert_eq!(png_from_raw(&[], 0, 0, 8, 2, &[], &[]).unwrap().rgb565, Vec::<u16>::new());
}

/// A GIF-variant payload: red/blue palette, a 2 x 1 image of indices 0 and 1.
fn gif() -> Vec<u8> {
    let mut p = vec![0, 0, 0, 0, 0x80, 0, 0, 0xF8, 0x00, 0x00, 0x1F];
    p.extend_from_slice(&[0x2C, 0, 0, 0, 0, 2, 0, 1, 0, 0]);
    p.extend_from_slice(&[2, 2, 0x44, 0x0A, 0, 0x3B]);
    p
}

#[test]
fn decodes_a_gif_variant() {
    let im = decode_gif_variant(&gif()).unwrap();
    assert_eq!((im.width, im.height), (2, 1));
    assert_eq!(im.index, Some(vec![0, 1]));
    assert_eq!(im.rgb565, vec![0xF800, 0x001F]);
    assert!(im.transparent.is_none());
}

#[test]
fn gif_transparency_and_errors() {
    let mut p = vec![0, 0, 0, 0, 0x80, 0, 0, 0xF8, 0x00, 0x00, 0x1F];
    p.extend_from_slice(&[0x21, 0xF9, 4, 1, 0, 0, 1, 0]);
    p.extend_from_slice(&[0x2C, 0, 0, 0, 0, 2, 0, 1, 0, 0]);
    p.extend_from_slice(&[2, 2, 0x44, 0x0A, 0, 0x3B]);
    assert_eq!(decode_gif_variant(&p).unwrap().transparent, Some(1));
    assert_eq!(decode_gif_variant(&[0; 7]).unwrap_err(), ImgError::PayloadTooShort);
    assert_eq!(decode_gif_variant(&[0, 0, 0, 0, 0x80, 0, 5, 0]).unwrap_err(), ImgError::BadPaletteFlag(5));
    assert_eq!(decode_gif_variant(&[0, 0, 0, 0, 0, 0, 0, 0x3B]).unwrap_err(), ImgError::NoImageDescriptor);
}

#[test]
fn decode_by_entry_kind() {
    let raw = [0, 0, 2, 0, 1, 0, 0, 0, 0x34, 0x12, 0x78, 0x56];
    let im = decode(&raw).unwrap();
    assert_eq!((im.width, im.height), (2, 1));
    assert_eq!(im.rgb565, vec![0x1234, 0x5678]);
    let mut g = vec![1];
    g.extend_from_slice(&gif());
    assert_eq!(decode(&g).unwrap().rgb565, vec![0xF800, 0x001F]);
    let mut p = vec![3; 9];
    p.extend_from_slice(&png(2, 1, 8, 2, 0, &[], &[0, 0xFF, 0, 0, 0, 0, 0xFF]));
    assert_eq!(decode(&p).unwrap().rgb565, vec![0xF800, 0x001F]);
    assert!(decode(&[]).is_none());
    assert!(decode(&[9, 1, 2]).is_none());
    assert!(decode(&[3; 9]).is_none());
}

#[test]
fn lzw_with_wide_minimum_code_size() {
    // Minimum code size 12: 13-bit codes clear (4096), 'A' (65), end (4097).
    assert_eq!(lzw(&[0, 48, 8, 4, 64], 12), vec![65]);
}
