use emucore::container::{parse_multi, parse_res};
use emucore::api::oldlib::line_ex;
use emucore::audio::midi_duration_ms;
use emucore::lz::decompress;
use emucore::mem::Bump;
use emucore::session::json_str;

#[test]
fn smaller_budget_gives_prefix() {
    let src = [0x83u8, 1, 2, 3, 8, 3];
    let full = decompress(&src, 100);
    assert_eq!(full, vec![1, 2, 3, 1, 2, 3, 1]);
    assert_eq!(decompress(&src, 5), vec![1, 2, 3, 1, 2]);
    assert_eq!(decompress(&src, 2), vec![1, 2, 3]);
    assert_eq!(decompress(&src, 0), vec![]);
    for n in 0..10 {
        let part = decompress(&src, n);
        assert_eq!(&full[..part.len()], &part[..]);
        assert!(part.len() <= n + 126);
    }
}

#[test]
fn live_block_counts() {
    let mut b = Bump::new(0x1000, 0x1000);
    let p = b.allocate(32, "a", true).unwrap();
    assert_eq!(b.live_blocks(), 1);
    let q = b.allocate(16, "b", true).unwrap();
    assert_eq!(b.live_blocks(), 2);
    assert_eq!(b.cur, 0x1000 + 48);
    b.free(p);
    assert_eq!(b.live_blocks(), 1);
    b.free(p);
    assert_eq!(b.live_blocks(), 1);
    b.free(q);
    assert_eq!(b.live_blocks(), 0);
}

#[test]
fn midi_fallback_length() {
    assert_eq!(midi_duration_ms(b"abc"), 1000);
    assert_eq!(midi_duration_ms(b"MThd\0\0\0\x06"), 1000);
}

#[test]
fn line_same_from_either_end() {
    let c = [0, 0, 100, 100];
    let a = line_ex(c, 0, 10, 1, 1, 5, 3);
    assert_eq!(a, line_ex(c, 0, 10, 5, 3, 1, 1));
    assert!(a.len() <= 5);
}

#[test]
fn json_escapes_read_back() {
    assert_eq!(json_str("a\"b\n\u{1}\\"), "\"a\\\"b\\n\\u0001\\\\\"");
}

#[test]
fn small_archives_are_none() {
    assert!(matches!(parse_res(&[0u8; 40], 0, 0x1B, false), Ok(None)));
    let mut b = vec![0u8; 40];
    b[0] = 5;
    assert!(matches!(parse_res(&b, 0, 40, false), Ok(None)));
    assert!(parse_multi(&[0u8; 40], 0, 15).is_none());
}
