use emucore::api::aps::{aps_security_code, next_rand};
use emucore::api::finds::{find_matches, FindTable};
use emucore::api::oldlib::number_blits;

fn strings(v: &[&str]) -> Vec<String> {
    v.iter().map(|s| s.to_string()).collect()
}

#[test]
fn matches_are_filtered_and_sorted() {
    let names = strings(&["b.sav", "A.SAV", "c.txt", "a.sav"]);
    assert_eq!(find_matches(&names, "*.sav"), strings(&["A.SAV", "a.sav", "b.sav"]));
    assert_eq!(find_matches(&names, "  "), strings(&["A.SAV", "a.sav", "b.sav", "c.txt"]));
    assert_eq!(find_matches(&names, "?.TXT"), strings(&["c.txt"]));
    assert!(find_matches(&names, "*.bin").is_empty());
}

#[test]
fn searches_step_through_their_names() {
    let mut t = FindTable::new();
    assert_eq!(t.find_first(vec![]), None);
    let (first, h) = t.find_first(strings(&["a", "b", "c"])).unwrap();
    assert_eq!((first.as_str(), h), ("a", 1));
    let (first2, h2) = t.find_first(strings(&["x"])).unwrap();
    assert_eq!((first2.as_str(), h2), ("x", 2));
    assert_eq!(t.find_next(h), Some("b".to_string()));
    assert_eq!(t.find_next(h2), None);
    assert_eq!(t.find_next(h), Some("c".to_string()));
    assert_eq!(t.find_next(h), None);
    t.find_close(h);
    assert_eq!(t.find_next(h), None);
    assert_eq!(t.find_next(99), None);
}

#[test]
fn random_generator() {
    assert_eq!(next_rand(0), 12345);
    assert_eq!(next_rand(1), (1103515245u64 + 12345) as u32 & 0x7FFF_FFFF);
}

#[test]
fn security_code_makes_a_record() {
    assert!(aps_security_code(true, 100, 0, None, b"356938035643809").is_none());
    assert!(aps_security_code(false, 0x2A, 0, None, b"356938035643809").is_none());
    let (st, code, rec) = aps_security_code(false, 0x2B, 0, None, b"356938035643809").unwrap();
    assert_eq!(st, 12345);
    let rec = rec.unwrap();
    assert_eq!(rec.len(), 45);
    assert_eq!(rec[0], 0xE9);
    assert_eq!(&rec[1..9], b"00003039");
    assert_eq!(&rec[9..24], b"356938035643809");
    assert_eq!(rec[24], 0);
    assert_eq!(rec[25], b'1');
    assert_eq!(&rec[26..41], b"356938035643809");
    assert_eq!(rec[41], 0);
    assert_eq!(rec[42], b'1');
    assert_eq!(&rec[43..], &[0, 0]);
    assert_eq!(code, rec[1..43].to_vec());
}

#[test]
fn security_code_reuses_a_good_record() {
    let mut stored = vec![0u8; 45];
    stored[0] = 0xE9;
    stored[1..10].copy_from_slice(b"ABCDEFGHI");
    let (st, code, rec) = aps_security_code(false, 0x2B, 0, Some(&stored), b"1").unwrap();
    assert_eq!(st, 12345);
    assert_eq!(code, stored[1..43].to_vec());
    assert!(rec.is_none());
    // Fewer than eight nonzero bytes: a fresh record is made.
    stored[5] = 0;
    let (_, _, rec) = aps_security_code(false, 0x2B, 0, Some(&stored), b"1").unwrap();
    assert!(rec.is_some());
}

#[test]
fn number_layout() {
    // 123 right-aligned at x = 100 with 8-wide digits 2 apart: drawn 3, 2, 1 leftwards.
    assert_eq!(number_blits(123, 8, 2, 100, 0), vec![(24, 120), (16, 110), (8, 100)]);
    assert_eq!(number_blits(0, 8, 2, 100, 2), vec![(0, 92)]);
    assert_eq!(number_blits((-5i32) as u32, 8, 0, 0, 2), vec![(40, -8), (80, -16)]);
    assert_eq!(number_blits(7, 8, 2, 100, 9), vec![(56, 0)]);
    // Centred: total 28 for three digits.
    assert_eq!(number_blits(123, 8, 2, 100, 1), vec![(24, 106), (16, 96), (8, 86)]);
}
