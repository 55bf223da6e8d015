use emucore::api::text::rect_layout;
use emucore::api::fileio::{gb2ucs2, open_mode, ucs2_width, ucs2gb, wstr, wwrite};
use emucore::api::printf::{printf_convs, vm_printf};
use emucore::api::std_c::{atoi, compare_bytes, stricmp, strncmp, strnicmp, ucs2_strncmp};

fn fmt(f: &str, args: &[u32], strs: &[&str]) -> String {
    let strs: Vec<Vec<u8>> = strs.iter().map(|s| s.as_bytes().to_vec()).collect();
    String::from_utf8(vm_printf(f.as_bytes(), &args.to_vec(), &strs)).unwrap()
}

#[test]
fn printf_numbers() {
    assert_eq!(fmt("%d|%i|%u", &[0xFFFF_FFFF, 0xFFFF_FFFF, 7], &[]), "-1|4294967295|7");
    assert_eq!(fmt("%d", &[0x8000_0000], &[]), "-2147483648");
    assert_eq!(fmt("%x %X %o", &[255, 255, 8], &[]), "ff FF 10");
    assert_eq!(fmt("%p", &[0x1234], &[]), "0x00001234");
    assert_eq!(fmt("%08x", &[0xABCDEF12], &[]), "abcdef12");
    assert_eq!(fmt("%c%c", &[0x141, 0x42], &[]), "AB");
}

#[test]
fn printf_strings_and_percent() {
    assert_eq!(fmt("name=%s!", &[0x100], &["bob"]), "name=bob!");
    assert_eq!(fmt("%s", &[0], &[""]), "<null>");
    assert_eq!(fmt("100%% %f", &[1], &[]), "100% <f>");
    assert_eq!(fmt("%-5.2s|", &[1], &["xy"]), "xy|");
    assert_eq!(fmt("bad %q end", &[], &[]), "bad %q end");
    assert_eq!(fmt("%.d", &[5], &[]), "%.d");
}

#[test]
fn printf_conversions_taking_arguments() {
    assert_eq!(printf_convs(b"a%db%%c%s%ld"), vec![b'd', b's', b'd']);
    assert!(printf_convs(b"plain").is_empty());
}

#[test]
fn byte_comparisons() {
    assert_eq!(compare_bytes(b"abc", b"abc"), 0);
    assert_eq!(compare_bytes(b"abd", b"abc"), 1);
    assert_eq!(compare_bytes(b"ab", b"abc"), 0xFFFF_FFFF);
    assert_eq!(compare_bytes(b"", b""), 0);
    assert_eq!(strncmp(b"abcX", b"abcY", 3), 0);
    assert_eq!(strncmp(b"abcX", b"abcY", 4), 0xFFFF_FFFF);
    assert_eq!(stricmp(b"HeLLo", b"hello"), 0);
    assert_eq!(stricmp(b"Hello", b"hell"), 1);
    assert_eq!(strnicmp(b"ABCdef", b"abcXYZ", 3), 0);
    assert_eq!(strnicmp(b"ABCdef", b"abcXYZ", 4), 1);
}

#[test]
fn wide_comparisons() {
    let a: Vec<char> = "中文a".chars().collect();
    let b: Vec<char> = "中文b".chars().collect();
    assert_eq!(ucs2_strncmp(&a, &b, 2), 0);
    assert_eq!(ucs2_strncmp(&a, &b, 3), 0xFFFF_FFFF);
    assert_eq!(ucs2_strncmp(&b, &a, 10), 1);
}

#[test]
fn atoi_reads_a_number() {
    assert_eq!(atoi(b"  42xyz"), 42);
    assert_eq!(atoi(b"\t-17"), (-17i32) as u32);
    assert_eq!(atoi(b"+8"), 8);
    assert_eq!(atoi(b"-+8"), 0);
    assert_eq!(atoi(b"abc"), 0);
    assert_eq!(atoi(b""), 0);
    assert_eq!(atoi(b"4294967297"), 1);
    assert_eq!(atoi(b"99999999999999999999"), 0);
    assert_eq!(atoi(b"-9223372036854775808"), 0);
    assert_eq!(atoi(b"9223372036854775807"), 0xFFFF_FFFF);
}

#[test]
fn wide_strings() {
    assert_eq!(wstr(&[0x48, 0x69, 0, 0x41]), "Hi");
    assert_eq!(wstr(&[0x4E2D, 0xD800, 0x41]), "中?A");
    assert_eq!(wstr(&[]), "");
    assert_eq!(wwrite("A中", true), (vec![0x41, 0, 0x2D, 0x4E, 0, 0], 2));
    assert_eq!(wwrite("A中", false), (vec![0, 0x41, 0x4E, 0x2D, 0, 0], 2));
    assert_eq!(wwrite("", true), (vec![0, 0], 0));
}

#[test]
fn open_modes() {
    assert_eq!(open_mode(true, b"w", &[]), "r");
    assert_eq!(open_mode(false, b"wb", &[0x77, 0x62]), "wb");
    assert_eq!(open_mode(false, b"a", &[0x61, 0]), "a");
    // A wide "w": the narrow read stops at the zero high byte.
    assert_eq!(open_mode(false, b"", &[0x77, 0]), "w");
    assert_eq!(open_mode(false, b"x", &[0x78, 0]), "r");
}

#[test]
fn gb_conversions() {
    // "中" is D6 D0 in GB18030.
    assert_eq!(gb2ucs2(b"\xD6\xD0A", 0, true), (vec![0x2D, 0x4E, 0x41, 0, 0, 0], 2));
    assert_eq!(gb2ucs2(b"\xD6\xD0A", 2, true), (vec![0x2D, 0x4E, 0, 0], 1));
    assert_eq!(ucs2gb(&[0x4E2D, 0x41, 0], 0), (vec![0xD6, 0xD0, 0x41, 0], 3));
    assert_eq!(ucs2gb(&[0x4E2D, 0x41, 0], 3), (vec![0xD6, 0xD0, 0], 2));
    assert_eq!(ucs2_width(None, &[0x4E2D, 0x41]), Some(24));
}

#[test]
fn text_in_a_rectangle() {
    assert_eq!(rect_layout(None, b"abcdef", 20, 0, 14), (vec![(0, 2), (2, 4), (4, 6)], (3 << 16) | 20));
    assert_eq!(rect_layout(None, b"abcdef", 20, 30, 14), (vec![(0, 2), (2, 4)], (2 << 16) | 20));
    assert_eq!(rect_layout(None, b"abcdef", 0, 0, 14), (vec![(0, 6)], (1 << 16) | 48));
    assert_eq!(rect_layout(None, b"", 20, 0, 14), (vec![], 0));
    // A two-byte character is never split.
    assert_eq!(rect_layout(None, b"a\xB0\xA1b", 20, 0, 14), (vec![(0, 1), (1, 3), (3, 4)], (3 << 16) | 20));
    let (_, r) = rect_layout(None, b"ab", -5, 0, 14);
    assert_eq!(r & 0xFFFF, 0xFFFB);
}
