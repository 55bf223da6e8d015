use emucore::container::{detect_endian, load_bytes, parse_multi, parse_res, CbeError, Endian};
use emucore::lz::{decompress, unpack_entry};

fn le(v: u32) -> [u8; 4] {
    v.to_le_bytes()
}

/// An archive (magic 8) holding "a" = "xyz" and "bc" = "12".
fn sample_archive() -> Vec<u8> {
    let mut b = Vec::new();
    b.extend_from_slice(&le(8));
    b.extend_from_slice(&[0; 8]);
    b.extend_from_slice(&le(0x15)); // index size
    b.extend_from_slice(&le(5)); // data size
    b.extend_from_slice(&le(2)); // count
    b.extend_from_slice(&[0; 4]);
    b.extend_from_slice(&le(3)); // offset of the second entry
    b.extend_from_slice(&[1, b'a', 2, b'b', b'c']);
    b.extend_from_slice(b"xyz12");
    b
}

#[test]
fn parses_a_resource_archive() {
    let b = sample_archive();
    assert_eq!(b.len(), 0x2A);
    let a = parse_res(&b, 0, 0x2A, false).unwrap().unwrap();
    assert_eq!(a.count, 2);
    assert_eq!(a.data_off, 0x25);
    assert_eq!(a.data_size, 5);
    assert_eq!(a.names(), vec!["a", "bc"]);
    let e = a.get("bc").unwrap();
    assert_eq!((e.off, e.size), (3, 2));
    assert_eq!(e.data, b"12".to_vec());
    assert_eq!(a.get("a").unwrap().data, b"xyz".to_vec());
    assert!(a.get("zz").is_none());
}

#[test]
fn archive_size_must_add_up() {
    let b = sample_archive();
    assert_eq!(
        parse_res(&b, 0, 0x2B, false).unwrap_err(),
        CbeError::SizeMismatch { data_off: 0x25, data_size: 5, size: 0x2B }
    );
}

#[test]
fn small_or_unknown_archives_are_no_archive() {
    let b = sample_archive();
    assert!(parse_res(&b, 0, 0x1B, false).unwrap().is_none());
    let mut c = b.clone();
    c[0] = 7;
    assert!(parse_res(&c, 0, 0x2A, false).unwrap().is_none());
}

#[test]
fn multi_package_with_one_archive() {
    // count 1, entry "p" at offset 0x12, then a variant archive there.
    let mut b = Vec::new();
    b.extend_from_slice(&[0; 8]);
    b.extend_from_slice(&le(1));
    b.extend_from_slice(&[1, b'p']);
    b.extend_from_slice(&le(0x12));
    assert_eq!(b.len(), 0x12);
    // variant archive: index size, data size, count, pad, one name, data.
    // The name table ends at 0x13, so the index size is 0x0F; nine data bytes
    // make the archive 0x1C bytes long.
    let mut a = Vec::new();
    a.extend_from_slice(&le(0x0F));
    a.extend_from_slice(&le(9));
    a.extend_from_slice(&le(1));
    a.extend_from_slice(&[0; 4]);
    a.extend_from_slice(&[2, b'q', b'r']);
    a.extend_from_slice(b"zzzzzzzzz");
    assert_eq!(a.len(), 0x1C);
    let size = b.len() + a.len();
    b.extend_from_slice(&a);
    let p = parse_multi(&b, 0, size).unwrap();
    assert_eq!(p.len(), 1);
    assert_eq!(p[0].0, "p");
    assert_eq!(p[0].1.names(), vec!["qr"]);
    assert_eq!(p[0].1.get("qr").unwrap().data, b"zzzzzzzzz".to_vec());
}

#[test]
fn endian_follows_the_return_instructions() {
    let le_code = [0x1E, 0xFF, 0x2F, 0xE1, 0, 0, 0, 0];
    let be_code = [0xE1, 0x2F, 0xFF, 0x1E, 0xE1, 0x2F, 0xFF, 0x1E];
    assert_eq!(detect_endian(&le_code), Endian::Le);
    assert_eq!(detect_endian(&be_code), Endian::Be);
    assert_eq!(detect_endian(&[]), Endian::Le);
    assert_eq!(Endian::Be.as_str(), "BE");
    assert_eq!(Endian::Le.as_str(), "LE");
}

fn be(v: u32) -> [u8; 4] {
    v.to_be_bytes()
}

fn sample_module() -> Vec<u8> {
    let mut d = Vec::new();
    for v in [0x1000u32, 0x20, 0x1020, 0x10, 3] {
        d.extend_from_slice(&be(v));
    }
    d.extend_from_slice(b"abc");
    for v in [4u32, 0x11, 2, 0x22, 0, 0] {
        d.extend_from_slice(&be(v));
    }
    d.extend_from_slice(&[1, 2, 3, 4]);
    d.extend_from_slice(&[5, 6]);
    d.extend_from_slice(&be(0));
    let body = d.len() as u32;
    d.extend_from_slice(&[0; 32]);
    d.extend_from_slice(&be(body));
    d.extend_from_slice(b"CoolBars");
    d
}

#[test]
fn loads_a_minimal_module() {
    let m = load_bytes("m.cbe", sample_module()).unwrap();
    assert_eq!(m.name, "abc");
    assert_eq!(m.path, "m.cbe");
    assert_eq!((m.load_base, m.image_size, m.image_end, m.rw_size), (0x1000, 0x20, 0x1020, 0x10));
    assert_eq!(m.ro, vec![1, 2, 3, 4]);
    assert_eq!(m.rw, vec![5, 6]);
    assert_eq!((m.ro_off, m.rw_off), (47, 51));
    assert_eq!((m.ro_chk, m.rw_chk), (0x11, 0x22));
    assert_eq!(m.endian, Endian::Le);
    assert!(m.res.is_none());
    assert!(m.icons.is_none());
    assert!(m.packages.is_empty());
}

#[test]
fn module_errors() {
    let mut d = sample_module();
    let n = d.len();
    d[n - 1] = b'x';
    assert_eq!(load_bytes("m", d).unwrap_err(), CbeError::NoTrailer);
    assert_eq!(load_bytes("m", b"CoolBars".to_vec()).unwrap_err(), CbeError::TooSmall(8));
    let mut d = sample_module();
    let n = d.len();
    d[n - 12..n - 8].copy_from_slice(&be(1));
    assert_eq!(load_bytes("m", d).unwrap_err(), CbeError::FooterOffset { foot: 1, expected: n - 44 });
}

#[test]
fn lz_literals_and_back_references() {
    assert_eq!(decompress(&[0x83, b'a', b'b', b'c'], 3), b"abc".to_vec());
    assert_eq!(decompress(&[0x81, b'a', 0x06, 0x01], 4), b"aaaa".to_vec());
    // the output stops at its size
    assert_eq!(decompress(&[0x83, b'a', b'b', b'c'], 2), b"abc".to_vec());
    // a reference before the start ends the stream
    assert_eq!(decompress(&[0x81, b'a', 0x06, 0x02], 4), b"a".to_vec());
}

#[test]
fn lz_entries() {
    let e = [2, 0, 0, 0, 4, 0, 0, 0, 3, 0x83, b'a', b'b', b'c'];
    assert_eq!(unpack_entry(&e), Some(b"abc".to_vec()));
    let mut f = e;
    f[0] = 1;
    assert_eq!(unpack_entry(&f), None);
    assert_eq!(unpack_entry(&e[..8]), None);
}
