use emucore::crc::crc32;

#[test]
fn crc32_matches_zlib() {
    assert_eq!(crc32(b""), 0x0000_0000);
    assert_eq!(crc32(b"a"), 0xE8B7_BE43);
    assert_eq!(crc32(b"123456789"), 0xCBF4_3926);
    assert_eq!(crc32(b"CoolBars"), 0xB6A3_0BFB);
}
