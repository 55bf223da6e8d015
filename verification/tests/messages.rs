use emucore::api::printf::match_spec;
use emucore::container::{parse_res, CbeError};
use emucore::imgcodec::ImgError;

#[test]
fn archive_error_messages() {
    assert_eq!(CbeError::ReadBe(0x1f).message(), "读大端 u32 越界 @0x1f");
    assert_eq!(
        CbeError::SizeMismatch { data_off: 0x20, data_size: 0x100, size: 0x40 }.message(),
        "res archive size mismatch: 0x20+0x100 != 0x40"
    );
    assert_eq!(CbeError::TooSmall(8).message(), "file too small: 8");
    assert_eq!(CbeError::HeaderField { index: 3, at: 0 }.message(), "头部第 3 个字段: 读大端 u32 越界 @0x0");
    assert_eq!(CbeError::NoTrailer.message(), "missing 'CoolBars' trailer — not a CBE module?");
    assert_eq!(CbeError::FooterOffset { foot: 255, expected: 4096 }.message(), "footer offset 0xff != 0x1000");
}

#[test]
fn image_error_messages() {
    assert_eq!(ImgError::BadPaletteFlag(0xAB).message(), "p[6]=0xab，期望 0");
    assert_eq!(ImgError::Depth { depth: 16, ctype: 2 }.message(), "暂不支持 PNG 位深 16 类型 2");
    assert_eq!(ImgError::CodeSize(31).message(), "LZW 最小码长 31 超出范围");
    assert_eq!(ImgError::NotPng.message(), "不是 PNG");
}

#[test]
fn conversion_grammar_examples() {
    assert_eq!(match_spec(b"%-08.3lx", 0), Some((b'x', 8)));
    assert_eq!(match_spec(b"%.d", 0), None);
    assert_eq!(match_spec(b"a%5d", 1), Some((b'd', 3)));
}

#[test]
fn archive_size_mismatch_is_an_error() {
    // Magic 4: index size 0, data size 0, count 1 at 0x08/0x0C/0x10; size 0x20 does not add up.
    let mut b = vec![0u8; 0x40];
    b[0] = 4;
    b[0x10] = 1;
    assert_eq!(
        parse_res(&b, 0, 0x20, false).unwrap_err(),
        CbeError::SizeMismatch { data_off: 0x0C, data_size: 0, size: 0x20 }
    );
}
