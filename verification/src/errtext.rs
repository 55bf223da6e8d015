//! The messages that report why a module, a resource archive or an image could
//! not be read.
use vstd::prelude::*;
use crate::container::CbeError;
use crate::imgcodec::ImgError;
use crate::mem::{hex_digits, hex_digit, spec_hex};
use crate::strs::string_push;

verus! {

/// The decimal digits of `n`, most significant first.
pub open spec fn dec_chars(n: nat) -> Seq<char>
    decreases n,
{
    if n < 10 {
        seq![(48 + n) as u8 as char]
    } else {
        dec_chars(n / 10).push((48 + n % 10) as u8 as char)
    }
}

fn push_dec(s: &mut String, n: u64)
    ensures
        final(s)@ == old(s)@ + dec_chars(n as nat),
    decreases n,
{
    if n >= 10 {
        push_dec(s, n / 10);
    }
    let d = n % 10;
    string_push(s, (48 + d) as u8 as char);
    assert(final(s)@ =~= old(s)@ + dec_chars(n as nat));
}

fn push_hex_digits(s: &mut String, n: u64)
    ensures
        final(s)@ == old(s)@ + hex_digits(n as nat),
    decreases n,
{
    if n >= 16 {
        push_hex_digits(s, n / 16);
    }
    let d = n % 16;
    let c: char = (if d < 10 { 48 + d } else { 87 + d }) as u8 as char;
    string_push(s, c);
    proof {
        if n >= 16 {
            assert(hex_digits(n as nat) == hex_digits((n / 16) as nat).push(hex_digit(d as int)));
        } else {
            assert(hex_digits(n as nat) == seq![hex_digit(n as int)]);
        }
    }
    assert(final(s)@ =~= old(s)@ + hex_digits(n as nat));
}

fn push_hex(s: &mut String, n: u64)
    ensures
        final(s)@ == old(s)@ + spec_hex(n as nat),
{
    string_push(s, '0');
    string_push(s, 'x');
    push_hex_digits(s, n);
    assert(final(s)@ =~= old(s)@ + spec_hex(n as nat));
}

/// `prefix` followed by `n` in hexadecimal (`0x...`).
fn with_hex(prefix: &str, n: u64) -> (r: String)
    ensures
        r@ == prefix@ + spec_hex(n as nat),
{
    let mut s = prefix.to_owned();
    push_hex(&mut s, n);
    s
}

/// The message for a module or archive error.
pub open spec fn cbe_message(e: CbeError) -> Seq<char> {
    match e {
        CbeError::ReadBe(a) => "读大端 u32 越界 @"@ + spec_hex(a as nat),
        CbeError::ReadLe(a) => "读小端 u32 越界 @"@ + spec_hex(a as nat),
        CbeError::SizeMismatch { data_off, data_size, size } => "res archive size mismatch: "@ + spec_hex(data_off as nat)
            + "+"@ + spec_hex(data_size as nat) + " != "@ + spec_hex(size as nat),
        CbeError::NameTableOob(o) => "名字表越界 @"@ + spec_hex(o as nat),
        CbeError::NameOob(o) => "名字越界 @"@ + spec_hex(o as nat),
        CbeError::NameTableEnd { end, expected } => "res name table ends at "@ + spec_hex(end as nat) + ", expected "@
            + spec_hex(expected as nat),
        CbeError::NoTrailer => "missing 'CoolBars' trailer — not a CBE module?"@,
        CbeError::TooSmall(n) => "file too small: "@ + dec_chars(n as nat),
        CbeError::FooterOffset { foot, expected } => "footer offset "@ + spec_hex(foot as nat) + " != "@ + spec_hex(expected as nat),
        CbeError::HeaderField { index, at } => "头部第 "@ + dec_chars(index as nat) + " 个字段: 读大端 u32 越界 @"@ + spec_hex(at as nat),
        CbeError::ModuleNameOob => "模块名越界"@,
        CbeError::RoOob => "RO 段越界"@,
        CbeError::RwOob => "RW 段越界"@,
    }
}

impl CbeError {
    /// The message that reports this error (see `cbe_message`).
    pub fn message(&self) -> (r: String)
        ensures
            r@ == cbe_message(*self),
    {
        match *self {
            CbeError::ReadBe(a) => with_hex("读大端 u32 越界 @", a as u64),
            CbeError::ReadLe(a) => with_hex("读小端 u32 越界 @", a as u64),
            CbeError::SizeMismatch { data_off, data_size, size } => {
                let mut s = with_hex("res archive size mismatch: ", data_off as u64);
                s.append("+");
                push_hex(&mut s, data_size as u64);
                s.append(" != ");
                push_hex(&mut s, size as u64);
                s
            },
            CbeError::NameTableOob(o) => with_hex("名字表越界 @", o as u64),
            CbeError::NameOob(o) => with_hex("名字越界 @", o as u64),
            CbeError::NameTableEnd { end, expected } => {
                let mut s = with_hex("res name table ends at ", end as u64);
                s.append(", expected ");
                push_hex(&mut s, expected as u64);
                s
            },
            CbeError::NoTrailer => "missing 'CoolBars' trailer — not a CBE module?".to_owned(),
            CbeError::TooSmall(n) => {
                let mut s = "file too small: ".to_owned();
                push_dec(&mut s, n as u64);
                s
            },
            CbeError::FooterOffset { foot, expected } => {
                let mut s = with_hex("footer offset ", foot as u64);
                s.append(" != ");
                push_hex(&mut s, expected as u64);
                s
            },
            CbeError::HeaderField { index, at } => {
                let mut s = "头部第 ".to_owned();
                push_dec(&mut s, index as u64);
                s.append(" 个字段: 读大端 u32 越界 @");
                push_hex(&mut s, at as u64);
                s
            },
            CbeError::ModuleNameOob => "模块名越界".to_owned(),
            CbeError::RoOob => "RO 段越界".to_owned(),
            CbeError::RwOob => "RW 段越界".to_owned(),
        }
    }
}

/// The message for an image error.
pub open spec fn img_message(e: ImgError) -> Seq<char> {
    match e {
        ImgError::PayloadTooShort => "载荷太短"@,
        ImgError::BadPaletteFlag(b) => "p[6]="@ + spec_hex(b as nat) + "，期望 0"@,
        ImgError::NoImageDescriptor => "没找到图像描述符"@,
        ImgError::CodeSize(c) => "LZW 最小码长 "@ + dec_chars(c as nat) + " 超出范围"@,
        ImgError::NotPng => "不是 PNG"@,
        ImgError::IhdrTooShort => "IHDR 太短"@,
        ImgError::Interlaced => "暂不支持隔行 PNG"@,
        ImgError::NoIhdr => "PNG 缺少 IHDR"@,
        ImgError::Inflate => "IDAT 解压失败"@,
        ImgError::ColorType(c) => "未知 PNG 颜色类型 "@ + dec_chars(c as nat),
        ImgError::Depth { depth, ctype } => "暂不支持 PNG 位深 "@ + dec_chars(depth as nat) + " 类型 "@ + dec_chars(ctype as nat),
        ImgError::Filter(x) => "未知 PNG 滤波类型 "@ + dec_chars(x as nat),
        ImgError::TooLarge => "图像太大"@,
    }
}

impl ImgError {
    /// The message that reports this error (see `img_message`).
    pub fn message(&self) -> (r: String)
        ensures
            r@ == img_message(*self),
    {
        match *self {
            ImgError::PayloadTooShort => "载荷太短".to_owned(),
            ImgError::BadPaletteFlag(b) => {
                let mut s = with_hex("p[6]=", b as u64);
                s.append("，期望 0");
                s
            },
            ImgError::NoImageDescriptor => "没找到图像描述符".to_owned(),
            ImgError::CodeSize(c) => {
                let mut s = "LZW 最小码长 ".to_owned();
                push_dec(&mut s, c as u64);
                s.append(" 超出范围");
                s
            },
            ImgError::NotPng => "不是 PNG".to_owned(),
            ImgError::IhdrTooShort => "IHDR 太短".to_owned(),
            ImgError::Interlaced => "暂不支持隔行 PNG".to_owned(),
            ImgError::NoIhdr => "PNG 缺少 IHDR".to_owned(),
            ImgError::Inflate => "IDAT 解压失败".to_owned(),
            ImgError::ColorType(c) => {
                let mut s = "未知 PNG 颜色类型 ".to_owned();
                push_dec(&mut s, c as u64);
                s
            },
            ImgError::Depth { depth, ctype } => {
                let mut s = "暂不支持 PNG 位深 ".to_owned();
                push_dec(&mut s, depth as u64);
                s.append(" 类型 ");
                push_dec(&mut s, ctype as u64);
                s
            },
            ImgError::Filter(x) => {
                let mut s = "未知 PNG 滤波类型 ".to_owned();
                push_dec(&mut s, x as u64);
                s
            },
            ImgError::TooLarge => "图像太大".to_owned(),
        }
    }
}

} // verus!
