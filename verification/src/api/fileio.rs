//! File name patterns.
use vstd::prelude::*;
use crate::strs::{lowercased, to_lowercase};
use crate::session::chars_of;
use crate::strs::{latin1, latin1_string, string_push};
use crate::api::text::{gb18030_decode, gb18030_decoded, gb18030_encode, gb18030_encoded, spec_text_width, text_width};
use crate::font::Font;

verus! {

/// Whether the name `s` matches the pattern `p`: `*` matches any run of characters,
/// `?` any one character, anything else itself.
pub open spec fn glob(p: Seq<char>, s: Seq<char>) -> bool
    decreases p.len() + s.len(),
{
    if p.len() == 0 {
        s.len() == 0
    } else if p[0] == '*' {
        glob(p.drop_first(), s) || (s.len() > 0 && glob(p, s.drop_first()))
    } else if p[0] == '?' {
        s.len() > 0 && glob(p.drop_first(), s.drop_first())
    } else {
        s.len() > 0 && s[0] == p[0] && glob(p.drop_first(), s.drop_first())
    }
}

fn go(p: &Vec<char>, i: usize, s: &Vec<char>, j: usize) -> (r: bool)
    requires
        i <= p.len(),
        j <= s.len(),
    ensures
        r == glob(p@.skip(i as int), s@.skip(j as int)),
    decreases (p.len() - i) + (s.len() - j),
{
    let ghost ps = p@.skip(i as int);
    let ghost ss = s@.skip(j as int);
    if i == p.len() {
        return j == s.len();
    }
    assert(ps.drop_first() =~= p@.skip(i + 1));
    assert(j < s.len() ==> ss.drop_first() =~= s@.skip(j + 1));
    if p[i] == '*' {
        go(p, i + 1, s, j) || (j < s.len() && go(p, i, s, j + 1))
    } else if p[i] == '?' {
        j < s.len() && go(p, i + 1, s, j + 1)
    } else {
        j < s.len() && s[j] == p[i] && go(p, i + 1, s, j + 1)
    }
}

/// Whether a file name matches a pattern, ignoring case (see `glob`).
pub fn glob_match(pat: &str, name: &str) -> (r: bool)
    ensures
        r == glob(lowercased(pat@), lowercased(name@)),
{
    let lp = to_lowercase(pat);
    let ln = to_lowercase(name);
    let p = chars_of(lp.as_str());
    let s = chars_of(ln.as_str());
    assert(p@.skip(0) =~= p@);
    assert(s@.skip(0) =~= s@);
    go(&p, 0, &s, 0)
}


// ---------------------------------------------------------------------------
// Wide strings

/// `char::from_u32`: the character with code `i`, or `None` for a surrogate code or
/// one above 0x10FFFF.
pub assume_specification[ core::char::from_u32 ](i: u32) -> (r: Option<char>)
    ensures
        r == (if (0xD800 <= i <= 0xDFFF) || i > 0x10FFFF { None::<char> } else { Some(i as char) }),
;

/// The character a UTF-16 code unit reads as: `?` for a surrogate.
pub open spec fn unit_char(u: u16) -> char {
    if 0xD800 <= u <= 0xDFFF { '?' } else { u as char }
}

/// The position of the first zero unit from `i` on, or the length.
pub open spec fn first_zero_unit(w: Seq<u16>, i: int) -> int
    decreases w.len() - i,
{
    if i < 0 || i >= w.len() { w.len() as int } else if w[i] == 0 { i } else { first_zero_unit(w, i + 1) }
}

/// The wide string held by code units: up to the first zero unit, each unit one
/// character.
pub open spec fn spec_wstr(w: Seq<u16>) -> Seq<char> {
    w.take(first_zero_unit(w, 0)).map_values(|u: u16| unit_char(u))
}

proof fn lemma_first_zero_unit(w: Seq<u16>, i: int)
    requires
        0 <= i <= w.len(),
    ensures
        i <= first_zero_unit(w, i) <= w.len(),
        forall|j: int| i <= j < first_zero_unit(w, i) ==> w[j] != 0,
    decreases w.len() - i,
{
    if i < w.len() && w[i] != 0 {
        lemma_first_zero_unit(w, i + 1);
    }
}

/// The wide string in code units read from memory (see `spec_wstr`).
pub fn wstr(w: &[u16]) -> (r: String)
    ensures
        r@ == spec_wstr(w@),
{
    let mut r = String::new();
    let mut i: usize = 0;
    proof {
        lemma_first_zero_unit(w@, 0);
    }
    while i < w.len() && w[i] != 0
        invariant
            i <= w.len(),
            first_zero_unit(w@, 0) == first_zero_unit(w@, i as int),
            r@ == w@.take(i as int).map_values(|u: u16| unit_char(u)),
        decreases w.len() - i,
    {
        let c = match core::char::from_u32(w[i] as u32) {
            Some(c) => c,
            None => '?',
        };
        string_push(&mut r, c);
        assert(w@.take(i + 1).map_values(|u: u16| unit_char(u)) =~= w@.take(i as int).map_values(|u: u16| unit_char(u)).push(unit_char(w@[i as int])));
        i = i + 1;
    }
    r
}

/// The code unit of a character (its code wrapped to 16 bits) as two bytes in the
/// machine's byte order.
pub open spec fn unit_bytes(c: char, le: bool) -> Seq<u8> {
    let v = (c as u32) % 0x1_0000;
    if le { seq![(v % 256) as u8, (v / 256) as u8] } else { seq![(v / 256) as u8, (v % 256) as u8] }
}

/// The bytes of a wide string as the program sees it: each character's code unit,
/// then a zero unit.
pub open spec fn wide_bytes(s: Seq<char>, le: bool) -> Seq<u8>
    decreases s.len(),
{
    if s.len() == 0 { seq![0u8, 0u8] } else { wide_bytes(s.drop_last(), le).drop_last().drop_last() + unit_bytes(s.last(), le) + seq![0u8, 0u8] }
}

/// The code units of a wide string without the terminator.
pub open spec fn wide_units(s: Seq<char>, le: bool) -> Seq<u8>
    decreases s.len(),
{
    if s.len() == 0 { Seq::empty() } else { wide_units(s.drop_last(), le) + unit_bytes(s.last(), le) }
}

/// The bytes that write `s` as a zero-terminated wide string, and the number of
/// characters written.
pub fn wwrite(s: &str, le: bool) -> (r: (Vec<u8>, usize))
    ensures
        r.0@ == wide_units(s@, le) + seq![0u8, 0u8],
        r.1 == s@.len(),
{
    let cs = chars_of(s);
    let mut b: Vec<u8> = Vec::new();
    let mut i: usize = 0;
    while i < cs.len()
        invariant
            i <= cs.len(),
            cs@ == s@,
            b@ == wide_units(cs@.take(i as int), le),
        decreases cs.len() - i,
    {
        let v = (cs[i] as u32 % 0x1_0000) as u16;
        let lo = (v % 256) as u8;
        let hi = (v / 256) as u8;
        if le {
            b.push(lo);
            b.push(hi);
        } else {
            b.push(hi);
            b.push(lo);
        }
        assert(cs@.take(i + 1).drop_last() =~= cs@.take(i as int));
        assert(b@ =~= wide_units(cs@.take(i + 1), le));
        i = i + 1;
    }
    assert(cs@.take(cs.len() as int) =~= cs@);
    b.push(0);
    b.push(0);
    (b, cs.len())
}

/// Whether a mode string holds `r`, `w` or `a`.
pub open spec fn has_mode_char(m: Seq<char>) -> bool {
    exists|i: int| 0 <= i < m.len() && (m[i] == 'r' || m[i] == 'w' || m[i] == 'a')
}

/// The mode a program opens a file with: `r` for a null pointer; else the bytes at the
/// pointer read as a narrow string (Latin-1) when they hold `r`, `w` or `a`; else the
/// same memory read as a wide string when that does; else `r`.
pub open spec fn spec_open_mode(null: bool, narrow: Seq<u8>, wide: Seq<u16>) -> Seq<char> {
    if null {
        "r"@
    } else if has_mode_char(latin1(narrow)) {
        latin1(narrow)
    } else if has_mode_char(spec_wstr(wide)) {
        spec_wstr(wide)
    } else {
        "r"@
    }
}

fn mode_char_in(m: &String) -> (r: bool)
    ensures
        r == has_mode_char(m@),
{
    let cs = chars_of(m.as_str());
    let mut i: usize = 0;
    while i < cs.len()
        invariant
            i <= cs.len(),
            cs@ == m@,
            forall|j: int| 0 <= j < i ==> !(cs@[j] == 'r' || cs@[j] == 'w' || cs@[j] == 'a'),
        decreases cs.len() - i,
    {
        if cs[i] == 'r' || cs[i] == 'w' || cs[i] == 'a' {
            return true;
        }
        i = i + 1;
    }
    false
}

/// The mode a program opens a file with (see `spec_open_mode`): `null` when the mode
/// pointer is null, `narrow` the zero-terminated bytes there (at most 8), `wide` the
/// code units there (at most 8).
pub fn open_mode(null: bool, narrow: &[u8], wide: &[u16]) -> (r: String)
    ensures
        r@ == spec_open_mode(null, narrow@, wide@),
{
    if null {
        return "r".to_owned();
    }
    let m = latin1_string(narrow);
    if mode_char_in(&m) {
        return m;
    }
    let w = wstr(wide);
    if mode_char_in(&w) {
        w
    } else {
        "r".to_owned()
    }
}

/// The count a conversion keeps: `n` minus one for the terminator, all of `len` when
/// `n` is 0.
pub open spec fn keep_count(len: int, n: int) -> int {
    if n == 0 { len } else if n - 1 < len { if n - 1 > 0 { n - 1 } else { 0 } } else { len }
}

/// The wide string GB18030 bytes convert to, for a buffer of `n` characters (0: no
/// limit), as bytes to write and the character count (see `gb18030_decoded`).
pub fn gb2ucs2(raw: &[u8], n: u32, le: bool) -> (r: (Vec<u8>, usize))
    ensures
        ({
            let s = gb18030_decoded(raw@);
            let t = s.take(keep_count(s.len() as int, n as int));
            r.0@ == wide_units(t, le) + seq![0u8, 0u8] && r.1 == t.len()
        }),
{
    let s = gb18030_decode(raw);
    let cs = chars_of(s.as_str());
    let k: usize = if n == 0 { cs.len() } else if ((n - 1) as usize) < cs.len() { (n - 1) as usize } else { cs.len() };
    let mut t = String::new();
    let mut i: usize = 0;
    while i < k
        invariant
            k <= cs.len(),
            i <= k,
            t@ == cs@.take(i as int),
        decreases k - i,
    {
        string_push(&mut t, cs[i]);
        assert(t@ =~= cs@.take(i + 1));
        i = i + 1;
    }
    wwrite(t.as_str(), le)
}

/// The GB18030 bytes of a wide string, for a buffer of `n` bytes (0: no limit): the
/// bytes to write (zero-terminated) and the count without the terminator.
pub fn ucs2gb(w: &[u16], n: u32) -> (r: (Vec<u8>, u32))
    ensures
        ({
            let b = gb18030_encoded(spec_wstr(w@));
            let t = b.take(keep_count(b.len() as int, n as int));
            r.0@ == t.push(0u8) && r.1 as int == t.len() % 0x1_0000_0000
        }),
{
    let s = wstr(w);
    let b = gb18030_encode(s.as_str());
    let k: usize = if n == 0 { b.len() } else if ((n - 1) as usize) < b.len() { (n - 1) as usize } else { b.len() };
    let mut v: Vec<u8> = Vec::new();
    let mut i: usize = 0;
    while i < k
        invariant
            k <= b.len(),
            i <= k,
            v@ == b@.take(i as int),
        decreases k - i,
    {
        v.push(b[i]);
        assert(v@ =~= b@.take(i + 1));
        i = i + 1;
    }
    v.push(0);
    (v, (k as u64 % 0x1_0000_0000) as u32)
}

/// The width of a wide string drawn in GB18030: by the font when one is loaded, else
/// 8 pixels per byte; `None` when the text is too long to measure (over 64 KiB).
pub fn ucs2_width(f: Option<&Font>, w: &[u16]) -> (r: Option<u32>)
    requires
        match f { Some(fo) => fo.wf(), None => true },
    ensures
        ({
            let b = gb18030_encoded(spec_wstr(w@));
            match r {
                Some(x) => b.len() <= 0x1_0000 && x == match f {
                    Some(fo) => spec_text_width(Some(fo@), b),
                    None => (b.len() * 8) as int,
                },
                None => b.len() > 0x1_0000,
            }
        }),
{
    let s = wstr(w);
    let b = gb18030_encode(s.as_str());
    if b.len() > 0x1_0000 {
        return None;
    }
    match f {
        Some(fo) => Some(text_width(Some(fo), b.as_slice())),
        None => Some((b.len() * 8) as u32),
    }
}

} // verus!
