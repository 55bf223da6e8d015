//! Text measurement and character sets.
use vstd::prelude::*;
use crate::font::{Font, FontView, spec_glyphs, widths, lemma_width_bound};

verus! {

/// The low 16 bits of `v` as a signed value.
pub open spec fn spec_s16u(v: u32) -> int {
    let m = v % 0x1_0000;
    if m >= 0x8000 { m - 0x1_0000 } else { m as int }
}

/// The low 16 bits of `v` as a signed value.
pub fn s16(v: u32) -> (r: i32)
    ensures
        r == spec_s16u(v),
{
    let m = v & 0xFFFF;
    assert(m == v % 0x1_0000 && (m & 0x8000 != 0 <==> m >= 0x8000)) by (bit_vector)
        requires
            m == v & 0xFFFF,
    ;
    if m & 0x8000 != 0 {
        m as i32 - 0x10000
    } else {
        m as i32
    }
}

/// The number of character cells of GBK text from byte `i` on: a byte from 0x80
/// followed by another byte is a double-width character (two cells).
pub open spec fn spec_gbk_cells(b: Seq<u8>, i: int) -> int
    decreases b.len() - i,
{
    if i < 0 || i >= b.len() {
        0
    } else if b[i] >= 0x80 && i + 1 < b.len() {
        2 + spec_gbk_cells(b, i + 2)
    } else {
        1 + spec_gbk_cells(b, i + 1)
    }
}

proof fn lemma_gbk_cells_bound(b: Seq<u8>, i: int)
    requires
        0 <= i,
    ensures
        0 <= spec_gbk_cells(b, i) <= (if i < b.len() { b.len() - i + 1 } else { 0 }),
    decreases b.len() - i,
{
    if i < b.len() {
        if b[i] >= 0x80 && i + 1 < b.len() {
            lemma_gbk_cells_bound(b, i + 2);
        } else {
            lemma_gbk_cells_bound(b, i + 1);
        }
    }
}

/// The number of character cells of GBK text (see `spec_gbk_cells`).
pub fn gbk_cells(b: &[u8]) -> (r: u32)
    requires
        spec_gbk_cells(b@, 0) <= u32::MAX,
    ensures
        r == spec_gbk_cells(b@, 0),
{
    let mut cells: u32 = 0;
    let mut i: usize = 0;
    while i < b.len()
        invariant
            i <= b.len() + 1,
            spec_gbk_cells(b@, 0) <= u32::MAX,
            spec_gbk_cells(b@, 0) == cells + spec_gbk_cells(b@, i as int),
        decreases b.len() + 1 - i,
    {
        proof {
            if b[i as int] >= 0x80 && i + 1 < b.len() {
                lemma_gbk_cells_bound(b@, i + 2);
            } else {
                lemma_gbk_cells_bound(b@, i + 1);
            }
        }
        if b[i] >= 0x80 && i + 1 < b.len() {
            cells = cells + 2;
            i = i + 2;
        } else {
            cells = cells + 1;
            i = i + 1;
        }
    }
    cells
}

/// The width of GBK text: by the font when one is loaded, else 8 pixels per cell.
pub open spec fn spec_text_width(f: Option<crate::font::FontView>, b: Seq<u8>) -> int {
    match f {
        Some(fv) => widths(spec_glyphs(fv, b, 0)),
        None => spec_gbk_cells(b, 0) * 8,
    }
}

/// The width of GBK text (see `spec_text_width`); text of up to 64 KiB.
pub fn text_width(f: Option<&Font>, b: &[u8]) -> (r: u32)
    requires
        b@.len() <= 0x1_0000,
        match f { Some(fo) => fo.wf(), None => true },
    ensures
        r == spec_text_width(match f { Some(fo) => Some(fo@), None => None }, b@),
{
    match f {
        Some(fo) => {
            proof {
                fo.lemma_wf_sizes();
                lemma_width_bound(fo@, b@, 0);
            }
            fo.width_of(b)
        },
        None => {
            proof {
                lemma_gbk_cells_bound(b@, 0);
            }
            gbk_cells(b) * 8
        },
    }
}

/// What GB18030 decoding (`encoding_rs::GB18030.decode`) yields for a byte string.
pub uninterp spec fn gb18030_decoded(b: Seq<u8>) -> Seq<char>;

/// What GB18030 encoding (`encoding_rs::GB18030.encode`) yields for a string.
pub uninterp spec fn gb18030_encoded(s: Seq<char>) -> Seq<u8>;

/// GB18030 text as a string (`encoding_rs::GB18030.decode`: a leading byte order
/// mark selects UTF-8 or UTF-16 instead, malformed sequences become U+FFFD); the
/// result depends on the bytes alone.
#[verifier::external_body]
pub fn gb18030_decode(b: &[u8]) -> (s: String)
    ensures
        s@ == gb18030_decoded(b@),
{
    encoding_rs::GB18030.decode(b).0.into_owned()
}

/// A string in GB18030 (`encoding_rs::GB18030.encode`); the result depends on the
/// string alone.
#[verifier::external_body]
pub fn gb18030_encode(s: &str) -> (b: Vec<u8>)
    ensures
        b@ == gb18030_encoded(s@),
{
    encoding_rs::GB18030.encode(s).0.into_owned()
}


// ---------------------------------------------------------------------------
// Text in a rectangle

/// The lines of GBK text wrapped in a box `w` wide (0: no wrapping) and `h` high
/// (0: no limit), lines `lh` apart, from byte `i` on, the current line starting at
/// `start` and `cw` wide so far: a character (two bytes from 0x80) that would make a
/// nonempty line wider than the box starts a new line, unless that line would not
/// fit in the box, which ends the text there. Gives the lines (byte ranges), the
/// start of the last line and where the text ends.
pub open spec fn rect_lines(f: Option<FontView>, s: Seq<u8>, w: int, h: int, lh: int, i: int, start: int, cw: int, acc: Seq<(int, int)>) -> (Seq<(int, int)>, int, int)
    decreases s.len() - i,
{
    if i < 0 || i >= s.len() {
        (acc, start, i)
    } else {
        let n: int = if s[i] >= 0x80 && i + 1 < s.len() { 2 } else { 1 };
        let pw = spec_text_width(f, s.subrange(i, i + n));
        if w != 0 && cw + pw > w && i > start {
            if h != 0 && (acc.len() + 1) * lh > h {
                (acc, start, i)
            } else {
                rect_lines(f, s, w, h, lh, i + n, i, pw, acc.push((start, i)))
            }
        } else {
            rect_lines(f, s, w, h, lh, i + n, start, cw + pw, acc)
        }
    }
}

/// The lines drawn for text in a rectangle (see `rect_lines`): the last line too,
/// when it has text and fits.
pub open spec fn spec_rect_layout(f: Option<FontView>, s: Seq<u8>, w: int, h: int, lh: int) -> Seq<(int, int)> {
    let (acc, start, end) = rect_lines(f, s, w, h, lh, 0, 0, 0, Seq::empty());
    if !(h != 0 && (acc.len() + 1) * lh > h) && start < end { acc.push((start, end)) } else { acc }
}

/// What drawing text in a rectangle returns: the number of lines in the high 16
/// bits, the text's full width (at most `w` when `w` is not 0) in the low 16.
pub open spec fn spec_rect_result(nlines: int, full: int, w: int) -> u32 {
    let cap = if w != 0 { w } else { 0xFFFF };
    let m = if full < cap { full } else { cap };
    ((nlines % 0x1_0000) * 0x1_0000 + m % 0x1_0000) as u32
}

proof fn lemma_rect_lines(f: Option<FontView>, s: Seq<u8>, w: int, h: int, lh: int, i: int, start: int, cw: int, acc: Seq<(int, int)>)
    requires
        0 <= start <= i <= s.len(),
    ensures
        ({
            let (a, st, e) = rect_lines(f, s, w, h, lh, i, start, cw, acc);
            &&& acc.len() <= a.len() <= acc.len() + (s.len() - i)
            &&& 0 <= st <= e <= s.len()
        }),
    decreases s.len() - i,
{
    if i < s.len() {
        let n: int = if s[i] >= 0x80 && i + 1 < s.len() { 2 } else { 1 };
        let pw = spec_text_width(f, s.subrange(i, i + n));
        if w != 0 && cw + pw > w && i > start {
            if !(h != 0 && (acc.len() + 1) * lh > h) {
                lemma_rect_lines(f, s, w, h, lh, i + n, i, pw, acc.push((start, i)));
            }
        } else {
            lemma_rect_lines(f, s, w, h, lh, i + n, start, cw + pw, acc);
        }
    }
}

/// The lines drawn for text in a rectangle and the value returned (see
/// `spec_rect_layout` and `spec_rect_result`); `lh` is the line height, the font's
/// hanzi height plus 2, and the line tests are computed without overflow.
pub fn rect_layout(f: Option<&Font>, s: &[u8], w: i32, h: i32, lh: i32) -> (r: (Vec<(usize, usize)>, u32))
    requires
        s@.len() <= 0x1_0000,
        match f { Some(fo) => fo.wf(), None => true },
    ensures
        ({
            let fv = match f { Some(fo) => Some(fo@), None => None };
            let lines = spec_rect_layout(fv, s@, w as int, h as int, lh as int);
            &&& r.0@.len() == lines.len()
            &&& forall|k: int| 0 <= k < lines.len() ==> (#[trigger] r.0@[k]).0 == lines[k].0 && r.0@[k].1 == lines[k].1
            &&& r.1 == spec_rect_result(lines.len() as int, spec_text_width(fv, s@), w as int)
        }),
{
    let ghost fv = match f { Some(fo) => Some(fo@), None => None };
    let ghost target = rect_lines(fv, s@, w as int, h as int, lh as int, 0, 0, 0, Seq::empty());
    proof {
        lemma_rect_lines(fv, s@, w as int, h as int, lh as int, 0, 0, 0, Seq::empty());
    }
    let n = s.len();
    let mut out: Vec<(usize, usize)> = Vec::new();
    let mut start: usize = 0;
    let mut cw: i64 = 0;
    let mut i: usize = 0;
    let ghost mut acc: Seq<(int, int)> = Seq::empty();
    while i < n
        invariant
            n == s@.len() <= 0x1_0000,
            match f { Some(fo) => fo.wf(), None => true },
            fv == match f { Some(fo) => Some(fo@), None => None::<FontView> },
            start <= i <= n,
            0 <= cw <= 510 * i,
            acc.len() <= i,
            out@.len() == acc.len(),
            forall|k: int| 0 <= k < acc.len() ==> (#[trigger] out@[k]).0 == acc[k].0 && out@[k].1 == acc[k].1,
            target == rect_lines(fv, s@, w as int, h as int, lh as int, i as int, start as int, cw as int, acc),
        ensures
            start <= i <= n,
            acc.len() <= i,
            out@.len() == acc.len(),
            forall|k: int| 0 <= k < acc.len() ==> (#[trigger] out@[k]).0 == acc[k].0 && out@[k].1 == acc[k].1,
            target == (acc, start as int, i as int),
        decreases n - i,
    {
        let k: usize = if s[i] >= 0x80 && i + 1 < n { 2 } else { 1 };
        let piece = &s[i..i + k];
        assert(piece@ == s@.subrange(i as int, i + k));
        proof {
            match f {
                Some(fo) => {
                    fo.lemma_wf_sizes();
                    lemma_width_bound(fo@, piece@, 0);
                },
                None => {
                    lemma_gbk_cells_bound(piece@, 0);
                },
            }
        }
        let pw = text_width(f, piece) as i64;
        assert(0 <= pw <= 510);
        assert(cw + pw <= 510 * (i + 1));
        assert(-0x1_0001 * 0x8000_0000 <= (out.len() as int + 1) * (lh as int) <= 0x1_0001 * 0x8000_0000) by (nonlinear_arith)
            requires
                out.len() <= 0x1_0000,
                -0x8000_0000 <= lh <= 0x7FFF_FFFF,
        ;
        if w != 0 && cw + pw > w as i64 && i > start {
            if h != 0 && (out.len() as i64 + 1) * (lh as i64) > h as i64 {
                assert(rect_lines(fv, s@, w as int, h as int, lh as int, i as int, start as int, cw as int, acc) == (acc, start as int, i as int));
                break;
            }
            out.push((start, i));
            proof {
                acc = acc.push((start as int, i as int));
            }
            start = i;
            cw = pw;
        } else {
            cw = cw + pw;
        }
        i = i + k;
    }
    assert(-0x1_0001 * 0x8000_0000 <= (out.len() as int + 1) * (lh as int) <= 0x1_0001 * 0x8000_0000) by (nonlinear_arith)
        requires
            out.len() <= 0x1_0000,
            -0x8000_0000 <= lh <= 0x7FFF_FFFF,
    ;
    if !(h != 0 && (out.len() as i64 + 1) * (lh as i64) > h as i64) && start < i {
        out.push((start, i));
        proof {
            acc = acc.push((start as int, i as int));
        }
    }
    let full = text_width(f, s) as i64;
    let cap: i64 = if w != 0 { w as i64 } else { 0xFFFF };
    let m: i64 = if full < cap { full } else { cap };
    let low: i64 = if m >= 0 {
        m % 0x1_0000
    } else {
        let a = (-m) % 0x1_0000;
        if a == 0 { 0 } else { 0x1_0000 - a }
    };
    assert(low == m as int % 0x1_0000) by (nonlinear_arith)
        requires
            m >= 0 ==> low == m % 0x1_0000,
            m < 0 ==> low == (if (-m) % 0x1_0000 == 0 { 0 } else { 0x1_0000 - (-m) % 0x1_0000 }),
    ;
    let nl: u32 = (out.len() % 0x1_0000) as u32;
    (out, nl * 0x1_0000 + low as u32)
}

/// The text the old library gives for a number `n`: 1 to 10 in full-width GB2312
/// digits, any other number as a full-width 0, ending in a NUL.
pub open spec fn spec_num_to_zhifei(n: u32) -> Seq<u8> {
    let k = if 1 <= n <= 10 { n } else { 0 };
    if k == 0 {
        seq![0xA3u8, 0xB0u8, 0u8]
    } else if k == 10 {
        seq![0xA3u8, 0xB1u8, 0xA3u8, 0xB0u8, 0u8]
    } else {
        seq![0xA3u8, (0xB0 + k) as u8, 0u8]
    }
}

/// The full-width digits of a number (see `spec_num_to_zhifei`).
pub fn num_to_zhifei(n: u32) -> (r: Vec<u8>)
    ensures
        r@ == spec_num_to_zhifei(n),
{
    let k = if 1 <= n && n <= 10 { n } else { 0 };
    let v: Vec<u8> = if k == 0 {
        vec![0xA3, 0xB0, 0]
    } else if k == 10 {
        vec![0xA3, 0xB1, 0xA3, 0xB0, 0]
    } else {
        vec![0xA3, (0xB0 + k) as u8, 0]
    };
    assert(v@ =~= spec_num_to_zhifei(n));
    v
}

} // verus!
