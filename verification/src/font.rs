//! The bitmap font: ASCII and GB2312 glyphs read from a CBEF font file, glyph
//! lookup for GBK text, and where text is painted on the screen.
use vstd::prelude::*;

verus! {

/// The mathematical value of a font.
pub struct FontView {
    pub aw: u32,
    pub ah: u32,
    pub hw: u32,
    pub hh: u32,
    pub ascii: Seq<u8>,
    pub hanzi: Seq<u8>,
}

/// A bitmap font: ASCII glyphs `aw` x `ah` and hanzi glyphs `hw` x `hh`, one bit per
/// pixel, rows padded to whole bytes.
pub struct Font {
    pub aw: u32,
    pub ah: u32,
    pub hw: u32,
    pub hh: u32,
    abpr: usize,
    hbpr: usize,
    ascii: Vec<u8>,
    hanzi: Vec<u8>,
}

impl View for Font {
    type V = FontView;

    closed spec fn view(&self) -> FontView {
        FontView { aw: self.aw, ah: self.ah, hw: self.hw, hh: self.hh, ascii: self.ascii@, hanzi: self.hanzi@ }
    }
}

/// Bytes per glyph row `w` pixels wide.
pub open spec fn row_bytes(w: u32) -> int {
    (w as int + 7) / 8
}

/// Little-endian u32 at `at`.
pub open spec fn le32_at(d: Seq<u8>, at: int) -> int {
    d[at] as int + d[at + 1] as int * 0x100 + d[at + 2] as int * 0x1_0000 + d[at + 3] as int * 0x100_0000
}

/// The font in a CBEF font file: the magic `CBEF`, glyph sizes at bytes 6 to 9, the
/// ASCII and hanzi glyph counts (little-endian) at 10 and 14, then the ASCII glyphs
/// and the hanzi glyphs; `None` when the file is too short for any of it.
pub open spec fn spec_font_load(d: Seq<u8>) -> Option<FontView> {
    if d.len() < 18 || d.subrange(0, 4) != seq![0x43u8, 0x42, 0x45, 0x46] {
        None
    } else {
        let (aw, ah, hw, hh) = (d[6] as u32, d[7] as u32, d[8] as u32, d[9] as u32);
        let alen = le32_at(d, 10) * row_bytes(aw) * ah;
        let hlen = le32_at(d, 14) * row_bytes(hw) * hh;
        if 18 + alen > d.len() || 18 + alen + hlen > d.len() {
            None
        } else {
            Some(FontView { aw, ah, hw, hh, ascii: d.subrange(18, 18 + alen), hanzi: d.subrange(18 + alen, 18 + alen + hlen) })
        }
    }
}

/// Whether pixel `x` of the glyph row starting at byte `at` is set (most significant
/// bit first).
pub open spec fn pixel_set(buf: Seq<u8>, at: int, x: int) -> bool {
    (buf[at + x / 8] >> ((7 - x % 8) as u8)) & 1u8 == 1u8
}

/// The set pixels among the first `n` of the glyph row starting at `at`, in order.
pub open spec fn row_cols(buf: Seq<u8>, at: int, n: nat) -> Seq<u32>
    decreases n,
{
    if n == 0 {
        Seq::empty()
    } else {
        let r = row_cols(buf, at, (n - 1) as nat);
        if pixel_set(buf, at, n - 1) { r.push((n - 1) as u32) } else { r }
    }
}

/// The set pixels of each row of glyph `idx` (hanzi or ASCII); all rows are empty
/// for a glyph the font does not hold.
pub open spec fn spec_glyph_rows(f: FontView, is_hanzi: bool, idx: i32) -> Seq<Seq<u32>> {
    let (w, h, buf) = if is_hanzi { (f.hw, f.hh, f.hanzi) } else { (f.aw, f.ah, f.ascii) };
    let bpr = row_bytes(w);
    let base = idx * bpr * h;
    if idx >= 0 && base + bpr * h <= buf.len() {
        Seq::new(h as nat, |y: int| row_cols(buf, base + y * bpr, w as nat))
    } else {
        Seq::new(h as nat, |y: int| Seq::<u32>::empty())
    }
}

/// The glyphs of GBK text from byte `i` on: a GB2312 pair (both bytes from 0xA1)
/// is hanzi glyph `row * 94 + col`, another double-byte character has no glyph
/// (-1), and a single byte is its ASCII glyph (0 above 127); each with its width.
pub open spec fn spec_glyphs(f: FontView, b: Seq<u8>, i: int) -> Seq<(bool, i32, u32)>
    decreases b.len() - i,
{
    if i < 0 || i >= b.len() {
        Seq::empty()
    } else {
        let c = b[i];
        if c >= 0xA1 && i + 1 < b.len() && b[i + 1] >= 0xA1 {
            seq![(true, ((c - 0xA1) * 94 + (b[i + 1] - 0xA1)) as i32, f.hw)] + spec_glyphs(f, b, i + 2)
        } else if c >= 0x80 && i + 1 < b.len() {
            seq![(true, -1i32, f.hw)] + spec_glyphs(f, b, i + 2)
        } else {
            seq![(false, if c < 128 { c as i32 } else { 0i32 }, f.aw)] + spec_glyphs(f, b, i + 1)
        }
    }
}

/// How many bytes of text glyphs stand for: two for a double-byte glyph, one for a
/// single byte.
pub open spec fn glyph_bytes(g: Seq<(bool, i32, u32)>) -> int
    decreases g.len(),
{
    if g.len() == 0 { 0 } else { (if g[0].0 { 2int } else { 1int }) + glyph_bytes(g.drop_first()) }
}

/// The glyphs split the text left to right with nothing left over: a byte below
/// 0x80 is one ASCII glyph, a GB2312 pair (both from 0xA1) one hanzi glyph, any other
/// byte from 0x80 with a byte after it one double-byte glyph without a picture (-1),
/// and a last lone byte from 0x80 one glyph 0; the glyphs account for every byte.
pub proof fn glyph_split_law(f: FontView, b: Seq<u8>, i: int)
    requires
        0 <= i <= b.len(),
    ensures
        glyph_bytes(spec_glyphs(f, b, i)) == b.len() - i,
        i < b.len() ==> spec_glyphs(f, b, i)[0] == (
            if b[i] < 0x80 { (false, b[i] as i32, f.aw) }
            else if i + 1 < b.len() && b[i] >= 0xA1 && b[i + 1] >= 0xA1 { (true, ((b[i] - 0xA1) * 94 + (b[i + 1] - 0xA1)) as i32, f.hw) }
            else if i + 1 < b.len() { (true, -1i32, f.hw) }
            else { (false, 0i32, f.aw) }
        ),
    decreases b.len() - i,
{
    if i < b.len() {
        let c = b[i];
        let n: int = if c >= 0x80 && i + 1 < b.len() { 2 } else { 1 };
        glyph_split_law(f, b, i + n);
        let g = spec_glyphs(f, b, i);
        assert(g.drop_first() =~= spec_glyphs(f, b, i + n));
    }
}

/// The total width of glyphs.
pub open spec fn widths(g: Seq<(bool, i32, u32)>) -> int
    decreases g.len(),
{
    if g.len() == 0 { 0 } else { widths(g.drop_last()) + g.last().2 }
}

impl Font {
    /// Whether the row sizes kept with the font match its glyph widths.
    pub closed spec fn wf(&self) -> bool {
        &&& self.abpr as int == row_bytes(self.aw)
        &&& self.hbpr as int == row_bytes(self.hw)
        &&& self.aw <= 255 && self.ah <= 255 && self.hw <= 255 && self.hh <= 255
    }

    /// A font that keeps its invariant has glyphs at most 255 pixels wide and high.
    pub proof fn lemma_wf_sizes(&self)
        requires
            self.wf(),
        ensures
            self@.aw <= 255 && self@.ah <= 255 && self@.hw <= 255 && self@.hh <= 255,
    {
    }

    /// Read a CBEF font file (see `spec_font_load`).
    pub fn load(d: &[u8]) -> (r: Option<Font>)
        ensures
            match r {
                Some(f) => f.wf() && spec_font_load(d@) == Some(f@),
                None => spec_font_load(d@) is None,
            },
    {
        if d.len() < 18 || !(d[0] == 0x43 && d[1] == 0x42 && d[2] == 0x45 && d[3] == 0x46) {
            proof {
                if d.len() >= 18 && d@.subrange(0, 4) == seq![0x43u8, 0x42, 0x45, 0x46] {
                    assert(d@.subrange(0, 4)[0] == d@[0] && d@.subrange(0, 4)[1] == d@[1]);
                    assert(d@.subrange(0, 4)[2] == d@[2] && d@.subrange(0, 4)[3] == d@[3]);
                }
            }
            return None;
        }
        assert(d@.subrange(0, 4) =~= seq![0x43u8, 0x42, 0x45, 0x46]);
        let (aw, ah, hw, hh) = (d[6] as u32, d[7] as u32, d[8] as u32, d[9] as u32);
        let n_ascii: u64 = d[10] as u64 + d[11] as u64 * 0x100 + d[12] as u64 * 0x1_0000 + d[13] as u64 * 0x100_0000;
        let n_hanzi: u64 = d[14] as u64 + d[15] as u64 * 0x100 + d[16] as u64 * 0x1_0000 + d[17] as u64 * 0x100_0000;
        let abpr: u64 = (aw as u64 + 7) / 8;
        let hbpr: u64 = (hw as u64 + 7) / 8;
        assert(n_ascii * abpr <= 0xFFFF_FFFF * 32) by (nonlinear_arith)
            requires
                n_ascii <= 0xFFFF_FFFF,
                abpr <= 32,
        ;
        assert(n_hanzi * hbpr <= 0xFFFF_FFFF * 32) by (nonlinear_arith)
            requires
                n_hanzi <= 0xFFFF_FFFF,
                hbpr <= 32,
        ;
        assert(n_ascii * abpr * ah as u64 <= 0xFFFF_FFFF * 32 * 255) by (nonlinear_arith)
            requires
                n_ascii <= 0xFFFF_FFFF,
                abpr <= 32,
                ah <= 255,
        ;
        assert(n_hanzi * hbpr * hh as u64 <= 0xFFFF_FFFF * 32 * 255) by (nonlinear_arith)
            requires
                n_hanzi <= 0xFFFF_FFFF,
                hbpr <= 32,
                hh <= 255,
        ;
        let alen: u64 = n_ascii * abpr * ah as u64;
        let hlen: u64 = n_hanzi * hbpr * hh as u64;
        if 18 + alen > d.len() as u64 || 18 + alen + hlen > d.len() as u64 {
            return None;
        }
        let a_end = (18 + alen) as usize;
        let h_end = (18 + alen + hlen) as usize;
        let ascii = vstd::slice::slice_to_vec(&d[18..a_end]);
        let hanzi = vstd::slice::slice_to_vec(&d[a_end..h_end]);
        Some(Font { aw, ah, hw, hh, abpr: abpr as usize, hbpr: hbpr as usize, ascii, hanzi })
    }

    /// The set pixels of each row of a glyph (see `spec_glyph_rows`).
    pub fn glyph_rows(&self, is_hanzi: bool, idx: i32) -> (r: Vec<Vec<u32>>)
        requires
            self.wf(),
        ensures
            r@.len() == spec_glyph_rows(self@, is_hanzi, idx).len(),
            forall|y: int| 0 <= y < r@.len() ==> #[trigger] r@[y]@ == spec_glyph_rows(self@, is_hanzi, idx)[y],
    {
        let (w, h, bpr, buf) = if is_hanzi {
            (self.hw, self.hh, self.hbpr, &self.hanzi)
        } else {
            (self.aw, self.ah, self.abpr, &self.ascii)
        };
        let ghost g = spec_glyph_rows(self@, is_hanzi, idx);
        let mut out: Vec<Vec<u32>> = Vec::new();
        let present: bool;
        let mut base: u64 = 0;
        if idx >= 0 {
            assert(idx as u64 * bpr as u64 <= 0x7FFF_FFFF * 32) by (nonlinear_arith)
                requires
                    0 <= idx <= 0x7FFF_FFFF,
                    bpr <= 32,
            ;
            assert(idx as u64 * bpr as u64 * h as u64 <= 0x7FFF_FFFF * 32 * 255) by (nonlinear_arith)
                requires
                    0 <= idx <= 0x7FFF_FFFF,
                    bpr <= 32,
                    h <= 255,
            ;
            base = idx as u64 * bpr as u64 * h as u64;
            assert(bpr as u64 * h as u64 <= 32 * 255) by (nonlinear_arith)
                requires
                    bpr <= 32,
                    h <= 255,
            ;
            present = base + bpr as u64 * h as u64 <= buf.len() as u64;
        } else {
            present = false;
        }
        let mut y: u32 = 0;
        while y < h
            invariant
                y <= h,
                h <= 255,
                bpr <= 32,
                bpr as int == row_bytes(w),
                g == spec_glyph_rows(self@, is_hanzi, idx),
                buf@ == (if is_hanzi { self@.hanzi } else { self@.ascii }),
                w == (if is_hanzi { self@.hw } else { self@.aw }),
                h == (if is_hanzi { self@.hh } else { self@.ah }),
                present == (idx >= 0 && base + bpr * h <= buf.len()),
                idx >= 0 ==> base == idx * bpr * h,
                out@.len() == y,
                g.len() == h,
                forall|k: int| 0 <= k < y ==> #[trigger] out@[k]@ == g[k],
            decreases h - y,
        {
            let mut cols: Vec<u32> = Vec::new();
            if present {
                assert(y as int * bpr + bpr <= bpr * h) by (nonlinear_arith)
                    requires
                        y < h,
                ;
                let at = base as usize + y as usize * bpr;
                let mut x: u32 = 0;
                while x < w
                    invariant
                        x <= w,
                        bpr as int == row_bytes(w),
                        at + bpr <= buf.len(),
                        cols@ == row_cols(buf@, at as int, x as nat),
                    decreases w - x,
                {
                    let byte = buf[at + (x / 8) as usize];
                    let bit = (byte >> ((7 - x % 8) as u8)) & 1u8;
                    if bit == 1u8 {
                        cols.push(x);
                    }
                    x = x + 1;
                }
                assert(at as int == base + y * bpr);
            }
            out.push(cols);
            y = y + 1;
        }
        out
    }

    /// The glyphs of GBK text (see `spec_glyphs`).
    pub fn iter_glyphs(&self, b: &[u8]) -> (r: Vec<(bool, i32, u32)>)
        ensures
            r@ == spec_glyphs(self@, b@, 0),
    {
        let mut out: Vec<(bool, i32, u32)> = Vec::new();
        let n = b.len();
        let mut i: usize = 0;
        while i < n
            invariant
                n == b.len(),
                i <= n,
                spec_glyphs(self@, b@, 0) == out@ + spec_glyphs(self@, b@, i as int),
            decreases n - i,
        {
            let c = b[i];
            let ghost rest = spec_glyphs(self@, b@, i as int);
            if c >= 0xA1 && i + 1 < n && b[i + 1] >= 0xA1 {
                let hi = (c - 0xA1) as i32;
                let lo = (b[i + 1] - 0xA1) as i32;
                out.push((true, hi * 94 + lo, self.hw));
                i = i + 2;
            } else if c >= 0x80 && i + 1 < n {
                out.push((true, -1, self.hw));
                i = i + 2;
            } else {
                out.push((false, if c < 128 { c as i32 } else { 0 }, self.aw));
                i = i + 1;
            }
            assert(spec_glyphs(self@, b@, 0) =~= out@ + spec_glyphs(self@, b@, i as int));
        }
        out
    }

    /// The width of GBK text in pixels.
    pub fn width_of(&self, b: &[u8]) -> (w: u32)
        requires
            widths(spec_glyphs(self@, b@, 0)) <= u32::MAX,
        ensures
            w == widths(spec_glyphs(self@, b@, 0)),
    {
        let g = self.iter_glyphs(b);
        let mut total: u32 = 0;
        let mut i: usize = 0;
        proof {
            lemma_widths_prefix(g@, g@.len() as int);
            assert(g@.take(g@.len() as int) =~= g@);
        }
        while i < g.len()
            invariant
                i <= g.len(),
                total == widths(g@.take(i as int)),
                widths(g@) <= u32::MAX,
                forall|k: int| 0 <= k <= g@.len() ==> #[trigger] widths(g@.take(k)) <= widths(g@),
            decreases g.len() - i,
        {
            assert(g@.take(i + 1).drop_last() =~= g@.take(i as int));
            assert(widths(g@.take(i + 1)) <= widths(g@));
            total = total + g[i].2;
            i = i + 1;
        }
        assert(g@.take(g.len() as int) =~= g@);
        total
    }

    /// The width of GBK text in pixels.
    pub fn measure(&mut self, b: &[u8]) -> (w: u32)
        requires
            widths(spec_glyphs(old(self)@, b@, 0)) <= u32::MAX,
        ensures
            w == widths(spec_glyphs(old(self)@, b@, 0)),
            final(self)@ == old(self)@,
    {
        self.width_of(b)
    }
}

/// Text of `n` bytes is at most `n` glyphs of at most 255 pixels.
pub proof fn lemma_width_bound(f: FontView, b: Seq<u8>, i: int)
    requires
        f.aw <= 255,
        f.hw <= 255,
        0 <= i,
    ensures
        widths(spec_glyphs(f, b, i)) <= 255 * (if i < b.len() { b.len() - i } else { 0 }),
    decreases b.len() - i,
{
    if i < b.len() {
        let c = b[i];
        let n = if (c >= 0xA1 && i + 1 < b.len() && b[i + 1] >= 0xA1) || (c >= 0x80 && i + 1 < b.len()) { i + 2 } else { i + 1 };
        lemma_width_bound(f, b, n);
        lemma_widths_cons(spec_glyphs(f, b, i)[0], spec_glyphs(f, b, n));
        assert(spec_glyphs(f, b, i) == seq![spec_glyphs(f, b, i)[0]] + spec_glyphs(f, b, n));
    }
}

proof fn lemma_widths_cons(x: (bool, i32, u32), g: Seq<(bool, i32, u32)>)
    ensures
        widths(seq![x] + g) == x.2 + widths(g),
    decreases g.len(),
{
    if g.len() > 0 {
        lemma_widths_cons(x, g.drop_last());
        assert((seq![x] + g).drop_last() =~= seq![x] + g.drop_last());
        assert((seq![x] + g).last() == g.last());
    } else {
        assert(seq![x] + g =~= seq![x]);
        assert(seq![x].drop_last() =~= Seq::<(bool, i32, u32)>::empty());
        assert(widths(Seq::<(bool, i32, u32)>::empty()) == 0);
        assert(widths(seq![x]) == widths(seq![x].drop_last()) + seq![x].last().2);
    }
}

proof fn lemma_widths_prefix(g: Seq<(bool, i32, u32)>, n: int)
    requires
        0 <= n <= g.len(),
    ensures
        forall|k: int| 0 <= k <= n ==> #[trigger] widths(g.take(k)) <= widths(g.take(n)),
    decreases n,
{
    if n > 0 {
        lemma_widths_prefix(g, n - 1);
        assert(g.take(n).drop_last() =~= g.take(n - 1));
    }
    assert(g.take(n) =~= g.take(n));
}

// ---------------------------------------------------------------------------
// Painting text

/// The bytes of an RGB565 colour in the machine's byte order.
pub fn color_bytes(color: u16, le: bool) -> (r: (u8, u8))
    ensures
        r == (if le { ((color % 256) as u8, (color / 256) as u8) } else { ((color / 256) as u8, (color % 256) as u8) }),
{
    if le {
        ((color % 256) as u8, (color / 256) as u8)
    } else {
        ((color / 256) as u8, (color % 256) as u8)
    }
}

/// One glyph row to paint into one framebuffer line: the line's `len` bytes at address
/// `off`, and the byte offsets within it of the pixels to set.
#[derive(Debug, Clone)]
pub struct LinePaint {
    pub off: u32,
    pub len: u64,
    pub at: Vec<usize>,
}

/// The mathematical value of a `LinePaint`.
pub struct PaintView {
    pub off: u32,
    pub len: int,
    pub at: Seq<usize>,
}

impl View for LinePaint {
    type V = PaintView;

    open spec fn view(&self) -> PaintView {
        PaintView { off: self.off, len: self.len as int, at: self.at@ }
    }
}

/// The values of a list of line paints.
pub open spec fn paints_view(s: Seq<LinePaint>) -> Seq<PaintView> {
    s.map_values(|p: LinePaint| p@)
}

/// The byte offsets, within the clipped line `x0..x1`, of the set pixels `cols` of a
/// glyph row drawn at `x` (the first `n` of them).
pub open spec fn row_hits(cols: Seq<u32>, n: int, x: int, x0: int, x1: int) -> Seq<usize>
    decreases n,
{
    if n <= 0 || n > cols.len() {
        Seq::empty()
    } else {
        let r = row_hits(cols, n - 1, x, x0, x1);
        let px = x + cols[n - 1];
        if x0 <= px < x1 { r.push(((px - x0) * 2) as usize) } else { r }
    }
}

/// The line paints for the rows of a glyph from row `dy` on, drawn at (`x`, `y`) and
/// `w` wide on a `sw` x `sh` screen whose lines are `stride` pixels apart from `buf`:
/// rows without pixels or off the screen are skipped, others clipped to the screen.
pub open spec fn paint_rows(rows: Seq<Seq<u32>>, dy: int, x: int, w: int, y: int, sw: int, sh: int, stride: u32, buf: u32, acc: Seq<PaintView>) -> Seq<PaintView>
    decreases rows.len() - dy,
{
    if dy < 0 || dy >= rows.len() {
        acc
    } else {
        let cols = rows[dy];
        let yy = y + dy;
        let x0 = if x > 0 { x } else { 0 };
        let x1 = if x + w < sw { x + w } else { sw };
        let acc2 = if cols.len() == 0 || yy < 0 || yy >= sh || x1 <= x0 {
            acc
        } else {
            acc.push(PaintView {
                off: ((buf + (yy * stride + x0) * 2) % 0x1_0000_0000) as u32,
                len: (x1 - x0) * 2,
                at: row_hits(cols, cols.len() as int, x, x0, x1),
            })
        };
        paint_rows(rows, dy + 1, x, w, y, sw, sh, stride, buf, acc2)
    }
}

/// The line paints for the glyphs from the `k`-th on, the first drawn at `x`: glyphs
/// without a bitmap or starting right of the screen only advance the pen.
pub open spec fn paint_glyphs(f: FontView, g: Seq<(bool, i32, u32)>, k: int, x: int, y: int, sw: int, sh: int, stride: u32, buf: u32, acc: Seq<PaintView>) -> Seq<PaintView>
    decreases g.len() - k,
{
    if k < 0 || k >= g.len() {
        acc
    } else {
        let (is_h, idx, w) = g[k];
        let acc2 = if idx < 0 || x >= sw {
            acc
        } else {
            paint_rows(spec_glyph_rows(f, is_h, idx), 0, x, w as int, y, sw, sh, stride, buf, acc)
        };
        paint_glyphs(f, g, k + 1, x + w, y, sw, sh, stride, buf, acc2)
    }
}

/// What painting GBK text at (`x`, `y`) touches on a `sw` x `sh` RGB565 screen at
/// `buf` whose lines are `stride` pixels apart.
pub open spec fn spec_draw(f: FontView, text: Seq<u8>, x: int, y: int, sw: int, sh: int, stride: u32, buf: u32) -> Seq<PaintView> {
    paint_glyphs(f, spec_glyphs(f, text, 0), 0, x, y, sw, sh, stride, buf, Seq::empty())
}

fn hits(cols: &Vec<u32>, x: i128, x0: i128, x1: i128) -> (r: Vec<usize>)
    requires
        0 <= x0 <= x1 <= 0xFFFF_FFFF,
        -0x1_0000_0000_0000_0000_0000 <= x <= 0x1_0000_0000_0000_0000_0000,
    ensures
        r@ == row_hits(cols@, cols@.len() as int, x as int, x0 as int, x1 as int),
{
    let mut r: Vec<usize> = Vec::new();
    let mut i: usize = 0;
    while i < cols.len()
        invariant
            i <= cols.len(),
            0 <= x0 <= x1 <= 0xFFFF_FFFF,
            -0x1_0000_0000_0000_0000_0000 <= x <= 0x1_0000_0000_0000_0000_0000,
            r@ == row_hits(cols@, i as int, x as int, x0 as int, x1 as int),
        decreases cols.len() - i,
    {
        let px: i128 = x + cols[i] as i128;
        if x0 <= px && px < x1 {
            r.push(((px - x0) * 2) as usize);
        }
        i = i + 1;
    }
    r
}

fn paint_glyph(rows: &Vec<Vec<u32>>, x: i128, w: u32, y: i32, sw: u32, sh: u32, stride: u32, buf: u32, out: &mut Vec<LinePaint>)
    requires
        -0x1_0000_0000_0000_0000_0000 <= x <= 0x1_0000_0000_0000_0000_0000,
    ensures
        paints_view(final(out)@) == paint_rows(rows_view(rows@), 0, x as int, w as int, y as int, sw as int, sh as int, stride, buf, paints_view(old(out)@)),
{
    let ghost target = paint_rows(rows_view(rows@), 0, x as int, w as int, y as int, sw as int, sh as int, stride, buf, paints_view(out@));
    let mut dy: usize = 0;
    while dy < rows.len()
        invariant
            dy <= rows.len(),
            -0x1_0000_0000_0000_0000_0000 <= x <= 0x1_0000_0000_0000_0000_0000,
            target == paint_rows(rows_view(rows@), 0, x as int, w as int, y as int, sw as int, sh as int, stride, buf, paints_view(old(out)@)),
            target == paint_rows(rows_view(rows@), dy as int, x as int, w as int, y as int, sw as int, sh as int, stride, buf, paints_view(out@)),
        decreases rows.len() - dy,
    {
        let cols = &rows[dy];
        let yy: i128 = y as i128 + dy as i128;
        let x0: i128 = if x > 0 { x } else { 0 };
        let x1: i128 = if x + (w as i128) < sw as i128 { x + w as i128 } else { sw as i128 };
        let ghost acc0 = paints_view(out@);
        if !(cols.len() == 0 || yy < 0 || yy >= sh as i128 || x1 <= x0) {
            assert((yy as u64) * (stride as u64) <= 0xFFFF_FFFF * 0xFFFF_FFFF) by (nonlinear_arith)
                requires
                    0 <= yy <= 0xFFFF_FFFF,
                    stride <= 0xFFFF_FFFF,
            ;
            let v: u64 = (yy as u64) * (stride as u64) + x0 as u64;
            let off128: u128 = buf as u128 + (v as u128) * 2;
            let off: u32 = (off128 % 0x1_0000_0000) as u32;
            let at = hits(cols, x, x0, x1);
            out.push(LinePaint { off, len: ((x1 - x0) * 2) as u64, at });
            assert(paints_view(out@) =~= acc0.push(PaintView {
                off: ((buf + (yy * stride + x0) * 2) % 0x1_0000_0000) as u32,
                len: (x1 - x0) * 2,
                at: row_hits(cols@, cols@.len() as int, x as int, x0 as int, x1 as int),
            }));
        }
        assert(rows_view(rows@)[dy as int] == cols@);
        dy = dy + 1;
    }
}

/// The values of glyph rows.
pub open spec fn rows_view(r: Seq<Vec<u32>>) -> Seq<Seq<u32>> {
    r.map_values(|v: Vec<u32>| v@)
}

/// What painting GBK text touches on the screen (see `spec_draw`), in the order of
/// the glyphs and their rows; the caller reads each line, sets the listed pixels to
/// the colour (see `color_bytes`), and writes back the lines that changed.
pub fn draw(f: &Font, text: &[u8], x: i32, y: i32, sw: u32, sh: u32, stride: u32, buf: u32) -> (r: Vec<LinePaint>)
    requires
        f.wf(),
    ensures
        paints_view(r@) == spec_draw(f@, text@, x as int, y as int, sw as int, sh as int, stride, buf),
{
    let g = f.iter_glyphs(text);
    let ghost target = spec_draw(f@, text@, x as int, y as int, sw as int, sh as int, stride, buf);
    let mut out: Vec<LinePaint> = Vec::new();
    let mut px: i128 = x as i128;
    let mut k: usize = 0;
    assert(paints_view(out@) =~= Seq::<PaintView>::empty());
    proof {
        lemma_glyph_widths(f@, text@, 0);
    }
    while k < g.len()
        invariant
            k <= g.len(),
            f.wf(),
            g@ == spec_glyphs(f@, text@, 0),
            target == paint_glyphs(f@, g@, k as int, px as int, y as int, sw as int, sh as int, stride, buf, paints_view(out@)),
            -0x8000_0000 + 0 <= px <= 0x7FFF_FFFF + k * 0xFF,
            forall|j: int| 0 <= j < g@.len() ==> #[trigger] g@[j].2 <= 0xFF,
        decreases g.len() - k,
    {
        let (is_h, idx, w) = g[k];
        if !(idx < 0 || px >= sw as i128) {
            let rows = f.glyph_rows(is_h, idx);
            assert(rows_view(rows@) =~= spec_glyph_rows(f@, is_h, idx));
            paint_glyph(&rows, px, w, y, sw, sh, stride, buf, &mut out);
        }
        px = px + w as i128;
        k = k + 1;
    }
    out
}

/// The byte of a line after the pixels at the first `n` offsets of `at` are set to `c`.
pub open spec fn painted_byte(old_b: u8, at: Seq<usize>, n: int, i: int, c: (u8, u8)) -> u8 {
    if exists|j: int| 0 <= j < n && at[j] == i {
        c.0
    } else if exists|j: int| 0 <= j < n && at[j] + 1 == i {
        c.1
    } else {
        old_b
    }
}

/// Set the pixels at the listed (even) byte offsets of a framebuffer line to the
/// colour `c`; whether anything was set.
pub fn paint_line(line: &mut Vec<u8>, at: &Vec<usize>, c: (u8, u8)) -> (dirty: bool)
    requires
        forall|j: int| 0 <= j < at@.len() ==> #[trigger] at@[j] % 2 == 0 && at@[j] + 1 < old(line)@.len(),
    ensures
        dirty == (at@.len() > 0),
        final(line)@.len() == old(line)@.len(),
        forall|i: int| 0 <= i < old(line)@.len() ==> #[trigger] final(line)@[i] == painted_byte(old(line)@[i], at@, at@.len() as int, i, c),
{
    let ghost l0 = line@;
    let mut j: usize = 0;
    while j < at.len()
        invariant
            j <= at.len(),
            line@.len() == l0.len(),
            forall|t: int| 0 <= t < at@.len() ==> #[trigger] at@[t] % 2 == 0 && at@[t] + 1 < l0.len(),
            forall|i: int| 0 <= i < l0.len() ==> #[trigger] line@[i] == painted_byte(l0[i], at@, j as int, i, c),
        decreases at.len() - j,
    {
        let k = at[j];
        line.set(k, c.0);
        line.set(k + 1, c.1);
        assert forall|i: int| 0 <= i < l0.len() implies #[trigger] line@[i] == painted_byte(l0[i], at@, j + 1, i, c) by {
            if i == k {
                assert(at@[j as int] == i);
            } else if i == k + 1 {
                assert(at@[j as int] + 1 == i);
                assert forall|t: int| 0 <= t < j + 1 implies at@[t] != i by {
                    assert(at@[t] % 2 == 0);
                }
            } else {
                assert((exists|t: int| 0 <= t < j + 1 && at@[t] == i) == (exists|t: int| 0 <= t < j && at@[t] == i)) by {
                    if exists|t: int| 0 <= t < j + 1 && at@[t] == i {
                        let t = choose|t: int| 0 <= t < j + 1 && at@[t] == i;
                        assert(t != j);
                    }
                }
                assert((exists|t: int| 0 <= t < j + 1 && at@[t] + 1 == i) == (exists|t: int| 0 <= t < j && at@[t] + 1 == i)) by {
                    if exists|t: int| 0 <= t < j + 1 && at@[t] + 1 == i {
                        let t = choose|t: int| 0 <= t < j + 1 && at@[t] + 1 == i;
                        assert(t != j);
                    }
                }
            }
        }
        j = j + 1;
    }
    at.len() > 0
}

proof fn lemma_glyph_widths(f: FontView, b: Seq<u8>, i: int)
    ensures
        forall|j: int| 0 <= j < spec_glyphs(f, b, i).len() ==> #[trigger] spec_glyphs(f, b, i)[j].2 == f.aw || spec_glyphs(f, b, i)[j].2 == f.hw,
    decreases b.len() - i,
{
    if 0 <= i < b.len() {
        let c = b[i];
        let n = if (c >= 0xA1 && i + 1 < b.len() && b[i + 1] >= 0xA1) || (c >= 0x80 && i + 1 < b.len()) { i + 2 } else { i + 1 };
        lemma_glyph_widths(f, b, n);
        let g = spec_glyphs(f, b, i);
        let rest = spec_glyphs(f, b, n);
        assert forall|j: int| 0 <= j < g.len() implies #[trigger] g[j].2 == f.aw || g[j].2 == f.hw by {
            if j > 0 {
                assert(g[j] == rest[j - 1]);
            }
        }
    }
}


/// The glyph sizes text layout works with: ASCII width, hanzi width and height.
#[derive(Clone, Copy, Debug, PartialEq, Eq, Structural)]
pub struct FontMetrics {
    pub aw: u32,
    pub hw: u32,
    pub hh: u32,
}

impl Default for FontMetrics {
    /// The sizes used before a font is loaded: 6-pixel ASCII, 12 x 12 hanzi.
    fn default() -> (m: FontMetrics)
        ensures
            m == (FontMetrics { aw: 6, hw: 12, hh: 12 }),
    {
        FontMetrics { aw: 6, hw: 12, hh: 12 }
    }
}

impl FontMetrics {
    /// The sizes of a loaded font.
    pub fn of_font(f: &Font) -> (m: FontMetrics)
        ensures
            m == (FontMetrics { aw: f@.aw, hw: f@.hw, hh: f@.hh }),
    {
        FontMetrics { aw: f.aw, hw: f.hw, hh: f.hh }
    }
}

} // verus!

verus! {

/// The paints of glyph `k` alone, drawn at `xk`: none for a glyph without a bitmap or
/// starting right of the screen.
pub open spec fn glyph_paints(f: FontView, g: Seq<(bool, i32, u32)>, k: int, xk: int, y: int, sw: int, sh: int, stride: u32, buf: u32) -> Seq<PaintView> {
    let (is_h, idx, w) = g[k];
    if idx < 0 || xk >= sw {
        Seq::empty()
    } else {
        paint_rows(spec_glyph_rows(f, is_h, idx), 0, xk, w as int, y, sw, sh, stride, buf, Seq::empty())
    }
}

/// The paints of glyphs `k` onward, glyph `j` drawn at `x` plus the widths of the
/// glyphs before it.
pub open spec fn paints_from(f: FontView, g: Seq<(bool, i32, u32)>, k: int, x: int, y: int, sw: int, sh: int, stride: u32, buf: u32) -> Seq<PaintView>
    decreases g.len() - k,
{
    if k < 0 || k >= g.len() {
        Seq::empty()
    } else {
        glyph_paints(f, g, k, x + widths(g.take(k)), y, sw, sh, stride, buf) + paints_from(f, g, k + 1, x, y, sw, sh, stride, buf)
    }
}

proof fn lemma_paint_rows_acc(rows: Seq<Seq<u32>>, dy: int, x: int, w: int, y: int, sw: int, sh: int, stride: u32, buf: u32, acc: Seq<PaintView>)
    ensures
        paint_rows(rows, dy, x, w, y, sw, sh, stride, buf, acc) == acc + paint_rows(rows, dy, x, w, y, sw, sh, stride, buf, Seq::empty()),
    decreases rows.len() - dy,
{
    if dy < 0 || dy >= rows.len() {
        assert(acc + Seq::<PaintView>::empty() =~= acc);
    } else {
        let cols = rows[dy];
        let yy = y + dy;
        let x0 = if x > 0 { x } else { 0 };
        let x1 = if x + w < sw { x + w } else { sw };
        if cols.len() == 0 || yy < 0 || yy >= sh || x1 <= x0 {
            lemma_paint_rows_acc(rows, dy + 1, x, w, y, sw, sh, stride, buf, acc);
            lemma_paint_rows_acc(rows, dy + 1, x, w, y, sw, sh, stride, buf, Seq::empty());
        } else {
            let pv = PaintView {
                off: ((buf + (yy * stride + x0) * 2) % 0x1_0000_0000) as u32,
                len: (x1 - x0) * 2,
                at: row_hits(cols, cols.len() as int, x, x0, x1),
            };
            lemma_paint_rows_acc(rows, dy + 1, x, w, y, sw, sh, stride, buf, acc.push(pv));
            lemma_paint_rows_acc(rows, dy + 1, x, w, y, sw, sh, stride, buf, Seq::<PaintView>::empty().push(pv));
            let rest = paint_rows(rows, dy + 1, x, w, y, sw, sh, stride, buf, Seq::empty());
            assert(acc.push(pv) + rest =~= acc + (Seq::<PaintView>::empty().push(pv) + rest));
        }
    }
}

proof fn lemma_paint_glyphs(f: FontView, g: Seq<(bool, i32, u32)>, k: int, x: int, y: int, sw: int, sh: int, stride: u32, buf: u32, acc: Seq<PaintView>)
    requires
        0 <= k <= g.len(),
    ensures
        paint_glyphs(f, g, k, x + widths(g.take(k)), y, sw, sh, stride, buf, acc) == acc + paints_from(f, g, k, x, y, sw, sh, stride, buf),
    decreases g.len() - k,
{
    if k >= g.len() {
        assert(acc + Seq::<PaintView>::empty() =~= acc);
    } else {
        let (is_h, idx, w) = g[k];
        let xk = x + widths(g.take(k));
        assert(g.take(k + 1).drop_last() =~= g.take(k));
        assert(widths(g.take(k + 1)) == xk - x + w);
        let gp = glyph_paints(f, g, k, xk, y, sw, sh, stride, buf);
        let acc2 = if idx < 0 || xk >= sw {
            acc
        } else {
            paint_rows(spec_glyph_rows(f, is_h, idx), 0, xk, w as int, y, sw, sh, stride, buf, acc)
        };
        if !(idx < 0 || xk >= sw) {
            lemma_paint_rows_acc(spec_glyph_rows(f, is_h, idx), 0, xk, w as int, y, sw, sh, stride, buf, acc);
        }
        assert(acc2 == acc + gp) by {
            if idx < 0 || xk >= sw {
                assert(acc + gp =~= acc);
            }
        }
        lemma_paint_glyphs(f, g, k + 1, x, y, sw, sh, stride, buf, acc2);
        assert(xk + w == x + widths(g.take(k + 1)));
        let rest = paints_from(f, g, k + 1, x, y, sw, sh, stride, buf);
        assert((acc + gp) + rest =~= acc + (gp + rest));
    }
}

/// Text is drawn glyph after glyph, each at the start `x` plus the widths of the
/// glyphs before it (ASCII glyphs `aw` wide, double-byte ones `hw`): the paints of
/// the text are those of its glyphs one after the other, each drawn there alone.
pub proof fn draw_places_glyphs(f: FontView, text: Seq<u8>, x: int, y: int, sw: int, sh: int, stride: u32, buf: u32)
    ensures
        spec_draw(f, text, x, y, sw, sh, stride, buf) == paints_from(f, spec_glyphs(f, text, 0), 0, x, y, sw, sh, stride, buf),
        forall|k: int| 0 <= k < spec_glyphs(f, text, 0).len() ==> #[trigger] spec_glyphs(f, text, 0)[k].2 == (if spec_glyphs(f, text, 0)[k].0 { f.hw } else { f.aw }),
{
    let g = spec_glyphs(f, text, 0);
    assert(g.take(0) =~= Seq::<(bool, i32, u32)>::empty());
    assert(widths(g.take(0)) == 0);
    lemma_paint_glyphs(f, g, 0, x, y, sw, sh, stride, buf, Seq::empty());
    assert(Seq::<PaintView>::empty() + paints_from(f, g, 0, x, y, sw, sh, stride, buf) =~= paints_from(f, g, 0, x, y, sw, sh, stride, buf));
    lemma_glyph_kinds(f, text, 0);
}

proof fn lemma_glyph_kinds(f: FontView, b: Seq<u8>, i: int)
    ensures
        forall|k: int| 0 <= k < spec_glyphs(f, b, i).len() ==> #[trigger] spec_glyphs(f, b, i)[k].2 == (if spec_glyphs(f, b, i)[k].0 { f.hw } else { f.aw }),
    decreases b.len() - i,
{
    if 0 <= i < b.len() {
        let c = b[i];
        let n: int = if c >= 0x80 && i + 1 < b.len() { 2 } else { 1 };
        lemma_glyph_kinds(f, b, i + n);
        let g = spec_glyphs(f, b, i);
        let r = spec_glyphs(f, b, i + n);
        assert forall|k: int| 0 <= k < g.len() implies #[trigger] g[k].2 == (if g[k].0 { f.hw } else { f.aw }) by {
            if k > 0 {
                assert(g[k] == r[k - 1]);
            }
        }
    }
}

} // verus!
