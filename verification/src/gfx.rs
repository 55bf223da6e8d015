//! The emulated screen: image strides, the framebuffer state, and the arithmetic of
//! adopting a screen size, clipping a blit, and reading the screen back.
use std::collections::HashMap;
use vstd::prelude::*;

verus! {

/// The row stride of an image `w` pixels wide: `w` rounded up to a multiple of 4.
pub open spec fn spec_stride(w: u32) -> int {
    w + (4 - w % 4) % 4
}

/// The row stride of an image `w` pixels wide (in pixels).
pub fn stride_of(w: u32) -> (r: u32)
    requires
        spec_stride(w) <= u32::MAX,
    ensures
        r == spec_stride(w),
        r % 4 == 0,
        w <= r < w + 4,
{
    let pad = (4u32.wrapping_sub(w)) & 3;
    assert(pad == (4 - w % 4) % 4) by (bit_vector)
        requires
            pad == (4u32.wrapping_sub(w)) & 3,
    ;
    w + pad
}

/// The framebuffer of the emulated screen.
pub struct Gfx {
    /// The address of the framebuffer.
    pub buf: u32,
    /// The address of the image header that describes the screen.
    pub img: u32,
    pub w: u32,
    pub h: u32,
    /// The size of the framebuffer in bytes.
    pub bytes: u32,
    /// The frames shown so far.
    pub frames: u64,
    /// The transparency mask of each uploaded image, by its data address.
    pub masks: HashMap<u32, Vec<u8>>,
    /// The image uploaded for each resource stream.
    pub by_stream: HashMap<u32, u32>,
}

impl Default for Gfx {
    fn default() -> (g: Gfx)
        ensures
            g.buf == 0 && g.img == 0 && g.w == 240 && g.h == 400 && g.bytes == 240 * 400 * 2 && g.frames == 0,
            g.masks@ == Map::<u32, Vec<u8>>::empty(),
            g.by_stream@ == Map::<u32, u32>::empty(),
    {
        Gfx {
            buf: 0,
            img: 0,
            w: 240,
            h: 400,
            bytes: 240 * 400 * 2,
            frames: 0,
            masks: HashMap::new(),
            by_stream: HashMap::new(),
        }
    }
}

/// A program may set the screen size only during its first frames.
pub const ADOPT_BEFORE_FRAME: u64 = 4;

/// Whether a size the program asks for is taken as the screen size: only before frame
/// `ADOPT_BEFORE_FRAME`, only a new size of 80 to 320 by 80 to 480 pixels, and only
/// one that fits in the framebuffer.
pub open spec fn spec_adopt(frames: u64, w: u32, h: u32, gw: u32, gh: u32, bytes: u32) -> bool {
    !(frames >= ADOPT_BEFORE_FRAME || (w == gw && h == gh) || !(80 <= w <= 320 && 80 <= h <= 480) || w * h * 2 > bytes)
}

/// Whether a size the program asks for is taken as the screen size (see `spec_adopt`).
pub fn adopt_allowed(g: &Gfx, w: u32, h: u32) -> (r: bool)
    ensures
        r == spec_adopt(g.frames, w, h, g.w, g.h, g.bytes),
{
    if g.frames >= ADOPT_BEFORE_FRAME || (w == g.w && h == g.h) || !(80 <= w && w <= 320 && 80 <= h && h <= 480) {
        return false;
    }
    assert(w * h <= 320 * 480) by (nonlinear_arith)
        requires
            w <= 320,
            h <= 480,
    ;
    !(w * h * 2 > g.bytes)
}

/// The rectangle a blit touches: (dx, dy, w, h, sx, sy).
pub type BlitRect = (i64, i64, i64, i64, i64, i64);

/// The blit of a `w` x `h` region (the whole source when not given) from (`sx`, `sy`)
/// of a source image to (`dx`, `dy`) of a destination image, clipped to both images:
/// heights to the images' heights, widths to their strides, negative destination
/// offsets moved into the source. `None` when nothing is left.
pub open spec fn spec_blit_clip(
    src_w: int, src_h: int, src_st: int, dst_w: int, dst_h: int, dst_st: int,
    dx: int, dy: int, w: Option<int>, h: Option<int>, sx: int, sy: int,
) -> Option<(int, int, int, int, int, int)> {
    let w0 = match w { Some(v) => v, None => src_w };
    let h0 = match h { Some(v) => v, None => src_h };
    let w1 = if w0 < dst_w { w0 } else { dst_w };
    let h1 = if dy + h0 > dst_h { dst_h - dy } else { h0 };
    let h2 = if sy + h1 > src_h { src_h - sy } else { h1 };
    let w2 = if dx + w1 > dst_st { dst_st - dx } else { w1 };
    let w3 = if sx + w2 > src_st { src_st - sx } else { w2 };
    let (sx1, w4, dx1) = if dx < 0 { (sx - dx, w3 + dx, 0) } else { (sx, w3, dx) };
    let (sy1, h3, dy1) = if dy < 0 { (sy - dy, h2 + dy, 0) } else { (sy, h2, dy) };
    if w4 <= 0 || h3 <= 0 || sx1 < 0 || sy1 < 0 {
        None
    } else {
        Some((dx1, dy1, w4, h3, sx1, sy1))
    }
}

/// The region a blit touches (see `spec_blit_clip`); sizes are those of the source
/// and destination images, strides in pixels.
pub fn blit_clip(
    src_w: u32, src_h: u32, src_st: u32, dst_w: u32, dst_h: u32, dst_st: u32,
    dx: i32, dy: i32, w: Option<i32>, h: Option<i32>, sx: i32, sy: i32,
) -> (r: Option<BlitRect>)
    ensures
        match r {
            Some(t) => spec_blit_clip(src_w as int, src_h as int, src_st as int, dst_w as int, dst_h as int, dst_st as int,
                dx as int, dy as int, match w { Some(v) => Some(v as int), None => None }, match h { Some(v) => Some(v as int), None => None },
                sx as int, sy as int) == Some((t.0 as int, t.1 as int, t.2 as int, t.3 as int, t.4 as int, t.5 as int)),
            None => spec_blit_clip(src_w as int, src_h as int, src_st as int, dst_w as int, dst_h as int, dst_st as int,
                dx as int, dy as int, match w { Some(v) => Some(v as int), None => None }, match h { Some(v) => Some(v as int), None => None },
                sx as int, sy as int) is None,
        },
{
    let (dx, dy, sx, sy) = (dx as i64, dy as i64, sx as i64, sy as i64);
    let w0: i64 = match w { Some(v) => v as i64, None => src_w as i64 };
    let h0: i64 = match h { Some(v) => v as i64, None => src_h as i64 };
    let w1 = if w0 < dst_w as i64 { w0 } else { dst_w as i64 };
    let h1 = if dy + h0 > dst_h as i64 { dst_h as i64 - dy } else { h0 };
    let h2 = if sy + h1 > src_h as i64 { src_h as i64 - sy } else { h1 };
    let w2 = if dx + w1 > dst_st as i64 { dst_st as i64 - dx } else { w1 };
    let w3 = if sx + w2 > src_st as i64 { src_st as i64 - sx } else { w2 };
    let (sx1, w4, dx1) = if dx < 0 { (sx - dx, w3 + dx, 0) } else { (sx, w3, dx) };
    let (sy1, h3, dy1) = if dy < 0 { (sy - dy, h2 + dy, 0) } else { (sy, h2, dy) };
    if w4 <= 0 || h3 <= 0 || sx1 < 0 || sy1 < 0 {
        None
    } else {
        Some((dx1, dy1, w4, h3, sx1, sy1))
    }
}

/// Swap the two bytes of each pixel (the screen read back from a big-endian machine).
pub fn swap_pairs(raw: &mut Vec<u8>)
    ensures
        final(raw)@.len() == old(raw)@.len(),
        forall|i: int| 0 <= i < old(raw)@.len() ==> #[trigger] final(raw)@[i] == (
            if i + 1 - i % 2 >= old(raw)@.len() { old(raw)@[i] }
            else if i % 2 == 0 { old(raw)@[i + 1] } else { old(raw)@[i - 1] }),
{
    let ghost r0 = raw@;
    let n = raw.len();
    let mut i: usize = 0;
    while i + 1 < n
        invariant
            raw@.len() == n == r0.len(),
            i % 2 == 0,
            i <= n,
            forall|k: int| 0 <= k < n ==> #[trigger] raw@[k] == (
                if k >= i { r0[k] }
                else if k + 1 - k % 2 >= n { r0[k] }
                else if k % 2 == 0 { r0[k + 1] } else { r0[k - 1] }),
        decreases n - i,
    {
        let a = raw[i];
        let b = raw[i + 1];
        raw.set(i, b);
        raw.set(i + 1, a);
        i = i + 2;
    }
}

/// The number of pixels that are not black among the first `n` of an RGB565 screen.
pub open spec fn nonblank_count(raw: Seq<u8>, n: int) -> int
    decreases n,
{
    if n <= 0 {
        0
    } else {
        nonblank_count(raw, n - 1) + if raw[2 * (n - 1)] != 0 || raw[2 * (n - 1) + 1] != 0 { 1int } else { 0 }
    }
}

proof fn lemma_nonblank_bound(raw: Seq<u8>, n: int)
    requires
        n >= 0,
    ensures
        0 <= nonblank_count(raw, n) <= n,
    decreases n,
{
    if n > 0 {
        lemma_nonblank_bound(raw, n - 1);
    }
}

/// The number of pixels of an RGB565 screen that are not black (an odd last byte is
/// no pixel), as a 32-bit count.
pub fn count_nonblank(raw: &Vec<u8>) -> (r: u32)
    ensures
        r as int == nonblank_count(raw@, raw@.len() as int / 2) % 0x1_0000_0000,
{
    let n = raw.len() / 2;
    let mut c: u64 = 0;
    let mut i: usize = 0;
    while i < n
        invariant
            n == raw.len() / 2,
            i <= n,
            c as int == nonblank_count(raw@, i as int),
        decreases n - i,
    {
        proof {
            lemma_nonblank_bound(raw@, i as int);
        }
        if raw[2 * i] != 0 || raw[2 * i + 1] != 0 {
            c = c + 1;
        }
        i = i + 1;
    }
    (c % 0x1_0000_0000) as u32
}


// ---------------------------------------------------------------------------
// Pixels

/// The two bytes of an RGB565 pixel in the machine's byte order.
pub open spec fn pixel_bytes(v: u16, le: bool) -> (u8, u8) {
    if le { ((v % 256) as u8, (v / 256) as u8) } else { ((v / 256) as u8, (v % 256) as u8) }
}

/// Pixel `i` of an image, 0 past its end.
pub open spec fn pixel_or_zero(px: Seq<u16>, i: int) -> u16 {
    if 0 <= i < px.len() { px[i] } else { 0 }
}

/// Byte `o` of an uploaded image: rows `st` pixels apart, the pixels of each row in
/// the machine's byte order, the padding after each row zero.
pub open spec fn raw_byte(px: Seq<u16>, w: int, st: int, le: bool, o: int) -> u8 {
    let p = o / 2;
    let (y, x) = (p / st, p % st);
    if x < w {
        let b = pixel_bytes(pixel_or_zero(px, y * w + x), le);
        if o % 2 == 0 { b.0 } else { b.1 }
    } else {
        0
    }
}

/// The bytes an image is uploaded as: `st * h` pixels (at least one), row `y` from
/// `y * st` on (see `raw_byte`); `st` is the image's stride.
pub open spec fn raw_len(st: int, h: int) -> int {
    if st * h * 2 > 2 { st * h * 2 } else { 2 }
}

/// The bytes an image `w` x `h` with stride `st` is uploaded as (see `raw_byte`).
pub fn image_raw(px: &Vec<u16>, w: u32, h: u32, st: u32, le: bool) -> (r: Vec<u8>)
    requires
        w <= st,
        st >= 1,
        (st as int) * (h as int) * 2 <= u32::MAX,
    ensures
        r@.len() == raw_len(st as int, h as int),
        forall|o: int| 0 <= o < r@.len() ==> #[trigger] r@[o] == (if o < st * h * 2 { raw_byte(px@, w as int, st as int, le, o) } else { 0 }),
{
    let n: u32 = st * h * 2;
    let len: u32 = if n > 2 { n } else { 2 };
    let mut r: Vec<u8> = Vec::new();
    let mut o: u32 = 0;
    while o < len
        invariant
            n == st * h * 2,
            len == raw_len(st as int, h as int),
            o <= len,
            w <= st,
            st >= 1,
            r@.len() == o,
            forall|k: int| 0 <= k < o ==> #[trigger] r@[k] == (if k < st * h * 2 { raw_byte(px@, w as int, st as int, le, k) } else { 0 }),
        decreases len - o,
    {
        let b: u8 = if o < n {
            let p = o / 2;
            let y = p / st;
            let x = p % st;
            if x < w {
                assert(y * w + x <= y * st + x) by (nonlinear_arith)
                    requires
                        w <= st,
                ;
                assert(y * st + x == p) by (nonlinear_arith)
                    requires
                        y == p / st,
                        x == p % st,
                        st >= 1,
                ;
                let i: u64 = y as u64 * w as u64 + x as u64;
                let v: u16 = if i < px.len() as u64 { px[i as usize] } else { 0 };
                let (b0, b1) = if le { ((v % 256) as u8, (v / 256) as u8) } else { ((v / 256) as u8, (v % 256) as u8) };
                if o % 2 == 0 { b0 } else { b1 }
            } else {
                0
            }
        } else {
            0
        };
        r.push(b);
        o = o + 1;
    }
    r
}

/// The transparency mask of an uploaded image, one byte per pixel of each `st`-wide
/// row: 1 where the source mask (`src`, one byte per pixel) is set and on the padding
/// after each row, else 0.
pub open spec fn mask_byte(src: Seq<u8>, w: int, st: int, i: int) -> u8 {
    let (y, x) = (i / st, i % st);
    if x >= w || (0 <= y * w + x < src.len() && src[y * w + x] != 0) { 1 } else { 0 }
}

/// The mask source of an image: for a GIF-variant image with a transparent index,
/// 1 where the pixel has that index; else the PNG alpha mask; else none.
pub open spec fn mask_source(transparent: Option<u8>, index: Option<Seq<u8>>, alpha: Option<Seq<u8>>) -> Option<Seq<u8>> {
    match (transparent, index, alpha) {
        (Some(t), Some(idx), _) => Some(idx.map_values(|v: u8| if v == t { 1u8 } else { 0u8 })),
        (_, _, Some(a)) => Some(a),
        _ => None,
    }
}

fn index_mask(idx: &Vec<u8>, t: u8) -> (r: Vec<u8>)
    ensures
        r@ == idx@.map_values(|v: u8| if v == t { 1u8 } else { 0u8 }),
{
    let mut r: Vec<u8> = Vec::new();
    let mut i: usize = 0;
    while i < idx.len()
        invariant
            i <= idx@.len(),
            r@ == idx@.take(i as int).map_values(|v: u8| if v == t { 1u8 } else { 0u8 }),
        decreases idx@.len() - i,
    {
        r.push(if idx[i] == t { 1 } else { 0 });
        assert(r@ =~= idx@.take(i + 1).map_values(|v: u8| if v == t { 1u8 } else { 0u8 }));
        i = i + 1;
    }
    assert(idx@.take(idx@.len() as int) =~= idx@);
    r
}

/// The transparency mask of an uploaded image `w` x `h` with stride `st` (see
/// `mask_source` and `mask_byte`), `None` for an opaque image.
pub fn image_mask(transparent: Option<u8>, index: &Option<Vec<u8>>, alpha: &Option<Vec<u8>>, w: u32, h: u32, st: u32) -> (r: Option<Vec<u8>>)
    requires
        w <= st,
        st >= 1,
        (st as int) * (h as int) <= u32::MAX,
    ensures
        match mask_source(transparent, match index { Some(v) => Some(v@), None => None }, match alpha { Some(v) => Some(v@), None => None }) {
            None => r is None,
            Some(src) => r matches Some(m) && m@.len() == st * h
                && forall|i: int| 0 <= i < st * h ==> #[trigger] m@[i] == mask_byte(src, w as int, st as int, i),
        },
{
    let src: Vec<u8> = match (transparent, index, alpha) {
        (Some(t), Some(idx), _) => index_mask(idx, t),
        (_, _, Some(a)) => vstd::slice::slice_to_vec(a.as_slice()),
        _ => {
            return None;
        },
    };
    let n: u32 = st * h;
    let mut m: Vec<u8> = Vec::new();
    let mut i: u32 = 0;
    while i < n
        invariant
            n == st * h,
            i <= n,
            w <= st,
            st >= 1,
            m@.len() == i,
            forall|k: int| 0 <= k < i ==> #[trigger] m@[k] == mask_byte(src@, w as int, st as int, k),
        decreases n - i,
    {
        let y = i / st;
        let x = i % st;
        let b: u8 = if x >= w {
            1
        } else {
            assert(y * w + x <= y * st + x) by (nonlinear_arith)
                requires
                    w <= st,
            ;
            assert(y * st + x == i) by (nonlinear_arith)
                requires
                    y == i / st,
                    x == i % st,
                    st >= 1,
            ;
            let j: u64 = y as u64 * w as u64 + x as u64;
            if j < src.len() as u64 && src[j as usize] != 0 { 1 } else { 0 }
        };
        m.push(b);
        i = i + 1;
    }
    Some(m)
}

/// The blit of `h` rows of `w` pixels: source rows `srow` bytes apart in `sbuf` from
/// pixel `sx` on, destination rows `drow` bytes apart in `dbuf` from pixel `dx` on. A
/// row whose bytes run past either buffer ends the blit. With a mask (one byte per
/// source pixel, rows `mst` apart, starting at row `sy`), pixels whose mask byte is
/// set are left alone, unless the row's mask is missing or all clear.
pub open spec fn blit_row_count(slen: int, dlen: int, srow: int, drow: int, sx: int, dx: int, w: int, h: int) -> int
    decreases h,
{
    if h <= 0 {
        0
    } else {
        let prev = blit_row_count(slen, dlen, srow, drow, sx, dx, w, h - 1);
        let row = h - 1;
        if prev == row && row * srow + sx * 2 + w * 2 <= slen && row * drow + dx * 2 + w * 2 <= dlen { h } else { prev }
    }
}

/// The mask bytes of a blit row, empty when the mask does not reach.
pub open spec fn mask_row(mask: Seq<u8>, mo: int, w: int) -> Seq<u8> {
    if 0 <= mo && mo + w <= mask.len() { mask.subrange(mo, mo + w) } else { Seq::empty() }
}

/// Whether pixel `i` of a blit row is copied.
pub open spec fn copies(mrow: Seq<u8>, i: int) -> bool {
    (forall|k: int| 0 <= k < mrow.len() ==> #[trigger] mrow[k] == 0) || (i < mrow.len() && mrow[i] == 0)
}

/// Byte `o` of the destination after a blit (see `blit_row_count`).
pub open spec fn blitted_byte(
    sbuf: Seq<u8>, dbuf: Seq<u8>, srow: int, drow: int, sx: int, dx: int, w: int, h: int,
    mask: Option<Seq<u8>>, mst: int, sy: int, o: int,
) -> u8 {
    let rows = blit_row_count(sbuf.len() as int, dbuf.len() as int, srow, drow, sx, dx, w, h);
    let row = o / drow;
    let c = o % drow - dx * 2;
    if 0 <= row < rows && 0 <= c < w * 2 {
        let copy = match mask {
            None => true,
            Some(mk) => copies(mask_row(mk, (sy + row) * mst + sx, w), c / 2),
        };
        if copy { sbuf[row * srow + sx * 2 + c] } else { dbuf[o] }
    } else {
        dbuf[o]
    }
}

proof fn lemma_row_count(slen: int, dlen: int, srow: int, drow: int, sx: int, dx: int, w: int, h: int)
    requires
        h >= 0,
    ensures
        0 <= blit_row_count(slen, dlen, srow, drow, sx, dx, w, h) <= h,
        blit_row_count(slen, dlen, srow, drow, sx, dx, w, h) < h ==> blit_row_count(slen, dlen, srow, drow, sx, dx, w, h + 1)
            == blit_row_count(slen, dlen, srow, drow, sx, dx, w, h),
    decreases h,
{
    if h > 0 {
        lemma_row_count(slen, dlen, srow, drow, sx, dx, w, h - 1);
    }
}

proof fn lemma_row_count_stays(slen: int, dlen: int, srow: int, drow: int, sx: int, dx: int, w: int, n: int, m: int)
    requires
        0 <= n <= m,
        blit_row_count(slen, dlen, srow, drow, sx, dx, w, n + 1) == n,
    ensures
        blit_row_count(slen, dlen, srow, drow, sx, dx, w, m + 1) == n,
    decreases m - n,
{
    if m > n {
        lemma_row_count_stays(slen, dlen, srow, drow, sx, dx, w, n, m - 1);
        lemma_row_count(slen, dlen, srow, drow, sx, dx, w, m);
    }
}

proof fn lemma_row_count_mono(slen: int, dlen: int, srow: int, drow: int, sx: int, dx: int, w: int, n: int, m: int)
    requires
        0 <= n <= m,
    ensures
        blit_row_count(slen, dlen, srow, drow, sx, dx, w, n) <= blit_row_count(slen, dlen, srow, drow, sx, dx, w, m),
    decreases m - n,
{
    if m > n {
        lemma_row_count_mono(slen, dlen, srow, drow, sx, dx, w, n, m - 1);
    }
}

/// How byte `o` of a destination buffer with rows `drow` bytes apart relates to the
/// part of row `row` a blit writes (from `dof`, `2 * w` bytes).
proof fn lemma_row_cases(o: int, drow: int, row: int, dof: int, dx: int, w: int)
    requires
        drow >= 1,
        row >= 0,
        o >= 0,
        dx >= 0,
        w >= 0,
        dof == row * drow + 2 * dx,
        2 * dx + 2 * w <= drow,
    ensures
        o / drow < row ==> o < dof,
        o / drow > row ==> o >= dof + 2 * w,
        o / drow == row ==> o - dof == o % drow - 2 * dx,
        dof <= o < dof + 2 * w ==> o / drow == row,
        o / drow >= 0,
{
    let q = o / drow;
    let t = o % drow;
    vstd::arithmetic::div_mod::lemma_fundamental_div_mod(o, drow);
    vstd::arithmetic::div_mod::lemma_div_pos_is_pos(o, drow);
    assert(o == drow * q + t && 0 <= t < drow);
    if q < row {
        assert(drow * q + drow <= drow * row) by (nonlinear_arith)
            requires
                q < row,
                drow >= 1,
        ;
    }
    assert(row * drow == drow * row) by (nonlinear_arith);
    if q > row {
        assert(drow * q >= drow * row + drow) by (nonlinear_arith)
            requires
                q > row,
                drow >= 1,
        ;
    }
    if q == row {
        assert(drow * q == row * drow) by (nonlinear_arith)
            requires
                q == row,
        ;
    }
    if dof <= o < dof + 2 * w {
        assert(row * drow <= o < row * drow + drow);
        vstd::arithmetic::div_mod::lemma_fundamental_div_mod_converse(o, drow, row, o - row * drow);
    }
}

/// Blit one row (see `blitted_byte`): `so` and `dof` are where the row's pixels start
/// in the buffers.
fn blit_row(
    sbuf: &Vec<u8>, dbuf: &mut Vec<u8>, so: usize, dof: usize, w: usize, mask: Option<&Vec<u8>>, mo: u64,
)
    requires
        so + w * 2 <= sbuf@.len(),
        dof + w * 2 <= old(dbuf)@.len(),
        mo <= 0x10_0000_0000,
        w <= 0x1_0000,
    ensures
        final(dbuf)@.len() == old(dbuf)@.len(),
        forall|o: int| 0 <= o < old(dbuf)@.len() ==> #[trigger] final(dbuf)@[o] == (if dof <= o < dof + w * 2 && match mask {
            None => true,
            Some(m) => copies(mask_row(m@, mo as int, w as int), (o - dof) / 2),
        } {
            sbuf@[so + (o - dof)]
        } else {
            old(dbuf)@[o]
        }),
{
    let ghost d0 = dbuf@;
    let dl = dbuf.len();
    let mut all_clear = true;
    let mut have_mask_row = false;
    match mask {
        Some(m) => {
            let ml = m.len();
            if mo + (w as u64) <= ml as u64 {
                have_mask_row = true;
                let mut k: usize = 0;
                while k < w
                    invariant
                        k <= w,
                        ml == m@.len(),
                        mo + w <= m@.len(),
                        all_clear == forall|j: int| 0 <= j < k ==> #[trigger] m@[mo + j] == 0,
                    decreases w - k,
                {
                    let at = (mo + k as u64) as usize;
                    if m[at] != 0 {
                        all_clear = false;
                    }
                    assert(m@[mo + k] == m@[at as int]);
                    k = k + 1;
                }
                assert(all_clear == forall|j: int| 0 <= j < w ==> #[trigger] mask_row(m@, mo as int, w as int)[j] == 0) by {
                    assert(mask_row(m@, mo as int, w as int) =~= m@.subrange(mo as int, mo + w));
                    assert forall|j: int| 0 <= j < w implies #[trigger] mask_row(m@, mo as int, w as int)[j] == m@[mo + j] by {}
                    if all_clear {
                        assert forall|j: int| 0 <= j < w implies #[trigger] mask_row(m@, mo as int, w as int)[j] == 0 by {
                            assert(m@[mo + j] == 0);
                        }
                    }
                    if !all_clear {
                        let j = choose|j: int| 0 <= j < w && #[trigger] m@[mo + j] != 0;
                        assert(mask_row(m@, mo as int, w as int)[j] != 0);
                    }
                }
            } else {
                assert(mask_row(m@, mo as int, w as int) =~= Seq::<u8>::empty());
            }
        },
        None => {},
    }
    let mut i: usize = 0;
    while i < w
        invariant
            i <= w,
            dl == d0.len(),
            sbuf.len() == sbuf@.len(),
            mo <= 0x10_0000_0000,
            w <= 0x1_0000,
            dbuf@.len() == d0.len(),
            so + w * 2 <= sbuf@.len(),
            dof + w * 2 <= d0.len(),
            match mask {
                Some(m) => {
                    &&& m@.len() == m.len()
                    &&& have_mask_row == (mo + w <= m@.len())
                    &&& have_mask_row ==> all_clear == forall|j: int| 0 <= j < w ==> #[trigger] mask_row(m@, mo as int, w as int)[j] == 0
                    &&& !have_mask_row ==> mask_row(m@, mo as int, w as int) =~= Seq::<u8>::empty()
                },
                None => true,
            },
            forall|o: int| 0 <= o < d0.len() ==> #[trigger] dbuf@[o] == (if dof <= o < dof + i * 2 && match mask {
                None => true,
                Some(m) => copies(mask_row(m@, mo as int, w as int), (o - dof) / 2),
            } {
                sbuf@[so + (o - dof)]
            } else {
                d0[o]
            }),
        decreases w - i,
    {
        let copy = match mask {
            None => true,
            Some(m) => {
                if !have_mask_row || all_clear {
                    true
                } else {
                    m[(mo + i as u64) as usize] == 0
                }
            },
        };
        proof {
            match mask {
                Some(m) => {
                    let mr = mask_row(m@, mo as int, w as int);
                    if have_mask_row {
                        assert(mr[i as int] == m@[mo + i]);
                    }
                    assert(copy == copies(mr, i as int));
                },
                None => {},
            }
        }
        if copy {
            dbuf.set(dof + i * 2, sbuf[so + i * 2]);
            dbuf.set(dof + i * 2 + 1, sbuf[so + i * 2 + 1]);
        }
        proof {
            assert forall|o: int| 0 <= o < d0.len() implies #[trigger] dbuf@[o] == (if dof <= o < dof + (i + 1) * 2 && match mask {
                None => true,
                Some(m) => copies(mask_row(m@, mo as int, w as int), (o - dof) / 2),
            } {
                sbuf@[so + (o - dof)]
            } else {
                d0[o]
            }) by {
                if o == dof + i * 2 || o == dof + i * 2 + 1 {
                    assert((o - dof) / 2 == i);
                }
            }
        }
        i = i + 1;
    }
}

/// Blit pixels between row buffers (see `blitted_byte`).
pub fn blit_pixels(
    sbuf: &Vec<u8>, dbuf: &mut Vec<u8>, srow: usize, drow: usize, sx: usize, dx: usize, w: usize, h: usize,
    mask: Option<&Vec<u8>>, mst: usize, sy: usize,
)
    requires
        drow >= 1,
        dx * 2 + w * 2 <= drow,
        srow <= 0x1_0000_0000 && drow <= 0x1_0000_0000 && sx <= 0x1_0000 && dx <= 0x1_0000,
        w <= 0x1_0000 && h <= 0x1_0000 && mst <= 0x1_0000 && sy <= 0x1_0000,
    ensures
        final(dbuf)@.len() == old(dbuf)@.len(),
        forall|o: int| 0 <= o < old(dbuf)@.len() ==> #[trigger] final(dbuf)@[o] == blitted_byte(
            sbuf@, old(dbuf)@, srow as int, drow as int, sx as int, dx as int, w as int, h as int,
            match mask { Some(m) => Some(m@), None => None }, mst as int, sy as int, o,
        ),
{
    let ghost d0 = dbuf@;
    let ghost mk = match mask { Some(m) => Some(m@), None => None::<Seq<u8>> };
    let ghost sl = sbuf@.len() as int;
    let ghost dl = d0.len() as int;
    let ghost rows = blit_row_count(sl, dl, srow as int, drow as int, sx as int, dx as int, w as int, h as int);
    let mut row: usize = 0;
    while row < h
        invariant_except_break
            blit_row_count(sl, dl, srow as int, drow as int, sx as int, dx as int, w as int, row as int) == row,
        invariant
            drow >= 1,
            dx * 2 + w * 2 <= drow,
            srow <= 0x1_0000_0000 && drow <= 0x1_0000_0000 && sx <= 0x1_0000 && dx <= 0x1_0000,
            w <= 0x1_0000 && h <= 0x1_0000 && mst <= 0x1_0000 && sy <= 0x1_0000,
            row <= h,
            sl == sbuf@.len(),
            dl == d0.len(),
            mk == match mask { Some(m) => Some(m@), None => None::<Seq<u8>> },
            rows == blit_row_count(sl, dl, srow as int, drow as int, sx as int, dx as int, w as int, h as int),
            dbuf@.len() == d0.len(),
            forall|o: int| 0 <= o < d0.len() ==> #[trigger] dbuf@[o] == (if o / (drow as int) < row {
                blitted_byte(sbuf@, d0, srow as int, drow as int, sx as int, dx as int, w as int, h as int, mk, mst as int, sy as int, o)
            } else {
                d0[o]
            }),
        ensures
            rows == row,
            dbuf@.len() == d0.len(),
            forall|o: int| 0 <= o < d0.len() ==> #[trigger] dbuf@[o] == (if o / (drow as int) < row {
                blitted_byte(sbuf@, d0, srow as int, drow as int, sx as int, dx as int, w as int, h as int, mk, mst as int, sy as int, o)
            } else {
                d0[o]
            }),
        decreases h - row,
    {
        assert(row as int * srow as int <= 0x1_0000 * 0x1_0000_0000) by (nonlinear_arith)
            requires
                row <= 0x1_0000,
                srow <= 0x1_0000_0000,
        ;
        assert(row as int * drow as int <= 0x1_0000 * 0x1_0000_0000) by (nonlinear_arith)
            requires
                row <= 0x1_0000,
                drow <= 0x1_0000_0000,
        ;
        let so64: u64 = row as u64 * srow as u64 + sx as u64 * 2;
        let dof64: u64 = row as u64 * drow as u64 + dx as u64 * 2;
        proof {
            lemma_row_count(sl, dl, srow as int, drow as int, sx as int, dx as int, w as int, row as int);
        }
        if so64 + w as u64 * 2 > sbuf.len() as u64 || dof64 + w as u64 * 2 > dbuf.len() as u64 {
            proof {
                assert(blit_row_count(sl, dl, srow as int, drow as int, sx as int, dx as int, w as int, row + 1) == row);
                lemma_row_count_stays(sl, dl, srow as int, drow as int, sx as int, dx as int, w as int, row as int, (h - 1) as int);
            }
            break;
        }
        let so = so64 as usize;
        let dof = dof64 as usize;
        assert((sy as int + row as int) * mst as int <= 0x2_0000 * 0x1_0000) by (nonlinear_arith)
            requires
                row <= 0x1_0000,
                sy <= 0x1_0000,
                mst <= 0x1_0000,
        ;
        let mo: u64 = (sy as u64 + row as u64) * mst as u64 + sx as u64;
        let ghost before = dbuf@;
        blit_row(sbuf, dbuf, so, dof, w, mask, mo);
        proof {
            lemma_row_count(sl, dl, srow as int, drow as int, sx as int, dx as int, w as int, (row + 1) as int);
            assert(blit_row_count(sl, dl, srow as int, drow as int, sx as int, dx as int, w as int, row + 1) == row + 1);
            lemma_row_count_mono(sl, dl, srow as int, drow as int, sx as int, dx as int, w as int, (row + 1) as int, h as int);
            assert forall|o: int| 0 <= o < d0.len() implies #[trigger] dbuf@[o] == (if o / (drow as int) < row + 1 {
                blitted_byte(sbuf@, d0, srow as int, drow as int, sx as int, dx as int, w as int, h as int, mk, mst as int, sy as int, o)
            } else {
                d0[o]
            }) by {
                lemma_row_cases(o, drow as int, row as int, dof as int, dx as int, w as int);
            }
        }
        row = row + 1;
    }
}

/// The rows a filled rectangle paints on a `gw` x `gh` screen at `buf`: `None` when
/// the rectangle, clipped to the screen, is empty; otherwise the bytes of one row (the
/// colour repeated) and the address of each row, wrapped to 32 bits.
pub open spec fn spec_fill_rows(x: int, y: int, w: int, h: int, gw: int, gh: int, buf: u32, color: u16, le: bool) -> Option<(Seq<u8>, Seq<u32>)> {
    let (x0, y0) = (if x > 0 { x } else { 0 }, if y > 0 { y } else { 0 });
    let (x1, y1) = (if x + w < gw { x + w } else { gw }, if y + h < gh { y + h } else { gh });
    if x1 <= x0 || y1 <= y0 {
        None
    } else {
        let b = pixel_bytes(color, le);
        Some((
            Seq::new(((x1 - x0) * 2) as nat, |i: int| if i % 2 == 0 { b.0 } else { b.1 }),
            Seq::new((y1 - y0) as nat, |k: int| ((buf + ((y0 + k) * gw + x0) * 2) % 0x1_0000_0000) as u32),
        ))
    }
}

/// The rows a filled rectangle paints (see `spec_fill_rows`).
pub fn fill_rows(x: i32, y: i32, w: i32, h: i32, gw: u32, gh: u32, buf: u32, color: u16, le: bool) -> (r: Option<(Vec<u8>, Vec<u32>)>)
    requires
        gw <= 0x1_0000 && gh <= 0x1_0000,
    ensures
        match spec_fill_rows(x as int, y as int, w as int, h as int, gw as int, gh as int, buf, color, le) {
            None => r is None,
            Some((row, addrs)) => r matches Some((rv, av)) && rv@ == row && av@ == addrs,
        },
{
    let (x, y, w, h) = (x as i64, y as i64, w as i64, h as i64);
    let (gw, gh) = (gw as i64, gh as i64);
    let x0 = if x > 0 { x } else { 0 };
    let y0 = if y > 0 { y } else { 0 };
    let x1 = if x + w < gw { x + w } else { gw };
    let y1 = if y + h < gh { y + h } else { gh };
    if x1 <= x0 || y1 <= y0 {
        return None;
    }
    let (b0, b1) = if le { ((color % 256) as u8, (color / 256) as u8) } else { ((color / 256) as u8, (color % 256) as u8) };
    let ghost bb = pixel_bytes(color, le);
    let n = ((x1 - x0) * 2) as usize;
    let mut row: Vec<u8> = Vec::new();
    let mut i: usize = 0;
    while i < n
        invariant
            i <= n,
            row@ == Seq::new(i as nat, |k: int| if k % 2 == 0 { bb.0 } else { bb.1 }),
            bb == (b0, b1),
        decreases n - i,
    {
        row.push(if i % 2 == 0 { b0 } else { b1 });
        i = i + 1;
        assert(row@ =~= Seq::new(i as nat, |k: int| if k % 2 == 0 { bb.0 } else { bb.1 }));
    }
    let mut addrs: Vec<u32> = Vec::new();
    let mut yy: i64 = y0;
    while yy < y1
        invariant
            0 <= y0 <= yy <= y1 <= gh <= 0x1_0000,
            0 <= x0 < x1 <= gw <= 0x1_0000,
            addrs@ == Seq::new((yy - y0) as nat, |k: int| ((buf + ((y0 + k) * gw + x0) * 2) % 0x1_0000_0000) as u32),
        decreases y1 - yy,
    {
        assert(0 <= yy * gw <= 0x1_0000 * 0x1_0000) by (nonlinear_arith)
            requires
                0 <= yy <= 0x1_0000,
                0 <= gw <= 0x1_0000,
        ;
        let a: u64 = buf as u64 + ((yy * gw + x0) * 2) as u64;
        addrs.push((a % 0x1_0000_0000) as u32);
        yy = yy + 1;
        assert(addrs@ =~= Seq::new((yy - y0) as nat, |k: int| ((buf + ((y0 + k) * gw + x0) * 2) % 0x1_0000_0000) as u32));
    }
    Some((row, addrs))
}

} // verus!
