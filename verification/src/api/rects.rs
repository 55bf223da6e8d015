//! Rectangle geometry of the drawing calls: clipping an image to a clip rectangle,
//! the old library's filled rectangles, outlines, lines drawn as rectangles and an
//! area tiled with an image.
use vstd::prelude::*;
use crate::api::oldlib::{s16, spec_s16, trunc_div, is_i16, cdiv, lemma_trunc_div_bound, SCREEN_W, SCREEN_H};

verus! {

/// A rectangle (x, y, w, h).
pub type Rect = (i32, i32, i32, i32);

/// A rectangle as integers.
pub open spec fn rect_view(r: Rect) -> (int, int, int, int) {
    (r.0 as int, r.1 as int, r.2 as int, r.3 as int)
}

/// Rectangles as integers.
pub open spec fn rects_view(v: Seq<Rect>) -> Seq<(int, int, int, int)> {
    v.map_values(|r: Rect| rect_view(r))
}

pub open spec fn imax(a: int, b: int) -> int {
    if a >= b { a } else { b }
}

pub open spec fn imin(a: int, b: int) -> int {
    if a <= b { a } else { b }
}

pub open spec fn iabs(a: int) -> int {
    if a >= 0 { a } else { -a }
}

/// Whether `v` fits in 32 signed bits.
pub open spec fn is_i32(v: int) -> bool {
    -0x8000_0000 <= v <= 0x7FFF_FFFF
}

/// An `iw` x `ih` image at (`x`, `y`) cut to the clip rectangle (`cx`, `cy`, `cw`,
/// `ch`): `None` when nothing is left, else where the rest goes, its size and
/// where it starts in the image (x, y, w, h, sx, sy).
pub open spec fn spec_image_clip(x: int, y: int, iw: int, ih: int, cx: int, cy: int, cw: int, ch: int) -> Option<(int, int, int, int, int, int)> {
    let (x0, y0) = (imax(x, cx), imax(y, cy));
    let (x1, y1) = (imin(x + iw, cx + cw), imin(y + ih, cy + ch));
    if x1 <= x0 || y1 <= y0 {
        None
    } else {
        Some((x0, y0, x1 - x0, y1 - y0, x0 - x, y0 - y))
    }
}

/// An image cut to a clip rectangle (see `spec_image_clip`); positions and sizes
/// are within 17 bits.
pub fn image_clip(x: i32, y: i32, iw: i32, ih: i32, cx: i32, cy: i32, cw: i32, ch: i32) -> (r: Option<(i32, i32, i32, i32, i32, i32)>)
    requires
        -0x2_0000 <= x <= 0x2_0000 && -0x2_0000 <= y <= 0x2_0000,
        -0x2_0000 <= iw <= 0x2_0000 && -0x2_0000 <= ih <= 0x2_0000,
        -0x2_0000 <= cx <= 0x2_0000 && -0x2_0000 <= cy <= 0x2_0000,
        -0x2_0000 <= cw <= 0x2_0000 && -0x2_0000 <= ch <= 0x2_0000,
    ensures
        match r {
            Some(t) => spec_image_clip(x as int, y as int, iw as int, ih as int, cx as int, cy as int, cw as int, ch as int)
                == Some((t.0 as int, t.1 as int, t.2 as int, t.3 as int, t.4 as int, t.5 as int)),
            None => spec_image_clip(x as int, y as int, iw as int, ih as int, cx as int, cy as int, cw as int, ch as int) is None,
        },
{
    let x0 = if x >= cx { x } else { cx };
    let y0 = if y >= cy { y } else { cy };
    let x1 = if x + iw <= cx + cw { x + iw } else { cx + cw };
    let y1 = if y + ih <= cy + ch { y + ih } else { cy + ch };
    if x1 <= x0 || y1 <= y0 {
        None
    } else {
        Some((x0, y0, x1 - x0, y1 - y0, x0 - x, y0 - y))
    }
}

/// The old library's filled rectangle (`x`, `y`, `w`, `h`): `None` when it lies
/// off the screen or is not more than one pixel wide and high; else the corner to
/// fill from, taken as unsigned 16-bit values, and the size.
pub open spec fn spec_old_fill_area(x: int, y: int, w: int, h: int) -> Option<(int, int, int, int)> {
    if x <= SCREEN_W && y <= SCREEN_H && x + w >= 0 && y + h >= 0 {
        let (r, b) = (spec_s16(x + w - 1), spec_s16(y + h - 1));
        if r > x && b > y {
            Some((x % 0x1_0000, y % 0x1_0000, r - x + 1, b - y + 1))
        } else {
            None
        }
    } else {
        None
    }
}

/// The area the old library fills (see `spec_old_fill_area`); 16-bit values.
pub fn old_fill_area(x: i32, y: i32, w: i32, h: i32) -> (r: Option<Rect>)
    requires
        is_i16(x as int) && is_i16(y as int) && is_i16(w as int) && is_i16(h as int),
    ensures
        match r {
            Some(t) => spec_old_fill_area(x as int, y as int, w as int, h as int) == Some(rect_view(t)),
            None => spec_old_fill_area(x as int, y as int, w as int, h as int) is None,
        },
{
    if x <= SCREEN_W && y <= SCREEN_H && x + w >= 0 && y + h >= 0 {
        let r = s16(x + w - 1);
        let b = s16(y + h - 1);
        if r > x && b > y {
            let l = x & 0xFFFF;
            let t = y & 0xFFFF;
            assert(l as int == (x as int) % 0x1_0000) by (bit_vector)
                requires
                    l == x & 0xFFFF,
            ;
            assert(t as int == (y as int) % 0x1_0000) by (bit_vector)
                requires
                    t == y & 0xFFFF,
            ;
            Some((l, t, r - x + 1, b - y + 1))
        } else {
            None
        }
    } else {
        None
    }
}

/// The four one-pixel sides of the outline of (`x`, `y`, `w`, `h`): top, bottom,
/// left, right.
pub open spec fn spec_outline(x: int, y: int, w: int, h: int) -> Seq<(int, int, int, int)> {
    seq![(x, y, w, 1), (x, y + h - 1, w, 1), (x, y, 1, h), (x + w - 1, y, 1, h)]
}

/// The sides of a rectangle's outline (see `spec_outline`).
pub fn outline_rects(x: i32, y: i32, w: i32, h: i32) -> (r: Vec<Rect>)
    requires
        is_i32(y + h) && is_i32(y + h - 1) && is_i32(x + w) && is_i32(x + w - 1),
    ensures
        rects_view(r@) == spec_outline(x as int, y as int, w as int, h as int),
{
    let v: Vec<Rect> = vec![(x, y, w, 1), (x, y + h - 1, w, 1), (x, y, 1, h), (x + w - 1, y, 1, h)];
    assert(rects_view(v@) =~= spec_outline(x as int, y as int, w as int, h as int));
    v
}

/// Whether drawing the line from (`x1`, `y1`) to (`x2`, `y2`) stays within 32-bit
/// arithmetic: a level or upright line's length plus one, and otherwise the steps
/// along the line times their count.
pub open spec fn line_fits(x1: int, y1: int, x2: int, y2: int) -> bool {
    let (dx, dy) = (x2 - x1, y2 - y1);
    if y1 == y2 {
        iabs(dx) + 1 <= 0x7FFF_FFFF && is_i32(dx)
    } else if x1 == x2 {
        iabs(dy) + 1 <= 0x7FFF_FFFF && is_i32(dy)
    } else {
        let n = imax(imax(iabs(dx), iabs(dy)), 1);
        &&& is_i32(dx) && is_i32(dy) && iabs(dx) <= 0x7FFF_FFFF && iabs(dy) <= 0x7FFF_FFFF
        &&& is_i32(dx * n) && is_i32(dy * n)
    }
}

/// The line from (`x1`, `y1`) to (`x2`, `y2`) as rectangles: one for a level or an
/// upright line, else one pixel for each of the `n + 1` points
/// `(x1 + dx * i / n, y1 + dy * i / n)`, with `n` the longer side.
pub open spec fn spec_line_rects(x1: int, y1: int, x2: int, y2: int) -> Seq<(int, int, int, int)> {
    let (dx, dy) = (x2 - x1, y2 - y1);
    if y1 == y2 {
        seq![(imin(x1, x2), y1, iabs(dx) + 1, 1)]
    } else if x1 == x2 {
        seq![(x1, imin(y1, y2), 1, iabs(dy) + 1)]
    } else {
        let n = imax(imax(iabs(dx), iabs(dy)), 1);
        Seq::new((n + 1) as nat, |i: int| (x1 + trunc_div(dx * i, n), y1 + trunc_div(dy * i, n), 1, 1))
    }
}

proof fn lemma_step_between(d: int, i: int, n: int)
    requires
        1 <= n,
        0 <= i <= n,
        iabs(d) <= n,
    ensures
        d >= 0 ==> 0 <= trunc_div(d * i, n) <= d,
        d < 0 ==> d <= trunc_div(d * i, n) <= 0,
{
    lemma_trunc_div_bound(d * i, n);
    let q = trunc_div(d * i, n);
    if d >= 0 {
        assert(d * i >= 0) by (nonlinear_arith)
            requires
                d >= 0,
                i >= 0,
        ;
        assert(d * i <= d * n) by (nonlinear_arith)
            requires
                d >= 0,
                i <= n,
        ;
        assert(q >= 0);
        assert(n * q <= d * n);
        assert(q <= d) by (nonlinear_arith)
            requires
                n * q <= d * n,
                n >= 1,
        ;
    } else {
        assert(d * i <= 0) by (nonlinear_arith)
            requires
                d < 0,
                i >= 0,
        ;
        assert(-(d * i) <= -(d * n)) by (nonlinear_arith)
            requires
                d < 0,
                i <= n,
        ;
        assert(q <= 0);
        assert(n * (-q) <= -(d * n));
        assert(-q <= -d) by (nonlinear_arith)
            requires
                n * (-q) <= -(d * n),
                n >= 1,
        ;
    }
}

/// A line as rectangles (see `spec_line_rects`).
pub fn line_rects(x1: i32, y1: i32, x2: i32, y2: i32) -> (r: Vec<Rect>)
    requires
        line_fits(x1 as int, y1 as int, x2 as int, y2 as int),
    ensures
        rects_view(r@) == spec_line_rects(x1 as int, y1 as int, x2 as int, y2 as int),
{
    if y1 == y2 {
        let dx = x2 - x1;
        let ax = if dx >= 0 { dx } else { -dx };
        let v: Vec<Rect> = vec![(if x1 <= x2 { x1 } else { x2 }, y1, ax + 1, 1)];
        assert(rects_view(v@) =~= spec_line_rects(x1 as int, y1 as int, x2 as int, y2 as int));
        return v;
    }
    if x1 == x2 {
        let dy = y2 - y1;
        let ay = if dy >= 0 { dy } else { -dy };
        let v: Vec<Rect> = vec![(x1, if y1 <= y2 { y1 } else { y2 }, 1, ay + 1)];
        assert(rects_view(v@) =~= spec_line_rects(x1 as int, y1 as int, x2 as int, y2 as int));
        return v;
    }
    let dx = x2 - x1;
    let dy = y2 - y1;
    let ax = if dx >= 0 { dx } else { -dx };
    let ay = if dy >= 0 { dy } else { -dy };
    let n0 = if ax >= ay { ax } else { ay };
    let n = if n0 >= 1 { n0 } else { 1 };
    let ghost whole = spec_line_rects(x1 as int, y1 as int, x2 as int, y2 as int);
    let mut out: Vec<Rect> = Vec::new();
    let mut i: i32 = 0;
    while i <= n
        invariant
            0 <= i <= n + 1,
            1 <= n <= 0x7FFF_FFFF,
            dx == x2 - x1 && dy == y2 - y1,
            iabs(dx as int) <= n && iabs(dy as int) <= n,
            n == imax(imax(iabs(dx as int), iabs(dy as int)), 1),
            is_i32(dx * n) && is_i32(dy * n),
            x1 != x2 && y1 != y2,
            whole == spec_line_rects(x1 as int, y1 as int, x2 as int, y2 as int),
            whole.len() == n + 1,
            rects_view(out@) == whole.take(i as int),
        decreases n + 1 - i,
    {
        assert(is_i32(dx * i)) by (nonlinear_arith)
            requires
                is_i32(dx * n),
                0 <= i <= n,
        ;
        assert(is_i32(dy * i)) by (nonlinear_arith)
            requires
                is_i32(dy * n),
                0 <= i <= n,
        ;
        proof {
            lemma_step_between(dx as int, i as int, n as int);
            lemma_step_between(dy as int, i as int, n as int);
        }
        let qx = cdiv(dx * i, n);
        let qy = cdiv(dy * i, n);
        let t: Rect = (x1 + qx, y1 + qy, 1, 1);
        let ghost before = out@;
        out.push(t);
        proof {
            assert(whole[i as int] == rect_view(t));
            assert(rects_view(out@) =~= rects_view(before).push(rect_view(t)));
            assert(whole.take(i as int + 1) =~= whole.take(i as int).push(whole[i as int]));
        }
        if i == n {
            assert(whole.take(n as int + 1) =~= whole);
            return out;
        }
        i = i + 1;
    }
    assert(whole.take(i as int) =~= whole);
    out
}

/// The blits that fill (`x`, `y`, `w`, `h`) with copies of an `iw` x `ih` image,
/// row by row from the top left, the last copies in each row and column cut to
/// the area: (x, y, w, h) of each; nothing when the area or the image is empty.
pub open spec fn spec_fill_tiles(x: int, y: int, w: int, h: int, iw: int, ih: int) -> Seq<(int, int, int, int)> {
    if w <= 0 || h <= 0 || iw <= 0 || ih <= 0 {
        Seq::empty()
    } else {
        let cols = (w + iw - 1) / iw;
        let rows = (h + ih - 1) / ih;
        Seq::new(
            (cols * rows) as nat,
            |t: int| {
                let (c, r) = (t % cols, t / cols);
                (x + c * iw, y + r * ih, imin(iw, w - c * iw), imin(ih, h - r * ih))
            },
        )
    }
}

/// An area filled with copies of an image (see `spec_fill_tiles`); the area is
/// given by 16-bit values and the image is at most 65535 pixels each way.
pub fn fill_tiles(x: i32, y: i32, w: i32, h: i32, iw: i32, ih: i32) -> (r: Vec<Rect>)
    requires
        is_i16(x as int) && is_i16(y as int) && is_i16(w as int) && is_i16(h as int),
        0 <= iw <= 0xFFFF && 0 <= ih <= 0xFFFF,
    ensures
        rects_view(r@) == spec_fill_tiles(x as int, y as int, w as int, h as int, iw as int, ih as int),
{
    let mut out: Vec<Rect> = Vec::new();
    if w <= 0 || h <= 0 || iw <= 0 || ih <= 0 {
        assert(rects_view(out@) =~= spec_fill_tiles(x as int, y as int, w as int, h as int, iw as int, ih as int));
        return out;
    }
    let ghost cols: int = (w + iw - 1) / iw as int;
    let ghost rows: int = (h + ih - 1) / ih as int;
    let ghost whole = spec_fill_tiles(x as int, y as int, w as int, h as int, iw as int, ih as int);
    proof {
        lemma_tile_count(w as int, iw as int);
        lemma_tile_count(h as int, ih as int);
        assert(cols * rows >= 0) by (nonlinear_arith)
            requires
                cols >= 1,
                rows >= 1,
        ;
    }
    let mut yy = y;
    let mut r: i32 = 0;
    while yy < y + h
        invariant
            is_i16(x as int) && is_i16(y as int) && 1 <= w <= 0x7FFF && 1 <= h <= 0x7FFF,
            1 <= iw <= 0xFFFF && 1 <= ih <= 0xFFFF,
            cols == (w + iw - 1) / iw as int && rows == (h + ih - 1) / ih as int,
            (cols - 1) * iw < w <= cols * iw,
            (rows - 1) * ih < h <= rows * ih,
            0 <= r <= rows,
            yy == y + r * ih,
            yy < y + h <==> r < rows,
            whole == spec_fill_tiles(x as int, y as int, w as int, h as int, iw as int, ih as int),
            whole.len() == cols * rows,
            rects_view(out@) == whole.take(r * cols),
        decreases rows - r,
    {
        let mut xx = x;
        let mut c: i32 = 0;
        assert((r + 1) * cols <= rows * cols) by (nonlinear_arith)
            requires
                r < rows,
                cols >= 0,
        ;
        while xx < x + w
            invariant
                is_i16(x as int) && is_i16(y as int) && 1 <= w <= 0x7FFF && 1 <= h <= 0x7FFF,
                1 <= iw <= 0xFFFF && 1 <= ih <= 0xFFFF,
                cols == (w + iw - 1) / iw as int && rows == (h + ih - 1) / ih as int,
                (cols - 1) * iw < w <= cols * iw,
                (rows - 1) * ih < h <= rows * ih,
                0 <= r < rows,
                yy == y + r * ih,
                yy < y + h,
                0 <= c <= cols,
                xx == x + c * iw,
                xx < x + w <==> c < cols,
                (r + 1) * cols <= rows * cols,
                whole == spec_fill_tiles(x as int, y as int, w as int, h as int, iw as int, ih as int),
                whole.len() == cols * rows,
                rects_view(out@) == whole.take(r * cols + c),
            decreases cols - c,
        {
            let cw = if iw <= x + w - xx { iw } else { x + w - xx };
            let ch = if ih <= y + h - yy { ih } else { y + h - yy };
            let t: Rect = (xx, yy, cw, ch);
            let ghost k: int = r * cols + c;
            proof {
                assert(k < cols * rows) by (nonlinear_arith)
                    requires
                        k == r * cols + c,
                        c < cols,
                        (r + 1) * cols <= rows * cols,
                ;
                assert(k % cols == c as int && k / cols == r as int) by (nonlinear_arith)
                    requires
                        k == r * cols + c,
                        0 <= c < cols,
                        r >= 0,
                {
                    vstd::arithmetic::div_mod::lemma_fundamental_div_mod_converse(k, cols, r as int, c as int);
                }
                assert(whole[k] == rect_view(t));
            }
            let ghost before = out@;
            out.push(t);
            proof {
                assert(rects_view(out@) =~= rects_view(before).push(rect_view(t)));
                assert(whole.take(k + 1) =~= whole.take(k).push(whole[k]));
            }
            assert((c as int + 1) * iw == c * iw + iw) by (nonlinear_arith);
            xx = xx + iw;
            c = c + 1;
            assert(c * iw < w <==> c < cols) by (nonlinear_arith)
                requires
                    (cols - 1) * iw < w <= cols * iw,
                    iw >= 1,
                    c >= 0,
            ;
        }
        assert(c == cols);
        assert((r as int + 1) * ih == r * ih + ih) by (nonlinear_arith);
        assert(r * cols + cols == (r + 1) * cols) by (nonlinear_arith);
        yy = yy + ih;
        r = r + 1;
        assert(r * ih < h <==> r < rows) by (nonlinear_arith)
            requires
                (rows - 1) * ih < h <= rows * ih,
                ih >= 1,
                r >= 0,
        ;
    }
    assert(r == rows);
    assert(whole.take(rows * cols) =~= whole) by {
        assert(rows * cols == cols * rows) by (nonlinear_arith);
    }
    out
}

proof fn lemma_tile_count(w: int, iw: int)
    requires
        1 <= w,
        1 <= iw,
    ensures
        (w + iw - 1) / iw >= 1,
        ((w + iw - 1) / iw - 1) * iw < w <= ((w + iw - 1) / iw) * iw,
{
    let q = (w + iw - 1) / iw;
    vstd::arithmetic::div_mod::lemma_fundamental_div_mod(w + iw - 1, iw);
    let m = (w + iw - 1) % iw;
    assert(w + iw - 1 == iw * q + m);
    assert(0 <= m < iw);
    assert((q - 1) * iw == q * iw - iw) by (nonlinear_arith);
    assert(q * iw == iw * q) by (nonlinear_arith);
    assert(q >= 1) by (nonlinear_arith)
        requires
            w + iw - 1 == iw * q + m,
            m < iw,
            w >= 1,
            iw >= 1,
    ;
}

} // verus!
