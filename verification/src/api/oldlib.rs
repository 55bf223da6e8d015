//! The old game library: 16-bit arithmetic, clipping, lines and text boxes.
use vstd::prelude::*;
use crate::font::{Font, FontView};
use crate::api::text::{text_width, spec_text_width};

verus! {

/// `v` wrapped to a signed 16-bit value.
pub open spec fn spec_s16(v: int) -> int {
    let m = v % 0x1_0000;
    if m >= 0x8000 { m - 0x1_0000 } else { m }
}

/// `v` wrapped to a signed 16-bit value.
pub fn s16(v: i32) -> (r: i32)
    ensures
        r == spec_s16(v as int),
{
    let r = v as i16 as i32;
    assert(r == spec_s16(v as int)) by (bit_vector)
        requires
            r == v as i16 as i32,
    ;
    r
}

/// Division truncated toward zero (C's `/`).
pub open spec fn trunc_div(a: int, b: int) -> int {
    let q = (if a >= 0 { a } else { -a }) / (if b >= 0 { b } else { -b });
    if (a >= 0) == (b >= 0) { q } else { -q }
}

fn trunc_quot(a: i32, b: i32) -> (q: i32)
    requires
        b != 0,
        !(a == i32::MIN && b == -1),
    ensures
        q == trunc_div(a as int, b as int),
{
    let aa: i64 = if a >= 0 { a as i64 } else { -(a as i64) };
    let bb: i64 = if b >= 0 { b as i64 } else { -(b as i64) };
    let m: i64 = aa / bb;
    assert(m <= aa) by (nonlinear_arith)
        requires
            m == aa / bb,
            aa >= 0,
            bb >= 1,
    ;
    assert(m < 0x8000_0000 || (a == i32::MIN && (b == 1 || b == -1))) by (nonlinear_arith)
        requires
            m == aa / bb,
            aa <= 0x8000_0000,
            bb >= 1,
            aa == 0x8000_0000 <==> a == i32::MIN,
            bb == 1 <==> (b == 1 || b == -1),
    ;
    if (a >= 0) == (b >= 0) { m as i32 } else { (-m) as i32 }
}

pub(crate) proof fn lemma_trunc_div_bound(a: int, b: int)
    requires
        b != 0,
    ensures
        (if a >= 0 { a } else { -a }) - (if b >= 0 { b } else { -b }) < (if b >= 0 { b } else { -b }) * (if trunc_div(a, b) >= 0 { trunc_div(a, b) } else { -trunc_div(a, b) }) + (if b >= 0 { b } else { -b }),
        (if b >= 0 { b } else { -b }) * (if trunc_div(a, b) >= 0 { trunc_div(a, b) } else { -trunc_div(a, b) }) <= (if a >= 0 { a } else { -a }),
{
    let aa = if a >= 0 { a } else { -a };
    let bb = if b >= 0 { b } else { -b };
    vstd::arithmetic::div_mod::lemma_fundamental_div_mod(aa, bb);
}

pub(crate) proof fn lemma_trunc_rem(a: int, b: int)
    requires
        b != 0,
    ensures
        -(if b >= 0 { b } else { -b }) < a - b * trunc_div(a, b) < (if b >= 0 { b } else { -b }),
{
    let aa = if a >= 0 { a } else { -a };
    let bb = if b >= 0 { b } else { -b };
    let m = aa / bb;
    vstd::arithmetic::div_mod::lemma_fundamental_div_mod(aa, bb);
    assert(0 <= aa - bb * m < bb);
    let q = trunc_div(a, b);
    if a >= 0 && b > 0 {
        assert(b * q == bb * m);
    } else if a >= 0 && b < 0 {
        assert(q == -m);
        assert(b * q == bb * m) by (nonlinear_arith)
            requires
                q == -m,
                b == -bb,
        ;
    } else if a < 0 && b > 0 {
        assert(q == -m);
        assert(b * q == -(bb * m)) by (nonlinear_arith)
            requires
                q == -m,
                b == bb,
        ;
    } else {
        assert(q == m);
        assert(b * q == -(bb * m)) by (nonlinear_arith)
            requires
                q == m,
                b == -bb,
        ;
    }
}

/// C's division, with 0 for a zero divisor.
pub fn cdiv(a: i32, b: i32) -> (r: i32)
    requires
        !(a == i32::MIN && b == -1),
    ensures
        r == (if b == 0 { 0 } else { trunc_div(a as int, b as int) }),
{
    if b == 0 {
        0
    } else {
        trunc_quot(a, b)
    }
}

/// C's remainder (the sign of the dividend), with 0 for a zero divisor.
pub fn cmod(a: i32, b: i32) -> (r: i32)
    requires
        !(a == i32::MIN && b == -1),
    ensures
        r == (if b == 0 { 0 } else { a - b * trunc_div(a as int, b as int) }),
{
    if b == 0 {
        0
    } else {
        let q = trunc_quot(a, b);
        assert(-0x8000_0000 <= (b as int) * (q as int) <= 0x8000_0000) by (nonlinear_arith)
            requires
                q as int == trunc_div(a as int, b as int),
                b != 0,
                -0x8000_0000 <= a < 0x8000_0000,
                -0x8000_0000 <= b < 0x8000_0000,
        {
            lemma_trunc_div_bound(a as int, b as int);
        }
        proof {
            lemma_trunc_rem(a as int, b as int);
        }
        (a as i64 - b as i64 * q as i64) as i32
    }
}

} // verus!

verus! {

/// A 0xRRGGBB colour in RGB565.
pub open spec fn spec_rgb888_to_565(c: u32) -> u16 {
    ((((c >> 16u32) & 0xF8) << 8u32) + 8 * ((c >> 8u32) & 0xFC) + ((c & 0xFF) >> 3u32)) as u16
}

/// A 0xRRGGBB colour in RGB565.
pub fn rgb888_to_565(c: u32) -> (r: u16)
    ensures
        r == spec_rgb888_to_565(c),
{
    assert((((c >> 16u32) & 0xF8) << 8u32) <= 0xF800) by (bit_vector);
    assert(((c >> 8u32) & 0xFC) <= 0xFC) by (bit_vector);
    assert(((c & 0xFF) >> 3u32) <= 0x1F) by (bit_vector);
    ((((c >> 16) & 0xF8) << 8) + 8 * ((c >> 8) & 0xFC) + ((c & 0xFF) >> 3)) as u16
}

/// The clip rectangle (x0, y0, x1, y1) limited to a `mw` x `mh` target: one that
/// misses the target altogether becomes empty.
pub open spec fn spec_check_clip(c: [i32; 4], mw: i32, mh: i32) -> [i32; 4] {
    if c[2] >= 0 && c[0] <= mw && c[3] >= 0 && c[1] <= mh {
        [if c[0] < 0 { 0 } else { c[0] }, c[1], if c[2] > mw { mw } else { c[2] }, if c[3] > mh { mh } else { c[3] }]
    } else {
        [0, 0, 0, 0]
    }
}

/// The clip rectangle limited to a `mw` x `mh` target (see `spec_check_clip`).
pub fn check_clip_to(c: [i32; 4], mw: i32, mh: i32) -> (r: [i32; 4])
    ensures
        r@ == spec_check_clip(c, mw, mh)@,
{
    if c[2] >= 0 && c[0] <= mw && c[3] >= 0 && c[1] <= mh {
        let r = [if c[0] < 0 { 0 } else { c[0] }, c[1], if c[2] > mw { mw } else { c[2] }, if c[3] > mh { mh } else { c[3] }];
        assert(r@ =~= spec_check_clip(c, mw, mh)@);
        r
    } else {
        let r = [0i32, 0, 0, 0];
        assert(r@ =~= spec_check_clip(c, mw, mh)@);
        r
    }
}

/// Whether `v` is a signed 16-bit value.
pub open spec fn is_i16(v: int) -> bool {
    -0x8000 <= v <= 0x7FFF
}

/// A `w` x `h` blit from (`sx`, `sy`) to (`dx`, `dy`) clipped to the clip rectangle
/// (x0, y0, x1, y1), in 16-bit arithmetic: `None` when nothing is left, else the
/// clipped (sx, sy, w, h, dx, dy).
pub open spec fn spec_clip_blit(c: [i32; 4], sx: int, sy: int, w: int, h: int, dx: int, dy: int) -> Option<(int, int, int, int, int, int)> {
    let (x0, y0, x1, y1) = (c[0] as int, c[1] as int, c[2] as int, c[3] as int);
    if !(dx + w > x0 && dy + h > y0) {
        None
    } else {
        let (w1, sx1, dx1) = if x0 > dx { (spec_s16(dx - x0 + w), spec_s16(sx - (dx - x0)), x0) } else { (w, sx, dx) };
        let (h1, sy1, dy1) = if y0 > dy { (spec_s16(dy - y0 + h), spec_s16(sy - (dy - y0)), y0) } else { (h, sy, dy) };
        let w2 = if dx1 + w1 > x1 { spec_s16(x1 - dx1) } else { w1 };
        if w2 <= 0 {
            None
        } else {
            let h2 = if dy1 + h1 > y1 { spec_s16(y1 - dy1) } else { h1 };
            if h2 <= 0 { None } else { Some((sx1, sy1, w2, h2, dx1, dy1)) }
        }
    }
}

/// A blit clipped to the clip rectangle (see `spec_clip_blit`); all values are 16-bit.
pub fn clip_blit(c: [i32; 4], sx: i32, sy: i32, w: i32, h: i32, dx: i32, dy: i32) -> (r: Option<(i32, i32, i32, i32, i32, i32)>)
    requires
        is_i16(c[0] as int) && is_i16(c[1] as int) && is_i16(c[2] as int) && is_i16(c[3] as int),
        is_i16(sx as int) && is_i16(sy as int) && is_i16(w as int) && is_i16(h as int) && is_i16(dx as int) && is_i16(dy as int),
    ensures
        match r {
            Some(t) => spec_clip_blit(c, sx as int, sy as int, w as int, h as int, dx as int, dy as int)
                == Some((t.0 as int, t.1 as int, t.2 as int, t.3 as int, t.4 as int, t.5 as int)),
            None => spec_clip_blit(c, sx as int, sy as int, w as int, h as int, dx as int, dy as int) is None,
        },
{
    let (x0, y0, x1, y1) = (c[0], c[1], c[2], c[3]);
    if !(dx + w > x0 && dy + h > y0) {
        return None;
    }
    let (mut w, mut sx, mut dx, mut h, mut sy, mut dy) = (w, sx, dx, h, sy, dy);
    if x0 > dx {
        w = s16(dx - x0 + w);
        sx = s16(sx - (dx - x0));
        dx = x0;
    }
    if y0 > dy {
        h = s16(dy - y0 + h);
        sy = s16(sy - (dy - y0));
        dy = y0;
    }
    if dx + w > x1 {
        w = s16(x1 - dx);
    }
    if w <= 0 {
        return None;
    }
    if dy + h > y1 {
        h = s16(y1 - dy);
    }
    if h <= 0 {
        return None;
    }
    Some((sx, sy, w, h, dx, dy))
}

/// The address of pixel (`x`, `y`) of an RGB565 image at `base` whose rows are
/// `stride` pixels apart, wrapped to 32 bits.
pub open spec fn pixel_addr(base: u32, stride: int, x: int, y: int) -> u32 {
    ((base + 2 * y * stride + 2 * x) % 0x1_0000_0000) as u32
}

/// The address written for pixel (`x`, `y`): none outside the clip rectangle.
pub open spec fn plot(c: [i32; 4], base: u32, stride: int, x: int, y: int) -> Seq<u32> {
    if c[0] <= x < c[2] && c[1] <= y < c[3] { seq![pixel_addr(base, stride, x, y)] } else { Seq::empty() }
}

/// The pixels of a line steeper than 45 degrees from (`x`, `y`) on: `n + 1` rows,
/// with the error term `e` deciding when x advances (16-bit arithmetic throughout).
pub open spec fn steep_walk(c: [i32; 4], base: u32, stride: int, x: int, y: int, e: int, n: int, tdx: int, tdy: int, step: int) -> Seq<u32>
    decreases n + 1,
{
    if n < 0 {
        Seq::empty()
    } else {
        let (x2, e2) = if e <= 0 { (x, spec_s16(e + tdx)) } else { (spec_s16(x + 1), spec_s16(e + tdx - tdy)) };
        plot(c, base, stride, x, y) + steep_walk(c, base, stride, x2, spec_s16(y + step), e2, n - 1, tdx, tdy, step)
    }
}

/// The pixels of a line at most 45 degrees steep from (`x`, `y`) on: `n + 1`
/// columns, with the error term `e` deciding when y steps.
pub open spec fn shallow_walk(c: [i32; 4], base: u32, stride: int, x: int, y: int, e: int, n: int, tdx: int, tdy: int, step: int) -> Seq<u32>
    decreases n + 1,
{
    if n < 0 {
        Seq::empty()
    } else {
        let (y2, e2) = if e <= 0 { (y, spec_s16(e + tdy)) } else { (spec_s16(y + step), spec_s16(e + tdy - tdx)) };
        plot(c, base, stride, x, y) + shallow_walk(c, base, stride, spec_s16(x + 1), y2, e2, n - 1, tdx, tdy, step)
    }
}

/// The addresses Bresenham's algorithm writes for a line from (`x1`, `y1`) to
/// (`x2`, `y2`), drawn from its left end, clipped to the clip rectangle.
pub open spec fn spec_line(c: [i32; 4], base: u32, stride: int, x1: int, y1: int, x2: int, y2: int) -> Seq<u32> {
    let (ax, ay, bx, by) = if x1 > x2 { (x2, y2, x1, y1) } else { (x1, y1, x2, y2) };
    let dx = spec_s16(bx - ax);
    let dy0 = spec_s16(by - ay);
    let (dy, step) = if dy0 < 0 { (-dy0, -1int) } else { (dy0, 1int) };
    if dx < dy {
        steep_walk(c, base, stride, ax, ay, spec_s16(2 * dx - dy), dy, 2 * dx, 2 * dy, step)
    } else {
        shallow_walk(c, base, stride, ax, ay, spec_s16(2 * dy - dx), dx, 2 * dx, 2 * dy, step)
    }
}

proof fn lemma_walks_len(c: [i32; 4], base: u32, stride: int, x: int, y: int, e: int, n: int, tdx: int, tdy: int, step: int)
    ensures
        steep_walk(c, base, stride, x, y, e, n, tdx, tdy, step).len() <= (if n < 0 { 0 } else { n + 1 }),
        shallow_walk(c, base, stride, x, y, e, n, tdx, tdy, step).len() <= (if n < 0 { 0 } else { n + 1 }),
    decreases n + 1,
{
    if n >= 0 {
        let (x2, e2) = if e <= 0 { (x, spec_s16(e + tdx)) } else { (spec_s16(x + 1), spec_s16(e + tdx - tdy)) };
        lemma_walks_len(c, base, stride, x2, spec_s16(y + step), e2, n - 1, tdx, tdy, step);
        let (y2, e3) = if e <= 0 { (y, spec_s16(e + tdy)) } else { (spec_s16(y + step), spec_s16(e + tdy - tdx)) };
        lemma_walks_len(c, base, stride, spec_s16(x + 1), y2, e3, n - 1, tdx, tdy, step);
    }
}

/// Address `a` is that of a pixel inside the clip rectangle.
pub open spec fn clipped_addr(c: [i32; 4], base: u32, stride: int, a: u32) -> bool {
    exists|x: int, y: int| c[0] <= x < c[2] && c[1] <= y < c[3] && #[trigger] pixel_addr(base, stride, x, y) == a
}

proof fn lemma_walks_clipped(c: [i32; 4], base: u32, stride: int, x: int, y: int, e: int, n: int, tdx: int, tdy: int, step: int)
    ensures
        forall|k: int| 0 <= k < steep_walk(c, base, stride, x, y, e, n, tdx, tdy, step).len()
            ==> clipped_addr(c, base, stride, #[trigger] steep_walk(c, base, stride, x, y, e, n, tdx, tdy, step)[k]),
        forall|k: int| 0 <= k < shallow_walk(c, base, stride, x, y, e, n, tdx, tdy, step).len()
            ==> clipped_addr(c, base, stride, #[trigger] shallow_walk(c, base, stride, x, y, e, n, tdx, tdy, step)[k]),
    decreases n + 1,
{
    if n >= 0 {
        let (x2, e2) = if e <= 0 { (x, spec_s16(e + tdx)) } else { (spec_s16(x + 1), spec_s16(e + tdx - tdy)) };
        lemma_walks_clipped(c, base, stride, x2, spec_s16(y + step), e2, n - 1, tdx, tdy, step);
        let (y2, e3) = if e <= 0 { (y, spec_s16(e + tdy)) } else { (spec_s16(y + step), spec_s16(e + tdy - tdx)) };
        lemma_walks_clipped(c, base, stride, spec_s16(x + 1), y2, e3, n - 1, tdx, tdy, step);
        let pl = plot(c, base, stride, x, y);
        let sa = steep_walk(c, base, stride, x2, spec_s16(y + step), e2, n - 1, tdx, tdy, step);
        let sb = shallow_walk(c, base, stride, spec_s16(x + 1), y2, e3, n - 1, tdx, tdy, step);
        if pl.len() > 0 {
            assert(clipped_addr(c, base, stride, pixel_addr(base, stride, x, y)));
        }
        assert forall|k: int| 0 <= k < (pl + sa).len() implies clipped_addr(c, base, stride, #[trigger] (pl + sa)[k]) by {
            if k >= pl.len() {
                assert((pl + sa)[k] == sa[k - pl.len()]);
            }
        }
        assert forall|k: int| 0 <= k < (pl + sb).len() implies clipped_addr(c, base, stride, #[trigger] (pl + sb)[k]) by {
            if k >= pl.len() {
                assert((pl + sb)[k] == sb[k - pl.len()]);
            }
        }
    }
}

/// Every pixel a line writes lies inside the clip rectangle.
pub proof fn line_stays_clipped(c: [i32; 4], base: u32, stride: int, x1: int, y1: int, x2: int, y2: int)
    ensures
        forall|k: int| 0 <= k < spec_line(c, base, stride, x1, y1, x2, y2).len()
            ==> clipped_addr(c, base, stride, #[trigger] spec_line(c, base, stride, x1, y1, x2, y2)[k]),
{
    let (ax, ay, bx, by) = if x1 > x2 { (x2, y2, x1, y1) } else { (x1, y1, x2, y2) };
    let dx = spec_s16(bx - ax);
    let dy0 = spec_s16(by - ay);
    let (dy, step) = if dy0 < 0 { (-dy0, -1int) } else { (dy0, 1int) };
    lemma_walks_clipped(c, base, stride, ax, ay, spec_s16(2 * dx - dy), dy, 2 * dx, 2 * dy, step);
    lemma_walks_clipped(c, base, stride, ax, ay, spec_s16(2 * dy - dx), dx, 2 * dx, 2 * dy, step);
}

/// A line is the same drawn from either end when its ends differ in x (it is
/// always drawn from its left end), and it writes at most one pixel for each step
/// along its longer side, plus one.
pub proof fn line_law(c: [i32; 4], base: u32, stride: int, x1: int, y1: int, x2: int, y2: int)
    ensures
        x1 != x2 ==> spec_line(c, base, stride, x1, y1, x2, y2) == spec_line(c, base, stride, x2, y2, x1, y1),
        ({
            let (ax, ay, bx, by) = if x1 > x2 { (x2, y2, x1, y1) } else { (x1, y1, x2, y2) };
            let dx = spec_s16(bx - ax);
            let dy0 = spec_s16(by - ay);
            let dy = if dy0 < 0 { -dy0 } else { dy0 };
            spec_line(c, base, stride, x1, y1, x2, y2).len() <= 1 + (if dx < dy { dy } else if dx < 0 { -1 } else { dx })
        }),
{
    let (ax, ay, bx, by) = if x1 > x2 { (x2, y2, x1, y1) } else { (x1, y1, x2, y2) };
    let dx = spec_s16(bx - ax);
    let dy0 = spec_s16(by - ay);
    let (dy, step) = if dy0 < 0 { (-dy0, -1int) } else { (dy0, 1int) };
    lemma_walks_len(c, base, stride, ax, ay, spec_s16(2 * dx - dy), dy, 2 * dx, 2 * dy, step);
    lemma_walks_len(c, base, stride, ax, ay, spec_s16(2 * dy - dx), dx, 2 * dx, 2 * dy, step);
}

fn plot_into(out: &mut Vec<u32>, c: [i32; 4], base: u32, stride: i32, x: i32, y: i32)
    requires
        is_i16(stride as int) && is_i16(x as int) && is_i16(y as int),
    ensures
        final(out)@ == old(out)@ + plot(c, base, stride as int, x as int, y as int),
{
    if c[0] <= x && x < c[2] && c[1] <= y && y < c[3] {
        assert(-0x2_0000_0000 <= 2 * (y as int) * (stride as int) <= 0x2_0000_0000) by (nonlinear_arith)
            requires
                is_i16(stride as int) && is_i16(y as int),
        ;
        let v: i64 = base as i64 + 2 * y as i64 * stride as i64 + 2 * x as i64;
        let u: u64 = (v + 0x100_0000_0000) as u64;
        let a: u32 = (u % 0x1_0000_0000) as u32;
        assert(a == pixel_addr(base, stride as int, x as int, y as int)) by {
            vstd::arithmetic::div_mod::lemma_mod_add_multiples_vanish(v as int, 0x1_0000_0000);
            assert((v as int + 0x100_0000_0000) % 0x1_0000_0000 == (v as int) % 0x1_0000_0000) by {
                vstd::arithmetic::div_mod::lemma_mod_multiples_vanish(0x100, v as int, 0x1_0000_0000);
            }
        }
        out.push(a);
    }
    assert(final(out)@ =~= old(out)@ + plot(c, base, stride as int, x as int, y as int));
}

/// The addresses written to draw a line (see `spec_line`); coordinates and the
/// stride are 16-bit values.
pub fn line_ex(c: [i32; 4], base: u32, stride: i32, x1: i32, y1: i32, x2: i32, y2: i32) -> (r: Vec<u32>)
    requires
        is_i16(stride as int) && is_i16(x1 as int) && is_i16(y1 as int) && is_i16(x2 as int) && is_i16(y2 as int),
    ensures
        r@ == spec_line(c, base, stride as int, x1 as int, y1 as int, x2 as int, y2 as int),
{
    let ghost target = spec_line(c, base, stride as int, x1 as int, y1 as int, x2 as int, y2 as int);
    let (ax, ay, bx, by) = if x1 > x2 { (x2, y2, x1, y1) } else { (x1, y1, x2, y2) };
    let dx = s16(bx - ax);
    let mut dy = s16(by - ay);
    let mut step: i32 = 1;
    if dy < 0 {
        dy = -dy;
        step = -1;
    }
    let (two_dx, two_dy) = (2 * dx, 2 * dy);
    let mut out: Vec<u32> = Vec::new();
    let (mut x, mut y) = (ax, ay);
    if dx < dy {
        let mut e = s16(two_dx - dy);
        let mut n = dy;
        assert(out@ + steep_walk(c, base, stride as int, x as int, y as int, e as int, n as int, two_dx as int, two_dy as int, step as int) =~= target);
        while n >= 0
            invariant
                is_i16(stride as int) && is_i16(x as int) && is_i16(y as int) && is_i16(e as int),
                -0x8000 <= dx <= 0x7FFF,
                0 <= dy <= 0x8000,
                two_dx == 2 * dx,
                two_dy == 2 * dy,
                step == 1 || step == -1,
                -1 <= n <= 0x8000,
                target == out@ + steep_walk(c, base, stride as int, x as int, y as int, e as int, n as int, two_dx as int, two_dy as int, step as int),
            decreases n + 1,
        {
            let ghost rest = steep_walk(c, base, stride as int, x as int, y as int, e as int, n as int, two_dx as int, two_dy as int, step as int);
            let ghost o0 = out@;
            plot_into(&mut out, c, base, stride, x, y);
            if e <= 0 {
                e = s16(e + two_dx);
            } else {
                x = s16(x + 1);
                e = s16(e + two_dx - two_dy);
            }
            n = n - 1;
            y = s16(y + step);
            assert(target =~= out@ + steep_walk(c, base, stride as int, x as int, y as int, e as int, n as int, two_dx as int, two_dy as int, step as int));
        }
    } else {
        let mut e = s16(two_dy - dx);
        let mut n = dx;
        assert(out@ + shallow_walk(c, base, stride as int, x as int, y as int, e as int, n as int, two_dx as int, two_dy as int, step as int) =~= target);
        while n >= 0
            invariant
                is_i16(stride as int) && is_i16(x as int) && is_i16(y as int) && is_i16(e as int),
                -0x8000 <= dx <= 0x7FFF,
                0 <= dy <= 0x8000,
                two_dx == 2 * dx,
                two_dy == 2 * dy,
                step == 1 || step == -1,
                -1 <= n <= 0x7FFF,
                target == out@ + shallow_walk(c, base, stride as int, x as int, y as int, e as int, n as int, two_dx as int, two_dy as int, step as int),
            decreases n + 1,
        {
            plot_into(&mut out, c, base, stride, x, y);
            if e <= 0 {
                e = s16(e + two_dy);
            } else {
                y = s16(y + step);
                e = s16(e + two_dy - two_dx);
            }
            n = n - 1;
            x = s16(x + 1);
            assert(target =~= out@ + shallow_walk(c, base, stride as int, x as int, y as int, e as int, n as int, two_dx as int, two_dy as int, step as int));
        }
    }
    assert(out@ =~= out@ + Seq::<u32>::empty());
    out
}

// ---------------------------------------------------------------------------
// Text boxes

/// Byte `i` of a zero-terminated text, 0 past its end.
pub open spec fn tch(raw: Seq<u8>, i: int) -> u8 {
    if 0 <= i < raw.len() { raw[i] } else { 0 }
}

/// The first position from `i` on that is not a line feed.
pub open spec fn skip_nl(raw: Seq<u8>, i: int) -> int
    decreases raw.len() - i,
{
    if 0 <= i < raw.len() && raw[i] == 10 { skip_nl(raw, i + 1) } else { i }
}

/// The position of the first zero byte of `s` from `k` on, or its length.
pub open spec fn first_zero(s: Seq<u8>, k: int) -> int
    decreases s.len() - k,
{
    if k < 0 || k >= s.len() { s.len() as int } else if s[k] == 0 { k } else { first_zero(s, k + 1) }
}

/// The bytes of the text from `start` to `stop` as the program reads them: at most
/// 199 bytes, up to the first zero byte.
pub open spec fn seg(raw: Seq<u8>, start: int, stop: int) -> Seq<u8> {
    let n = if stop - start < 0 { 0 } else if stop - start > 199 { 199 } else { stop - start };
    let e = if start + n < raw.len() { start + n } else { raw.len() as int };
    let s = if 0 <= start <= e { raw.subrange(start, e) } else { Seq::empty() };
    s.take(first_zero(s, 0))
}

/// The width of the text from `start` to `stop`, in 16-bit arithmetic.
pub open spec fn seg_w(f: Option<FontView>, raw: Seq<u8>, start: int, stop: int) -> int {
    spec_s16(spec_text_width(f, seg(raw, start, stop)) % 0x1_0000)
}

/// The next step of laying out text in a box `w` wide from byte `i`, where the current
/// line started at `start`: a run of line feeds ends the line; otherwise the next
/// character (two bytes from 0x80) is added and, when the line then gets wider than
/// the box, a new line starts at it. Returns (next i, new start, line width, whether
/// a line ended, how many lines ended).
pub open spec fn tb_step(f: Option<FontView>, raw: Seq<u8>, w: int, i: int, start: int) -> (int, int, int, int) {
    if tch(raw, i) == 10 {
        let j = skip_nl(raw, i);
        (j, j, 0, 1)
    } else {
        let n = if tch(raw, i) & 0x80 != 0 { 2int } else { 1int };
        let lw = seg_w(f, raw, start, i + n);
        if lw > w { (i + n, i, lw, 1) } else { (i + n, start, lw, 0) }
    }
}

/// The number of lines of text laid out in a box `w` wide, from byte `i` on (the first
/// pass): a line feed run ends a line (two when the text ends right after it), an
/// overlong line ends one, and a last line with some width counts too.
pub open spec fn tb_count(f: Option<FontView>, raw: Seq<u8>, w: int, i: int, start: int, lines: int, last: int) -> int
    decreases raw.len() + 2 - i,
{
    if i < 0 || i >= raw.len() || tch(raw, i) == 0 {
        lines + if last > 0 { 1int } else { 0 }
    } else {
        proof {
            lemma_skip_nl(raw, i);
        }
        let (i2, s2, lw, ended) = tb_step(f, raw, w, i, start);
        let extra = if tch(raw, i) == 10 && tch(raw, i2) == 0 { 1int } else { 0 };
        if i2 <= i { lines } else { tb_count(f, raw, w, i2, s2, lines + ended + extra, lw) }
    }
}

/// The starts and lengths of the lines of text laid out in a box `w` wide, from byte
/// `i` on (the second pass); `starts` holds the start of the current line last, and
/// a line's length is measured from its start as stored in 16 bits.
pub open spec fn tb_fill(f: Option<FontView>, raw: Seq<u8>, w: int, i: int, start: int, last: int, starts: Seq<int>, lens: Seq<int>) -> (Seq<int>, Seq<int>)
    decreases raw.len() + 2 - i,
{
    if i < 0 || i >= raw.len() || tch(raw, i) == 0 || starts.len() == 0 {
        if last > 0 && starts.len() > 0 { (starts, lens.push(i - starts.last() % 0x1_0000)) } else { (starts, lens) }
    } else {
        proof {
            lemma_skip_nl(raw, i);
        }
        let (i2, s2, lw, ended) = tb_step(f, raw, w, i, start);
        let at = if tch(raw, i) == 10 { i2 } else { i };
        let (st2, ln2) = if ended == 1 { (starts.push(at), lens.push(i - starts.last() % 0x1_0000)) } else { (starts, lens) };
        if i2 <= i { (starts, lens) } else { tb_fill(f, raw, w, i2, s2, lw, st2, ln2) }
    }
}

/// The layout of text in a text box.
#[derive(Debug)]
pub struct TextLayout {
    /// The number of lines (16-bit).
    pub lines: i32,
    /// The first byte of each line.
    pub starts: Vec<i32>,
    /// The length in bytes of each line.
    pub lens: Vec<i32>,
}

/// Skipping line feeds moves forward, and past at least one when there is one.
pub proof fn lemma_skip_nl(raw: Seq<u8>, i: int)
    requires
        0 <= i <= raw.len(),
    ensures
        i <= skip_nl(raw, i) <= raw.len(),
        0 <= i < raw.len() && raw[i] == 10 ==> skip_nl(raw, i) > i,
    decreases raw.len() - i,
{
    if i < raw.len() && raw[i] == 10 {
        lemma_skip_nl(raw, i + 1);
    }
}

proof fn lemma_first_zero(s: Seq<u8>, k: int)
    requires
        0 <= k <= s.len(),
    ensures
        k <= first_zero(s, k) <= s.len(),
        forall|j: int| k <= j < first_zero(s, k) ==> s[j] != 0,
        first_zero(s, k) < s.len() ==> s[first_zero(s, k)] == 0,
    decreases s.len() - k,
{
    if k < s.len() && s[k] != 0 {
        lemma_first_zero(s, k + 1);
    }
}

fn seg_width(f: Option<&Font>, raw: &[u8], start: usize, stop: usize) -> (r: i32)
    requires
        start <= raw.len(),
        raw.len() <= 0x1_0000,
        match f { Some(fo) => fo.wf(), None => true },
    ensures
        r == seg_w(match f { Some(fo) => Some(fo@), None => None }, raw@, start as int, stop as int),
{
    let n: usize = if stop < start { 0 } else if stop - start > 199 { 199 } else { stop - start };
    let e: usize = if start + n < raw.len() { start + n } else { raw.len() };
    let s = &raw[start..e];
    let mut k: usize = 0;
    while k < s.len() && s[k] != 0
        invariant
            k <= s.len(),
            first_zero(s@, 0) == first_zero(s@, k as int),
        decreases s.len() - k,
    {
        k = k + 1;
    }
    assert(first_zero(s@, k as int) == k);
    let t = &s[0..k];
    assert(t@ =~= seg(raw@, start as int, stop as int));
    let tw = text_width(f, t);
    s16((tw % 0x1_0000) as i32)
}

/// Lay out text in a text box `w` wide (see `tb_count` and `tb_fill`); `raw` is the
/// text up to and including its terminating zero byte (at most 64 KiB).
pub fn tb_layout(f: Option<&Font>, raw: &[u8], w: i32) -> (r: TextLayout)
    requires
        raw.len() <= 0x1_0000,
        match f { Some(fo) => fo.wf(), None => true },
    ensures
        r.lines == spec_s16(tb_count(match f { Some(fo) => Some(fo@), None => None }, raw@, w as int, 0, 0, 0, 0)),
        ({
            let (st, ln) = tb_fill(match f { Some(fo) => Some(fo@), None => None }, raw@, w as int, 0, 0, 0, seq![0int], Seq::empty());
            &&& r.starts@.len() == st.len() && forall|k: int| 0 <= k < st.len() ==> #[trigger] same_at(r.starts@, st, k)
            &&& r.lens@.len() == ln.len() && forall|k: int| 0 <= k < ln.len() ==> #[trigger] same_at(r.lens@, ln, k)
        }),
{
    let ghost fv = match f { Some(fo) => Some(fo@), None => None };
    let n = raw.len();
    // First pass: count the lines.
    let ghost target = tb_count(fv, raw@, w as int, 0, 0, 0, 0);
    let mut lines: i32 = 0;
    let mut last: i32 = 0;
    let mut i: usize = 0;
    let mut start: usize = 0;
    while i < n && raw[i] != 0
        invariant
            n == raw.len() <= 0x1_0000,
            start <= i <= n + 1,
            0 <= lines <= 2 * i,
            match f { Some(fo) => fo.wf(), None => true },
            fv == match f { Some(fo) => Some(fo@), None => None },
            target == tb_count(fv, raw@, w as int, 0, 0, 0, 0),
            target == tb_count(fv, raw@, w as int, i as int, start as int, lines as int, last as int),
        decreases n + 2 - i,
    {
        let ghost step = tb_step(fv, raw@, w as int, i as int, start as int);
        if raw[i] == 10 {
            last = 0;
            let i0 = i;
            while i < n && raw[i] == 10
                invariant
                    i0 <= i <= n,
                    n == raw.len(),
                    skip_nl(raw@, i0 as int) == skip_nl(raw@, i as int),
                decreases n - i,
            {
                i = i + 1;
            }
            proof {
                lemma_skip_nl(raw@, i0 as int);
            }
            lines = lines + 1;
            if i >= n || raw[i] == 0 {
                lines = lines + 1;
            }
            start = i;
        } else {
            let cl: usize = if raw[i] & 0x80 != 0 { 2 } else { 1 };
            last = seg_width(f, raw, start, i + cl);
            if last > w {
                lines = lines + 1;
                start = i;
            }
            i = i + cl;
        }
    }
    if last > 0 {
        lines = lines + 1;
    }
    let lines = s16(lines);
    // Second pass: the starts and lengths of the lines.
    let ghost target2 = tb_fill(fv, raw@, w as int, 0, 0, 0, seq![0int], Seq::empty());
    let mut starts: Vec<i32> = Vec::new();
    starts.push(0);
    let mut lens: Vec<i32> = Vec::new();
    let mut last: i32 = 0;
    let mut i: usize = 0;
    let mut start: usize = 0;
    let ghost mut gst: Seq<int> = seq![0int];
    let ghost mut gln: Seq<int> = Seq::empty();
    while i < n && raw[i] != 0
        invariant
            n == raw.len() <= 0x1_0000,
            start <= i <= n + 1,
            match f { Some(fo) => fo.wf(), None => true },
            fv == match f { Some(fo) => Some(fo@), None => None },
            target2 == tb_fill(fv, raw@, w as int, 0, 0, 0, seq![0int], Seq::empty()),
            target2 == tb_fill(fv, raw@, w as int, i as int, start as int, last as int, gst, gln),
            gst.len() == starts@.len() >= 1,
            forall|k: int| 0 <= k < gst.len() ==> #[trigger] start_ok(starts@, gst, n as int, k),
            gln.len() == lens@.len(),
            forall|k: int| 0 <= k < gln.len() ==> #[trigger] same_at(lens@, gln, k),
        decreases n + 2 - i,
    {
        let ghost s0 = starts@;
        let ghost g0 = gst;
        let ghost l0 = lens@;
        let ghost h0 = gln;
        if raw[i] == 10 {
            last = 0;
            let st = starts[starts.len() - 1] % 0x1_0000;
            let i0 = i;
            lens.push(i as i32 - st);
            while i < n && raw[i] == 10
                invariant
                    i0 <= i <= n,
                    n == raw.len(),
                    skip_nl(raw@, i0 as int) == skip_nl(raw@, i as int),
                decreases n - i,
            {
                i = i + 1;
            }
            proof {
                lemma_skip_nl(raw@, i0 as int);
                assert(start_ok(s0, g0, n as int, g0.len() - 1));
                gln = gln.push(i0 - gst.last() % 0x1_0000);
                gst = gst.push(i as int);
                lemma_push_same(l0, lens@, h0, gln);
            }
            starts.push(i as i32);
            proof {
                lemma_push_matches(s0, starts@, g0, gst, n as int);
            }
            start = i;
        } else {
            let cl: usize = if raw[i] & 0x80 != 0 { 2 } else { 1 };
            last = seg_width(f, raw, start, i + cl);
            if last > w {
                start = i;
                let st = starts[starts.len() - 1] % 0x1_0000;
                lens.push(i as i32 - st);
                starts.push(i as i32);
                proof {
                    assert(start_ok(s0, g0, n as int, g0.len() - 1));
                    gln = gln.push(i - gst.last() % 0x1_0000);
                    gst = gst.push(i as int);
                    lemma_push_same(l0, lens@, h0, gln);
                }
                proof {
                    lemma_push_matches(s0, starts@, g0, gst, n as int);
                }
                }
            i = i + cl;
        }
    }
    let ghost l0 = lens@;
    let ghost h0 = gln;
    if last > 0 {
        let st = starts[starts.len() - 1] % 0x1_0000;
        lens.push(i as i32 - st);
        proof {
            assert(start_ok(starts@, gst, n as int, gst.len() - 1));
            gln = gln.push(i - gst.last() % 0x1_0000);
            lemma_push_same(l0, lens@, h0, gln);
        }
    }
    assert forall|k: int| 0 <= k < gst.len() implies #[trigger] same_at(starts@, gst, k) by {
        assert(start_ok(starts@, gst, n as int, k));
    }
    TextLayout { lines, starts, lens }
}

/// Entry `k` of a list of 32-bit values is the number `g[k]`.
pub open spec fn same_at(s: Seq<i32>, g: Seq<int>, k: int) -> bool {
    s[k] as int == g[k]
}

proof fn lemma_push_same(s0: Seq<i32>, s1: Seq<i32>, g0: Seq<int>, g1: Seq<int>)
    requires
        s0.len() == g0.len(),
        forall|k: int| 0 <= k < g0.len() ==> #[trigger] same_at(s0, g0, k),
        s1.len() == s0.len() + 1,
        s1 == s0.push(s1[s0.len() as int]),
        g1 == g0.push(g1[g0.len() as int]),
        s1[s0.len() as int] as int == g1[g0.len() as int],
    ensures
        forall|k: int| 0 <= k < g1.len() ==> #[trigger] same_at(s1, g1, k),
{
    assert forall|k: int| 0 <= k < g1.len() implies #[trigger] same_at(s1, g1, k) by {
        if k < g0.len() {
            assert(same_at(s0, g0, k));
            assert(s1[k] == s0[k]);
            assert(g1[k] == g0[k]);
        }
    }
}

/// Entry `k` of the line starts agrees with its mathematical value, a position in
/// the text.
pub open spec fn start_ok(s: Seq<i32>, g: Seq<int>, n: int, k: int) -> bool {
    s[k] as int == g[k] && 0 <= g[k] <= n + 1
}

proof fn lemma_push_matches(s0: Seq<i32>, s1: Seq<i32>, g0: Seq<int>, g1: Seq<int>, n: int)
    requires
        s0.len() == g0.len(),
        forall|k: int| 0 <= k < g0.len() ==> #[trigger] start_ok(s0, g0, n, k),
        s1 == s0.push(s1.last()),
        g1 == g0.push(g1.last()),
        s1.last() as int == g1.last(),
        0 <= g1.last() <= n + 1,
    ensures
        forall|k: int| 0 <= k < g1.len() ==> #[trigger] start_ok(s1, g1, n, k),
{
    assert forall|k: int| 0 <= k < g1.len() implies #[trigger] start_ok(s1, g1, n, k) by {
        if k < g0.len() {
            assert(start_ok(s0, g0, n, k));
            assert(s1[k] == s0[k]);
            assert(g1[k] == g0[k]);
        }
    }
}

/// The lines per page and the pages of a text box `h` high with lines `line_h` apart
/// holding `lines` lines (the line count per page kept in 8 bits).
pub open spec fn spec_tb_pages(h: int, line_h: int, lines: int) -> (int, int) {
    let q = if line_h == 0 { 0 } else { trunc_div(h, line_h) };
    let m = q % 0x100;
    let per = if m >= 0x80 { m - 0x100 } else { m };
    (per, if per == 0 { 0 } else { trunc_div(per + lines - 1, per) })
}

/// The lines per page and the pages of a text box (see `spec_tb_pages`).
pub fn tb_pages(h: i32, line_h: i32, lines: i32) -> (r: (i32, i32))
    requires
        is_i16(h as int) && is_i16(line_h as int) && is_i16(lines as int),
    ensures
        (r.0 as int, r.1 as int) == spec_tb_pages(h as int, line_h as int, lines as int),
{
    let q = cdiv(h, line_h);
    let per = q as i8 as i32;
    assert(per == (if (q as int) % 0x100 >= 0x80 { (q as int) % 0x100 - 0x100 } else { (q as int) % 0x100 })) by (bit_vector)
        requires
            per == q as i8 as i32,
    ;
    (per, cdiv(per + lines - 1, per))
}

/// How far the lines of a text box move down to stand in the middle of a box `bh`
/// high (style bit 4): the lines shown on the page, `per` of them or those left,
/// each `fh + 2` high; 0 without that style bit.
pub open spec fn spec_tb_yoff(style: u16, per: int, page: int, lines: int, bh: int, fh: int) -> int {
    if style & 4 != 0 {
        let first = page * per;
        let cnt = if per + first > lines { spec_s16(lines - first) } else { per };
        spec_s16(bh - (fh + 2) * cnt) / 2
    } else {
        0
    }
}

/// Drawn text box lines as integers.
pub open spec fn slots_view(v: Seq<(i32, i32)>) -> Seq<(int, int)> {
    v.map_values(|t: (i32, i32)| (t.0 as int, t.1 as int))
}

/// The lines of a text box drawn from line `i` up to, not including, `end`: each
/// existing line (below `lines`) as its number and the height it is drawn at, the
/// next one `step` lower (16-bit).
pub open spec fn tb_slots(i: int, end: int, lines: int, y: int, step: int, yoff: int) -> Seq<(int, int)>
    decreases end - i,
{
    if i >= end {
        Seq::empty()
    } else if lines > i {
        seq![(i, y + yoff)] + tb_slots(i + 1, end, lines, spec_s16(step + y), step, yoff)
    } else {
        tb_slots(i + 1, end, lines, y, step, yoff)
    }
}

/// The lines of page `page` of a text box at height `y`, `per` lines a page out
/// of `lines`, each line `step` below the last, in a box `bh` high with a font
/// `fh` high: each drawn line's number and the height it is drawn at.
pub open spec fn spec_tb_draw_lines(style: u16, y: int, per: int, page: int, lines: int, step: u16, bh: int, fh: int) -> Seq<(int, int)> {
    tb_slots(page * per, per + page * per, lines, y, step as int, spec_tb_yoff(style, per, page, lines, bh, fh))
}

/// The lines a text box draws and their heights (see `spec_tb_draw_lines`); the
/// counts are 8-bit, the positions and the font height 16-bit values.
pub fn tb_draw_lines(style: u16, y: i32, per: i32, page: i32, lines: i32, step: u16, bh: i32, fh: i32) -> (r: Vec<(i32, i32)>)
    requires
        -0x80 <= per < 0x80 && -0x80 <= page < 0x80 && -0x80 <= lines < 0x80,
        is_i16(y as int) && is_i16(bh as int) && is_i16(fh as int),
    ensures
        slots_view(r@) == spec_tb_draw_lines(style, y as int, per as int, page as int, lines as int, step, bh as int, fh as int),
{
    assert(-0x4000 <= (page as int) * (per as int) <= 0x4000) by (nonlinear_arith)
        requires
            -0x80 <= per < 0x80 && -0x80 <= page < 0x80,
    ;
    let first = page * per;
    let mut yoff: i32 = 0;
    if style & 4 != 0 {
        let cnt = if per + first > lines { s16(lines - first) } else { per };
        assert(-0x4100_0000 <= (fh as int + 2) * (cnt as int) <= 0x4100_0000) by (nonlinear_arith)
            requires
                is_i16(fh as int),
                is_i16(cnt as int),
        ;
        let v = s16(bh - (fh + 2) * cnt);
        yoff = v >> 1;
        assert((v >> 1) as int == (v as int) / 2) by (bit_vector)
            requires
                is_i16(v as int),
        ;
    }
    assert(yoff as int == spec_tb_yoff(style, per as int, page as int, lines as int, bh as int, fh as int));
    let end = per + first;
    let ghost whole = tb_slots(first as int, end as int, lines as int, y as int, step as int, yoff as int);
    let mut out: Vec<(i32, i32)> = Vec::new();
    let mut i = first;
    let mut yy = y;
    assert(slots_view(out@) + tb_slots(i as int, end as int, lines as int, yy as int, step as int, yoff as int) =~= whole);
    while end > i
        invariant
            -0x4000 <= first <= i,
            i <= end || end <= first,
            -0x4080 <= end <= 0x4080,
            is_i16(yy as int),
            -0x4000 <= yoff <= 0x4000,
            whole == tb_slots(first as int, end as int, lines as int, y as int, step as int, yoff as int),
            slots_view(out@) + tb_slots(i as int, end as int, lines as int, yy as int, step as int, yoff as int) == whole,
        decreases end - i,
    {
        let ghost before = out@;
        let ghost rest = tb_slots(i as int, end as int, lines as int, yy as int, step as int, yoff as int);
        if lines > i {
            out.push((i, yy + yoff));
            proof {
                assert(slots_view(out@) =~= slots_view(before).push((i as int, yy as int + yoff as int)));
                assert(slots_view(before).push((i as int, yy as int + yoff as int))
                    + tb_slots(i + 1, end as int, lines as int, spec_s16(step as int + yy as int), step as int, yoff as int)
                    =~= slots_view(before) + rest);
            }
            yy = s16(step as i32 + yy);
        }
        i = s16(i + 1);
    }
    out
}

/// How far a line `sw` wide moves right to stand in the middle of a text box
/// `bw` wide (style bit 2): none when it is as wide as the box or wider.
pub fn tb_center(sw: i32, bw: i32) -> (r: i32)
    requires
        is_i16(sw as int) && is_i16(bw as int),
    ensures
        r as int == (if sw >= bw { 0 } else { spec_s16(trunc_div(bw - sw, 2)) }),
{
    if sw >= bw { 0 } else { s16(cdiv(bw - sw, 2)) }
}

// ---------------------------------------------------------------------------
// Actor files

/// The `k`-th value of an actor description: a little-endian 32-bit word read as a
/// signed 16-bit value, 0 past the end of the data.
pub open spec fn rint(d: Seq<u8>, k: int) -> i32 {
    if 0 <= k && 4 * k + 4 <= d.len() {
        spec_s16(d[4 * k] as int + d[4 * k + 1] as int * 0x100 + d[4 * k + 2] as int * 0x1_0000 + d[4 * k + 3] as int * 0x100_0000) as i32
    } else {
        0
    }
}

/// A frame rectangle of an actor: position, size and image.
#[derive(Clone, Copy, Debug, PartialEq, Eq, Structural)]
pub struct ActorFrame {
    pub x: i32,
    pub y: i32,
    pub w: i32,
    pub h: i32,
    pub img: i32,
}

/// One step of an action: how long it lasts and the parts it shows (five values each).
#[derive(Debug)]
pub struct ActorStep {
    pub dur: i32,
    pub np: i32,
    pub parts: Vec<(i32, i32, i32, i32, i32)>,
}

/// One action: its step count and its steps.
#[derive(Debug)]
pub struct ActorAction {
    pub nf: i32,
    pub steps: Vec<ActorStep>,
}

/// The frames and actions of an actor description.
#[derive(Debug)]
pub struct ActorData {
    pub frames: Vec<ActorFrame>,
    pub n_acts: i32,
    pub acts: Vec<ActorAction>,
}

/// The mathematical value of a step.
pub struct StepView {
    pub dur: i32,
    pub np: i32,
    pub parts: Seq<(i32, i32, i32, i32, i32)>,
}

/// The mathematical value of an action.
pub struct ActionView {
    pub nf: i32,
    pub steps: Seq<StepView>,
}

impl View for ActorStep {
    type V = StepView;

    open spec fn view(&self) -> StepView {
        StepView { dur: self.dur, np: self.np, parts: self.parts@ }
    }
}

impl View for ActorAction {
    type V = ActionView;

    open spec fn view(&self) -> ActionView {
        ActionView { nf: self.nf, steps: steps_view(self.steps@) }
    }
}

/// The frame rectangle whose five values start at value `p`: the second corner is
/// turned into a size.
pub open spec fn frame_at(d: Seq<u8>, p: int) -> (i32, i32, i32, i32, i32) {
    (rint(d, p), rint(d, p + 1), (rint(d, p + 2) - rint(d, p)) as i32, (rint(d, p + 3) - rint(d, p + 1)) as i32, rint(d, p + 4))
}

/// The five values of the part that starts at value `p`.
pub open spec fn part_at(d: Seq<u8>, p: int) -> (i32, i32, i32, i32, i32) {
    (rint(d, p), rint(d, p + 1), rint(d, p + 2), rint(d, p + 3), rint(d, p + 4))
}

/// The steps of an action from value `p` on, `cnt` of them, after those in `acc`;
/// and where they end. A step is its duration, its part count, and that many parts.
pub open spec fn parse_steps(d: Seq<u8>, p: int, cnt: int, acc: Seq<StepView>) -> (Seq<StepView>, int)
    decreases cnt,
{
    if cnt <= 0 {
        (acc, p)
    } else {
        let dur = rint(d, p);
        let np = rint(d, p + 1);
        let parts = if np > 0 { Seq::new(np as nat, |k: int| part_at(d, p + 2 + 5 * k)) } else { Seq::empty() };
        let p2 = p + 2 + if np > 0 { 5 * np } else { 0 };
        parse_steps(d, p2, cnt - 1, acc.push(StepView { dur, np, parts }))
    }
}

/// The actions of an actor from value `p` on, `cnt` of them, after those in `acc`;
/// and where they end. An action is its step count and that many steps.
pub open spec fn parse_actions(d: Seq<u8>, p: int, cnt: int, acc: Seq<ActionView>) -> (Seq<ActionView>, int)
    decreases cnt,
{
    if cnt <= 0 {
        (acc, p)
    } else {
        let nf = rint(d, p);
        let st = if nf > 0 { parse_steps(d, p + 1, nf as int, Seq::empty()) } else { (Seq::empty(), p + 1) };
        parse_actions(d, st.1, cnt - 1, acc.push(ActionView { nf, steps: st.0 }))
    }
}

fn rint_at(d: &[u8], k: u64) -> (r: i32)
    ensures
        r == rint(d@, k as int),
{
    if 4 * (k as u128) + 4 <= d.len() as u128 {
        let at = (4 * k) as usize;
        let v: i64 = d[at] as i64 + d[at + 1] as i64 * 0x100 + d[at + 2] as i64 * 0x1_0000 + d[at + 3] as i64 * 0x100_0000;
        let m = v % 0x1_0000;
        (if m >= 0x8000 { m - 0x1_0000 } else { m }) as i32
    } else {
        0
    }
}

fn parse_parts_exec(d: &[u8], p: u64, np: i32) -> (r: Vec<(i32, i32, i32, i32, i32)>)
    requires
        np > 0,
        p <= 0x5_0000_0000_0000,
    ensures
        r@ == Seq::new(np as nat, |k: int| part_at(d@, p + 2 + 5 * k)),
{
    let mut out: Vec<(i32, i32, i32, i32, i32)> = Vec::new();
    let mut k: i32 = 0;
    while k < np
        invariant
            0 <= k <= np,
            p <= 0x5_0000_0000_0000,
            out@ =~= Seq::new(k as nat, |j: int| part_at(d@, p + 2 + 5 * j)),
        decreases np - k,
    {
        let q: u64 = p + 2 + 5 * k as u64;
        out.push((rint_at(d, q), rint_at(d, q + 1), rint_at(d, q + 2), rint_at(d, q + 3), rint_at(d, q + 4)));
        k = k + 1;
    }
    out
}

/// The steps of an action (see `parse_steps`).
fn parse_steps_exec(d: &[u8], p: u64, cnt: i32) -> (r: (Vec<ActorStep>, u64))
    requires
        p <= 0x4_0000_0000_0000,
        0 < cnt <= 0x7FFF,
    ensures
        ({
            let (s, e) = parse_steps(d@, p as int, cnt as int, Seq::empty());
            steps_view(r.0@) == s && r.1 as int == e
        }),
        p <= r.1 <= p + 0x7FFF * 0x3_0000,
{
    let ghost target = parse_steps(d@, p as int, cnt as int, Seq::empty());
    let mut out: Vec<ActorStep> = Vec::new();
    let mut q: u64 = p;
    let mut j: i32 = 0;
    assert(steps_view(out@) =~= Seq::<StepView>::empty());
    while j < cnt
        invariant
            0 <= j <= cnt <= 0x7FFF,
            p <= q <= p + j * 0x3_0000,
            p <= 0x4_0000_0000_0000,
            target == parse_steps(d@, p as int, cnt as int, Seq::empty()),
            target == parse_steps(d@, q as int, (cnt - j) as int, steps_view(out@)),
        decreases cnt - j,
    {
        let dur = rint_at(d, q);
        let np = rint_at(d, q + 1);
        let parts = if np > 0 { parse_parts_exec(d, q, np) } else { Vec::new() };
        let ghost o0 = steps_view(out@);
        let step = ActorStep { dur, np, parts };
        let ghost sv = step@;
        out.push(step);
        assert(steps_view(out@) =~= o0.push(sv));
        q = q + 2 + if np > 0 { 5 * np as u64 } else { 0 };
        j = j + 1;
    }
    (out, q)
}

#[verifier::rlimit(60)]
fn parse_action_exec(d: &[u8], q: u64) -> (r: (ActorAction, u64))
    requires
        q <= 0x3_0000_0000_0000,
    ensures
        ({
            let nf = rint(d@, q as int);
            let st = if nf > 0 { parse_steps(d@, q as int + 1, nf as int, Seq::empty()) } else { (Seq::<StepView>::empty(), q as int + 1) };
            &&& r.0@ == ActionView { nf, steps: st.0 }
            &&& r.1 as int == st.1
        }),
        q < r.1 <= q + 1 + 0x7FFF * 0x3_0000,
{
    let nf = rint_at(d, q);
    if nf > 0 {
        let (steps, e) = parse_steps_exec(d, q + 1, nf);
        (ActorAction { nf, steps }, e)
    } else {
        let steps: Vec<ActorStep> = Vec::new();
        assert(steps_view(steps@) =~= Seq::<StepView>::empty());
        (ActorAction { nf, steps }, q + 1)
    }
}

/// Parse the frames and actions of an actor description, given as the data from the
/// position where they start: a frame count and that many frames (five values each:
/// two corners and an image), then an action count and that many actions.
#[verifier::rlimit(40)]
pub fn actor_load_rest(d: &[u8]) -> (r: ActorData)
    ensures
        ({
            let n = rint(d@, 0);
            let nfr = if n > 0 { n as int } else { 0 };
            let (acts, _e) = parse_actions(d@, 1 + 5 * nfr + 1, rint(d@, 1 + 5 * nfr) as int, Seq::empty());
            &&& r.frames@.len() == nfr
            &&& forall|i: int| 0 <= i < nfr ==> #[trigger] frame_of(r.frames@[i]) == frame_at(d@, 1 + 5 * i)
            &&& r.n_acts == rint(d@, 1 + 5 * nfr)
            &&& acts_view(r.acts@) == acts
        }),
{
    let n = rint_at(d, 0);
    let mut frames: Vec<ActorFrame> = Vec::new();
    let mut i: i32 = 0;
    let nfr: i32 = if n > 0 { n } else { 0 };
    while i < nfr
        invariant
            0 <= i <= nfr <= 0x7FFF,
            nfr as int == (if rint(d@, 0) > 0 { rint(d@, 0) as int } else { 0 }),
            frames@.len() == i,
            forall|k: int| 0 <= k < i ==> #[trigger] frame_of(frames@[k]) == frame_at(d@, 1 + 5 * k),
        decreases nfr - i,
    {
        let q: u64 = 1 + 5 * i as u64;
        let x0 = rint_at(d, q);
        let y0 = rint_at(d, q + 1);
        let x1 = rint_at(d, q + 2);
        let y1 = rint_at(d, q + 3);
        let img = rint_at(d, q + 4);
        frames.push(ActorFrame { x: x0, y: y0, w: x1 - x0, h: y1 - y0, img });
        i = i + 1;
    }
    let pa: u64 = 1 + 5 * nfr as u64;
    let na = rint_at(d, pa);
    let ghost target = parse_actions(d@, pa as int + 1, na as int, Seq::empty());
    let mut acts: Vec<ActorAction> = Vec::new();
    let mut q: u64 = pa + 1;
    let mut a: i32 = 0;
    assert(acts_view(acts@) =~= Seq::<ActionView>::empty());
    while a < na
        invariant
            a <= (if na > 0 { na } else { 0 }),
            na <= 0x7FFF,
            0 <= a,
            pa + 1 <= q <= pa + 1 + a * 0x4_0000_0000,
            pa <= 0x3_0000,
            target == parse_actions(d@, pa as int + 1, na as int, Seq::empty()),
            target == parse_actions(d@, q as int, (na - a) as int, acts_view(acts@)),
        decreases na - a,
    {
        let ghost a0 = acts_view(acts@);
        let (act, e) = parse_action_exec(d, q);
        let ghost av = act@;
        acts.push(act);
        assert(acts_view(acts@) =~= a0.push(av));
        q = e;
        a = a + 1;
    }
    ActorData { frames, n_acts: na, acts }
}

/// The values of a list of steps.
pub open spec fn steps_view(s: Seq<ActorStep>) -> Seq<StepView> {
    s.map_values(|x: ActorStep| x@)
}

/// The values of a list of actions.
pub open spec fn acts_view(s: Seq<ActorAction>) -> Seq<ActionView> {
    s.map_values(|x: ActorAction| x@)
}

/// The values of a frame rectangle.
pub open spec fn frame_of(f: ActorFrame) -> (i32, i32, i32, i32, i32) {
    (f.x, f.y, f.w, f.h, f.img)
}


// ---------------------------------------------------------------------------
// Image numbers

/// The blits of the digits of `v` from the least significant on, each (source x,
/// destination x) with the destination moving left by `cw + gap` per digit; and the
/// destination x after the last one.
pub open spec fn digit_blits(v: nat, cw: int, gap: int, pos: int) -> (Seq<(i32, i32)>, int)
    decreases v,
{
    if v == 0 {
        (Seq::empty(), pos)
    } else {
        let (rest, end) = digit_blits(v / 10, cw, gap, spec_s16(pos - (cw + gap)));
        (seq![(spec_s16((v % 10) * cw) as i32, pos as i32)] + rest, end)
    }
}

/// The number of decimal digits of `v` (1 for 0).
pub open spec fn dec_digits(v: nat) -> int
    decreases v,
{
    if v < 10 { 1 } else { 1 + dec_digits(v / 10) }
}

/// Where a number drawn from digit images goes: the blits (source x within the digit
/// strip, destination x) of a number drawn with digits `cw` wide and `gap` apart,
/// placed at `x` right-aligned (`align` 0), centred (1) or left of `x` (2), else at 0;
/// digits are drawn from the last one leftwards, the minus sign (image 10) after them.
pub open spec fn spec_number_blits(num: u32, cw: i32, gap: i32, x: i32, align: u32) -> Seq<(i32, i32)> {
    let n: int = if num >= 0x8000_0000 { num - 0x1_0000_0000 } else { num as int };
    let v: nat = (if n < 0 { -n } else { n }) as nat;
    let d = dec_digits(v) + if n < 0 { 1int } else { 0 };
    let total = spec_s16(d * cw + (d - 1) * gap);
    let pos = if align == 0 {
        spec_s16(x + total - cw)
    } else if align == 1 {
        spec_s16(total / 2 + x - cw)
    } else if align == 2 {
        spec_s16(x - cw)
    } else {
        0
    };
    if v == 0 {
        seq![(0i32, pos as i32)]
    } else {
        let (ds, end) = digit_blits(v, cw as int, gap as int, pos);
        if n < 0 { ds.push((spec_s16(10 * cw) as i32, end as i32)) } else { ds }
    }
}

proof fn lemma_dec_digits(v: nat, k: nat)
    requires
        k >= 1,
        v < crate::api::printf::pw(10, k),
    ensures
        1 <= dec_digits(v) <= k,
    decreases v,
{
    if v >= 10 {
        let m = crate::api::printf::pw(10, (k - 1) as nat);
        assert(k >= 2) by {
            reveal_with_fuel(crate::api::printf::pw, 2);
        }
        assert(v / 10 < m) by (nonlinear_arith)
            requires
                v < 10 * m,
        ;
        lemma_dec_digits(v / 10, (k - 1) as nat);
    }
}

proof fn lemma_dec_pos(v: nat)
    ensures
        dec_digits(v) >= 1,
    decreases v,
{
    if v >= 10 {
        lemma_dec_pos(v / 10);
    }
}

/// Where the digits of a number drawn from digit images go (see `spec_number_blits`);
/// the sizes and `x` are 16-bit values.
pub fn number_blits(num: u32, cw: i32, gap: i32, x: i32, align: u32) -> (r: Vec<(i32, i32)>)
    requires
        is_i16(cw as int) && is_i16(gap as int) && is_i16(x as int),
    ensures
        r@ == spec_number_blits(num, cw, gap, x, align),
{
    let n: i64 = if num >= 0x8000_0000 { num as i64 - 0x1_0000_0000 } else { num as i64 };
    let mut v: u64 = if n < 0 { (-n) as u64 } else { n as u64 };
    let ghost v0 = v as nat;
    proof {
        reveal_with_fuel(crate::api::printf::pw, 11);
        assert(crate::api::printf::pw(10, 10) == 10_000_000_000);
        lemma_dec_digits(v0, 10);
    }
    let mut d: i32 = 1;
    let mut q: u64 = v;
    while q / 10 != 0
        invariant
            v0 < 0x1_0000_0001,
            q <= v0,
            1 <= d <= 10,
            d + dec_digits(q as nat) - 1 == dec_digits(v0),
            dec_digits(v0) <= 10,
        decreases q,
    {
        proof {
            lemma_dec_pos((q / 10) as nat);
        }
        q = q / 10;
        d = d + 1;
    }
    assert(d == dec_digits(v0));
    if n < 0 {
        d = d + 1;
    }
    assert(-0x8000 * 11 <= d * cw <= 0x7FFF * 11 && -0x8000 * 11 <= (d - 1) * gap <= 0x7FFF * 11) by (nonlinear_arith)
        requires
            1 <= d <= 11,
            is_i16(cw as int) && is_i16(gap as int),
    ;
    let total = s16(d * cw + (d - 1) * gap);
    proof {
        assert((total >> 1) == total / 2) by (bit_vector);
    }
    let mut pos: i32 = if align == 0 {
        s16(x + total - cw)
    } else if align == 1 {
        s16((total >> 1) + x - cw)
    } else if align == 2 {
        s16(x - cw)
    } else {
        0
    };
    let mut out: Vec<(i32, i32)> = Vec::new();
    if v == 0 {
        out.push((0, pos));
        return out;
    }
    let ghost target = digit_blits(v0, cw as int, gap as int, pos as int);
    assert(out@ + target.0 =~= target.0);
    while v > 0
        invariant
            is_i16(cw as int) && is_i16(gap as int),
            -0x8000 <= pos <= 0x7FFF,
            out@ + digit_blits(v as nat, cw as int, gap as int, pos as int).0 == target.0,
            digit_blits(v as nat, cw as int, gap as int, pos as int).1 == target.1,
        decreases v,
    {
        let rem = (v % 10) as i32;
        assert(-0x8000 * 9 <= rem * cw <= 0x7FFF * 9) by (nonlinear_arith)
            requires
                0 <= rem <= 9,
                is_i16(cw as int),
        ;
        let qq = v / 10;
        let ghost o0 = out@;
        let ghost rest = digit_blits(qq as nat, cw as int, gap as int, spec_s16(pos - (cw + gap)));
        out.push((s16(rem * cw), pos));
        assert(o0 + (seq![(spec_s16((v % 10) * cw) as i32, pos)] + rest.0) =~= out@ + rest.0);
        pos = s16(pos - (cw + gap));
        v = qq;
    }
    assert(out@ =~= target.0);
    if n < 0 {
        out.push((s16(10 * cw), pos));
    }
    out
}


// ---------------------------------------------------------------------------
// Random numbers and clipping

/// A random number in `lo..=hi` the old library's way: the generator steps on (see
/// `spec_next_rand`), the new state is taken modulo the range's size (C's `%`, 32-bit
/// wrapping size), its 16-bit absolute value is added to `lo`, and the sum is wrapped
/// to 16 bits. Gives the new state and the number.
pub open spec fn spec_lib_random(st: u32, lo: i32, hi: i32) -> (u32, i32) {
    let st2 = crate::api::aps::spec_next_rand(st);
    let span = ((hi as int - lo as int + 1) % 0x1_0000_0000);
    let span_s = if span >= 0x8000_0000 { span - 0x1_0000_0000 } else { span };
    let rem = if span_s == 0 { 0 } else { st2 - span_s * trunc_div(st2 as int, span_s) };
    let r16 = spec_s16(rem);
    let a = if r16 < 0 { -r16 } else { r16 };
    (st2, spec_s16(a + lo) as i32)
}

/// A random number in `lo..=hi` (see `spec_lib_random`).
pub fn lib_random(st: u32, lo: i32, hi: i32) -> (r: (u32, i32))
    requires
        lo <= i32::MAX - 0x8000,
    ensures
        r == spec_lib_random(st, lo, hi),
{
    let st2 = crate::api::aps::next_rand(st);
    let span = hi.wrapping_sub(lo).wrapping_add(1);
    assert(span as int == (if (hi as int - lo as int + 1) % 0x1_0000_0000 >= 0x8000_0000 {
        (hi as int - lo as int + 1) % 0x1_0000_0000 - 0x1_0000_0000
    } else {
        (hi as int - lo as int + 1) % 0x1_0000_0000
    })) by (bit_vector)
        requires
            span == hi.wrapping_sub(lo).wrapping_add(1),
    ;
    let rem = cmod(st2 as i32, span);
    let r16 = s16(rem);
    let a = if r16 < 0 { -r16 } else { r16 };
    (st2, s16(a + lo))
}

/// The clip rectangle (x0, y0, x1, y1) narrowed to the `w` x `h` area at (`x`, `y`)
/// in 16-bit arithmetic; empty when they do not meet.
pub open spec fn spec_and_clip(c: [i32; 4], x: int, y: int, w: int, h: int) -> [i32; 4] {
    let (x0, y0, x1, y1) = (c[0] as int, c[1] as int, c[2] as int, c[3] as int);
    if x + w >= x0 && y + h >= y0 && x1 >= x && y1 >= y {
        let (w1, xa) = if x0 > x { (spec_s16(w - (x0 - x)), x0) } else { (w, x) };
        let (h1, ya) = if y0 > y { (spec_s16(h - (y0 - y)), y0) } else { (h, y) };
        let w2 = if xa + w1 > x1 { spec_s16(x1 - xa) } else { w1 };
        let h2 = if ya + h1 > y1 { spec_s16(y1 - ya) } else { h1 };
        let (w3, h3) = (if w2 > 0 { w2 } else { 0 }, if h2 > 0 { h2 } else { 0 });
        [xa as i32, ya as i32, spec_s16(xa + w3) as i32, spec_s16(ya + h3) as i32]
    } else {
        [0, 0, 0, 0]
    }
}

/// The clip rectangle narrowed to an area (see `spec_and_clip`); all values 16-bit.
pub fn and_clip(c: [i32; 4], x: i32, y: i32, w: i32, h: i32) -> (r: [i32; 4])
    requires
        is_i16(c[0] as int) && is_i16(c[1] as int) && is_i16(c[2] as int) && is_i16(c[3] as int),
        is_i16(x as int) && is_i16(y as int) && is_i16(w as int) && is_i16(h as int),
    ensures
        r@ == spec_and_clip(c, x as int, y as int, w as int, h as int)@,
{
    let (x0, y0, x1, y1) = (c[0], c[1], c[2], c[3]);
    if x + w >= x0 && y + h >= y0 && x1 >= x && y1 >= y {
        let (mut x, mut y, mut w, mut h) = (x, y, w, h);
        if x0 > x {
            w = s16(w - (x0 - x));
            x = x0;
        }
        if y0 > y {
            h = s16(h - (y0 - y));
            y = y0;
        }
        if x + w > x1 {
            w = s16(x1 - x);
        }
        if y + h > y1 {
            h = s16(y1 - y);
        }
        let w = if w > 0 { w } else { 0 };
        let h = if h > 0 { h } else { 0 };
        let r = [x, y, s16(x + w), s16(y + h)];
        r
    } else {
        let r = [0i32, 0, 0, 0];
        r
    }
}


/// The width of the old library's screen.
pub const SCREEN_W: i32 = 240;
/// The height of the old library's screen.
pub const SCREEN_H: i32 = 400;

/// A rectangle (x, y, w, h) to repaint, kept on the screen: one entirely off it
/// becomes empty; one sticking out left, right or below is cut there (16-bit).
pub open spec fn spec_clamp_dirty(x: int, y: int, w: int, h: int) -> (int, int, int, int) {
    let (x1, y1, w1, h1) = if x + w < 0 || x > SCREEN_W || y + h < 0 || y > SCREEN_H { (0, 0, 0, 0) } else { (x, y, w, h) };
    let (x2, w2) = if x1 < 0 { (0, spec_s16(w1 + x1)) } else { (x1, w1) };
    let w3 = if x2 + w2 > SCREEN_W { SCREEN_W - x2 } else { w2 };
    let h2 = if y1 + h1 > SCREEN_H { SCREEN_H - y1 } else { h1 };
    (x2, y1, w3, h2)
}

/// A rectangle to repaint kept on the screen (see `spec_clamp_dirty`); all values
/// are 16-bit.
pub fn clamp_dirty(x: i32, y: i32, w: i32, h: i32) -> (r: (i32, i32, i32, i32))
    requires
        is_i16(x as int) && is_i16(y as int) && is_i16(w as int) && is_i16(h as int),
    ensures
        (r.0 as int, r.1 as int, r.2 as int, r.3 as int) == spec_clamp_dirty(x as int, y as int, w as int, h as int),
{
    let (mut x, mut y, mut w, mut h) = (x, y, w, h);
    if x + w < 0 || x > SCREEN_W || y + h < 0 || y > SCREEN_H {
        x = 0;
        y = 0;
        w = 0;
        h = 0;
    }
    if x < 0 {
        w = s16(w + x);
        x = 0;
    }
    if x + w > SCREEN_W {
        w = SCREEN_W - x;
    }
    if y + h > SCREEN_H {
        h = SCREEN_H - y;
    }
    (x, y, w, h)
}

} // verus!
