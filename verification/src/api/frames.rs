//! Window frames of the old library: an image cut into an `n` x `n` grid of cells
//! is laid over a rectangle, corners at the corners and the middle cells repeated
//! along the edges and across the inside.
use vstd::prelude::*;
use crate::api::oldlib::{s16, spec_s16, cdiv, cmod, trunc_div, is_i16, lemma_trunc_rem};

verus! {

/// One blit of a frame: (sx, sy, w, h, dx, dy).
pub type Cell = (i32, i32, i32, i32, i32, i32);

/// C's division with 0 for a zero divisor, on integers.
pub open spec fn tdiv(a: int, b: int) -> int {
    if b == 0 { 0 } else { trunc_div(a, b) }
}

/// C's remainder with 0 for a zero divisor, on integers.
pub open spec fn tmod(a: int, b: int) -> int {
    if b == 0 { 0 } else { a - b * trunc_div(a, b) }
}

/// A blit with every value wrapped to 16 bits.
pub open spec fn mk_cell(sx: int, sy: int, w: int, h: int, dx: int, dy: int) -> (int, int, int, int, int, int) {
    (spec_s16(sx), spec_s16(sy), spec_s16(w), spec_s16(h), spec_s16(dx), spec_s16(dy))
}

/// A blit as integers.
pub open spec fn cell_view(c: Cell) -> (int, int, int, int, int, int) {
    (c.0 as int, c.1 as int, c.2 as int, c.3 as int, c.4 as int, c.5 as int)
}

/// Blits as integers.
pub open spec fn cells_view(v: Seq<Cell>) -> Seq<(int, int, int, int, int, int)> {
    v.map_values(|c: Cell| cell_view(c))
}

/// One row of a frame, cells `cw` x `ch` taken from image row `sy` and put at `dy`:
/// the left cell at `x`, `cols - 1` middle cells taken from the image's middle
/// columns in turn, and the right cell flush with the right edge `x + w`.
pub open spec fn frame_row(cw: int, ch: int, cols: int, k: int, x: int, w: int, sy: int, dy: int) -> Seq<(int, int, int, int, int, int)> {
    seq![mk_cell(0, sy, cw, ch, x, dy)]
        + Seq::new(
            if cols > 1 { (cols - 1) as nat } else { 0 },
            |j: int| mk_cell((tmod(j, k) + 1) * cw, sy, cw, ch, (j + 1) * cw + x, dy),
        )
        + seq![mk_cell(cw * (k + 1), sy, cw, ch, spec_s16(x + w - cw), dy)]
}

/// Rows 1 to `m` of a frame: row `j` takes the image's middle rows in turn and
/// stands at `y + j * ch`.
pub open spec fn frame_middle(cw: int, ch: int, cols: int, k: int, x: int, y: int, w: int, m: nat) -> Seq<(int, int, int, int, int, int)>
    decreases m,
{
    if m == 0 {
        Seq::empty()
    } else {
        frame_middle(cw, ch, cols, k, x, y, w, (m - 1) as nat)
            + frame_row(cw, ch, cols, k, x, w, (tmod(m - 1, k) + 1) * ch, m * ch + y)
    }
}

/// The cell width of an image `iw` wide cut into `n` columns.
pub open spec fn frame_cell(iw: u32, n: int) -> int {
    spec_s16(tdiv((iw % 0x1_0000) as int, n))
}

/// The blits that lay an `iw` x `ih` image cut into an `n` x `n` grid over the
/// rectangle (`x`, `y`, `w`, `h`): the top row, the middle rows, then the bottom
/// row flush with the bottom edge.
pub open spec fn spec_frame(iw: u32, ih: u32, x: int, y: int, w: int, h: int, n: int) -> Seq<(int, int, int, int, int, int)> {
    let cw = frame_cell(iw, n);
    let ch = frame_cell(ih, n);
    let cols = spec_s16(tdiv(w + cw - 1, cw));
    let rows = spec_s16(tdiv(h + ch - 1, ch));
    let k = spec_s16(n - 2);
    frame_row(cw, ch, cols, k, x, w, 0, y)
        + frame_middle(cw, ch, cols, k, x, y, w, if rows > 1 { (rows - 1) as nat } else { 0 })
        + frame_row(cw, ch, cols, k, x, w, ch * (k + 1), y + h - ch)
}

proof fn lemma_mod_bound(a: int, b: int)
    requires
        is_i16(b),
    ensures
        -0x7FFF <= tmod(a, b) <= 0x7FFF,
{
    if b != 0 {
        lemma_trunc_rem(a, b);
    }
}

fn cell(sx: i32, sy: i32, w: i32, h: i32, dx: i32, dy: i32) -> (c: Cell)
    ensures
        cell_view(c) == mk_cell(sx as int, sy as int, w as int, h as int, dx as int, dy as int),
{
    (s16(sx), s16(sy), s16(w), s16(h), s16(dx), s16(dy))
}

fn push_row(out: &mut Vec<Cell>, cw: i32, ch: i32, cols: i32, k: i32, x: i32, w: i32, sy: i32, dy: i32)
    requires
        is_i16(cw as int) && is_i16(ch as int) && is_i16(cols as int) && is_i16(k as int),
        is_i16(x as int) && is_i16(w as int),
    ensures
        cells_view(final(out)@) == cells_view(old(out)@)
            + frame_row(cw as int, ch as int, cols as int, k as int, x as int, w as int, sy as int, dy as int),
{
    let ghost start = cells_view(out@);
    let ghost row = frame_row(cw as int, ch as int, cols as int, k as int, x as int, w as int, sy as int, dy as int);
    let c0 = cell(0, sy, cw, ch, x, dy);
    out.push(c0);
    assert(cells_view(out@) =~= start + row.take(1));
    let mut i: i32 = 1;
    while i < cols
        invariant
            1 <= i,
            i <= (if cols > 1 { cols } else { 1 }),
            is_i16(cw as int) && is_i16(ch as int) && is_i16(cols as int) && is_i16(k as int),
            is_i16(x as int) && is_i16(w as int),
            start == cells_view(old(out)@),
            row == frame_row(cw as int, ch as int, cols as int, k as int, x as int, w as int, sy as int, dy as int),
            cells_view(out@) == start + row.take(i as int),
        decreases cols - i,
    {
        let m = cmod(i - 1, k);
        proof {
            lemma_mod_bound((i - 1) as int, k as int);
        }
        assert(-0x4000_0000 <= (m as int + 1) * (cw as int) <= 0x4000_0000) by (nonlinear_arith)
            requires
                -0x7FFF <= m <= 0x7FFF,
                is_i16(cw as int),
        ;
        assert(-0x4000_0000 <= (i as int) * (cw as int) <= 0x4000_0000) by (nonlinear_arith)
            requires
                1 <= i <= 0x7FFF,
                is_i16(cw as int),
        ;
        let c = cell((m + 1) * cw, sy, cw, ch, i * cw + x, dy);
        let ghost before = out@;
        out.push(c);
        proof {
            assert(row[i as int] == mk_cell((tmod((i - 1) as int, k as int) + 1) * cw, sy as int, cw as int, ch as int, ((i - 1) + 1) * cw + x, dy as int));
            assert(cells_view(out@) =~= cells_view(before).push(cell_view(c)));
            assert(row.take(i as int + 1) =~= row.take(i as int).push(row[i as int]));
        }
        i = i + 1;
    }
    let ghost mid: int = if cols > 1 { cols as int } else { 1 };
    assert(i as int == mid);
    assert(-0x4000_0000 <= (cw as int) * (k as int + 1) <= 0x4000_0000) by (nonlinear_arith)
        requires
            is_i16(cw as int),
            is_i16(k as int),
    ;
    let last = cell(cw * (k + 1), sy, cw, ch, s16(x + w - cw), dy);
    let ghost before = out@;
    out.push(last);
    proof {
        assert(row.len() == mid + 1);
        assert(row[mid] == cell_view(last));
        assert(cells_view(out@) =~= cells_view(before).push(cell_view(last)));
        assert(row =~= row.take(mid).push(row[mid]));
    }
}

/// The blits that lay an `iw` x `ih` image cut into an `n` x `n` grid over the
/// rectangle (`x`, `y`, `w`, `h`) (see `spec_frame`); the rectangle and `n` are
/// 16-bit values.
pub fn frame_cells(iw: u32, ih: u32, x: i32, y: i32, w: i32, h: i32, n: i32) -> (r: Vec<Cell>)
    requires
        is_i16(x as int) && is_i16(y as int) && is_i16(w as int) && is_i16(h as int) && is_i16(n as int),
    ensures
        cells_view(r@) == spec_frame(iw, ih, x as int, y as int, w as int, h as int, n as int),
{
    let a = iw & 0xFFFF;
    let b = ih & 0xFFFF;
    assert(a == iw % 0x1_0000) by (bit_vector)
        requires
            a == iw & 0xFFFF,
    ;
    assert(b == ih % 0x1_0000) by (bit_vector)
        requires
            b == ih & 0xFFFF,
    ;
    let cw = s16(cdiv(a as i32, n));
    let ch = s16(cdiv(b as i32, n));
    let cols = s16(cdiv(w + cw - 1, cw));
    let rows = s16(cdiv(h + ch - 1, ch));
    let k = s16(n - 2);
    let ghost spec_rows: nat = if rows > 1 { (rows - 1) as nat } else { 0 };
    let ghost top = frame_row(cw as int, ch as int, cols as int, k as int, x as int, w as int, 0, y as int);
    let mut out: Vec<Cell> = Vec::new();
    push_row(&mut out, cw, ch, cols, k, x, w, 0, y);
    assert(cells_view(out@) =~= top + frame_middle(cw as int, ch as int, cols as int, k as int, x as int, y as int, w as int, 0));
    let mut j: i32 = 1;
    while j < rows
        invariant
            1 <= j,
            j <= (if rows > 1 { rows } else { 1 }),
            is_i16(cw as int) && is_i16(ch as int) && is_i16(cols as int) && is_i16(k as int) && is_i16(rows as int),
            is_i16(x as int) && is_i16(y as int) && is_i16(w as int),
            top == frame_row(cw as int, ch as int, cols as int, k as int, x as int, w as int, 0, y as int),
            cells_view(out@) == top + frame_middle(cw as int, ch as int, cols as int, k as int, x as int, y as int, w as int, (j - 1) as nat),
        decreases rows - j,
    {
        let m = cmod(j - 1, k);
        proof {
            lemma_mod_bound((j - 1) as int, k as int);
        }
        assert(-0x4000_0000 <= (m as int + 1) * (ch as int) <= 0x4000_0000) by (nonlinear_arith)
            requires
                -0x7FFF <= m <= 0x7FFF,
                is_i16(ch as int),
        ;
        assert(-0x4000_0000 <= (j as int) * (ch as int) <= 0x4000_0000) by (nonlinear_arith)
            requires
                1 <= j <= 0x7FFF,
                is_i16(ch as int),
        ;
        push_row(&mut out, cw, ch, cols, k, x, w, (m + 1) * ch, j * ch + y);
        proof {
            assert(((j - 1) + 1) as nat == j as nat);
        }
        j = j + 1;
    }
    assert(j as int - 1 == spec_rows);
    assert(-0x4000_0000 <= (ch as int) * (k as int + 1) <= 0x4000_0000) by (nonlinear_arith)
        requires
            is_i16(ch as int),
            is_i16(k as int),
    ;
    push_row(&mut out, cw, ch, cols, k, x, w, ch * (k + 1), y + h - ch);
    out
}

/// A strip laid from an image cut into three columns: the left cell at `x`,
/// `cols - 1` copies of the middle cell, and the right cell flush with `x + w`.
pub open spec fn strip_row(cw: int, ch: int, cols: int, x: int, y: int, w: int) -> Seq<(int, int, int, int, int, int)> {
    seq![mk_cell(0, 0, cw, ch, x, y)]
        + Seq::new(if cols > 1 { (cols - 1) as nat } else { 0 }, |j: int| mk_cell(cw, 0, cw, ch, (j + 1) * cw + x, y))
        + seq![mk_cell(2 * cw, 0, cw, ch, x + w - cw, y)]
}

/// The blits that lay an `iw` x `ih` image cut into three columns along the
/// strip (`x`, `y`) of width `w`.
pub open spec fn spec_strip(iw: u32, ih: u32, x: int, y: int, w: int) -> Seq<(int, int, int, int, int, int)> {
    let cw = spec_s16((iw % 0x1_0000) as int / 3);
    let ch = spec_s16((ih as i32) as int);
    strip_row(cw, ch, spec_s16(tdiv(w + cw - 1, cw)), x, y, w)
}

/// The blits that lay an image cut into three columns along a strip (see
/// `spec_strip`); the strip is given by 16-bit values.
pub fn strip_cells(iw: u32, ih: u32, x: i32, y: i32, w: i32) -> (r: Vec<Cell>)
    requires
        is_i16(x as int) && is_i16(y as int) && is_i16(w as int),
    ensures
        cells_view(r@) == spec_strip(iw, ih, x as int, y as int, w as int),
{
    let a = iw & 0xFFFF;
    assert(a == iw % 0x1_0000) by (bit_vector)
        requires
            a == iw & 0xFFFF,
    ;
    let cw = s16(a as i32 / 3);
    let ch = s16(ih as i32);
    let cols = s16(cdiv(w + cw - 1, cw));
    let ghost row = strip_row(cw as int, ch as int, cols as int, x as int, y as int, w as int);
    let mut out: Vec<Cell> = Vec::new();
    out.push(cell(0, 0, cw, ch, x, y));
    assert(cells_view(out@) =~= row.take(1));
    let mut i: i32 = 1;
    while i < cols
        invariant
            1 <= i <= (if cols > 1 { cols } else { 1 }),
            0 <= cw <= 0x5555,
            is_i16(ch as int) && is_i16(cols as int) && is_i16(x as int) && is_i16(y as int) && is_i16(w as int),
            row == strip_row(cw as int, ch as int, cols as int, x as int, y as int, w as int),
            cells_view(out@) == row.take(i as int),
        decreases cols - i,
    {
        assert(0 <= (i as int) * (cw as int) <= 0x3000_0000) by (nonlinear_arith)
            requires
                1 <= i <= 0x7FFF,
                0 <= cw <= 0x5555,
        ;
        let c = cell(cw, 0, cw, ch, i * cw + x, y);
        let ghost before = out@;
        out.push(c);
        proof {
            assert(row[i as int] == mk_cell(cw as int, 0, cw as int, ch as int, ((i - 1) + 1) * cw + x, y as int));
            assert(cells_view(out@) =~= cells_view(before).push(cell_view(c)));
            assert(row.take(i as int + 1) =~= row.take(i as int).push(row[i as int]));
        }
        i = i + 1;
    }
    let ghost mid: int = if cols > 1 { cols as int } else { 1 };
    let c = cell(2 * cw, 0, cw, ch, x + w - cw, y);
    let ghost before = out@;
    out.push(c);
    proof {
        assert(row[mid] == cell_view(c));
        assert(cells_view(out@) =~= cells_view(before).push(cell_view(c)));
        assert(row =~= row.take(mid).push(row[mid]));
    }
    out
}

/// `start` advanced `k` times by `step` in 16-bit arithmetic.
pub open spec fn walk(start: int, step: int, k: nat) -> int
    decreases k,
{
    if k == 0 {
        start
    } else {
        spec_s16(walk(start, step, (k - 1) as nat) + step)
    }
}

/// The first `k` positions of the walk are at or below `limit`.
pub open spec fn stays(start: int, step: int, limit: int, k: nat) -> bool {
    forall|j: nat| j < k ==> #[trigger] walk(start, step, j) <= limit
}

/// The walk passes `limit` first after `k` steps.
pub open spec fn ends_at(start: int, step: int, limit: int, k: nat) -> bool {
    stays(start, step, limit, k) && walk(start, step, k) > limit
}

/// A walk passes its limit first after one number of steps only.
pub proof fn lemma_ends_unique(start: int, step: int, limit: int, k1: nat, k2: nat)
    requires
        ends_at(start, step, limit, k1),
        ends_at(start, step, limit, k2),
    ensures
        k1 == k2,
{
    if k1 < k2 {
        assert(walk(start, step, k1) <= limit);
    } else if k2 < k1 {
        assert(walk(start, step, k2) <= limit);
    }
}

/// Rows 0 to `m - 1` of a tiling by `cw` x `ch` cells: row `r` stands at the
/// `r`-th position of the walk from `y` by `ch`, its `kx` cells at the positions
/// of the walk from `x` by `cw`; with `alt`, cells whose column and row add up to
/// an odd number take the image's second half.
pub open spec fn tile_rows(cw: int, ch: int, x: int, y: int, kx: nat, m: nat, alt: bool) -> Seq<(int, int, int, int, int, int)>
    decreases m,
{
    if m == 0 {
        Seq::empty()
    } else {
        tile_rows(cw, ch, x, y, kx, (m - 1) as nat, alt) + Seq::new(
            kx,
            |c: int| mk_cell(
                if alt && (c + (m - 1)) % 2 == 1 { cw } else { 0 },
                0,
                cw,
                ch,
                walk(x, cw, c as nat),
                walk(y, ch, (m - 1) as nat),
            ),
        )
    }
}

fn walk_count(start: i32, step: i32, limit: i32) -> (r: Option<u32>)
    requires
        is_i16(start as int) && is_i16(step as int),
    ensures
        match r {
            Some(k) => k <= 0x10000 && ends_at(start as int, step as int, limit as int, k as nat),
            None => stays(start as int, step as int, limit as int, 0x10001),
        },
{
    let mut xx = start;
    let mut k: u32 = 0;
    while xx <= limit && k < 0x10000
        invariant
            is_i16(xx as int) && is_i16(step as int),
            k <= 0x10000,
            xx == walk(start as int, step as int, k as nat),
            stays(start as int, step as int, limit as int, k as nat),
        decreases 0x10000 - k,
    {
        xx = s16(xx + step);
        k = k + 1;
        assert(xx == walk(start as int, step as int, k as nat));
        assert forall|j: nat| j < k implies #[trigger] walk(start as int, step as int, j) <= limit by {
            if j + 1 < k {
                assert(walk(start as int, step as int, j) <= limit);
            }
        }
    }
    if xx <= limit {
        assert forall|j: nat| j < 0x10001 implies #[trigger] walk(start as int, step as int, j) <= limit by {
            if j < 0x10000 {
                assert(walk(start as int, step as int, j) <= limit);
            }
        }
        None
    } else {
        Some(k)
    }
}

fn build_tiles(cw: i32, ch: i32, x: i32, y: i32, kx: u32, ky: u32, alt: bool) -> (r: Vec<Cell>)
    requires
        is_i16(cw as int) && is_i16(ch as int) && is_i16(x as int) && is_i16(y as int),
        kx <= 0x10000,
        ky <= 0x10000,
    ensures
        cells_view(r@) == tile_rows(cw as int, ch as int, x as int, y as int, kx as nat, ky as nat, alt),
{
    let mut out: Vec<Cell> = Vec::new();
    let mut m: u32 = 0;
    let mut yy = y;
    while m < ky
        invariant
            is_i16(cw as int) && is_i16(ch as int) && is_i16(x as int) && is_i16(y as int) && is_i16(yy as int),
            kx <= 0x10000,
            m <= ky <= 0x10000,
            yy == walk(y as int, ch as int, m as nat),
            cells_view(out@) == tile_rows(cw as int, ch as int, x as int, y as int, kx as nat, m as nat, alt),
        decreases ky - m,
    {
        let ghost start = cells_view(out@);
        let ghost row = Seq::new(
            kx as nat,
            |c: int| mk_cell(
                if alt && (c + m) % 2 == 1 { cw as int } else { 0 },
                0,
                cw as int,
                ch as int,
                walk(x as int, cw as int, c as nat),
                yy as int,
            ),
        );
        let mut c: u32 = 0;
        let mut xx = x;
        while c < kx
            invariant
                is_i16(cw as int) && is_i16(ch as int) && is_i16(x as int) && is_i16(xx as int) && is_i16(yy as int),
                c <= kx <= 0x10000,
                m < 0x10000,
                xx == walk(x as int, cw as int, c as nat),
                row == Seq::new(
                    kx as nat,
                    |c: int| mk_cell(
                        if alt && (c + m) % 2 == 1 { cw as int } else { 0 },
                        0,
                        cw as int,
                        ch as int,
                        walk(x as int, cw as int, c as nat),
                        yy as int,
                    ),
                ),
                cells_view(out@) == start + row.take(c as int),
            decreases kx - c,
        {
            let sx = if alt && (c + m) % 2 == 1 { cw } else { 0 };
            let t = cell(sx, 0, cw, ch, xx, yy);
            let ghost before = out@;
            out.push(t);
            proof {
                assert(row[c as int] == cell_view(t));
                assert(cells_view(out@) =~= cells_view(before).push(cell_view(t)));
                assert(row.take(c as int + 1) =~= row.take(c as int).push(row[c as int]));
            }
            xx = s16(xx + cw);
            c = c + 1;
        }
        proof {
            assert(row.take(kx as int) =~= row);
            assert(tile_rows(cw as int, ch as int, x as int, y as int, kx as nat, (m + 1) as nat, alt)
                == tile_rows(cw as int, ch as int, x as int, y as int, kx as nat, m as nat, alt) + row);
        }
        yy = s16(yy + ch);
        m = m + 1;
    }
    out
}

/// The blits that tile the area from (`x`, `y`) to (`x + w`, `y + h`), both ends
/// included, with copies of an `iw` x `ih` image in 16-bit arithmetic. `None` where
/// a walk across or down wraps around for 65536 steps without passing its end;
/// a tiling that goes on that long never ends.
pub fn repeat_cells(iw: u32, ih: u32, x: i32, y: i32, w: i32, h: i32) -> (r: Option<Vec<Cell>>)
    requires
        is_i16(x as int) && is_i16(y as int) && is_i16(w as int) && is_i16(h as int),
    ensures
        ({
            let cw = spec_s16((iw as i32) as int);
            let ch = spec_s16((ih as i32) as int);
            if !(cw > 0 && ch > 0) {
                r is Some && r->0@.len() == 0
            } else {
                match r {
                    Some(v) => exists|kx: nat, ky: nat|
                        kx <= 0x10000 && ky <= 0x10000
                        && ends_at(y as int, ch, (y + h) as int, ky)
                        && (ky == 0 || ends_at(x as int, cw, (x + w) as int, kx))
                        && #[trigger] cells_view(v@) == tile_rows(cw, ch, x as int, y as int, kx, ky, false),
                    None => stays(y as int, ch, (y + h) as int, 0x10001)
                        || (y <= y + h && stays(x as int, cw, (x + w) as int, 0x10001)),
                }
            }
        }),
{
    let cw = s16(iw as i32);
    let ch = s16(ih as i32);
    if !(cw > 0 && ch > 0) {
        return Some(Vec::new());
    }
    let ky = match walk_count(y, ch, y + h) {
        Some(k) => k,
        None => return None,
    };
    let kx = if ky == 0 {
        0
    } else {
        assert(walk(y as int, ch as int, 0) <= y + h);
        match walk_count(x, cw, x + w) {
            Some(k) => k,
            None => return None,
        }
    };
    let v = build_tiles(cw, ch, x, y, kx, ky, false);
    Some(v)
}

/// The blits that tile the area from (`x`, `y`) up to, not including, `w` across
/// and `h` down (the ends are coordinates, not sizes) with the two halves of an
/// image alternating like a chessboard, in 16-bit arithmetic. `None` where a walk
/// wraps around for 65536 steps without passing its end.
pub fn checker_cells(iw: u32, ih: u32, x: i32, y: i32, w: i32, h: i32) -> (r: Option<Vec<Cell>>)
    requires
        is_i16(x as int) && is_i16(y as int) && is_i16(w as int) && is_i16(h as int),
    ensures
        ({
            let cw = ((iw % 0x1_0000) / 2) as int;
            let ch = spec_s16((ih as i32) as int);
            if !(cw > 0 && ch > 0) {
                r is Some && r->0@.len() == 0
            } else {
                match r {
                    Some(v) => exists|kx: nat, ky: nat|
                        kx <= 0x10000 && ky <= 0x10000
                        && ends_at(y as int, ch, h - 1, ky)
                        && (ky == 0 || ends_at(x as int, cw, w - 1, kx))
                        && #[trigger] cells_view(v@) == tile_rows(cw, ch, x as int, y as int, kx, ky, true),
                    None => stays(y as int, ch, h - 1, 0x10001)
                        || (y < h && stays(x as int, cw, w - 1, 0x10001)),
                }
            }
        }),
{
    let a = iw & 0xFFFF;
    assert(a >> 1 == (iw % 0x1_0000) / 2) by (bit_vector)
        requires
            a == iw & 0xFFFF,
    ;
    let cw = (a >> 1) as i32;
    let ch = s16(ih as i32);
    if !(cw > 0 && ch > 0) {
        return Some(Vec::new());
    }
    let ky = match walk_count(y, ch, h - 1) {
        Some(k) => k,
        None => return None,
    };
    let kx = if ky == 0 {
        0
    } else {
        assert(walk(y as int, ch as int, 0) <= h - 1);
        match walk_count(x, cw, w - 1) {
            Some(k) => k,
            None => return None,
        }
    };
    let v = build_tiles(cw, ch, x, y, kx, ky, true);
    Some(v)
}

} // verus!
