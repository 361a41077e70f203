use crate::font::{glyph_slot, has_glyph, Font};
use vstd::arithmetic::div_mod::lemma_fundamental_div_mod_converse;
use vstd::prelude::*;

verus! {

/// Byte `ch` (0 blue, 1 green, 2 red, 3 alpha) of the pixel at `x`, `y` of
/// the cell whose top left corner is `left`, `top`, in a buffer of 4-byte
/// pixels `width` pixels wide.
pub open spec fn cell_pixel(width: int, left: int, top: int, x: int, y: int, ch: int) -> int {
    4 * ((top + y) * width + left + x) + ch
}

/// A glyph sample as painted: inverted on a highlighted line.
pub open spec fn shade(v: u8, invert: bool) -> u8 {
    if invert {
        (255 - v) as u8
    } else {
        v
    }
}

/// Whether `idx` is a colour byte of the cell at `left`, `top`, `gw` by `gh`
/// pixels, clipped at the right edge.
pub open spec fn in_cell(width: int, left: int, top: int, gw: int, gh: int, idx: int) -> bool {
    exists|x: int, y: int, ch: int|
        0 <= y < gh && 0 <= x < gw && left + x < width && 0 <= ch < 3 && idx == #[trigger] cell_pixel(width, left, top, x, y, ch)
}

/// Whether the whole pixel fits in a buffer of `len` bytes.
pub open spec fn fits(width: int, left: int, top: int, x: int, y: int, len: int) -> bool {
    cell_pixel(width, left, top, x, y, 3) < len
}

/// Two colour bytes of pixels inside the width are the same byte only for
/// the same pixel and channel.
pub proof fn lemma_pixel_injective(width: int, l1: int, t1: int, x1: int, y1: int, c1: int, l2: int, t2: int, x2: int, y2: int, c2: int)
    requires
        width > 0,
        0 <= l1 + x1 < width,
        0 <= l2 + x2 < width,
        0 <= t1 + y1 && 0 <= t2 + y2,
        0 <= c1 < 4 && 0 <= c2 < 4,
        cell_pixel(width, l1, t1, x1, y1, c1) == cell_pixel(width, l2, t2, x2, y2, c2),
    ensures
        l1 + x1 == l2 + x2,
        t1 + y1 == t2 + y2,
        c1 == c2,
{
    let p1 = (t1 + y1) * width + l1 + x1;
    let p2 = (t2 + y2) * width + l2 + x2;
    assert(p1 == p2 && c1 == c2);
    lemma_fundamental_div_mod_converse(p1, width, t1 + y1, l1 + x1);
    lemma_fundamental_div_mod_converse(p2, width, t2 + y2, l2 + x2);
}

/// Fills the buffer with opaque white.
pub fn fill_background(canvas: &mut [u8])
    ensures
        final(canvas)@.len() == old(canvas)@.len(),
        forall|i: int| 0 <= i < final(canvas)@.len() ==> #[trigger] final(canvas)@[i] == 255u8,
{
    let n = canvas.len();
    let mut i: usize = 0;
    while i < n
        invariant
            n == canvas@.len(),
            n == old(canvas)@.len(),
            i <= n,
            forall|k: int| 0 <= k < i ==> #[trigger] canvas@[k] == 255u8,
        decreases n - i,
    {
        canvas[i] = 255u8;
        i = i + 1;
    }
}

/// Paints a `gw` by `gh` glyph with its top left corner at `left`, `top`:
/// the three colour bytes of each pixel that lies left of `width` and inside
/// the buffer get the sample, inverted when `invert` holds. Nothing else
/// changes.
pub fn paint_glyph(canvas: &mut [u8], width: u32, left: usize, top: usize, glyph: &Vec<u8>, gw: usize, gh: usize, invert: bool)
    requires
        glyph@.len() == gw * gh,
    ensures
        final(canvas)@.len() == old(canvas)@.len(),
        forall|x: int, y: int, ch: int|
            0 <= y < gh && 0 <= x < gw && left + x < width && 0 <= ch < 3
                && fits(width as int, left as int, top as int, x, y, old(canvas)@.len() as int)
            ==> final(canvas)@[#[trigger] cell_pixel(width as int, left as int, top as int, x, y, ch)]
                == shade(glyph@[y * gw + x], invert),
        forall|i: int| 0 <= i < old(canvas)@.len() && !in_cell(width as int, left as int, top as int, gw as int, gh as int, i)
            ==> #[trigger] final(canvas)@[i] == old(canvas)@[i],
{
    let n = canvas.len();
    let glen = glyph.len();
    let ghost w = width as int;
    let ghost l = left as int;
    let ghost t = top as int;
    let mut y: usize = 0;
    while y < gh
        invariant
            n == canvas@.len(),
            n == old(canvas)@.len(),
            glyph@.len() == gw * gh,
            gw * gh <= usize::MAX,
            w == width as int && l == left as int && t == top as int,
            y <= gh,
            forall|x2: int, y2: int, ch: int|
                0 <= y2 < y && 0 <= x2 < gw && l + x2 < w && 0 <= ch < 3 && fits(w, l, t, x2, y2, n as int)
                ==> canvas@[#[trigger] cell_pixel(w, l, t, x2, y2, ch)] == shade(glyph@[y2 * gw + x2], invert),
            forall|i: int| 0 <= i < n && !in_cell(w, l, t, gw as int, gh as int, i) ==> #[trigger] canvas@[i] == old(canvas)@[i],
        decreases gh - y,
    {
        let mut x: usize = 0;
        while x < gw
            invariant
                n == canvas@.len(),
                n == old(canvas)@.len(),
                glyph@.len() == gw * gh,
                gw * gh <= usize::MAX,
                w == width as int && l == left as int && t == top as int,
                y < gh,
                x <= gw,
                forall|x2: int, y2: int, ch: int|
                    0 <= x2 < gw && l + x2 < w && 0 <= ch < 3 && fits(w, l, t, x2, y2, n as int)
                        && (0 <= y2 < y || (y2 == y && x2 < x))
                    ==> canvas@[#[trigger] cell_pixel(w, l, t, x2, y2, ch)] == shade(glyph@[y2 * gw + x2], invert),
                forall|i: int| 0 <= i < n && !in_cell(w, l, t, gw as int, gh as int, i) ==> #[trigger] canvas@[i] == old(canvas)@[i],
            decreases gw - x,
        {
            let px: u128 = left as u128 + x as u128;
            let py: u128 = top as u128 + y as u128;
            if px < width as u128 && py <= n as u128 {
                assert(py * (width as u128) <= 0x1_0000_0000_0000_0000u128 * 0x1_0000_0000u128) by (nonlinear_arith)
                    requires py <= 0x1_0000_0000_0000_0000u128, width <= 0xffff_ffffu128;
                let p: u128 = 4 * (py * width as u128 + px);
                if p + 3 < n as u128 {
                    assert(y * gw + x < gw * gh && 0 <= y * gw) by (nonlinear_arith)
                        requires y < gh, x < gw;
                    let sample = glyph[y * gw + x];
                    let v: u8 = if invert { 255 - sample } else { sample };
                    let pi = p as usize;
                    let ghost before = canvas@;
                    assert(p == cell_pixel(w, l, t, x as int, y as int, 0));
                    canvas[pi] = v;
                    canvas[pi + 1] = v;
                    canvas[pi + 2] = v;
                    proof {
                        assert(cell_pixel(w, l, t, x as int, y as int, 1) == pi + 1);
                        assert(cell_pixel(w, l, t, x as int, y as int, 2) == pi + 2);
                        assert forall|i: int| 0 <= i < n && !in_cell(w, l, t, gw as int, gh as int, i)
                            implies #[trigger] canvas@[i] == old(canvas)@[i] by {
                            if i == pi || i == pi + 1 || i == pi + 2 {
                                let c = i - pi;
                                assert(i == cell_pixel(w, l, t, x as int, y as int, c));
                            } else {
                                assert(canvas@[i] == before[i]);
                            }
                        }
                        assert forall|x2: int, y2: int, ch: int|
                            0 <= x2 < gw && l + x2 < w && 0 <= ch < 3 && fits(w, l, t, x2, y2, n as int)
                                && (0 <= y2 < y || (y2 == y && x2 < x + 1))
                            implies canvas@[#[trigger] cell_pixel(w, l, t, x2, y2, ch)] == shade(glyph@[y2 * gw + x2], invert) by {
                            let q = cell_pixel(w, l, t, x2, y2, ch);
                            if y2 == y && x2 == x {
                                assert(q == pi + ch);
                            } else {
                                if q == pi || q == pi + 1 || q == pi + 2 {
                                    lemma_pixel_injective(w, l, t, x2, y2, ch, l, t, x as int, y as int, q - pi);
                                }
                                assert(canvas@[q] == before[q]);
                            }
                        }
                    }
                } else {
                    assert(!fits(w, l, t, x as int, y as int, n as int));
                }
            } else if px < width as u128 {
                assert(!fits(w, l, t, x as int, y as int, n as int)) by (nonlinear_arith)
                    requires py > n, py == t + y, px == l + x, px < w, w >= 1, n >= 0, px >= 0, py >= 0;
            }
            x = x + 1;
        }
        y = y + 1;
    }
}

/// Byte `ch` of pixel `x`, `y` of the cell of character `k` on text line
/// `line`, for glyphs `fw` by `fh`.
pub open spec fn text_pixel(width: int, fw: int, fh: int, line: int, k: int, x: int, y: int, ch: int) -> int {
    cell_pixel(width, k * fw, line * fh, x, y, ch)
}

/// Whether `idx` is a colour byte of the cell of character `k` on text line `line`.
pub open spec fn in_char_cell(width: int, fw: int, fh: int, line: int, k: int, idx: int) -> bool {
    in_cell(width, k * fw, line * fh, fw, fh, idx)
}

/// Whether `idx` is a colour byte of one of the first `n` character cells of
/// text line `line`.
pub open spec fn in_line(width: int, fw: int, fh: int, line: int, n: int, idx: int) -> bool {
    exists|k: int| 0 <= k < n && #[trigger] in_char_cell(width, fw, fh, line, k, idx)
}

/// Pixels of two different character cells of a line never share a byte.
proof fn lemma_char_cells_disjoint(width: int, fw: int, fh: int, line: int, k1: int, x1: int, y1: int, c1: int, k2: int, idx: int)
    requires
        width > 0 && fw > 0 && line >= 0 && fh > 0,
        0 <= k1 && 0 <= k2 && k1 != k2,
        0 <= x1 < fw && 0 <= y1 && 0 <= c1 < 3,
        k1 * fw + x1 < width,
        idx == text_pixel(width, fw, fh, line, k1, x1, y1, c1),
    ensures
        !in_char_cell(width, fw, fh, line, k2, idx),
{
    if in_char_cell(width, fw, fh, line, k2, idx) {
        let (x2, y2, c2) = choose|x: int, y: int, ch: int|
            0 <= y < fh && 0 <= x < fw && k2 * fw + x < width && 0 <= ch < 3
                && idx == #[trigger] cell_pixel(width, k2 * fw, line * fh, x, y, ch);
        assert(0 <= k1 * fw && 0 <= k2 * fw && 0 <= line * fh) by (nonlinear_arith)
            requires 0 <= k1, 0 <= k2, fw > 0, line >= 0, fh > 0;
        lemma_pixel_injective(width, k1 * fw, line * fh, x1, y1, c1, k2 * fw, line * fh, x2, y2, c2);
        lemma_fundamental_div_mod_converse(k1 * fw + x1, fw, k1, x1);
        lemma_fundamental_div_mod_converse(k2 * fw + x2, fw, k2, x2);
    }
}

/// Paints `text` on text line `line`, one glyph cell per character, left
/// to right; characters without a glyph leave their cell as it was, and so
/// does everything outside the line's cells.
pub fn paint_line(canvas: &mut [u8], width: u32, font: &Font, line: usize, text: &Vec<char>, invert: bool)
    requires
        font.wf(),
    ensures
        final(canvas)@.len() == old(canvas)@.len(),
        forall|k: int, x: int, y: int, ch: int|
            0 <= k < text@.len() && has_glyph(text@[k]) && 0 <= y < font.height && 0 <= x < font.width
                && k * font.width + x < width && 0 <= ch < 3
                && fits(width as int, k * font.width, line * font.height, x, y, old(canvas)@.len() as int)
            ==> final(canvas)@[#[trigger] text_pixel(width as int, font.width as int, font.height as int, line as int, k, x, y, ch)]
                == shade(font.glyphs@[glyph_slot(text@[k])]@[y * font.width + x], invert),
        forall|i: int| 0 <= i < old(canvas)@.len()
            && !in_line(width as int, font.width as int, font.height as int, line as int, text@.len() as int, i)
            ==> #[trigger] final(canvas)@[i] == old(canvas)@[i],
{
    let n = canvas.len();
    let fw = font.width;
    let fh = font.height;
    let ghost w = width as int;
    assert((line as u128) * (fh as u128) <= 0xffff_ffff_ffff_ffff_u128 * 0xffff_ffff_ffff_ffff_u128) by (nonlinear_arith)
        requires line <= 0xffff_ffff_ffff_ffff_u128, fh <= 0xffff_ffff_ffff_ffff_u128;
    let top: u128 = line as u128 * fh as u128;
    let mut k: usize = 0;
    while k < text.len()
        invariant
            font.wf(),
            fw == font.width && fh == font.height,
            w == width as int,
            top == line * fh,
            n == canvas@.len(),
            n == old(canvas)@.len(),
            k <= text@.len(),
            forall|k2: int, x: int, y: int, ch: int|
                0 <= k2 < k && has_glyph(text@[k2]) && 0 <= y < fh && 0 <= x < fw
                    && k2 * fw + x < w && 0 <= ch < 3
                    && fits(w, k2 * fw, line * fh, x, y, n as int)
                ==> canvas@[#[trigger] text_pixel(w, fw as int, fh as int, line as int, k2, x, y, ch)]
                    == shade(font.glyphs@[glyph_slot(text@[k2])]@[y * fw + x], invert),
            forall|i: int| 0 <= i < n && !in_line(w, fw as int, fh as int, line as int, k as int, i)
                ==> #[trigger] canvas@[i] == old(canvas)@[i],
        decreases text@.len() - k,
    {
        let ghost before = canvas@;
        assert((k as u128) * (fw as u128) <= 0xffff_ffff_ffff_ffff_u128 * 0xffff_ffff_ffff_ffff_u128) by (nonlinear_arith)
            requires k <= 0xffff_ffff_ffff_ffff_u128, fw <= 0xffff_ffff_ffff_ffff_u128;
        let left: u128 = k as u128 * fw as u128;
        let ghost kk = k as int;
        match font.get_glyph(text[k]) {
            Some(g) => {
                if left < width as u128 && top <= n as u128 {
                    paint_glyph(canvas, width, left as usize, top as usize, g, fw, fh, invert);
                    proof {
                        assert forall|k2: int, x: int, y: int, ch: int|
                            0 <= k2 < kk && has_glyph(text@[k2]) && 0 <= y < fh && 0 <= x < fw
                                && k2 * fw + x < w && 0 <= ch < 3
                                && fits(w, k2 * fw, line * fh, x, y, n as int)
                            implies canvas@[#[trigger] text_pixel(w, fw as int, fh as int, line as int, k2, x, y, ch)]
                                == before[text_pixel(w, fw as int, fh as int, line as int, k2, x, y, ch)] by {
                            let idx = text_pixel(w, fw as int, fh as int, line as int, k2, x, y, ch);
                            assert(0 <= k2 * fw + x && 0 <= line * fh + y && 0 <= (line * fh + y) * w) by (nonlinear_arith)
                                requires 0 <= k2, 0 <= x, 0 <= y, 0 <= line, 0 <= fw, 0 <= fh, 0 <= w;
                            lemma_char_cells_disjoint(w, fw as int, fh as int, line as int, k2, x, y, ch, kk, idx);
                        }
                        assert forall|i: int| 0 <= i < n && !in_line(w, fw as int, fh as int, line as int, kk + 1, i)
                            implies #[trigger] canvas@[i] == old(canvas)@[i] by {
                            if in_line(w, fw as int, fh as int, line as int, kk, i) {
                                let k2 = choose|k2: int| 0 <= k2 < kk && #[trigger] in_char_cell(w, fw as int, fh as int, line as int, k2, i);
                                assert(in_char_cell(w, fw as int, fh as int, line as int, k2, i));
                            }
                            assert(!in_char_cell(w, fw as int, fh as int, line as int, kk, i));
                        }
                    }
                } else {
                    proof {
                        assert forall|x: int, y: int| 0 <= x && 0 <= y && kk * fw + x < w
                            implies !#[trigger] fits(w, kk * fw, line * fh, x, y, n as int) by {
                            assert(!fits(w, kk * fw, line * fh, x, y, n as int)) by (nonlinear_arith)
                                requires top > n, top == line * fh, kk * fw + x < w, w >= 1, 0 <= x, 0 <= y, 0 <= kk * fw, n >= 0;
                        }
                    }
                }
            },
            None => {},
        }
        proof {
            assert forall|i: int| 0 <= i < n && !in_line(w, fw as int, fh as int, line as int, kk + 1, i)
                implies #[trigger] canvas@[i] == old(canvas)@[i] by {
                if in_line(w, fw as int, fh as int, line as int, kk, i) {
                    let k2 = choose|k2: int| 0 <= k2 < kk && #[trigger] in_char_cell(w, fw as int, fh as int, line as int, k2, i);
                    assert(in_char_cell(w, fw as int, fh as int, line as int, k2, i));
                }
            }
        }
        k = k + 1;
    }
}

/// A byte of a cell on text line `l1` is in no cell of another text line.
pub proof fn lemma_lines_disjoint(width: int, fw: int, fh: int, l1: int, k1: int, x1: int, y1: int, c1: int, l2: int, n: int, idx: int)
    requires
        width > 0 && fw > 0 && fh > 0,
        0 <= l1 && 0 <= l2 && l1 != l2,
        0 <= k1 && 0 <= x1 < fw && 0 <= y1 < fh && 0 <= c1 < 4,
        k1 * fw + x1 < width,
        idx == text_pixel(width, fw, fh, l1, k1, x1, y1, c1),
    ensures
        !in_line(width, fw, fh, l2, n, idx),
{
    if in_line(width, fw, fh, l2, n, idx) {
        let k2 = choose|k: int| 0 <= k < n && #[trigger] in_char_cell(width, fw, fh, l2, k, idx);
        let (x2, y2, c2) = choose|x: int, y: int, ch: int|
            0 <= y < fh && 0 <= x < fw && k2 * fw + x < width && 0 <= ch < 3
                && idx == #[trigger] cell_pixel(width, k2 * fw, l2 * fh, x, y, ch);
        assert(0 <= k1 * fw && 0 <= k2 * fw && 0 <= l1 * fh && 0 <= l2 * fh) by (nonlinear_arith)
            requires 0 <= k1, 0 <= k2, fw > 0, l1 >= 0, l2 >= 0, fh > 0;
        lemma_pixel_injective(width, k1 * fw, l1 * fh, x1, y1, c1, k2 * fw, l2 * fh, x2, y2, c2);
        lemma_fundamental_div_mod_converse(l1 * fh + y1, fh, l1, y1);
        lemma_fundamental_div_mod_converse(l2 * fh + y2, fh, l2, y2);
    }
}

} // verus!
