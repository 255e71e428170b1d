//! The framebuffer's memory as the console paints it: rows of `pitch`
//! bytes, four bytes to a pixel, a pixel word stored lowest byte first
//! (the kernel runs on x86-64).
use vstd::prelude::*;
use crate::gfx::font::Font;

verus! {

/// Row of byte `i` of a framebuffer whose rows are `pitch` bytes apart.
pub open spec fn row_of(i: int, pitch: int) -> int {
    i / pitch
}

/// Column, in bytes, of byte `i` within its row.
pub open spec fn col_of(i: int, pitch: int) -> int {
    i % pitch
}

/// The byte at column `x` of row `y` is byte `y * pitch + x`.
pub proof fn lemma_row_col(y: int, x: int, pitch: int)
    requires
        0 <= y,
        0 <= x < pitch,
    ensures
        row_of(y * pitch + x, pitch) == y,
        col_of(y * pitch + x, pitch) == x,
{
    vstd::arithmetic::div_mod::lemma_fundamental_div_mod_converse(y * pitch + x, pitch, y, x);
}

/// A byte lies in the row and column that its position gives.
pub proof fn lemma_pos_of(i: int, pitch: int)
    requires
        0 <= i,
        0 < pitch,
    ensures
        i == row_of(i, pitch) * pitch + col_of(i, pitch),
        0 <= col_of(i, pitch) < pitch,
        0 <= row_of(i, pitch),
{
    vstd::arithmetic::div_mod::lemma_fundamental_div_mod(i, pitch);
    vstd::arithmetic::div_mod::lemma_mod_pos_bound(i, pitch);
    vstd::arithmetic::div_mod::lemma_div_pos_is_pos(i, pitch);
    assert(pitch * (i / pitch) == (i / pitch) * pitch) by (nonlinear_arith);
}

/// The bytes of a pixel word as memory holds them, lowest first.
pub open spec fn word_bytes(w: u32) -> Seq<u8> {
    seq![(w & 0xff) as u8, ((w >> 8u32) & 0xff) as u8, ((w >> 16u32) & 0xff) as u8, ((w >> 24u32) & 0xff) as u8]
}

/// The bytes of a pixel word as memory holds them, lowest first.
pub fn pixel_bytes(w: u32) -> (r: [u8; 4])
    ensures
        r@ == word_bytes(w),
{
    let r = [(w & 0xff) as u8, ((w >> 8u32) & 0xff) as u8, ((w >> 16u32) & 0xff) as u8, ((w >> 24u32) & 0xff) as u8];
    assert(r@ =~= word_bytes(w));
    r
}

/// `p` with the first `width` bytes of rows `y0` up to `y1` painted with
/// the pixel bytes `color`.
pub open spec fn filled(p: Seq<u8>, pitch: int, y0: int, y1: int, width: int, color: Seq<u8>) -> Seq<u8> {
    Seq::new(
        p.len(),
        |i: int|
            if y0 <= row_of(i, pitch) < y1 && 0 <= col_of(i, pitch) < width {
                color[col_of(i, pitch) % 4]
            } else {
                p[i]
            },
    )
}

/// `p` with the first `width` bytes of each row below `rows` replaced by
/// those of the row `by` rows further down.
pub open spec fn shifted_up(p: Seq<u8>, pitch: int, rows: int, by: int, width: int) -> Seq<u8> {
    Seq::new(
        p.len(),
        |i: int|
            if 0 <= row_of(i, pitch) < rows && 0 <= col_of(i, pitch) < width {
                p[i + by * pitch]
            } else {
                p[i]
            },
    )
}

/// Paints the first `width` bytes of rows `y0` up to `y1` with the pixel
/// bytes `color`.
pub fn fill_rows(p: &mut Vec<u8>, pitch: usize, y0: usize, y1: usize, width: usize, color: [u8; 4])
    requires
        y0 <= y1,
        width <= pitch,
        y1 * pitch <= old(p)@.len(),
        width % 4 == 0,
    ensures
        final(p)@ == filled(old(p)@, pitch as int, y0 as int, y1 as int, width as int, color@),
{
    let ghost p0 = p@;
    let n = p.len();
    let mut y = y0;
    if width == 0 {
        assert(p@ =~= filled(p0, pitch as int, y0 as int, y1 as int, width as int, color@));
        return;
    }
    assert(p@ =~= filled(p0, pitch as int, y0 as int, y0 as int, width as int, color@));
    while y < y1
        invariant
            y0 <= y <= y1,
            0 < width <= pitch,
            y1 * pitch <= p0.len(),
            p0.len() == p@.len(),
            p0.len() == n,
            p@ == filled(p0, pitch as int, y0 as int, y as int, width as int, color@),
        decreases y1 - y,
    {
        assert(y * pitch + pitch <= y1 * pitch) by (nonlinear_arith)
            requires
                y + 1 <= y1,
        ;
        let base = y * pitch;
        let mut x: usize = 0;
        while x < width
            invariant
                0 <= x <= width <= pitch,
                y < y1,
                base == y * pitch,
                base + pitch <= p0.len(),
                p@.len() == p0.len(),
                p0.len() == n,
                forall|i: int|
                    0 <= i < p0.len() ==> #[trigger] p@[i] == if row_of(i, pitch as int) == y && col_of(i, pitch as int) < x {
                        color@[col_of(i, pitch as int) % 4]
                    } else {
                        filled(p0, pitch as int, y0 as int, y as int, width as int, color@)[i]
                    },
            decreases width - x,
        {
            proof {
                lemma_row_col(y as int, x as int, pitch as int);
            }
            p.set(base + x, color[x % 4]);
            proof {
                assert forall|i: int| 0 <= i < p0.len() implies #[trigger] p@[i] == if row_of(i, pitch as int) == y
                    && col_of(i, pitch as int) < x + 1 {
                    color@[col_of(i, pitch as int) % 4]
                } else {
                    filled(p0, pitch as int, y0 as int, y as int, width as int, color@)[i]
                } by {
                    lemma_pos_of(i, pitch as int);
                    if i != base + x && row_of(i, pitch as int) == y && col_of(i, pitch as int) == x {
                        assert(i == y * pitch + x);
                    }
                }
            }
            x = x + 1;
        }
        proof {
            assert forall|i: int| 0 <= i < p0.len() implies #[trigger] p@[i] == filled(p0, pitch as int, y0 as int, y + 1, width as int, color@)[i] by {
                lemma_pos_of(i, pitch as int);
            }
            assert(p@ =~= filled(p0, pitch as int, y0 as int, y + 1, width as int, color@));
        }
        y = y + 1;
    }
}

/// Replaces the first `width` bytes of each row below `rows` by those of
/// the row `by` rows further down, from the top row on.
pub fn shift_rows_up(p: &mut Vec<u8>, pitch: usize, rows: usize, by: usize, width: usize)
    requires
        0 < by,
        width <= pitch,
        (rows + by) * pitch <= old(p)@.len(),
    ensures
        final(p)@ == shifted_up(old(p)@, pitch as int, rows as int, by as int, width as int),
{
    let ghost p0 = p@;
    let n = p.len();
    if width == 0 {
        assert(p@ =~= shifted_up(p0, pitch as int, rows as int, by as int, width as int));
        return;
    }
    assert(p@ =~= shifted_up(p0, pitch as int, 0, by as int, width as int));
    let mut y: usize = 0;
    while y < rows
        invariant
            0 <= y <= rows,
            0 < by,
            0 < width <= pitch,
            (rows + by) * pitch <= p0.len(),
            p0.len() == p@.len(),
            p0.len() == n,
            p@ == shifted_up(p0, pitch as int, y as int, by as int, width as int),
        decreases rows - y,
    {
        assert((y + by) * pitch + pitch <= (rows + by) * pitch) by (nonlinear_arith)
            requires
                y + 1 <= rows,
        ;
        assert(y * pitch + pitch <= (y + by) * pitch) by (nonlinear_arith)
            requires
                0 < by,
        ;
        assert(y + by <= (y + by) * pitch) by (nonlinear_arith)
            requires
                0 < pitch,
        ;
        let dst = y * pitch;
        let src = (y + by) * pitch;
        let mut x: usize = 0;
        while x < width
            invariant
                0 <= x <= width <= pitch,
                y < rows,
                0 < by,
                dst == y * pitch,
                src == (y + by) * pitch,
                dst + pitch <= src,
                src + pitch <= p0.len(),
                p@.len() == p0.len(),
                p0.len() == n,
                forall|i: int|
                    0 <= i < p0.len() ==> #[trigger] p@[i] == if row_of(i, pitch as int) == y && 0 <= col_of(i, pitch as int) < x {
                        p0[i + by * pitch]
                    } else {
                        shifted_up(p0, pitch as int, y as int, by as int, width as int)[i]
                    },
            decreases width - x,
        {
            proof {
                lemma_row_col(y as int, x as int, pitch as int);
                lemma_row_col((y + by) as int, x as int, pitch as int);
                assert((y + by) * pitch == y * pitch + by * pitch) by (nonlinear_arith);
            }
            let b = p[src + x];
            assert(b == p0[dst + x + by * pitch]);
            p.set(dst + x, b);
            proof {
                assert forall|i: int| 0 <= i < p0.len() implies #[trigger] p@[i] == if row_of(i, pitch as int) == y
                    && 0 <= col_of(i, pitch as int) < x + 1 {
                    p0[i + by * pitch]
                } else {
                    shifted_up(p0, pitch as int, y as int, by as int, width as int)[i]
                } by {
                    lemma_pos_of(i, pitch as int);
                    if i != dst + x && row_of(i, pitch as int) == y && col_of(i, pitch as int) == x {
                        assert(i == y * pitch + x);
                    }
                }
            }
            x = x + 1;
        }
        proof {
            assert forall|i: int| 0 <= i < p0.len() implies #[trigger] p@[i] == shifted_up(p0, pitch as int, y + 1, by as int, width as int)[i] by {
                lemma_pos_of(i, pitch as int);
            }
            assert(p@ =~= shifted_up(p0, pitch as int, y + 1, by as int, width as int));
        }
        y = y + 1;
    }
}

/// `p` with the first `k` pixels, row by row, of glyph `glyph` of `font`
/// painted in the text cell at column `cx` and row `cy`: the first three
/// bytes of each pixel from `fg` where the glyph's pixel is set, from `bg`
/// elsewhere.
pub open spec fn glyph_drawn_upto(
    p: Seq<u8>,
    pitch: int,
    font: Font,
    glyph: int,
    cx: int,
    cy: int,
    fg: Seq<u8>,
    bg: Seq<u8>,
    k: int,
) -> Seq<u8> {
    let w = font.width_spec() as int;
    let h = font.height_spec() as int;
    Seq::new(
        p.len(),
        |i: int|
            {
                let fy = row_of(i, pitch) - cy * h;
                let bx = col_of(i, pitch) - cx * w * 4;
                if 0 <= fy < h && 0 <= bx < w * 4 && bx % 4 < 3 && fy * w + bx / 4 < k {
                    if font.pixel_spec(glyph, bx / 4, fy) {
                        fg[bx % 4]
                    } else {
                        bg[bx % 4]
                    }
                } else {
                    p[i]
                }
            },
    )
}

/// `p` with glyph `glyph` of `font` painted in the text cell at column
/// `cx` and row `cy`.
pub open spec fn glyph_drawn(
    p: Seq<u8>,
    pitch: int,
    font: Font,
    glyph: int,
    cx: int,
    cy: int,
    fg: Seq<u8>,
    bg: Seq<u8>,
) -> Seq<u8> {
    glyph_drawn_upto(p, pitch, font, glyph, cx, cy, fg, bg, font.width_spec() * font.height_spec())
}

/// Byte `j` of pixel (`fx`, `fy`) of the cell at (`cx`, `cy`) lies in the
/// row and column the drawing expects.
proof fn lemma_glyph_byte(pitch: int, w: int, h: int, cx: int, cy: int, fx: int, fy: int, j: int)
    requires
        0 < w,
        0 < h,
        0 <= cx,
        0 <= cy,
        0 <= fx < w,
        0 <= fy < h,
        0 <= j < 4,
        cx * w * 4 + w * 4 <= pitch,
    ensures
        row_of((cy * h + fy) * pitch + (cx * w + fx) * 4 + j, pitch) == cy * h + fy,
        col_of((cy * h + fy) * pitch + (cx * w + fx) * 4 + j, pitch) == cx * w * 4 + fx * 4 + j,
        (cx * w + fx) * 4 + j == cx * w * 4 + fx * 4 + j,
{
    assert((cx * w + fx) * 4 + j == cx * w * 4 + fx * 4 + j) by (nonlinear_arith);
    assert(cx * w * 4 + fx * 4 + j < pitch) by (nonlinear_arith)
        requires
            fx < w,
            j < 4,
            cx * w * 4 + w * 4 <= pitch,
    ;
    assert(0 <= cx * w * 4) by (nonlinear_arith)
        requires
            0 <= cx,
            0 < w,
    ;
    assert(0 <= cy * h + fy) by (nonlinear_arith)
        requires
            0 <= cy,
            0 < h,
            0 <= fy,
    ;
    lemma_row_col(cy * h + fy, cx * w * 4 + fx * 4 + j, pitch);
}

/// A pixel at offset `bx` in a row of the cell is pixel `bx / 4`, byte
/// `bx % 4`.
proof fn lemma_pixel_of(bx: int)
    requires
        0 <= bx,
    ensures
        bx == (bx / 4) * 4 + bx % 4,
        0 <= bx % 4 < 4,
{
    vstd::arithmetic::div_mod::lemma_fundamental_div_mod(bx, 4);
}

/// Paints glyph `glyph` of `font` in the text cell at column `cx` and row
/// `cy`: of each pixel the first three bytes, from `fg` where the glyph's
/// pixel is set and from `bg` elsewhere.
pub fn draw_glyph(
    p: &mut Vec<u8>,
    pitch: usize,
    font: &Font,
    glyph: usize,
    cx: usize,
    cy: usize,
    fg: [u8; 4],
    bg: [u8; 4],
)
    requires
        glyph < font.count_spec(),
        (cx + 1) * font.width_spec() * 4 <= pitch,
        (cy + 1) * font.height_spec() * pitch <= old(p)@.len(),
    ensures
        final(p)@ == glyph_drawn(old(p)@, pitch as int, *font, glyph as int, cx as int, cy as int, fg@, bg@),
{
    let ghost p0 = p@;
    let n = p.len();
    let w = font.width();
    let h = font.height();
    let pixels = font.with_pixels(glyph);
    let ghost total = (w * h) as int;
    assert(p@ =~= glyph_drawn_upto(p0, pitch as int, *font, glyph as int, cx as int, cy as int, fg@, bg@, 0)) by {
        assert forall|i: int| 0 <= i < p0.len() implies #[trigger] p@[i] == glyph_drawn_upto(p0, pitch as int, *font, glyph as int, cx as int, cy as int, fg@, bg@, 0)[i] by {
            let fy = row_of(i, pitch as int) - cy * h;
            let bx = col_of(i, pitch as int) - cx * w * 4;
            if 0 <= fy < h && 0 <= bx < w * 4 {
                assert(0 <= bx / 4);
                assert(0 <= fy * w) by (nonlinear_arith)
                    requires
                        0 <= fy,
                        0 <= w,
                ;
            }
        }
    }
    if w == 0 || h == 0 {
        proof {
            assert(pixels@.len() == 0) by (nonlinear_arith)
                requires
                    pixels@.len() == w * h,
                    w == 0 || h == 0,
            ;
        }
    }
    assert(cx * w * 4 + w * 4 <= pitch) by (nonlinear_arith)
        requires
            (cx + 1) * w * 4 <= pitch,
    ;
    assert(cy * h * pitch + h * pitch <= n) by (nonlinear_arith)
        requires
            (cy + 1) * h * pitch <= n,
    ;
    let mut k: usize = 0;
    while k < pixels.len()
        invariant
            0 <= k <= pixels@.len(),
            pixels@ == font.pixels_spec(glyph as int),
            pixels@.len() == w * h,
            w == font.width_spec(),
            h == font.height_spec(),
            cx * w * 4 + w * 4 <= pitch,
            cy * h * pitch + h * pitch <= n,
            p@.len() == p0.len(),
            p0.len() == n,
            p@ == glyph_drawn_upto(p0, pitch as int, *font, glyph as int, cx as int, cy as int, fg@, bg@, k as int),
        decreases pixels@.len() - k,
    {
        let (fx, fy, on) = pixels[k];
        proof {
            assert(0 < w && 0 < h) by (nonlinear_arith)
                requires
                    k < w * h,
            ;
            vstd::arithmetic::div_mod::lemma_fundamental_div_mod(k as int, w as int);
            vstd::arithmetic::div_mod::lemma_mod_pos_bound(k as int, w as int);
            vstd::arithmetic::div_mod::lemma_div_pos_is_pos(k as int, w as int);
            vstd::arithmetic::div_mod::lemma_div_is_ordered_by_denominator(k as int, 1, w as int);
            assert(fx == k % w && fy == k / w);
            assert(fy < h) by (nonlinear_arith)
                requires
                    k < w * h,
                    k == w * fy + fx,
                    0 <= fx,
                    0 < w,
            ;
            assert((cy * h + fy) * pitch + pitch <= cy * h * pitch + h * pitch) by (nonlinear_arith)
                requires
                    fy < h,
            ;
            assert(0 <= (cy * h + fy) * pitch) by (nonlinear_arith);
            lemma_glyph_byte(pitch as int, w as int, h as int, cx as int, cy as int, fx as int, fy as int, 0);
            lemma_glyph_byte(pitch as int, w as int, h as int, cx as int, cy as int, fx as int, fy as int, 1);
            lemma_glyph_byte(pitch as int, w as int, h as int, cx as int, cy as int, fx as int, fy as int, 2);
            lemma_glyph_byte(pitch as int, w as int, h as int, cx as int, cy as int, fx as int, fy as int, 3);
        }
        let color = if on { fg } else { bg };
        let base = (cy * h + fy) * pitch + (cx * w + fx) * 4;
        p.set(base, color[0]);
        p.set(base + 1, color[1]);
        p.set(base + 2, color[2]);
        proof {
            let pk = glyph_drawn_upto(p0, pitch as int, *font, glyph as int, cx as int, cy as int, fg@, bg@, k as int);
            let pk1 = glyph_drawn_upto(p0, pitch as int, *font, glyph as int, cx as int, cy as int, fg@, bg@, k + 1);
            assert forall|i: int| 0 <= i < p0.len() implies #[trigger] p@[i] == pk1[i] by {
                let fy2 = row_of(i, pitch as int) - cy * h;
                let bx2 = col_of(i, pitch as int) - cx * w * 4;
                if i == base || i == base + 1 || i == base + 2 {
                    let j = i - base;
                    assert(fy2 == fy);
                    assert(bx2 == fx * 4 + j);
                    assert(bx2 / 4 == fx && bx2 % 4 == j) by {
                        vstd::arithmetic::div_mod::lemma_fundamental_div_mod_converse(bx2, 4, fx as int, j);
                    }
                    assert(fy2 * w + bx2 / 4 == k);
                } else if 0 <= fy2 < h && 0 <= bx2 < w * 4 && bx2 % 4 < 3 && fy2 * w + bx2 / 4 == k {
                    lemma_pixel_of(bx2);
                    let fx2 = bx2 / 4;
                    assert(0 <= fx2 < w) by (nonlinear_arith)
                        requires
                            bx2 == fx2 * 4 + bx2 % 4,
                            0 <= bx2 % 4 < 4,
                            0 <= bx2 < w * 4,
                    ;
                    vstd::arithmetic::div_mod::lemma_fundamental_div_mod_converse(k as int, w as int, fy2, fx2);
                    assert(fy2 == fy && fx2 == fx);
                    lemma_pos_of(i, pitch as int);
                    assert(i == (cy * h + fy) * pitch + (cx * w * 4 + bx2)) by (nonlinear_arith)
                        requires
                            i == row_of(i, pitch as int) * pitch + col_of(i, pitch as int),
                            fy2 == row_of(i, pitch as int) - cy * h,
                            bx2 == col_of(i, pitch as int) - cx * w * 4,
                            fy2 == fy,
                    ;
                    assert(i == base + bx2 % 4) by (nonlinear_arith)
                        requires
                            i == (cy * h + fy) * pitch + (cx * w * 4 + bx2),
                            bx2 == fx * 4 + bx2 % 4,
                            base == (cy * h + fy) * pitch + (cx * w + fx) * 4,
                    ;
                    assert(false);
                } else {
                    assert(p@[i] == pk[i]);
                }
            }
            assert(p@ =~= pk1);
        }
        k = k + 1;
    }
}

} // verus!
