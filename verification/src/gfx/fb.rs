//! Framebuffers and the text grid drawn on them.
use vstd::prelude::*;
use crate::gfx::font::Font;
use crate::gfx::screen::{word_bytes, pixel_bytes, filled, shifted_up, glyph_drawn, fill_rows, shift_rows_up, draw_glyph};

verus! {

/// Position and width of one color channel within a pixel.
#[derive(Clone, Copy, Debug)]
pub struct Mask {
    size: u8,
    shift: u8,
}

impl Mask {
    /// Width in bits.
    pub closed spec fn size_spec(&self) -> u8 {
        self.size
    }

    /// Position of the lowest bit.
    pub closed spec fn shift_spec(&self) -> u8 {
        self.shift
    }

    /// The channel is supported: eight bits wide within a 32-bit pixel.
    pub open spec fn supported(&self) -> bool {
        self.size_spec() == 8 && self.shift_spec() <= 24
    }

    /// A channel of `size` bits from bit `shift` on.
    pub closed spec fn new_spec(size: u8, shift: u8) -> Mask {
        Mask { size, shift }
    }

    /// A channel of `size` bits from bit `shift` on.
    pub fn new(size: u8, shift: u8) -> (r: Self)
        ensures
            r == Mask::new_spec(size, shift),
            r.size_spec() == size,
            r.shift_spec() == shift,
    {
        Mask { size, shift }
    }

    /// Whether the channel is supported.
    pub fn check(&self) -> (r: bool)
        ensures
            r == self.supported(),
    {
        self.size == 8 && self.shift <= 24
    }
}

/// A linear framebuffer of 32-bit pixels.
#[derive(Debug)]
pub struct Fb {
    addr: usize,
    width: usize,
    height: usize,
    pitch: usize,
    bpp: u16,
    red_mask: Mask,
    green_mask: Mask,
    blue_mask: Mask,
}

/// A framebuffer the console can draw on: mapped, 32 bits per pixel,
/// 8-bit channels, and rows no wider than the pitch.
pub open spec fn fb_usable(
    addr: usize,
    width: usize,
    pitch: usize,
    bpp: u16,
    red: Mask,
    green: Mask,
    blue: Mask,
) -> bool {
    &&& addr != 0
    &&& bpp == 32
    &&& red.supported() && green.supported() && blue.supported()
    &&& width * 4 <= usize::MAX
    &&& width * 4 <= pitch
}

impl Fb {
    #[verifier::type_invariant]
    spec fn usable(&self) -> bool {
        fb_usable(self.addr, self.width, self.pitch, self.bpp, self.red_mask, self.green_mask, self.blue_mask)
    }

    /// Address of the first pixel.
    pub closed spec fn addr_spec(&self) -> usize {
        self.addr
    }

    /// Width in pixels.
    pub closed spec fn width_spec(&self) -> usize {
        self.width
    }

    /// Height in pixels.
    pub closed spec fn height_spec(&self) -> usize {
        self.height
    }

    /// Bytes between rows.
    pub closed spec fn pitch_spec(&self) -> usize {
        self.pitch
    }

    /// Bits per pixel.
    pub closed spec fn bpp_spec(&self) -> u16 {
        self.bpp
    }

    /// Shifts of the red, green and blue channels.
    pub closed spec fn shifts(&self) -> (u8, u8, u8) {
        (self.red_mask.shift_spec(), self.green_mask.shift_spec(), self.blue_mask.shift_spec())
    }

    /// The framebuffer described, if the console can draw on it.
    pub fn try_new(
        addr: usize,
        width: usize,
        height: usize,
        pitch: usize,
        bpp: u16,
        red_mask: Mask,
        green_mask: Mask,
        blue_mask: Mask,
    ) -> (r: Option<Fb>)
        ensures
            r is Some <==> fb_usable(addr, width, pitch, bpp, red_mask, green_mask, blue_mask),
            r matches Some(fb) ==> fb.addr_spec() == addr && fb.width_spec() == width
                && fb.height_spec() == height && fb.pitch_spec() == pitch && fb.bpp_spec() == bpp
                && fb.shifts() == (red_mask.shift_spec(), green_mask.shift_spec(), blue_mask.shift_spec()),
    {
        if addr == 0 || bpp != 32 || !red_mask.check() || !green_mask.check() || !blue_mask.check() {
            return None;
        }
        let row = match width.checked_mul(bpp as usize / 8) {
            Some(row) => row,
            None => {
                return None;
            },
        };
        if row > pitch {
            return None;
        }
        Some(Fb { addr, width, height, pitch, bpp, red_mask, green_mask, blue_mask })
    }

    /// Width in pixels.
    pub fn width(&self) -> (r: usize)
        ensures
            r == self.width_spec(),
    {
        self.width
    }

    /// Height in pixels.
    pub fn height(&self) -> (r: usize)
        ensures
            r == self.height_spec(),
    {
        self.height
    }

    /// Bits per pixel.
    pub fn bpp(&self) -> (r: u16)
        ensures
            r == self.bpp_spec(),
    {
        self.bpp
    }

    /// Bytes between rows.
    pub fn pitch(&self) -> (r: usize)
        ensures
            r == self.pitch_spec(),
    {
        self.pitch
    }

    /// Address of the first pixel.
    pub fn addr(&self) -> (r: usize)
        ensures
            r == self.addr_spec(),
    {
        self.addr
    }

    /// The pixel word of a color: each channel at its shift.
    pub fn color_word(&self, color: (u8, u8, u8)) -> (r: u32)
        ensures
            r == color_word_spec(*self, color),
    {
        proof {
            use_type_invariant(self);
        }
        let mut x: u32 = 0;
        x = x | ((color.0 as u32) << (self.red_mask.shift as u32));
        x = x | ((color.1 as u32) << (self.green_mask.shift as u32));
        x = x | ((color.2 as u32) << (self.blue_mask.shift as u32));
        assert(0u32 | ((color.0 as u32) << (self.red_mask.shift as u32)) == ((color.0 as u32) << (self.red_mask.shift as u32))) by (bit_vector);
        x
    }
}

/// The pixel word of `color` on `fb`: each channel at its shift.
pub open spec fn color_word_spec(fb: Fb, color: (u8, u8, u8)) -> u32 {
    ((color.0 as u32) << (fb.shifts().0 as u32)) | ((color.1 as u32) << (fb.shifts().1 as u32)) | ((
    color.2 as u32) << (fb.shifts().2 as u32))
}

/// Effect of one byte written to the console.
#[derive(Clone, Copy, Debug, PartialEq, Eq)]
pub struct Effect {
    /// Cell where the byte's glyph is to be drawn, if it has one.
    pub draw: Option<(usize, usize)>,
    /// Whether the screen is then to be scrolled up one row.
    pub scroll: bool,
}

/// The cursor on the grid of character cells.
#[derive(Clone, Copy, Debug)]
pub struct Grid {
    x: usize,
    y: usize,
    width: usize,
    height: usize,
}

impl Grid {
    /// Column of the cursor.
    pub closed spec fn x_spec(&self) -> usize {
        self.x
    }

    /// Row of the cursor.
    pub closed spec fn y_spec(&self) -> usize {
        self.y
    }

    /// Columns.
    pub closed spec fn width_spec(&self) -> usize {
        self.width
    }

    /// Rows.
    pub closed spec fn height_spec(&self) -> usize {
        self.height
    }

    /// The cursor is on the grid.
    pub open spec fn wf(&self) -> bool {
        self.x_spec() < self.width_spec() && self.y_spec() < self.height_spec()
    }

    /// A grid of `width` columns and `height` rows, the cursor at the top
    /// left.
    pub fn new(width: usize, height: usize) -> (r: Self)
        ensures
            r.x_spec() == 0 && r.y_spec() == 0,
            r.width_spec() == width && r.height_spec() == height,
    {
        Grid { x: 0, y: 0, width, height }
    }

    /// Columns.
    pub fn width(&self) -> (r: usize)
        ensures
            r == self.width_spec(),
    {
        self.width
    }

    /// Rows.
    pub fn height(&self) -> (r: usize)
        ensures
            r == self.height_spec(),
    {
        self.height
    }

    /// Moves back one cell, to the end of the previous row from the start
    /// of a row, and not at all from the top left.
    pub fn reverse(&mut self)
        requires
            old(self).wf(),
        ensures
            final(self).wf(),
            final(self).width_spec() == old(self).width_spec(),
            final(self).height_spec() == old(self).height_spec(),
            old(self).x_spec() > 0 ==> final(self).x_spec() == old(self).x_spec() - 1 && final(self).y_spec() == old(self).y_spec(),
            old(self).x_spec() == 0 && old(self).y_spec() > 0 ==> final(self).x_spec() == old(self).width_spec() - 1
                && final(self).y_spec() == old(self).y_spec() - 1,
            old(self).x_spec() == 0 && old(self).y_spec() == 0 ==> *final(self) == *old(self),
    {
        if self.x > 0 {
            self.x = self.x - 1;
        } else if self.y > 0 {
            self.x = self.width - 1;
            self.y = self.y - 1;
        }
    }

    /// Moves to the start of the next row; from the last row the cursor
    /// stays on it and the screen is to scroll, which the result tells.
    pub fn newline(&mut self) -> (scroll: bool)
        requires
            old(self).wf(),
        ensures
            final(self).wf(),
            final(self).width_spec() == old(self).width_spec(),
            final(self).height_spec() == old(self).height_spec(),
            final(self).x_spec() == 0,
            scroll == (old(self).y_spec() + 1 == old(self).height_spec()),
            final(self).y_spec() == if scroll { old(self).y_spec() } else { (old(self).y_spec() + 1) as usize },
    {
        self.x = 0;
        self.y = self.y + 1;
        if self.y == self.height {
            self.y = self.height - 1;
            true
        } else {
            false
        }
    }

    /// Moves to the next cell, wrapping to the next row past the last
    /// column; the result tells whether the screen is to scroll.
    pub fn advance(&mut self) -> (scroll: bool)
        requires
            old(self).wf(),
        ensures
            final(self).wf(),
            final(self).width_spec() == old(self).width_spec(),
            final(self).height_spec() == old(self).height_spec(),
            old(self).x_spec() + 1 < old(self).width_spec() ==> !scroll && final(self).x_spec() == old(self).x_spec() + 1
                && final(self).y_spec() == old(self).y_spec(),
            old(self).x_spec() + 1 == old(self).width_spec() ==> final(self).x_spec() == 0
                && scroll == (old(self).y_spec() + 1 == old(self).height_spec())
                && final(self).y_spec() == if scroll { old(self).y_spec() } else { (old(self).y_spec() + 1) as usize },
    {
        self.x = self.x + 1;
        if self.x == self.width {
            self.x = self.x - 1;
            self.newline()
        } else {
            false
        }
    }

    /// Writes one byte: backspace moves back, carriage return to the start
    /// of the row, line feed to the next row; any other byte is drawn at
    /// the cursor, which then advances.
    pub fn put(&mut self, c: u8) -> (e: Effect)
        requires
            old(self).wf(),
        ensures
            final(self).wf(),
            (*final(self), e) == old(self).put_spec(c),
            final(self).width_spec() == old(self).width_spec(),
            final(self).height_spec() == old(self).height_spec(),
            c == 8 || c == 13 || c == 10 ==> e.draw is None,
            c != 8 && c != 13 && c != 10 ==> e.draw == Some((old(self).x_spec(), old(self).y_spec())),
            c == 8 || c == 13 ==> !e.scroll,
            c == 13 ==> final(self).x_spec() == 0 && final(self).y_spec() == old(self).y_spec(),
            c == 10 ==> final(self).x_spec() == 0 && e.scroll == (old(self).y_spec() + 1 == old(self).height_spec()),
            c != 8 && c != 13 && c != 10 ==> e.scroll == (old(self).x_spec() + 1 == old(self).width_spec()
                && old(self).y_spec() + 1 == old(self).height_spec()),
    {
        if c == 8 {
            self.reverse();
            Effect { draw: None, scroll: false }
        } else if c == 13 {
            self.x = 0;
            Effect { draw: None, scroll: false }
        } else if c == 10 {
            let scroll = self.newline();
            Effect { draw: None, scroll }
        } else {
            let at = (self.x, self.y);
            let scroll = self.advance();
            Effect { draw: Some(at), scroll }
        }
    }
}


/// A text console on a framebuffer: white on black, a grid of cells the
/// size of the font's glyphs.
pub struct Console {
    fb: Fb,
    font: Font,
    grid: Grid,
    fg: (u8, u8, u8),
    bg: (u8, u8, u8),
}

impl Console {
    /// The grid has as many cells as whole glyphs fit on the framebuffer,
    /// and the cursor is on it unless it has no cell.
    #[verifier::type_invariant]
    spec fn fits(&self) -> bool {
        &&& self.font.width_spec() > 0
        &&& self.font.height_spec() > 0
        &&& self.grid.width_spec() == self.fb.width_spec() / self.font.width_spec()
        &&& self.grid.height_spec() == self.fb.height_spec() / self.font.height_spec()
        &&& self.grid.wf() || self.grid.width_spec() == 0 || self.grid.height_spec() == 0
    }

    /// The cursor grid.
    pub closed spec fn grid_spec(&self) -> Grid {
        self.grid
    }

    /// The framebuffer.
    pub closed spec fn fb_spec(&self) -> &Fb {
        &self.fb
    }

    /// The font.
    pub closed spec fn font_spec(&self) -> &Font {
        &self.font
    }

    /// Foreground and background colors.
    pub closed spec fn colors(&self) -> ((u8, u8, u8), (u8, u8, u8)) {
        (self.fg, self.bg)
    }

    /// Whether the grid has at least one cell.
    pub open spec fn has_cells(&self) -> bool {
        self.grid_spec().width_spec() > 0 && self.grid_spec().height_spec() > 0
    }

    /// The bytes of a pixel of color `c` on this framebuffer.
    pub open spec fn color_bytes(&self, c: (u8, u8, u8)) -> Seq<u8> {
        word_bytes(color_word_spec(*self.fb_spec(), c))
    }

    /// The screen `p` painted with the background over the cells.
    pub open spec fn cleared(&self, p: Seq<u8>) -> Seq<u8> {
        let fw = self.font_spec().width_spec() as int;
        let fh = self.font_spec().height_spec() as int;
        filled(
            p,
            self.fb_spec().pitch_spec() as int,
            0,
            fh * self.grid_spec().height_spec(),
            fw * self.grid_spec().width_spec() * 4,
            self.color_bytes(self.colors().1),
        )
    }

    /// The screen `p` scrolled up one text row: every pixel row moves up
    /// by the font's height, and the rows freed at the bottom take the
    /// background.
    pub open spec fn scrolled(&self, p: Seq<u8>) -> Seq<u8> {
        let pitch = self.fb_spec().pitch_spec() as int;
        let h = self.fb_spec().height_spec() as int;
        let fh = self.font_spec().height_spec() as int;
        let w4 = self.fb_spec().width_spec() * 4;
        filled(shifted_up(p, pitch, h - fh, fh, w4), pitch, h - fh, h, w4, self.color_bytes(self.colors().1))
    }

    /// The screen `p` after byte `c` had the effect `e`: its glyph drawn
    /// where `e` says, then the screen scrolled if `e` says so.
    pub open spec fn shown(&self, p: Seq<u8>, c: u8, e: Effect) -> Seq<u8> {
        let p1 = match e.draw {
            Some((x, y)) => glyph_drawn(
                p,
                self.fb_spec().pitch_spec() as int,
                *self.font_spec(),
                c as int,
                x as int,
                y as int,
                self.color_bytes(self.colors().0),
                self.color_bytes(self.colors().1),
            ),
            None => p,
        };
        if e.scroll {
            self.scrolled(p1)
        } else {
            p1
        }
    }

    /// The screen `p` after the bytes `s` were written from the cursor
    /// grid `g`, one after the other.
    pub open spec fn rendered(&self, p: Seq<u8>, g: Grid, s: Seq<u8>) -> Seq<u8>
        decreases s.len(),
    {
        if s.len() == 0 {
            p
        } else {
            self.shown(self.rendered(p, g, s.drop_last()), s.last(), put_all(g, s).1.last())
        }
    }

    /// A console on `fb` with glyphs of `font`: as many cells as whole
    /// glyphs fit, the cursor at the top left.
    pub fn new(fb: Fb, font: Font) -> (r: Self)
        requires
            font.width_spec() > 0,
            font.height_spec() > 0,
        ensures
            r.grid_spec().width_spec() == fb.width_spec() / font.width_spec(),
            r.grid_spec().height_spec() == fb.height_spec() / font.height_spec(),
            r.grid_spec().x_spec() == 0 && r.grid_spec().y_spec() == 0,
            r.colors() == ((255u8, 255u8, 255u8), (0u8, 0u8, 0u8)),
            *r.fb_spec() == fb,
            *r.font_spec() == font,
    {
        let grid = Grid::new(fb.width() / font.width(), fb.height() / font.height());
        Console { fb, font, grid, fg: (255, 255, 255), bg: (0, 0, 0) }
    }

    /// The framebuffer.
    pub fn fb(&self) -> (r: &Fb)
        ensures
            r == self.fb_spec(),
    {
        &self.fb
    }

    /// The font.
    pub fn font(&self) -> (r: &Font)
        ensures
            r == self.font_spec(),
    {
        &self.font
    }

    /// The cursor grid.
    pub fn grid(&self) -> (r: Grid)
        ensures
            r == self.grid_spec(),
    {
        self.grid
    }

    /// Foreground and background colors.
    pub fn fg_bg(&self) -> (r: ((u8, u8, u8), (u8, u8, u8)))
        ensures
            r == self.colors(),
    {
        (self.fg, self.bg)
    }

    /// Homes the cursor and paints the cells with the background, on the
    /// screen `screen` (the framebuffer's memory); nothing happens when the
    /// grid has no cell.
    pub fn clear(&mut self, screen: &mut Vec<u8>)
        requires
            old(self).fb_spec().pitch_spec() * old(self).fb_spec().height_spec() <= old(screen)@.len(),
        ensures
            old(self).has_cells() ==> final(self).grid_spec() == Grid::new_spec(
                old(self).grid_spec().width_spec(),
                old(self).grid_spec().height_spec(),
            ) && final(screen)@ == old(self).cleared(old(screen)@),
            !old(self).has_cells() ==> final(self).grid_spec() == old(self).grid_spec() && final(screen)@ == old(screen)@,
            final(self).fb_spec() == old(self).fb_spec(),
            final(self).font_spec() == old(self).font_spec(),
            final(self).colors() == old(self).colors(),
    {
        proof {
            use_type_invariant(&*self);
            use_type_invariant(&self.fb);
        }
        if self.grid.width == 0 || self.grid.height == 0 {
            return;
        }
        self.grid.x = 0;
        self.grid.y = 0;
        let bg = pixel_bytes(self.fb.color_word(self.bg));
        let fw = self.font.width();
        let fh = self.font.height();
        let gw = self.grid.width;
        let gh = self.grid.height;
        proof {
            lemma_cells_fit(self.fb.width as int, fw as int, gw as int);
            lemma_cells_fit(self.fb.height as int, fh as int, gh as int);
            assert(fh * gh * self.fb.pitch <= self.fb.height * self.fb.pitch) by (nonlinear_arith)
                requires
                    fh * gh <= self.fb.height,
            ;
            assert(fw * gw * 4 <= self.fb.width * 4) by (nonlinear_arith)
                requires
                    fw * gw <= self.fb.width,
            ;
            assert(fw * gw * 4 % 4 == 0) by (nonlinear_arith);
            assert(self.fb.height * self.fb.pitch == self.fb.pitch * self.fb.height) by (nonlinear_arith);
        }
        fill_rows(screen, self.fb.pitch, 0, fh * gh, fw * gw * 4, bg);
    }

    /// Scrolls the screen up one text row: each pixel row moves up by the
    /// font's height, and the rows freed at the bottom take the background.
    fn scroll(&self, screen: &mut Vec<u8>)
        requires
            self.has_cells(),
            self.fb_spec().pitch_spec() * self.fb_spec().height_spec() <= old(screen)@.len(),
        ensures
            final(screen)@ == self.scrolled(old(screen)@),
    {
        proof {
            use_type_invariant(self);
            use_type_invariant(&self.fb);
            lemma_cells_fit(self.fb.height as int, self.font.height_spec() as int, self.grid.height as int);
        }
        let pitch = self.fb.pitch;
        let h = self.fb.height;
        let fh = self.font.height();
        let w4 = self.fb.width * 4;
        let bg = pixel_bytes(self.fb.color_word(self.bg));
        proof {
            assert(h * pitch == pitch * h) by (nonlinear_arith);
            assert(w4 % 4 == 0) by (nonlinear_arith)
                requires
                    w4 == self.fb.width * 4,
            ;
        }
        shift_rows_up(screen, pitch, h - fh, fh, w4);
        fill_rows(screen, pitch, h - fh, h, w4, bg);
    }

    /// Writes `buf` on the screen `screen` (the framebuffer's memory): each
    /// byte in turn moves the cursor, draws its glyph and scrolls the
    /// screen as `Grid::put` says; the result is the effect of each byte.
    /// Nothing happens when the grid has no cell.
    pub fn write_str(&mut self, buf: &[u8], screen: &mut Vec<u8>) -> (r: Vec<Effect>)
        requires
            old(self).fb_spec().pitch_spec() * old(self).fb_spec().height_spec() <= old(screen)@.len(),
            forall|i: int|
                0 <= i < buf@.len() && buf@[i] != 8 && buf@[i] != 13 && buf@[i] != 10 ==> #[trigger] buf@[i]
                    < old(self).font_spec().count_spec(),
        ensures
            !old(self).has_cells() ==> r@.len() == 0 && final(self).grid_spec() == old(self).grid_spec()
                && final(screen)@ == old(screen)@,
            old(self).has_cells() ==> r@.len() == buf@.len() && final(self).grid_spec() == put_all(
                old(self).grid_spec(),
                buf@,
            ).0 && r@ == put_all(old(self).grid_spec(), buf@).1 && final(screen)@ == old(self).rendered(
                old(screen)@,
                old(self).grid_spec(),
                buf@,
            ),
            final(self).fb_spec() == old(self).fb_spec(),
            final(self).font_spec() == old(self).font_spec(),
            final(self).colors() == old(self).colors(),
    {
        proof {
            use_type_invariant(&*self);
        }
        let mut out: Vec<Effect> = Vec::new();
        if self.grid.width == 0 || self.grid.height == 0 {
            return out;
        }
        proof {
            use_type_invariant(&self.fb);
            lemma_cells_fit(self.fb.width as int, self.font.width_spec() as int, self.grid.width as int);
            lemma_cells_fit(self.fb.height as int, self.font.height_spec() as int, self.grid.height as int);
        }
        let fg = pixel_bytes(self.fb.color_word(self.fg));
        let bg = pixel_bytes(self.fb.color_word(self.bg));
        let ghost g0 = self.grid;
        let ghost p0 = screen@;
        let mut i: usize = 0;
        while i < buf.len()
            invariant
                0 <= i <= buf@.len(),
                self.grid.wf(),
                self.grid.width_spec() == g0.width_spec(),
                self.grid.height_spec() == g0.height_spec(),
                g0.width_spec() > 0 && g0.height_spec() > 0,
                g0.width_spec() == self.fb.width_spec() / self.font.width_spec(),
                g0.height_spec() == self.fb.height_spec() / self.font.height_spec(),
                self.fb == old(self).fb,
                self.font == old(self).font,
                self.fg == old(self).fg,
                self.bg == old(self).bg,
                g0 == old(self).grid,
                p0 == old(screen)@,
                fg@ == self.color_bytes(self.colors().0),
                bg@ == self.color_bytes(self.colors().1),
                screen@.len() == p0.len(),
                self.fb.pitch * self.fb.height <= p0.len(),
                self.font.width_spec() * g0.width_spec() <= self.fb.width,
                self.font.height_spec() * g0.height_spec() <= self.fb.height,
                self.font.width_spec() > 0,
                self.font.height_spec() > 0,
                self.fb.width * 4 <= self.fb.pitch,
                forall|j: int|
                    0 <= j < buf@.len() && buf@[j] != 8 && buf@[j] != 13 && buf@[j] != 10 ==> #[trigger] buf@[j]
                        < self.font.count_spec(),
                out@.len() == i,
                (self.grid, out@) == put_all(g0, buf@.subrange(0, i as int)),
                screen@ == old(self).rendered(p0, g0, buf@.subrange(0, i as int)),
            decreases buf@.len() - i,
        {
            let c = buf[i];
            let ghost before = screen@;
            let mut g = self.grid;
            let e = g.put(c);
            self.grid = g;
            proof {
                assert(buf@.subrange(0, i + 1).drop_last() =~= buf@.subrange(0, i as int));
                assert(buf@.subrange(0, i + 1).last() == c);
            }
            match e.draw {
                Some((x, y)) => {
                    proof {
                        lemma_cell_in_screen(
                            x as int,
                            y as int,
                            self.font.width_spec() as int,
                            self.font.height_spec() as int,
                            g0.width_spec() as int,
                            g0.height_spec() as int,
                            self.fb.width as int,
                            self.fb.height as int,
                            self.fb.pitch as int,
                        );
                    }
                    draw_glyph(screen, self.fb.pitch, &self.font, c as usize, x, y, fg, bg);
                },
                None => {},
            }
            if e.scroll {
                self.scroll(screen);
            }
            out.push(e);
            i = i + 1;
        }
        assert(buf@.subrange(0, buf@.len() as int) =~= buf@);
        out
    }
}

/// As many cells as whole glyphs fit take no more pixels than there are.
proof fn lemma_cells_fit(pixels: int, glyph: int, cells: int)
    requires
        0 <= pixels,
        0 < glyph,
        cells == pixels / glyph,
    ensures
        0 <= glyph * cells <= pixels,
        cells > 0 ==> glyph <= pixels,
{
    vstd::arithmetic::div_mod::lemma_fundamental_div_mod(pixels, glyph);
    vstd::arithmetic::div_mod::lemma_mod_pos_bound(pixels, glyph);
    vstd::arithmetic::div_mod::lemma_div_pos_is_pos(pixels, glyph);
    assert(0 <= glyph * cells) by (nonlinear_arith)
        requires
            0 < glyph,
            0 <= cells,
    ;
    assert(cells > 0 ==> glyph <= glyph * cells) by (nonlinear_arith)
        requires
            0 < glyph,
    ;
}

/// A cell of the grid lies within the screen.
proof fn lemma_cell_in_screen(x: int, y: int, fw: int, fh: int, gw: int, gh: int, w: int, h: int, pitch: int)
    requires
        0 <= x < gw,
        0 <= y < gh,
        0 < fw,
        0 < fh,
        fw * gw <= w,
        fh * gh <= h,
        w * 4 <= pitch,
        0 <= pitch,
    ensures
        (x + 1) * fw * 4 <= pitch,
        (y + 1) * fh * pitch <= pitch * h,
{
    assert((x + 1) * fw <= fw * gw) by (nonlinear_arith)
        requires
            x + 1 <= gw,
            0 < fw,
    ;
    assert((y + 1) * fh <= fh * gh) by (nonlinear_arith)
        requires
            y + 1 <= gh,
            0 < fh,
    ;
    assert((x + 1) * fw * 4 <= w * 4) by (nonlinear_arith)
        requires
            (x + 1) * fw <= w,
    ;
    assert((y + 1) * fh * pitch <= pitch * h) by (nonlinear_arith)
        requires
            (y + 1) * fh <= h,
            0 <= pitch,
    ;
}

impl Grid {
    /// A grid with the cursor at the top left.
    pub closed spec fn new_spec(width: usize, height: usize) -> Grid {
        Grid { x: 0, y: 0, width, height }
    }

    /// The same grid with the cursor at column `x` and row `y`.
    pub closed spec fn with_cursor(self, x: usize, y: usize) -> Grid {
        Grid { x, y, ..self }
    }

    /// Moving the cursor moves nothing else.
    pub proof fn lemma_with_cursor(self, x: usize, y: usize)
        ensures
            self.with_cursor(x, y).x_spec() == x,
            self.with_cursor(x, y).y_spec() == y,
            self.with_cursor(x, y).width_spec() == self.width_spec(),
            self.with_cursor(x, y).height_spec() == self.height_spec(),
    {
    }

    /// The grid after one byte, and its effect: a backspace steps back one
    /// cell, to the end of the row above from the first column, and stays
    /// put at the top left; a carriage return goes to the first column; a
    /// line feed goes to the start of the next row, scrolling from the
    /// last; any other byte is drawn at the cursor, which then advances
    /// one cell, or to the next row from the last column.
    pub open spec fn put_spec(self, c: u8) -> (Grid, Effect) {
        let x = self.x_spec();
        let y = self.y_spec();
        let w = self.width_spec();
        let h = self.height_spec();
        if c == 8 {
            let g = if x > 0 {
                self.with_cursor((x - 1) as usize, y)
            } else if y > 0 {
                self.with_cursor((w - 1) as usize, (y - 1) as usize)
            } else {
                self
            };
            (g, Effect { draw: None, scroll: false })
        } else if c == 13 {
            (self.with_cursor(0, y), Effect { draw: None, scroll: false })
        } else if c == 10 {
            let scroll = y + 1 == h;
            (self.with_cursor(0, if scroll { y } else { (y + 1) as usize }), Effect { draw: None, scroll })
        } else {
            let at = Some((x, y));
            if x + 1 < w {
                (self.with_cursor((x + 1) as usize, y), Effect { draw: at, scroll: false })
            } else {
                let scroll = y + 1 == h;
                (self.with_cursor(0, if scroll { y } else { (y + 1) as usize }), Effect { draw: at, scroll })
            }
        }
    }
}

/// The grid after the bytes `s`, and the effect of each.
pub open spec fn put_all(g: Grid, s: Seq<u8>) -> (Grid, Seq<Effect>)
    decreases s.len(),
{
    if s.len() == 0 {
        (g, Seq::empty())
    } else {
        let (g1, es) = put_all(g, s.drop_last());
        let (g2, e) = g1.put_spec(s.last());
        (g2, es.push(e))
    }
}

/// Writing `a` and then `b` to a console leaves its cursor where writing
/// `a + b` at once does, with the effects of `a` followed by those of `b`;
/// so a log wrapped around its ring may be shown in two pieces.
pub proof fn law_put_all_in_pieces(g: Grid, a: Seq<u8>, b: Seq<u8>)
    ensures
        put_all(g, a + b) == (
            put_all(put_all(g, a).0, b).0,
            put_all(g, a).1 + put_all(put_all(g, a).0, b).1,
        ),
    decreases b.len(),
{
    if b.len() == 0 {
        assert(a + b =~= a);
        assert(put_all(g, a).1 + Seq::<Effect>::empty() =~= put_all(g, a).1);
    } else {
        let b1 = b.drop_last();
        law_put_all_in_pieces(g, a, b1);
        assert((a + b).drop_last() =~= a + b1);
        assert((a + b).last() == b.last());
        let g1 = put_all(g, a).0;
        let (g2, e2) = put_all(g1, b1);
        let (g3, e3) = g2.put_spec(b.last());
        assert(put_all(g1, b) == (g3, e2.push(e3)));
        assert((put_all(g, a).1 + e2).push(e3) =~= put_all(g, a).1 + e2.push(e3));
    }
}

/// Whatever is written, the cursor stays on the grid.
pub proof fn law_cursor_on_grid(g: Grid, s: Seq<u8>)
    requires
        g.wf(),
    ensures
        put_all(g, s).0.wf(),
        put_all(g, s).0.width_spec() == g.width_spec(),
        put_all(g, s).0.height_spec() == g.height_spec(),
        put_all(g, s).1.len() == s.len(),
    decreases s.len(),
{
    if s.len() > 0 {
        law_cursor_on_grid(g, s.drop_last());
    }
}

/// Bytes that are not backspace, carriage return or line feed, written
/// where the row has room for them all, move the cursor right by their
/// count on the same row, and draw each at the next cell without
/// scrolling.
pub proof fn law_plain_bytes_advance(g: Grid, s: Seq<u8>)
    requires
        g.wf(),
        forall|i: int| 0 <= i < s.len() ==> #[trigger] s[i] != 8 && s[i] != 13 && s[i] != 10,
        g.x_spec() + s.len() < g.width_spec(),
    ensures
        put_all(g, s).0.x_spec() == g.x_spec() + s.len(),
        put_all(g, s).0.y_spec() == g.y_spec(),
        put_all(g, s).0.width_spec() == g.width_spec(),
        put_all(g, s).0.height_spec() == g.height_spec(),
        put_all(g, s).1.len() == s.len(),
        forall|i: int| 0 <= i < s.len() ==> #[trigger] put_all(g, s).1[i] == (Effect {
            draw: Some(((g.x_spec() + i) as usize, g.y_spec())),
            scroll: false,
        }),
    decreases s.len(),
{
    if s.len() > 0 {
        let s1 = s.drop_last();
        assert forall|i: int| 0 <= i < s1.len() implies #[trigger] s1[i] != 8 && s1[i] != 13 && s1[i] != 10 by {
            assert(s1[i] == s[i]);
        }
        law_plain_bytes_advance(g, s1);
        let g1 = put_all(g, s1).0;
        assert(s.last() == s[s.len() - 1]);
        g1.lemma_with_cursor((g1.x_spec() + 1) as usize, g1.y_spec());
    }
}

/// Writing `a` and then `b` to a console paints the screen as writing
/// `a + b` at once does.
pub proof fn law_rendered_in_pieces(c: &Console, p: Seq<u8>, g: Grid, a: Seq<u8>, b: Seq<u8>)
    ensures
        c.rendered(p, g, a + b) == c.rendered(c.rendered(p, g, a), put_all(g, a).0, b),
    decreases b.len(),
{
    if b.len() == 0 {
        assert(a + b =~= a);
    } else {
        let b1 = b.drop_last();
        law_rendered_in_pieces(c, p, g, a, b1);
        law_put_all_in_pieces(g, a, b);
        assert((a + b).drop_last() =~= a + b1);
        assert((a + b).last() == b.last());
        let es = put_all(g, a + b).1;
        let ga = put_all(g, a).0;
        assert(put_all(g, a + b).1 == put_all(g, a).1 + put_all(ga, b).1);
        assert(put_all(ga, b).1.len() > 0) by {
            lemma_put_all_len(ga, b);
        }
        assert(es.last() == put_all(ga, b).1.last());
    }
}

/// Writing `s` has one effect per byte.
proof fn lemma_put_all_len(g: Grid, s: Seq<u8>)
    ensures
        put_all(g, s).1.len() == s.len(),
    decreases s.len(),
{
    if s.len() > 0 {
        lemma_put_all_len(g, s.drop_last());
    }
}

} // verus!
