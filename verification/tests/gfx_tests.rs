use void_kernel::gfx::fb::{Console, Effect, Fb, Grid, Mask};
use void_kernel::gfx::font::Font;

fn fb(width: usize, height: usize) -> Fb {
    Fb::try_new(0x1000, width, height, width * 4, 32, Mask::new(8, 16), Mask::new(8, 8), Mask::new(8, 0)).unwrap()
}

fn font() -> Font {
    // 128 glyphs of 8x2 pixels: glyph 0 has its top-left and bottom-right
    // pixels set, glyph 1 its top row, the others none.
    let mut data = vec![0u8; 256];
    data[0] = 0x80;
    data[1] = 0x01;
    data[2] = 0xff;
    Font::new(8, 2, 128, data)
}

fn screen(fb: &Fb) -> Vec<u8> {
    vec![0x55; fb.pitch() * fb.height()]
}

fn draw(x: usize, y: usize) -> Effect {
    Effect { draw: Some((x, y)), scroll: false }
}

#[test]
fn masks_must_be_bytes_within_a_word() {
    assert!(Mask::new(8, 24).check());
    assert!(Mask::new(8, 0).check());
    assert!(!Mask::new(8, 25).check());
    assert!(!Mask::new(5, 0).check());
}

#[test]
fn framebuffer_rules() {
    let m = || Mask::new(8, 0);
    assert!(Fb::try_new(0x1000, 10, 10, 40, 32, m(), m(), m()).is_some());
    assert!(Fb::try_new(0, 10, 10, 40, 32, m(), m(), m()).is_none());
    assert!(Fb::try_new(0x1000, 10, 10, 40, 16, m(), m(), m()).is_none());
    assert!(Fb::try_new(0x1000, 10, 10, 39, 32, m(), m(), m()).is_none());
    assert!(Fb::try_new(0x1000, usize::MAX / 2, 10, usize::MAX, 32, m(), m(), m()).is_none());
    assert!(Fb::try_new(0x1000, 10, 10, 40, 32, Mask::new(8, 30), m(), m()).is_none());
}

#[test]
fn color_word_places_channels() {
    let f = fb(4, 4);
    assert_eq!(f.color_word((0x12, 0x34, 0x56)), 0x0012_3456);
    assert_eq!(f.color_word((255, 255, 255)), 0x00ff_ffff);
    assert_eq!(f.color_word((0, 0, 0)), 0);
}

#[test]
fn console_grid_is_whole_glyphs() {
    let c = Console::new(fb(20, 5), font());
    assert_eq!(c.grid().width(), 2);
    assert_eq!(c.grid().height(), 2);
    assert_eq!(c.fg_bg(), ((255, 255, 255), (0, 0, 0)));
    assert_eq!(c.fb().width(), 20);
    assert_eq!(c.font().height(), 2);
}

#[test]
fn writing_moves_the_cursor() {
    let mut c = Console::new(fb(24, 4), font());
    let mut s = screen(c.fb());
    let e = c.write_str(b"abc", &mut s);
    assert_eq!(e, vec![draw(0, 0), draw(1, 0), draw(2, 0)]);
    let e = c.write_str(b"d", &mut s);
    assert_eq!(e, vec![draw(0, 1)]);
}

#[test]
fn control_bytes_move_without_drawing() {
    let mut c = Console::new(fb(24, 6), font());
    let mut s = screen(c.fb());
    let e = c.write_str(b"ab\rc\nd\x08e", &mut s);
    assert_eq!(
        e,
        vec![
            draw(0, 0),
            draw(1, 0),
            Effect { draw: None, scroll: false },
            draw(0, 0),
            Effect { draw: None, scroll: false },
            draw(0, 1),
            Effect { draw: None, scroll: false },
            draw(0, 1),
        ]
    );
}

#[test]
fn last_row_scrolls() {
    let mut c = Console::new(fb(16, 4), font());
    let mut s = screen(c.fb());
    let e = c.write_str(b"ab", &mut s);
    assert_eq!(e, vec![draw(0, 0), Effect { draw: Some((1, 0)), scroll: false }]);
    let e = c.write_str(b"cd", &mut s);
    assert_eq!(e, vec![draw(0, 1), Effect { draw: Some((1, 1)), scroll: true }]);
    let e = c.write_str(b"\n", &mut s);
    assert_eq!(e, vec![Effect { draw: None, scroll: true }]);
}

#[test]
fn backspace_at_top_left_stays() {
    let mut g = Grid::new(3, 2);
    g.reverse();
    assert_eq!(g.put(b'x'), draw(0, 0));
    g.reverse();
    g.reverse();
    assert_eq!(g.put(b'y'), draw(0, 0));
}

#[test]
fn backspace_goes_to_previous_row_end() {
    let mut g = Grid::new(3, 2);
    assert!(!g.newline());
    g.reverse();
    assert_eq!(g.put(b'x'), Effect { draw: Some((2, 0)), scroll: false });
}

#[test]
fn clear_homes_the_cursor() {
    let mut c = Console::new(fb(24, 4), font());
    let mut s = screen(c.fb());
    c.write_str(b"abcd", &mut s);
    c.clear(&mut s);
    assert_eq!(c.write_str(b"z", &mut s), vec![draw(0, 0)]);
}

#[test]
fn console_without_cells_does_nothing() {
    let mut c = Console::new(fb(4, 4), font());
    let mut s = screen(c.fb());
    assert_eq!(c.grid().width(), 0);
    c.clear(&mut s);
    assert!(c.write_str(b"abc", &mut s).is_empty());
    assert!(s.iter().all(|&b| b == 0x55));
}

#[test]
fn writing_in_two_pieces_is_writing_at_once() {
    let mut a = Console::new(fb(24, 4), font());
    let mut b = Console::new(fb(24, 4), font());
    let mut sa = screen(a.fb());
    let mut sb = screen(b.fb());
    let mut ea = a.write_str(b"hello\nwo", &mut sa);
    ea.extend(a.write_str(b"rld\x08!", &mut sa));
    let eb = b.write_str(b"hello\nworld\x08!", &mut sb);
    assert_eq!(ea, eb);
    assert_eq!(sa, sb);
}

#[test]
fn font_pixels_row_by_row() {
    let f = font();
    assert_eq!(f.width(), 8);
    assert_eq!(f.height(), 2);
    assert_eq!(f.glyph_count(), 128);
    assert_eq!(&f.data()[..4], &[0x80, 0x01, 0xff, 0x00][..]);
    let p = f.with_pixels(0);
    assert_eq!(p.len(), 16);
    assert_eq!(p[0], (0, 0, true));
    assert_eq!(p[1], (1, 0, false));
    assert_eq!(p[7], (7, 0, false));
    assert_eq!(p[8], (0, 1, false));
    assert_eq!(p[15], (7, 1, true));
    let q = f.with_pixels(1);
    assert!(q[..8].iter().all(|&(_, y, on)| y == 0 && on));
    assert!(q[8..].iter().all(|&(_, y, on)| y == 1 && !on));
}

#[test]
fn wide_glyphs_span_two_bytes_per_row() {
    // One glyph of 10x1 pixels: bytes 0b1100_0000, 0b0100_0000.
    let f = Font::new(10, 1, 1, vec![0xc0, 0x40]);
    let p = f.with_pixels(0);
    let on: Vec<usize> = p.iter().filter(|t| t.2).map(|t| t.0).collect();
    assert_eq!(on, vec![0, 1, 9]);
    assert_eq!(p.len(), 10);
}

#[test]
fn glyph_pixels_are_painted() {
    let mut c = Console::new(fb(24, 4), font());
    let mut s = screen(c.fb());
    c.write_str(&[0u8], &mut s);
    let pitch = 96;
    // Pixel (0, 0) is set: white, fourth byte untouched.
    assert_eq!(&s[0..4], &[0xff, 0xff, 0xff, 0x55]);
    // Pixel (1, 0) is not: black.
    assert_eq!(&s[4..8], &[0x00, 0x00, 0x00, 0x55]);
    // Pixel (7, 1) is set.
    assert_eq!(&s[pitch + 28..pitch + 32], &[0xff, 0xff, 0xff, 0x55]);
    assert_eq!(&s[pitch..pitch + 4], &[0x00, 0x00, 0x00, 0x55]);
    // The next cell is untouched.
    assert_eq!(&s[32..36], &[0x55, 0x55, 0x55, 0x55]);
}

#[test]
fn clear_paints_the_cells_black() {
    // 20 pixels wide: two cells of 8 pixels, the last 4 pixels are no cell.
    let mut c = Console::new(fb(20, 5), font());
    let mut s = screen(c.fb());
    c.clear(&mut s);
    let pitch = 80;
    for y in 0..5 {
        for x in 0..pitch {
            let expect = if y < 4 && x < 64 { 0x00 } else { 0x55 };
            assert_eq!(s[y * pitch + x], expect, "byte {} of row {}", x, y);
        }
    }
}

#[test]
fn scrolling_moves_rows_up() {
    // Two rows of two cells; glyph 1 paints its top pixel row white.
    let mut c = Console::new(fb(16, 4), font());
    let mut s = vec![0u8; 64 * 4];
    c.write_str(&[1u8, 0u8], &mut s);
    // Row 0 of the screen holds glyph 1 then glyph 0's top row.
    assert_eq!(&s[0..4], &[0xff, 0xff, 0xff, 0x00]);
    c.write_str(&[1u8], &mut s);
    assert_eq!(&s[2 * 64..2 * 64 + 4], &[0xff, 0xff, 0xff, 0x00]);
    // Writing the last cell scrolls: the second text row moves up.
    c.write_str(&[0u8], &mut s);
    assert_eq!(&s[0..4], &[0xff, 0xff, 0xff, 0x00]);
    assert_eq!(&s[32..36], &[0xff, 0xff, 0xff, 0x00]);
    assert_eq!(&s[36..40], &[0x00, 0x00, 0x00, 0x00]);
    // The bottom text row is cleared.
    assert!(s[2 * 64..].iter().all(|&b| b == 0));
}
