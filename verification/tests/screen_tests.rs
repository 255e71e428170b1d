use void_kernel::gfx::font::Font;
use void_kernel::gfx::screen::{draw_glyph, fill_rows, pixel_bytes, shift_rows_up};

#[test]
fn pixel_bytes_are_lowest_first() {
    assert_eq!(pixel_bytes(0x1122_3344), [0x44, 0x33, 0x22, 0x11]);
    assert_eq!(pixel_bytes(0), [0, 0, 0, 0]);
}

#[test]
fn fill_paints_the_rows_asked() {
    // Three rows of 8 bytes, painting the first 4 bytes of rows 1 and 2.
    let mut p = vec![9u8; 24];
    fill_rows(&mut p, 8, 1, 3, 4, [1, 2, 3, 4]);
    assert_eq!(p, vec![9, 9, 9, 9, 9, 9, 9, 9, 1, 2, 3, 4, 9, 9, 9, 9, 1, 2, 3, 4, 9, 9, 9, 9]);
}

#[test]
fn shift_moves_rows_up() {
    let mut p: Vec<u8> = (0..24).collect();
    shift_rows_up(&mut p, 8, 2, 1, 6);
    assert_eq!(&p[0..8], &[8, 9, 10, 11, 12, 13, 6, 7]);
    assert_eq!(&p[8..16], &[16, 17, 18, 19, 20, 21, 14, 15]);
    assert_eq!(&p[16..24], &[16, 17, 18, 19, 20, 21, 22, 23]);
}

#[test]
fn glyph_lands_in_its_cell() {
    // Glyphs of 2x1 pixels: glyph 1 has its left pixel set.
    let font = Font::new(2, 1, 2, vec![0x00, 0x80]);
    // Two cells per row, pitch of 16 bytes, two rows.
    let mut p = vec![7u8; 32];
    draw_glyph(&mut p, 16, &font, 1, 1, 1, [0xa, 0xb, 0xc, 0xd], [1, 2, 3, 4]);
    let mut expect = vec![7u8; 32];
    expect[24..27].copy_from_slice(&[0xa, 0xb, 0xc]);
    expect[28..31].copy_from_slice(&[1, 2, 3]);
    assert_eq!(p, expect);
}
