use zlack::overlay::{draw_overlay_digits, icon_mask_len, overlay_count_text, rgba_to_bgra, RgbaCanvas};

#[test]
fn badge_text_shows_counts_up_to_ninety_nine() {
    assert_eq!(overlay_count_text(None), None);
    assert_eq!(overlay_count_text(Some(0)), None);
    assert_eq!(overlay_count_text(Some(7)), Some("7".to_string()));
    assert_eq!(overlay_count_text(Some(99)), Some("99".to_string()));
    assert_eq!(overlay_count_text(Some(100)), Some("+".to_string()));
}

#[test]
fn pixels_are_reordered_to_bgra_and_back() {
    let rgba = vec![1, 2, 3, 4, 5, 6, 7, 8, 9];
    let bgra = rgba_to_bgra(&rgba);
    assert_eq!(bgra, vec![3, 2, 1, 4, 7, 6, 5, 8, 9]);
    assert_eq!(rgba_to_bgra(&bgra), rgba);
}

#[test]
fn mask_rows_are_padded_to_sixteen_bits() {
    assert_eq!(icon_mask_len(32, 32), 128);
    assert_eq!(icon_mask_len(1, 1), 2);
    assert_eq!(icon_mask_len(17, 3), 12);
    assert_eq!(icon_mask_len(0, 5), 0);
}

fn pixel(c: &[u8], w: usize, x: usize, y: usize) -> [u8; 4] {
    let o = 4 * (y * w + x);
    [c[o], c[o + 1], c[o + 2], c[o + 3]]
}

#[test]
fn a_single_digit_is_drawn_large_and_centred() {
    let mut canvas = RgbaCanvas::new(32, 32);
    draw_overlay_digits(&mut canvas, "1", 32);
    let raw = canvas.into_raw();
    // Scale 5, left edge 8, top edge 3: the top row of "1" lights its middle column.
    assert_eq!(pixel(&raw, 32, 13, 3), [255; 4]);
    assert_eq!(pixel(&raw, 32, 17, 7), [255; 4]);
    assert_eq!(pixel(&raw, 32, 8, 3), [0; 4]);
    assert_eq!(pixel(&raw, 32, 8, 8), [255; 4]);
    assert_eq!(pixel(&raw, 32, 0, 0), [0; 4]);
    let white = raw.chunks(4).filter(|p| p == &[255, 255, 255, 255]).count();
    // "1" lights 8 of its 15 cells, each 5x5 pixels.
    assert_eq!(white, 8 * 25);
}

#[test]
fn two_digits_use_small_cells_and_other_characters_are_ignored() {
    let mut canvas = RgbaCanvas::new(32, 32);
    draw_overlay_digits(&mut canvas, "x+", 32);
    let single = canvas.into_raw();
    let white = single.chunks(4).filter(|p| p == &[255, 255, 255, 255]).count();
    // "+" alone: 5 cells of 5x5.
    assert_eq!(white, 5 * 25);

    let mut canvas = RgbaCanvas::new(32, 32);
    draw_overlay_digits(&mut canvas, "88", 32);
    let raw = canvas.into_raw();
    let white = raw.chunks(4).filter(|p| p == &[255, 255, 255, 255]).count();
    // "8" lights 13 cells; two of them at scale 3.
    assert_eq!(white, 2 * 13 * 9);
    assert_eq!(pixel(&raw, 32, 7, 8), [255; 4]);
}

#[test]
fn canvas_checks_its_byte_count() {
    assert!(RgbaCanvas::from_raw(2, 2, vec![0; 15]).is_none());
    let mut c = RgbaCanvas::from_raw(2, 1, vec![0; 8]).unwrap();
    c.put_pixel(1, 0, [1, 2, 3, 4]);
    assert_eq!(c.width(), 2);
    assert_eq!(c.height(), 1);
    assert_eq!(c.into_raw(), vec![0, 0, 0, 0, 1, 2, 3, 4]);
}
