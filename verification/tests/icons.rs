use std::io::Cursor;

use zlack::icons::choose_icon;

fn png_bytes(w: u32, h: u32, px: [u8; 4]) -> Vec<u8> {
    let img = image::RgbaImage::from_pixel(w, h, image::Rgba(px));
    let mut out = Cursor::new(Vec::new());
    img.write_to(&mut out, image::ImageOutputFormat::Png).unwrap();
    out.into_inner()
}

#[test]
fn nothing_decodable_gives_a_blank_icon() {
    let canvas = choose_icon(&vec![b"not an image".to_vec()], b"", 2);
    assert_eq!(canvas.width(), 2);
    assert_eq!(canvas.height(), 2);
    assert_eq!(canvas.into_raw(), vec![0u8; 16]);
}

#[test]
fn the_first_decodable_candidate_wins_at_its_own_size() {
    let red = png_bytes(2, 2, [255, 0, 0, 255]);
    let blue = png_bytes(2, 2, [0, 0, 255, 255]);
    let canvas = choose_icon(&vec![b"junk".to_vec(), red, blue.clone()], &blue, 2);
    assert_eq!(canvas.into_raw(), [255, 0, 0, 255].repeat(4));
}

#[test]
fn the_bundled_icon_stands_in_and_is_resampled() {
    let green = png_bytes(2, 2, [0, 255, 0, 255]);
    let canvas = choose_icon(&Vec::new(), &green, 4);
    assert_eq!(canvas.width(), 4);
    assert_eq!(canvas.height(), 4);
    let raw = canvas.into_raw();
    assert_eq!(raw.len(), 64);
    // A uniform image stays uniform when resampled.
    assert!(raw.chunks(4).all(|p| p[1] > 200 && p[0] < 50 && p[2] < 50));
}
