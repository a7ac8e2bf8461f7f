use wltile::render::{drawable_check, render, render_checked, shade_of, Glyph};

fn glyph(width: usize, height: usize, ymin: i32, advance: usize, fill: u8) -> Glyph {
    Glyph { width, height, ymin, advance, coverage: vec![fill; width * height] }
}

#[test]
fn shade_matches_the_floating_point_blend() {
    for g in 0..=255u8 {
        let expected = (f32::from(128u8) * (1.0 - (f32::from(g) / 255.0))).ceil() as u8;
        assert_eq!(shade_of(g), expected, "coverage {g}");
    }
}

#[test]
fn empty_text_is_a_frame() {
    let (buf, w, h) = render(&vec![], 0);
    assert_eq!((w, h), (50, 50));
    assert_eq!(buf.len(), 50 * 50 * 4);
    for (i, b) in buf.iter().enumerate() {
        assert_eq!(*b, if i % 4 == 3 { 255 } else { 128 });
    }
}

#[test]
fn glyphs_are_drawn_on_the_bottom_line() {
    // Two glyphs: 2x3 fully covered with advance 4, then 3x2 half covered.
    let glyphs = vec![glyph(2, 3, 0, 4, 255), glyph(3, 2, 1, 5, 128)];
    assert!(drawable_check(&glyphs, 2));
    let (buf, w, h) = render(&glyphs, 2);
    // Width: advance of the first glyph, width of the last one, and the frame.
    assert_eq!(w, 4 + 3 + 50);
    assert_eq!(h, 3 + 50);
    let px = |x: usize, y: usize| buf[(y * w + x) * 4];
    // The first glyph fills columns 25..27 of rows 25..28 in black.
    assert_eq!(px(25, 25), 0);
    assert_eq!(px(26, 27), 0);
    assert_eq!(px(27, 25), 128);
    // The second, raised by one row, fills columns 29..32 of rows 25..27.
    assert_eq!(px(29, 25), shade_of(128));
    assert_eq!(px(31, 26), 64);
    assert_eq!(px(29, 27), 128);
    assert_eq!(buf[(26 * w + 25) * 4 + 3], 255);
}

#[test]
fn glyphs_reaching_outside_the_picture_are_refused() {
    // A glyph far wider than its advance runs past the picture's end.
    let glyphs = vec![glyph(2000, 1, 0, 1, 255), glyph(1, 1, 0, 1, 255)];
    assert!(!drawable_check(&glyphs, 2));
    assert!(render_checked(&glyphs, 2).is_none());
    // A bitmap smaller than the glyph is refused too.
    let short = vec![Glyph { width: 2, height: 2, ymin: 0, advance: 2, coverage: vec![0; 3] }];
    assert!(render_checked(&short, 1).is_none());
    assert!(render_checked(&vec![glyph(2, 2, 0, 2, 0)], 1).is_some());
}
