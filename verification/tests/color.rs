use pixcil::color::Rgba;

#[test]
fn blend_over_transparent_keeps_source() {
    let src = Rgba::new(10, 20, 30, 128);
    let dst = Rgba::new(1, 2, 3, 0);
    assert_eq!(src.alpha_blend(dst), src);
}

#[test]
fn blend_opaque_over_opaque_is_source() {
    let src = Rgba::new(255, 0, 0, 255);
    let dst = Rgba::new(0, 0, 255, 255);
    assert_eq!(src.alpha_blend(dst), src);
}

#[test]
fn blend_half_red_over_opaque_blue() {
    let src = Rgba::new(255, 0, 0, 128);
    let dst = Rgba::new(0, 0, 255, 255);
    assert_eq!(src.alpha_blend(dst), Rgba::new(128, 0, 127, 255));
}

#[test]
fn blend_transparent_source_keeps_destination() {
    let src = Rgba::new(9, 9, 9, 0);
    let dst = Rgba::new(10, 200, 30, 77);
    assert_eq!(src.alpha_blend(dst), dst);
}

#[test]
fn blend_two_half_transparent_colors() {
    // coverage: 255*100 + 50*(255-100) = 33250, alpha 33250 / 255 = 130
    // red: 200*100 + 0 = 20000 -> 20000 * 65025 / 33250 / 255 = 153
    // green: 0 + (40*50 - 40*50*100*255/65025) = 2000 - 784 = 1216 -> 9
    let src = Rgba::new(200, 0, 0, 100);
    let dst = Rgba::new(0, 40, 0, 50);
    assert_eq!(src.alpha_blend(dst), Rgba::new(153, 9, 0, 130));
}

#[test]
fn blend_black_and_transparent_fixed_points() {
    let black = Rgba::new(0, 0, 0, 255);
    assert_eq!(black, black.alpha_blend(black));
    let transparent = Rgba::new(0, 0, 0, 0);
    assert_eq!(transparent, transparent.alpha_blend(transparent));
}
