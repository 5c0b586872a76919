use pixel_canvas::color::{RGB, RGBA};

#[test]
fn new_and_grey_build_the_channels() {
    assert_eq!(RGBA::new(1, 2, 3, 4), RGBA { r: 1, g: 2, b: 3, a: 4 });
    assert_eq!(RGBA::grey(77), RGBA { r: 77, g: 77, b: 77, a: 255 });
}

#[test]
fn to_rgb_splits_off_alpha() {
    let (c, a) = RGBA::new(10, 20, 30, 40).to_rgb();
    assert_eq!(c, RGB { r: 10, g: 20, b: 30 });
    assert_eq!(a, 40);
}

#[test]
fn opaque_paint_replaces_the_base() {
    let base = RGB { r: 9, g: 200, b: 77 };
    assert_eq!(base.add_rgba(RGBA::new(1, 2, 3, 255)), RGB { r: 1, g: 2, b: 3 });
}

#[test]
fn transparent_paint_keeps_the_base() {
    let base = RGB { r: 9, g: 200, b: 77 };
    assert_eq!(base.add_rgba(RGBA::new(255, 0, 255, 0)), base);
}

#[test]
fn half_paint_truncates_each_channel() {
    let base = RGB { r: 0, g: 0, b: 0 };
    // (127 * 0 + 128 * 255) / 255 = 128; 128 * 100 / 255 = 50.19..., truncated
    assert_eq!(base.add_rgba(RGBA::new(255, 0, 100, 128)), RGB { r: 128, g: 0, b: 50 });
    let grey = RGB { r: 200, g: 200, b: 200 };
    // 204 * 200 / 255 = 160 exactly
    assert_eq!(grey.add_rgba(RGBA::new(0, 0, 0, 51)), RGB { r: 160, g: 160, b: 160 });
}

#[test]
fn lerp_moves_by_the_given_fraction() {
    let a = RGB { r: 0, g: 100, b: 255 };
    let b = RGB { r: 255, g: 0, b: 255 };
    assert_eq!(a.lerp(&b, 0, 4), a);
    assert_eq!(a.lerp(&b, 4, 4), b);
    // r: 255 / 4 = 63.75 -> 63; g: 3 * 100 / 4 = 75
    assert_eq!(a.lerp(&b, 1, 4), RGB { r: 63, g: 75, b: 255 });
}
