use pixel_canvas::canvas::{Canvas, Draw};
use pixel_canvas::color::{RGB, RGBA};

const BLACK: RGB = RGB { r: 0, g: 0, b: 0 };

#[test]
fn new_canvas_is_black() {
    let c = Canvas::new(4, 4);
    assert_eq!(c.width(), 4);
    assert_eq!(c.height(), 4);
    assert_eq!(c.buffer().len(), 16);
    assert!(c.buffer().iter().all(|p| *p == BLACK));
}

#[test]
fn set_then_get_returns_the_color() {
    let mut c = Canvas::new(3, 2);
    let red = RGB { r: 255, g: 0, b: 0 };
    for y in 0..2 {
        for x in 0..3 {
            let col = RGB { r: x as u8, g: y as u8, b: 7 };
            assert_eq!(c.set(x, y, col), Some(()));
            assert_eq!(c.get(x, y), Some(&col));
        }
    }
    assert_eq!(c.set(2, 1, red), Some(()));
    assert_eq!(c.get(2, 1), Some(&red));
    assert_eq!(c.buffer()[1 * 3 + 2], red);
}

#[test]
fn out_of_bounds_get_and_set_are_absent() {
    let mut c = Canvas::new(3, 2);
    let before = c.buffer().clone();
    assert_eq!(c.get(3, 0), None);
    assert_eq!(c.get(0, 2), None);
    // inside the buffer's length, but outside the row
    assert_eq!(c.get(4, 0), None);
    assert_eq!(c.set(3, 0, RGB { r: 1, g: 1, b: 1 }), None);
    assert_eq!(c.set(0, 5, RGB { r: 1, g: 1, b: 1 }), None);
    assert_eq!(c.buffer(), &before);
}

#[test]
fn pixel_inside_checks_both_axes() {
    let c = Canvas::new(5, 3);
    assert!(c.pixel_inside(0, 0));
    assert!(c.pixel_inside(4, 2));
    assert!(!c.pixel_inside(-1, 0));
    assert!(!c.pixel_inside(0, -1));
    assert!(!c.pixel_inside(5, 0));
    assert!(!c.pixel_inside(0, 3));
}

#[test]
fn fill_overwrites_every_pixel() {
    let mut c = Canvas::new(3, 3);
    let col = RGB { r: 4, g: 5, b: 6 };
    c.fill(col);
    assert_eq!(c.buffer().len(), 9);
    assert!(c.buffer().iter().all(|p| *p == col));
}

#[test]
fn buffer_u32_packs_rgb() {
    let mut c = Canvas::new(2, 2);
    c.set(1, 0, RGB { r: 1, g: 2, b: 3 });
    c.set(0, 1, RGB { r: 255, g: 255, b: 255 });
    c.set(1, 1, RGB { r: 0xAB, g: 0, b: 0xCD });
    assert_eq!(c.buffer_u32(), vec![0, 0x010203, 0xFFFFFF, 0xAB00CD]);
    for y in 0..2 {
        for x in 0..2 {
            let p = *c.get(x, y).unwrap();
            let w = (p.r as u32) << 16 | (p.g as u32) << 8 | p.b as u32;
            assert_eq!(c.buffer_u32()[y * 2 + x], w);
        }
    }
}

#[test]
fn buffer_mut_writes_through() {
    let mut c = Canvas::new(2, 1);
    c.buffer_mut()[1] = RGB { r: 9, g: 9, b: 9 };
    assert_eq!(c.get(1, 0), Some(&RGB { r: 9, g: 9, b: 9 }));
}

#[test]
fn draw_pixel_opaque_sets_the_color() {
    let mut c = Canvas::new(5, 5);
    assert_eq!(c.draw_pixel(2, 2, RGBA::new(255, 0, 0, 255)), Some(()));
    assert_eq!(c.get(2, 2), Some(&RGB { r: 255, g: 0, b: 0 }));
}

#[test]
fn draw_pixel_outside_is_absent() {
    let mut c = Canvas::new(5, 5);
    let before = c.buffer().clone();
    assert_eq!(c.draw_pixel(-1, 0, RGBA::new(255, 0, 0, 255)), None);
    assert_eq!(c.draw_pixel(0, 5, RGBA::new(255, 0, 0, 255)), None);
    assert_eq!(c.buffer(), &before);
}

#[test]
fn draw_pixel_opaque_ignores_prior_contents() {
    let mut c = Canvas::new(3, 3);
    c.set(1, 1, RGB { r: 10, g: 220, b: 30 });
    c.draw_pixel(1, 1, RGBA::new(1, 2, 3, 255));
    assert_eq!(c.get(1, 1), Some(&RGB { r: 1, g: 2, b: 3 }));
}

#[test]
fn draw_pixel_transparent_changes_nothing() {
    let mut c = Canvas::new(3, 3);
    c.set(1, 1, RGB { r: 10, g: 220, b: 30 });
    let before = c.buffer().clone();
    assert_eq!(c.draw_pixel(1, 1, RGBA::new(255, 255, 255, 0)), Some(()));
    assert_eq!(c.buffer(), &before);
}

#[test]
fn draw_pixel_blends_and_accumulates() {
    let mut c = Canvas::new(1, 1);
    c.draw_pixel(0, 0, RGBA::new(255, 255, 255, 128));
    assert_eq!(c.get(0, 0), Some(&RGB { r: 128, g: 128, b: 128 }));
    // (127 * 128 + 128 * 255) / 255 = 191.74..., truncated
    c.draw_pixel(0, 0, RGBA::new(255, 255, 255, 128));
    assert_eq!(c.get(0, 0), Some(&RGB { r: 191, g: 191, b: 191 }));
}

struct Dot {
    x: isize,
    y: isize,
}

impl Draw for Dot {
    fn draw(&self, canvas: &mut Canvas) {
        canvas.draw_pixel(self.x, self.y, RGBA::new(0, 0, 255, 255));
    }
}

#[test]
fn draw_dispatches_to_the_shape() {
    let mut c = Canvas::new(3, 3);
    c.draw(Dot { x: 2, y: 1 });
    assert_eq!(c.get(2, 1), Some(&RGB { r: 0, g: 0, b: 255 }));
    assert_eq!(c.get(1, 1), Some(&BLACK));
}
