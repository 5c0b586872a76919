use pixel_canvas::canvas::Canvas;
use pixel_canvas::color::{RGB, RGBA};

const BLACK: RGB = RGB { r: 0, g: 0, b: 0 };

fn lit(c: &Canvas) -> Vec<(usize, usize)> {
    let mut v = Vec::new();
    for y in 0..c.height() {
        for x in 0..c.width() {
            if *c.get(x, y).unwrap() != BLACK {
                v.push((x, y));
            }
        }
    }
    v
}

fn sorted(mut v: Vec<(usize, usize)>) -> Vec<(usize, usize)> {
    v.sort_by_key(|&(x, y)| (y, x));
    v
}

#[test]
fn horizontal_line_sets_exactly_its_pixels() {
    let mut c = Canvas::new(5, 5);
    c.draw_line(0, 0, 4, 0, RGBA::new(255, 255, 255, 255));
    assert_eq!(lit(&c), vec![(0, 0), (1, 0), (2, 0), (3, 0), (4, 0)]);
    for x in 0..5 {
        assert_eq!(c.get(x, 0), Some(&RGB { r: 255, g: 255, b: 255 }));
    }
}

#[test]
fn shallow_line_rounds_to_nearest_row() {
    let mut c = Canvas::new(5, 5);
    c.draw_line(4, 2, 0, 0, RGBA::new(255, 255, 255, 255));
    assert_eq!(sorted(lit(&c)), sorted(vec![(0, 0), (1, 1), (2, 1), (3, 2), (4, 2)]));
}

#[test]
fn steep_line_walks_along_y() {
    let mut c = Canvas::new(5, 5);
    c.draw_line(1, 0, 0, 4, RGBA::new(255, 255, 255, 255));
    assert_eq!(sorted(lit(&c)), sorted(vec![(1, 0), (1, 1), (0, 2), (0, 3), (0, 4)]));
}

#[test]
fn vertical_line_paints_each_pixel_once() {
    let mut c = Canvas::new(5, 5);
    c.draw_line(2, 4, 2, 0, RGBA::new(255, 255, 255, 128));
    assert_eq!(lit(&c), vec![(2, 0), (2, 1), (2, 2), (2, 3), (2, 4)]);
    for y in 0..5 {
        assert_eq!(c.get(2, y), Some(&RGB { r: 128, g: 128, b: 128 }));
    }
}

#[test]
fn point_line_paints_one_pixel() {
    let mut c = Canvas::new(5, 5);
    c.draw_line(3, 3, 3, 3, RGBA::new(255, 255, 255, 128));
    assert_eq!(lit(&c), vec![(3, 3)]);
    assert_eq!(c.get(3, 3), Some(&RGB { r: 128, g: 128, b: 128 }));
}

#[test]
fn line_is_clipped_at_the_edges() {
    let mut c = Canvas::new(5, 5);
    c.draw_line(-2, 0, 2, 0, RGBA::new(255, 255, 255, 255));
    c.draw_line(3, 3, 9, 3, RGBA::new(255, 255, 255, 255));
    assert_eq!(lit(&c), vec![(0, 0), (1, 0), (2, 0), (3, 3), (4, 3)]);
}

#[test]
fn diagonal_line_touches_every_row_and_column() {
    let mut c = Canvas::new(9, 9);
    c.draw_line(0, 8, 8, 0, RGBA::new(255, 255, 255, 255));
    assert_eq!(lit(&c).len(), 9);
    for i in 0..9 {
        assert_eq!(c.get(i, 8 - i), Some(&RGB { r: 255, g: 255, b: 255 }));
    }
}

fn circle_offsets_r3() -> Vec<(isize, isize)> {
    vec![
        (3, 0), (-3, 0), (0, 3), (0, -3),
        (3, 1), (3, -1), (-3, 1), (-3, -1),
        (1, 3), (1, -3), (-1, 3), (-1, -3),
        (2, 2), (2, -2), (-2, 2), (-2, -2),
    ]
}

#[test]
fn circle_outline_pixels() {
    let mut c = Canvas::new(11, 11);
    c.draw_circle(5, 5, 3, RGBA::new(255, 0, 0, 255));
    let expected: Vec<(usize, usize)> = circle_offsets_r3()
        .into_iter()
        .map(|(dx, dy)| ((5 + dx) as usize, (5 + dy) as usize))
        .collect();
    assert_eq!(sorted(lit(&c)), sorted(expected));
}

#[test]
fn circle_outline_is_symmetric_off_diagonal_center() {
    let mut c = Canvas::new(20, 12);
    let (cx, cy) = (12isize, 5isize);
    c.draw_circle(cx, cy, 4, RGBA::new(255, 0, 0, 255));
    let px = lit(&c);
    assert!(!px.is_empty());
    for &(x, y) in &px {
        let (dx, dy) = (x as isize - cx, y as isize - cy);
        for (ex, ey) in [
            (dx, dy), (-dx, dy), (dx, -dy), (-dx, -dy),
            (dy, dx), (-dy, dx), (dy, -dx), (-dy, -dx),
        ] {
            let p = ((cx + ex) as usize, (cy + ey) as usize);
            assert!(px.contains(&p), "{:?} reflects to {:?}", (x, y), p);
        }
    }
}

#[test]
fn zero_radius_circle_is_its_center() {
    let mut c = Canvas::new(5, 5);
    c.draw_circle(2, 2, 0, RGBA::new(255, 0, 0, 255));
    assert_eq!(lit(&c), vec![(2, 2)]);
    let mut d = Canvas::new(5, 5);
    d.draw_circle_solid(2, 2, 0, RGBA::new(255, 0, 0, 255));
    assert_eq!(lit(&d), vec![(2, 2)]);
}

#[test]
fn solid_circle_fills_center_not_corner() {
    let mut c = Canvas::new(11, 11);
    c.draw_circle_solid(5, 5, 3, RGBA::new(0, 255, 0, 255));
    assert_eq!(c.get(5, 5), Some(&RGB { r: 0, g: 255, b: 0 }));
    assert_eq!(c.get(0, 0), Some(&BLACK));
}

#[test]
fn solid_circle_rows() {
    let mut c = Canvas::new(11, 11);
    c.draw_circle_solid(5, 5, 3, RGBA::new(0, 255, 0, 255));
    // half widths by distance from the center row: 3, 3, 2, 1
    let half = [3usize, 3, 2, 1];
    let mut expected = Vec::new();
    for y in 2..=8usize {
        let d = if y < 5 { 5 - y } else { y - 5 };
        for x in (5 - half[d])..=(5 + half[d]) {
            expected.push((x, y));
        }
    }
    assert_eq!(expected.len(), 37);
    assert_eq!(lit(&c), expected);
}

#[test]
fn solid_circle_paints_each_pixel_once() {
    let mut c = Canvas::new(11, 11);
    c.draw_circle_solid(5, 5, 3, RGBA::new(255, 255, 255, 128));
    for (x, y) in lit(&c) {
        assert_eq!(c.get(x, y), Some(&RGB { r: 128, g: 128, b: 128 }));
    }
}

#[test]
fn solid_circle_covers_outline_with_unbroken_rows() {
    for r in 0..7usize {
        let mut o = Canvas::new(20, 20);
        let mut s = Canvas::new(20, 20);
        o.draw_circle(9, 10, r, RGBA::new(255, 0, 0, 255));
        s.draw_circle_solid(9, 10, r, RGBA::new(255, 0, 0, 255));
        let filled = lit(&s);
        for p in lit(&o) {
            assert!(filled.contains(&p), "radius {} misses {:?}", r, p);
        }
        for y in 0..20 {
            let row: Vec<usize> = filled.iter().filter(|p| p.1 == y).map(|p| p.0).collect();
            if let (Some(lo), Some(hi)) = (row.first(), row.last()) {
                assert_eq!(row.len(), hi - lo + 1);
            }
        }
    }
}

#[test]
fn solid_square_fills_inside() {
    let mut c = Canvas::new(10, 10);
    c.draw_polygon_solid(vec![(2, 2), (2, 6), (6, 6), (6, 2)], true, RGBA::new(0, 0, 255, 255));
    assert_eq!(c.get(4, 4), Some(&RGB { r: 0, g: 0, b: 255 }));
    assert_eq!(c.get(0, 0), Some(&BLACK));
    let mut expected = Vec::new();
    for y in 2..=6 {
        for x in 2..6 {
            expected.push((x, y));
        }
    }
    assert_eq!(lit(&c), expected);
}

#[test]
fn solid_triangle_inside_and_outside() {
    let mut c = Canvas::new(10, 10);
    c.draw_polygon_solid(vec![(0, 0), (0, 8), (8, 8)], true, RGBA::new(0, 0, 255, 255));
    for y in 0..10usize {
        for x in 0..10usize {
            let (xi, yi) = (x as isize, y as isize);
            let inside = xi > 0 && yi < 8 && xi < yi;
            let outside = xi > yi || yi > 8;
            let on = *c.get(x, y).unwrap() != BLACK;
            if inside {
                assert!(on, "({}, {}) should be filled", x, y);
            }
            if outside {
                assert!(!on, "({}, {}) should stay black", x, y);
            }
        }
    }
}

#[test]
fn solid_polygon_of_no_vertices_is_nothing() {
    let mut c = Canvas::new(4, 4);
    c.draw_polygon_solid(vec![], true, RGBA::new(0, 0, 255, 255));
    c.draw_polygon(vec![], RGBA::new(0, 0, 255, 255));
    assert!(lit(&c).is_empty());
}

#[test]
fn solid_polygon_is_clipped() {
    let mut c = Canvas::new(4, 4);
    c.draw_polygon_solid(vec![(-3, -3), (-3, 2), (2, 2), (2, -3)], true, RGBA::new(0, 0, 255, 255));
    let mut expected = Vec::new();
    for y in 0..=2 {
        for x in 0..2 {
            expected.push((x, y));
        }
    }
    assert_eq!(lit(&c), expected);
}

#[test]
fn polygon_outline_closes_the_loop() {
    let mut c = Canvas::new(6, 6);
    c.draw_polygon(vec![(1, 1), (4, 1), (4, 4), (1, 4)], RGBA::new(255, 255, 255, 255));
    let mut expected = Vec::new();
    for y in 1..=4usize {
        for x in 1..=4usize {
            if y == 1 || y == 4 || x == 1 || x == 4 {
                expected.push((x, y));
            }
        }
    }
    assert_eq!(lit(&c), expected);
}

#[test]
fn polygon_outline_of_one_vertex_is_a_point() {
    let mut c = Canvas::new(4, 4);
    c.draw_polygon(vec![(2, 1)], RGBA::new(255, 255, 255, 255));
    assert_eq!(lit(&c), vec![(2, 1)]);
}

#[test]
fn solid_rectangle_listed_along_top() {
    let mut c = Canvas::new(10, 10);
    c.draw_polygon_solid(vec![(1, 3), (7, 3), (7, 5), (1, 5)], false, RGBA::new(0, 0, 255, 255));
    let mut expected = Vec::new();
    for y in 3..=5 {
        for x in 1..7 {
            expected.push((x, y));
        }
    }
    assert_eq!(lit(&c), expected);
}
