use raytracer::color::{BlendMode, RGBValue};
use raytracer::raster::{draw_line, draw_pixel, draw_span, Canvas, Circle, Pos2, Quad, Square, Triangle};
use raytracer::texture::checker_is_even;

fn canvas(w: usize, h: usize) -> Canvas<u8> {
    Canvas { width: w, height: h, default_color: 0 }
}

/// The pixels holding a non-zero value, as (x, y) pairs in buffer order.
fn lit(buf: &[u8], w: usize) -> Vec<(usize, usize)> {
    buf.iter()
        .enumerate()
        .filter(|(_, v)| **v != 0)
        .map(|(k, _)| (k % w, k / w))
        .collect()
}

fn add(a: u8, b: u8) -> u8 {
    a.wrapping_add(b)
}

#[test]
fn pos2_accessors() {
    let p = Pos2::new(3, -4);
    assert_eq!(p.x(), 3);
    assert_eq!(p.y(), -4);
    assert_eq!(p.e, [3, -4]);
}

#[test]
fn rgb_value_and_blend_mode() {
    let c = RGBValue { r: 1, g: 2, b: 3 };
    assert_eq!((c.r, c.g, c.b), (1, 2, 3));
    assert_ne!(BlendMode::Overwrite, BlendMode::Add);
}

#[test]
fn line_shallow() {
    let c = canvas(4, 3);
    let mut buf = vec![0u8; 12];
    draw_line(&mut buf, &c, 0, 0, 3, 1, &7);
    assert_eq!(lit(&buf, 4), vec![(0, 0), (1, 0), (2, 1), (3, 1)]);
    assert_eq!(buf[6], 7);
}

#[test]
fn line_reversed_is_the_same() {
    let c = canvas(4, 3);
    let mut a = vec![0u8; 12];
    let mut b = vec![0u8; 12];
    draw_line(&mut a, &c, 0, 0, 3, 1, &1);
    draw_line(&mut b, &c, 3, 1, 0, 0, &1);
    assert_eq!(a, b);
    let mut a = vec![0u8; 20];
    let mut b = vec![0u8; 20];
    let c = canvas(4, 5);
    draw_line(&mut a, &c, 1, 0, 2, 4, &1);
    draw_line(&mut b, &c, 2, 4, 1, 0, &1);
    assert_eq!(a, b);
}

#[test]
fn line_steep() {
    let c = canvas(4, 5);
    let mut buf = vec![0u8; 20];
    draw_line(&mut buf, &c, 1, 0, 2, 4, &1);
    assert_eq!(lit(&buf, 4), vec![(1, 0), (1, 1), (2, 2), (2, 3), (2, 4)]);
}

#[test]
fn line_diagonal_and_falling() {
    let c = canvas(4, 3);
    let mut buf = vec![0u8; 12];
    draw_line(&mut buf, &c, 0, 0, 2, 2, &1);
    assert_eq!(lit(&buf, 4), vec![(0, 0), (1, 1), (2, 2)]);
    let mut buf = vec![0u8; 12];
    draw_line(&mut buf, &c, 0, 2, 3, 0, &1);
    assert_eq!(lit(&buf, 4), vec![(3, 0), (1, 1), (2, 1), (0, 2)]);
}

#[test]
fn line_with_equal_endpoints_draws_nothing() {
    let c = canvas(4, 3);
    let mut buf = vec![0u8; 12];
    draw_line(&mut buf, &c, 2, 2, 2, 2, &1);
    assert!(lit(&buf, 4).is_empty());
}

#[test]
fn line_is_clipped_to_the_canvas() {
    let c = canvas(4, 3);
    let mut buf = vec![0u8; 12];
    draw_line(&mut buf, &c, -2, 0, 1, 0, &1);
    assert_eq!(lit(&buf, 4), vec![(0, 0), (1, 0)]);
    let mut empty: Vec<u8> = Vec::new();
    draw_line(&mut empty, &c, 0, 0, 3, 2, &1);
    assert!(empty.is_empty());
}

#[test]
fn pixel_blend_modes() {
    let c = canvas(3, 2);
    let mut buf = vec![5u8; 6];
    draw_pixel(&mut buf, &c, 1, 1, 9, BlendMode::Overwrite, &add);
    assert_eq!(buf[4], 9);
    draw_pixel(&mut buf, &c, 2, 0, 3, BlendMode::Add, &add);
    assert_eq!(buf[2], 8);
    draw_pixel(&mut buf, &c, 0, 0, 3, BlendMode::Multiply, &add);
    draw_pixel(&mut buf, &c, 0, 0, 3, BlendMode::Subtract, &add);
    draw_pixel(&mut buf, &c, 0, 0, 3, BlendMode::AlphaBlend, &add);
    assert_eq!(buf[0], 5);
    draw_pixel(&mut buf, &c, 3, 0, 1, BlendMode::Overwrite, &add);
    draw_pixel(&mut buf, &c, -1, 0, 1, BlendMode::Overwrite, &add);
    draw_pixel(&mut buf, &c, 0, 2, 1, BlendMode::Overwrite, &add);
    assert_eq!(buf, vec![5, 5, 8, 5, 9, 5]);
}

#[test]
fn circle_fill_adds_its_color() {
    let c = canvas(5, 5);
    let mut buf = vec![0u8; 25];
    let circle = Circle { radius: 2, center: (2, 2), color: 1u8 };
    circle.draw_fill(&c, &mut buf, &add);
    assert_eq!(
        lit(&buf, 5),
        vec![(2, 0), (1, 1), (2, 1), (3, 1), (0, 2), (1, 2), (2, 2), (3, 2), (1, 3), (2, 3), (3, 3)]
    );
    circle.draw_fill(&c, &mut buf, &add);
    assert_eq!(buf[12], 2);
    circle.draw(&c, &mut buf);
    assert_eq!(buf[12], 2);
}

#[test]
fn circle_of_radius_zero_draws_nothing() {
    let c = canvas(5, 5);
    let mut buf = vec![0u8; 25];
    let circle = Circle { radius: 0, center: (2, 2), color: 1u8 };
    circle.draw_fill(&c, &mut buf, &add);
    assert!(lit(&buf, 5).is_empty());
}

#[test]
fn triangle_vertices_sorted_stably() {
    let t = Triangle { vertices: [(5, 3), (1, 1), (2, 3)], color: 0u8 };
    assert_eq!(t.vertices_sorted_by_y(), [(1, 1), (5, 3), (2, 3)]);
    let t = Triangle { vertices: [(9, 0), (8, 0), (7, 0)], color: 0u8 };
    assert_eq!(t.vertices_sorted_by_y(), [(9, 0), (8, 0), (7, 0)]);
    let t = Triangle { vertices: [(0, 9), (0, 5), (0, 1)], color: 0u8 };
    assert_eq!(t.vertices_sorted_by_y(), [(0, 1), (0, 5), (0, 9)]);
}

#[test]
fn quad_splits_into_two_triangles() {
    let q = Quad {
        vertices: [Pos2::new(15, 15), Pos2::new(75, 20), Pos2::new(80, 165), Pos2::new(11, 145)],
        color: 4u8,
    };
    let (a, b) = q.triangles();
    assert_eq!(a.vertices, [(15, 15), (75, 20), (80, 165)]);
    assert_eq!(b.vertices, [(80, 165), (11, 145), (15, 15)]);
    assert_eq!((a.color, b.color), (4, 4));
}

#[test]
fn square_corners() {
    let s = Square { center: Pos2::new(200, 200), side_length: 50, color: 1u8 };
    let q = s.quad();
    let corners: Vec<[i32; 2]> = q.vertices.iter().map(|p| p.e).collect();
    assert_eq!(corners, vec![[175, 175], [225, 175], [225, 225], [175, 225]]);
    let s = Square { center: Pos2::new(10, 10), side_length: 5, color: 1u8 };
    let corners: Vec<[i32; 2]> = s.quad().vertices.iter().map(|p| p.e).collect();
    assert_eq!(corners, vec![[8, 8], [12, 8], [12, 12], [8, 12]]);
    let s = Square { center: Pos2::new(10, 10), side_length: -3, color: 1u8 };
    let corners: Vec<[i32; 2]> = s.quad().vertices.iter().map(|p| p.e).collect();
    assert_eq!(corners, vec![[11, 11], [9, 11], [9, 9], [11, 9]]);
}

#[test]
fn checker_parity() {
    assert!(checker_is_even(0, 0, 0));
    assert!(!checker_is_even(1, 0, 0));
    assert!(checker_is_even(-1, 1, 2));
    assert!(!checker_is_even(-1, 0, 0));
    assert!(!checker_is_even(-3, -2, 0));
}

#[test]
fn span_fills_a_row_in_either_order() {
    let c = canvas(5, 3);
    let mut a = vec![0u8; 15];
    draw_span(&mut a, &c, 1, 3, 0, 2);
    assert_eq!(lit(&a, 5), vec![(0, 1), (1, 1), (2, 1), (3, 1)]);
    let mut b = vec![0u8; 15];
    draw_span(&mut b, &c, 1, 0, 3, 2);
    assert_eq!(a, b);
    let mut d = vec![0u8; 15];
    draw_span(&mut d, &c, 2, -4, 1, 1);
    draw_span(&mut d, &c, 3, 0, 4, 1);
    assert_eq!(lit(&d, 5), vec![(0, 2), (1, 2)]);
    let mut e = vec![0u8; 15];
    draw_span(&mut e, &c, 0, 2, 2, 9);
    assert_eq!(lit(&e, 5), vec![(2, 0)]);
}

#[test]
fn line_drawn_twice_equals_once() {
    let c = canvas(6, 6);
    let mut once = vec![0u8; 36];
    draw_line(&mut once, &c, 5, 1, 0, 4, &3);
    let mut twice = once.clone();
    draw_line(&mut twice, &c, 5, 1, 0, 4, &3);
    assert_eq!(once, twice);
    assert_eq!(lit(&once, 6).len(), 6);
}
