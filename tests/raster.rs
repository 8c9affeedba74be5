use cube_render::mesh::Hue;
use cube_render::raster::{draw_line, fill_face, point_in_quad, Fragment};

fn cells(frags: &[Fragment]) -> Vec<(i32, i32)> {
    frags.iter().map(|f| (f.x, f.y)).collect()
}

#[test]
fn horizontal_line_has_six_cells() {
    let mut out = Vec::new();
    draw_line(0, 0, 5, 0, &mut out, 7, Hue::White);
    assert_eq!(out.len(), 6);
    assert!(out.iter().all(|f| f.y == 0 && f.x >= 0 && f.x <= 5));
    assert_eq!(cells(&out), vec![(0, 0), (1, 0), (2, 0), (3, 0), (4, 0), (5, 0)]);
    assert!(out.iter().all(|f| f.glyph == '#' && f.depth == 7 && f.hue == Hue::White));
}

#[test]
fn single_point_line_has_one_cell() {
    let mut out = Vec::new();
    draw_line(0, 0, 0, 0, &mut out, 1, Hue::White);
    assert_eq!(cells(&out), vec![(0, 0)]);
}

#[test]
fn diagonal_line() {
    let mut out = Vec::new();
    draw_line(0, 0, 3, 3, &mut out, 1, Hue::White);
    assert_eq!(cells(&out), vec![(0, 0), (1, 1), (2, 2), (3, 3)]);
}

#[test]
fn steep_line_ends_at_endpoint() {
    let mut out = Vec::new();
    draw_line(0, 0, 2, 5, &mut out, 1, Hue::White);
    assert_eq!(out.len(), 6);
    assert_eq!(cells(&out)[0], (0, 0));
    assert_eq!(cells(&out)[5], (2, 5));
    for w in cells(&out).windows(2) {
        assert!((w[1].0 - w[0].0).abs() <= 1 && w[1].1 - w[0].1 == 1);
    }
}

#[test]
fn backward_line_ends_at_endpoint() {
    let mut out = Vec::new();
    draw_line(5, 2, 0, 0, &mut out, 1, Hue::White);
    assert_eq!(out.len(), 6);
    assert_eq!(*cells(&out).last().unwrap(), (0, 0));
}

#[test]
fn line_appends_after_existing_fragments() {
    let first = Fragment { x: 9, y: 9, depth: 0, glyph: 'x', hue: Hue::Red };
    let mut out = vec![first];
    draw_line(1, 1, 2, 1, &mut out, 3, Hue::White);
    assert_eq!(out[0], first);
    assert_eq!(cells(&out[1..]), vec![(1, 1), (2, 1)]);
}

#[test]
fn interior_point_inside_either_winding() {
    let ccw = vec![(0, 0), (4, 0), (4, 4), (0, 4)];
    let cw: Vec<(i32, i32)> = ccw.iter().rev().cloned().collect();
    assert!(point_in_quad(2, 2, &ccw));
    assert!(point_in_quad(2, 2, &cw));
    assert!(point_in_quad(0, 0, &ccw));
    assert!(!point_in_quad(5, 2, &ccw));
    assert!(!point_in_quad(5, 2, &cw));
}

#[test]
fn too_few_vertices_contain_nothing() {
    assert!(!point_in_quad(0, 0, &vec![(0, 0), (1, 1)]));
    assert!(!point_in_quad(0, 0, &vec![]));
}

#[test]
fn fill_square_covers_its_box() {
    let mut out = Vec::new();
    fill_face(&vec![(0, 0), (2, 0), (2, 2), (0, 2)], 5, '@', Hue::Red, &mut out);
    assert_eq!(out.len(), 9);
    assert_eq!(cells(&out)[0], (0, 0));
    assert_eq!(cells(&out)[3], (0, 1));
    assert!(out.iter().all(|f| f.glyph == '@' && f.depth == 5 && f.hue == Hue::Red));
}

#[test]
fn fill_triangle_keeps_inside_cells() {
    let mut out = Vec::new();
    fill_face(&vec![(0, 0), (2, 0), (0, 2)], 5, '+', Hue::Blue, &mut out);
    assert_eq!(cells(&out), vec![(0, 0), (1, 0), (2, 0), (0, 1), (1, 1), (0, 2)]);
}

#[test]
fn fill_with_two_corners_is_skipped() {
    let mut out = Vec::new();
    fill_face(&vec![(0, 0), (3, 3)], 5, '@', Hue::Red, &mut out);
    assert!(out.is_empty());
}

#[test]
fn tilted_quad_inside_either_winding() {
    let diamond = vec![(5, 0), (10, 5), (5, 10), (0, 5)];
    let reversed: Vec<(i32, i32)> = diamond.iter().rev().cloned().collect();
    for &(x, y) in &[(5, 5), (3, 5), (5, 8), (7, 4)] {
        assert!(point_in_quad(x, y, &diamond));
        assert!(point_in_quad(x, y, &reversed));
    }
    for &(x, y) in &[(0, 0), (10, 10), (9, 1)] {
        assert!(!point_in_quad(x, y, &diamond));
        assert!(!point_in_quad(x, y, &reversed));
    }
}

#[test]
fn line_length_is_longer_extent_plus_one() {
    for &(x1, y1) in &[(7, 3), (-4, 9), (-6, -6), (2, -11), (0, 5)] {
        let mut out = Vec::new();
        draw_line(0, 0, x1, y1, &mut out, 1, Hue::White);
        let want = (x1 as i32).abs().max((y1 as i32).abs()) as usize + 1;
        assert_eq!(out.len(), want);
        assert_eq!(*cells(&out).last().unwrap(), (x1, y1));
    }
}
