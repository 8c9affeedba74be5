use cube_render::encode::Palette;
use cube_render::frame::{paint_order, render_frame, usable_area, EdgePlan, FacePlan};
use cube_render::mesh::{cube_edges, cube_faces, shade_glyph, Hue};

fn test_palette() -> Palette {
    let names = ["<k>", "<r>", "<g>", "<b>", "<y>", "<m>", "<c>", "<w>"];
    Palette { colors: names.iter().map(|s| s.to_string()).collect(), reset: "<0>".to_string() }
}

#[test]
fn paint_order_is_farthest_first_and_stable() {
    assert_eq!(paint_order(&vec![5, 9, 5, 1]), vec![1, 0, 2, 3]);
    assert_eq!(paint_order(&vec![]), Vec::<usize>::new());
    assert_eq!(paint_order(&vec![3, 3, 3]), vec![0, 1, 2]);
}

#[test]
fn shade_ramp_is_clamped() {
    assert_eq!(shade_glyph(0), ' ');
    assert_eq!(shade_glyph(3), '-');
    assert_eq!(shade_glyph(7), '@');
    assert_eq!(shade_glyph(100), '@');
}

#[test]
fn usable_area_below_and_right_of_cursor() {
    assert_eq!(usable_area(80, 24, 0, 0), (80, 23));
    assert_eq!(usable_area(80, 24, 10, 5), (70, 18));
    assert_eq!(usable_area(80, 24, 80, 23), (0, 0));
    assert_eq!(usable_area(80, 24, 90, 30), (0, 0));
}

#[test]
fn cube_topology() {
    let edges = cube_edges();
    let faces = cube_faces();
    assert_eq!(edges.len(), 12);
    assert_eq!(faces.len(), 6);
    assert!(edges.iter().all(|&(a, b)| a < 8 && b < 8 && a != b));
    assert!(faces.iter().all(|(ix, _)| ix.iter().all(|&i| i < 8)));
    assert_eq!(faces[0].1, Hue::Red);
    assert_eq!(faces[5].1, Hue::Cyan);
}

// The unrotated cube seen from distance 5 with scale 40 on an 80 by 40 grid:
// the near square (depth 4) spans columns 20..=60 and rows 10..=30, the far
// square (depth 6) columns 26..=53 and rows 13..=26. Depth keys are ten times
// the depth; centre keys order the faces by their model-space depth.
#[test]
fn unrotated_cube_shows_one_outlined_face() {
    let screen = [(20, 30), (60, 30), (60, 10), (20, 10), (26, 26), (53, 26), (53, 13), (26, 13)];
    let depth = [40u32, 40, 40, 40, 60, 60, 60, 60];
    let centers = [0u32, 2, 1, 1, 1, 1];
    let levels = [7usize, 7, 0, 0, 0, 0];
    let mut faces = Vec::new();
    for (k, (ix, hue)) in cube_faces().into_iter().enumerate() {
        let sum: u32 = ix.iter().map(|&i| depth[i]).sum();
        faces.push(FacePlan {
            corners: ix.iter().map(|&i| screen[i]).collect(),
            center: centers[k],
            depth: sum / 4,
            facing: true,
            level: levels[k],
            hue,
        });
    }
    let edges: Vec<EdgePlan> = cube_edges()
        .into_iter()
        .map(|(a, b)| EdgePlan { from: screen[a], to: screen[b], depth: (depth[a] + depth[b]) / 2 - 1 })
        .collect();
    let out = render_frame(80, 40, &faces, &edges, &test_palette());
    let glyphs: Vec<char> = out.replace("<w>", "").replace("<r>", "").replace("<0>", "").chars().collect();
    assert_eq!(glyphs.len(), 80 * 40);
    assert_eq!(glyphs.iter().filter(|&&c| c == '#').count(), 120);
    assert_eq!(glyphs.iter().filter(|&&c| c == '@').count(), 741);
    for y in 0..40 {
        for x in 0..80 {
            let c = glyphs[y * 80 + x];
            let on_rim = (10..=30).contains(&y) && (20..=60).contains(&x) && (y == 10 || y == 30 || x == 20 || x == 60);
            let within = (11..30).contains(&y) && (21..60).contains(&x);
            let want = if on_rim { '#' } else if within { '@' } else { ' ' };
            assert_eq!(c, want, "cell ({}, {})", x, y);
        }
    }
    assert!(!out.contains("<g>"));
}

#[test]
fn faces_turned_away_are_not_filled() {
    let faces = vec![FacePlan { corners: vec![(0, 0), (3, 0), (3, 3), (0, 3)], center: 0, depth: 5, facing: false, level: 7, hue: Hue::Red }];
    let out = render_frame(5, 5, &faces, &vec![], &test_palette());
    assert_eq!(out, " ".repeat(25));
}
