//! The fixed cube topology: its edges, its faces and their colours, and the
//! glyph ramp used for flat shading.

use vstd::prelude::*;

verus! {

/// A colour that a glyph can be drawn in.
#[derive(Clone, Copy, Debug, PartialEq, Eq, Structural)]
pub enum Hue {
    Black,
    Red,
    Green,
    Blue,
    Yellow,
    Magenta,
    Cyan,
    White,
}

/// Number of vertices of the cube.
pub const VERTEX_COUNT: usize = 8;

/// Number of levels in the shading ramp.
pub const SHADE_LEVELS: usize = 8;

/// The glyph ramp, from blank to dense.
pub open spec fn shade_ramp() -> Seq<char> {
    seq![' ', '.', ':', '-', '=', '+', '#', '@']
}

/// The glyph for shading `level`, clamped to the densest glyph.
pub open spec fn shade_of(level: int) -> char {
    if level < 7 { shade_ramp()[level] } else { '@' }
}

/// Picks the ramp glyph for an intensity level; levels past the ramp's end
/// give its densest glyph.
pub fn shade_glyph(level: usize) -> (c: char)
    ensures
        c == shade_of(level as int),
{
    let ramp: [char; 8] = [' ', '.', ':', '-', '=', '+', '#', '@'];
    let i: usize = if level < SHADE_LEVELS { level } else { SHADE_LEVELS - 1 };
    let c = ramp[i];
    assert(ramp@ == shade_ramp());
    c
}

/// The twelve edges as pairs of vertex indices.
pub open spec fn edge_table() -> Seq<(usize, usize)> {
    seq![
        (0, 1), (1, 2), (2, 3), (3, 0),
        (4, 5), (5, 6), (6, 7), (7, 4),
        (0, 4), (1, 5), (2, 6), (3, 7),
    ]
}

/// The six faces: four vertex indices in winding order, and a colour.
pub open spec fn face_table() -> Seq<([usize; 4], Hue)> {
    seq![
        ([0, 1, 2, 3], Hue::Red),
        ([4, 5, 6, 7], Hue::Green),
        ([0, 4, 7, 3], Hue::Blue),
        ([1, 5, 6, 2], Hue::Yellow),
        ([3, 2, 6, 7], Hue::Magenta),
        ([0, 1, 5, 4], Hue::Cyan),
    ]
}

/// The cube's edges; every index names one of its eight vertices.
pub fn cube_edges() -> (r: Vec<(usize, usize)>)
    ensures
        r@ == edge_table(),
        r@.len() == 12,
        forall|i: int| 0 <= i < r@.len() ==> r@[i].0 < VERTEX_COUNT && r@[i].1 < VERTEX_COUNT,
{
    let r = vec![
        (0, 1), (1, 2), (2, 3), (3, 0),
        (4, 5), (5, 6), (6, 7), (7, 4),
        (0, 4), (1, 5), (2, 6), (3, 7),
    ];
    assert(r@ =~= edge_table());
    r
}

/// The cube's faces; every index names one of its eight vertices.
pub fn cube_faces() -> (r: Vec<([usize; 4], Hue)>)
    ensures
        r@ == face_table(),
        r@.len() == 6,
        forall|i: int, k: int| 0 <= i < r@.len() && 0 <= k < 4 ==> r@[i].0@[k] < VERTEX_COUNT,
{
    let r = vec![
        ([0, 1, 2, 3], Hue::Red),
        ([4, 5, 6, 7], Hue::Green),
        ([0, 4, 7, 3], Hue::Blue),
        ([1, 5, 6, 2], Hue::Yellow),
        ([3, 2, 6, 7], Hue::Magenta),
        ([0, 1, 5, 4], Hue::Cyan),
    ];
    assert(r@ =~= face_table());
    r
}

} // verus!
