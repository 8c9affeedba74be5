//! Scan conversion: Bresenham lines between screen cells, and the fill of a
//! projected face by an edge-sign membership test.

use vstd::prelude::*;
use crate::mesh::Hue;

verus! {

/// One candidate write of a glyph into a screen cell, before the depth test.
/// `depth` is an ordered key: smaller is nearer the camera.
#[derive(Clone, Copy, Debug, PartialEq, Eq, Structural)]
pub struct Fragment {
    pub x: i32,
    pub y: i32,
    pub depth: u32,
    pub glyph: char,
    pub hue: Hue,
}

/// The glyph that edges are drawn with.
pub const EDGE_GLYPH: char = '#';

pub open spec fn abs(v: int) -> int {
    if v < 0 { -v } else { v }
}

/// The unit step that leads from `a` towards `b` (`-1` when they are equal).
pub open spec fn step_toward(a: int, b: int) -> int {
    if a < b { 1 } else { -1 }
}

/// The cells that the Bresenham walk visits from `(x, y)` with error term
/// `err`, towards `(x1, y1)`, taking at most `fuel` more steps. `dx` is the
/// horizontal extent, `dy` the negated vertical extent, `sx`, `sy` the steps.
pub open spec fn walk(
    x: int, y: int, err: int, x1: int, y1: int,
    dx: int, dy: int, sx: int, sy: int, fuel: nat,
) -> Seq<(int, int)>
    decreases fuel,
{
    if (x == x1 && y == y1) || fuel == 0 {
        seq![(x, y)]
    } else {
        let e2 = 2 * err;
        if e2 >= dy && x == x1 {
            seq![(x, y)]
        } else {
            let nx = if e2 >= dy { x + sx } else { x };
            let nerr = if e2 >= dy { err + dy } else { err };
            if e2 <= dx && y == y1 {
                seq![(x, y)]
            } else {
                let ny = if e2 <= dx { y + sy } else { y };
                let nerr2 = if e2 <= dx { nerr + dx } else { nerr };
                seq![(x, y)] + walk(nx, ny, nerr2, x1, y1, dx, dy, sx, sy, (fuel - 1) as nat)
            }
        }
    }
}

/// The cells of the Bresenham line from `(x0, y0)` to `(x1, y1)`, in the
/// order they are visited.
pub open spec fn line_cells(x0: int, y0: int, x1: int, y1: int) -> Seq<(int, int)> {
    let dx = abs(x1 - x0);
    let dy = -abs(y1 - y0);
    walk(x0, y0, dx + dy, x1, y1, dx, dy, step_toward(x0, x1), step_toward(y0, y1), (dx - dy) as nat)
}

/// The fragment that a line writes into cell `c`.
pub open spec fn edge_fragment(c: (int, int), depth: u32, hue: Hue) -> Fragment {
    Fragment { x: c.0 as i32, y: c.1 as i32, depth, glyph: EDGE_GLYPH, hue }
}

/// The fragments of the line from `(x0, y0)` to `(x1, y1)`.
pub open spec fn line_fragments(x0: int, y0: int, x1: int, y1: int, depth: u32, hue: Hue) -> Seq<Fragment> {
    line_cells(x0, y0, x1, y1).map_values(|c: (int, int)| edge_fragment(c, depth, hue))
}

/// The error term of the walk stays `(b + 1) * dx + (a + 1) * dy` after a
/// step of `ix` columns and `iy` rows, and stays within 66 bits.
proof fn lemma_err_step(err0: int, err: int, a0: int, b0: int, ix: int, iy: int, dx: int, dy: int)
    requires
        err0 == (b0 + 1) * dx + (a0 + 1) * dy,
        err == err0 + ix * dy + iy * dx,
        0 <= ix <= 1,
        0 <= iy <= 1,
        0 <= a0 + ix <= dx <= 0x1_0000_0000,
        0 <= b0 + iy <= -dy <= 0x1_0000_0000,
    ensures
        err == (b0 + iy + 1) * dx + (a0 + ix + 1) * dy,
        -0x4_0000_0000_0000_0000 < err < 0x4_0000_0000_0000_0000,
{
    assert(err == (b0 + iy + 1) * dx + (a0 + ix + 1) * dy) by (nonlinear_arith)
        requires
            err0 == (b0 + 1) * dx + (a0 + 1) * dy,
            err == err0 + ix * dy + iy * dx;
    assert(0 <= (b0 + iy + 1) * dx <= 0x1_0000_0001_0000_0000) by (nonlinear_arith)
        requires
            0 <= b0 + iy <= 0x1_0000_0000,
            0 <= dx <= 0x1_0000_0000;
    assert(-0x1_0000_0001_0000_0000 <= (a0 + ix + 1) * dy <= 0) by (nonlinear_arith)
        requires
            0 <= a0 + ix <= 0x1_0000_0000,
            0 <= -dy <= 0x1_0000_0000;
}

/// Appends to `out` one edge fragment for every cell of the Bresenham line
/// from `(x0, y0)` to `(x1, y1)`, both ends included.
pub fn draw_line(x0: i32, y0: i32, x1: i32, y1: i32, out: &mut Vec<Fragment>, depth: u32, hue: Hue)
    ensures
        final(out)@ == old(out)@ + line_fragments(x0 as int, y0 as int, x1 as int, y1 as int, depth, hue),
{
    let dx: i64 = if x1 >= x0 { x1 as i64 - x0 as i64 } else { x0 as i64 - x1 as i64 };
    let dy: i64 = if y1 >= y0 { y0 as i64 - y1 as i64 } else { y1 as i64 - y0 as i64 };
    let sx: i64 = if x0 < x1 { 1 } else { -1 };
    let sy: i64 = if y0 < y1 { 1 } else { -1 };
    let mut err: i128 = dx as i128 + dy as i128;
    let mut x: i64 = x0 as i64;
    let mut y: i64 = y0 as i64;
    let ghost f = |c: (int, int)| edge_fragment(c, depth, hue);
    let ghost mut fuel: nat = (dx - dy) as nat;
    proof {
        lemma_err_step(err as int, err as int, 0, 0, 0, 0, dx as int, dy as int);
    }
    loop
        invariant_except_break
            dx == abs(x1 - x0),
            dy == -abs(y1 - y0),
            sx == step_toward(x0 as int, x1 as int),
            sy == step_toward(y0 as int, y1 as int),
            if sx == 1 { x0 <= x <= x1 } else { x1 <= x <= x0 },
            if sy == 1 { y0 <= y <= y1 } else { y1 <= y <= y0 },
            err == (abs(y - y0) + 1) * dx + (abs(x - x0) + 1) * dy,
            -0x4_0000_0000_0000_0000 < err < 0x4_0000_0000_0000_0000,
            fuel >= abs(x1 - x) + abs(y1 - y),
            f == (|c: (int, int)| edge_fragment(c, depth, hue)),
            old(out)@ + line_fragments(x0 as int, y0 as int, x1 as int, y1 as int, depth, hue)
                == out@ + walk(x as int, y as int, err as int, x1 as int, y1 as int,
                    dx as int, dy as int, sx as int, sy as int, fuel).map_values(f),
        ensures
            out@ == old(out)@ + line_fragments(x0 as int, y0 as int, x1 as int, y1 as int, depth, hue),
        decreases fuel,
    {
        let ghost rest = walk(x as int, y as int, err as int, x1 as int, y1 as int,
            dx as int, dy as int, sx as int, sy as int, fuel);
        let ghost pre = out@;
        let ghost err0 = err as int;
        let ghost a0 = abs(x - x0);
        let ghost b0 = abs(y - y0);
        let ghost mut ix: int = 0;
        let ghost mut iy: int = 0;
        out.push(Fragment { x: x as i32, y: y as i32, depth, glyph: EDGE_GLYPH, hue });
        assert(rest.map_values(f) =~= seq![f((x as int, y as int))] + rest.drop_first().map_values(f));
        if x == x1 as i64 && y == y1 as i64 {
            assert(out@ =~= pre + rest.map_values(f));
            break;
        }
        let e2: i128 = 2 * err;
        if e2 >= dy as i128 {
            if x == x1 as i64 {
                assert(out@ =~= pre + rest.map_values(f));
                break;
            }
            err = err + dy as i128;
            x = x + sx;
            proof { ix = 1; }
        }
        if e2 <= dx as i128 {
            if y == y1 as i64 {
                assert(out@ =~= pre + rest.map_values(f));
                break;
            }
            err = err + dx as i128;
            y = y + sy;
            proof { iy = 1; }
        }
        proof {
            assert(abs(x - x0) == a0 + ix);
            assert(abs(y - y0) == b0 + iy);
            lemma_err_step(err0, err as int, a0, b0, ix, iy, dx as int, dy as int);
            assert(out@ + rest.drop_first().map_values(f) =~= pre + rest.map_values(f));
            fuel = (fuel - 1) as nat;
        }
    }
}

/// Two cells touch, by a side or a corner (or are the same cell).
pub open spec fn touching(c: (int, int), d: (int, int)) -> bool {
    abs(d.0 - c.0) <= 1 && abs(d.1 - c.1) <= 1
}

/// The step from cell `c` to cell `d` moves each coordinate by nothing or by
/// one towards the line's far end (`sx`, `sy`), and moves at least one.
pub open spec fn advances(c: (int, int), d: (int, int), sx: int, sy: int) -> bool {
    &&& (d.0 == c.0 || d.0 == c.0 + sx)
    &&& (d.1 == c.1 || d.1 == c.1 + sy)
    &&& d != c
}

/// Cell `c` lies in the box spanned by `(x0, y0)` and `(x1, y1)`.
pub open spec fn in_span(c: (int, int), x0: int, y0: int, x1: int, y1: int) -> bool {
    &&& (if x0 <= x1 { x0 <= c.0 <= x1 } else { x1 <= c.0 <= x0 })
    &&& (if y0 <= y1 { y0 <= c.1 <= y1 } else { y1 <= c.1 <= y0 })
}

/// A walk from a state that the line reaches ends exactly at `(x1, y1)`,
/// moves to a touching cell at every step, and advances one column (when
/// the line is wider than tall) or one row (otherwise) at every step.
proof fn lemma_walk_shape(
    x: int, y: int, err: int, x0: int, y0: int, x1: int, y1: int,
    dx: int, dy: int, sx: int, sy: int, fuel: nat,
)
    requires
        i32::MIN <= x0 <= i32::MAX,
        i32::MIN <= y0 <= i32::MAX,
        i32::MIN <= x1 <= i32::MAX,
        i32::MIN <= y1 <= i32::MAX,
        dx == abs(x1 - x0),
        dy == -abs(y1 - y0),
        sx == step_toward(x0, x1),
        sy == step_toward(y0, y1),
        if sx == 1 { x0 <= x <= x1 } else { x1 <= x <= x0 },
        if sy == 1 { y0 <= y <= y1 } else { y1 <= y <= y0 },
        err == (abs(y - y0) + 1) * dx + (abs(x - x0) + 1) * dy,
        fuel >= abs(x1 - x) + abs(y1 - y),
    ensures
        walk(x, y, err, x1, y1, dx, dy, sx, sy, fuel).len() >= 1,
        walk(x, y, err, x1, y1, dx, dy, sx, sy, fuel)[0] == (x, y),
        walk(x, y, err, x1, y1, dx, dy, sx, sy, fuel).last() == (x1, y1),
        dx >= -dy && 2 * err >= dy ==>
            walk(x, y, err, x1, y1, dx, dy, sx, sy, fuel).len() == dx - abs(x - x0) + 1,
        -dy >= dx && 2 * err <= dx ==>
            walk(x, y, err, x1, y1, dx, dy, sx, sy, fuel).len() == -dy - abs(y - y0) + 1,
        forall|k: int| 0 <= k < walk(x, y, err, x1, y1, dx, dy, sx, sy, fuel).len() - 1 ==>
            touching(#[trigger] walk(x, y, err, x1, y1, dx, dy, sx, sy, fuel)[k],
                walk(x, y, err, x1, y1, dx, dy, sx, sy, fuel)[k + 1]),
        forall|k: int| 0 <= k < walk(x, y, err, x1, y1, dx, dy, sx, sy, fuel).len() - 1 ==>
            advances(#[trigger] walk(x, y, err, x1, y1, dx, dy, sx, sy, fuel)[k],
                walk(x, y, err, x1, y1, dx, dy, sx, sy, fuel)[k + 1], sx, sy),
        forall|k: int| 0 <= k < walk(x, y, err, x1, y1, dx, dy, sx, sy, fuel).len() ==>
            in_span(#[trigger] walk(x, y, err, x1, y1, dx, dy, sx, sy, fuel)[k], x0, y0, x1, y1),
    decreases fuel,
{
    let w = walk(x, y, err, x1, y1, dx, dy, sx, sy, fuel);
    if (x == x1 && y == y1) || fuel == 0 {
        return;
    }
    let a = abs(x - x0);
    let b = abs(y - y0);
    let e2 = 2 * err;
    if x == x1 {
        // the horizontal step is never taken once the column is reached
        assert((b + 1) * dx <= (-dy) * dx) by (nonlinear_arith)
            requires
                b + 1 <= -dy,
                dx >= 0;
        assert((a + 1) * dy == dx * dy + dy) by (nonlinear_arith)
            requires
                a == dx;
        assert((-dy) * dx == -(dx * dy)) by (nonlinear_arith);
        assert(e2 < dy);
    }
    if y == y1 {
        // nor the vertical step once the row is reached
        assert((a + 1) * dy >= dx * dy) by (nonlinear_arith)
            requires
                a + 1 <= dx,
                dy <= 0;
        assert((b + 1) * dx == -(dx * dy) + dx) by (nonlinear_arith)
            requires
                b == -dy;
        assert(e2 > dx);
    }
    let ix: int = if e2 >= dy { 1 } else { 0 };
    let iy: int = if e2 <= dx { 1 } else { 0 };
    let nx = x + ix * sx;
    let ny = y + iy * sy;
    let nerr = err + ix * dy + iy * dx;
    if e2 >= dy && e2 <= dx {
        assert(nerr == err + dy + dx);
    } else if e2 >= dy {
        assert(nerr == err + dy);
    } else {
        assert(nerr == err + dx);
    }
    assert(abs(nx - x0) == a + ix);
    assert(abs(ny - y0) == b + iy);
    lemma_err_step(err, nerr, a, b, ix, iy, dx, dy);
    lemma_walk_shape(nx, ny, nerr, x0, y0, x1, y1, dx, dy, sx, sy, (fuel - 1) as nat);
    let rest = walk(nx, ny, nerr, x1, y1, dx, dy, sx, sy, (fuel - 1) as nat);
    assert(w == seq![(x, y)] + rest);
    assert(ix == 1 || iy == 1);
    assert forall|k: int| 0 <= k < w.len() - 1 implies
        touching(#[trigger] w[k], w[k + 1]) && advances(w[k], w[k + 1], sx, sy) by {
        if k > 0 {
            assert(w[k] == rest[k - 1]);
            assert(w[k + 1] == rest[k]);
        }
    }
    assert forall|k: int| 0 <= k < w.len() implies in_span(#[trigger] w[k], x0, y0, x1, y1) by {
        if k > 0 {
            assert(w[k] == rest[k - 1]);
        }
    }
}

/// A Bresenham line starts at its first endpoint, ends exactly at its second,
/// and has one cell more than the larger of its horizontal and vertical
/// extents. Every cell touches the one before it, reached by a step of
/// nothing or one towards the far end on each axis, never standing still,
/// so no cell repeats; and every cell lies in the endpoints' box.
pub proof fn lemma_line_connects(x0: i32, y0: i32, x1: i32, y1: i32)
    ensures
        line_cells(x0 as int, y0 as int, x1 as int, y1 as int).len()
            == if abs(x1 - x0) >= abs(y1 - y0) { abs(x1 - x0) + 1 } else { abs(y1 - y0) + 1 },
        line_cells(x0 as int, y0 as int, x1 as int, y1 as int)[0] == (x0 as int, y0 as int),
        line_cells(x0 as int, y0 as int, x1 as int, y1 as int).last() == (x1 as int, y1 as int),
        forall|k: int| 0 <= k < line_cells(x0 as int, y0 as int, x1 as int, y1 as int).len() - 1 ==>
            touching(#[trigger] line_cells(x0 as int, y0 as int, x1 as int, y1 as int)[k],
                line_cells(x0 as int, y0 as int, x1 as int, y1 as int)[k + 1]),
        forall|k: int| 0 <= k < line_cells(x0 as int, y0 as int, x1 as int, y1 as int).len() - 1 ==>
            advances(#[trigger] line_cells(x0 as int, y0 as int, x1 as int, y1 as int)[k], line_cells(x0 as int, y0 as int, x1 as int, y1 as int)[k + 1],
                step_toward(x0 as int, x1 as int), step_toward(y0 as int, y1 as int)),
        forall|k: int| 0 <= k < line_cells(x0 as int, y0 as int, x1 as int, y1 as int).len() ==>
            in_span(#[trigger] line_cells(x0 as int, y0 as int, x1 as int, y1 as int)[k], x0 as int, y0 as int, x1 as int, y1 as int),
{
    let dx = abs(x1 - x0);
    let dy = -abs(y1 - y0);
    lemma_err_step(dx + dy, dx + dy, 0, 0, 0, 0, dx, dy);
    lemma_walk_shape(x0 as int, y0 as int, dx + dy, x0 as int, y0 as int, x1 as int, y1 as int,
        dx, dy, step_toward(x0 as int, x1 as int), step_toward(y0 as int, y1 as int), (dx - dy) as nat);
}

/// The signed area test of point `(px, py)` against the edge of `vs` that
/// leaves vertex `i` (the last vertex's edge closes the polygon).
pub open spec fn edge_cross(vs: Seq<(i32, i32)>, i: int, px: int, py: int) -> int {
    let j = (i + 1) % (vs.len() as int);
    (vs[j].0 - vs[i].0) * (py - vs[i].1) - (vs[j].1 - vs[i].1) * (px - vs[i].0)
}

/// `(px, py)` lies on the same side of every edge of `vs`, whichever way
/// `vs` winds; a polygon needs at least three vertices.
pub open spec fn inside(vs: Seq<(i32, i32)>, px: int, py: int) -> bool {
    vs.len() >= 3 && (
        (forall|i: int| 0 <= i < vs.len() ==> #[trigger] edge_cross(vs, i, px, py) >= 0)
        || (forall|i: int| 0 <= i < vs.len() ==> #[trigger] edge_cross(vs, i, px, py) <= 0)
    )
}

fn edge_cross_at(vs: &Vec<(i32, i32)>, i: usize, px: i32, py: i32) -> (r: i128)
    requires
        i < vs@.len(),
    ensures
        r == edge_cross(vs@, i as int, px as int, py as int),
{
    let n = vs.len();
    let j: usize = if i + 1 == n { 0 } else { i + 1 };
    assert(j as int == (i as int + 1) % (n as int)) by (nonlinear_arith)
        requires
            i < n,
            j == if i + 1 == n { 0 } else { i + 1 };
    let ex: i64 = vs[j].0 as i64 - vs[i].0 as i64;
    let ey: i64 = vs[j].1 as i64 - vs[i].1 as i64;
    let qx: i64 = px as i64 - vs[i].0 as i64;
    let qy: i64 = py as i64 - vs[i].1 as i64;
    assert(-0x1_0000_0000_0000_0000 <= ex * qy <= 0x1_0000_0000_0000_0000) by (nonlinear_arith)
        requires
            -0x1_0000_0000 <= ex <= 0x1_0000_0000,
            -0x1_0000_0000 <= qy <= 0x1_0000_0000;
    assert(-0x1_0000_0000_0000_0000 <= ey * qx <= 0x1_0000_0000_0000_0000) by (nonlinear_arith)
        requires
            -0x1_0000_0000 <= ey <= 0x1_0000_0000,
            -0x1_0000_0000 <= qx <= 0x1_0000_0000;
    ex as i128 * qy as i128 - ey as i128 * qx as i128
}

/// Whether cell `(px, py)` lies inside the convex polygon `vs`, tried with
/// both winding directions.
pub fn point_in_quad(px: i32, py: i32, vs: &Vec<(i32, i32)>) -> (r: bool)
    ensures
        r == inside(vs@, px as int, py as int),
{
    let n = vs.len();
    if n < 3 {
        return false;
    }
    let mut all_left = true;
    let mut i: usize = 0;
    while i < n
        invariant_except_break
            all_left,
            forall|k: int| 0 <= k < i ==> #[trigger] edge_cross(vs@, k, px as int, py as int) >= 0,
        invariant
            n == vs@.len(),
            i <= n,
        ensures
            all_left ==> forall|k: int| 0 <= k < n ==> #[trigger] edge_cross(vs@, k, px as int, py as int) >= 0,
            !all_left ==> i < n && edge_cross(vs@, i as int, px as int, py as int) < 0,
        decreases n - i,
    {
        let c = edge_cross_at(vs, i, px, py);
        if c < 0 {
            all_left = false;
            break;
        }
        i = i + 1;
    }
    if all_left {
        return true;
    }
    let mut all_right = true;
    let mut i: usize = 0;
    while i < n
        invariant_except_break
            all_right,
            forall|k: int| 0 <= k < i ==> #[trigger] edge_cross(vs@, k, px as int, py as int) <= 0,
        invariant
            n == vs@.len(),
            i <= n,
        ensures
            all_right ==> forall|k: int| 0 <= k < n ==> #[trigger] edge_cross(vs@, k, px as int, py as int) <= 0,
            !all_right ==> i < n && edge_cross(vs@, i as int, px as int, py as int) > 0,
        decreases n - i,
    {
        let c = edge_cross_at(vs, i, px, py);
        if c > 0 {
            all_right = false;
            break;
        }
        i = i + 1;
    }
    all_right
}

/// The least of the horizontal (`horizontal`) or vertical coordinates of `vs`.
pub open spec fn lowest(vs: Seq<(i32, i32)>, horizontal: bool) -> int
    decreases vs.len(),
{
    let c = if horizontal { vs.last().0 as int } else { vs.last().1 as int };
    if vs.len() <= 1 {
        c
    } else {
        let m = lowest(vs.drop_last(), horizontal);
        if c < m { c } else { m }
    }
}

/// The greatest of the horizontal (`horizontal`) or vertical coordinates of `vs`.
pub open spec fn highest(vs: Seq<(i32, i32)>, horizontal: bool) -> int
    decreases vs.len(),
{
    let c = if horizontal { vs.last().0 as int } else { vs.last().1 as int };
    if vs.len() <= 1 {
        c
    } else {
        let m = highest(vs.drop_last(), horizontal);
        if c > m { c } else { m }
    }
}

/// The fill fragments of row `y` for the columns `lo .. hi`, left to right.
pub open spec fn fill_row(vs: Seq<(i32, i32)>, y: int, lo: int, hi: int, depth: u32, glyph: char, hue: Hue) -> Seq<Fragment>
    decreases hi - lo,
{
    if hi <= lo {
        seq![]
    } else {
        let rest = fill_row(vs, y, lo, hi - 1, depth, glyph, hue);
        if inside(vs, hi - 1, y) {
            rest.push(Fragment { x: (hi - 1) as i32, y: y as i32, depth, glyph, hue })
        } else {
            rest
        }
    }
}

/// The fill fragments of the rows `ylo .. yhi`, each over the columns
/// `xlo .. xhi`, top to bottom.
pub open spec fn fill_rows(vs: Seq<(i32, i32)>, ylo: int, yhi: int, xlo: int, xhi: int, depth: u32, glyph: char, hue: Hue) -> Seq<Fragment>
    decreases yhi - ylo,
{
    if yhi <= ylo {
        seq![]
    } else {
        fill_rows(vs, ylo, yhi - 1, xlo, xhi, depth, glyph, hue) + fill_row(vs, yhi - 1, xlo, xhi, depth, glyph, hue)
    }
}

/// The fragments that fill the polygon `vs`: every cell of its bounding box
/// that lies inside it, row by row, all at one depth. A polygon of fewer
/// than three vertices gives none.
pub open spec fn face_fragments(vs: Seq<(i32, i32)>, depth: u32, glyph: char, hue: Hue) -> Seq<Fragment> {
    if vs.len() < 3 {
        seq![]
    } else {
        fill_rows(vs, lowest(vs, false), highest(vs, false) + 1, lowest(vs, true), highest(vs, true) + 1, depth, glyph, hue)
    }
}

/// The bounding box of a non-empty point list: least and greatest column,
/// least and greatest row.
fn bounding_box(vs: &Vec<(i32, i32)>) -> (r: (i32, i32, i32, i32))
    requires
        vs@.len() >= 1,
    ensures
        r.0 == lowest(vs@, true),
        r.1 == highest(vs@, true),
        r.2 == lowest(vs@, false),
        r.3 == highest(vs@, false),
{
    let mut lx = vs[0].0;
    let mut hx = vs[0].0;
    let mut ly = vs[0].1;
    let mut hy = vs[0].1;
    let mut k: usize = 1;
    assert(vs@.take(1).drop_last() =~= seq![]);
    while k < vs.len()
        invariant
            1 <= k <= vs@.len(),
            lx == lowest(vs@.take(k as int), true),
            hx == highest(vs@.take(k as int), true),
            ly == lowest(vs@.take(k as int), false),
            hy == highest(vs@.take(k as int), false),
        decreases vs@.len() - k,
    {
        let p = vs[k];
        if p.0 < lx { lx = p.0; }
        if p.0 > hx { hx = p.0; }
        if p.1 < ly { ly = p.1; }
        if p.1 > hy { hy = p.1; }
        assert(vs@.take(k + 1).drop_last() =~= vs@.take(k as int));
        k = k + 1;
    }
    assert(vs@.take(vs@.len() as int) =~= vs@);
    (lx, hx, ly, hy)
}

/// Appends to `out` the fill fragments of the polygon `vs` (the projected
/// corners of a face), with the given depth, glyph and colour. Fewer than
/// three corners fill nothing.
pub fn fill_face(vs: &Vec<(i32, i32)>, depth: u32, glyph: char, hue: Hue, out: &mut Vec<Fragment>)
    ensures
        final(out)@ == old(out)@ + face_fragments(vs@, depth, glyph, hue),
{
    if vs.len() < 3 {
        assert(old(out)@ + seq![] =~= old(out)@);
        return;
    }
    let (lx, hx, ly, hy) = bounding_box(vs);
    let ghost base = old(out)@;
    let mut y: i64 = ly as i64;
    assert(base + fill_rows(vs@, ly as int, ly as int, lx as int, hx + 1, depth, glyph, hue) =~= base);
    while y <= hy as i64
        invariant
            ly <= y <= hy + 1,
            lx == lowest(vs@, true),
            hx == highest(vs@, true),
            vs@.len() >= 3,
            out@ == base + fill_rows(vs@, ly as int, y as int, lx as int, hx + 1, depth, glyph, hue),
        decreases hy + 1 - y,
    {
        let ghost row_start = out@;
        let mut x: i64 = lx as i64;
        assert(row_start + fill_row(vs@, y as int, lx as int, lx as int, depth, glyph, hue) =~= row_start);
        while x <= hx as i64
            invariant
                lx <= x <= hx + 1,
                ly <= y <= hy,
                vs@.len() >= 3,
                out@ == row_start + fill_row(vs@, y as int, lx as int, x as int, depth, glyph, hue),
            decreases hx + 1 - x,
        {
            if point_in_quad(x as i32, y as i32, vs) {
                out.push(Fragment { x: x as i32, y: y as i32, depth, glyph, hue });
            }
            x = x + 1;
            assert(out@ =~= row_start + fill_row(vs@, y as int, lx as int, x as int, depth, glyph, hue));
        }
        y = y + 1;
        assert(out@ =~= base + fill_rows(vs@, ly as int, y as int, lx as int, hx + 1, depth, glyph, hue));
    }
}

/// The edge of `vs` that, walked backwards, is edge `i` of `vs` reversed.
pub open spec fn reversed_edge(n: int, i: int) -> int {
    if i < n - 1 { n - 2 - i } else { n - 1 }
}

proof fn lemma_reversed_cross(vs: Seq<(i32, i32)>, i: int, px: int, py: int)
    requires
        vs.len() >= 3,
        0 <= i < vs.len(),
    ensures
        edge_cross(vs.reverse(), i, px, py) == -edge_cross(vs, reversed_edge(vs.len() as int, i), px, py),
{
    let n = vs.len() as int;
    let r = vs.reverse();
    let m = reversed_edge(n, i);
    let j = (i + 1) % n;
    let mj = (m + 1) % n;
    if i < n - 1 {
        assert(j == i + 1) by (nonlinear_arith) requires 0 <= i < n - 1, j == (i + 1) % n;
        assert(mj == m + 1) by (nonlinear_arith) requires 0 <= m < n - 1, mj == (m + 1) % n;
        assert(r[i] == vs[m + 1]);
        assert(r[j] == vs[m]);
    } else {
        assert(j == 0) by (nonlinear_arith) requires i == n - 1, n >= 3, j == (i + 1) % n;
        assert(mj == 0) by (nonlinear_arith) requires m == n - 1, n >= 3, mj == (m + 1) % n;
        assert(r[i] == vs[0]);
        assert(r[j] == vs[m]);
    }
    let (ax, ay) = (vs[m].0 as int, vs[m].1 as int);
    let (bx, by) = (vs[mj].0 as int, vs[mj].1 as int);
    assert((ax - bx) * (py - by) - (ay - by) * (px - bx) == -((bx - ax) * (py - ay) - (by - ay) * (px - ax)))
        by (nonlinear_arith);
}

/// Membership does not depend on the direction in which the polygon's
/// vertices are listed: a point inside it stays inside when the list is
/// reversed, and a point outside stays outside.
pub proof fn lemma_inside_either_winding(vs: Seq<(i32, i32)>, px: int, py: int)
    ensures
        inside(vs.reverse(), px, py) == inside(vs, px, py),
{
    let n = vs.len() as int;
    let r = vs.reverse();
    if n >= 3 {
        assert forall|i: int| 0 <= i < n implies
            #[trigger] edge_cross(r, i, px, py) == -edge_cross(vs, reversed_edge(n, i), px, py) by {
            lemma_reversed_cross(vs, i, px, py);
        }
        assert forall|m: int| 0 <= m < n implies
            #[trigger] edge_cross(vs, m, px, py) == -edge_cross(r, reversed_edge(n, m), px, py) by {
            assert(reversed_edge(n, reversed_edge(n, m)) == m);
            lemma_reversed_cross(vs, reversed_edge(n, m), px, py);
        }
        if (forall|i: int| 0 <= i < n ==> #[trigger] edge_cross(vs, i, px, py) >= 0) {
            assert forall|i: int| 0 <= i < n implies #[trigger] edge_cross(r, i, px, py) <= 0 by {
                assert(edge_cross(vs, reversed_edge(n, i), px, py) >= 0);
            }
        }
        if (forall|i: int| 0 <= i < n ==> #[trigger] edge_cross(vs, i, px, py) <= 0) {
            assert forall|i: int| 0 <= i < n implies #[trigger] edge_cross(r, i, px, py) >= 0 by {
                assert(edge_cross(vs, reversed_edge(n, i), px, py) <= 0);
            }
        }
        if (forall|i: int| 0 <= i < n ==> #[trigger] edge_cross(r, i, px, py) >= 0) {
            assert forall|i: int| 0 <= i < n implies #[trigger] edge_cross(vs, i, px, py) <= 0 by {
                assert(edge_cross(r, reversed_edge(n, i), px, py) >= 0);
            }
        }
        if (forall|i: int| 0 <= i < n ==> #[trigger] edge_cross(r, i, px, py) <= 0) {
            assert forall|i: int| 0 <= i < n implies #[trigger] edge_cross(vs, i, px, py) >= 0 by {
                assert(edge_cross(r, reversed_edge(n, i), px, py) <= 0);
            }
        }
    }
}

} // verus!
