//! One frame of the pipeline: faces painted back to front (skipping those
//! that face away), then every edge, all merged by depth and written out
//! as text.

use vstd::prelude::*;
use crate::mesh::{Hue, shade_glyph, shade_of};
use crate::raster::{Fragment, draw_line, fill_face, face_fragments, line_fragments};
use crate::compose::{FrameBuffer, blank_frame, merge_all};
use crate::encode::{Palette, encode_cells, encoded};

verus! {

/// A face as seen this frame: the screen cells of those corners that
/// project, the depth key of its centre (for the paint order), the depth key
/// of its fill, whether it faces the camera, its shading level and colour.
pub struct FacePlan {
    pub corners: Vec<(i32, i32)>,
    pub center: u32,
    pub depth: u32,
    pub facing: bool,
    pub level: usize,
    pub hue: Hue,
}

/// An edge whose two ends project: their screen cells and its depth key.
#[derive(Clone, Copy, Debug)]
pub struct EdgePlan {
    pub from: (i32, i32),
    pub to: (i32, i32),
    pub depth: u32,
}

/// The colour that edges are drawn in.
pub open spec fn edge_hue() -> Hue {
    Hue::White
}

/// Face `i` is painted before face `j`: it is farther, or as far and listed
/// first.
pub open spec fn paints_before(keys: Seq<u32>, i: int, j: int) -> bool {
    keys[i] > keys[j] || (keys[i] == keys[j] && i < j)
}

/// `order` lists every face index once, farthest first, ties in list order.
pub open spec fn is_paint_order(keys: Seq<u32>, order: Seq<usize>) -> bool {
    &&& order.len() == keys.len()
    &&& forall|a: int| 0 <= a < order.len() ==> #[trigger] order[a] < keys.len()
    &&& forall|a: int, b: int| 0 <= a < b < order.len() ==> order[a] != order[b]
    &&& forall|v: int| 0 <= v < keys.len() ==> #[trigger] order.contains(v as usize)
    &&& forall|a: int, b: int| 0 <= a < b < order.len() ==>
        #[trigger] paints_before(keys, order[a] as int, order[b] as int)
}

/// There is only one paint order for a list of depth keys.
pub proof fn lemma_paint_order_unique(keys: Seq<u32>, o1: Seq<usize>, o2: Seq<usize>)
    requires
        is_paint_order(keys, o1),
        is_paint_order(keys, o2),
    ensures
        o1 == o2,
{
    if o1 != o2 {
        assert(!(o1 =~= o2));
        let i = choose|i: int| 0 <= i < o1.len() && o1[i] != o2[i];
        lemma_first_difference(o1, o2, i);
        let f = choose|f: int| 0 <= f < o1.len() && o1[f] != o2[f] && forall|h: int| 0 <= h < f ==> o1[h] == o2[h];
        let u = o1[f];
        let v = o2[f];
        assert(u < keys.len() && v < keys.len());
        assert(o1.contains((v as int) as usize));
        assert(o2.contains((u as int) as usize));
        let j = choose|j: int| 0 <= j < o1.len() && o1[j] == v;
        let k = choose|k: int| 0 <= k < o2.len() && o2[k] == u;
        if j < f {
            assert(o2[j] == v);
        }
        if k < f {
            assert(o1[k] == u);
        }
        assert(paints_before(keys, o1[f] as int, o1[j] as int));
        assert(paints_before(keys, o2[f] as int, o2[k] as int));
    }
}

proof fn lemma_first_difference(o1: Seq<usize>, o2: Seq<usize>, i: int)
    requires
        0 <= i < o1.len(),
        o1.len() == o2.len(),
        o1[i] != o2[i],
    ensures
        exists|f: int| 0 <= f < o1.len() && o1[f] != o2[f] && forall|h: int| 0 <= h < f ==> o1[h] == o2[h],
    decreases i,
{
    if exists|h: int| 0 <= h < i && o1[h] != o2[h] {
        let h = choose|h: int| 0 <= h < i && o1[h] != o2[h];
        lemma_first_difference(o1, o2, h);
    } else {
        assert(forall|h: int| 0 <= h < i ==> o1[h] == o2[h]);
    }
}

/// The paint order of a list of depth keys.
pub open spec fn painting(keys: Seq<u32>) -> Seq<usize> {
    choose|order: Seq<usize>| is_paint_order(keys, order)
}

/// The order in which to paint faces with the given centre depth keys:
/// farthest first, and faces at equal depth in the order they are listed.
pub fn paint_order(keys: &Vec<u32>) -> (r: Vec<usize>)
    ensures
        is_paint_order(keys@, r@),
{
    let mut r: Vec<usize> = Vec::new();
    let mut k: usize = 0;
    while k < keys.len()
        invariant
            k <= keys@.len(),
            r@.len() == k,
            forall|a: int| 0 <= a < r@.len() ==> #[trigger] r@[a] < k,
            forall|a: int, b: int| 0 <= a < b < r@.len() ==> r@[a] != r@[b],
            forall|v: int| 0 <= v < k ==> #[trigger] r@.contains(v as usize),
            forall|a: int, b: int| 0 <= a < b < r@.len() ==>
                #[trigger] paints_before(keys@, r@[a] as int, r@[b] as int),
        decreases keys@.len() - k,
    {
        let mut p: usize = 0;
        while p < r.len() && (keys[r[p]] > keys[k] || (keys[r[p]] == keys[k] && r[p] < k))
            invariant
                p <= r@.len(),
                k < keys@.len(),
                forall|a: int| 0 <= a < r@.len() ==> #[trigger] r@[a] < k,
                forall|a: int| 0 <= a < p ==> paints_before(keys@, #[trigger] r@[a] as int, k as int),
            decreases r@.len() - p,
        {
            p = p + 1;
        }
        let ghost old_r = r@;
        assert forall|b: int| p <= b < old_r.len() implies
            paints_before(keys@, k as int, #[trigger] old_r[b] as int) by {
            if b > p {
                assert(paints_before(keys@, old_r[p as int] as int, old_r[b] as int));
            }
        }
        r.insert(p, k);
        assert(r@[p as int] == k);
        assert forall|v: int| 0 <= v < k + 1 implies #[trigger] r@.contains(v as usize) by {
            if v < k {
                assert(old_r.contains(v as usize));
                let a = choose|a: int| 0 <= a < old_r.len() && old_r[a] == v as usize;
                if a < p {
                    assert(r@[a] == v as usize);
                } else {
                    assert(r@[a + 1] == v as usize);
                }
            } else {
                assert(r@[p as int] == v as usize);
            }
        }
        assert forall|a: int, b: int| 0 <= a < b < r@.len() implies
            #[trigger] paints_before(keys@, r@[a] as int, r@[b] as int) by {
            if a < p && b == p {
            } else if a < p && b > p {
                assert(r@[b] == old_r[b - 1]);
            } else if a == p {
                assert(r@[b] == old_r[b - 1]);
            } else if a > p {
                assert(r@[a] == old_r[a - 1]);
                assert(r@[b] == old_r[b - 1]);
            }
        }
        k = k + 1;
    }
    r
}

/// The fill fragments of the faces taken in `order`, skipping those that
/// face away.
pub open spec fn faces_fragments(faces: Seq<FacePlan>, order: Seq<usize>) -> Seq<Fragment>
    decreases order.len(),
{
    if order.len() == 0 {
        seq![]
    } else {
        let f = faces[order.last() as int];
        faces_fragments(faces, order.drop_last()) + if f.facing {
            face_fragments(f.corners@, f.depth, shade_of(f.level as int), f.hue)
        } else {
            seq![]
        }
    }
}

/// The fragments of every edge, in list order.
pub open spec fn edges_fragments(edges: Seq<EdgePlan>) -> Seq<Fragment>
    decreases edges.len(),
{
    if edges.len() == 0 {
        seq![]
    } else {
        let e = edges.last();
        edges_fragments(edges.drop_last())
            + line_fragments(e.from.0 as int, e.from.1 as int, e.to.0 as int, e.to.1 as int, e.depth, edge_hue())
    }
}

/// The centre depth keys of the faces.
pub open spec fn center_keys(faces: Seq<FacePlan>) -> Seq<u32> {
    faces.map_values(|f: FacePlan| f.center)
}

/// Renders one frame of `width` by `height` cells: the faces that face the
/// camera are filled back to front, the edges are drawn over them, every
/// fragment passes the depth test in that order, and the grid is written
/// out row by row with colour runs.
pub fn render_frame(width: usize, height: usize, faces: &Vec<FacePlan>, edges: &Vec<EdgePlan>, p: &Palette) -> (r: String)
    requires
        width * height <= usize::MAX,
        p.wf(),
    ensures
        r@ == encoded(
            merge_all(
                blank_frame(width as nat, height as nat),
                faces_fragments(faces@, painting(center_keys(faces@))) + edges_fragments(edges@),
            ).cells,
            *p,
        ),
{
    let mut keys: Vec<u32> = Vec::new();
    let mut i: usize = 0;
    while i < faces.len()
        invariant
            i <= faces@.len(),
            keys@ == center_keys(faces@.take(i as int)),
        decreases faces@.len() - i,
    {
        keys.push(faces[i].center);
        i = i + 1;
        assert(keys@ =~= center_keys(faces@.take(i as int)));
    }
    assert(faces@.take(faces@.len() as int) =~= faces@);
    let order = paint_order(&keys);
    proof {
        lemma_paint_order_unique(keys@, order@, painting(keys@));
    }
    let mut frags: Vec<Fragment> = Vec::new();
    let mut k: usize = 0;
    while k < order.len()
        invariant
            k <= order@.len(),
            is_paint_order(keys@, order@),
            keys@.len() == faces@.len(),
            frags@ == faces_fragments(faces@, order@.take(k as int)),
        decreases order@.len() - k,
    {
        let f = &faces[order[k]];
        assert(order@.take(k + 1).drop_last() =~= order@.take(k as int));
        if f.facing {
            fill_face(&f.corners, f.depth, shade_glyph(f.level), f.hue, &mut frags);
        } else {
            assert(frags@ + seq![] =~= frags@);
        }
        k = k + 1;
    }
    assert(order@.take(order@.len() as int) =~= order@);
    let ghost face_part = frags@;
    let mut e: usize = 0;
    while e < edges.len()
        invariant
            e <= edges@.len(),
            frags@ == face_part + edges_fragments(edges@.take(e as int)),
        decreases edges@.len() - e,
    {
        let ed = edges[e];
        assert(edges@.take(e + 1).drop_last() =~= edges@.take(e as int));
        draw_line(ed.from.0, ed.from.1, ed.to.0, ed.to.1, &mut frags, ed.depth, Hue::White);
        e = e + 1;
        assert(frags@ =~= face_part + edges_fragments(edges@.take(e as int)));
    }
    assert(edges@.take(edges@.len() as int) =~= edges@);
    let mut fb = FrameBuffer::new(width, height);
    fb.merge_fragments(&frags);
    encode_cells(fb.cells(), p)
}

/// The cells that a frame may use below and right of the cursor: the
/// columns from the cursor's to the last, and the rows below the cursor's.
pub fn usable_area(cols: u16, rows: u16, cursor_col: u16, cursor_row: u16) -> (r: (u16, u16))
    ensures
        r.0 == if cols > cursor_col { cols - cursor_col } else { 0 },
        r.1 == if rows > cursor_row + 1 { rows - cursor_row - 1 } else { 0 },
{
    let across: u16 = if cols > cursor_col { cols - cursor_col } else { 0 };
    let below: u16 = if rows > cursor_row && rows - cursor_row > 1 { rows - cursor_row - 1 } else { 0 };
    (across, below)
}

} // verus!
