//! The frame compositor: a depth grid and a glyph grid, merged fragment by
//! fragment with a nearest-wins depth test.

use vstd::prelude::*;
use crate::mesh::Hue;
use crate::raster::Fragment;

verus! {

/// What a screen cell shows.
#[derive(Clone, Copy, Debug, PartialEq, Eq, Structural)]
pub struct Cell {
    pub glyph: char,
    pub hue: Hue,
}

/// The depth key of an empty cell, farther than any fragment.
pub const FAR: u32 = 0xFFFF_FFFF;

pub open spec fn blank_cell() -> Cell {
    Cell { glyph: ' ', hue: Hue::Black }
}

/// The mathematical content of a frame buffer: its size and its two grids,
/// row-major.
pub ghost struct Frame {
    pub width: nat,
    pub height: nat,
    pub depth: Seq<u32>,
    pub cells: Seq<Cell>,
}

impl Frame {
    pub open spec fn wf(self) -> bool {
        &&& self.width * self.height <= usize::MAX
        &&& self.depth.len() == self.width * self.height
        &&& self.cells.len() == self.width * self.height
    }

    /// The fragment's cell lies on the grid.
    pub open spec fn covers(self, g: Fragment) -> bool {
        0 <= g.x < self.width && 0 <= g.y < self.height
    }

    /// The row-major position of the fragment's cell.
    pub open spec fn slot(self, g: Fragment) -> int {
        g.y * self.width + g.x
    }
}

/// The frame of the given size with every cell blank and infinitely far.
pub open spec fn blank_frame(width: nat, height: nat) -> Frame {
    Frame {
        width,
        height,
        depth: Seq::new(width * height, |i: int| FAR),
        cells: Seq::new(width * height, |i: int| blank_cell()),
    }
}

/// The frame after the depth test of one fragment: it replaces its cell
/// when it lies on the grid and is strictly nearer than what is there.
pub open spec fn merge(f: Frame, g: Fragment) -> Frame {
    if f.covers(g) && g.depth < f.depth[f.slot(g)] {
        Frame {
            depth: f.depth.update(f.slot(g), g.depth),
            cells: f.cells.update(f.slot(g), Cell { glyph: g.glyph, hue: g.hue }),
            ..f
        }
    } else {
        f
    }
}

/// The frame after the depth test of each fragment of `gs` in turn.
pub open spec fn merge_all(f: Frame, gs: Seq<Fragment>) -> Frame
    decreases gs.len(),
{
    if gs.len() == 0 {
        f
    } else {
        merge(merge_all(f, gs.drop_last()), gs.last())
    }
}

proof fn lemma_slot_in_range(f: Frame, g: Fragment)
    requires
        f.covers(g),
    ensures
        0 <= f.slot(g) < f.width * f.height,
{
    let w = f.width as int;
    let h = f.height as int;
    let x = g.x as int;
    let y = g.y as int;
    assert(0 <= y * w + x < w * h) by (nonlinear_arith)
        requires
            0 <= x < w,
            0 <= y < h;
}

/// Merging fragments keeps the frame's size and well-formedness, and the
/// depth held by each cell only ever decreases.
pub proof fn lemma_merge_all_nearer(f: Frame, gs: Seq<Fragment>)
    requires
        f.wf(),
    ensures
        merge_all(f, gs).wf(),
        merge_all(f, gs).width == f.width,
        merge_all(f, gs).height == f.height,
        forall|i: int| 0 <= i < f.depth.len() ==> merge_all(f, gs).depth[i] <= f.depth[i],
    decreases gs.len(),
{
    if gs.len() > 0 {
        lemma_merge_all_nearer(f, gs.drop_last());
        let m = merge_all(f, gs.drop_last());
        if m.covers(gs.last()) {
            lemma_slot_in_range(m, gs.last());
        }
    }
}

/// After merging `gs`, no cell is farther than any fragment of `gs` that
/// lies on it.
proof fn lemma_merge_all_settled(f: Frame, gs: Seq<Fragment>)
    requires
        f.wf(),
    ensures
        forall|k: int| 0 <= k < gs.len() && f.covers(#[trigger] gs[k]) ==>
            merge_all(f, gs).depth[f.slot(gs[k])] <= gs[k].depth,
    decreases gs.len(),
{
    if gs.len() > 0 {
        let pre = gs.drop_last();
        lemma_merge_all_settled(f, pre);
        lemma_merge_all_nearer(f, pre);
        let m = merge_all(f, pre);
        let g = gs.last();
        if m.covers(g) {
            lemma_slot_in_range(m, g);
        }
        assert forall|k: int| 0 <= k < gs.len() && f.covers(#[trigger] gs[k]) implies
            merge_all(f, gs).depth[f.slot(gs[k])] <= gs[k].depth by {
            if k < pre.len() {
                assert(pre[k] == gs[k]);
                lemma_slot_in_range(f, gs[k]);
            }
        }
    }
}

/// Fragments that are all at least as far as the cells they land on change
/// nothing.
proof fn lemma_merge_all_unchanged(f: Frame, gs: Seq<Fragment>)
    requires
        f.wf(),
        forall|k: int| 0 <= k < gs.len() && f.covers(#[trigger] gs[k]) ==> f.depth[f.slot(gs[k])] <= gs[k].depth,
    ensures
        merge_all(f, gs) == f,
    decreases gs.len(),
{
    if gs.len() > 0 {
        let pre = gs.drop_last();
        assert forall|k: int| 0 <= k < pre.len() && f.covers(#[trigger] pre[k]) implies
            f.depth[f.slot(pre[k])] <= pre[k].depth by {
            assert(pre[k] == gs[k]);
        }
        lemma_merge_all_unchanged(f, pre);
        assert(gs.last() == gs[gs.len() - 1]);
    }
}

/// Merging the same fragment stream a second time changes nothing: the
/// result equals that of merging it once.
pub proof fn lemma_merge_idempotent(f: Frame, gs: Seq<Fragment>)
    requires
        f.wf(),
    ensures
        merge_all(merge_all(f, gs), gs) == merge_all(f, gs),
{
    let m = merge_all(f, gs);
    lemma_merge_all_nearer(f, gs);
    lemma_merge_all_settled(f, gs);
    assert forall|k: int| 0 <= k < gs.len() && m.covers(#[trigger] gs[k]) implies
        m.depth[m.slot(gs[k])] <= gs[k].depth by {
    }
    lemma_merge_all_unchanged(m, gs);
}

/// Of two fragments on the same cell, the nearer one ends up there (unless
/// the cell already held something at least as near), whichever of the two
/// is merged first; the whole frame is the same either way.
pub proof fn lemma_nearest_wins(f: Frame, near: Fragment, far: Fragment)
    requires
        f.wf(),
        near.x == far.x,
        near.y == far.y,
        near.depth < far.depth,
    ensures
        merge_all(f, seq![near, far]) == merge_all(f, seq![far, near]),
        f.covers(near) && near.depth < f.depth[f.slot(near)] ==>
            merge_all(f, seq![far, near]).cells[f.slot(near)] == (Cell { glyph: near.glyph, hue: near.hue }),
{
    assert(seq![near, far].drop_last() =~= seq![near]);
    assert(seq![far, near].drop_last() =~= seq![far]);
    assert(seq![near].drop_last() =~= Seq::<Fragment>::empty());
    assert(seq![far].drop_last() =~= Seq::<Fragment>::empty());
    assert(merge_all(f, Seq::<Fragment>::empty()) == f);
    assert(merge_all(f, seq![near]) == merge(f, near));
    assert(merge_all(f, seq![far]) == merge(f, far));
    let a = merge_all(f, seq![near, far]);
    let b = merge_all(f, seq![far, near]);
    assert(a == merge(merge(f, near), far));
    assert(b == merge(merge(f, far), near));
    if f.covers(near) {
        lemma_slot_in_range(f, near);
        let s = f.slot(near);
        assert(f.slot(far) == s);
        if near.depth < f.depth[s] {
            assert(a.depth =~= f.depth.update(s, near.depth));
            assert(b.depth =~= f.depth.update(s, near.depth));
            assert(a.cells =~= b.cells);
        } else {
            assert(a == f);
            assert(b == f);
        }
    }
}

/// A frame under composition: a depth grid and a glyph grid of
/// `width * height` cells, row-major.
pub struct FrameBuffer {
    width: usize,
    height: usize,
    depth: Vec<u32>,
    cells: Vec<Cell>,
}

impl View for FrameBuffer {
    type V = Frame;

    closed spec fn view(&self) -> Frame {
        Frame { width: self.width as nat, height: self.height as nat, depth: self.depth@, cells: self.cells@ }
    }
}

impl FrameBuffer {
    /// A blank frame of `width` columns and `height` rows: every cell empty
    /// and at the farthest depth.
    pub fn new(width: usize, height: usize) -> (r: FrameBuffer)
        requires
            width * height <= usize::MAX,
        ensures
            r@ == blank_frame(width as nat, height as nat),
            r@.wf(),
    {
        let n = width * height;
        let depth = vec![FAR; n];
        let cells = vec![Cell { glyph: ' ', hue: Hue::Black }; n];
        let r = FrameBuffer { width, height, depth, cells };
        assert(r@.depth =~= blank_frame(width as nat, height as nat).depth);
        assert(r@.cells =~= blank_frame(width as nat, height as nat).cells);
        r
    }

    pub fn width(&self) -> (r: usize)
        ensures
            r == self@.width,
    {
        self.width
    }

    pub fn height(&self) -> (r: usize)
        ensures
            r == self@.height,
    {
        self.height
    }

    /// What cell `(x, y)` shows.
    pub fn cell(&self, x: usize, y: usize) -> (r: Cell)
        requires
            self@.wf(),
            x < self@.width,
            y < self@.height,
        ensures
            r == self@.cells[y * self@.width + x],
    {
        assert(0 <= y * self.width + x < self.width * self.height) by (nonlinear_arith)
            requires
                x < self.width,
                y < self.height;
        self.cells[y * self.width + x]
    }

    /// The depth key held at cell `(x, y)`.
    pub fn depth_at(&self, x: usize, y: usize) -> (r: u32)
        requires
            self@.wf(),
            x < self@.width,
            y < self@.height,
        ensures
            r == self@.depth[y * self@.width + x],
    {
        assert(0 <= y * self.width + x < self.width * self.height) by (nonlinear_arith)
            requires
                x < self.width,
                y < self.height;
        self.depth[y * self.width + x]
    }

    /// The row-major grid of cells.
    pub fn cells(&self) -> (r: &Vec<Cell>)
        ensures
            r@ == self@.cells,
    {
        &self.cells
    }

    /// Applies the depth test of one fragment: it replaces its cell when it
    /// lies on the grid and is strictly nearer than what the cell holds.
    pub fn merge_fragment(&mut self, g: Fragment)
        requires
            old(self)@.wf(),
        ensures
            final(self)@ == merge(old(self)@, g),
            final(self)@.wf(),
    {
        if g.x >= 0 && (g.x as usize) < self.width && g.y >= 0 && (g.y as usize) < self.height {
            proof {
                lemma_slot_in_range(self@, g);
            }
            assert(0 <= g.y * self.width + g.x < self.width * self.height) by (nonlinear_arith)
                requires
                    0 <= g.x < self.width,
                    0 <= g.y < self.height;
            let i = g.y as usize * self.width + g.x as usize;
            if g.depth < self.depth[i] {
                self.depth.set(i, g.depth);
                self.cells.set(i, Cell { glyph: g.glyph, hue: g.hue });
            }
        }
    }

    /// Applies the depth test of each fragment of `gs`, in order.
    pub fn merge_fragments(&mut self, gs: &Vec<Fragment>)
        requires
            old(self)@.wf(),
        ensures
            final(self)@ == merge_all(old(self)@, gs@),
            final(self)@.wf(),
    {
        let mut k: usize = 0;
        while k < gs.len()
            invariant
                k <= gs@.len(),
                self@ == merge_all(old(self)@, gs@.take(k as int)),
                self@.wf(),
            decreases gs@.len() - k,
        {
            self.merge_fragment(gs[k]);
            assert(gs@.take(k + 1).drop_last() =~= gs@.take(k as int));
            k = k + 1;
        }
        assert(gs@.take(gs@.len() as int) =~= gs@);
    }
}

} // verus!
