use cube_render::compose::{Cell, FrameBuffer, FAR};
use cube_render::encode::{encode_cells, Palette};
use cube_render::mesh::Hue;
use cube_render::raster::Fragment;

fn frag(x: i32, y: i32, depth: u32, glyph: char, hue: Hue) -> Fragment {
    Fragment { x, y, depth, glyph, hue }
}

fn test_palette() -> Palette {
    let names = ["<k>", "<r>", "<g>", "<b>", "<y>", "<m>", "<c>", "<w>"];
    Palette { colors: names.iter().map(|s| s.to_string()).collect(), reset: "<0>".to_string() }
}

#[test]
fn new_frame_is_blank_and_far() {
    let fb = FrameBuffer::new(3, 2);
    assert_eq!(fb.width(), 3);
    assert_eq!(fb.height(), 2);
    assert_eq!(fb.cells().len(), 6);
    assert_eq!(fb.depth_at(2, 1), FAR);
    assert_eq!(fb.cell(0, 0), Cell { glyph: ' ', hue: Hue::Black });
}

#[test]
fn nearer_fragment_wins_in_either_order() {
    let near = frag(1, 1, 1, 'n', Hue::Red);
    let far = frag(1, 1, 3, 'f', Hue::Green);
    let mut a = FrameBuffer::new(3, 3);
    a.merge_fragments(&vec![near, far]);
    let mut b = FrameBuffer::new(3, 3);
    b.merge_fragments(&vec![far, near]);
    assert_eq!(a.cell(1, 1), Cell { glyph: 'n', hue: Hue::Red });
    assert_eq!(b.cell(1, 1), Cell { glyph: 'n', hue: Hue::Red });
    assert_eq!(a.depth_at(1, 1), 1);
    assert_eq!(b.depth_at(1, 1), 1);
}

#[test]
fn merging_twice_equals_merging_once() {
    let gs = vec![
        frag(0, 0, 5, 'a', Hue::Red),
        frag(0, 0, 2, 'b', Hue::Blue),
        frag(1, 0, 4, 'c', Hue::Cyan),
        frag(7, 7, 1, 'z', Hue::White),
    ];
    let mut once = FrameBuffer::new(2, 2);
    once.merge_fragments(&gs);
    let mut twice = FrameBuffer::new(2, 2);
    twice.merge_fragments(&gs);
    twice.merge_fragments(&gs);
    assert_eq!(once.cells(), twice.cells());
    for y in 0..2 {
        for x in 0..2 {
            assert_eq!(once.depth_at(x, y), twice.depth_at(x, y));
        }
    }
    assert_eq!(once.cell(0, 0).glyph, 'b');
}

#[test]
fn equal_depth_keeps_first_writer() {
    let mut fb = FrameBuffer::new(2, 1);
    fb.merge_fragments(&vec![frag(0, 0, 4, 'a', Hue::Red), frag(0, 0, 4, 'b', Hue::Blue)]);
    assert_eq!(fb.cell(0, 0).glyph, 'a');
}

#[test]
fn off_grid_fragments_are_dropped() {
    let mut fb = FrameBuffer::new(2, 2);
    fb.merge_fragments(&vec![frag(-1, 0, 0, 'a', Hue::Red), frag(2, 0, 0, 'b', Hue::Red), frag(0, 2, 0, 'c', Hue::Red)]);
    assert!(fb.cells().iter().all(|c| c.glyph == ' '));
}

#[test]
fn colour_runs_share_one_escape() {
    let red = Cell { glyph: '@', hue: Hue::Red };
    let blue = Cell { glyph: '#', hue: Hue::Blue };
    let blank = Cell { glyph: ' ', hue: Hue::Black };
    let s = encode_cells(&vec![red, red, blank, blue, red], &test_palette());
    assert_eq!(s, "<r>@@<0> <b>#<r>@<0>");
}

#[test]
fn blank_grid_has_no_escapes() {
    let blank = Cell { glyph: ' ', hue: Hue::Black };
    assert_eq!(encode_cells(&vec![blank, blank, blank], &test_palette()), "   ");
    assert_eq!(encode_cells(&vec![], &test_palette()), "");
}

#[test]
fn ansi_palette_escapes() {
    let p = Palette::ansi();
    assert_eq!(p.reset, "\x1b[0m");
    assert_eq!(p.colors.len(), 8);
    let numbers = ["0", "9", "10", "12", "11", "13", "14", "15"];
    for (c, n) in p.colors.iter().zip(numbers.iter()) {
        assert!(*c == format!("\x1b[38;5;{}m", n) || c == "\x1b[m", "escape {:?}", c);
    }
    let red = Cell { glyph: '@', hue: Hue::Red };
    let s = encode_cells(&vec![red], &p);
    assert_eq!(s, format!("{}@\x1b[0m", p.colors[1]));
}
