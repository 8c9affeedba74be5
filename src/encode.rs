//! Serialisation of a composited frame to terminal text: glyphs row by row,
//! with a colour escape only where the colour of a run of glyphs changes.

use vstd::prelude::*;
use crossterm::style::{Color, ResetColor, SetForegroundColor};
use crate::mesh::Hue;
use crate::compose::Cell;

verus! {

/// The position of a colour in a palette's table of escapes.
pub open spec fn hue_slot(h: Hue) -> int {
    match h {
        Hue::Black => 0,
        Hue::Red => 1,
        Hue::Green => 2,
        Hue::Blue => 3,
        Hue::Yellow => 4,
        Hue::Magenta => 5,
        Hue::Cyan => 6,
        Hue::White => 7,
    }
}

/// The 256-colour palette number that the terminal uses for colour `h`.
pub open spec fn ansi_code(h: Hue) -> Seq<char> {
    match h {
        Hue::Black => seq!['0'],
        Hue::Red => seq!['9'],
        Hue::Green => seq!['1', '0'],
        Hue::Blue => seq!['1', '2'],
        Hue::Yellow => seq!['1', '1'],
        Hue::Magenta => seq!['1', '3'],
        Hue::Cyan => seq!['1', '4'],
        Hue::White => seq!['1', '5'],
    }
}

/// `c` is the escape that selects colour `h` as the foreground,
/// `ESC [ 3 8 ; 5 ; n m`, or the empty escape `ESC [ m` that stands in for
/// it when colour output is switched off.
pub open spec fn is_color_escape(h: Hue, c: Seq<char>) -> bool {
    c == seq!['\x1b', '[', 'm'] || c == seq!['\x1b', '[', '3', '8', ';', '5', ';'] + ansi_code(h) + seq!['m']
}

fn hue_index(h: Hue) -> (r: usize)
    ensures
        r == hue_slot(h),
{
    match h {
        Hue::Black => 0,
        Hue::Red => 1,
        Hue::Green => 2,
        Hue::Blue => 3,
        Hue::Yellow => 4,
        Hue::Magenta => 5,
        Hue::Cyan => 6,
        Hue::White => 7,
    }
}

/// The text that switches the terminal to each colour (indexed by
/// `hue_slot`), and the text that switches colour off.
pub struct Palette {
    pub colors: Vec<String>,
    pub reset: String,
}

impl Palette {
    pub open spec fn wf(&self) -> bool {
        self.colors@.len() == 8
    }

    /// The escape that selects colour `h`.
    pub open spec fn code(&self, h: Hue) -> Seq<char> {
        self.colors@[hue_slot(h)]@
    }

    /// The palette of the terminal's own ANSI escapes.
    pub fn ansi() -> (p: Palette)
        ensures
            p.wf(),
            p.reset@ == seq!['\x1b', '[', '0', 'm'],
            forall|h: Hue| is_color_escape(h, #[trigger] p.code(h)),
    {
        let colors = vec![
            foreground_sequence(Hue::Black),
            foreground_sequence(Hue::Red),
            foreground_sequence(Hue::Green),
            foreground_sequence(Hue::Blue),
            foreground_sequence(Hue::Yellow),
            foreground_sequence(Hue::Magenta),
            foreground_sequence(Hue::Cyan),
            foreground_sequence(Hue::White),
        ];
        let p = Palette { colors, reset: reset_sequence() };
        assert forall|h: Hue| is_color_escape(h, #[trigger] p.code(h)) by {
            match h {
                Hue::Black => assert(p.code(h) == p.colors@[0]@),
                Hue::Red => assert(p.code(h) == p.colors@[1]@),
                Hue::Green => assert(p.code(h) == p.colors@[2]@),
                Hue::Blue => assert(p.code(h) == p.colors@[3]@),
                Hue::Yellow => assert(p.code(h) == p.colors@[4]@),
                Hue::Magenta => assert(p.code(h) == p.colors@[5]@),
                Hue::Cyan => assert(p.code(h) == p.colors@[6]@),
                Hue::White => assert(p.code(h) == p.colors@[7]@),
            }
        }
        p
    }
}

/// Relies on crossterm's `SetForegroundColor` command as written by its
/// `Display` impl on Unix: `ESC [ 3 8 ; 5 ; n m` with the colour's palette
/// number `n`, or `ESC [ m` when the `NO_COLOR` variable is set. (On Windows
/// consoles without ANSI support crossterm writes nothing into the text.)
#[verifier::external_body]
fn foreground_sequence(h: Hue) -> (r: String)
    ensures
        is_color_escape(h, r@),
{
    let c = match h {
        Hue::Black => Color::Black,
        Hue::Red => Color::Red,
        Hue::Green => Color::Green,
        Hue::Blue => Color::Blue,
        Hue::Yellow => Color::Yellow,
        Hue::Magenta => Color::Magenta,
        Hue::Cyan => Color::Cyan,
        Hue::White => Color::White,
    };
    format!("{}", SetForegroundColor(c))
}

/// Relies on crossterm's `ResetColor` command as written by its `Display`
/// impl: on Unix the sequence `ESC [ 0 m`.
#[verifier::external_body]
fn reset_sequence() -> (r: String)
    ensures
        r@ == seq!['\x1b', '[', '0', 'm'],
{
    format!("{}", ResetColor)
}

/// Relies on `String::push`: appends one character.
#[verifier::external_body]
fn push_char(s: &mut String, c: char)
    ensures
        final(s)@ == old(s)@.push(c),
{
    s.push(c)
}

/// The text of the first `n` cells, and the colour left active after them
/// (`None` when no colour is active). A non-blank glyph is preceded by its
/// colour's escape only when that colour is not already active; a blank
/// cell ends any active colour and shows a space.
pub open spec fn encode_prefix(cells: Seq<Cell>, n: int, p: Palette) -> (Seq<char>, Option<Hue>)
    decreases n,
{
    if n <= 0 {
        (seq![], None)
    } else {
        let (text, active) = encode_prefix(cells, n - 1, p);
        let c = cells[n - 1];
        if c.glyph != ' ' {
            if active != Some(c.hue) {
                (text + p.code(c.hue) + seq![c.glyph], Some(c.hue))
            } else {
                (text.push(c.glyph), active)
            }
        } else {
            if active.is_some() {
                (text + p.reset@ + seq![' '], None)
            } else {
                (text.push(' '), None)
            }
        }
    }
}

/// The text of a whole grid of cells, ending with no colour active.
pub open spec fn encoded(cells: Seq<Cell>, p: Palette) -> Seq<char> {
    let (text, active) = encode_prefix(cells, cells.len() as int, p);
    if active.is_some() { text + p.reset@ } else { text }
}

/// Writes a row-major grid of cells as terminal text with colour runs.
pub fn encode_cells(cells: &Vec<Cell>, p: &Palette) -> (r: String)
    requires
        p.wf(),
    ensures
        r@ == encoded(cells@, *p),
{
    let mut out = String::new();
    let mut active: Option<Hue> = None;
    let mut i: usize = 0;
    while i < cells.len()
        invariant
            i <= cells@.len(),
            p.wf(),
            (out@, active) == encode_prefix(cells@, i as int, *p),
        decreases cells@.len() - i,
    {
        let c = cells[i];
        if c.glyph != ' ' {
            let same = match active {
                Some(h) => h == c.hue,
                None => false,
            };
            if !same {
                out.append(p.colors[hue_index(c.hue)].as_str());
                active = Some(c.hue);
            }
            push_char(&mut out, c.glyph);
        } else {
            if active.is_some() {
                out.append(p.reset.as_str());
                active = None;
            }
            push_char(&mut out, ' ');
        }
        i = i + 1;
        assert(out@ =~= encode_prefix(cells@, i as int, *p).0);
    }
    if active.is_some() {
        out.append(p.reset.as_str());
    }
    out
}

} // verus!
