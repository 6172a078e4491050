//! A copy of the visible terminal grid, taken once per frame: what the
//! painter draws and what link detection reads.

use vstd::prelude::*;

use crate::config::ResolvedConfig;
use crate::text::{str_eq, str_uppercase, uppercase};

verus! {

/// One painted cell. Colours are RGBA bytes (premultiplied, as the painter
/// stores them); `bg` is `None` for the default background, which lets the
/// window fill show through.
#[derive(Debug, Clone, Copy, PartialEq)]
pub struct SnapCell {
    pub ch: char,
    pub fg: [u8; 4],
    pub bg: Option<[u8; 4]>,
    pub bold: bool,
    pub italic: bool,
    pub underline: bool,
    pub strikeout: bool,
    pub hidden: bool,
    /// The first half of a double-width character.
    pub wide: bool,
    /// The second half of a double-width character.
    pub spacer: bool,
    pub selected: bool,
}

impl SnapCell {
    /// An empty cell: a space on the default background, transparent ink.
    pub fn blank() -> (r: SnapCell)
        ensures
            r.ch == ' ',
            r.fg@ == seq![0u8, 0u8, 0u8, 0u8],
            r.bg is None,
            !r.bold && !r.italic && !r.underline && !r.strikeout && !r.hidden,
            !r.wide && !r.spacer && !r.selected,
    {
        let r = SnapCell {
            ch: ' ',
            fg: [0, 0, 0, 0],
            bg: None,
            bold: false,
            italic: false,
            underline: false,
            strikeout: false,
            hidden: false,
            wide: false,
            spacer: false,
            selected: false,
        };
        assert(r.fg@ =~= seq![0u8, 0u8, 0u8, 0u8]);
        r
    }
}

/// How the cursor is drawn.
#[derive(Debug, Clone, Copy, PartialEq, Eq)]
pub enum CursorShape {
    Block,
    Underline,
    Beam,
    HollowBlock,
    Hidden,
}

/// The cursor a new terminal starts with.
#[derive(Debug, Clone, Copy, PartialEq, Eq)]
pub struct CursorStyle {
    pub shape: CursorShape,
    pub blinking: bool,
}

/// The shape that the `cursorShape` option names, matched without regard
/// to case: `BEAM`, `UNDERLINE`, and a block for anything else.
pub open spec fn cursor_shape_named(upper: Seq<char>) -> CursorShape {
    if upper == "BEAM"@ {
        CursorShape::Beam
    } else if upper == "UNDERLINE"@ {
        CursorShape::Underline
    } else {
        CursorShape::Block
    }
}

/// The cursor style that the resolved options ask for.
pub fn cursor_style_from(cfg: &ResolvedConfig) -> (r: CursorStyle)
    ensures
        r.shape == cursor_shape_named(str_uppercase(cfg.cursor_shape@)),
        r.blinking == cfg.cursor_blink,
{
    let upper = uppercase(cfg.cursor_shape.as_str());
    let shape = if str_eq(upper.as_str(), "BEAM") {
        CursorShape::Beam
    } else if str_eq(upper.as_str(), "UNDERLINE") {
        CursorShape::Underline
    } else {
        CursorShape::Block
    };
    CursorStyle { shape, blinking: cfg.cursor_blink }
}

/// Where the cursor is on screen.
#[derive(Debug, Clone, Copy, PartialEq, Eq)]
pub struct CursorSnap {
    pub row: usize,
    pub col: usize,
    pub shape: CursorShape,
    pub wide: bool,
}

/// Everything needed to paint one frame, row by row.
#[derive(Debug, Clone)]
pub struct GridSnapshot {
    pub cols: usize,
    pub lines: usize,
    /// `lines` rows of `cols` cells each.
    pub cells: Vec<SnapCell>,
    pub cursor: Option<CursorSnap>,
    pub display_offset: usize,
    pub history: usize,
}

impl GridSnapshot {
    /// The cells fill the grid exactly.
    pub open spec fn wf(&self) -> bool {
        self.cells@.len() == self.cols * self.lines
    }

    /// The cells of row `row`.
    pub open spec fn row_cells(&self, row: int) -> Seq<SnapCell> {
        self.cells@.subrange(row * self.cols, row * self.cols + self.cols)
    }

    /// The cell at `row`, `col`.
    pub fn cell(&self, row: usize, col: usize) -> (r: &SnapCell)
        requires
            self.wf(),
            row < self.lines,
            col < self.cols,
        ensures
            *r == self.row_cells(row as int)[col as int],
    {
        let ghost c = self.cols as int;
        let ghost l = self.lines as int;
        proof {
            assert(row * c + c <= c * l) by (nonlinear_arith)
                requires
                    0 <= row < l,
                    0 <= c,
            ;
        }
        let n: usize = self.cells.len();
        assert(row * c + col < n);
        let i: usize = row * self.cols + col;
        &self.cells[i]
    }
}

} // verus!
