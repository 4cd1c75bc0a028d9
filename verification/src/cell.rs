//! A cell of a grid: its text and how it is to be drawn.

use crate::text::{has_no_break, is_closed, line_count, natural_width, split_lines, widest_of};
use vstd::prelude::*;

verus! {

/// Where a line stands within the width of its cell.
#[derive(Clone, Copy, Debug, PartialEq, Eq, Structural)]
pub enum Alignment {
    Center,
    Left,
    Right,
}

/// The glyphs of a cell's border.
pub struct BorderModel {
    pub top: Seq<char>,
    pub bottom: Seq<char>,
    pub left: Seq<char>,
    pub right: Seq<char>,
    pub corner: Seq<char>,
}

impl BorderModel {
    /// Whether each glyph of the border is one character.
    pub open spec fn is_single(self) -> bool {
        &&& self.top.len() == 1
        &&& self.bottom.len() == 1
        &&& self.left.len() == 1
        &&& self.right.len() == 1
        &&& self.corner.len() == 1
    }

    /// Whether the glyphs of the border keep the lines of a rendering
    /// apart: none holds a line feed, and the right side and the corner are
    /// not empty and do not end with a carriage return.
    pub open spec fn is_plain(self) -> bool {
        &&& has_no_break(self.top)
        &&& has_no_break(self.bottom)
        &&& has_no_break(self.left)
        &&& is_closed(self.right)
        &&& is_closed(self.corner)
    }
}

/// The blank lines above and below a cell's text, and the blanks left and
/// right of it.
pub struct PaddingModel {
    pub top: nat,
    pub bottom: nat,
    pub left: nat,
    pub right: nat,
}

/// What a cell is: the view of a [`Cell`].
pub struct CellModel {
    pub content: Seq<char>,
    pub alignment: Alignment,
    pub border: BorderModel,
    pub padding: PaddingModel,
    /// How many further columns to its right the cell takes up.
    pub span: nat,
}

impl CellModel {
    /// The cell that a new grid is filled with: no text, centred, a border
    /// of `-`, `|` and `+`, no padding, no span.
    pub open spec fn blank() -> CellModel {
        CellModel {
            content: Seq::empty(),
            alignment: Alignment::Center,
            border: BorderModel {
                top: seq!['-'],
                bottom: seq!['-'],
                left: seq!['|'],
                right: seq!['|'],
                corner: seq!['+'],
            },
            padding: PaddingModel { top: 0, bottom: 0, left: 0, right: 0 },
            span: 0,
        }
    }

    /// The number of lines of the cell's text.
    pub open spec fn height(self) -> nat {
        line_count(self.content)
    }

    /// The length of the longest line of the cell's text.
    pub open spec fn weight(self) -> nat {
        natural_width(self.content)
    }

    /// The blanks left and right of the text, together.
    pub open spec fn side_padding(self) -> nat {
        self.padding.left + self.padding.right
    }

    /// The blank lines above and below the text, together.
    pub open spec fn end_padding(self) -> nat {
        self.padding.top + self.padding.bottom
    }
}

/// The glyphs of a cell's border.
#[derive(Clone)]
struct Border {
    top: String,
    bottom: String,
    left: String,
    right: String,
    corner: String,
}

/// The padding of a cell: blank lines above and below its text, blanks left
/// and right of it.
#[derive(Clone, Copy)]
struct Ident {
    top: usize,
    bottom: usize,
    left: usize,
    right: usize,
}

/// A cell of a grid: a text of one or more lines, its alignment, the glyphs
/// of its border, its padding, and how many columns it spans.
#[derive(Clone)]
pub struct Cell {
    content: String,
    alignment: Alignment,
    border: Border,
    ident: Ident,
    span_row: usize,
}

impl View for Cell {
    type V = CellModel;

    closed spec fn view(&self) -> CellModel {
        CellModel {
            content: self.content@,
            alignment: self.alignment,
            border: BorderModel {
                top: self.border.top@,
                bottom: self.border.bottom@,
                left: self.border.left@,
                right: self.border.right@,
                corner: self.border.corner@,
            },
            padding: PaddingModel {
                top: self.ident.top as nat,
                bottom: self.ident.bottom as nat,
                left: self.ident.left as nat,
                right: self.ident.right as nat,
            },
            span: self.span_row as nat,
        }
    }
}

impl Cell {
    /// A blank cell.
    pub fn new() -> (cell: Cell)
        ensures
            cell@ == CellModel::blank(),
    {
        proof {
            reveal_strlit("-");
            reveal_strlit("|");
            reveal_strlit("+");
        }
        let cell = Cell {
            alignment: Alignment::Center,
            content: String::new(),
            border: Border {
                top: "-".to_owned(),
                bottom: "-".to_owned(),
                left: "|".to_owned(),
                right: "|".to_owned(),
                corner: "+".to_owned(),
            },
            ident: Ident { top: 0, bottom: 0, left: 0, right: 0 },
            span_row: 0,
        };
        assert(cell@.border.top =~= seq!['-']);
        assert(cell@.border.bottom =~= seq!['-']);
        assert(cell@.border.left =~= seq!['|']);
        assert(cell@.border.right =~= seq!['|']);
        assert(cell@.border.corner =~= seq!['+']);
        cell
    }

    /// Replaces the cell's text.
    pub fn set_content(&mut self, s: &str) -> (cell: &mut Self)
        ensures
            cell@ == (CellModel { content: s@, ..old(self)@ }),
            *final(self) == *final(cell),
    {
        self.content = s.to_owned();
        self
    }

    /// Replaces the glyph that stands at the corners of the cell's border.
    pub fn set_corner(&mut self, s: &str) -> (cell: &mut Self)
        ensures
            cell@ == (CellModel {
                border: BorderModel { corner: s@, ..old(self)@.border },
                ..old(self)@
            }),
            *final(self) == *final(cell),
    {
        self.border.corner = s.to_owned();
        self
    }

    /// Replaces the alignment of the cell's lines.
    pub fn set_alignment(&mut self, a: Alignment) -> (cell: &mut Self)
        ensures
            cell@ == (CellModel { alignment: a, ..old(self)@ }),
            *final(self) == *final(cell),
    {
        self.alignment = a;
        self
    }

    /// Sets the number of blank lines above the text, and below it, to `size`.
    pub fn set_vertical_ident(&mut self, size: usize) -> (cell: &mut Self)
        ensures
            cell@ == (CellModel {
                padding: PaddingModel {
                    top: size as nat,
                    bottom: size as nat,
                    ..old(self)@.padding
                },
                ..old(self)@
            }),
            *final(self) == *final(cell),
    {
        self.ident.top = size;
        self.ident.bottom = size;
        self
    }

    /// Sets the number of blanks left of the text, and right of it, to `size`.
    pub fn set_horizontal_ident(&mut self, size: usize) -> (cell: &mut Self)
        ensures
            cell@ == (CellModel {
                padding: PaddingModel {
                    left: size as nat,
                    right: size as nat,
                    ..old(self)@.padding
                },
                ..old(self)@
            }),
            *final(self) == *final(cell),
    {
        self.ident.left = size;
        self.ident.right = size;
        self
    }

    /// Sets how many further columns to its right the cell takes up.
    pub fn set_row_span(&mut self, size: usize) -> (cell: &mut Self)
        ensures
            cell@ == (CellModel { span: size as nat, ..old(self)@ }),
            *final(self) == *final(cell),
    {
        self.span_row = size;
        self
    }

    /// The number of lines of the cell's text.
    pub fn height(&self) -> (h: usize)
        ensures
            h == self@.height(),
    {
        let ls = split_lines(self.content.as_str());
        ls.len()
    }

    /// The length of the longest line of the cell's text.
    pub fn weight(&self) -> (w: usize)
        ensures
            w == self@.weight(),
    {
        let ls = split_lines(self.content.as_str());
        widest_of(&ls)
    }

    /// The cell's text.
    pub fn content(&self) -> (s: &str)
        ensures
            s@ == self@.content,
    {
        self.content.as_str()
    }

    /// The alignment of the cell's lines.
    pub fn alignment(&self) -> (a: Alignment)
        ensures
            a == self@.alignment,
    {
        self.alignment
    }

    /// How many further columns to its right the cell takes up.
    pub fn row_span(&self) -> (n: usize)
        ensures
            n == self@.span,
    {
        self.span_row
    }

    /// The blank lines above and below the text, and the blanks left and
    /// right of it, in this order.
    pub fn ident(&self) -> (p: (usize, usize, usize, usize))
        ensures
            p.0 == self@.padding.top,
            p.1 == self@.padding.bottom,
            p.2 == self@.padding.left,
            p.3 == self@.padding.right,
    {
        (self.ident.top, self.ident.bottom, self.ident.left, self.ident.right)
    }

    /// The glyphs of the border: top, bottom, left, right and corner.
    pub fn border(&self) -> (b: (&str, &str, &str, &str, &str))
        ensures
            b.0@ == self@.border.top,
            b.1@ == self@.border.bottom,
            b.2@ == self@.border.left,
            b.3@ == self@.border.right,
            b.4@ == self@.border.corner,
    {
        (
            self.border.top.as_str(),
            self.border.bottom.as_str(),
            self.border.left.as_str(),
            self.border.right.as_str(),
            self.border.corner.as_str(),
        )
    }
}

} // verus!
