//! Drawing one cell: its lines, aligned and padded, within its border.

use crate::cell::{Alignment, Cell, CellModel};
use crate::text::{
    has_no_break, is_closed, is_fenced, is_free_of, join_lines, joined, lemma_free_add,
    lemma_lines_free, lemma_lines_hold_no_break, lemma_no_break_add, lemma_occurrences_add,
    lemma_occurrences_none, lemma_repeated_add, lemma_repeated_holds_no_break, lemma_repeated_len,
    lemma_widest_bounds, lines, never_doubled, occurrences, owned_texts, push_repeated, push_spaces,
    repeated, spaces, split_lines, texts,
};
use vstd::prelude::*;

verus! {

/// A line within `width` characters. A line that is as long or longer stays
/// as it is. A centred line gets the odd blank on its right.
pub open spec fn aligned(line: Seq<char>, a: Alignment, width: nat) -> Seq<char> {
    if line.len() >= width {
        line
    } else {
        let gap = (width - line.len()) as nat;
        match a {
            Alignment::Left => line + spaces(gap),
            Alignment::Right => spaces(gap) + line,
            Alignment::Center => spaces(gap / 2) + line + spaces((gap - gap / 2) as nat),
        }
    }
}

/// `n` empty lines.
pub open spec fn blank_lines(n: nat) -> Seq<Seq<char>> {
    Seq::new(n, |i: int| Seq::<char>::empty())
}

/// How a cell is to be drawn: the view of a [`CellFormatter`].
pub struct FormatterModel {
    pub cell: CellModel,
    /// Whether the left border is drawn beside each line.
    pub left: bool,
    /// Whether the right border is drawn beside each line.
    pub right: bool,
    /// Whether a border line stands above the text.
    pub top: bool,
    /// Whether a border line stands below the text.
    pub bottom: bool,
    /// Whether the border lines begin with the corner glyph.
    pub left_connection: bool,
    /// Whether the border lines end with the corner glyph.
    pub right_connection: bool,
    /// The width given to the text; 0 stands for the width it takes by itself.
    pub weight: nat,
    /// The number of lines that the text is filled up to.
    pub height: nat,
}

impl FormatterModel {
    /// The formatter that [`CellFormatter::new`] makes: nothing of the border
    /// drawn, no width and no height given.
    pub open spec fn bare(cell: CellModel) -> FormatterModel {
        FormatterModel {
            cell,
            left: false,
            right: false,
            top: false,
            bottom: false,
            left_connection: false,
            right_connection: false,
            weight: 0,
            height: 0,
        }
    }

    /// The width of the text area.
    pub open spec fn width(self) -> nat {
        if self.weight == 0 {
            self.cell.weight()
        } else {
            self.weight
        }
    }

    /// The given width and the blanks left and right of the text.
    pub open spec fn full_weight(self) -> nat {
        self.weight + self.cell.padding.left + self.cell.padding.right
    }

    /// The lines between the border lines, before they are aligned: the
    /// padding above, the text, empty lines up to the height, the padding
    /// below. No line of the text is left out.
    pub open spec fn body(self) -> Seq<Seq<char>> {
        let text = lines(self.cell.content);
        let fill = if self.height > text.len() {
            (self.height - text.len()) as nat
        } else {
            0
        };
        blank_lines(self.cell.padding.top) + text + blank_lines(fill) + blank_lines(
            self.cell.padding.bottom,
        )
    }

    /// One line of the body as it is drawn: aligned, between its blanks and
    /// the borders that are drawn.
    pub open spec fn dressed(self, line: Seq<char>) -> Seq<char> {
        let left = if self.left {
            self.cell.border.left
        } else {
            Seq::empty()
        };
        let right = if self.right {
            self.cell.border.right
        } else {
            Seq::empty()
        };
        left + spaces(self.cell.padding.left) + aligned(line, self.cell.alignment, self.width())
            + spaces(self.cell.padding.right) + right
    }

    /// A border line made of `glyph`, between the corners that are drawn.
    pub open spec fn border_line(self, glyph: Seq<char>) -> Seq<char> {
        let lhs = if self.left_connection {
            self.cell.border.corner
        } else {
            Seq::empty()
        };
        let rhs = if self.right_connection {
            self.cell.border.corner
        } else {
            Seq::empty()
        };
        lhs + repeated(
            glyph,
            self.width() + self.cell.padding.left + self.cell.padding.right,
        ) + rhs
    }

    /// The border line above the text, where it is drawn.
    pub open spec fn head(self) -> Seq<Seq<char>> {
        if self.top {
            seq![self.border_line(self.cell.border.top)]
        } else {
            Seq::empty()
        }
    }

    /// The border line below the text, where it is drawn.
    pub open spec fn foot(self) -> Seq<Seq<char>> {
        if self.bottom {
            seq![self.border_line(self.cell.border.bottom)]
        } else {
            Seq::empty()
        }
    }

    /// The lines of the drawn cell.
    pub open spec fn block(self) -> Seq<Seq<char>> {
        self.head() + self.body().map_values(|l: Seq<char>| self.dressed(l)) + self.foot()
    }

    /// The drawn cell as one text, without a line feed at its end.
    pub open spec fn text(self) -> Seq<char> {
        joined(self.block())
    }

    /// The width of the drawn cell where each glyph of its border is one
    /// character: the text area, the blanks left and right of it, and the
    /// borders that are drawn.
    pub open spec fn box_width(self) -> nat {
        self.width() + self.cell.padding.left + self.cell.padding.right + if self.left {
            1nat
        } else {
            0nat
        } + if self.right {
            1nat
        } else {
            0nat
        }
    }
}

/// Aligns `text` within `length` characters.
pub fn align(text: &str, a: Alignment, length: usize) -> (out: String)
    ensures
        out@ == aligned(text@, a, length as nat),
{
    let n = text.unicode_len();
    let mut out = String::new();
    if n >= length {
        out.append(text);
        assert(out@ =~= text@);
        return out;
    }
    let gap = length - n;
    match a {
        Alignment::Left => {
            out.append(text);
            push_spaces(&mut out, gap);
            assert(out@ =~= text@ + spaces(gap as nat));
        },
        Alignment::Right => {
            push_spaces(&mut out, gap);
            out.append(text);
            assert(out@ =~= spaces(gap as nat) + text@);
        },
        Alignment::Center => {
            push_spaces(&mut out, gap / 2);
            out.append(text);
            push_spaces(&mut out, gap - gap / 2);
            assert(out@ =~= spaces((gap / 2) as nat) + text@ + spaces((gap - gap / 2) as nat));
        },
    }
    out
}

/// Draws one cell: a builder over a borrowed [`Cell`].
#[derive(Clone, Copy)]
pub struct CellFormatter<'a> {
    cell: &'a Cell,
    left: bool,
    right: bool,
    top: bool,
    bottom: bool,
    left_connection: bool,
    right_connection: bool,
    weight: usize,
    height: usize,
}

impl<'a> View for CellFormatter<'a> {
    type V = FormatterModel;

    closed spec fn view(&self) -> FormatterModel {
        FormatterModel {
            cell: self.cell@,
            left: self.left,
            right: self.right,
            top: self.top,
            bottom: self.bottom,
            left_connection: self.left_connection,
            right_connection: self.right_connection,
            weight: self.weight as nat,
            height: self.height as nat,
        }
    }
}

impl<'a> CellFormatter<'a> {
    /// A formatter that draws the text of `cell` alone.
    pub fn new(cell: &'a Cell) -> (f: Self)
        ensures
            f@ == FormatterModel::bare(cell@),
    {
        CellFormatter {
            cell: cell,
            left: false,
            right: false,
            top: false,
            bottom: false,
            left_connection: false,
            right_connection: false,
            weight: 0,
            height: 0,
        }
    }

    /// Leaves out the left border.
    pub fn un_left(self) -> (f: Self)
        ensures
            f@ == (FormatterModel { left: false, ..self@ }),
    {
        let mut f = self;
        f.left = false;
        f
    }

    /// Leaves out the corner at the left end of the border lines.
    pub fn un_left_connection(self) -> (f: Self)
        ensures
            f@ == (FormatterModel { left_connection: false, ..self@ }),
    {
        let mut f = self;
        f.left_connection = false;
        f
    }

    /// Leaves out the border line above the text.
    pub fn un_top(self) -> (f: Self)
        ensures
            f@ == (FormatterModel { top: false, ..self@ }),
    {
        let mut f = self;
        f.top = false;
        f
    }

    /// Leaves out the border line below the text.
    pub fn un_bottom(self) -> (f: Self)
        ensures
            f@ == (FormatterModel { bottom: false, ..self@ }),
    {
        let mut f = self;
        f.bottom = false;
        f
    }

    /// Draws the whole border: both sides, both border lines, both corners.
    pub fn boxed(self) -> (f: Self)
        ensures
            f@ == (FormatterModel {
                left: true,
                right: true,
                top: true,
                bottom: true,
                left_connection: true,
                right_connection: true,
                ..self@
            }),
    {
        let mut f = self;
        f.left = true;
        f.right = true;
        f.top = true;
        f.bottom = true;
        f.right_connection = true;
        f.left_connection = true;
        f
    }

    /// Gives the text a width of `w` characters; 0 leaves it the width that
    /// it takes by itself.
    pub fn weight(self, w: usize) -> (f: Self)
        ensures
            f@ == (FormatterModel { weight: w as nat, ..self@ }),
    {
        let mut f = self;
        f.weight = w;
        f
    }

    /// The given width and the blanks left and right of the text.
    pub fn full_weight(&self) -> (w: usize)
        requires
            self@.full_weight() <= usize::MAX,
        ensures
            w == self@.full_weight(),
    {
        let (_, _, left, right) = self.cell.ident();
        self.weight + left + right
    }

    /// Fills the text up to `h` lines.
    pub fn height(self, h: usize) -> (f: Self)
        ensures
            f@ == (FormatterModel { height: h as nat, ..self@ }),
    {
        let mut f = self;
        f.height = h;
        f
    }

    /// The given width, as [`CellFormatter::weight`] set it.
    pub fn given_weight(&self) -> (w: usize)
        ensures
            w == self@.weight,
    {
        self.weight
    }

    /// One line of the body as it is drawn.
    fn dress(&self, line: &str, width: usize) -> (out: String)
        requires
            width == self@.width(),
        ensures
            out@ == self@.dressed(line@),
    {
        let (_, _, pad_left, pad_right) = self.cell.ident();
        let (_, _, left, right, _) = self.cell.border();
        let mut out = String::new();
        if self.left {
            out.append(left);
        }
        push_spaces(&mut out, pad_left);
        let inner = align(line, self.cell.alignment(), width);
        out.append(inner.as_str());
        push_spaces(&mut out, pad_right);
        if self.right {
            out.append(right);
        }
        assert(out@ =~= self@.dressed(line@));
        out
    }

    /// A border line made of `glyph`.
    fn border_line(&self, glyph: &str, width: usize) -> (out: String)
        requires
            width == self@.width(),
        ensures
            out@ == self@.border_line(glyph@),
    {
        let (_, _, pad_left, pad_right) = self.cell.ident();
        let (_, _, _, _, corner) = self.cell.border();
        let mut out = String::new();
        if self.left_connection {
            out.append(corner);
        }
        push_repeated(&mut out, glyph, width);
        push_repeated(&mut out, glyph, pad_left);
        push_repeated(&mut out, glyph, pad_right);
        if self.right_connection {
            out.append(corner);
        }
        proof {
            lemma_repeated_add(glyph@, width as nat, pad_left as nat);
            lemma_repeated_add(glyph@, (width + pad_left) as nat, pad_right as nat);
            assert(out@ =~= self@.border_line(glyph@));
        }
        out
    }

    /// Appends `n` empty lines of the body, as they are drawn, to `out`, which
    /// holds `head` and the lines `raw` as they are drawn.
    fn push_blank(
        &self,
        out: &mut Vec<String>,
        n: usize,
        width: usize,
        Ghost(head): Ghost<Seq<Seq<char>>>,
        Ghost(raw): Ghost<Seq<Seq<char>>>,
    )
        requires
            width == self@.width(),
            owned_texts(old(out)@) == head + raw.map_values(|l: Seq<char>| self@.dressed(l)),
        ensures
            owned_texts(final(out)@) == head + (raw + blank_lines(n as nat)).map_values(
                |l: Seq<char>| self@.dressed(l),
            ),
    {
        let mut i: usize = 0;
        while i < n
            invariant
                i <= n,
                width == self@.width(),
                owned_texts(out@) == head + (raw + blank_lines(i as nat)).map_values(
                    |l: Seq<char>| self@.dressed(l),
                ),
            decreases n - i,
        {
            let line = self.dress("", width);
            proof {
                reveal_strlit("");
                assert(""@ =~= Seq::<char>::empty());
                assert(owned_texts(out@.push(line)) =~= owned_texts(out@).push(line@));
                assert(raw + blank_lines((i + 1) as nat) =~= (raw + blank_lines(i as nat)).push(
                    Seq::<char>::empty(),
                ));
                assert(owned_texts(out@).push(line@) =~= head + (raw + blank_lines(
                    (i + 1) as nat,
                )).map_values(|l: Seq<char>| self@.dressed(l)));
            }
            out.push(line);
            i = i + 1;
        }
        proof {
            assert(raw + blank_lines(0) =~= raw) by {
                assert(blank_lines(0).len() == 0);
            }
        }
    }

    /// The lines of the drawn cell.
    pub fn lines(&self) -> (out: Vec<String>)
        ensures
            owned_texts(out@) == self@.block(),
    {
        let c = self.cell;
        let width = if self.weight == 0 {
            c.weight()
        } else {
            self.weight
        };
        let (pad_top, pad_bottom, _, _) = c.ident();
        let (top, bottom, _, _, _) = c.border();
        let text = split_lines(c.content());
        let mut out: Vec<String> = Vec::new();
        if self.top {
            let line = self.border_line(top, width);
            out.push(line);
        }
        let ghost head = self@.head();
        let ghost dress = |l: Seq<char>| self@.dressed(l);
        assert(owned_texts(out@) =~= head + Seq::<Seq<char>>::empty().map_values(dress));
        self.push_blank(&mut out, pad_top, width, Ghost(head), Ghost(Seq::empty()));
        let ghost above = blank_lines(pad_top as nat);
        assert(Seq::<Seq<char>>::empty() + above =~= above);
        let mut i: usize = 0;
        while i < text.len()
            invariant
                i <= text.len(),
                width == self@.width(),
                texts(text@) == lines(self@.cell.content),
                dress == |l: Seq<char>| self@.dressed(l),
                owned_texts(out@) == head + (above + texts(text@).take(i as int)).map_values(dress),
            decreases text.len() - i,
        {
            let line = self.dress(text[i], width);
            proof {
                assert(owned_texts(out@.push(line)) =~= owned_texts(out@).push(line@));
                assert(above + texts(text@).take(i + 1) =~= (above + texts(text@).take(
                    i as int,
                )).push(text@[i as int]@));
                assert(owned_texts(out@).push(line@) =~= head + (above + texts(text@).take(
                    i + 1,
                )).map_values(dress));
            }
            out.push(line);
            i = i + 1;
        }
        assert(texts(text@).take(text.len() as int) =~= texts(text@));
        let fill = if self.height > text.len() {
            self.height - text.len()
        } else {
            0
        };
        let ghost raw = above + lines(self@.cell.content);
        self.push_blank(&mut out, fill, width, Ghost(head), Ghost(raw));
        self.push_blank(
            &mut out,
            pad_bottom,
            width,
            Ghost(head),
            Ghost(raw + blank_lines(fill as nat)),
        );
        assert(raw + blank_lines(fill as nat) + blank_lines(pad_bottom as nat) =~= self@.body());
        if self.bottom {
            let line = self.border_line(bottom, width);
            proof {
                assert(owned_texts(out@.push(line)) =~= owned_texts(out@).push(line@));
            }
            out.push(line);
        }
        assert(owned_texts(out@) =~= self@.block());
        out
    }

    /// The drawn cell as one text, without a line feed at its end.
    pub fn format(&self) -> (s: String)
        ensures
            s@ == self@.text(),
    {
        let ls = self.lines();
        join_lines(&ls)
    }
}

/// A drawn cell whose text has no more lines than its height takes the
/// border lines that are drawn, the padding above and below, and the height.
pub proof fn lemma_block_len(f: FormatterModel)
    requires
        f.cell.height() <= f.height,
    ensures
        f.block().len() == f.head().len() + f.cell.end_padding() + f.height + f.foot().len(),
        f.head().len() == if f.top {
            1nat
        } else {
            0nat
        },
        f.foot().len() == if f.bottom {
            1nat
        } else {
            0nat
        },
{
}

/// Every line of a drawn cell is as wide as its box, where each glyph of
/// the border is one character, the corners are drawn where the sides are,
/// and no line of the text is longer than the text area.
pub proof fn lemma_block_width(f: FormatterModel, i: int)
    requires
        f.cell.border.is_single(),
        f.left == f.left_connection,
        f.right == f.right_connection,
        f.cell.weight() <= f.width(),
        0 <= i < f.block().len(),
    ensures
        f.block()[i].len() == f.box_width(),
{
    let head = f.head();
    let body = f.body();
    let full = f.width() + f.cell.padding.left + f.cell.padding.right;
    lemma_repeated_len(f.cell.border.top, full);
    lemma_repeated_len(f.cell.border.bottom, full);
    if i < head.len() {
    } else if i < head.len() + body.len() {
        let line = body[i - head.len()];
        let text = lines(f.cell.content);
        let above = f.cell.padding.top as int;
        let j = i - head.len();
        assert(f.block()[i] == f.dressed(line));
        if above <= j < above + text.len() {
            assert(line == text[j - above]);
            lemma_widest_bounds(text, j - above);
        } else {
            assert(line.len() == 0);
        }
        assert(aligned(line, f.cell.alignment, f.width()).len() == f.width());
    } else {
    }
}

/// A line of the body as it is drawn closes a line, where it holds no line
/// feed, the glyphs of the border are plain and the right side is drawn.
pub proof fn lemma_dressed_closed(f: FormatterModel, line: Seq<char>)
    requires
        f.cell.border.is_plain(),
        f.right,
        has_no_break(line),
    ensures
        is_closed(f.dressed(line)),
{
    let left = if f.left {
        f.cell.border.left
    } else {
        Seq::empty()
    };
    let inner = aligned(line, f.cell.alignment, f.width());
    assert(has_no_break(inner));
    let a = left + spaces(f.cell.padding.left);
    lemma_no_break_add(left, spaces(f.cell.padding.left));
    lemma_no_break_add(a, inner);
    lemma_no_break_add(a + inner, spaces(f.cell.padding.right));
    lemma_no_break_add(a + inner + spaces(f.cell.padding.right), f.cell.border.right);
}

/// A border line closes a line, where its glyph holds no line feed, the
/// corner closes a line and the right corner is drawn.
pub proof fn lemma_border_line_closed(f: FormatterModel, glyph: Seq<char>)
    requires
        is_closed(f.cell.border.corner),
        f.right_connection,
        has_no_break(glyph),
    ensures
        is_closed(f.border_line(glyph)),
{
    let lhs = if f.left_connection {
        f.cell.border.corner
    } else {
        Seq::empty()
    };
    let full = f.width() + f.cell.padding.left + f.cell.padding.right;
    lemma_repeated_holds_no_break(glyph, full);
    lemma_no_break_add(lhs, repeated(glyph, full));
    lemma_no_break_add(lhs + repeated(glyph, full), f.cell.border.corner);
}

/// Every line of a drawn cell closes a line, where the glyphs of its border
/// are plain and its right side and right corners are drawn.
pub proof fn lemma_block_closed(f: FormatterModel, i: int)
    requires
        f.cell.border.is_plain(),
        f.right,
        f.right_connection,
        0 <= i < f.block().len(),
    ensures
        is_closed(f.block()[i]),
{
    let head = f.head();
    let body = f.body();
    if i < head.len() {
        lemma_border_line_closed(f, f.cell.border.top);
    } else if i < head.len() + body.len() {
        let j = i - head.len();
        let line = body[j];
        let text = lines(f.cell.content);
        let above = f.cell.padding.top as int;
        assert(f.block()[i] == f.dressed(line));
        if above <= j < above + text.len() {
            assert(line == text[j - above]);
            lemma_lines_hold_no_break(f.cell.content, 0, j - above);
        } else {
            assert(line.len() == 0);
        }
        lemma_dressed_closed(f, line);
    } else {
        lemma_border_line_closed(f, f.cell.border.bottom);
    }
}

/// An aligned line is free of a character that is no blank where the line
/// is free of it, and fills the width.
pub proof fn lemma_aligned_free(line: Seq<char>, a: Alignment, width: nat, c: char)
    requires
        is_free_of(line, c),
        c != ' ',
    ensures
        is_free_of(aligned(line, a, width), c),
        aligned(line, a, width).len() >= width,
{
}

/// The side glyph in a line of the body as it is drawn, where both sides
/// have the glyph `g`, which is no blank, the line is free of it and the
/// text area is not empty: it stands once for each side that is drawn,
/// nowhere twice in a row, at the end of the line, and at its beginning
/// only where the left side is drawn.
pub proof fn lemma_dressed_sides(f: FormatterModel, line: Seq<char>, g: char)
    requires
        f.cell.border.left == seq![g],
        f.cell.border.right == seq![g],
        f.right,
        g != ' ',
        is_free_of(line, g),
        f.width() >= 1,
    ensures
        occurrences(f.dressed(line), g) == 1 + if f.left {
            1nat
        } else {
            0nat
        },
        never_doubled(f.dressed(line), g),
        f.dressed(line).len() >= 2,
        f.dressed(line).last() == g,
        !f.left ==> f.dressed(line)[0] != g,
{
    let left = if f.left {
        f.cell.border.left
    } else {
        Seq::empty()
    };
    let text = aligned(line, f.cell.alignment, f.width());
    lemma_aligned_free(line, f.cell.alignment, f.width(), g);
    let inner = spaces(f.cell.padding.left) + text + spaces(f.cell.padding.right);
    lemma_free_add(spaces(f.cell.padding.left), text, g);
    lemma_free_add(spaces(f.cell.padding.left) + text, spaces(f.cell.padding.right), g);
    assert(inner.len() >= 1);
    let side = seq![g];
    assert(f.dressed(line) =~= left + inner + side);
    lemma_occurrences_none(inner, g);
    lemma_occurrences_add(left, inner, g);
    lemma_occurrences_add(left + inner, side, g);
    assert(occurrences(side, g) == 1) by {
        assert(side.drop_last() =~= Seq::<char>::empty());
        assert(occurrences(side.drop_last(), g) == 0);
    }
    if f.left {
        assert(left =~= side);
    } else {
        assert(occurrences(left, g) == 0);
    }
    let s = left + inner + side;
    assert forall|t: int| 0 <= t < s.len() - 1 implies !(s[t] == g && #[trigger] s[t + 1] == g) by {
        if t + 1 < left.len() + inner.len() {
            if t + 1 >= left.len() {
                assert(s[t + 1] == inner[t + 1 - left.len()]);
            } else {
                assert(left.len() == 1 && t + 1 < 1);
            }
        } else {
            assert(t == left.len() + inner.len() - 1);
            assert(s[t] == inner[t - left.len()]);
        }
    }
    if !f.left {
        assert(s[0] == inner[0]);
    }
}

/// A line of a drawn cell between its border lines is fenced by the side
/// glyph `g`, where both sides have that glyph, which is no blank, the
/// cell's text is free of it and the text area is not empty: the line holds
/// `g` once for each side that is drawn, nowhere twice in a row, and begins
/// with it only where the left side is drawn.
pub proof fn lemma_body_line_sides(f: FormatterModel, i: int, g: char)
    requires
        f.cell.border.left == seq![g],
        f.cell.border.right == seq![g],
        f.right,
        g != ' ',
        is_free_of(f.cell.content, g),
        f.width() >= 1,
        f.head().len() <= i < f.block().len() - f.foot().len(),
    ensures
        is_fenced(f.block()[i], g, if f.left {
            2
        } else {
            1
        }),
        !f.left ==> f.block()[i][0] != g,
{
    let body = f.body();
    let j = i - f.head().len();
    let line = body[j];
    let text = lines(f.cell.content);
    let above = f.cell.padding.top as int;
    assert(f.block()[i] == f.dressed(line));
    if above <= j < above + text.len() {
        assert(line == text[j - above]);
        lemma_lines_free(f.cell.content, 0, j - above, g);
    } else {
        assert(line.len() == 0);
    }
    lemma_dressed_sides(f, line, g);
}

/// The corner glyph marks the border lines of a drawn cell: where the
/// corner is the glyph `c`, which is no blank, the right corner is drawn,
/// and neither the sides nor the text hold `c`, each border line ends with
/// `c` and each line between them is free of it.
pub proof fn lemma_block_corners(f: FormatterModel, i: int, c: char)
    requires
        f.cell.border.corner == seq![c],
        f.right_connection,
        c != ' ',
        is_free_of(f.cell.border.left, c),
        is_free_of(f.cell.border.right, c),
        is_free_of(f.cell.content, c),
        0 <= i < f.block().len(),
    ensures
        f.head().len() <= i < f.block().len() - f.foot().len() ==> is_free_of(f.block()[i], c),
        !(f.head().len() <= i < f.block().len() - f.foot().len()) ==> f.block()[i].len() > 0
            && f.block()[i].last() == c,
{
    let head = f.head();
    let body = f.body();
    if i < head.len() {
        assert(f.block()[i] == f.border_line(f.cell.border.top));
    } else if i < head.len() + body.len() {
        let j = i - head.len();
        let line = body[j];
        let text = lines(f.cell.content);
        let above = f.cell.padding.top as int;
        assert(f.block()[i] == f.dressed(line));
        if above <= j < above + text.len() {
            assert(line == text[j - above]);
            lemma_lines_free(f.cell.content, 0, j - above, c);
        } else {
            assert(line.len() == 0);
        }
        lemma_aligned_free(line, f.cell.alignment, f.width(), c);
        let left = if f.left {
            f.cell.border.left
        } else {
            Seq::empty()
        };
        let right = if f.right {
            f.cell.border.right
        } else {
            Seq::empty()
        };
        let inner = aligned(line, f.cell.alignment, f.width());
        lemma_free_add(left, spaces(f.cell.padding.left), c);
        lemma_free_add(left + spaces(f.cell.padding.left), inner, c);
        lemma_free_add(
            left + spaces(f.cell.padding.left) + inner,
            spaces(f.cell.padding.right),
            c,
        );
        lemma_free_add(
            left + spaces(f.cell.padding.left) + inner + spaces(f.cell.padding.right),
            right,
            c,
        );
    } else {
        assert(f.block()[i] == f.border_line(f.cell.border.bottom));
    }
}

} // verus!
