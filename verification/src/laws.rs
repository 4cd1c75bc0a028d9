//! What holds of every rendering.

use crate::format::{
    lemma_block_closed, lemma_block_corners, lemma_block_len, lemma_block_width,
    lemma_body_line_sides, FormatterModel,
};
use crate::grid::{lemma_index_in_grid, Grid, GridModel};
use crate::layout::{lemma_balance_found, row_total, size_at, widths, SEARCH_LIMIT};
use crate::portion::lemma_share_bounds;
use crate::render::{
    blocks, extra, formatter_at, formatters, full_weights, lemma_even_extra,
    lemma_formatters_drawable, lemma_row_formatters_first, lemma_row_formatters_origin,
    lemma_row_formatters_unpadded, lemma_sum_with_more, lemma_widest_of_equals,
    lemma_widest_row_bounds, lines_upto, span_weight, text_of, widest_row, widths_of, LayoutError,
};
use crate::sums::sum;
use crate::table::{
    is_covered, lemma_shares_proper, lemma_table_wf, lemma_tallest_bounds, lemma_uncovered_len,
    uncovered, TableModel,
};
use crate::text::{
    all_plain, composed, is_closed, is_fenced, is_free_of, is_plain, lemma_line_across_closed,
    lemma_line_across_ends_with, lemma_line_across_fenced, lemma_line_across_free,
    lemma_line_across_len, lemma_lines_of_unlines, lemma_lines_with_add, lemma_lines_with_ends,
    lemma_never_adjacent_add, line_count, lines, lines_with, never_adjacent, never_doubled,
    occurrences, same_height, unlines,
};
use vstd::prelude::*;

verus! {

impl TableModel {
    /// The formatters of the cells that are drawn at the balanced width,
    /// before the rows are brought to one width.
    pub open spec fn measured(self) -> Seq<Seq<FormatterModel>> {
        formatters(self.cells, self.sizes(self.balanced_weight().unwrap()))
    }

    /// The formatters of the cells that are drawn at the balanced width.
    pub open spec fn drawn_cells(self) -> Seq<Seq<FormatterModel>> {
        self.formatters(self.balanced_weight().unwrap())
    }

    /// The lines of the rendering.
    pub open spec fn lines(self) -> Seq<Seq<char>> {
        lines_upto(self.drawn_cells(), self.cells.len() as int)
    }

    /// Whether each glyph of the border of each drawn cell is one character.
    pub open spec fn has_single_glyphs(self) -> bool {
        forall|r: int, k: int|
            0 <= r < self.cells.len() && 0 <= k < self.drawn_cells()[r].len() ==> (
            #[trigger] self.drawn_cells()[r][k]).cell.border.is_single()
    }

    /// Whether the rows begin alike: each with its left border, or each
    /// without, as the first row does.
    pub open spec fn begins_alike(self) -> bool {
        forall|r: int|
            0 <= r < self.cells.len() ==> (#[trigger] self.drawn_cells()[r])[0].left
                == self.drawn_cells()[0][0].left
    }

    /// Whether no line of the rendering holds a line feed or ends with a
    /// carriage return, so that the lines of its text are the lines that
    /// were drawn.
    pub open spec fn has_plain_lines(self) -> bool {
        all_plain(self.lines())
    }

    /// Whether what each row lacks to the widest row is a multiple of the
    /// number of its drawn cells, so that it can be spread evenly.
    pub open spec fn spreads_evenly(self) -> bool {
        forall|r: int|
            0 <= r < self.cells.len() ==> (widest_row(self.measured(), self.cells.len() as int)
                - span_weight(#[trigger] self.measured()[r])) % (self.measured()[r].len() as int)
                == 0
    }

    /// The width of the rendering where its lines are equally long: the
    /// width of the widest row, the right border of the grid, and the left
    /// border where the first row has it.
    pub open spec fn outer_width(self) -> int {
        let left = if self.drawn_cells()[0][0].left {
            1int
        } else {
            0int
        };
        widest_row(self.measured(), self.cells.len() as int) + 1 + left
    }

    /// Whether the glyphs of the border of each drawn cell are plain.
    pub open spec fn has_plain_glyphs(self) -> bool {
        forall|r: int, k: int|
            0 <= r < self.cells.len() && 0 <= k < self.drawn_cells()[r].len() ==> (
            #[trigger] self.drawn_cells()[r][k]).cell.border.is_plain()
    }

    /// Whether the border of each cell that is not covered has plain glyphs
    /// of one character each.
    pub open spec fn has_plain_cells(self) -> bool {
        forall|r: int, k: int|
            0 <= r < self.cells.len() && 0 <= k < self.cells[r].len() ==> (
            #[trigger] self.cells[r][k]).border.is_plain() && self.cells[r][k].border.is_single()
    }

    /// Whether no cell that is not covered has blanks left or right of its
    /// text.
    pub open spec fn has_no_side_padding(self) -> bool {
        forall|r: int, k: int|
            0 <= r < self.cells.len() && 0 <= k < self.cells[r].len() ==> (
            #[trigger] self.cells[r][k]).side_padding() == 0
    }

    /// Whether the first cells of the rows are alike: each has a share of
    /// the width, or none has, as in the first row. The first cell of a row
    /// has no share where the first cells of all rows of its block are empty.
    pub open spec fn has_like_first_shares(self) -> bool {
        forall|r: int|
            0 <= r < self.cells.len() ==> ((#[trigger] self.shares()[r])[0].part > 0) == (
            self.shares()[0][0].part > 0)
    }

    /// The lines that row `r` takes in the rendering.
    pub open spec fn row_lines(self, r: int) -> Seq<Seq<char>> {
        composed(blocks(self.drawn_cells()[r]))
    }

    /// The number of border lines above the text of row `r`: one for the
    /// first row, none for the others.
    pub open spec fn top_lines(self, r: int) -> int {
        if r == 0 {
            1
        } else {
            0
        }
    }

    /// Whether both sides of each drawn cell of row `r` have the glyph `g`,
    /// which is no blank, and the text of none of them holds `g`.
    pub open spec fn has_sides(self, r: int, g: char) -> bool {
        &&& g != ' '
        &&& forall|k: int|
            0 <= k < self.drawn_cells()[r].len() ==> {
                let cell = (#[trigger] self.drawn_cells()[r][k]).cell;
                &&& cell.border.left == seq![g]
                &&& cell.border.right == seq![g]
                &&& is_free_of(cell.content, g)
            }
    }

    /// Whether the corner of each drawn cell of row `r` is the glyph `c`,
    /// which is no blank, and neither the sides nor the text of any of them
    /// hold `c`.
    pub open spec fn has_corners(self, r: int, c: char) -> bool {
        &&& c != ' '
        &&& forall|k: int|
            0 <= k < self.drawn_cells()[r].len() ==> {
                let cell = (#[trigger] self.drawn_cells()[r][k]).cell;
                &&& cell.border.corner == seq![c]
                &&& is_free_of(cell.border.left, c)
                &&& is_free_of(cell.border.right, c)
                &&& is_free_of(cell.content, c)
            }
    }

    /// Whether each row has the corner `c`, held by nothing else in it.
    pub open spec fn has_corners_throughout(self, c: char) -> bool {
        forall|r: int| 0 <= r < self.cells.len() ==> #[trigger] self.has_corners(r, c)
    }

    /// Whether each row has a line between its border lines: a line of text
    /// or of padding.
    pub open spec fn has_text_lines(self) -> bool {
        forall|r: int|
            0 <= r < self.cells.len() ==> (#[trigger] self.heights()[r])
                + self.drawn_cells()[r][0].cell.end_padding() >= 1
    }

    /// The number of lines of the rendering above those of row `r`.
    pub open spec fn lines_above(self, r: int) -> int {
        lines_upto(self.drawn_cells(), r).len() as int
    }
}

/// The lines that the texts of the first `n` rows take: for each row its
/// height, and the padding above and below the text of its first drawn cell.
pub open spec fn content_lines(table: TableModel, rows: Seq<Seq<FormatterModel>>, n: int) -> nat
    decreases n,
{
    if n <= 0 {
        0
    } else {
        content_lines(table, rows, n - 1) + table.heights()[n - 1] + rows[n
            - 1][0].cell.end_padding()
    }
}

/// Rendering is a function of the grid: what two renderings of one grid
/// give is the same text, or the same reason why there is none.
pub proof fn lemma_render_repeats(
    grid: Grid,
    first: Result<String, LayoutError>,
    second: Result<String, LayoutError>,
)
    requires
        text_of(first) == grid@.rendered(),
        text_of(second) == grid@.rendered(),
    ensures
        text_of(first) == text_of(second),
{
}

/// Two rows that agree in every cell that is not covered have the same
/// uncovered cells.
pub proof fn lemma_uncovered_agree<T>(a: Seq<T>, b: Seq<T>, pattern: Seq<nat>, n: int)
    requires
        0 <= n <= a.len(),
        a.len() == b.len(),
        forall|j: int| 0 <= j < n && !is_covered(pattern, j) ==> a[j] == b[j],
    ensures
        uncovered(a, pattern, n) == uncovered(b, pattern, n),
    decreases n,
{
    if n > 0 {
        lemma_uncovered_agree(a, b, pattern, n - 1);
    }
}

/// Two grids of one size that agree in the span of every cell of row `i`,
/// and in every cell of that row that is not covered, have the same spans
/// and the same uncovered cells in that row.
pub proof fn lemma_rows_agree(a: GridModel, b: GridModel, i: int)
    requires
        a.wf(),
        b.wf(),
        a.rows == b.rows,
        a.columns == b.columns,
        0 <= i < a.rows,
        forall|j: int| 0 <= j < a.columns ==> (#[trigger] a.at(i, j)).span == b.at(i, j).span,
        forall|j: int|
            0 <= j < a.columns && !a.covers(i, j) ==> #[trigger] a.at(i, j) == b.at(i, j),
    ensures
        a.pattern(i) == b.pattern(i),
        a.visible(i) == b.visible(i),
{
    lemma_index_in_grid(a.rows, a.columns, i as nat, a.columns);
    assert forall|j: int| 0 <= j < a.columns implies a.pattern(i)[j] == b.pattern(i)[j] by {
        assert(a.row(i)[j] == a.at(i, j));
        assert(b.row(i)[j] == b.at(i, j));
    }
    assert(a.pattern(i) =~= b.pattern(i));
    assert forall|j: int| 0 <= j < a.columns && !is_covered(a.pattern(i), j) implies a.row(i)[j]
        == b.row(i)[j] by {
        assert(!a.covers(i, j));
        assert(a.row(i)[j] == a.at(i, j));
        assert(b.row(i)[j] == b.at(i, j));
    }
    lemma_uncovered_agree(a.row(i), b.row(i), a.pattern(i), a.columns as int);
}

/// Nothing of a covered cell shows: two grids of one size that agree in the
/// span of every cell, and in every cell that is not covered, are rendered
/// alike.
pub proof fn lemma_covered_cells_do_not_show(a: GridModel, b: GridModel)
    requires
        a.wf(),
        b.wf(),
        a.rows == b.rows,
        a.columns == b.columns,
        forall|i: int, j: int|
            0 <= i < a.rows && 0 <= j < a.columns ==> (#[trigger] a.at(i, j)).span == b.at(
                i,
                j,
            ).span,
        forall|i: int, j: int|
            0 <= i < a.rows && 0 <= j < a.columns && !a.covers(i, j) ==> #[trigger] a.at(i, j)
                == b.at(i, j),
    ensures
        a.rendered() == b.rendered(),
{
    assert forall|i: int| 0 <= i < a.rows implies #[trigger] a.pattern(i) == b.pattern(i) by {
        lemma_rows_agree(a, b, i);
    }
    assert forall|i: int| 0 <= i < a.rows implies #[trigger] a.visible(i) == b.visible(i) by {
        lemma_rows_agree(a, b, i);
    }
    assert(a.table().patterns =~= b.table().patterns);
    assert(a.table().cells =~= b.table().cells);
    assert(a.table() == b.table());
}

/// The position, among the cells of row `r`, of the cell that the formatter
/// at position `k` of the row is made for.
pub proof fn lemma_formatter_source(table: TableModel, weight: nat, r: int, k: int) -> (i: int)
    requires
        table.wf(),
        0 <= r < table.cells.len(),
        0 <= k < table.formatters(weight)[r].len(),
    ensures
        k <= i < table.cells[r].len(),
        table.sizes(weight)[r][i].0 > 0,
        formatters(table.cells, table.sizes(weight))[r][k] == formatter_at(
            table.cells[r][i],
            r,
            i,
            table.sizes(weight)[r][i],
        ),
        table.formatters(weight)[r][k] == (FormatterModel {
            weight: table.formatters(weight)[r][k].weight,
            ..formatter_at(table.cells[r][i], r, i, table.sizes(weight)[r][i])
        }),
{
    let sizes = table.sizes(weight);
    let before = formatters(table.cells, sizes);
    lemma_row_formatters_origin(table.cells[r], r, sizes[r], table.cells[r].len() as int, k);
    choose|i: int|
        k <= i < table.cells[r].len() && sizes[r][i].0 > 0 && before[r][k]
            == #[trigger] formatter_at(table.cells[r][i], r, i, sizes[r][i])
}

/// No border is drawn twice. In a row, every cell draws its right border
/// and right corners, and no cell but the first its left border and left
/// corners. Every cell draws the border line below it, and no cell but
/// those of the first row the border line above it.
pub proof fn lemma_borders_not_doubled(table: TableModel, weight: nat, r: int, k: int)
    requires
        table.wf(),
        0 <= r < table.cells.len(),
        0 <= k < table.formatters(weight)[r].len(),
    ensures
        table.formatters(weight)[r][k].right,
        table.formatters(weight)[r][k].right_connection,
        table.formatters(weight)[r][k].bottom,
        k > 0 ==> !table.formatters(weight)[r][k].left,
        k > 0 ==> !table.formatters(weight)[r][k].left_connection,
        r > 0 ==> !table.formatters(weight)[r][k].top,
{
    let sizes = table.sizes(weight);
    let before = formatters(table.cells, sizes);
    lemma_row_formatters_origin(table.cells[r], r, sizes[r], table.cells[r].len() as int, k);
    let i = choose|i: int|
        k <= i < table.cells[r].len() && sizes[r][i].0 > 0 && before[r][k]
            == #[trigger] formatter_at(table.cells[r][i], r, i, sizes[r][i]);
}

/// Every line of the first `n` rows is plain, where the glyphs of the
/// borders are.
pub proof fn lemma_lines_upto_plain(table: TableModel, n: int, i: int)
    requires
        table.wf(),
        table.rendered() is Ok,
        table.has_plain_glyphs(),
        0 <= n <= table.cells.len(),
        0 <= i < lines_upto(table.drawn_cells(), n).len(),
    ensures
        is_plain(lines_upto(table.drawn_cells(), n)[i]),
    decreases n,
{
    let rows = table.drawn_cells();
    let above = lines_upto(rows, n - 1);
    if i < above.len() {
        lemma_lines_upto_plain(table, n - 1, i);
    } else {
        let r = n - 1;
        let at = i - above.len();
        let weight = table.balanced_weight().unwrap();
        lemma_row_line_count(table, r);
        let drawn = blocks(rows[r]);
        assert(same_height(drawn));
        assert forall|k: int| 0 <= k < rows[r].len() implies (0 <= at && at < (
        #[trigger] drawn[k]).len()) && is_closed(drawn[k][at]) by {
            assert(drawn[k].len() == drawn[0].len());
            lemma_borders_not_doubled(table, weight, r, k);
            lemma_block_closed(rows[r][k], at);
        }
        lemma_line_across_closed(drawn, at, rows[r].len());
    }
}

/// The lines of a rendering are plain where the glyphs of the borders are.
pub proof fn lemma_plain_glyphs_draw_plain_lines(table: TableModel)
    requires
        table.wf(),
        table.rendered() is Ok,
        table.has_plain_glyphs(),
    ensures
        table.has_plain_lines(),
{
    assert forall|i: int| 0 <= i < table.lines().len() implies is_plain(
        #[trigger] table.lines()[i],
    ) by {
        lemma_lines_upto_plain(table, table.cells.len() as int, i);
    }
}

/// The lines of the text of a rendering are the lines that were drawn,
/// where none of them holds a line feed or ends with a carriage return.
pub proof fn lemma_lines_of_rendering(table: TableModel)
    requires
        table.rendered() is Ok,
        table.has_plain_lines(),
    ensures
        table.rendered() == Ok::<Seq<char>, LayoutError>(unlines(table.lines())),
        lines(unlines(table.lines())) == table.lines(),
{
    lemma_lines_of_unlines(table.lines());
}

/// The number of lines of the drawn row `r`, and that its drawn cells have
/// the same padding above and below together.
pub proof fn lemma_row_line_count(table: TableModel, r: int)
    requires
        table.wf(),
        table.rendered() is Ok,
        0 <= r < table.cells.len(),
    ensures
        ({
            let rows = table.formatters(table.balanced_weight().unwrap());
            &&& rows[r].len() >= 1
            &&& composed(blocks(rows[r])).len() == table.heights()[r]
                + rows[r][0].cell.end_padding() + if r == 0 {
                2nat
            } else {
                1nat
            }
            &&& forall|k: int|
                0 <= k < rows[r].len() ==> (#[trigger] rows[r][k]).cell.end_padding()
                    == rows[r][0].cell.end_padding()
        }),
{
    let weight = table.balanced_weight().unwrap();
    let rows = table.formatters(weight);
    lemma_balance_found(
        table.shares(),
        table.natural_weight(),
        SEARCH_LIMIT as nat,
    );
    lemma_formatters_drawable(table, weight);
    assert(rows[r].len() == formatters(table.cells, table.sizes(weight))[r].len());
    assert(same_height(blocks(rows[r])));
    assert forall|k: int| 0 <= k < rows[r].len() implies (#[trigger] rows[r][k]).block().len()
        == table.heights()[r] + rows[r][k].cell.end_padding() + if r == 0 {
        2nat
    } else {
        1nat
    } by {
        let i = lemma_formatter_source(table, weight, r, k);
        lemma_tallest_bounds(table.cells[r], i);
        lemma_block_len(rows[r][k]);
    }
    assert forall|k: int| 0 <= k < rows[r].len() implies (#[trigger] rows[r][k]).cell.end_padding()
        == rows[r][0].cell.end_padding() by {
        assert(blocks(rows[r])[k].len() == blocks(rows[r])[0].len());
        assert(rows[r][0].block().len() == table.heights()[r] + rows[r][0].cell.end_padding()
            + if r == 0 {
            2nat
        } else {
            1nat
        });
    }
    assert(blocks(rows[r])[0] == rows[r][0].block());
}

/// The number of lines of the first `n` rows: the lines that their texts
/// take, one border line between each two rows, and the border lines above
/// the first and below the last.
pub proof fn lemma_lines_upto_count(table: TableModel, n: int)
    requires
        table.wf(),
        table.rendered() is Ok,
        0 < n <= table.cells.len(),
    ensures
        lines_upto(table.drawn_cells(), n).len() == content_lines(table, table.drawn_cells(), n)
            + (n - 1) + 2,
    decreases n,
{
    let rows = table.drawn_cells();
    lemma_row_line_count(table, n - 1);
    if n > 1 {
        lemma_lines_upto_count(table, n - 1);
    } else {
        assert(lines_upto(rows, 0).len() == 0);
        assert(content_lines(table, rows, 0) == 0);
    }
}

/// The number of lines of a rendering: for each row its height and the
/// padding above and below its text, one border line between each two rows,
/// and the border lines above the first row and below the last. This holds
/// of a grid that has a row and a column, where no drawn line holds a line
/// feed or ends with a carriage return.
pub proof fn lemma_rendering_line_count(grid: GridModel, text: Seq<char>)
    requires
        grid.wf(),
        grid.rows > 0,
        grid.columns > 0,
        grid.rendered() == Ok::<Seq<char>, LayoutError>(text),
        grid.table().has_plain_lines(),
    ensures
        line_count(text) == content_lines(
            grid.table(),
            grid.table().drawn_cells(),
            grid.rows as int,
        )
            + (grid.rows - 1) + 2,
{
    let table = grid.table();
    lemma_table_wf(grid);
    lemma_lines_of_rendering(table);
    lemma_lines_upto_count(table, grid.rows as int);
}

/// The sum of numbers that are each those of another row and one more, and
/// `first` more for the first.
pub proof fn lemma_sum_of_boxes(boxes: Seq<nat>, fulls: Seq<nat>, first: nat, k: int)
    requires
        0 <= k <= boxes.len(),
        boxes.len() == fulls.len(),
        forall|j: int|
            0 <= j < boxes.len() ==> (#[trigger] boxes[j]) == fulls[j] + 1 + if j == 0 {
                first
            } else {
                0nat
            },
    ensures
        sum(boxes.take(k)) == sum(fulls.take(k)) + k + if k > 0 {
            first
        } else {
            0nat
        },
    decreases k,
{
    if k > 0 {
        lemma_sum_of_boxes(boxes, fulls, first, k - 1);
        assert(boxes.take(k).drop_last() =~= boxes.take(k - 1));
        assert(fulls.take(k).drop_last() =~= fulls.take(k - 1));
    }
}

/// Where what a row lacks to the widest spreads evenly, its cells got no
/// less than they had, and their full weights with one character for each
/// make the width of the widest row and one more.
pub proof fn lemma_row_is_filled(table: TableModel, r: int)
    requires
        table.wf(),
        table.rendered() is Ok,
        table.spreads_evenly(),
        0 <= r < table.cells.len(),
    ensures
        table.drawn_cells()[r].len() == table.measured()[r].len(),
        table.drawn_cells()[r].len() >= 1,
        sum(full_weights(table.drawn_cells()[r])) + table.drawn_cells()[r].len() == widest_row(
            table.measured(),
            table.cells.len() as int,
        ) + 1,
        forall|k: int|
            0 <= k < table.drawn_cells()[r].len() ==> (#[trigger] table.drawn_cells()[r][k]).weight
                >= table.measured()[r][k].weight,
{
    let weight = table.balanced_weight().unwrap();
    let n = table.cells.len() as int;
    let before = table.measured();
    let after = table.drawn_cells();
    lemma_balance_found(table.shares(), table.natural_weight(), SEARCH_LIMIT as nat);
    lemma_formatters_drawable(table, weight);
    let count = before[r].len() as int;
    let target = widest_row(before, n);
    let lack = target - span_weight(before[r]);
    lemma_widest_row_bounds(before, n, r);
    lemma_even_extra(lack, count);
    let more = extra(before[r], target);
    assert(more == lack / count);
    assert(more >= 0) by {
        vstd::arithmetic::div_mod::lemma_div_pos_is_pos(lack, count);
    }
    assert forall|k: int| 0 <= k < count implies (#[trigger] after[r][k]).full_weight()
        == before[r][k].full_weight() + more as nat by {}
    lemma_sum_with_more(before[r], after[r], more as nat);
    assert(count * more == count * (lack / count));
}

/// Every line of a drawn cell is as wide as its full weight and its right
/// border, and its left border where it is the first of its row and the
/// rows have one.
pub proof fn lemma_drawn_cell_width(table: TableModel, r: int, k: int, i: int)
    requires
        table.wf(),
        table.rendered() is Ok,
        table.has_single_glyphs(),
        table.begins_alike(),
        table.spreads_evenly(),
        0 <= r < table.cells.len(),
        0 <= k < table.drawn_cells()[r].len(),
        0 <= i < table.drawn_cells()[r][k].block().len(),
    ensures
        table.drawn_cells()[r][k].block()[i].len() == table.drawn_cells()[r][k].full_weight() + 1
            + if k == 0 && table.drawn_cells()[0][0].left {
            1nat
        } else {
            0nat
        },
{
    let weight = table.balanced_weight().unwrap();
    let shares = table.shares();
    let f = table.drawn_cells()[r][k];
    lemma_balance_found(shares, table.natural_weight(), SEARCH_LIMIT as nat);
    lemma_shares_proper(table);
    lemma_row_is_filled(table, r);
    let j = lemma_formatter_source(table, weight, r, k);
    assert(table.measured()[r][k].weight == shares[r][j].of(weight));
    lemma_share_bounds(weight, shares[r][j].part, shares[r][j].whole);
    assert(f.weight >= table.measured()[r][k].weight);
    assert(f.cell.weight() <= f.width());
    assert(f.cell.border.is_single());
    lemma_block_width(f, i);
    if k == 0 {
        assert(table.drawn_cells()[r][0].left == table.drawn_cells()[0][0].left);
    } else {
        lemma_borders_not_doubled(table, weight, r, k);
    }
}

/// Every line of a drawn row is as wide as the widest row and the borders
/// of the grid.
pub proof fn lemma_row_width(table: TableModel, r: int, i: int)
    requires
        table.wf(),
        table.rendered() is Ok,
        table.has_single_glyphs(),
        table.begins_alike(),
        table.spreads_evenly(),
        0 <= r < table.cells.len(),
        0 <= i < composed(blocks(table.drawn_cells()[r])).len(),
    ensures
        composed(blocks(table.drawn_cells()[r]))[i].len() == table.outer_width(),
{
    let row = table.drawn_cells()[r];
    lemma_row_is_filled(table, r);
    let count = row.len() as int;
    let fulls = full_weights(row);
    let first = if table.drawn_cells()[0][0].left {
        1nat
    } else {
        0nat
    };
    let boxes = Seq::new(row.len(), |k: int| fulls[k] + 1 + if k == 0 {
        first
    } else {
        0nat
    });
    let drawn = blocks(row);
    assert(same_height(drawn));
    assert forall|k: int| 0 <= k < count implies (0 <= i && i < (#[trigger] drawn[k]).len())
        && drawn[k][i].len() == boxes[k] by {
        assert(drawn[k].len() == drawn[0].len());
        assert(drawn[k] == row[k].block());
        lemma_drawn_cell_width(table, r, k, i);
    }
    lemma_line_across_len(drawn, boxes, i, count as nat);
    lemma_sum_of_boxes(boxes, fulls, first, count);
    assert(boxes.take(count) =~= boxes);
    assert(fulls.take(count) =~= fulls);
}

/// Every line of the first `n` rows is as wide as the widest row and the
/// borders of the grid.
pub proof fn lemma_lines_upto_width(table: TableModel, n: int, i: int)
    requires
        table.wf(),
        table.rendered() is Ok,
        table.has_single_glyphs(),
        table.begins_alike(),
        table.spreads_evenly(),
        0 <= n <= table.cells.len(),
        0 <= i < lines_upto(table.drawn_cells(), n).len(),
    ensures
        lines_upto(table.drawn_cells(), n)[i].len() == table.outer_width(),
    decreases n,
{
    let above = lines_upto(table.drawn_cells(), n - 1);
    if i < above.len() {
        lemma_lines_upto_width(table, n - 1, i);
    } else {
        lemma_row_width(table, n - 1, i - above.len());
    }
}

/// The rendering is a rectangle: where each glyph of the borders is one
/// character, the rows begin alike, and what each row lacks to the widest
/// can be spread evenly over its cells, all drawn lines are equally long.
pub proof fn lemma_lines_equally_long(table: TableModel, i: int, j: int)
    requires
        table.wf(),
        table.rendered() is Ok,
        table.has_single_glyphs(),
        table.begins_alike(),
        table.spreads_evenly(),
        0 <= i < table.lines().len(),
        0 <= j < table.lines().len(),
    ensures
        table.lines()[i].len() == table.lines()[j].len(),
{
    lemma_lines_upto_width(table, table.cells.len() as int, i);
    lemma_lines_upto_width(table, table.cells.len() as int, j);
}

/// A rendering is a rectangle: every line of its text is as long as every
/// other. This holds where no drawn line holds a line feed or ends with a
/// carriage return, each glyph of the borders is one character, the rows
/// begin alike, with their left border or without, and what each row lacks
/// to the widest can be spread evenly over its cells.
pub proof fn lemma_rendering_is_rectangular(grid: GridModel, text: Seq<char>, i: int, j: int)
    requires
        grid.wf(),
        grid.rendered() == Ok::<Seq<char>, LayoutError>(text),
        grid.table().has_plain_lines(),
        grid.table().has_single_glyphs(),
        grid.table().begins_alike(),
        grid.table().spreads_evenly(),
        0 <= i < line_count(text),
        0 <= j < line_count(text),
    ensures
        lines(text)[i].len() == lines(text)[j].len(),
{
    if grid.rows == 0 || grid.columns == 0 {
        assert(lines(text).len() == 0);
    } else {
        let table = grid.table();
        lemma_table_wf(grid);
        lemma_lines_of_rendering(table);
        lemma_lines_equally_long(table, i, j);
    }
}

/// The drawn cells are cells of the table: where each cell has a border of
/// plain glyphs of one character, each drawn cell has.
pub proof fn lemma_drawn_glyphs(table: TableModel)
    requires
        table.wf(),
        table.has_plain_cells(),
    ensures
        table.has_plain_glyphs(),
        table.has_single_glyphs(),
{
    let weight = table.balanced_weight().unwrap();
    let rows = table.drawn_cells();
    assert forall|r: int, k: int| 0 <= r < table.cells.len() && 0 <= k < rows[r].len() implies (
    #[trigger] rows[r][k]).cell.border.is_plain() && rows[r][k].cell.border.is_single() by {
        let i = lemma_formatter_source(table, weight, r, k);
        assert(table.cells[r][i].border.is_plain());
    }
}

/// A row has its left border where its first cell has a share of the
/// width, and only there.
pub proof fn lemma_left_border_drawn(table: TableModel, r: int)
    requires
        table.wf(),
        table.rendered() is Ok,
        0 <= r < table.cells.len(),
    ensures
        table.drawn_cells()[r].len() >= 1,
        table.drawn_cells()[r][0].left == (table.shares()[r][0].part > 0),
{
    let weight = table.balanced_weight().unwrap();
    let shares = table.shares();
    lemma_balance_found(shares, table.natural_weight(), SEARCH_LIMIT as nat);
    lemma_shares_proper(table);
    lemma_formatters_drawable(table, weight);
    lemma_uncovered_len(table.patterns[r], table.patterns[r], table.columns as int);
    if shares[r][0].part > 0 {
        lemma_share_bounds(weight, shares[r][0].part, shares[r][0].whole);
        lemma_row_formatters_first(
            table.cells[r],
            r,
            table.sizes(weight)[r],
            table.cells[r].len() as int,
        );
    } else {
        assert(weight * 0 == 0) by (nonlinear_arith);
        assert(shares[r][0].of(weight) == 0) by {
            if shares[r][0].whole > 0 {
                vstd::arithmetic::div_mod::lemma_div_basics(shares[r][0].whole as int);
            }
        }
        let i = lemma_formatter_source(table, weight, r, 0);
        assert(i != 0);
    }
}

/// The rows begin alike where their first cells are alike.
pub proof fn lemma_first_cells_alike(table: TableModel)
    requires
        table.wf(),
        table.rendered() is Ok,
        table.has_like_first_shares(),
    ensures
        table.begins_alike(),
{
    assert forall|r: int| 0 <= r < table.cells.len() implies (
    #[trigger] table.drawn_cells()[r])[0].left == table.drawn_cells()[0][0].left by {
        lemma_left_border_drawn(table, r);
        lemma_left_border_drawn(table, 0);
        assert(table.shares()[r].len() >= 0);
    }
}

/// Without side padding no row lacks anything to the widest: the rows are
/// balanced as they are.
pub proof fn lemma_unpadded_spreads_evenly(table: TableModel)
    requires
        table.wf(),
        table.rendered() is Ok,
        table.has_no_side_padding(),
    ensures
        table.spreads_evenly(),
{
    let weight = table.balanced_weight().unwrap();
    let shares = table.shares();
    let rows = table.measured();
    let n = table.cells.len() as int;
    lemma_balance_found(shares, table.natural_weight(), SEARCH_LIMIT as nat);
    lemma_formatters_drawable(table, weight);
    if n > 0 {
        let width = row_total(size_at(shares, weight)[0]);
        assert forall|r: int| 0 <= r < n implies span_weight(#[trigger] rows[r]) == width by {
            let given = table.sizes(weight)[r];
            let count = table.cells[r].len() as int;
            lemma_row_formatters_unpadded(table.cells[r], r, given, count);
            assert(widths_of(given) =~= widths(shares[r], weight));
            assert(widths_of(given).take(count) =~= widths_of(given));
            assert(size_at(shares, weight)[r] == widths(shares[r], weight));
            assert(row_total(size_at(shares, weight)[r]) == width);
        }
        assert(rows[0].len() >= 1);
        lemma_widest_of_equals(rows, n, width);
        assert forall|r: int| 0 <= r < n implies (widest_row(rows, n) - span_weight(
            #[trigger] rows[r],
        )) % (rows[r].len() as int) == 0 by {
            assert(rows[r].len() >= 1);
            assert(span_weight(rows[r]) == width);
            vstd::arithmetic::div_mod::lemma_small_mod(0, rows[r].len());
        }
    }
}

/// A rendering is a rectangle where the border of each cell that is not
/// covered has plain glyphs of one character each, no such cell has blanks
/// left or right of its text, and the first cells of the rows are alike:
/// each with a share of the width, or each without.
pub proof fn lemma_plain_rendering_is_rectangular(
    grid: GridModel,
    text: Seq<char>,
    i: int,
    j: int,
)
    requires
        grid.wf(),
        grid.rendered() == Ok::<Seq<char>, LayoutError>(text),
        grid.table().has_plain_cells(),
        grid.table().has_no_side_padding(),
        grid.table().has_like_first_shares(),
        0 <= i < line_count(text),
        0 <= j < line_count(text),
    ensures
        lines(text)[i].len() == lines(text)[j].len(),
{
    if grid.rows == 0 || grid.columns == 0 {
        assert(lines(text).len() == 0);
    } else {
        let table = grid.table();
        lemma_table_wf(grid);
        lemma_drawn_glyphs(table);
        lemma_plain_glyphs_draw_plain_lines(table);
        lemma_first_cells_alike(table);
        lemma_unpadded_spreads_evenly(table);
        lemma_rendering_is_rectangular(grid, text, i, j);
    }
}

/// No drawn cell is narrower than it was measured, and none has a width of
/// 0.
pub proof fn lemma_widths_kept(table: TableModel, r: int, k: int)
    requires
        table.wf(),
        table.rendered() is Ok,
        0 <= r < table.cells.len(),
        0 <= k < table.drawn_cells()[r].len(),
    ensures
        table.drawn_cells()[r][k].weight >= table.measured()[r][k].weight,
        table.measured()[r][k].weight >= 1,
        table.drawn_cells()[r][k].width() == table.drawn_cells()[r][k].weight,
{
    let weight = table.balanced_weight().unwrap();
    let n = table.cells.len() as int;
    let before = table.measured();
    lemma_balance_found(table.shares(), table.natural_weight(), SEARCH_LIMIT as nat);
    lemma_formatters_drawable(table, weight);
    lemma_widest_row_bounds(before, n, r);
    let count = before[r].len() as int;
    let rest = widest_row(before, n) - sum(full_weights(before[r]));
    assert(rest >= 0);
    vstd::arithmetic::div_mod::lemma_div_pos_is_pos(rest, count);
    let i = lemma_formatter_source(table, weight, r, k);
}

/// Each side border is drawn once: a line of a row between its border
/// lines holds the side glyph once for each drawn cell, and once more for
/// the left border of the row where it is drawn, and nowhere twice in a
/// row. This holds where both sides of each drawn cell of the row have that
/// glyph, which is no blank, and the text of none of them holds it.
pub proof fn lemma_sides_drawn_once(table: TableModel, r: int, i: int, g: char)
    requires
        table.wf(),
        table.rendered() is Ok,
        0 <= r < table.cells.len(),
        table.has_sides(r, g),
        table.top_lines(r) <= i < table.row_lines(r).len() - 1,
    ensures
        occurrences(table.row_lines(r)[i], g) == table.drawn_cells()[r].len()
            + if table.drawn_cells()[r][0].left {
            1nat
        } else {
            0nat
        },
        never_doubled(table.row_lines(r)[i], g),
{
    let weight = table.balanced_weight().unwrap();
    let row = table.drawn_cells()[r];
    let drawn = blocks(row);
    lemma_row_line_count(table, r);
    assert(same_height(drawn));
    let first = if row[0].left {
        1nat
    } else {
        0nat
    };
    assert forall|k: int| 0 <= k < row.len() implies (0 <= i && i < (#[trigger] drawn[k]).len())
        && is_fenced(drawn[k][i], g, if k == 0 {
        1 + first
    } else {
        1
    }) && (k > 0 ==> drawn[k][i][0] != g) by {
        let f = row[k];
        assert(drawn[k].len() == drawn[0].len());
        assert(drawn[k] == f.block());
        lemma_borders_not_doubled(table, weight, r, k);
        lemma_widths_kept(table, r, k);
        let j = lemma_formatter_source(table, weight, r, k);
        lemma_body_line_sides(f, i, g);
    }
    lemma_line_across_fenced(drawn, i, row.len(), g, first);
}

/// The corner glyph marks the border lines of a row: a line of the row
/// holds it where it is the border line above the first row or the border
/// line below the row, and nowhere else.
pub proof fn lemma_border_lines_marked(table: TableModel, r: int, i: int, c: char)
    requires
        table.wf(),
        table.rendered() is Ok,
        0 <= r < table.cells.len(),
        table.has_corners(r, c),
        0 <= i < table.row_lines(r).len(),
    ensures
        is_free_of(table.row_lines(r)[i], c) <==> table.top_lines(r) <= i < table.row_lines(r).len()
            - 1,
{
    let weight = table.balanced_weight().unwrap();
    let row = table.drawn_cells()[r];
    let drawn = blocks(row);
    lemma_row_line_count(table, r);
    assert(same_height(drawn));
    let between = table.top_lines(r) <= i < table.row_lines(r).len() - 1;
    assert forall|k: int| 0 <= k < row.len() implies (0 <= i && i < (#[trigger] drawn[k]).len())
        && (between ==> is_free_of(drawn[k][i], c)) && (!between ==> drawn[k][i].len() > 0
        && drawn[k][i].last() == c) by {
        let f = row[k];
        assert(drawn[k].len() == drawn[0].len());
        assert(drawn[k] == f.block());
        lemma_borders_not_doubled(table, weight, r, k);
        let j = lemma_formatter_source(table, weight, r, k);
        lemma_block_corners(f, i, c);
    }
    if between {
        lemma_line_across_free(drawn, i, row.len(), c);
    } else {
        assert(drawn[row.len() - 1][i].last() == c);
        lemma_line_across_ends_with(drawn, i, row.len(), c);
    }
}

/// Each border line is drawn once: of the lines of the first `n` rows, one
/// for each row and one more hold the corner glyph.
pub proof fn lemma_border_lines_counted(table: TableModel, n: int, c: char)
    requires
        table.wf(),
        table.rendered() is Ok,
        table.has_corners_throughout(c),
        0 < n <= table.cells.len(),
    ensures
        lines_with(lines_upto(table.drawn_cells(), n), c) == n + 1,
    decreases n,
{
    let rows = table.drawn_cells();
    let r = n - 1;
    let row = table.row_lines(r);
    assert(table.has_corners(r, c));
    lemma_row_line_count(table, r);
    assert forall|i: int| 0 <= i < row.len() implies (is_free_of(#[trigger] row[i], c)
        <==> table.top_lines(r) <= i < row.len() - 1) by {
        lemma_border_lines_marked(table, r, i, c);
    }
    lemma_lines_with_ends(row, c, table.top_lines(r));
    lemma_lines_with_add(lines_upto(rows, n - 1), row, c);
    if n > 1 {
        lemma_border_lines_counted(table, n - 1, c);
    } else {
        assert(lines_upto(rows, 0).len() == 0);
    }
}

/// No two border lines follow each other: of two lines of the first `n`
/// rows that follow each other, one is free of the corner glyph. This
/// holds where each row has a line between its border lines.
pub proof fn lemma_border_lines_apart(table: TableModel, n: int, c: char)
    requires
        table.wf(),
        table.rendered() is Ok,
        table.has_corners_throughout(c),
        table.has_text_lines(),
        0 <= n <= table.cells.len(),
    ensures
        never_adjacent(lines_upto(table.drawn_cells(), n), c),
    decreases n,
{
    if n > 0 {
        let rows = table.drawn_cells();
        let r = n - 1;
        let row = table.row_lines(r);
        let above = lines_upto(rows, n - 1);
        assert(table.has_corners(r, c));
        assert(table.heights()[r] + rows[r][0].cell.end_padding() >= 1);
        lemma_row_line_count(table, r);
        lemma_border_lines_apart(table, n - 1, c);
        assert forall|t: int| 0 <= t < row.len() - 1 implies is_free_of(row[t], c) || is_free_of(
            #[trigger] row[t + 1],
            c,
        ) by {
            lemma_border_lines_marked(table, r, t, c);
            lemma_border_lines_marked(table, r, t + 1, c);
        }
        if above.len() > 0 {
            lemma_border_lines_marked(table, r, 0, c);
            assert(r > 0);
        }
        lemma_never_adjacent_add(above, row, c);
    }
}

/// Line `i` of row `r` stands in the first `n` rows, for `n` past `r`,
/// below the lines of the rows above row `r`.
pub proof fn lemma_row_lines_stand(table: TableModel, r: int, i: int, n: int)
    requires
        0 <= r < n <= table.cells.len(),
        0 <= i < table.row_lines(r).len(),
    ensures
        table.lines_above(r) + i < lines_upto(table.drawn_cells(), n).len(),
        lines_upto(table.drawn_cells(), n)[table.lines_above(r) + i] == table.row_lines(r)[i],
    decreases n - r,
{
    if n > r + 1 {
        lemma_row_lines_stand(table, r, i, n - 1);
    }
}

/// In the text of a rendering each side border is drawn once: a line of
/// row `r` between its border lines holds the side glyph once for each
/// drawn cell of the row, and once more for the left border of the row
/// where it is drawn, and nowhere twice in a row. This holds where no drawn
/// line holds a line feed or ends with a carriage return, both sides of
/// each drawn cell of the row have that glyph, which is no blank, and the
/// text of none of them holds it.
pub proof fn lemma_rendering_sides_once(grid: GridModel, text: Seq<char>, r: int, i: int, g: char)
    requires
        grid.wf(),
        grid.columns > 0,
        0 <= r < grid.rows,
        grid.rendered() == Ok::<Seq<char>, LayoutError>(text),
        grid.table().has_plain_lines(),
        grid.table().has_sides(r, g),
        grid.table().top_lines(r) <= i < grid.table().row_lines(r).len() - 1,
    ensures
        grid.table().lines_above(r) + i < line_count(text),
        occurrences(lines(text)[grid.table().lines_above(r) + i], g)
            == grid.table().drawn_cells()[r].len() + if grid.table().drawn_cells()[r][0].left {
            1nat
        } else {
            0nat
        },
        never_doubled(lines(text)[grid.table().lines_above(r) + i], g),
{
    let table = grid.table();
    lemma_table_wf(grid);
    lemma_lines_of_rendering(table);
    lemma_row_lines_stand(table, r, i, grid.rows as int);
    lemma_sides_drawn_once(table, r, i, g);
}

/// In the text of a rendering each border line is drawn once: one line for
/// each row, and one more, hold the corner glyph; and where each row has a
/// line between its border lines, no two lines that follow each other both
/// hold it. This holds of a grid that has a row and a column, where no
/// drawn line holds a line feed or ends with a carriage return, the corner
/// of each drawn cell is that glyph, which is no blank, and neither the
/// sides nor the text of any drawn cell hold it.
pub proof fn lemma_rendering_borders_once(grid: GridModel, text: Seq<char>, c: char)
    requires
        grid.wf(),
        grid.rows > 0,
        grid.columns > 0,
        grid.rendered() == Ok::<Seq<char>, LayoutError>(text),
        grid.table().has_plain_lines(),
        grid.table().has_corners_throughout(c),
    ensures
        lines_with(lines(text), c) == grid.rows + 1,
        grid.table().has_text_lines() ==> never_adjacent(lines(text), c),
{
    let table = grid.table();
    lemma_table_wf(grid);
    lemma_lines_of_rendering(table);
    lemma_border_lines_counted(table, grid.rows as int, c);
    if table.has_text_lines() {
        lemma_border_lines_apart(table, grid.rows as int, c);
    }
}

} // verus!
