//! From sizes to text: a formatter for each cell that is drawn, the rows
//! brought to one width, the drawn cells set side by side.

use crate::cell::{Cell, CellModel};
use crate::format::{CellFormatter, FormatterModel};
use crate::grid::GridModel;
use crate::layout::{
    cell_size, drawn, has_part, lemma_balance_found, lemma_size_fits, lemma_sum_at_most,
    no_row_empty, size_at, size_rows, widths, SEARCH_LIMIT,
};
use crate::portion::{lemma_share_bounds, portion_rows, row_portions_blocks, well_shaped, Portion};
use crate::sums::{lemma_sum_bounds_each, nat_rows, nats, sum, sum_of};
use crate::table::{
    extent_fits, lemma_shares_proper, lemma_widest_padding_grows, natural_weight, ref_rows,
    row_heights, row_weights, side_paddings, spans_fit, spans_within, tallest, widest_padding,
    widest_side_padding, TableModel,
};
use crate::text::{
    compose, composed, lemma_unlines_add, owned_blocks, owned_texts, same_height, unlines,
};
use vstd::prelude::*;

verus! {

/// Why a grid cannot be laid out.
#[derive(Clone, Copy, Debug, PartialEq, Eq, Structural)]
pub enum LayoutError {
    /// A span reaches past the last column of its row.
    SpanTooWide,
    /// The extent of the table, a bound on every width that the layout
    /// computes, does not fit a `usize`.
    TooLarge,
    /// A row has no cell to draw: all the cells of its block are empty.
    EmptyRow,
    /// The search found no grid width at which every row is as wide as
    /// every other.
    Unbalanced,
    /// The drawn cells of a row differ in their number of lines.
    Ragged,
}

/// The formatter of the cell at position `k` of row `r`: the whole border,
/// but for the left side and corner where the cell is not the first of its
/// row, and for the border line above where the row is not the first.
pub open spec fn formatter_at(cell: CellModel, r: int, k: int, size: (nat, nat)) -> FormatterModel {
    FormatterModel {
        cell,
        left: k == 0,
        right: true,
        top: r == 0,
        bottom: true,
        left_connection: k == 0,
        right_connection: true,
        weight: size.0,
        height: size.1,
    }
}

/// The formatters of those of the first `n` cells of row `r` whose width is
/// not 0.
pub open spec fn row_formatters(cells: Seq<CellModel>, r: int, sizes: Seq<(nat, nat)>, n: int)
    -> Seq<FormatterModel>
    decreases n,
{
    if n <= 0 {
        Seq::empty()
    } else if sizes[n - 1].0 > 0 {
        row_formatters(cells, r, sizes, n - 1).push(
            formatter_at(cells[n - 1], r, n - 1, sizes[n - 1]),
        )
    } else {
        row_formatters(cells, r, sizes, n - 1)
    }
}

/// The formatters of the cells that are drawn, row by row.
pub open spec fn formatters(cells: Seq<Seq<CellModel>>, sizes: Seq<Seq<(nat, nat)>>) -> Seq<
    Seq<FormatterModel>,
> {
    Seq::new(
        cells.len(),
        |r: int| row_formatters(cells[r], r, sizes[r], cells[r].len() as int),
    )
}

/// The sizes that a table of sizes holds.
pub open spec fn size_models(v: Seq<Vec<(usize, usize)>>) -> Seq<Seq<(nat, nat)>> {
    Seq::new(
        v.len(),
        |r: int| Seq::new(v[r]@.len(), |k: int| (v[r]@[k].0 as nat, v[r]@[k].1 as nat)),
    )
}

/// The widths in a row of sizes.
pub open spec fn widths_of(sizes: Seq<(nat, nat)>) -> Seq<nat> {
    Seq::new(sizes.len(), |k: int| sizes[k].0)
}

/// The formatters that a vector of formatters holds.
pub open spec fn formatter_row(v: Seq<CellFormatter>) -> Seq<FormatterModel> {
    Seq::new(v.len(), |k: int| v[k]@)
}

/// The formatters that a vector of vectors of formatters holds.
pub open spec fn formatter_rows(v: Seq<Vec<CellFormatter>>) -> Seq<Seq<FormatterModel>> {
    Seq::new(v.len(), |r: int| formatter_row(v[r]@))
}

/// The full weights of the formatters of a row.
pub open spec fn full_weights(row: Seq<FormatterModel>) -> Seq<nat> {
    Seq::new(row.len(), |k: int| row[k].full_weight())
}

/// The width of a row of formatters: their full weights and one character
/// between each two of them.
pub open spec fn span_weight(row: Seq<FormatterModel>) -> int {
    sum(full_weights(row)) + row.len() - 1
}

/// The largest width of a row among the first `n` rows, 0 where there is
/// none.
pub open spec fn widest_row(rows: Seq<Seq<FormatterModel>>, n: int) -> int
    decreases n,
{
    if n <= 0 {
        0
    } else {
        let rest = widest_row(rows, n - 1);
        if span_weight(rows[n - 1]) > rest {
            span_weight(rows[n - 1])
        } else {
            rest
        }
    }
}

/// What each cell of `row` gets on top of its width: the difference between
/// `target` and the full weights of the row, divided evenly and rounded
/// down.
pub open spec fn extra(row: Seq<FormatterModel>, target: int) -> int {
    (target - sum(full_weights(row))) / (row.len() as int)
}

/// The rows brought to the width of the widest: each cell of a row gets the
/// same on top of its width.
pub open spec fn adjusted(rows: Seq<Seq<FormatterModel>>) -> Seq<Seq<FormatterModel>> {
    let target = widest_row(rows, rows.len() as int);
    Seq::new(
        rows.len(),
        |r: int|
            Seq::new(
                rows[r].len(),
                |k: int|
                    FormatterModel {
                        weight: (rows[r][k].weight + extra(rows[r], target)) as nat,
                        ..rows[r][k]
                    },
            ),
    )
}

/// Whether each row has a formatter, and its width fits a `usize`.
pub open spec fn rows_drawable(rows: Seq<Seq<FormatterModel>>) -> bool {
    forall|r: int|
        0 <= r < rows.len() ==> (#[trigger] rows[r]).len() >= 1 && span_weight(rows[r])
            <= usize::MAX
}

/// The drawn cells of a row.
pub open spec fn blocks(row: Seq<FormatterModel>) -> Seq<Seq<Seq<char>>> {
    Seq::new(row.len(), |k: int| row[k].block())
}

/// Whether the drawn cells of some row differ in their number of lines.
pub open spec fn ragged(rows: Seq<Seq<FormatterModel>>) -> bool {
    exists|r: int| 0 <= r < rows.len() && !same_height(blocks(#[trigger] rows[r]))
}

/// The lines of the first `n` rows: the drawn cells of each row set side by
/// side, the rows one below the other.
pub open spec fn lines_upto(rows: Seq<Seq<FormatterModel>>, n: int) -> Seq<Seq<char>>
    decreases n,
{
    if n <= 0 {
        Seq::empty()
    } else {
        lines_upto(rows, n - 1) + composed(blocks(rows[n - 1]))
    }
}

/// What a layout gives: the text, or why there is none.
pub open spec fn text_of(out: Result<String, LayoutError>) -> Result<Seq<char>, LayoutError> {
    match out {
        Ok(s) => Ok(s@),
        Err(e) => Err(e),
    }
}

/// The text of the rows, a line feed after each line; `Ragged` where the
/// drawn cells of a row differ in their number of lines.
pub open spec fn drawn_text(rows: Seq<Seq<FormatterModel>>) -> Result<Seq<char>, LayoutError> {
    if ragged(rows) {
        Err(LayoutError::Ragged)
    } else {
        Ok(unlines(lines_upto(rows, rows.len() as int)))
    }
}

/// The table that the spans and the uncovered cells of the rows make.
pub open spec fn table_of(columns: usize, patterns: Seq<Vec<usize>>, cells: Seq<Vec<&Cell>>)
    -> TableModel {
    TableModel { columns: columns as nat, patterns: nat_rows(patterns), cells: ref_rows(cells) }
}

impl TableModel {
    /// The size of each cell at a grid width of `weight`: its share of the
    /// width and the height of its row.
    pub open spec fn sizes(self, weight: nat) -> Seq<Seq<(nat, nat)>> {
        Seq::new(
            self.cells.len(),
            |r: int|
                Seq::new(
                    self.cells[r].len(),
                    |k: int| (self.shares()[r][k].of(weight), self.heights()[r]),
                ),
        )
    }

    /// The formatters of the cells that are drawn at a grid width of
    /// `weight`, the rows brought to one width.
    pub open spec fn formatters(self, weight: nat) -> Seq<Seq<FormatterModel>> {
        adjusted(formatters(self.cells, self.sizes(weight)))
    }

    /// The text of the table, or why it cannot be laid out.
    pub open spec fn rendered(self) -> Result<Seq<char>, LayoutError> {
        if !spans_within(self.patterns) {
            Err(LayoutError::SpanTooWide)
        } else if self.extent() > usize::MAX {
            Err(LayoutError::TooLarge)
        } else if !no_row_empty(self.shares()) {
            Err(LayoutError::EmptyRow)
        } else {
            match self.balanced_weight() {
                None => Err(LayoutError::Unbalanced),
                Some(weight) => drawn_text(self.formatters(weight)),
            }
        }
    }
}

impl GridModel {
    /// The text of the grid, or why it cannot be laid out. A grid without
    /// rows or without columns has the empty text.
    pub open spec fn rendered(self) -> Result<Seq<char>, LayoutError> {
        if self.rows == 0 || self.columns == 0 {
            Ok(Seq::empty())
        } else {
            self.table().rendered()
        }
    }
}

/// A formatter for each cell whose width is not 0.
pub fn make_formatters<'a>(cells: &Vec<Vec<&'a Cell>>, sizes: &Vec<Vec<(usize, usize)>>) -> (out:
    Vec<Vec<CellFormatter<'a>>>)
    requires
        cells@.len() == sizes@.len(),
        forall|r: int| 0 <= r < cells@.len() ==> (#[trigger] cells@[r])@.len() == sizes@[r]@.len(),
    ensures
        formatter_rows(out@) == formatters(ref_rows(cells@), size_models(sizes@)),
{
    let ghost models = ref_rows(cells@);
    let ghost given = size_models(sizes@);
    let mut out: Vec<Vec<CellFormatter<'a>>> = Vec::new();
    let mut row_index: usize = 0;
    while row_index < cells.len()
        invariant
            row_index <= cells.len(),
            cells@.len() == sizes@.len(),
            forall|r: int|
                0 <= r < cells@.len() ==> (#[trigger] cells@[r])@.len() == sizes@[r]@.len(),
            models == ref_rows(cells@),
            given == size_models(sizes@),
            out@.len() == row_index,
            forall|q: int|
                0 <= q < row_index ==> formatter_row((#[trigger] out@[q])@) == row_formatters(
                    models[q],
                    q,
                    given[q],
                    models[q].len() as int,
                ),
        decreases cells.len() - row_index,
    {
        let row = &cells[row_index];
        let row_sizes = &sizes[row_index];
        assert(row@.len() == row_sizes@.len());
        let mut made: Vec<CellFormatter<'a>> = Vec::new();
        let mut column_index: usize = 0;
        while column_index < row.len()
            invariant
                column_index <= row.len(),
                row_index < cells.len(),
                row_index < sizes.len(),
                row@ == cells@[row_index as int]@,
                row_sizes@ == sizes@[row_index as int]@,
                row@.len() == row_sizes@.len(),
                models == ref_rows(cells@),
                given == size_models(sizes@),
                formatter_row(made@) == row_formatters(
                    models[row_index as int],
                    row_index as int,
                    given[row_index as int],
                    column_index as int,
                ),
            decreases row.len() - column_index,
        {
            let size = row_sizes[column_index];
            proof {
                assert(given[row_index as int][column_index as int] == (
                    size.0 as nat,
                    size.1 as nat,
                ));
                assert(models[row_index as int][column_index as int] == row@[column_index as int]@);
            }
            if size.0 != 0 {
                let mut formatter = CellFormatter::new(row[column_index]).weight(size.0).height(
                    size.1,
                ).boxed();
                if column_index != 0 {
                    formatter = formatter.un_left().un_left_connection();
                }
                if row_index != 0 {
                    formatter = formatter.un_top();
                }
                assert(formatter@ == formatter_at(
                    row@[column_index as int]@,
                    row_index as int,
                    column_index as int,
                    (size.0 as nat, size.1 as nat),
                ));
                assert(formatter_row(made@.push(formatter)) =~= formatter_row(made@).push(
                    formatter@,
                ));
                made.push(formatter);
            }
            column_index = column_index + 1;
        }
        out.push(made);
        row_index = row_index + 1;
    }
    assert(formatter_rows(out@) =~= formatters(models, given));
    out
}

/// Brings the rows to the width of the widest: each cell of a row gets the
/// same on top of its width.
pub fn adjust<'a>(rows: &Vec<Vec<CellFormatter<'a>>>) -> (out: Vec<Vec<CellFormatter<'a>>>)
    requires
        rows_drawable(formatter_rows(rows@)),
    ensures
        formatter_rows(out@) == adjusted(formatter_rows(rows@)),
{
    let ghost models = formatter_rows(rows@);
    let mut sums: Vec<usize> = Vec::new();
    let mut weight: usize = 0;
    let mut r: usize = 0;
    while r < rows.len()
        invariant
            r <= rows.len(),
            models == formatter_rows(rows@),
            rows_drawable(models),
            sums@.len() == r,
            forall|q: int| 0 <= q < r ==> (#[trigger] sums@[q]) == sum(full_weights(models[q])),
            weight == widest_row(models, r as int),
            forall|q: int| 0 <= q < r ==> span_weight(#[trigger] models[q]) <= weight,
        decreases rows.len() - r,
    {
        let row = &rows[r];
        let ghost fulls = full_weights(models[r as int]);
        assert(models[r as int].len() >= 1);
        let mut full: Vec<usize> = Vec::new();
        let mut k: usize = 0;
        while k < row.len()
            invariant
                k <= row.len(),
                r < rows.len(),
                row@ == rows@[r as int]@,
                models == formatter_rows(rows@),
                fulls == full_weights(models[r as int]),
                sum(fulls) <= usize::MAX,
                full@.len() == k,
                nats(full@) == fulls.take(k as int),
            decreases row.len() - k,
        {
            proof {
                assert(models[r as int][k as int] == row@[k as int]@);
                lemma_sum_bounds_each(fulls, k as int);
            }
            let w = row[k].full_weight();
            proof {
                assert forall|j: int| 0 <= j < k implies nats(full@.push(w))[j] == fulls[j] by {
                    assert(nats(full@)[j] == fulls.take(k as int)[j]);
                }
                assert(nats(full@.push(w)) =~= fulls.take(k + 1));
            }
            full.push(w);
            k = k + 1;
        }
        assert(fulls.take(row.len() as int) =~= fulls);
        let row_weight = sum_of(&full);
        let spanned = row_weight + (row.len() - 1);
        if spanned > weight {
            weight = spanned;
        }
        sums.push(row_weight);
        r = r + 1;
    }
    let mut out: Vec<Vec<CellFormatter<'a>>> = Vec::new();
    let mut r: usize = 0;
    while r < rows.len()
        invariant
            r <= rows.len(),
            models == formatter_rows(rows@),
            rows_drawable(models),
            sums@.len() == rows.len(),
            forall|q: int|
                0 <= q < rows.len() ==> (#[trigger] sums@[q]) == sum(full_weights(models[q])),
            weight == widest_row(models, rows.len() as int),
            forall|q: int| 0 <= q < rows.len() ==> span_weight(#[trigger] models[q]) <= weight,
            out@.len() == r,
            forall|q: int|
                0 <= q < r ==> formatter_row((#[trigger] out@[q])@) == adjusted(models)[q],
        decreases rows.len() - r,
    {
        let row = &rows[r];
        assert(models[r as int].len() >= 1 && span_weight(models[r as int]) <= weight);
        let row_weight = sums[r];
        let rest_weight = weight - row_weight;
        let squized_space = rest_weight / row.len();
        assert(squized_space == extra(models[r as int], weight as int));
        assert(squized_space <= rest_weight) by {
            vstd::arithmetic::div_mod::lemma_div_is_ordered_by_denominator(
                rest_weight as int,
                1,
                row.len() as int,
            );
        }
        let mut moved: Vec<CellFormatter<'a>> = Vec::new();
        let mut k: usize = 0;
        while k < row.len()
            invariant
                k <= row.len(),
                r < rows.len(),
                row@ == rows@[r as int]@,
                models == formatter_rows(rows@),
                row_weight == sum(full_weights(models[r as int])),
                row_weight + squized_space <= usize::MAX,
                moved@.len() == k,
                forall|j: int|
                    0 <= j < k ==> (#[trigger] moved@[j])@ == (FormatterModel {
                        weight: (models[r as int][j].weight + squized_space) as nat,
                        ..models[r as int][j]
                    }),
            decreases row.len() - k,
        {
            let f = row[k];
            proof {
                assert(models[r as int][k as int] == f@);
                lemma_sum_bounds_each(full_weights(models[r as int]), k as int);
                assert(full_weights(models[r as int])[k as int] == f@.full_weight());
            }
            moved.push(f.weight(f.given_weight() + squized_space));
            k = k + 1;
        }
        assert(formatter_row(moved@) =~= adjusted(models)[r as int]);
        out.push(moved);
        r = r + 1;
    }
    assert(formatter_rows(out@) =~= adjusted(models));
    out
}

/// Appends the lines to `out`, a line feed after each.
fn push_lines(out: &mut String, lines: &Vec<String>)
    ensures
        final(out)@ == old(out)@ + unlines(owned_texts(lines@)),
{
    proof {
        reveal_strlit("\n");
    }
    let ghost texts = owned_texts(lines@);
    let mut i: usize = 0;
    while i < lines.len()
        invariant
            i <= lines.len(),
            "\n"@ == seq!['\n'],
            texts == owned_texts(lines@),
            out@ == old(out)@ + unlines(texts.take(i as int)),
        decreases lines.len() - i,
    {
        assert(texts.take(i + 1).drop_last() =~= texts.take(i as int));
        out.append(lines[i].as_str());
        out.append("\n");
        assert(out@ =~= old(out)@ + unlines(texts.take(i + 1)));
        i = i + 1;
    }
    assert(texts.take(lines.len() as int) =~= texts);
}

/// The lines of a row: its cells drawn and set side by side; `None` where
/// they differ in their number of lines.
fn draw_row(row: &Vec<CellFormatter>) -> (out: Option<Vec<String>>)
    ensures
        match out {
            Some(lines) => same_height(blocks(formatter_row(row@))) && owned_texts(lines@)
                == composed(blocks(formatter_row(row@))),
            None => !same_height(blocks(formatter_row(row@))),
        },
{
    let ghost want = blocks(formatter_row(row@));
    let mut drawn_cells: Vec<Vec<String>> = Vec::new();
    let mut k: usize = 0;
    while k < row.len()
        invariant
            k <= row.len(),
            want == blocks(formatter_row(row@)),
            drawn_cells@.len() == k,
            forall|j: int| 0 <= j < k ==> owned_texts((#[trigger] drawn_cells@[j])@) == want[j],
            forall|j: int| 0 <= j < k ==> (#[trigger] want[j]).len() == want[0].len(),
        decreases row.len() - k,
    {
        let block = row[k].lines();
        assert(want[k as int] == row@[k as int]@.block());
        if k > 0 && block.len() != drawn_cells[0].len() {
            assert(want[k as int].len() != want[0].len());
            return None;
        }
        drawn_cells.push(block);
        k = k + 1;
    }
    assert(owned_blocks(drawn_cells@) =~= want);
    Some(compose(&drawn_cells))
}

/// Draws the rows: the cells of each row side by side, the rows one below
/// the other, a line feed after each line.
pub fn draw(rows: &Vec<Vec<CellFormatter>>) -> (out: Result<String, LayoutError>)
    ensures
        text_of(out) == drawn_text(formatter_rows(rows@)),
{
    let ghost models = formatter_rows(rows@);
    let mut out = String::new();
    let mut r: usize = 0;
    while r < rows.len()
        invariant
            r <= rows.len(),
            models == formatter_rows(rows@),
            forall|q: int| 0 <= q < r ==> same_height(blocks(#[trigger] models[q])),
            out@ == unlines(lines_upto(models, r as int)),
        decreases rows.len() - r,
    {
        assert(models[r as int] == formatter_row(rows@[r as int]@));
        match draw_row(&rows[r]) {
            Some(lines) => {
                proof {
                    lemma_unlines_add(
                        lines_upto(models, r as int),
                        composed(blocks(models[r as int])),
                    );
                }
                push_lines(&mut out, &lines);
            },
            None => {
                return Err(LayoutError::Ragged);
            },
        }
        r = r + 1;
    }
    Ok(out)
}

/// Whether the row has a share that is not 0.
fn has_share(row: &Vec<Portion>) -> (found: bool)
    ensures
        found == has_part(Seq::new(row@.len(), |k: int| row@[k]@)),
{
    let ghost shares = Seq::new(row@.len(), |k: int| row@[k]@);
    let mut k: usize = 0;
    while k < row.len()
        invariant
            k <= row.len(),
            shares == Seq::new(row@.len(), |k: int| row@[k]@),
            forall|j: int| 0 <= j < k ==> (#[trigger] shares[j]).part == 0,
        decreases row.len() - k,
    {
        if row[k].part > 0 {
            assert(shares[k as int].part > 0);
            return true;
        }
        k = k + 1;
    }
    false
}

/// Whether each row has a share that is not 0.
fn every_row_has_share(portions: &Vec<Vec<Portion>>) -> (all: bool)
    ensures
        all == no_row_empty(portion_rows(portions@)),
{
    let ghost shares = portion_rows(portions@);
    let mut r: usize = 0;
    while r < portions.len()
        invariant
            r <= portions.len(),
            shares == portion_rows(portions@),
            forall|q: int| 0 <= q < r ==> has_part(#[trigger] shares[q]),
        decreases portions.len() - r,
    {
        if !has_share(&portions[r]) {
            assert(!has_part(shares[r as int]));
            return false;
        }
        r = r + 1;
    }
    true
}

/// Lays out and draws the rows of a grid, given for each row the spans of
/// all its cells and those of its cells that no span covers.
pub fn render_rows(columns: usize, patterns: &Vec<Vec<usize>>, cells: &Vec<Vec<&Cell>>) -> (out:
    Result<String, LayoutError>)
    requires
        table_of(columns, patterns@, cells@).wf(),
    ensures
        text_of(out) == table_of(columns, patterns@, cells@).rendered(),
{
    let ghost table = table_of(columns, patterns@, cells@);
    let ghost n = cells@.len() as int;
    if !spans_fit(patterns) {
        return Err(LayoutError::SpanTooWide);
    }
    let weights = row_weights(cells);
    assert(nat_rows(weights@) =~~= table.weights());
    proof {
        assert(0 <= columns * (table.natural_weight() + SEARCH_LIMIT + 1)) by (nonlinear_arith);
        assert(table.natural_weight() <= columns * (table.natural_weight() + SEARCH_LIMIT + 1))
            by (nonlinear_arith)
            requires
                columns >= 1,
        ;
    }
    let natural = match natural_weight(&weights) {
        Some(w) => w,
        None => {
            return Err(LayoutError::TooLarge);
        },
    };
    let padding = match widest_side_padding(cells) {
        Some(p) => p,
        None => {
            return Err(LayoutError::TooLarge);
        },
    };
    if !extent_fits(columns, natural, padding) {
        return Err(LayoutError::TooLarge);
    }
    proof {
        assert forall|r: int|
            0 < r < table.patterns.len() && table.patterns[r] == table.patterns[r - 1] implies (
        #[trigger] table.weights()[r]).len() == table.weights()[r - 1].len() by {
            assert(table.cells[r].len() == table.cells[r - 1].len());
        }
        assert(well_shaped(table.patterns, table.weights()));
    }
    let portions = row_portions_blocks(patterns, &weights);
    let ghost shares = table.shares();
    assert(portion_rows(portions@) == shares);
    if !every_row_has_share(&portions) {
        return Err(LayoutError::EmptyRow);
    }
    let heights = row_heights(cells);
    proof {
        lemma_shares_proper(table);
    }
    let sizes = match cell_size(&portions, &heights, natural, columns) {
        Some(sizes) => sizes,
        None => {
            return Err(LayoutError::Unbalanced);
        },
    };
    let ghost weight = table.balanced_weight().unwrap();
    proof {
        lemma_balance_found(shares, natural as nat, SEARCH_LIMIT as nat);
        assert(size_rows(sizes@) == size_at(shares, weight));
        assert forall|r: int| 0 <= r < n implies (#[trigger] cells@[r])@.len()
            == sizes@[r]@.len() by {
            assert(size_rows(sizes@)[r].len() == size_at(shares, weight)[r].len());
            assert(shares[r].len() == table.cells[r].len());
        }
        assert forall|r: int, k: int| 0 <= r < n && 0 <= k < table.cells[r].len() implies (
            sizes@[r]@[k].0 as nat,
            sizes@[r]@[k].1 as nat,
        ) == (#[trigger] table.sizes(weight)[r][k]) by {
            assert(size_rows(sizes@)[r][k] == size_at(shares, weight)[r][k]);
            assert(heights@[r] == tallest(table.cells[r]));
        }
        assert(size_models(sizes@) =~~= table.sizes(weight));
    }
    let made = make_formatters(cells, &sizes);
    proof {
        lemma_formatters_drawable(table, weight);
    }
    let moved = adjust(&made);
    draw(&moved)
}

/// There are at most as many formatters as cells looked at.
pub proof fn lemma_row_formatters_len(cells: Seq<CellModel>, r: int, sizes: Seq<(nat, nat)>, n: int)
    ensures
        row_formatters(cells, r, sizes, n).len() <= if n < 0 {
            0
        } else {
            n
        },
    decreases n,
{
    if n > 0 {
        lemma_row_formatters_len(cells, r, sizes, n - 1);
    }
}

/// There are as many formatters as widths that are not 0, and their full
/// weights are together at most all widths and all side paddings.
pub proof fn lemma_row_formatters_weight(
    cells: Seq<CellModel>,
    r: int,
    sizes: Seq<(nat, nat)>,
    n: int,
)
    requires
        0 <= n <= cells.len(),
        cells.len() == sizes.len(),
    ensures
        row_formatters(cells, r, sizes, n).len() == drawn(widths_of(sizes).take(n)),
        sum(full_weights(row_formatters(cells, r, sizes, n))) <= sum(widths_of(sizes).take(n))
            + sum(side_paddings(cells).take(n)),
    decreases n,
{
    if n > 0 {
        lemma_row_formatters_weight(cells, r, sizes, n - 1);
        let before = row_formatters(cells, r, sizes, n - 1);
        assert(widths_of(sizes).take(n).drop_last() =~= widths_of(sizes).take(n - 1));
        assert(side_paddings(cells).take(n).drop_last() =~= side_paddings(cells).take(n - 1));
        if sizes[n - 1].0 > 0 {
            let f = formatter_at(cells[n - 1], r, n - 1, sizes[n - 1]);
            assert(full_weights(before.push(f)).drop_last() =~= full_weights(before));
        }
    }
}

/// Each formatter of a row is that of a cell of the row whose width is not
/// 0, and the formatter at position `j` that of a cell at position `j` or
/// after it.
pub proof fn lemma_row_formatters_origin(
    cells: Seq<CellModel>,
    r: int,
    sizes: Seq<(nat, nat)>,
    n: int,
    j: int,
)
    requires
        0 <= n <= cells.len(),
        cells.len() == sizes.len(),
        0 <= j < row_formatters(cells, r, sizes, n).len(),
    ensures
        exists|i: int|
            j <= i < n && sizes[i].0 > 0 && row_formatters(cells, r, sizes, n)[j]
                == #[trigger] formatter_at(cells[i], r, i, sizes[i]),
    decreases n,
{
    let before = row_formatters(cells, r, sizes, n - 1);
    let now = row_formatters(cells, r, sizes, n);
    lemma_row_formatters_len(cells, r, sizes, n - 1);
    if j < before.len() {
        lemma_row_formatters_origin(cells, r, sizes, n - 1, j);
        let i = choose|i: int|
            j <= i < n - 1 && sizes[i].0 > 0 && before[j] == #[trigger] formatter_at(
                cells[i],
                r,
                i,
                sizes[i],
            );
        assert(now[j] == formatter_at(cells[i], r, i, sizes[i]));
    } else {
        assert(now[j] == formatter_at(cells[n - 1], r, n - 1, sizes[n - 1]));
    }
}

/// The first formatter of a row is that of its first cell, where that cell
/// has a width.
pub proof fn lemma_row_formatters_first(
    cells: Seq<CellModel>,
    r: int,
    sizes: Seq<(nat, nat)>,
    n: int,
)
    requires
        1 <= n <= cells.len(),
        cells.len() == sizes.len(),
        sizes[0].0 > 0,
    ensures
        row_formatters(cells, r, sizes, n).len() >= 1,
        row_formatters(cells, r, sizes, n)[0] == formatter_at(cells[0], r, 0, sizes[0]),
    decreases n,
{
    if n > 1 {
        lemma_row_formatters_first(cells, r, sizes, n - 1);
    } else {
        assert(row_formatters(cells, r, sizes, 0).len() == 0);
    }
}

/// The full weights of the formatters of cells without side padding are
/// together the widths of the cells.
pub proof fn lemma_row_formatters_unpadded(
    cells: Seq<CellModel>,
    r: int,
    sizes: Seq<(nat, nat)>,
    n: int,
)
    requires
        0 <= n <= cells.len(),
        cells.len() == sizes.len(),
        forall|k: int| 0 <= k < cells.len() ==> (#[trigger] cells[k]).side_padding() == 0,
    ensures
        sum(full_weights(row_formatters(cells, r, sizes, n))) == sum(widths_of(sizes).take(n)),
    decreases n,
{
    if n > 0 {
        lemma_row_formatters_unpadded(cells, r, sizes, n - 1);
        let before = row_formatters(cells, r, sizes, n - 1);
        assert(widths_of(sizes).take(n).drop_last() =~= widths_of(sizes).take(n - 1));
        if sizes[n - 1].0 > 0 {
            let f = formatter_at(cells[n - 1], r, n - 1, sizes[n - 1]);
            assert(cells[n - 1].side_padding() == 0);
            assert(full_weights(before.push(f)).drop_last() =~= full_weights(before));
        }
    }
}

/// Where the extent of a table fits and no row is empty, at each grid width
/// that the search tries every row has a formatter and a width that fits.
pub proof fn lemma_formatters_drawable(table: TableModel, weight: nat)
    requires
        table.wf(),
        table.extent() <= usize::MAX,
        no_row_empty(table.shares()),
        table.natural_weight() <= weight <= table.natural_weight() + SEARCH_LIMIT,
    ensures
        rows_drawable(formatters(table.cells, table.sizes(weight))),
        forall|r: int|
            0 <= r < table.cells.len() ==> (#[trigger] formatters(
                table.cells,
                table.sizes(weight),
            )[r]).len() == drawn(widths(table.shares()[r], weight)),
{
    let shares = table.shares();
    let natural = table.natural_weight();
    let columns = table.columns;
    let n = table.cells.len() as int;
    let rows = formatters(table.cells, table.sizes(weight));
    lemma_shares_proper(table);
    assert(0 <= widest_padding(table.cells, n));
    assert(columns * (weight + 1) <= columns * (natural + SEARCH_LIMIT + 1)) by (nonlinear_arith)
        requires
            weight <= natural + SEARCH_LIMIT,
    ;
    lemma_size_fits(shares, weight, columns);
    assert forall|r: int| 0 <= r < rows.len() implies (#[trigger] rows[r]).len() >= 1
        && span_weight(rows[r]) <= usize::MAX && rows[r].len() == drawn(
        widths(shares[r], weight),
    ) by {
        let given = table.sizes(weight)[r];
        let count = table.cells[r].len() as int;
        lemma_row_formatters_weight(table.cells[r], r, given, count);
        assert(widths_of(given) =~= widths(shares[r], weight));
        assert(widths_of(given).take(count) =~= widths_of(given));
        assert(side_paddings(table.cells[r]).take(count) =~= side_paddings(table.cells[r]));
        assert(size_at(shares, weight)[r] == widths(shares[r], weight));
        assert forall|j: int| 0 <= j < widths_of(given).len() implies widths_of(given)[j]
            <= weight by {
            if shares[r][j].whole > 0 {
                lemma_share_bounds(weight, shares[r][j].part, shares[r][j].whole);
            }
        }
        lemma_sum_at_most(widths_of(given), weight);
        lemma_widest_padding_grows(table.cells, r + 1, n);
        assert(count * weight <= columns * (natural + SEARCH_LIMIT)) by (nonlinear_arith)
            requires
                0 <= count <= columns,
                weight <= natural + SEARCH_LIMIT,
        ;
        assert(columns * (natural + SEARCH_LIMIT + 1) == columns * (natural + SEARCH_LIMIT)
            + columns) by (nonlinear_arith);
    }
}

/// The widest row is at least as wide as each of the rows.
pub proof fn lemma_widest_row_bounds(rows: Seq<Seq<FormatterModel>>, n: int, r: int)
    requires
        0 <= r < n,
    ensures
        span_weight(rows[r]) <= widest_row(rows, n),
    decreases n,
{
    if r < n - 1 {
        lemma_widest_row_bounds(rows, n - 1, r);
    }
}

/// The widest of rows that are equally wide is as wide as each.
pub proof fn lemma_widest_of_equals(rows: Seq<Seq<FormatterModel>>, n: int, width: int)
    requires
        1 <= n,
        0 <= width,
        forall|r: int| 0 <= r < n ==> span_weight(#[trigger] rows[r]) == width,
    ensures
        widest_row(rows, n) == width,
    decreases n,
{
    if n > 1 {
        lemma_widest_of_equals(rows, n - 1, width);
    } else {
        assert(widest_row(rows, 0) == 0);
    }
    assert(span_weight(rows[n - 1]) == width);
}

/// The full weights of a row after each cell got `more` on top of its
/// width are those before and `more` for each cell.
pub proof fn lemma_sum_with_more(before: Seq<FormatterModel>, after: Seq<FormatterModel>, more: nat)
    requires
        before.len() == after.len(),
        forall|k: int|
            0 <= k < before.len() ==> (#[trigger] after[k]).full_weight() == before[k].full_weight()
                + more,
    ensures
        sum(full_weights(after)) == sum(full_weights(before)) + before.len() * more,
    decreases before.len(),
{
    if before.len() > 0 {
        let n = before.len() as int;
        assert(after[n - 1].full_weight() == before[n - 1].full_weight() + more);
        assert forall|k: int| 0 <= k < n - 1 implies (#[trigger] after.drop_last()[k]).full_weight()
            == before.drop_last()[k].full_weight() + more by {
            assert(after[k].full_weight() == before[k].full_weight() + more);
        }
        lemma_sum_with_more(before.drop_last(), after.drop_last(), more);
        assert(full_weights(before).drop_last() =~= full_weights(before.drop_last()));
        assert(full_weights(after).drop_last() =~= full_weights(after.drop_last()));
        assert(full_weights(after).last() == after[n - 1].full_weight());
        assert(full_weights(before).last() == before[n - 1].full_weight());
        assert((n - 1) * more + more == n * more) by (nonlinear_arith);
    } else {
        assert(before.len() * more == 0) by (nonlinear_arith)
            requires
                before.len() == 0,
        ;
    }
}

/// What each cell of a row gets where what the row lacks to the target is
/// a multiple of its number of cells: that multiple.
pub proof fn lemma_even_extra(lack: int, count: int)
    requires
        count >= 1,
        lack >= 0,
        lack % count == 0,
    ensures
        (lack + count - 1) / count == lack / count,
        count * (lack / count) == lack,
{
    vstd::arithmetic::div_mod::lemma_fundamental_div_mod(lack, count);
    let q = lack / count;
    assert(q * count == count * q) by (nonlinear_arith);
    vstd::arithmetic::div_mod::lemma_fundamental_div_mod_converse(
        lack + count - 1,
        count,
        q,
        count - 1,
    );
}

} // verus!
