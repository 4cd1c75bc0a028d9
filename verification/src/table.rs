//! The table that a grid is laid out from: for each row the spans of its
//! cells and those of its cells that no span covers, and what is measured of
//! them.

use crate::blocks::{block_end, block_start, lemma_block_bounds, lemma_block_pattern};
use crate::cell::{Cell, CellModel};
use crate::grid::{lemma_index_in_grid, GridModel};
use crate::layout::{balance, rows_within, wholes_within, SEARCH_LIMIT};
use crate::portion::{
    block_weight, lemma_block_weight_grows, lemma_block_weight_within, lemma_column_weight_bounds,
    portions, proper, sums_fit, PortionModel,
};
use crate::sums::{checked_sum, lemma_sum_bounds_each, nat_rows, nats, sum};
use vstd::prelude::*;
use vstd::slice::slice_subrange;

verus! {

/// How many cells from column `j` on are covered by a cell before column
/// `j`. The cell in column `j` is covered where this is not 0; a cell that
/// is not covered covers as many cells after it as its span says.
pub open spec fn covered_after(pattern: Seq<nat>, j: int) -> nat
    decreases j,
{
    if j <= 0 {
        0
    } else {
        let before = covered_after(pattern, j - 1);
        if before > 0 {
            (before - 1) as nat
        } else {
            pattern[j - 1]
        }
    }
}

/// Whether the cell in column `j` is covered by a cell before it.
pub open spec fn is_covered(pattern: Seq<nat>, j: int) -> bool {
    covered_after(pattern, j) > 0
}

/// Those of the first `n` items of `row` that are not covered, in their
/// order.
pub open spec fn uncovered<T>(row: Seq<T>, pattern: Seq<nat>, n: int) -> Seq<T>
    decreases n,
{
    if n <= 0 {
        Seq::empty()
    } else if is_covered(pattern, n - 1) {
        uncovered(row, pattern, n - 1)
    } else {
        uncovered(row, pattern, n - 1).push(row[n - 1])
    }
}

/// The spans of the cells of a row.
pub open spec fn spans(row: Seq<CellModel>) -> Seq<nat> {
    Seq::new(row.len(), |j: int| row[j].span)
}

/// Whether no span reaches past the last column of its row.
pub open spec fn spans_within(patterns: Seq<Seq<nat>>) -> bool {
    forall|r: int|
        0 <= r < patterns.len() ==> covered_after(
            #[trigger] patterns[r],
            patterns[r].len() as int,
        ) == 0
}

/// The cells that a slice of cells holds.
pub open spec fn slice_models(row: Seq<Cell>) -> Seq<CellModel> {
    Seq::new(row.len(), |j: int| row[j]@)
}

/// The cells that a vector of borrowed cells holds.
pub open spec fn ref_models(row: Seq<&Cell>) -> Seq<CellModel> {
    Seq::new(row.len(), |k: int| row[k]@)
}

/// The rows of cells that a vector of vectors of borrowed cells holds.
pub open spec fn ref_rows(rows: Seq<Vec<&Cell>>) -> Seq<Seq<CellModel>> {
    Seq::new(rows.len(), |r: int| ref_models(rows[r]@))
}

/// The largest number of lines of a cell among the given cells.
pub open spec fn tallest(cells: Seq<CellModel>) -> nat
    decreases cells.len(),
{
    if cells.len() == 0 {
        0
    } else {
        let rest = tallest(cells.drop_last());
        if cells.last().height() > rest {
            cells.last().height()
        } else {
            rest
        }
    }
}

/// The blanks left and right of the text of each of the cells.
pub open spec fn side_paddings(cells: Seq<CellModel>) -> Seq<nat> {
    Seq::new(cells.len(), |k: int| cells[k].side_padding())
}

/// The largest sum of a row's side paddings among the first `n` rows.
pub open spec fn widest_padding(rows: Seq<Seq<CellModel>>, n: int) -> nat
    decreases n,
{
    if n <= 0 {
        0
    } else {
        let rest = widest_padding(rows, n - 1);
        if sum(side_paddings(rows[n - 1])) > rest {
            sum(side_paddings(rows[n - 1]))
        } else {
            rest
        }
    }
}

/// What of a grid its layout depends on: for each row the spans of all its
/// cells, and those of its cells that no span covers.
pub struct TableModel {
    /// The number of columns of the grid.
    pub columns: nat,
    /// For each row, the span of the cell in each column.
    pub patterns: Seq<Seq<nat>>,
    /// For each row, its cells that are not covered.
    pub cells: Seq<Seq<CellModel>>,
}

impl TableModel {
    /// Whether the table has a column, a pattern of that many spans for each
    /// row, and for each row the cells that its pattern leaves uncovered.
    pub open spec fn wf(self) -> bool {
        &&& self.columns > 0
        &&& self.patterns.len() == self.cells.len()
        &&& forall|r: int|
            0 <= r < self.cells.len() ==> (#[trigger] self.patterns[r]).len() == self.columns
        &&& forall|r: int|
            0 <= r < self.cells.len() ==> (#[trigger] self.cells[r]).len() == uncovered(
                self.patterns[r],
                self.patterns[r],
                self.columns as int,
            ).len()
    }

    /// The weight of each cell: the length of the longest line of its text.
    pub open spec fn weights(self) -> Seq<Seq<nat>> {
        Seq::new(
            self.cells.len(),
            |r: int| Seq::new(self.cells[r].len(), |k: int| self.cells[r][k].weight()),
        )
    }

    /// The height of each row: the largest number of lines of a cell in it.
    pub open spec fn heights(self) -> Seq<nat> {
        Seq::new(self.cells.len(), |r: int| tallest(self.cells[r]))
    }

    /// The share of the width that each cell gets.
    pub open spec fn shares(self) -> Seq<Seq<PortionModel>> {
        portions(self.patterns, self.weights())
    }

    /// The largest sum of a row's weights: the grid width at which the
    /// search for a balanced width begins.
    pub open spec fn natural_weight(self) -> nat {
        block_weight(self.weights(), 0, self.cells.len() as int)
    }

    /// A bound on every width that the layout computes: every column at the
    /// last grid width that the search tries, one character for each, and
    /// the largest side padding of a row.
    pub open spec fn extent(self) -> int {
        self.columns * (self.natural_weight() + SEARCH_LIMIT + 1) + widest_padding(
            self.cells,
            self.cells.len() as int,
        )
    }

    /// The grid width at which every row is as wide as every other, where
    /// the search finds one.
    pub open spec fn balanced_weight(self) -> Option<nat> {
        balance(self.shares(), self.natural_weight(), SEARCH_LIMIT as nat)
    }
}

impl GridModel {
    /// The spans of the cells of row `i`.
    pub open spec fn pattern(self, i: int) -> Seq<nat> {
        spans(self.row(i))
    }

    /// Whether a cell before it covers the cell in row `i` and column `j`.
    pub open spec fn covers(self, i: int, j: int) -> bool {
        is_covered(self.pattern(i), j)
    }

    /// The cells of row `i` that no span covers.
    pub open spec fn visible(self, i: int) -> Seq<CellModel> {
        uncovered(self.row(i), self.pattern(i), self.columns as int)
    }

    /// What of the grid its layout depends on.
    pub open spec fn table(self) -> TableModel {
        TableModel {
            columns: self.columns,
            patterns: Seq::new(self.rows, |i: int| self.pattern(i)),
            cells: Seq::new(self.rows, |i: int| self.visible(i)),
        }
    }
}

/// Cuts a slice of `count_rows * count_columns` items into its rows.
pub fn rows<'a, T>(slice: &'a [T], count_rows: usize, count_columns: usize) -> (out: Vec<&'a [T]>)
    requires
        slice@.len() == count_rows * count_columns,
    ensures
        out@.len() == count_rows,
        forall|i: int|
            0 <= i < count_rows ==> (#[trigger] out@[i])@ == slice@.subrange(
                i * count_columns,
                (i + 1) * count_columns,
            ),
{
    let total = slice.len();
    let mut out: Vec<&'a [T]> = Vec::new();
    let mut row_index: usize = 0;
    while row_index < count_rows
        invariant
            row_index <= count_rows,
            total == count_rows * count_columns,
            slice@.len() == count_rows * count_columns,
            out@.len() == row_index,
            forall|i: int|
                0 <= i < row_index ==> (#[trigger] out@[i])@ == slice@.subrange(
                    i * count_columns,
                    (i + 1) * count_columns,
                ),
        decreases count_rows - row_index,
    {
        proof {
            lemma_index_in_grid(
                count_rows as nat,
                count_columns as nat,
                row_index as nat,
                count_columns as nat,
            );
        }
        let row_start = count_columns * row_index;
        let row = slice_subrange(slice, row_start, row_start + count_columns);
        out.push(row);
        row_index = row_index + 1;
    }
    out
}

/// The spans of the cells of each row.
pub fn row_patterns(rows: &Vec<&[Cell]>) -> (out: Vec<Vec<usize>>)
    ensures
        out@.len() == rows@.len(),
        forall|r: int|
            0 <= r < rows@.len() ==> nats((#[trigger] out@[r])@) == spans(slice_models(rows@[r]@)),
{
    let mut out: Vec<Vec<usize>> = Vec::new();
    let mut r: usize = 0;
    while r < rows.len()
        invariant
            r <= rows.len(),
            out@.len() == r,
            forall|q: int|
                0 <= q < r ==> nats((#[trigger] out@[q])@) == spans(slice_models(rows@[q]@)),
        decreases rows.len() - r,
    {
        let row = rows[r];
        let mut pattern: Vec<usize> = Vec::new();
        let mut j: usize = 0;
        while j < row.len()
            invariant
                j <= row.len(),
                pattern@.len() == j,
                forall|i: int| 0 <= i < j ==> (#[trigger] pattern@[i]) == row@[i]@.span,
            decreases row.len() - j,
        {
            pattern.push(row[j].row_span());
            j = j + 1;
        }
        assert(nats(pattern@) =~= spans(slice_models(row@)));
        out.push(pattern);
        r = r + 1;
    }
    out
}

/// The cells of each row that no span covers.
pub fn remove_covered_cells<'a>(rows: &Vec<&'a [Cell]>) -> (out: Vec<Vec<&'a Cell>>)
    ensures
        out@.len() == rows@.len(),
        forall|r: int|
            0 <= r < rows@.len() ==> ref_models((#[trigger] out@[r])@) == uncovered(
                slice_models(rows@[r]@),
                spans(slice_models(rows@[r]@)),
                rows@[r]@.len() as int,
            ),
{
    let mut out: Vec<Vec<&'a Cell>> = Vec::new();
    let mut r: usize = 0;
    while r < rows.len()
        invariant
            r <= rows.len(),
            out@.len() == r,
            forall|q: int|
                0 <= q < r ==> ref_models((#[trigger] out@[q])@) == uncovered(
                    slice_models(rows@[q]@),
                    spans(slice_models(rows@[q]@)),
                    rows@[q]@.len() as int,
                ),
        decreases rows.len() - r,
    {
        let row = rows[r];
        let ghost cells = slice_models(row@);
        let ghost pattern = spans(cells);
        let mut kept: Vec<&'a Cell> = Vec::new();
        let mut skip: usize = 0;
        let mut j: usize = 0;
        while j < row.len()
            invariant
                j <= row.len(),
                cells == slice_models(row@),
                pattern == spans(cells),
                skip == covered_after(pattern, j as int),
                ref_models(kept@) == uncovered(cells, pattern, j as int),
            decreases row.len() - j,
        {
            let cell = &row[j];
            if skip > 0 {
                skip = skip - 1;
            } else {
                skip = cell.row_span();
                assert(ref_models(kept@.push(cell)) =~= ref_models(kept@).push(cells[j as int]));
                kept.push(cell);
            }
            j = j + 1;
        }
        out.push(kept);
        r = r + 1;
    }
    out
}

/// Whether no span reaches past the last column of its row.
pub fn spans_fit(patterns: &Vec<Vec<usize>>) -> (fit: bool)
    ensures
        fit == spans_within(nat_rows(patterns@)),
{
    let ghost rows = nat_rows(patterns@);
    let mut r: usize = 0;
    while r < patterns.len()
        invariant
            r <= patterns.len(),
            rows == nat_rows(patterns@),
            forall|q: int|
                0 <= q < r ==> covered_after(#[trigger] rows[q], rows[q].len() as int) == 0,
        decreases patterns.len() - r,
    {
        let pattern = &patterns[r];
        assert(rows[r as int] == nats(pattern@));
        let mut skip: usize = 0;
        let mut j: usize = 0;
        while j < pattern.len()
            invariant
                j <= pattern.len(),
                skip == covered_after(nats(pattern@), j as int),
            decreases pattern.len() - j,
        {
            if skip > 0 {
                skip = skip - 1;
            } else {
                skip = pattern[j];
            }
            j = j + 1;
        }
        if skip > 0 {
            return false;
        }
        r = r + 1;
    }
    true
}

/// The weight of each cell.
pub fn row_weights(cells: &Vec<Vec<&Cell>>) -> (out: Vec<Vec<usize>>)
    ensures
        out@.len() == cells@.len(),
        forall|r: int| 0 <= r < out@.len() ==> (#[trigger] out@[r])@.len() == cells@[r]@.len(),
        forall|r: int, k: int|
            0 <= r < out@.len() && 0 <= k < out@[r]@.len() ==> (#[trigger] out@[r]@[k])
                == cells@[r]@[k]@.weight(),
{
    let mut out: Vec<Vec<usize>> = Vec::new();
    let mut r: usize = 0;
    while r < cells.len()
        invariant
            r <= cells.len(),
            out@.len() == r,
            forall|q: int| 0 <= q < r ==> (#[trigger] out@[q])@.len() == cells@[q]@.len(),
            forall|q: int, k: int|
                0 <= q < r && 0 <= k < out@[q]@.len() ==> (#[trigger] out@[q]@[k])
                    == cells@[q]@[k]@.weight(),
        decreases cells.len() - r,
    {
        let row = &cells[r];
        let mut weights: Vec<usize> = Vec::new();
        let mut k: usize = 0;
        while k < row.len()
            invariant
                k <= row.len(),
                weights@.len() == k,
                forall|j: int| 0 <= j < k ==> (#[trigger] weights@[j]) == row@[j]@.weight(),
            decreases row.len() - k,
        {
            weights.push(row[k].weight());
            k = k + 1;
        }
        out.push(weights);
        r = r + 1;
    }
    out
}

/// The height of each row.
pub fn row_heights(cells: &Vec<Vec<&Cell>>) -> (out: Vec<usize>)
    ensures
        out@.len() == cells@.len(),
        forall|r: int|
            0 <= r < out@.len() ==> (#[trigger] out@[r]) == tallest(ref_models(cells@[r]@)),
{
    let mut out: Vec<usize> = Vec::new();
    let mut r: usize = 0;
    while r < cells.len()
        invariant
            r <= cells.len(),
            out@.len() == r,
            forall|q: int|
                0 <= q < r ==> (#[trigger] out@[q]) == tallest(ref_models(cells@[q]@)),
        decreases cells.len() - r,
    {
        let row = &cells[r];
        let ghost models = ref_models(row@);
        let mut height: usize = 0;
        let mut k: usize = 0;
        while k < row.len()
            invariant
                k <= row.len(),
                models == ref_models(row@),
                height == tallest(models.take(k as int)),
            decreases row.len() - k,
        {
            assert(models.take(k + 1).drop_last() =~= models.take(k as int));
            let h = row[k].height();
            if h > height {
                height = h;
            }
            k = k + 1;
        }
        assert(models.take(row.len() as int) =~= models);
        out.push(height);
        r = r + 1;
    }
    out
}

/// The largest sum of a row's weights, or `None` where it is more than
/// `usize::MAX`.
pub fn natural_weight(weights: &Vec<Vec<usize>>) -> (out: Option<usize>)
    ensures
        match out {
            Some(w) => w == block_weight(nat_rows(weights@), 0, weights@.len() as int) && sums_fit(
                nat_rows(weights@),
            ),
            None => block_weight(nat_rows(weights@), 0, weights@.len() as int) > usize::MAX,
        },
{
    let ghost w = nat_rows(weights@);
    let mut most: usize = 0;
    let mut r: usize = 0;
    while r < weights.len()
        invariant
            r <= weights.len(),
            w == nat_rows(weights@),
            most == block_weight(w, 0, r as int),
            forall|q: int| 0 <= q < r ==> sum(#[trigger] w[q]) <= usize::MAX,
        decreases weights.len() - r,
    {
        assert(w[r as int] == nats(weights@[r as int]@));
        match checked_sum(&weights[r]) {
            Some(total) => {
                if total > most {
                    most = total;
                }
            },
            None => {
                proof {
                    lemma_block_weight_grows(w, r + 1, weights@.len() as int);
                }
                return None;
            },
        }
        r = r + 1;
    }
    Some(most)
}

/// The largest sum of a row's side paddings, or `None` where it is more than
/// `usize::MAX`.
pub fn widest_side_padding(cells: &Vec<Vec<&Cell>>) -> (out: Option<usize>)
    ensures
        match out {
            Some(p) => p == widest_padding(ref_rows(cells@), cells@.len() as int),
            None => widest_padding(ref_rows(cells@), cells@.len() as int) > usize::MAX,
        },
{
    let ghost rows = ref_rows(cells@);
    let mut most: usize = 0;
    let mut r: usize = 0;
    while r < cells.len()
        invariant
            r <= cells.len(),
            rows == ref_rows(cells@),
            most == widest_padding(rows, r as int),
        decreases cells.len() - r,
    {
        let row = &cells[r];
        let ghost pads = side_paddings(rows[r as int]);
        let mut paddings: Vec<usize> = Vec::new();
        let mut k: usize = 0;
        while k < row.len()
            invariant
                k <= row.len(),
                r < cells.len(),
                row@ == cells@[r as int]@,
                rows == ref_rows(cells@),
                pads == side_paddings(rows[r as int]),
                pads.len() == row@.len(),
                paddings@.len() == k,
                nats(paddings@) == pads.take(k as int),
            decreases row.len() - k,
        {
            let (_, _, left, right) = row[k].ident();
            match left.checked_add(right) {
                Some(both) => {
                    proof {
                        assert(rows[r as int] == ref_models(cells@[r as int]@));
                        assert(rows[r as int][k as int] == row@[k as int]@);
                        assert(pads[k as int] == both);
                        assert forall|j: int| 0 <= j < k implies nats(paddings@.push(both))[j]
                            == pads[j] by {
                            assert(nats(paddings@)[j] == pads.take(k as int)[j]);
                        }
                        assert(nats(paddings@.push(both)) =~= pads.take(k + 1));
                    }
                    paddings.push(both);
                },
                None => {
                    proof {
                        lemma_sum_bounds_each(pads, k as int);
                        lemma_widest_padding_grows(rows, r + 1, cells@.len() as int);
                    }
                    return None;
                },
            }
            k = k + 1;
        }
        assert(pads.take(row.len() as int) =~= pads);
        let total = checked_sum(&paddings);
        match total {
            Some(t) => {
                if t > most {
                    most = t;
                }
            },
            None => {
                proof {
                    lemma_widest_padding_grows(rows, r + 1, cells@.len() as int);
                }
                return None;
            },
        }
        r = r + 1;
    }
    Some(most)
}

/// Whether the extent of a table with these measures fits a `usize`.
pub fn extent_fits(columns: usize, weight: usize, padding: usize) -> (fits: bool)
    ensures
        fits == (columns * (weight + SEARCH_LIMIT + 1) + padding <= usize::MAX),
        fits && columns > 0 ==> weight + SEARCH_LIMIT + 1 <= usize::MAX,
{
    if columns == 0 {
        assert(columns * (weight + SEARCH_LIMIT + 1) == 0) by (nonlinear_arith)
            requires
                columns == 0,
        ;
        return true;
    }
    let widest: u128 = weight as u128 + SEARCH_LIMIT as u128 + 1;
    if widest > usize::MAX as u128 {
        assert(columns * (weight + SEARCH_LIMIT + 1) >= weight + SEARCH_LIMIT + 1)
            by (nonlinear_arith)
            requires
                columns >= 1,
        ;
        return false;
    }
    assert(columns * (weight + SEARCH_LIMIT + 1) <= usize::MAX * usize::MAX) by (nonlinear_arith)
        requires
            columns <= usize::MAX,
            weight + SEARCH_LIMIT + 1 <= usize::MAX,
    ;
    let all: u128 = (columns as u128) * widest + (padding as u128);
    all <= usize::MAX as u128
}

/// How many items are not covered depends on the pattern alone, and is at
/// most the number of items looked at.
pub proof fn lemma_uncovered_len<T>(row: Seq<T>, pattern: Seq<nat>, n: int)
    requires
        0 <= n,
    ensures
        uncovered(row, pattern, n).len() == uncovered(pattern, pattern, n).len(),
        uncovered(row, pattern, n).len() <= n,
        n > 0 ==> uncovered(row, pattern, n).len() > 0,
    decreases n,
{
    if n > 0 {
        lemma_uncovered_len(row, pattern, n - 1);
        if n == 1 {
            assert(covered_after(pattern, 0) == 0);
        }
    }
}

/// The table of a well-formed grid with a column is well formed.
pub proof fn lemma_table_wf(grid: GridModel)
    requires
        grid.wf(),
        grid.columns > 0,
    ensures
        grid.table().wf(),
{
    let table = grid.table();
    assert forall|r: int| 0 <= r < table.cells.len() implies (#[trigger] table.patterns[r]).len()
        == table.columns by {
        lemma_index_in_grid(grid.rows, grid.columns, r as nat, grid.columns);
    }
    assert forall|r: int| 0 <= r < table.cells.len() implies (#[trigger] table.cells[r]).len()
        == uncovered(table.patterns[r], table.patterns[r], table.columns as int).len() by {
        lemma_uncovered_len(grid.row(r), grid.pattern(r), grid.columns as int);
    }
}

/// No cell has more lines than the tallest.
pub proof fn lemma_tallest_bounds(cells: Seq<CellModel>, i: int)
    requires
        0 <= i < cells.len(),
    ensures
        cells[i].height() <= tallest(cells),
    decreases cells.len(),
{
    if i < cells.len() - 1 {
        lemma_tallest_bounds(cells.drop_last(), i);
    }
}

/// The largest padding among more rows is not less.
pub proof fn lemma_widest_padding_grows(rows: Seq<Seq<CellModel>>, mid: int, hi: int)
    requires
        0 <= mid <= hi,
    ensures
        widest_padding(rows, mid) <= widest_padding(rows, hi),
    decreases hi - mid,
{
    if mid < hi {
        lemma_widest_padding_grows(rows, mid, hi - 1);
    }
}

/// In a well-formed table no share is more than its whole, no whole more
/// than the natural weight, and the share of a cell at least its own weight.
pub proof fn lemma_shares_proper(table: TableModel)
    requires
        table.wf(),
    ensures
        proper(table.shares()),
        wholes_within(table.shares(), table.natural_weight()),
        rows_within(table.shares(), table.columns),
        forall|r: int, k: int|
            0 <= r < table.cells.len() && 0 <= k < table.cells[r].len()
                ==> table.cells[r][k].weight() <= (#[trigger] table.shares()[r][k]).part,
{
    let shares = table.shares();
    let weights = table.weights();
    let n = table.cells.len() as int;
    assert forall|r: int, k: int| 0 <= r < shares.len() && 0 <= k < shares[r].len() implies (
    #[trigger] shares[r][k]).part <= shares[r][k].whole && shares[r][k].whole
        <= table.natural_weight() && table.cells[r][k].weight() <= shares[r][k].part by {
        let lo = block_start(table.patterns, r);
        let hi = block_end(table.patterns, r);
        lemma_block_bounds(table.patterns, r);
        lemma_block_weight_within(weights, lo, hi, n);
        assert forall|q: int| lo <= q < hi implies (0 <= k && k < (
        #[trigger] weights[q]).len()) by {
            lemma_block_pattern(table.patterns, r, q);
            assert(table.cells[q].len() == table.cells[r].len());
        }
        lemma_column_weight_bounds(weights, lo, hi, k);
        assert(weights[r][k] == table.cells[r][k].weight());
    }
    assert forall|r: int| 0 <= r < shares.len() implies (#[trigger] shares[r]).len()
        <= table.columns by {
        assert(shares[r].len() == table.cells[r].len());
        lemma_uncovered_len(table.patterns[r], table.patterns[r], table.columns as int);
    }
}

} // verus!
