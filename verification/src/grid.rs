//! The grid: a matrix of cells, stored row by row.

use crate::cell::{Cell, CellModel};
use crate::render::{render_rows, table_of, text_of, LayoutError};
use crate::sums::nats;
use crate::table::{
    lemma_table_wf, ref_models, remove_covered_cells, row_patterns, rows, slice_models,
};
use vstd::prelude::*;

verus! {

/// What a grid is: the view of a [`Grid`].
pub struct GridModel {
    pub rows: nat,
    pub columns: nat,
    /// The cells, row by row.
    pub cells: Seq<CellModel>,
}

impl GridModel {
    /// Whether there is one cell for each row and column.
    pub open spec fn wf(self) -> bool {
        self.cells.len() == self.rows * self.columns
    }

    /// The cell in row `i` and column `j`.
    pub open spec fn at(self, i: int, j: int) -> CellModel {
        self.cells[i * self.columns + j]
    }

    /// The cells of row `i`.
    pub open spec fn row(self, i: int) -> Seq<CellModel> {
        self.cells.subrange(i * self.columns, (i + 1) * self.columns)
    }

    /// The grid of `rows` rows and `columns` columns whose cells are blank.
    pub open spec fn blank(rows: nat, columns: nat) -> GridModel {
        GridModel { rows, columns, cells: Seq::new(rows * columns, |i: int| CellModel::blank()) }
    }
}

/// The cells that a vector of cells holds.
pub open spec fn cell_models(v: Seq<Cell>) -> Seq<CellModel> {
    Seq::new(v.len(), |i: int| v[i]@)
}

/// A matrix of cells that is rendered as a bordered grid of text.
pub struct Grid {
    size: (usize, usize),
    cells: Vec<Cell>,
}

impl View for Grid {
    type V = GridModel;

    closed spec fn view(&self) -> GridModel {
        GridModel {
            rows: self.size.0 as nat,
            columns: self.size.1 as nat,
            cells: cell_models(self.cells@),
        }
    }
}

impl Grid {
    /// There is one cell for each row and column.
    #[verifier::type_invariant]
    spec fn well_formed(&self) -> bool {
        self.cells@.len() == self.size.0 * self.size.1
    }

    /// A grid of `rows` rows and `columns` columns of blank cells.
    pub fn new(rows: usize, columns: usize) -> (grid: Self)
        requires
            rows * columns <= usize::MAX,
        ensures
            grid@ == GridModel::blank(rows as nat, columns as nat),
    {
        let count = rows * columns;
        let mut cells: Vec<Cell> = Vec::new();
        let mut i: usize = 0;
        while i < count
            invariant
                i <= count,
                cells@.len() == i,
                forall|k: int| 0 <= k < i ==> (#[trigger] cells@[k])@ == CellModel::blank(),
            decreases count - i,
        {
            cells.push(Cell::new());
            i = i + 1;
        }
        let grid = Grid { size: (rows, columns), cells };
        assert(grid@.cells =~= GridModel::blank(rows as nat, columns as nat).cells);
        grid
    }

    /// The cell in row `i` and column `j`, to be changed in place.
    pub fn cell(&mut self, i: usize, j: usize) -> (cell: &mut Cell)
        requires
            i < old(self)@.rows,
            j < old(self)@.columns,
        ensures
            old(self)@.wf(),
            cell@ == old(self)@.at(i as int, j as int),
            final(self)@.rows == old(self)@.rows,
            final(self)@.columns == old(self)@.columns,
            final(self)@.cells == old(self)@.cells.update(
                i * old(self)@.columns + j,
                final(cell)@,
            ),
    {
        let count = self.cells.len();
        proof {
            use_type_invariant(&*self);
            lemma_index_in_grid(self.size.0 as nat, self.size.1 as nat, i as nat, j as nat);
        }
        let index = self.size.1 * i + j;
        &mut self.cells[index]
    }

    /// Renders the grid: every row between border lines, every cell between
    /// border glyphs, a line feed after each line. A grid without rows or
    /// without columns gives the empty text.
    pub fn render(&self) -> (out: Result<String, LayoutError>)
        ensures
            text_of(out) == self@.rendered(),
    {
        if self.size.0 == 0 || self.size.1 == 0 {
            let empty = String::new();
            assert(empty@ =~= Seq::<char>::empty());
            return Ok(empty);
        }
        proof {
            use_type_invariant(self);
        }
        let rows = rows(self.cells.as_slice(), self.size.0, self.size.1);
        let patterns = row_patterns(&rows);
        let cells = remove_covered_cells(&rows);
        proof {
            let columns = self.size.1;
            let table = table_of(columns, patterns@, cells@);
            assert forall|i: int| 0 <= i < self.size.0 implies slice_models(
                (#[trigger] rows@[i])@,
            ) == self@.row(i) by {
                lemma_index_in_grid(self.size.0 as nat, columns as nat, i as nat, columns as nat);
                assert(slice_models(rows@[i]@) =~= self@.row(i));
            }
            assert forall|i: int| 0 <= i < self.size.0 implies (#[trigger] table.patterns[i])
                == self@.pattern(i) && table.cells[i] == self@.visible(i) by {
                lemma_index_in_grid(self.size.0 as nat, columns as nat, i as nat, columns as nat);
                assert(slice_models(rows@[i]@) == self@.row(i));
                assert(table.patterns[i] == nats(patterns@[i]@));
                assert(table.cells[i] == ref_models(cells@[i]@));
                assert(rows@[i]@.len() == columns);
            }
            assert(table.patterns =~= self@.table().patterns);
            assert forall|i: int| 0 <= i < self.size.0 implies (#[trigger] table.cells[i])
                == self@.visible(i) by {
                assert(table.patterns[i] == self@.pattern(i));
            }
            assert(table.cells =~= self@.table().cells);
            lemma_table_wf(self@);
            assert(table == self@.table());
        }
        render_rows(self.size.1, &patterns, &cells)
    }

    /// The number of rows.
    pub fn count_rows(&self) -> (n: usize)
        ensures
            n == self@.rows,
            self@.wf(),
    {
        proof {
            use_type_invariant(self);
        }
        self.size.0
    }

    /// The number of columns.
    pub fn count_columns(&self) -> (n: usize)
        ensures
            n == self@.columns,
            self@.wf(),
    {
        proof {
            use_type_invariant(self);
        }
        self.size.1
    }
}

/// The place of a cell in the row-by-row order lies within the grid, and the
/// rows lie one after the other.
pub proof fn lemma_index_in_grid(rows: nat, columns: nat, i: nat, j: nat)
    requires
        i < rows,
        j <= columns,
    ensures
        columns * i + j <= rows * columns,
        j < columns ==> columns * i + j < rows * columns,
        i * columns == columns * i,
        (i + 1) * columns == columns * i + columns,
{
    assert(columns * i + columns <= rows * columns) by (nonlinear_arith)
        requires
            i + 1 <= rows,
    ;
    assert(i * columns == columns * i) by (nonlinear_arith);
    assert((i + 1) * columns == columns * i + columns) by (nonlinear_arith);
}

} // verus!
