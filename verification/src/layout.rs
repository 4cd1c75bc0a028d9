//! The search for a grid width at which every row is as wide as every other,
//! and the sizes of the cells at that width.

use crate::portion::{lemma_share_bounds, portion_rows, proper, Portion, PortionModel};
use crate::sums::{nats, sum, sum_of};
use vstd::prelude::*;

verus! {

/// How many widths further than the first the search for a balanced width
/// tries.
pub const SEARCH_LIMIT: usize = 65536;

/// The widths of the cells of a row at a grid width of `weight`.
pub open spec fn widths(shares: Seq<PortionModel>, weight: nat) -> Seq<nat> {
    Seq::new(shares.len(), |k: int| shares[k].of(weight))
}

/// The widths of all cells at a grid width of `weight`, row by row.
pub open spec fn size_at(shares: Seq<Seq<PortionModel>>, weight: nat) -> Seq<Seq<nat>> {
    Seq::new(shares.len(), |r: int| widths(shares[r], weight))
}

/// How many of the widths are not 0: the cells of a row that are drawn.
pub open spec fn drawn(ws: Seq<nat>) -> nat
    decreases ws.len(),
{
    if ws.len() == 0 {
        0
    } else {
        drawn(ws.drop_last()) + if ws.last() > 0 {
            1nat
        } else {
            0nat
        }
    }
}

/// The width of a row: the widths of its cells that are drawn, and one
/// character between each two of them.
pub open spec fn row_total(ws: Seq<nat>) -> int {
    sum(ws) + drawn(ws) - 1
}

/// Whether every row is as wide as the first.
pub open spec fn balanced(rows: Seq<Seq<nat>>) -> bool {
    forall|r: int| 0 <= r < rows.len() ==> row_total(#[trigger] rows[r]) == row_total(rows[0])
}

/// The first grid width from `weight` on at which every row is as wide as
/// every other, among `weight` and the `tries` widths after it.
pub open spec fn balance(shares: Seq<Seq<PortionModel>>, weight: nat, tries: nat) -> Option<nat>
    decreases tries,
{
    if balanced(size_at(shares, weight)) {
        Some(weight)
    } else if tries == 0 {
        None
    } else {
        balance(shares, weight + 1, (tries - 1) as nat)
    }
}

/// The widths in a row of sizes.
pub open spec fn size_widths(row: Seq<(usize, usize)>) -> Seq<nat> {
    Seq::new(row.len(), |k: int| row[k].0 as nat)
}

/// The widths in a table of sizes, row by row.
pub open spec fn size_rows(v: Seq<Vec<(usize, usize)>>) -> Seq<Seq<nat>> {
    Seq::new(v.len(), |r: int| size_widths(v[r]@))
}

/// Whether every size of row `r` has the height `heights[r]`.
pub open spec fn heights_are(v: Seq<Vec<(usize, usize)>>, heights: Seq<usize>) -> bool {
    &&& v.len() == heights.len()
    &&& forall|r: int, k: int|
        0 <= r < v.len() && 0 <= k < v[r]@.len() ==> (#[trigger] v[r]@[k]).1 == heights[r]
}

/// Whether each row has a cell that is drawn, and its width fits a `usize`.
pub open spec fn rows_fit(rows: Seq<Seq<nat>>) -> bool {
    forall|r: int|
        0 <= r < rows.len() ==> drawn(#[trigger] rows[r]) >= 1 && sum(rows[r]) + rows[r].len()
            <= usize::MAX
}

/// Whether the row has a share that is not 0.
pub open spec fn has_part(row: Seq<PortionModel>) -> bool {
    exists|k: int| 0 <= k < row.len() && (#[trigger] row[k]).part > 0
}

/// Whether each row has a share that is not 0.
pub open spec fn no_row_empty(shares: Seq<Seq<PortionModel>>) -> bool {
    forall|r: int| 0 <= r < shares.len() ==> has_part(#[trigger] shares[r])
}

/// Whether no whole is more than `weight`.
pub open spec fn wholes_within(shares: Seq<Seq<PortionModel>>, weight: nat) -> bool {
    forall|r: int, k: int|
        0 <= r < shares.len() && 0 <= k < shares[r].len() ==> (#[trigger] shares[r][k]).whole
            <= weight
}

/// Whether no row has more than `columns` cells.
pub open spec fn rows_within<T>(rows: Seq<Seq<T>>, columns: nat) -> bool {
    forall|r: int| 0 <= r < rows.len() ==> (#[trigger] rows[r]).len() <= columns
}

/// The width of a row of cells: their widths and one character between each
/// two of them.
pub fn row_weight(row: &Vec<usize>) -> (total: usize)
    requires
        row.len() >= 1,
        sum(nats(row@)) + row.len() <= usize::MAX,
    ensures
        total == sum(nats(row@)) + row.len() - 1,
{
    sum_of(row) + row.len() - 1
}

/// The width of one row of sizes, counting the cells that are drawn.
fn drawn_weight(row: &Vec<(usize, usize)>) -> (total: usize)
    requires
        drawn(size_widths(row@)) >= 1,
        sum(size_widths(row@)) + row@.len() <= usize::MAX,
    ensures
        total == row_total(size_widths(row@)),
{
    let ghost ws = size_widths(row@);
    let mut kept: Vec<usize> = Vec::new();
    let mut k: usize = 0;
    while k < row.len()
        invariant
            k <= row.len(),
            ws == size_widths(row@),
            kept@.len() == drawn(ws.take(k as int)),
            sum(nats(kept@)) == sum(ws.take(k as int)),
            kept@.len() <= k,
        decreases row.len() - k,
    {
        assert(ws.take(k + 1).drop_last() =~= ws.take(k as int));
        let w = row[k].0;
        if w > 0 {
            assert(nats(kept@.push(w)).drop_last() =~= nats(kept@));
            kept.push(w);
        }
        k = k + 1;
    }
    assert(ws.take(row.len() as int) =~= ws);
    row_weight(&kept)
}

/// Whether the rows of sizes are all equally wide.
pub fn is_rows_size(rows: &Vec<Vec<(usize, usize)>>) -> (equal: bool)
    requires
        rows_fit(size_rows(rows@)),
    ensures
        equal == balanced(size_rows(rows@)),
{
    if rows.len() == 0 {
        return true;
    }
    let ghost m = size_rows(rows@);
    assert(m[0] == size_widths(rows@[0]@));
    let first = drawn_weight(&rows[0]);
    let mut r: usize = 1;
    while r < rows.len()
        invariant
            1 <= r <= rows.len(),
            m == size_rows(rows@),
            rows_fit(m),
            first == row_total(m[0]),
            forall|q: int| 0 <= q < r ==> row_total(#[trigger] m[q]) == first,
        decreases rows.len() - r,
    {
        assert(m[r as int] == size_widths(rows@[r as int]@));
        let total = drawn_weight(&rows[r]);
        if total != first {
            return false;
        }
        r = r + 1;
    }
    true
}

/// The size of each cell at a grid width of `weight`: its share of the
/// width, and the height of its row.
pub fn measure_cell_size(
    portions: &Vec<Vec<Portion>>,
    rows_height: &Vec<usize>,
    weight: usize,
) -> (out: Vec<Vec<(usize, usize)>>)
    requires
        proper(portion_rows(portions@)),
        rows_height@.len() == portions@.len(),
    ensures
        size_rows(out@) == size_at(portion_rows(portions@), weight as nat),
        heights_are(out@, rows_height@),
{
    let ghost shares = portion_rows(portions@);
    let mut out: Vec<Vec<(usize, usize)>> = Vec::new();
    let mut r: usize = 0;
    while r < portions.len()
        invariant
            r <= portions.len(),
            rows_height@.len() == portions@.len(),
            shares == portion_rows(portions@),
            proper(shares),
            out@.len() == r,
            forall|q: int| 0 <= q < r ==> (#[trigger] out@[q])@.len() == shares[q].len(),
            forall|q: int, k: int|
                0 <= q < r && 0 <= k < shares[q].len() ==> (#[trigger] out@[q]@[k]) == (
                    shares[q][k].of(weight as nat) as usize,
                    rows_height@[q],
                ),
            forall|q: int, k: int|
                0 <= q < r && 0 <= k < shares[q].len() ==> (#[trigger] shares[q][k]).of(
                    weight as nat,
                ) <= weight,
        decreases portions.len() - r,
    {
        let row = &portions[r];
        let mut sizes: Vec<(usize, usize)> = Vec::new();
        let mut k: usize = 0;
        while k < row.len()
            invariant
                k <= row.len(),
                r < portions.len(),
                rows_height@.len() == portions@.len(),
                row@ == portions@[r as int]@,
                shares == portion_rows(portions@),
                proper(shares),
                sizes@.len() == k,
                forall|j: int|
                    0 <= j < k ==> (#[trigger] sizes@[j]) == (
                        shares[r as int][j].of(weight as nat) as usize,
                        rows_height@[r as int],
                    ),
                forall|j: int|
                    0 <= j < k ==> (#[trigger] shares[r as int][j]).of(weight as nat) <= weight,
            decreases row.len() - k,
        {
            assert(shares[r as int][k as int] == row@[k as int]@);
            let share = row[k].of(weight);
            sizes.push((share, rows_height[r]));
            k = k + 1;
        }
        out.push(sizes);
        r = r + 1;
    }
    assert(size_rows(out@) =~~= size_at(shares, weight as nat));
    out
}

/// Searches, from `weight` on, for the first grid width at which every row
/// is as wide as every other, and gives the sizes of the cells at that
/// width; `None` where there is none among `weight` and the
/// [`SEARCH_LIMIT`] widths after it.
pub fn cell_size(
    portions: &Vec<Vec<Portion>>,
    rows_height: &Vec<usize>,
    weight: usize,
    columns: usize,
) -> (out: Option<Vec<Vec<(usize, usize)>>>)
    requires
        proper(portion_rows(portions@)),
        no_row_empty(portion_rows(portions@)),
        wholes_within(portion_rows(portions@), weight as nat),
        rows_within(portion_rows(portions@), columns as nat),
        rows_height@.len() == portions@.len(),
        columns * (weight + SEARCH_LIMIT + 1) <= usize::MAX,
    ensures
        match balance(portion_rows(portions@), weight as nat, SEARCH_LIMIT as nat) {
            Some(w) => out matches Some(sizes) && size_rows(sizes@) == size_at(
                portion_rows(portions@),
                w,
            ) && heights_are(sizes@, rows_height@),
            None => out is None,
        },
{
    let ghost shares = portion_rows(portions@);
    let mut w = weight;
    let mut tries = SEARCH_LIMIT;
    proof {
        if columns > 0 {
            assert(weight + SEARCH_LIMIT + 1 <= columns * (weight + SEARCH_LIMIT + 1))
                by (nonlinear_arith)
                requires
                    columns > 0,
            ;
        } else {
            assert(shares.len() == 0) by {
                if shares.len() > 0 {
                    assert(has_part(shares[0]));
                }
            }
        }
    }
    if columns == 0 {
        let sizes = measure_cell_size(portions, rows_height, w);
        assert(balanced(size_at(shares, weight as nat)));
        return Some(sizes);
    }
    loop
        invariant
            shares == portion_rows(portions@),
            proper(shares),
            no_row_empty(shares),
            wholes_within(shares, w as nat),
            rows_within(shares, columns as nat),
            rows_height@.len() == portions@.len(),
            w + tries == weight + SEARCH_LIMIT,
            columns * (weight + SEARCH_LIMIT + 1) <= usize::MAX,
            columns > 0,
            weight + SEARCH_LIMIT + 1 <= usize::MAX,
            balance(shares, weight as nat, SEARCH_LIMIT as nat) == balance(
                shares,
                w as nat,
                tries as nat,
            ),
        decreases tries,
    {
        let sizes = measure_cell_size(portions, rows_height, w);
        proof {
            assert(columns * (w + 1) <= columns * (weight + SEARCH_LIMIT + 1)) by (nonlinear_arith)
                requires
                    w + 1 <= weight + SEARCH_LIMIT + 1,
            ;
            lemma_size_fits(shares, w as nat, columns as nat);
        }
        if is_rows_size(&sizes) {
            return Some(sizes);
        }
        if tries == 0 {
            return None;
        }
        w = w + 1;
        tries = tries - 1;
    }
}

/// The sum of numbers that are each at most `bound`.
pub proof fn lemma_sum_at_most(s: Seq<nat>, bound: nat)
    requires
        forall|k: int| 0 <= k < s.len() ==> s[k] <= bound,
    ensures
        sum(s) <= s.len() * bound,
        drawn(s) <= s.len(),
    decreases s.len(),
{
    if s.len() > 0 {
        lemma_sum_at_most(s.drop_last(), bound);
        assert((s.len() - 1) * bound + bound == s.len() * bound) by (nonlinear_arith);
    }
}

/// A row with a width that is not 0 has a cell that is drawn.
pub proof fn lemma_drawn_positive(s: Seq<nat>, k: int)
    requires
        0 <= k < s.len(),
        s[k] > 0,
    ensures
        drawn(s) >= 1,
    decreases s.len(),
{
    if k < s.len() - 1 {
        lemma_drawn_positive(s.drop_last(), k);
    }
}

/// At a grid width that no whole is more than, every row that has a share
/// has a cell that is drawn, and no row is wider than its cells at the full
/// width with one character for each.
pub proof fn lemma_size_fits(shares: Seq<Seq<PortionModel>>, weight: nat, columns: nat)
    requires
        proper(shares),
        no_row_empty(shares),
        wholes_within(shares, weight),
        rows_within(shares, columns),
        columns * (weight + 1) <= usize::MAX,
    ensures
        rows_fit(size_at(shares, weight)),
{
    let rows = size_at(shares, weight);
    assert forall|r: int| 0 <= r < rows.len() implies drawn(#[trigger] rows[r]) >= 1 && sum(
        rows[r],
    ) + rows[r].len() <= usize::MAX by {
        assert(has_part(shares[r]));
        let k = choose|k: int| 0 <= k < shares[r].len() && (#[trigger] shares[r][k]).part > 0;
        lemma_share_bounds(weight, shares[r][k].part, shares[r][k].whole);
        lemma_drawn_positive(rows[r], k);
        assert forall|j: int| 0 <= j < rows[r].len() implies rows[r][j] <= weight by {
            if shares[r][j].whole > 0 {
                lemma_share_bounds(weight, shares[r][j].part, shares[r][j].whole);
            }
        }
        lemma_sum_at_most(rows[r], weight);
        let n = rows[r].len();
        assert(n * weight + n <= columns * (weight + 1)) by (nonlinear_arith)
            requires
                n <= columns,
        ;
    }
}

/// The width that the search finds lies among those that it tries, and
/// every row is as wide as every other there.
pub proof fn lemma_balance_found(shares: Seq<Seq<PortionModel>>, weight: nat, tries: nat)
    ensures
        balance(shares, weight, tries) matches Some(w) ==> weight <= w <= weight + tries
            && balanced(size_at(shares, w)),
    decreases tries,
{
    if !balanced(size_at(shares, weight)) && tries > 0 {
        lemma_balance_found(shares, weight + 1, (tries - 1) as nat);
    }
}

} // verus!
