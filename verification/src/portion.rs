//! The share of the grid's width that each cell gets: a fraction that the
//! rows of a block have in common.

use crate::blocks::{
    are_blocks, block_end, block_is, block_start, lemma_block_end_bounds, lemma_block_pattern_after,
    row_blocks,
};
use crate::sums::{lemma_sum_bounds_each, nat_rows, nats, sum, sum_of};
use vstd::prelude::*;

verus! {

/// A share of a width, as a fraction: the view of a [`Portion`].
pub struct PortionModel {
    pub part: nat,
    pub whole: nat,
}

impl PortionModel {
    /// The share of `weight`, rounded down; 0 where the whole is 0.
    pub open spec fn of(self, weight: nat) -> nat {
        if self.whole == 0 {
            0
        } else {
            weight * self.part / self.whole
        }
    }
}

/// A share of a width, as a fraction of two weights.
#[derive(Clone, Copy, Debug, PartialEq, Eq, Structural)]
pub struct Portion {
    pub part: usize,
    pub whole: usize,
}

impl View for Portion {
    type V = PortionModel;

    open spec fn view(&self) -> PortionModel {
        PortionModel { part: self.part as nat, whole: self.whole as nat }
    }
}

impl Portion {
    /// The share of `weight`, rounded down; 0 where the whole is 0.
    pub fn of(&self, weight: usize) -> (share: usize)
        requires
            self.part <= self.whole,
        ensures
            share == self@.of(weight as nat),
            share <= weight,
    {
        if self.whole == 0 {
            0
        } else {
            proof {
                lemma_share_bounds(weight as nat, self.part as nat, self.whole as nat);
                assert(weight * self.part <= usize::MAX * usize::MAX) by (nonlinear_arith)
                    requires
                        weight <= usize::MAX,
                        self.part <= usize::MAX,
                ;
            }
            let product: u128 = (weight as u128) * (self.part as u128);
            (product / (self.whole as u128)) as usize
        }
    }
}

/// The largest weight at position `k` among the rows from `lo` up to `hi`.
pub open spec fn column_weight(weights: Seq<Seq<nat>>, lo: int, hi: int, k: int) -> nat
    decreases hi - lo,
{
    if hi <= lo {
        0
    } else {
        let rest = column_weight(weights, lo, hi - 1, k);
        if weights[hi - 1][k] > rest {
            weights[hi - 1][k]
        } else {
            rest
        }
    }
}

/// The largest sum of a row's weights among the rows from `lo` up to `hi`.
pub open spec fn block_weight(weights: Seq<Seq<nat>>, lo: int, hi: int) -> nat
    decreases hi - lo,
{
    if hi <= lo {
        0
    } else {
        let rest = block_weight(weights, lo, hi - 1);
        if sum(weights[hi - 1]) > rest {
            sum(weights[hi - 1])
        } else {
            rest
        }
    }
}

/// The share of the width that the cell at position `k` of row `r` gets: the
/// largest weight at that position among the rows of the block, by the
/// largest sum of a row's weights among them.
pub open spec fn portion(patterns: Seq<Seq<nat>>, weights: Seq<Seq<nat>>, r: int, k: int)
    -> PortionModel {
    let lo = block_start(patterns, r);
    let hi = block_end(patterns, r);
    PortionModel {
        part: column_weight(weights, lo, hi, k),
        whole: block_weight(weights, lo, hi),
    }
}

/// The shares of all cells, row by row. The rows of one block have the same
/// shares.
pub open spec fn portions(patterns: Seq<Seq<nat>>, weights: Seq<Seq<nat>>) -> Seq<
    Seq<PortionModel>,
> {
    Seq::new(
        weights.len(),
        |r: int| Seq::new(weights[r].len(), |k: int| portion(patterns, weights, r, k)),
    )
}

/// The shares that a vector of vectors holds.
pub open spec fn portion_rows(v: Seq<Vec<Portion>>) -> Seq<Seq<PortionModel>> {
    Seq::new(v.len(), |r: int| Seq::new(v[r]@.len(), |k: int| v[r]@[k]@))
}

/// Whether no share is more than the whole.
pub open spec fn proper(rows: Seq<Seq<PortionModel>>) -> bool {
    forall|r: int, k: int|
        0 <= r < rows.len() && 0 <= k < rows[r].len() ==> (#[trigger] rows[r][k]).part
            <= rows[r][k].whole
}

/// Whether there is a row of weights for each pattern, and two rows that
/// follow each other with one pattern have equally many weights.
pub open spec fn well_shaped(patterns: Seq<Seq<nat>>, weights: Seq<Seq<nat>>) -> bool {
    &&& patterns.len() == weights.len()
    &&& forall|r: int|
        0 < r < patterns.len() && patterns[r] == patterns[r - 1] ==> (#[trigger] weights[r]).len()
            == weights[r - 1].len()
}

/// Whether the sum of each row fits a `usize`.
pub open spec fn sums_fit(weights: Seq<Seq<nat>>) -> bool {
    forall|r: int| 0 <= r < weights.len() ==> sum(#[trigger] weights[r]) <= usize::MAX
}

/// The column weights and the weight of the block of the rows from `lo` up
/// to `hi`.
fn measure_block(weights: &Vec<Vec<usize>>, lo: usize, hi: usize) -> (out: (Vec<usize>, usize))
    requires
        lo < hi <= weights.len(),
        sums_fit(nat_rows(weights@)),
        forall|q: int|
            lo <= q < hi ==> (#[trigger] weights@[q])@.len() == weights@[lo as int]@.len(),
    ensures
        out.0@.len() == weights@[lo as int]@.len(),
        forall|k: int|
            0 <= k < out.0@.len() ==> (#[trigger] out.0@[k]) == column_weight(
                nat_rows(weights@),
                lo as int,
                hi as int,
                k,
            ),
        out.1 == block_weight(nat_rows(weights@), lo as int, hi as int),
        forall|k: int| 0 <= k < out.0@.len() ==> (#[trigger] out.0@[k]) <= out.1,
{
    let ghost w = nat_rows(weights@);
    let width = weights[lo].len();
    let mut parts: Vec<usize> = Vec::new();
    let mut k: usize = 0;
    while k < width
        invariant
            k <= width,
            parts@.len() == k,
            forall|j: int| 0 <= j < k ==> (#[trigger] parts@[j]) == 0,
        decreases width - k,
    {
        parts.push(0);
        k = k + 1;
    }
    let mut whole: usize = 0;
    let mut r: usize = lo;
    while r < hi
        invariant
            lo <= r <= hi,
            hi <= weights.len(),
            w == nat_rows(weights@),
            sums_fit(w),
            width == weights@[lo as int]@.len(),
            forall|q: int| lo <= q < hi ==> (#[trigger] weights@[q])@.len() == width,
            parts@.len() == width,
            forall|j: int|
                0 <= j < width ==> (#[trigger] parts@[j]) == column_weight(
                    w,
                    lo as int,
                    r as int,
                    j,
                ),
            whole == block_weight(w, lo as int, r as int),
            forall|j: int| 0 <= j < width ==> (#[trigger] parts@[j]) <= whole,
        decreases hi - r,
    {
        let row = &weights[r];
        assert(w[r as int] == nats(row@));
        let total = sum_of(row);
        let mut k: usize = 0;
        while k < width
            invariant
                k <= width,
                width == row@.len(),
                width == parts@.len(),
                lo <= r < hi,
                hi <= weights.len(),
                row@ == weights@[r as int]@,
                w == nat_rows(weights@),
                total == sum(w[r as int]),
                forall|j: int|
                    0 <= j < k ==> (#[trigger] parts@[j]) == column_weight(w, lo as int, r + 1, j),
                forall|j: int|
                    k <= j < width ==> (#[trigger] parts@[j]) == column_weight(
                        w,
                        lo as int,
                        r as int,
                        j,
                    ),
                forall|j: int| 0 <= j < k ==> (#[trigger] parts@[j]) <= (if total > whole {
                    total
                } else {
                    whole
                }),
                forall|j: int| k <= j < width ==> (#[trigger] parts@[j]) <= whole,
            decreases width - k,
        {
            proof {
                assert(w[r as int][k as int] == row@[k as int]);
                lemma_sum_bounds_each(w[r as int], k as int);
                lemma_column_weight_step(w, lo as int, r as int, k as int);
            }
            if row[k] > parts[k] {
                parts.set(k, row[k]);
            }
            k = k + 1;
        }
        if total > whole {
            whole = total;
        }
        r = r + 1;
    }
    (parts, whole)
}

/// The share of the width that each cell gets, row by row. `patterns` holds
/// for each row the spans of all its cells, `weights` for each row the
/// weights of the cells that are not covered.
pub fn row_portions_blocks(patterns: &Vec<Vec<usize>>, weights: &Vec<Vec<usize>>) -> (out: Vec<
    Vec<Portion>,
>)
    requires
        well_shaped(nat_rows(patterns@), nat_rows(weights@)),
        sums_fit(nat_rows(weights@)),
    ensures
        portion_rows(out@) == portions(nat_rows(patterns@), nat_rows(weights@)),
        proper(portion_rows(out@)),
{
    let ghost p = nat_rows(patterns@);
    let ghost w = nat_rows(weights@);
    let blocks = row_blocks(patterns);
    let mut out: Vec<Vec<Portion>> = Vec::new();
    let mut b: usize = 0;
    while b < blocks.len()
        invariant
            b <= blocks.len(),
            p == nat_rows(patterns@),
            w == nat_rows(weights@),
            well_shaped(p, w),
            sums_fit(w),
            are_blocks(blocks@, p),
            p.len() == w.len(),
            out@.len() <= p.len(),
            b < blocks.len() ==> out@.len() == blocks@[b as int].0,
            b == blocks.len() ==> out@.len() == p.len(),
            forall|q: int| 0 <= q < out@.len() ==> (#[trigger] out@[q])@.len() == w[q].len(),
            forall|q: int, k: int|
                0 <= q < out@.len() && 0 <= k < w[q].len() ==> (#[trigger] out@[q]@[k])@
                    == portion(p, w, q, k),
            forall|q: int, k: int|
                0 <= q < out@.len() && 0 <= k < w[q].len() ==> (#[trigger] out@[q]@[k]).part
                    <= out@[q]@[k].whole,
        decreases blocks.len() - b,
    {
        let (lo, hi) = blocks[b];
        proof {
            assert(blocks@[b as int].0 < blocks@[b as int].1);
            assert(block_is(p, lo as int, blocks@[b as int]));
            lemma_block_end_bounds(p, lo as int);
            assert forall|q: int| lo <= q < hi implies (#[trigger] weights@[q])@.len()
                == weights@[lo as int]@.len() by {
                lemma_block_rows_alike(p, w, lo as int, q);
                assert(w[q] == nats(weights@[q]@));
                assert(w[lo as int] == nats(weights@[lo as int]@));
            }
        }
        let (parts, whole) = measure_block(weights, lo, hi);
        let mut r: usize = lo;
        while r < hi
            invariant
                lo <= r <= hi,
                hi <= p.len(),
                p.len() == w.len(),
                b < blocks.len(),
                blocks@[b as int] == (lo, hi),
                p == nat_rows(patterns@),
                w == nat_rows(weights@),
                are_blocks(blocks@, p),
                out@.len() == r,
                forall|q: int| lo <= q < hi ==> (#[trigger] weights@[q])@.len() == parts@.len(),
                forall|k: int|
                    0 <= k < parts@.len() ==> (#[trigger] parts@[k]) == column_weight(
                        w,
                        lo as int,
                        hi as int,
                        k,
                    ),
                whole == block_weight(w, lo as int, hi as int),
                forall|k: int| 0 <= k < parts@.len() ==> (#[trigger] parts@[k]) <= whole,
                forall|q: int| 0 <= q < out@.len() ==> (#[trigger] out@[q])@.len() == w[q].len(),
                forall|q: int, k: int|
                    0 <= q < out@.len() && 0 <= k < w[q].len() ==> (#[trigger] out@[q]@[k])@
                        == portion(p, w, q, k),
                forall|q: int, k: int|
                    0 <= q < out@.len() && 0 <= k < w[q].len() ==> (#[trigger] out@[q]@[k]).part
                        <= out@[q]@[k].whole,
            decreases hi - r,
        {
            let mut row: Vec<Portion> = Vec::new();
            let mut k: usize = 0;
            proof {
                assert(block_is(p, r as int, blocks@[b as int]));
                assert(w[r as int] == nats(weights@[r as int]@));
            }
            while k < parts.len()
                invariant
                    k <= parts.len(),
                    row@.len() == k,
                    forall|j: int|
                        0 <= j < k ==> (#[trigger] row@[j]) == (Portion { part: parts@[j], whole }),
                decreases parts.len() - k,
            {
                row.push(Portion { part: parts[k], whole });
                k = k + 1;
            }
            out.push(row);
            r = r + 1;
        }
        proof {
            if b + 1 < blocks.len() {
                assert(blocks@[b + 1].0 == blocks@[b + 1 - 1].1);
            } else {
                assert(blocks@.last() == blocks@[b as int]);
            }
        }
        b = b + 1;
    }
    assert(portion_rows(out@) =~~= portions(p, w));
    out
}

/// `weight * part / whole` is at most `weight` where `part <= whole`, and at
/// least `part` where `whole <= weight`.
pub proof fn lemma_share_bounds(weight: nat, part: nat, whole: nat)
    requires
        0 < whole,
        part <= whole,
    ensures
        weight * part / whole <= weight,
        whole <= weight ==> part <= weight * part / whole,
{
    assert(weight * part <= weight * whole) by (nonlinear_arith)
        requires
            part <= whole,
    ;
    vstd::arithmetic::div_mod::lemma_div_is_ordered(
        (weight * part) as int,
        (weight * whole) as int,
        whole as int,
    );
    vstd::arithmetic::div_mod::lemma_div_by_multiple(weight as int, whole as int);
    if whole <= weight {
        assert(part * whole <= weight * part) by (nonlinear_arith)
            requires
                whole <= weight,
        ;
        vstd::arithmetic::div_mod::lemma_div_is_ordered(
            (part * whole) as int,
            (weight * part) as int,
            whole as int,
        );
        vstd::arithmetic::div_mod::lemma_div_by_multiple(part as int, whole as int);
    }
}

/// The largest weight among one row more.
pub proof fn lemma_column_weight_step(weights: Seq<Seq<nat>>, lo: int, hi: int, k: int)
    requires
        lo <= hi,
    ensures
        column_weight(weights, lo, lo, k) == 0,
        column_weight(weights, lo, hi + 1, k) == if weights[hi][k] > column_weight(
            weights,
            lo,
            hi,
            k,
        ) {
            weights[hi][k]
        } else {
            column_weight(weights, lo, hi, k)
        },
{
    assert(hi + 1 - 1 == hi);
}

/// Among rows that each have a weight at position `k`, the largest weight
/// at that position is at least that of each row, and at most the largest
/// sum of a row's weights.
pub proof fn lemma_column_weight_bounds(weights: Seq<Seq<nat>>, lo: int, hi: int, k: int)
    requires
        0 <= lo,
        hi <= weights.len(),
        forall|q: int| lo <= q < hi ==> (0 <= k && k < (#[trigger] weights[q]).len()),
    ensures
        column_weight(weights, lo, hi, k) <= block_weight(weights, lo, hi),
        forall|q: int| lo <= q < hi ==> (#[trigger] weights[q])[k] <= column_weight(
            weights,
            lo,
            hi,
            k,
        ),
    decreases hi - lo,
{
    if lo < hi {
        let last = weights[hi - 1];
        assert(lo <= hi - 1 < hi);
        assert(0 <= k && k < last.len());
        lemma_column_weight_bounds(weights, lo, hi - 1, k);
        lemma_sum_bounds_each(weights[hi - 1], k);
    }
}

/// The largest sum among more rows is not less.
pub proof fn lemma_block_weight_grows(weights: Seq<Seq<nat>>, mid: int, hi: int)
    requires
        0 <= mid <= hi,
    ensures
        block_weight(weights, 0, mid) <= block_weight(weights, 0, hi),
    decreases hi - mid,
{
    if mid < hi {
        lemma_block_weight_grows(weights, mid, hi - 1);
    }
}

/// The weight of a block is at most the largest sum of a row's weights
/// among all rows.
pub proof fn lemma_block_weight_within(weights: Seq<Seq<nat>>, lo: int, hi: int, n: int)
    requires
        0 <= lo,
        hi <= n,
    ensures
        block_weight(weights, lo, hi) <= block_weight(weights, 0, n),
    decreases hi - lo,
{
    if lo < hi {
        lemma_block_weight_within(weights, lo, hi - 1, n);
        lemma_block_weight_grows(weights, hi, n);
    }
}

/// The rows of a block have equally many weights.
pub proof fn lemma_block_rows_alike(
    patterns: Seq<Seq<nat>>,
    weights: Seq<Seq<nat>>,
    lo: int,
    q: int,
)
    requires
        well_shaped(patterns, weights),
        0 <= lo <= q < block_end(patterns, lo),
        lo < patterns.len(),
    ensures
        weights[q].len() == weights[lo].len(),
    decreases q - lo,
{
    if lo < q {
        lemma_block_end_bounds(patterns, lo);
        lemma_block_rows_alike(patterns, weights, lo, q - 1);
        lemma_block_pattern_after(patterns, lo, q);
        lemma_block_pattern_after(patterns, lo, q - 1);
    }
}

} // verus!
