//! Blocks: runs of rows, as long as they can be, whose cells have one and
//! the same spans.

use crate::sums::{nat_rows, nats};
use vstd::prelude::*;

verus! {

/// The first row of the block that row `r` belongs to. A block is a run of
/// rows, as long as it can be, that have one and the same pattern.
pub open spec fn block_start(patterns: Seq<Seq<nat>>, r: int) -> int
    decreases r,
{
    if r <= 0 {
        0
    } else if patterns[r] == patterns[r - 1] {
        block_start(patterns, r - 1)
    } else {
        r
    }
}

/// The row after the last row of the block that row `r` belongs to.
pub open spec fn block_end(patterns: Seq<Seq<nat>>, r: int) -> int
    decreases patterns.len() - r,
{
    if r + 1 >= patterns.len() {
        patterns.len() as int
    } else if patterns[r] == patterns[r + 1] {
        block_end(patterns, r + 1)
    } else {
        r + 1
    }
}

/// Whether the block of row `r` is `block`: begins at its first number and
/// ends before its second.
pub open spec fn block_is(patterns: Seq<Seq<nat>>, r: int, block: (usize, usize)) -> bool {
    block_start(patterns, r) == block.0 && block_end(patterns, r) == block.1
}

/// Whether `blocks` are the blocks of the rows, in their order: each given
/// by its first row and the row after its last. They follow each other
/// without a gap from the first row to the last.
pub open spec fn are_blocks(blocks: Seq<(usize, usize)>, patterns: Seq<Seq<nat>>) -> bool {
    &&& blocks.len() == 0 <==> patterns.len() == 0
    &&& blocks.len() > 0 ==> blocks[0].0 == 0 && blocks.last().1 == patterns.len()
    &&& forall|b: int| 0 < b < blocks.len() ==> (#[trigger] blocks[b]).0 == blocks[b - 1].1
    &&& forall|b: int| 0 <= b < blocks.len() ==> (#[trigger] blocks[b]).0 < blocks[b].1
    &&& forall|b: int, r: int|
        0 <= b < blocks.len() && blocks[b].0 <= r < blocks[b].1 ==> #[trigger] block_is(
            patterns,
            r,
            blocks[b],
        )
}

/// Whether the two rows are the same.
pub fn same_pattern(a: &Vec<usize>, b: &Vec<usize>) -> (same: bool)
    ensures
        same == (nats(a@) == nats(b@)),
{
    if a.len() != b.len() {
        assert(nats(a@).len() != nats(b@).len());
        return false;
    }
    let mut i: usize = 0;
    while i < a.len()
        invariant
            i <= a.len(),
            a.len() == b.len(),
            forall|j: int| 0 <= j < i ==> a@[j] == b@[j],
        decreases a.len() - i,
    {
        if a[i] != b[i] {
            assert(nats(a@)[i as int] != nats(b@)[i as int]);
            return false;
        }
        i = i + 1;
    }
    assert(nats(a@) =~= nats(b@));
    true
}

/// Groups the rows into blocks: runs of rows, as long as they can be, that
/// have one and the same pattern. Each block is given by its first row and
/// the row after its last.
pub fn row_blocks(patterns: &Vec<Vec<usize>>) -> (out: Vec<(usize, usize)>)
    ensures
        are_blocks(out@, nat_rows(patterns@)),
{
    let ghost p = nat_rows(patterns@);
    let n = patterns.len();
    let mut out: Vec<(usize, usize)> = Vec::new();
    if n == 0 {
        return out;
    }
    let mut start: usize = 0;
    let mut r: usize = 1;
    while r < n
        invariant
            1 <= r <= n,
            start < r,
            n == patterns.len(),
            p == nat_rows(patterns@),
            forall|t: int| start < t < r ==> p[t] == #[trigger] p[t - 1],
            start == 0 || p[start as int] != p[start - 1],
            out@.len() == 0 ==> start == 0,
            out@.len() > 0 ==> out@[0].0 == 0 && out@.last().1 == start,
            forall|b: int| 0 < b < out@.len() ==> (#[trigger] out@[b]).0 == out@[b - 1].1,
            forall|b: int| 0 <= b < out@.len() ==> (#[trigger] out@[b]).0 < out@[b].1 <= start,
            forall|b: int, q: int|
                0 <= b < out@.len() && out@[b].0 <= q < out@[b].1 ==> #[trigger] block_is(
                    p,
                    q,
                    out@[b],
                ),
        decreases n - r,
    {
        proof {
            assert(p[r as int] == nats(patterns@[r as int]@));
            assert(p[r - 1] == nats(patterns@[r - 1]@));
        }
        if !same_pattern(&patterns[r], &patterns[r - 1]) {
            proof {
                assert forall|q: int| start <= q < r implies #[trigger] block_is(
                    p,
                    q,
                    (start, r),
                ) by {
                    lemma_block_start_is(p, start as int, q);
                    lemma_block_end_is(p, q, r as int);
                }
                let ghost before = out@;
                assert forall|b: int, q: int|
                    0 <= b < before.push((start, r)).len() && before.push((start, r))[b].0 <= q
                        < before.push((start, r))[b].1 implies #[trigger] block_is(
                    p,
                    q,
                    before.push((start, r))[b],
                ) by {
                    if b < before.len() {
                        assert(block_is(p, q, before[b]));
                    } else {
                        assert(block_is(p, q, (start, r)));
                    }
                }
            }
            out.push((start, r));
            start = r;
        }
        r = r + 1;
    }
    proof {
        assert forall|q: int| start <= q < n implies #[trigger] block_is(p, q, (start, n)) by {
            lemma_block_start_is(p, start as int, q);
            lemma_block_end_is(p, q, n as int);
        }
        let ghost before = out@;
        assert forall|b: int, q: int|
            0 <= b < before.push((start, n)).len() && before.push((start, n))[b].0 <= q
                < before.push((start, n))[b].1 implies #[trigger] block_is(
            p,
            q,
            before.push((start, n))[b],
        ) by {
            if b < before.len() {
                assert(block_is(p, q, before[b]));
            } else {
                assert(block_is(p, q, (start, n)));
            }
        }
    }
    out.push((start, n));
    out
}

/// The block of row `q` begins at row `s`, where the rows from `s` to `q`
/// have one pattern and the row before `s` has another.
pub proof fn lemma_block_start_is(patterns: Seq<Seq<nat>>, s: int, q: int)
    requires
        0 <= s <= q,
        forall|t: int| s < t <= q ==> patterns[t] == #[trigger] patterns[t - 1],
        s == 0 || patterns[s] != patterns[s - 1],
    ensures
        block_start(patterns, q) == s,
    decreases q - s,
{
    if s < q {
        assert(patterns[q] == patterns[q - 1]);
        lemma_block_start_is(patterns, s, q - 1);
    }
}

/// The block of row `q` ends before row `e`, where the rows from `q` up to
/// `e` have one pattern and row `e` has another or is not there.
pub proof fn lemma_block_end_is(patterns: Seq<Seq<nat>>, q: int, e: int)
    requires
        0 <= q < e <= patterns.len(),
        forall|t: int| q < t < e ==> patterns[t] == #[trigger] patterns[t - 1],
        e == patterns.len() || patterns[e] != patterns[e - 1],
    ensures
        block_end(patterns, q) == e,
    decreases e - q,
{
    if q + 1 < e {
        assert(patterns[q + 1] == patterns[q + 1 - 1]);
        lemma_block_end_is(patterns, q + 1, e);
    }
}

/// A block begins at or before each of its rows.
pub proof fn lemma_block_start_bounds(patterns: Seq<Seq<nat>>, r: int)
    requires
        0 <= r,
    ensures
        0 <= block_start(patterns, r) <= r,
    decreases r,
{
    if r > 0 && patterns[r] == patterns[r - 1] {
        lemma_block_start_bounds(patterns, r - 1);
    }
}

/// A block ends after each of its rows.
pub proof fn lemma_block_end_bounds(patterns: Seq<Seq<nat>>, r: int)
    requires
        0 <= r < patterns.len(),
    ensures
        r < block_end(patterns, r) <= patterns.len(),
    decreases patterns.len() - r,
{
    if r + 1 < patterns.len() && patterns[r] == patterns[r + 1] {
        lemma_block_end_bounds(patterns, r + 1);
    }
}

/// A block begins at or before each of its rows and ends after it.
pub proof fn lemma_block_bounds(patterns: Seq<Seq<nat>>, r: int)
    requires
        0 <= r < patterns.len(),
    ensures
        0 <= block_start(patterns, r) <= r,
        r < block_end(patterns, r) <= patterns.len(),
{
    lemma_block_start_bounds(patterns, r);
    lemma_block_end_bounds(patterns, r);
}

/// The rows of a block before row `r` have the pattern of row `r`.
pub proof fn lemma_block_pattern_before(patterns: Seq<Seq<nat>>, r: int, q: int)
    requires
        0 <= r,
        block_start(patterns, r) <= q <= r,
    ensures
        patterns[q] == patterns[r],
    decreases r,
{
    if r > 0 && patterns[r] == patterns[r - 1] && q < r {
        lemma_block_pattern_before(patterns, r - 1, q);
    }
}

/// The rows of a block after row `r` have the pattern of row `r`.
pub proof fn lemma_block_pattern_after(patterns: Seq<Seq<nat>>, r: int, q: int)
    requires
        0 <= r <= q < block_end(patterns, r),
        r < patterns.len(),
    ensures
        patterns[q] == patterns[r],
    decreases patterns.len() - r,
{
    if r + 1 < patterns.len() && patterns[r] == patterns[r + 1] && q > r {
        lemma_block_pattern_after(patterns, r + 1, q);
    }
}

/// The rows of a block have one pattern.
pub proof fn lemma_block_pattern(patterns: Seq<Seq<nat>>, r: int, q: int)
    requires
        0 <= r < patterns.len(),
        block_start(patterns, r) <= q < block_end(patterns, r),
    ensures
        patterns[q] == patterns[r],
{
    if q <= r {
        lemma_block_pattern_before(patterns, r, q);
    } else {
        lemma_block_pattern_after(patterns, r, q);
    }
}

} // verus!
