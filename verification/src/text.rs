//! Text as sequences of characters: lines, widths, padding and joining.

use crate::sums::sum;
use vstd::prelude::*;

verus! {

/// Position of the first line feed of `s` at or after `i`, or the length of
/// `s` where there is none.
pub open spec fn break_from(s: Seq<char>, i: int) -> int
    decreases s.len() - i,
{
    if i < 0 || i >= s.len() {
        s.len() as int
    } else if s[i] == '\n' {
        i
    } else {
        break_from(s, i + 1)
    }
}

/// A line without the carriage return that stood before its line feed.
pub open spec fn trim_cr(line: Seq<char>) -> Seq<char> {
    if line.len() > 0 && line.last() == '\r' {
        line.drop_last()
    } else {
        line
    }
}

/// The lines of `s` from position `i` on.
pub open spec fn lines_from(s: Seq<char>, i: int) -> Seq<Seq<char>>
    decreases s.len() - i,
{
    if i < 0 || i >= s.len() {
        Seq::empty()
    } else {
        let j = break_from(s, i);
        if i <= j < s.len() {
            seq![trim_cr(s.subrange(i, j))] + lines_from(s, j + 1)
        } else {
            seq![s.subrange(i, s.len() as int)]
        }
    }
}

/// The lines of a text. A line ends at a line feed, or at a carriage return
/// directly followed by one; neither belongs to the line. What follows the
/// last line feed is a line of its own unless it is empty.
pub open spec fn lines(s: Seq<char>) -> Seq<Seq<char>> {
    lines_from(s, 0)
}

/// The number of lines of a text.
pub open spec fn line_count(s: Seq<char>) -> nat {
    lines(s).len()
}

/// The length of the longest of the given lines, 0 where there is none.
pub open spec fn widest(ls: Seq<Seq<char>>) -> nat
    decreases ls.len(),
{
    if ls.len() == 0 {
        0
    } else {
        let rest = widest(ls.drop_last());
        if ls.last().len() > rest {
            ls.last().len()
        } else {
            rest
        }
    }
}

/// The width that a text takes by itself: the length of its longest line.
pub open spec fn natural_width(s: Seq<char>) -> nat {
    widest(lines(s))
}

/// The texts that a vector of string slices holds.
pub open spec fn texts(v: Seq<&str>) -> Seq<Seq<char>> {
    v.map_values(|l: &str| l@)
}

/// The texts that a vector of strings holds.
pub open spec fn owned_texts(v: Seq<String>) -> Seq<Seq<char>> {
    v.map_values(|l: String| l@)
}

/// `n` blanks.
pub open spec fn spaces(n: nat) -> Seq<char> {
    Seq::new(n, |i: int| ' ')
}

/// `glyph` written `n` times over.
pub open spec fn repeated(glyph: Seq<char>, n: nat) -> Seq<char>
    decreases n,
{
    if n == 0 {
        Seq::empty()
    } else {
        repeated(glyph, (n - 1) as nat) + glyph
    }
}

/// The lines with a line feed between each two of them.
pub open spec fn joined(ls: Seq<Seq<char>>) -> Seq<char>
    decreases ls.len(),
{
    if ls.len() == 0 {
        Seq::empty()
    } else if ls.len() == 1 {
        ls[0]
    } else {
        joined(ls.drop_last()) + seq!['\n'] + ls.last()
    }
}

/// The lines with a line feed after each of them.
pub open spec fn unlines(ls: Seq<Seq<char>>) -> Seq<char>
    decreases ls.len(),
{
    if ls.len() == 0 {
        Seq::empty()
    } else {
        unlines(ls.drop_last()) + ls.last() + seq!['\n']
    }
}

/// Line `i` of the first `k` blocks, written one after the other.
pub open spec fn line_across(blocks: Seq<Seq<Seq<char>>>, i: int, k: nat) -> Seq<char>
    decreases k,
{
    if k == 0 {
        Seq::empty()
    } else {
        line_across(blocks, i, (k - 1) as nat) + blocks[k - 1][i]
    }
}

/// The blocks set side by side: line `i` of the result is line `i` of the
/// first block, then line `i` of the second, and so on. It has as many lines
/// as the first block.
pub open spec fn composed(blocks: Seq<Seq<Seq<char>>>) -> Seq<Seq<char>> {
    if blocks.len() == 0 {
        Seq::empty()
    } else {
        Seq::new(blocks[0].len(), |i: int| line_across(blocks, i, blocks.len()))
    }
}

/// Whether every block has as many lines as the first.
pub open spec fn same_height(blocks: Seq<Seq<Seq<char>>>) -> bool {
    forall|k: int| 0 <= k < blocks.len() ==> (#[trigger] blocks[k]).len() == blocks[0].len()
}

/// The blocks that a vector of vectors of strings holds.
pub open spec fn owned_blocks(v: Seq<Vec<String>>) -> Seq<Seq<Seq<char>>> {
    v.map_values(|b: Vec<String>| owned_texts(b@))
}

/// The lines of each of the texts.
pub open spec fn blocks_of(row: Seq<String>) -> Seq<Seq<Seq<char>>> {
    Seq::new(row.len(), |k: int| lines(row[k]@))
}

/// Whether a text holds no line feed.
pub open spec fn has_no_break(s: Seq<char>) -> bool {
    forall|k: int| 0 <= k < s.len() ==> s[k] != '\n'
}

/// Whether a line can stand in a text as a line of its own: it holds no line
/// feed and does not end with a carriage return.
pub open spec fn is_plain(line: Seq<char>) -> bool {
    &&& has_no_break(line)
    &&& line.len() > 0 ==> line.last() != '\r'
}

/// Whether a text closes a line: it holds no line feed, is not empty and
/// does not end with a carriage return.
pub open spec fn is_closed(s: Seq<char>) -> bool {
    &&& has_no_break(s)
    &&& s.len() > 0
    &&& s.last() != '\r'
}

/// Whether each of the lines is plain.
pub open spec fn all_plain(ls: Seq<Seq<char>>) -> bool {
    forall|i: int| 0 <= i < ls.len() ==> is_plain(#[trigger] ls[i])
}

/// How often `c` stands in `s`.
pub open spec fn occurrences(s: Seq<char>, c: char) -> nat
    decreases s.len(),
{
    if s.len() == 0 {
        0
    } else {
        occurrences(s.drop_last(), c) + if s.last() == c {
            1nat
        } else {
            0nat
        }
    }
}

/// Whether `c` stands nowhere in `s`.
pub open spec fn is_free_of(s: Seq<char>, c: char) -> bool {
    forall|t: int| 0 <= t < s.len() ==> s[t] != c
}

/// Whether `c` stands nowhere in `s` twice in a row.
pub open spec fn never_doubled(s: Seq<char>, c: char) -> bool {
    forall|t: int| 0 <= t < s.len() - 1 ==> !(s[t] == c && #[trigger] s[t + 1] == c)
}

/// How many of the lines hold `c`.
pub open spec fn lines_with(ls: Seq<Seq<char>>, c: char) -> nat
    decreases ls.len(),
{
    if ls.len() == 0 {
        0
    } else {
        lines_with(ls.drop_last(), c) + if is_free_of(ls.last(), c) {
            0nat
        } else {
            1nat
        }
    }
}

/// Whether no two lines that follow each other both hold `c`.
pub open spec fn never_adjacent(ls: Seq<Seq<char>>, c: char) -> bool {
    forall|t: int|
        0 <= t < ls.len() - 1 ==> is_free_of(ls[t], c) || is_free_of(#[trigger] ls[t + 1], c)
}

/// Splits a text into its lines.
pub fn split_lines<'a>(s: &'a str) -> (out: Vec<&'a str>)
    ensures
        texts(out@) == lines(s@),
{
    let n = s.unicode_len();
    let mut out: Vec<&'a str> = Vec::new();
    let mut start: usize = 0;
    let mut i: usize = 0;
    let mut after_cr = false;
    let chars = s.chars();
    for c in it: chars
        invariant
            it.seq() == s@,
            n == s@.len(),
            i == it.index(),
            start <= i <= n,
            after_cr <==> (start < i && s@[i - 1] == '\r'),
            break_from(s@, start as int) == break_from(s@, i as int),
            lines(s@) == texts(out@) + lines_from(s@, start as int),
    {
        if c == '\n' {
            let end = if after_cr { i - 1 } else { i };
            let line = s.substring_char(start, end);
            proof {
                assert(break_from(s@, i as int) == i);
                assert(line@ == trim_cr(s@.subrange(start as int, i as int))) by {
                    if after_cr {
                        assert(s@.subrange(start as int, i as int).last() == '\r');
                        assert(s@.subrange(start as int, i as int).drop_last() =~= s@.subrange(
                            start as int,
                            i - 1,
                        ));
                    }
                }
                assert(texts(out@.push(line)) =~= texts(out@).push(line@));
                assert(texts(out@).push(line@) + lines_from(s@, i + 1) =~= texts(out@) + (seq![
                    line@,
                ] + lines_from(s@, i + 1)));
            }
            out.push(line);
            start = i + 1;
            after_cr = false;
        } else {
            after_cr = c == '\r';
        }
        i = i + 1;
    }
    if start < n {
        let line = s.substring_char(start, n);
        proof {
            assert(break_from(s@, n as int) == n);
            assert(texts(out@.push(line)) =~= texts(out@).push(line@));
            assert(texts(out@).push(line@) =~= texts(out@) + seq![line@]);
        }
        out.push(line);
    } else {
        assert(texts(out@) + Seq::<Seq<char>>::empty() =~= texts(out@));
    }
    out
}

/// The lines of a text, each as a string of its own.
pub fn owned_lines(s: &str) -> (out: Vec<String>)
    ensures
        owned_texts(out@) == lines(s@),
{
    let ls = split_lines(s);
    let mut out: Vec<String> = Vec::new();
    let mut i: usize = 0;
    while i < ls.len()
        invariant
            i <= ls.len(),
            out@.len() == i,
            forall|j: int| 0 <= j < i ==> (#[trigger] out@[j])@ == ls@[j]@,
        decreases ls.len() - i,
    {
        out.push(ls[i].to_owned());
        i = i + 1;
    }
    assert(owned_texts(out@) =~= texts(ls@));
    out
}

/// The length of the longest of the given lines.
pub fn widest_of(ls: &Vec<&str>) -> (w: usize)
    ensures
        w == widest(texts(ls@)),
{
    let mut w: usize = 0;
    let mut i: usize = 0;
    while i < ls.len()
        invariant
            i <= ls.len(),
            w == widest(texts(ls@).take(i as int)),
        decreases ls.len() - i,
    {
        let l = ls[i].unicode_len();
        assert(texts(ls@).take(i + 1).drop_last() =~= texts(ls@).take(i as int));
        if l > w {
            w = l;
        }
        i = i + 1;
    }
    assert(texts(ls@).take(ls.len() as int) =~= texts(ls@));
    w
}

/// Appends `n` blanks to `s`.
pub fn push_spaces(s: &mut String, n: usize)
    ensures
        final(s)@ == old(s)@ + spaces(n as nat),
{
    proof {
        reveal_strlit(" ");
    }
    let mut i: usize = 0;
    while i < n
        invariant
            i <= n,
            " "@ == seq![' '],
            s@ == old(s)@ + spaces(i as nat),
        decreases n - i,
    {
        s.append(" ");
        assert(old(s)@ + spaces(i as nat) + seq![' '] =~= old(s)@ + spaces((i + 1) as nat));
        i = i + 1;
    }
}

/// Appends `glyph` to `s`, `n` times over.
pub fn push_repeated(s: &mut String, glyph: &str, n: usize)
    ensures
        final(s)@ == old(s)@ + repeated(glyph@, n as nat),
{
    let mut i: usize = 0;
    while i < n
        invariant
            i <= n,
            s@ == old(s)@ + repeated(glyph@, i as nat),
        decreases n - i,
    {
        s.append(glyph);
        assert(old(s)@ + repeated(glyph@, i as nat) + glyph@ =~= old(s)@ + repeated(
            glyph@,
            (i + 1) as nat,
        ));
        i = i + 1;
    }
}

/// Joins the lines with a line feed between each two of them.
pub fn join_lines(ls: &Vec<String>) -> (s: String)
    ensures
        s@ == joined(owned_texts(ls@)),
{
    proof {
        reveal_strlit("\n");
    }
    let mut s = String::new();
    let mut i: usize = 0;
    while i < ls.len()
        invariant
            i <= ls.len(),
            "\n"@ == seq!['\n'],
            s@ == joined(owned_texts(ls@).take(i as int)),
        decreases ls.len() - i,
    {
        assert(owned_texts(ls@).take(i + 1).drop_last() =~= owned_texts(ls@).take(i as int));
        if i > 0 {
            s.append("\n");
        }
        s.append(ls[i].as_str());
        assert(s@ =~= joined(owned_texts(ls@).take(i + 1)));
        i = i + 1;
    }
    assert(owned_texts(ls@).take(ls.len() as int) =~= owned_texts(ls@));
    s
}

/// Sets blocks of equal height side by side.
pub fn compose(blocks: &Vec<Vec<String>>) -> (out: Vec<String>)
    requires
        same_height(owned_blocks(blocks@)),
    ensures
        owned_texts(out@) == composed(owned_blocks(blocks@)),
{
    let mut out: Vec<String> = Vec::new();
    if blocks.len() == 0 {
        assert(owned_texts(out@) =~= composed(owned_blocks(blocks@)));
        return out;
    }
    let ghost model = owned_blocks(blocks@);
    let n = blocks[0].len();
    let mut i: usize = 0;
    while i < n
        invariant
            i <= n,
            n == model[0].len(),
            model == owned_blocks(blocks@),
            blocks.len() > 0,
            same_height(model),
            out@.len() == i,
            forall|j: int|
                0 <= j < i ==> (#[trigger] out@[j])@ == line_across(model, j, model.len()),
        decreases n - i,
    {
        let mut line = String::new();
        let mut k: usize = 0;
        while k < blocks.len()
            invariant
                k <= blocks.len(),
                i < n,
                n == model[0].len(),
                model == owned_blocks(blocks@),
                same_height(model),
                line@ == line_across(model, i as int, k as nat),
            decreases blocks.len() - k,
        {
            assert(model[k as int].len() == n);
            assert(model[k as int] == owned_texts(blocks@[k as int]@));
            line.append(blocks[k][i].as_str());
            k = k + 1;
        }
        out.push(line);
        i = i + 1;
    }
    assert(owned_texts(out@) =~= composed(model));
    out
}

/// Sets two texts of equally many lines side by side.
pub fn concat_lines(a: &str, b: &str) -> (out: String)
    requires
        line_count(a@) == line_count(b@),
    ensures
        out@ == joined(composed(seq![lines(a@), lines(b@)])),
{
    let mut blocks: Vec<Vec<String>> = Vec::new();
    blocks.push(owned_lines(a));
    blocks.push(owned_lines(b));
    assert(owned_blocks(blocks@) =~= seq![lines(a@), lines(b@)]);
    let lines = compose(&blocks);
    join_lines(&lines)
}

/// Sets the texts of a row side by side: line `i` of the result is line `i`
/// of the first text, then line `i` of the second, and so on, with a line
/// feed between each two lines. The texts have equally many lines. A row of
/// one text gives that text as it is.
pub fn concat_row(row: &[String]) -> (out: String)
    requires
        same_height(blocks_of(row@)),
    ensures
        row@.len() == 1 ==> out@ == row@[0]@,
        row@.len() != 1 ==> out@ == joined(composed(blocks_of(row@))),
{
    if row.len() == 1 {
        return row[0].clone();
    }
    let ghost want = blocks_of(row@);
    let mut blocks: Vec<Vec<String>> = Vec::new();
    let mut k: usize = 0;
    while k < row.len()
        invariant
            k <= row.len(),
            want == blocks_of(row@),
            blocks@.len() == k,
            forall|j: int| 0 <= j < k ==> owned_texts((#[trigger] blocks@[j])@) == want[j],
        decreases row.len() - k,
    {
        let block = owned_lines(row[k].as_str());
        blocks.push(block);
        k = k + 1;
    }
    assert(owned_blocks(blocks@) =~= want);
    let lines = compose(&blocks);
    join_lines(&lines)
}

/// The first line feed from `i` on stands at or after `i`, and no line feed
/// stands before it.
pub proof fn lemma_break_from_bounds(s: Seq<char>, i: int)
    requires
        0 <= i <= s.len(),
    ensures
        i <= break_from(s, i) <= s.len(),
        break_from(s, i) < s.len() ==> s[break_from(s, i)] == '\n',
        forall|k: int| i <= k < break_from(s, i) ==> s[k] != '\n',
    decreases s.len() - i,
{
    if i < s.len() && s[i] != '\n' {
        lemma_break_from_bounds(s, i + 1);
    }
}

/// Where no line feed stands from `i` up to `j`, and one stands at `j` or
/// the text ends there, the first line feed from `i` on is at `j`.
pub proof fn lemma_break_from_is(s: Seq<char>, i: int, j: int)
    requires
        0 <= i <= j <= s.len(),
        forall|k: int| i <= k < j ==> s[k] != '\n',
        j < s.len() ==> s[j] == '\n',
    ensures
        break_from(s, i) == j,
    decreases j - i,
{
    if i < j {
        lemma_break_from_is(s, i + 1, j);
    }
}

/// No line is longer than the longest.
pub proof fn lemma_widest_bounds(ls: Seq<Seq<char>>, i: int)
    requires
        0 <= i < ls.len(),
    ensures
        ls[i].len() <= widest(ls),
    decreases ls.len(),
{
    if i < ls.len() - 1 {
        lemma_widest_bounds(ls.drop_last(), i);
    }
}

/// `glyph` written `a + b` times is `glyph` written `a` times, then `b` times.
pub proof fn lemma_repeated_add(glyph: Seq<char>, a: nat, b: nat)
    ensures
        repeated(glyph, a + b) == repeated(glyph, a) + repeated(glyph, b),
    decreases b,
{
    if b == 0 {
        assert(repeated(glyph, a) + repeated(glyph, 0) =~= repeated(glyph, a));
    } else {
        lemma_repeated_add(glyph, a, (b - 1) as nat);
        assert(repeated(glyph, a + b) == repeated(glyph, (a + b - 1) as nat) + glyph);
        assert(repeated(glyph, a) + repeated(glyph, (b - 1) as nat) + glyph =~= repeated(glyph, a)
            + (repeated(glyph, (b - 1) as nat) + glyph));
    }
}

/// A glyph of one character, written `n` times, has `n` characters.
pub proof fn lemma_repeated_len(glyph: Seq<char>, n: nat)
    requires
        glyph.len() == 1,
    ensures
        repeated(glyph, n).len() == n,
    decreases n,
{
    if n > 0 {
        lemma_repeated_len(glyph, (n - 1) as nat);
    }
}

/// A glyph without a line feed, written over and over, holds none.
pub proof fn lemma_repeated_holds_no_break(glyph: Seq<char>, n: nat)
    requires
        has_no_break(glyph),
    ensures
        has_no_break(repeated(glyph, n)),
    decreases n,
{
    if n > 0 {
        lemma_repeated_holds_no_break(glyph, (n - 1) as nat);
    }
}

/// Two texts without a line feed, one after the other, hold none; and
/// they close a line where the second does.
pub proof fn lemma_no_break_add(a: Seq<char>, b: Seq<char>)
    requires
        has_no_break(a),
        has_no_break(b),
    ensures
        has_no_break(a + b),
        is_closed(b) ==> is_closed(a + b),
{
    if b.len() > 0 {
        assert((a + b).last() == b.last());
    }
}

/// The lines one after another, each closed by a line feed, are the first
/// lines so written and then the others.
pub proof fn lemma_unlines_add(a: Seq<Seq<char>>, b: Seq<Seq<char>>)
    ensures
        unlines(a + b) == unlines(a) + unlines(b),
    decreases b.len(),
{
    if b.len() == 0 {
        assert(a + b =~= a);
        assert(unlines(a) + unlines(b) =~= unlines(a));
    } else {
        lemma_unlines_add(a, b.drop_last());
        assert((a + b).drop_last() =~= a + b.drop_last());
        assert(unlines(a + b) =~= unlines(a) + unlines(b));
    }
}

/// No line of a text holds a line feed.
pub proof fn lemma_lines_hold_no_break(s: Seq<char>, i: int, k: int)
    requires
        0 <= i,
        0 <= k < lines_from(s, i).len(),
    ensures
        has_no_break(lines_from(s, i)[k]),
    decreases s.len() - i,
{
    if i < s.len() {
        lemma_break_from_bounds(s, i);
        let j = break_from(s, i);
        if j < s.len() {
            if k > 0 {
                lemma_lines_hold_no_break(s, j + 1, k - 1);
                assert(lines_from(s, i)[k] == lines_from(s, j + 1)[k - 1]);
            }
        }
    }
}

/// Plain lines written one after another, each closed by a line feed, make
/// a text whose lines they are: the lines of the text from the end of the
/// first `k` lines on are the lines after them.
pub proof fn lemma_lines_after(ls: Seq<Seq<char>>, k: int)
    requires
        all_plain(ls),
        0 <= k <= ls.len(),
    ensures
        lines_from(unlines(ls), unlines(ls.take(k)).len() as int) == ls.skip(k),
    decreases ls.len() - k,
{
    let s = unlines(ls);
    let head = unlines(ls.take(k));
    assert(ls =~= ls.take(k) + ls.skip(k));
    lemma_unlines_add(ls.take(k), ls.skip(k));
    if k == ls.len() {
        assert(ls.take(k) =~= ls);
        assert(ls.skip(k) =~= Seq::<Seq<char>>::empty());
    } else {
        let line = ls[k];
        let next = unlines(ls.take(k + 1));
        assert(ls.take(k + 1).drop_last() =~= ls.take(k));
        assert(next == head + line + seq!['\n']);
        assert(ls =~= ls.take(k + 1) + ls.skip(k + 1));
        lemma_unlines_add(ls.take(k + 1), ls.skip(k + 1));
        let off = head.len() as int;
        let end = off + line.len();
        assert(is_plain(line));
        assert forall|t: int| off <= t < end implies s[t] != '\n' by {
            assert(s[t] == next[t]);
            assert(next[t] == line[t - off]);
        }
        assert(s[end] == next[end]);
        assert(s[end] == '\n');
        lemma_break_from_is(s, off, end);
        assert(s.subrange(off, end) =~= line) by {
            assert forall|t: int| 0 <= t < line.len() implies s.subrange(off, end)[t]
                == line[t] by {
                assert(s[off + t] == next[off + t]);
            }
        }
        lemma_lines_after(ls, k + 1);
        assert(next.len() == end + 1);
        assert(seq![line] + ls.skip(k + 1) =~= ls.skip(k));
    }
}

/// Plain lines written one after another, each closed by a line feed, make
/// a text whose lines they are.
pub proof fn lemma_lines_of_unlines(ls: Seq<Seq<char>>)
    requires
        all_plain(ls),
    ensures
        lines(unlines(ls)) == ls,
{
    lemma_lines_after(ls, 0);
    assert(ls.take(0) =~= Seq::<Seq<char>>::empty());
    assert(ls.skip(0) =~= ls);
}

/// The length of line `i` of the first `k` blocks side by side, where every
/// line of block `j` has `widths[j]` characters.
pub proof fn lemma_line_across_len(blocks: Seq<Seq<Seq<char>>>, widths: Seq<nat>, i: int, k: nat)
    requires
        k <= blocks.len(),
        blocks.len() == widths.len(),
        forall|j: int| 0 <= j < k ==> (0 <= i && i < (#[trigger] blocks[j]).len()),
        forall|j: int| 0 <= j < k ==> (#[trigger] blocks[j])[i].len() == widths[j],
    ensures
        line_across(blocks, i, k).len() == sum(widths.take(k as int)),
    decreases k,
{
    if k > 0 {
        let last = blocks[k - 1];
        assert(0 <= i && i < last.len());
        assert(last[i].len() == widths[k - 1]);
        lemma_line_across_len(blocks, widths, i, (k - 1) as nat);
        assert(widths.take(k as int).drop_last() =~= widths.take(k - 1));
    }
}

/// Line `i` of blocks side by side closes a line where line `i` of each
/// block does.
pub proof fn lemma_line_across_closed(blocks: Seq<Seq<Seq<char>>>, i: int, k: nat)
    requires
        1 <= k <= blocks.len(),
        forall|j: int| 0 <= j < k ==> (0 <= i && i < (#[trigger] blocks[j]).len()),
        forall|j: int| 0 <= j < k ==> is_closed((#[trigger] blocks[j])[i]),
    ensures
        is_closed(line_across(blocks, i, k)),
    decreases k,
{
    let last = blocks[k - 1];
    assert(0 <= i && i < last.len());
    assert(is_closed(last[i]));
    if k > 1 {
        lemma_line_across_closed(blocks, i, (k - 1) as nat);
    } else {
        assert(line_across(blocks, i, 0).len() == 0);
    }
}

/// `c` stands in two texts, one after the other, as often as in both.
pub proof fn lemma_occurrences_add(a: Seq<char>, b: Seq<char>, c: char)
    ensures
        occurrences(a + b, c) == occurrences(a, c) + occurrences(b, c),
    decreases b.len(),
{
    if b.len() == 0 {
        assert(a + b =~= a);
    } else {
        lemma_occurrences_add(a, b.drop_last(), c);
        assert((a + b).drop_last() =~= a + b.drop_last());
    }
}

/// `c` stands no time in a text that is free of it, and in no other.
pub proof fn lemma_occurrences_none(s: Seq<char>, c: char)
    ensures
        is_free_of(s, c) <==> occurrences(s, c) == 0,
    decreases s.len(),
{
    if s.len() > 0 {
        lemma_occurrences_none(s.drop_last(), c);
        if is_free_of(s, c) {
            assert forall|t: int| 0 <= t < s.drop_last().len() implies s.drop_last()[t] != c by {
                assert(s[t] != c);
            }
        } else if s.last() != c {
            let t = choose|t: int| 0 <= t < s.len() && s[t] == c;
            assert(s.drop_last()[t] == c);
        }
    }
}

/// Two texts free of `c`, one after the other, are free of it.
pub proof fn lemma_free_add(a: Seq<char>, b: Seq<char>, c: char)
    requires
        is_free_of(a, c),
        is_free_of(b, c),
    ensures
        is_free_of(a + b, c),
{
}

/// No line of a text that is free of `c` holds it.
pub proof fn lemma_lines_free(s: Seq<char>, i: int, k: int, c: char)
    requires
        0 <= i,
        is_free_of(s, c),
        0 <= k < lines_from(s, i).len(),
    ensures
        is_free_of(lines_from(s, i)[k], c),
    decreases s.len() - i,
{
    if i < s.len() {
        lemma_break_from_bounds(s, i);
        let j = break_from(s, i);
        if j < s.len() {
            if k > 0 {
                lemma_lines_free(s, j + 1, k - 1, c);
                assert(lines_from(s, i)[k] == lines_from(s, j + 1)[k - 1]);
            }
        }
    }
}

/// Where `c` is doubled nowhere in a text that ends with it, nor in the
/// text that follows, and that one does not begin with it, `c` is doubled
/// nowhere in both.
pub proof fn lemma_never_doubled_add(a: Seq<char>, b: Seq<char>, c: char)
    requires
        never_doubled(a, c),
        never_doubled(b, c),
        b.len() > 0,
        b[0] != c,
    ensures
        never_doubled(a + b, c),
{
    let s = a + b;
    assert forall|t: int| 0 <= t < s.len() - 1 implies !(s[t] == c && #[trigger] s[t + 1] == c) by {
        if t + 1 < a.len() {
            assert(s[t] == a[t] && s[t + 1] == a[t + 1]);
        } else if t + 1 == a.len() {
            assert(s[t + 1] == b[0]);
        } else {
            assert(s[t] == b[t - a.len()] && s[t + 1] == b[t - a.len() + 1]);
        }
    }
}

/// Whether `piece` is fenced by `c`: it ends with `c`, holds it nowhere
/// twice in a row and `count` times in all.
pub open spec fn is_fenced(piece: Seq<char>, c: char, count: nat) -> bool {
    &&& piece.len() > 0
    &&& piece.last() == c
    &&& never_doubled(piece, c)
    &&& occurrences(piece, c) == count
}

/// Line `i` of blocks side by side, where line `i` of each block is fenced
/// by `c` and holds it once, but for the first block `first` times more,
/// and only that of the first block may begin with `c`: the line holds `c`
/// once for each block and `first` times more, and nowhere twice in a row.
pub proof fn lemma_line_across_fenced(
    blocks: Seq<Seq<Seq<char>>>,
    i: int,
    k: nat,
    c: char,
    first: nat,
)
    requires
        1 <= k <= blocks.len(),
        forall|j: int| 0 <= j < k ==> (0 <= i && i < (#[trigger] blocks[j]).len()),
        forall|j: int|
            0 <= j < k ==> is_fenced((#[trigger] blocks[j])[i], c, if j == 0 {
                1 + first
            } else {
                1
            }),
        forall|j: int| 0 < j < k ==> (#[trigger] blocks[j])[i][0] != c,
    ensures
        is_fenced(line_across(blocks, i, k), c, k + first),
    decreases k,
{
    let last = blocks[k - 1];
    assert(0 <= i && i < last.len());
    let piece = last[i];
    assert(is_fenced(piece, c, if k - 1 == 0 {
        1 + first
    } else {
        1
    }));
    let before = line_across(blocks, i, (k - 1) as nat);
    if k > 1 {
        lemma_line_across_fenced(blocks, i, (k - 1) as nat, c, first);
        assert(piece[0] != c);
        lemma_never_doubled_add(before, piece, c);
        lemma_occurrences_add(before, piece, c);
        assert((before + piece).last() == piece.last());
    } else {
        assert(before.len() == 0);
        assert(before + piece =~= piece);
    }
}

/// As many lines of two runs of lines hold `c` as of both.
pub proof fn lemma_lines_with_add(a: Seq<Seq<char>>, b: Seq<Seq<char>>, c: char)
    ensures
        lines_with(a + b, c) == lines_with(a, c) + lines_with(b, c),
    decreases b.len(),
{
    if b.len() == 0 {
        assert(a + b =~= a);
    } else {
        lemma_lines_with_add(a, b.drop_last(), c);
        assert((a + b).drop_last() =~= a + b.drop_last());
    }
}

/// Of the first `k` lines, where the first `top` of them hold `c` and the
/// others are free of it, `top` hold `c`.
pub proof fn lemma_lines_with_top(ls: Seq<Seq<char>>, c: char, top: int, k: int)
    requires
        0 <= top <= k <= ls.len(),
        forall|i: int| 0 <= i < top ==> !is_free_of(#[trigger] ls[i], c),
        forall|i: int| top <= i < k ==> is_free_of(#[trigger] ls[i], c),
    ensures
        lines_with(ls.take(k), c) == top,
    decreases k - top,
{
    if k > top {
        lemma_lines_with_top(ls, c, top, k - 1);
        assert(ls.take(k).drop_last() =~= ls.take(k - 1));
        assert(ls.take(k).last() == ls[k - 1]);
    } else {
        lemma_lines_with_all(ls, c, top);
    }
}

/// Of lines that are free of `c` but for the first `top` and the last, and
/// that hold `c` there, `top` and one hold `c`.
pub proof fn lemma_lines_with_ends(ls: Seq<Seq<char>>, c: char, top: int)
    requires
        0 <= top <= ls.len() - 1,
        forall|i: int|
            0 <= i < ls.len() ==> (is_free_of(#[trigger] ls[i], c) <==> top <= i < ls.len() - 1),
    ensures
        lines_with(ls, c) == top + 1,
{
    lemma_lines_with_top(ls, c, top, ls.len() - 1);
    assert(ls.drop_last() =~= ls.take(ls.len() - 1));
    assert(!is_free_of(ls[ls.len() - 1], c));
}

/// Of the first `k` lines, where each of them holds `c`, `k` hold `c`.
pub proof fn lemma_lines_with_all(ls: Seq<Seq<char>>, c: char, k: int)
    requires
        0 <= k <= ls.len(),
        forall|i: int| 0 <= i < k ==> !is_free_of(#[trigger] ls[i], c),
    ensures
        lines_with(ls.take(k), c) == k,
    decreases k,
{
    if k > 0 {
        lemma_lines_with_all(ls, c, k - 1);
        assert(ls.take(k).drop_last() =~= ls.take(k - 1));
        assert(ls.take(k).last() == ls[k - 1]);
    }
}

/// Two runs of lines, in neither of which two lines that follow each other
/// both hold `c`, make such a run where the last line of the first or the
/// first line of the second is free of `c`.
pub proof fn lemma_never_adjacent_add(a: Seq<Seq<char>>, b: Seq<Seq<char>>, c: char)
    requires
        never_adjacent(a, c),
        never_adjacent(b, c),
        a.len() == 0 || b.len() == 0 || is_free_of(a.last(), c) || is_free_of(b[0], c),
    ensures
        never_adjacent(a + b, c),
{
    let s = a + b;
    assert forall|t: int| 0 <= t < s.len() - 1 implies is_free_of(s[t], c) || is_free_of(
        #[trigger] s[t + 1],
        c,
    ) by {
        if t + 1 < a.len() {
            assert(s[t] == a[t] && s[t + 1] == a[t + 1]);
        } else if t + 1 == a.len() {
            assert(s[t] == a.last() && s[t + 1] == b[0]);
        } else {
            assert(s[t] == b[t - a.len()] && s[t + 1] == b[t - a.len() + 1]);
        }
    }
}

/// Line `i` of blocks side by side is free of `c` where line `i` of each
/// block is.
pub proof fn lemma_line_across_free(blocks: Seq<Seq<Seq<char>>>, i: int, k: nat, c: char)
    requires
        k <= blocks.len(),
        forall|j: int| 0 <= j < k ==> is_free_of((#[trigger] blocks[j])[i], c),
    ensures
        is_free_of(line_across(blocks, i, k), c),
    decreases k,
{
    if k > 0 {
        let last = blocks[k - 1];
        assert(is_free_of(last[i], c));
        lemma_line_across_free(blocks, i, (k - 1) as nat, c);
        lemma_free_add(line_across(blocks, i, (k - 1) as nat), last[i], c);
    }
}

/// Line `i` of blocks side by side holds `c` where line `i` of the last
/// block ends with it.
pub proof fn lemma_line_across_ends_with(blocks: Seq<Seq<Seq<char>>>, i: int, k: nat, c: char)
    requires
        1 <= k <= blocks.len(),
        blocks[k - 1][i].len() > 0,
        blocks[k - 1][i].last() == c,
    ensures
        !is_free_of(line_across(blocks, i, k), c),
{
    let line = line_across(blocks, i, k);
    assert(line.last() == c);
    assert(line[line.len() - 1] == c);
}

} // verus!
