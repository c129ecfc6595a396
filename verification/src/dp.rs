//! Comparison of two short sequences with a dynamic programming table.

use vstd::prelude::*;

use crate::char_seq::{CharSeq, MAX_ELEMENTS};
use crate::chars::element;
use crate::matching::{
    aligned, chain, edits_between, lemma_aligned_none, lemma_aligned_push, lemma_chain_widen,
    lemma_edits_between, report, reversed, same, spaced, Block,
};
use crate::ranges::{edits, greatest, least, Edit, Interval, OffsetRange, SequenceDiff};

verus! {

/// How a cell of the table was reached.
#[derive(Clone, Copy, Debug, PartialEq, Eq, Structural)]
pub enum Step {
    /// By matching the last elements of both sides.
    Both,
    /// By leaving out the last element of the first side.
    First,
    /// By leaving out the last element of the second side.
    Second,
}

/// A cell of the table.
pub struct Cell {
    pub score: int,
    /// How many matches in a row end here.
    pub run: int,
    pub step: Step,
}

/// How the table matches the first `i` elements of `a` with the first `j`
/// elements of `b`. A match counts one more than the matches in a row before
/// it, so that long runs win; and where it ties with leaving an element out, the
/// match wins.
pub open spec fn cell(a: Seq<char>, b: Seq<char>, i: int, j: int) -> Cell
    decreases i, j,
{
    if i <= 0 || j <= 0 {
        Cell { score: 0, run: 0, step: Step::First }
    } else {
        let up = cell(a, b, i - 1, j);
        let left = cell(a, b, i, j - 1);
        let corner = cell(a, b, i - 1, j - 1);
        let hit = if a[i - 1] == b[j - 1] {
            corner.score + corner.run + 1
        } else {
            -1
        };
        let best = greatest(greatest(up.score, left.score), hit);
        if best == hit {
            Cell { score: best, run: corner.run + 1, step: Step::Both }
        } else if best == up.score {
            Cell { score: best, run: 0, step: Step::First }
        } else {
            Cell { score: best, run: 0, step: Step::Second }
        }
    }
}

/// The matches on the way to a cell, one block each.
pub open spec fn table_path(a: Seq<char>, b: Seq<char>, i: int, j: int) -> Seq<Block>
    decreases i, j,
{
    if i <= 0 || j <= 0 {
        Seq::empty()
    } else {
        match cell(a, b, i, j).step {
            Step::Both => table_path(a, b, i - 1, j - 1).push(Block { a: i - 1, b: j - 1, len: 1 }),
            Step::First => table_path(a, b, i - 1, j),
            Step::Second => table_path(a, b, i, j - 1),
        }
    }
}

/// Everything changed.
pub open spec fn whole(a: Seq<char>, b: Seq<char>) -> Edit {
    Edit {
        a: Interval { start: 0, end: a.len() as int },
        b: Interval { start: 0, end: b.len() as int },
    }
}

/// The changes that the table finds.
pub open spec fn dp_edits(a: Seq<char>, b: Seq<char>) -> Seq<Edit> {
    let n = a.len() as int;
    let m = b.len() as int;
    if n == 0 || m == 0 {
        seq![whole(a, b)]
    } else {
        edits_between(table_path(a, b, n, m), n, m)
    }
}

/// A cell scores at most what a run along the whole shorter side would.
pub proof fn lemma_cell_bound(a: Seq<char>, b: Seq<char>, i: int, j: int, k: int)
    requires
        0 <= k,
        i <= k || j <= k,
    ensures
        0 <= cell(a, b, i, j).score,
        2 * cell(a, b, i, j).score <= k * (k + 1),
        0 <= cell(a, b, i, j).run <= k,
    decreases i, j,
{
    assert(0 <= k * (k + 1)) by (nonlinear_arith)
        requires
            0 <= k,
    ;
    if i > 0 && j > 0 {
        lemma_cell_bound(a, b, i - 1, j, k);
        lemma_cell_bound(a, b, i, j - 1, k);
        lemma_cell_bound(a, b, i - 1, j - 1, k - 1);
        assert((k - 1) * k + 2 * k == k * (k + 1)) by (nonlinear_arith);
    }
}

pub proof fn lemma_matches_chain(a: Seq<char>, b: Seq<char>, i: int, j: int)
    requires
        0 <= i <= a.len(),
        0 <= j <= b.len(),
    ensures
        chain(a, b, table_path(a, b, i, j), i, j),
    decreases i, j,
{
    if i > 0 && j > 0 {
        match cell(a, b, i, j).step {
            Step::Both => {
                lemma_matches_chain(a, b, i - 1, j - 1);
                lemma_cell_bound(a, b, i - 1, j, j);
                assert(same(a, i - 1, b, j - 1, 1));
                let blocks = table_path(a, b, i, j);
                assert(blocks.drop_last() =~= table_path(a, b, i - 1, j - 1));
            },
            Step::First => {
                lemma_matches_chain(a, b, i - 1, j);
                lemma_chain_widen(a, b, table_path(a, b, i - 1, j), i - 1, j, i, j);
            },
            Step::Second => {
                lemma_matches_chain(a, b, i, j - 1);
                lemma_chain_widen(a, b, table_path(a, b, i, j - 1), i, j - 1, i, j);
            },
        }
    }
}

/// What the table leaves unchanged is the same text on both sides, and no two
/// of its changes touch.
pub proof fn lemma_dp_aligned(a: Seq<char>, b: Seq<char>)
    ensures
        aligned(a, b, dp_edits(a, b), a.len() as int, b.len() as int),
        spaced(dp_edits(a, b)),
{
    let n = a.len() as int;
    let m = b.len() as int;
    if n == 0 || m == 0 {
        let none = Seq::<Edit>::empty();
        lemma_aligned_none(a, b);
        lemma_aligned_push(a, b, none, 0, 0, n, m);
        assert(none.push(whole(a, b)) =~= seq![whole(a, b)]);
    } else {
        lemma_matches_chain(a, b, n, m);
        lemma_edits_between(a, b, table_path(a, b, n, m), n, m);
    }
}

/// The change that replaces everything.
pub fn trivial_diff(seq1: &CharSeq, seq2: &CharSeq) -> (diff: SequenceDiff)
    requires
        seq1@.len() <= MAX_ELEMENTS,
        seq2@.len() <= MAX_ELEMENTS,
    ensures
        diff@ == whole(seq1@.chars, seq2@.chars),
{
    SequenceDiff {
        seq1: OffsetRange { start: 0, end: seq1.length() },
        seq2: OffsetRange { start: 0, end: seq2.length() },
    }
}

/// The step into each cell of row `i`, for the columns `1..=m`.
pub open spec fn row_steps(a: Seq<char>, b: Seq<char>, i: int, steps: Seq<Step>) -> bool {
    &&& steps.len() == b.len()
    &&& forall|j: int| 0 <= j < b.len() ==> #[trigger] steps[j] == cell(a, b, i, j + 1).step
}

/// The score and the run of each cell of row `i`, for the columns `0..k`.
pub open spec fn row_values(
    a: Seq<char>,
    b: Seq<char>,
    i: int,
    k: int,
    values: Seq<(i64, i64)>,
) -> bool {
    &&& values.len() == k
    &&& forall|j: int|
        0 <= j < k ==> {
            &&& (#[trigger] values[j]).0 == cell(a, b, i, j).score
            &&& values[j].1 == cell(a, b, i, j).run
        }
}

/// The score of a run along the whole shorter side, and so every score, is an
/// `i64`.
pub open spec fn scores_fit(n: int, m: int) -> bool {
    least(n, m) * (least(n, m) + 1) <= 2 * i64::MAX
}

fn fill_row(
    seq1: &CharSeq,
    seq2: &CharSeq,
    i: usize,
    above: &Vec<(i64, i64)>,
) -> (row: (Vec<(i64, i64)>, Vec<Step>))
    requires
        1 <= i <= seq1@.len() <= MAX_ELEMENTS,
        seq2@.len() <= MAX_ELEMENTS,
        scores_fit(seq1@.len(), seq2@.len()),
        row_values(seq1@.chars, seq2@.chars, i - 1, seq2@.len() + 1, above@),
    ensures
        row_values(seq1@.chars, seq2@.chars, i as int, seq2@.len() + 1, row.0@),
        row_steps(seq1@.chars, seq2@.chars, i as int, row.1@),
{
    let ghost a = seq1@.chars;
    let ghost b = seq2@.chars;
    let m: usize = seq2.elements.len();
    let mut values: Vec<(i64, i64)> = Vec::new();
    let mut steps: Vec<Step> = Vec::new();
    values.push((0, 0));
    let mut j: usize = 0;
    while j < m
        invariant
            1 <= i <= a.len() <= MAX_ELEMENTS,
            j <= m == b.len() <= MAX_ELEMENTS,
            a == seq1@.chars,
            b == seq2@.chars,
            scores_fit(a.len() as int, b.len() as int),
            row_values(a, b, i - 1, m + 1, above@),
            row_values(a, b, i as int, j + 1, values@),
            steps@.len() == j,
            forall|k: int|
                0 <= k < steps@.len() ==> #[trigger] steps@[k] == cell(
                    a,
                    b,
                    i as int,
                    k + 1,
                ).step,
        decreases m - j,
    {
        let left: i64 = values[j].0;
        let corner: (i64, i64) = above[j];
        j = j + 1;
        let up: i64 = above[j].0;
        proof {
            let k = least(a.len() as int, b.len() as int);
            lemma_cell_bound(a, b, i - 1, j - 1, k - 1);
            lemma_cell_bound(a, b, i - 1, j as int, k);
            assert((k - 1) * (k - 1 + 1) + 2 * k == k * (k + 1)) by (nonlinear_arith);
        }
        let hit: i64 = if seq1.element(i as i64 - 1) == seq2.element(j as i64 - 1) {
            corner.0 + corner.1 + 1
        } else {
            -1
        };
        let side: i64 = if up >= left {
            up
        } else {
            left
        };
        let best: i64 = if side >= hit {
            side
        } else {
            hit
        };
        let ghost here = cell(a, b, i as int, j as int);
        assert(here.score == best);
        if best == hit {
            values.push((best, corner.1 + 1));
            steps.push(Step::Both);
        } else if best == up {
            values.push((best, 0));
            steps.push(Step::First);
        } else {
            values.push((best, 0));
            steps.push(Step::Second);
        }
    }
    (values, steps)
}

/// The changes between matches that the table finds. It prefers long runs, even
/// where shorter ones would match more elements.
pub fn dp_diff(seq1: &CharSeq, seq2: &CharSeq) -> (result: Vec<SequenceDiff>)
    requires
        seq1@.len() <= MAX_ELEMENTS,
        seq2@.len() <= MAX_ELEMENTS,
        scores_fit(seq1@.len(), seq2@.len()),
    ensures
        edits(result@) == dp_edits(seq1@.chars, seq2@.chars),
{
    let ghost a = seq1@.chars;
    let ghost b = seq2@.chars;
    let n: usize = seq1.elements.len();
    let m: usize = seq2.elements.len();
    let mut result: Vec<SequenceDiff> = Vec::new();
    if n == 0 || m == 0 {
        result.push(trivial_diff(seq1, seq2));
        assert(edits(result@) =~= seq![whole(a, b)]);
        return result;
    }
    let mut above: Vec<(i64, i64)> = Vec::new();
    above.push((0, 0));
    let mut j: usize = 0;
    while j < m
        invariant
            j <= m == b.len() <= MAX_ELEMENTS,
            row_values(a, b, 0, j + 1, above@),
        decreases m - j,
    {
        above.push((0, 0));
        j = j + 1;
    }
    let mut steps: Vec<Vec<Step>> = Vec::new();
    let mut i: usize = 0;
    while i < n
        invariant
            i <= n == a.len() <= MAX_ELEMENTS,
            m == b.len() <= MAX_ELEMENTS,
            a == seq1@.chars,
            b == seq2@.chars,
            scores_fit(a.len() as int, b.len() as int),
            row_values(a, b, i as int, m + 1, above@),
            steps@.len() == i,
            forall|k: int| 0 <= k < i ==> row_steps(a, b, k + 1, #[trigger] steps@[k]@),
        decreases n - i,
    {
        let (values, row) = fill_row(seq1, seq2, i + 1, &above);
        above = values;
        steps.push(row);
        i = i + 1;
    }
    let mut j: usize = m;
    let mut last1: i64 = n as i64;
    let mut last2: i64 = m as i64;
    let ghost all = dp_edits(a, b);
    assert(edits(result@).reverse() =~= Seq::empty());
    assert(edits_between(table_path(a, b, i as int, j as int), last1 as int, last2 as int)
        + edits(result@).reverse() =~= all);
    while i > 0 && j > 0
        invariant
            i <= n == a.len() <= MAX_ELEMENTS,
            j <= m == b.len() <= MAX_ELEMENTS,
            steps@.len() == n,
            forall|k: int| 0 <= k < n ==> row_steps(a, b, k + 1, #[trigger] steps@[k]@),
            edits_between(table_path(a, b, i as int, j as int), last1 as int, last2 as int) + edits(
                result@,
            ).reverse() == all,
        decreases i + j,
    {
        let ghost before = edits(result@);
        let ghost blocks = table_path(a, b, i as int, j as int);
        assert(row_steps(a, b, i as int, steps@[i - 1]@));
        match steps[i - 1][j - 1] {
            Step::Both => {
                report(&mut result, i as i64, j as i64, last1, last2);
                last1 = i as i64 - 1;
                last2 = j as i64 - 1;
                i = i - 1;
                j = j - 1;
                assert(blocks.drop_last() =~= table_path(a, b, i as int, j as int));
                assert(edits_between(
                    table_path(a, b, i as int, j as int),
                    last1 as int,
                    last2 as int,
                ) + edits(result@).reverse() =~= all);
            },
            Step::First => {
                i = i - 1;
            },
            Step::Second => {
                j = j - 1;
            },
        }
    }
    report(&mut result, 0, 0, last1, last2);
    assert(edits(result@).reverse() =~= all);
    reversed(&result)
}

} // verus!
