//! Which of the many ways to match two texts the two searches choose.

use vstd::prelude::*;

use crate::chars::element;
use crate::dp::{cell, dp_edits, lemma_cell_bound, table_path, Step};
use crate::matching::{edits_between, Block};
use crate::myers::{advance, entry, lemma_snake_grows, reach_at, snake_end, trail_at, Frontier};

verus! {

/// The table at a pair of elements. What its cell scores is at least what the
/// cells before it score that leave one of the two elements out, and if the two
/// are equal, at least what matching them after the cell before both scores: one
/// more than the matches in a row there. It scores no more than the best of
/// these. A match is taken where none is better; otherwise the first side's
/// element is left out, unless leaving out the other one is better.
pub proof fn the_table_takes_the_best_step(a: Seq<char>, b: Seq<char>, i: int, j: int)
    requires
        0 <= i < a.len(),
        0 <= j < b.len(),
    ensures
        ({
            let here = cell(a, b, i + 1, j + 1);
            let up = cell(a, b, i, j + 1);
            let left = cell(a, b, i + 1, j);
            let corner = cell(a, b, i, j);
            let match_score = corner.score + corner.run + 1;
            &&& here.score >= up.score
            &&& here.score >= left.score
            &&& a[i] == b[j] ==> here.score >= match_score
            &&& a[i] == b[j] && match_score >= up.score && match_score >= left.score ==> here.step
                is Both
            &&& here.step is Both ==> a[i] == b[j] && here.score == match_score && here.run
                == corner.run + 1
            &&& here.step is First ==> here.score == up.score && here.run == 0
            &&& here.step is Second ==> here.score == left.score && here.run == 0 && left.score
                > up.score
        }),
{
    lemma_cell_bound(a, b, i, j + 1, i);
    lemma_cell_bound(a, b, i + 1, j, j);
    lemma_cell_bound(a, b, i, j, i);
}

/// Nothing is matched with nothing.
pub proof fn the_table_starts_with_nothing(a: Seq<char>, b: Seq<char>, k: int)
    ensures
        cell(a, b, 0, k).score == 0 && cell(a, b, 0, k).run == 0,
        cell(a, b, k, 0).score == 0 && cell(a, b, k, 0).run == 0,
        table_path(a, b, 0, k) == Seq::<Block>::empty(),
        table_path(a, b, k, 0) == Seq::<Block>::empty(),
{
}

/// How many matches in a row a list of single matches ends with.
pub open spec fn in_a_row(blocks: Seq<Block>) -> int
    decreases blocks.len(),
{
    if blocks.len() == 0 {
        0
    } else {
        let head = blocks.drop_last();
        if head.len() > 0 && head.last().a + 1 == blocks.last().a && head.last().b + 1
            == blocks.last().b {
            in_a_row(head) + 1
        } else {
            1
        }
    }
}

/// What a list of single matches is worth: for each of them, the number of
/// matches in a row up to it.
pub open spec fn worth(blocks: Seq<Block>) -> int
    decreases blocks.len(),
{
    if blocks.len() == 0 {
        0
    } else {
        worth(blocks.drop_last()) + in_a_row(blocks)
    }
}

proof fn lemma_path(a: Seq<char>, b: Seq<char>, i: int, j: int)
    requires
        0 <= i <= a.len(),
        0 <= j <= b.len(),
    ensures
        ({
            let blocks = table_path(a, b, i, j);
            let here = cell(a, b, i, j);
            &&& worth(blocks) == here.score
            &&& blocks.len() > 0 ==> blocks.last().a < i && blocks.last().b < j
            &&& here.run > 0 ==> blocks.len() > 0 && blocks.last().a == i - 1 && blocks.last().b
                == j - 1 && in_a_row(blocks) == here.run
            &&& here.run == 0 && i > 0 && j > 0 ==> blocks.len() == 0 || blocks.last().a < i - 1
                || blocks.last().b < j - 1
            &&& here.run >= 0
        }),
    decreases i, j,
{
    if i > 0 && j > 0 {
        the_table_takes_the_best_step(a, b, i - 1, j - 1);
        lemma_cell_bound(a, b, i - 1, j - 1, i);
        match cell(a, b, i, j).step {
            Step::Both => {
                lemma_path(a, b, i - 1, j - 1);
                let head = table_path(a, b, i - 1, j - 1);
                let blocks = table_path(a, b, i, j);
                assert(blocks.drop_last() =~= head);
            },
            Step::First => {
                lemma_path(a, b, i - 1, j);
            },
            Step::Second => {
                lemma_path(a, b, i, j - 1);
            },
        }
    }
}

/// The matches that the table settles on are worth what its last cell scores;
/// the changes are what lies between them. Where a side is empty, everything is
/// one change.
pub proof fn the_table_yields_what_it_scores(a: Seq<char>, b: Seq<char>)
    ensures
        ({
            let n = a.len() as int;
            let m = b.len() as int;
            let blocks = table_path(a, b, n, m);
            &&& worth(blocks) == cell(a, b, n, m).score
            &&& n > 0 && m > 0 ==> dp_edits(a, b) == edits_between(blocks, n, m)
            &&& n == 0 || m == 0 ==> dp_edits(a, b).len() == 1 && dp_edits(a, b)[0].a.start == 0
                && dp_edits(a, b)[0].b.start == 0 && dp_edits(a, b)[0].ends() == (n, m)
        }),
{
    lemma_path(a, b, a.len() as int, b.len() as int);
}

/// The search for a shortest way enters a diagonal between `lo` and `hi` from
/// the one above it if that leads at least as far as the one below it, and
/// follows matches from there as far as they go.
pub proof fn the_search_prefers_the_diagonal_above(
    a: Seq<char>,
    b: Seq<char>,
    f: Frontier,
    lo: int,
    hi: int,
    k: int,
)
    requires
        lo < k < hi,
        reach_at(f, k + 1) <= a.len(),
        reach_at(f, k - 1) <= a.len(),
    ensures
        ({
            let n = a.len() as int;
            let above = reach_at(f, k + 1);
            let below = reach_at(f, k - 1);
            let x = if above > below {
                above
            } else if below + 1 > n {
                n
            } else {
                below + 1
            };
            let way = if above > below || above == n {
                trail_at(f, k + 1)
            } else {
                trail_at(f, k - 1)
            };
            let end = snake_end(a, b, x, x - k);
            let g = advance(a, b, f, lo, hi, k);
            &&& reach_at(g, k) == end
            &&& end >= n || end - k >= b.len() || element(a, end) != element(b, end - k)
            &&& trail_at(g, k) == (if end > x {
                way.push(Block { a: x, b: x - k, len: end - x })
            } else {
                way
            })
        }),
{
    let x = entry(f, a.len() as int, lo, hi, k);
    lemma_snake_grows(a, b, x, x - k);
}

} // verus!
