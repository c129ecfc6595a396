//! A run of deleted lines marked against a run of added lines.

use vstd::prelude::*;

use crate::char_seq::{lemma_text_of, raw, text_of, CharSeq, Text, MAX_ELEMENTS};
use crate::chars::{chars_of, trim, trim_bounds};
use crate::dp::{dp_diff, dp_edits, lemma_dp_aligned};
use crate::matching::{aligned, lemma_aligned_order};
use crate::myers::{lemma_myers_aligned, myers_diff, myers_edits};
use crate::ranges::{edits, least, Edit, SequenceDiff};
use crate::shifting::{lemma_optimized, optimize_sequence_diffs, optimized, roomy};
use crate::short_matches::{
    close_by, distances_fit, lemma_join_where, remove_short_matches,
    remove_very_short_matching_text, without_short, without_very_short,
};
use crate::spans::{
    diffs_to_line_spans, piece_lines, pieces, side_pieces, whole, whole_line, DiffSpan, Mark, Piece,
};
use crate::word_alignment::lemma_extended;
use crate::words::{extend_diffs_to_words, extended};

verus! {

/// Above this product of the two lengths a block is marked by whole lines.
pub const BLOCK_PRODUCT_LIMIT: u64 = 25_000_000;

/// Below this sum of the two lengths the changes come from the dynamic
/// programming table.
pub const DP_LENGTH_LIMIT: u64 = 500;

/// The changes as they are first found.
pub open spec fn found(a: Seq<char>, b: Seq<char>) -> Seq<Edit> {
    if a.len() + b.len() < DP_LENGTH_LIMIT {
        dp_edits(a, b)
    } else {
        myers_edits(a, b)
    }
}

/// The changes shifted and joined, widened to whole words, and joined across
/// single elements.
pub open spec fn tidied(a: Seq<char>, b: Seq<char>) -> Seq<Edit> {
    without_short(extended(a, b, optimized(a, b, found(a, b))))
}

/// The changes that are shown.
pub open spec fn refined(t: Text, u: Text) -> Seq<Edit> {
    without_very_short(t, u, tidied(t.chars, u.chars))
}

/// The block is too large to be compared by characters. A length above
/// `MAX_ELEMENTS` is more than a vector of characters can hold.
pub open spec fn too_large(t: Text, u: Text) -> bool {
    t.len() > MAX_ELEMENTS || u.len() > MAX_ELEMENTS || t.len() * u.len() > BLOCK_PRODUCT_LIMIT
}

/// Each line marked as a whole.
pub open spec fn whole_lines(lines: Seq<Seq<char>>, mark: Mark) -> Seq<Seq<Piece>> {
    Seq::new(lines.len(), |i: int| whole(lines[i], mark))
}

/// The lines that differ from the line at their place on the other side by the
/// white space around them, if at all.
pub open spec fn white_pairs(lines: Seq<Seq<char>>, others: Seq<Seq<char>>) -> Seq<bool> {
    Seq::new(lines.len(), |i: int| i < others.len() && trim(lines[i]) == trim(others[i]))
}

/// The block is marked by whole lines: a side has no lines, or it is too large.
pub open spec fn by_lines(del: Seq<Seq<char>>, add: Seq<Seq<char>>) -> bool {
    del.len() == 0 || add.len() == 0 || too_large(text_of(del), text_of(add))
}

/// The spans of the deleted lines.
pub open spec fn del_pieces(del: Seq<Seq<char>>, add: Seq<Seq<char>>) -> Seq<Seq<Piece>> {
    if by_lines(del, add) {
        whole_lines(del, Mark::Del)
    } else {
        let t = text_of(del);
        let u = text_of(add);
        side_pieces(del, u, refined(t, u), true, white_pairs(del, add))
    }
}

/// The spans of the added lines.
pub open spec fn add_pieces(del: Seq<Seq<char>>, add: Seq<Seq<char>>) -> Seq<Seq<Piece>> {
    if by_lines(del, add) {
        whole_lines(add, Mark::Ins)
    } else {
        let t = text_of(del);
        let u = text_of(add);
        side_pieces(add, t, refined(t, u), false, white_pairs(add, del))
    }
}

/// What the tidied changes leave out is the same on both sides.
pub proof fn lemma_tidied(a: Seq<char>, b: Seq<char>)
    ensures
        aligned(a, b, tidied(a, b), a.len() as int, b.len() as int),
{
    lemma_dp_aligned(a, b);
    lemma_myers_aligned(a, b);
    let es = found(a, b);
    lemma_optimized(a, b, es);
    lemma_extended(a, b, optimized(a, b, es));
    lemma_join_where(
        a,
        b,
        extended(a, b, optimized(a, b, es)),
        a.len() as int,
        b.len() as int,
        |last: Edit, next: Edit| close_by(last, next),
    );
}

/// Marks each line as a whole.
fn mark_lines<'a>(lines: &[&'a str], mark: Mark) -> (result: Vec<Vec<DiffSpan<'a>>>)
    ensures
        piece_lines(result@) == whole_lines(raw(lines@), mark),
{
    let mut result: Vec<Vec<DiffSpan<'a>>> = Vec::new();
    let mut i: usize = 0;
    while i < lines.len()
        invariant
            i <= lines@.len(),
            result@.len() == i,
            forall|k: int|
                0 <= k < i ==> pieces(#[trigger] result@[k]@) == whole(lines@[k]@, mark),
        decreases lines@.len() - i,
    {
        result.push(whole_line(lines[i], mark));
        i = i + 1;
    }
    assert(piece_lines(result@) =~= whole_lines(raw(lines@), mark));
    result
}

/// The lines are equal but for the white space around them.
fn same_trimmed(x: &str, y: &str) -> (same: bool)
    ensures
        same == (trim(x@) == trim(y@)),
{
    let xs: Vec<char> = chars_of(x);
    let ys: Vec<char> = chars_of(y);
    let xb: (usize, usize) = trim_bounds(&xs);
    let yb: (usize, usize) = trim_bounds(&ys);
    let count: usize = xb.1 - xb.0;
    let ghost tx = trim(x@);
    let ghost ty = trim(y@);
    if count != yb.1 - yb.0 {
        assert(tx.len() != ty.len());
        return false;
    }
    let mut i: usize = 0;
    while i < count
        invariant
            i <= count,
            xb.0 + count == xb.1 <= xs.len(),
            yb.0 + count == yb.1 <= ys.len(),
            tx == xs@.subrange(xb.0 as int, xb.1 as int),
            ty == ys@.subrange(yb.0 as int, yb.1 as int),
            tx == trim(x@),
            ty == trim(y@),
            forall|k: int| 0 <= k < i ==> #[trigger] tx[k] == ty[k],
        decreases count - i,
    {
        if xs[xb.0 + i] != ys[yb.0 + i] {
            assert(tx[i as int] != ty[i as int]);
            return false;
        }
        assert(tx[i as int] == ty[i as int]);
        i = i + 1;
    }
    assert(tx =~= ty);
    true
}

/// The lines that are paired by white space, see `white_pairs`.
fn pair_lines(lines: &[&str], others: &[&str]) -> (pairs: Vec<bool>)
    ensures
        pairs@ == white_pairs(raw(lines@), raw(others@)),
{
    let mut pairs: Vec<bool> = Vec::new();
    let mut i: usize = 0;
    while i < lines.len()
        invariant
            i <= lines@.len(),
            pairs@.len() == i,
            forall|k: int|
                0 <= k < i ==> #[trigger] pairs@[k] == (k < others@.len() && trim(lines@[k]@)
                    == trim(others@[k]@)),
        decreases lines@.len() - i,
    {
        pairs.push(i < others.len() && same_trimmed(lines[i], others[i]));
        i = i + 1;
    }
    assert(pairs@ =~= white_pairs(raw(lines@), raw(others@)));
    pairs
}

/// The changes of a block that is not too large, see `refined`.
fn refine(seq1: &CharSeq, seq2: &CharSeq) -> (diffs: Vec<SequenceDiff>)
    requires
        seq1.wf(),
        seq2.wf(),
        !too_large(seq1@, seq2@),
    ensures
        edits(diffs@) == refined(seq1@, seq2@),
{
    let ghost a = seq1@.chars;
    let ghost b = seq2@.chars;
    let ghost n = seq1@.len();
    let ghost m = seq2@.len();
    proof {
        let first = found(a, b);
        lemma_dp_aligned(a, b);
        lemma_myers_aligned(a, b);
        lemma_aligned_order(a, b, first, n, m);
        lemma_optimized(a, b, first);
        lemma_aligned_order(a, b, optimized(a, b, first), n, m);
        lemma_extended(a, b, optimized(a, b, first));
        lemma_tidied(a, b);
        lemma_aligned_order(a, b, tidied(a, b), n, m);
        if n + m < DP_LENGTH_LIMIT {
            let k = least(n, m);
            assert(k * (k + 1) <= 500 * 501) by (nonlinear_arith)
                requires
                    0 <= k <= 500,
            ;
        }
        if n > 0 && m > 0 {
            assert(n + m <= n * m + 1) by (nonlinear_arith)
                requires
                    n > 0,
                    m > 0,
            ;
        }
    }
    let diffs: Vec<SequenceDiff> = if (seq1.length() + seq2.length()) < DP_LENGTH_LIMIT as i64 {
        dp_diff(seq1, seq2)
    } else {
        myers_diff(seq1, seq2)
    };
    proof {
        let es = edits(diffs@);
        assert forall|i: int| 0 <= i < diffs@.len() implies roomy((#[trigger] diffs@[i])@) by {
            assert(es[i].within(n, m));
            assert(es[i] == diffs@[i]@);
        }
    }
    let diffs: Vec<SequenceDiff> = optimize_sequence_diffs(seq1, seq2, diffs);
    let diffs: Vec<SequenceDiff> = extend_diffs_to_words(seq1, seq2, diffs);
    proof {
        let es = edits(diffs@);
        lemma_aligned_order(a, b, es, n, m);
        assert forall|i: int, j: int| 0 <= i < j < diffs@.len() implies distances_fit(
            (#[trigger] diffs@[i])@,
            (#[trigger] diffs@[j])@,
        ) by {
            assert(es[i].within(n, m) && es[j].within(n, m));
            assert(es[i] == diffs@[i]@ && es[j] == diffs@[j]@);
        }
    }
    let diffs: Vec<SequenceDiff> = remove_short_matches(&diffs);
    remove_very_short_matching_text(seq1, seq2, diffs)
}

/// Marks a run of deleted lines against a run of added lines. For each line the
/// result has its spans; those of the deleted lines come first.
pub fn block_diff_runs<'a>(del_run: &[&'a str], add_run: &[&'a str]) -> (result: (
    Vec<Vec<DiffSpan<'a>>>,
    Vec<Vec<DiffSpan<'a>>>,
))
    ensures
        piece_lines(result.0@) == del_pieces(raw(del_run@), raw(add_run@)),
        piece_lines(result.1@) == add_pieces(raw(del_run@), raw(add_run@)),
{
    if del_run.len() == 0 || add_run.len() == 0 {
        return (mark_lines(del_run, Mark::Del), mark_lines(add_run, Mark::Ins));
    }
    let ghost del = raw(del_run@);
    let ghost add = raw(add_run@);
    proof {
        lemma_text_of(del);
        lemma_text_of(add);
    }
    let seq1: CharSeq = CharSeq::new(del_run);
    let seq2: CharSeq = CharSeq::new(add_run);
    let n: usize = seq1.elements.len();
    let m: usize = seq2.elements.len();
    assert(n * m <= u64::MAX * u64::MAX) by (nonlinear_arith)
        requires
            n <= u64::MAX,
            m <= u64::MAX,
    ;
    if n as u64 > MAX_ELEMENTS || m as u64 > MAX_ELEMENTS || n as u128 * m as u128
        > BLOCK_PRODUCT_LIMIT as u128 {
        return (mark_lines(del_run, Mark::Del), mark_lines(add_run, Mark::Ins));
    }
    let diffs: Vec<SequenceDiff> = refine(&seq1, &seq2);
    let del_ws: Vec<bool> = pair_lines(del_run, add_run);
    let add_ws: Vec<bool> = pair_lines(add_run, del_run);
    (
        diffs_to_line_spans(del_run, &seq1, &seq2, &diffs, true, &del_ws),
        diffs_to_line_spans(add_run, &seq2, &seq1, &diffs, false, &add_ws),
    )
}

} // verus!
