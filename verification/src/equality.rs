//! Equal blocks have no changes, and carry no marks.

use vstd::prelude::*;

use crate::block::{by_lines, found, lemma_tidied, refined, tidied, white_pairs};
use crate::char_seq::{
    lemma_text_of, lemma_word_at, line_offset, text_of, word_at, Text, MAX_ELEMENTS,
};
use crate::dp::{cell, lemma_cell_bound, table_path};
use crate::laws::pieces_of;
use crate::matching::edits_between;
use crate::ranges::{gap, gaps, Edit, Interval};
use crate::shifting::optimized;
use crate::short_matches::{pulled, pulled_up_to, MAX_ROUNDS};
use crate::shortest::lemma_myers_equal;
use crate::spans::{
    bars_on, cut, lemma_run_end, line_mask, line_pieces, marks_at, own, pair_at, run_end, Bar,
};
use crate::survival::lemma_changes_within;
use crate::words::{changed_words, extended, interleave, scan, scan_runs, Scan};

verus! {

/// A text is matched with itself in one run.
proof fn lemma_cell_equal(a: Seq<char>, i: int)
    requires
        0 <= i <= a.len(),
    ensures
        cell(a, a, i, i).run == i,
        2 * cell(a, a, i, i).score == i * (i + 1),
        i > 0 ==> cell(a, a, i, i).step is Both,
    decreases i,
{
    if i > 0 {
        lemma_cell_equal(a, i - 1);
        lemma_cell_bound(a, a, i - 1, i, i - 1);
        lemma_cell_bound(a, a, i, i - 1, i - 1);
        assert((i - 1) * i + 2 * i == i * (i + 1)) by (nonlinear_arith);
        assert((i - 1) * (i - 1 + 1) == (i - 1) * i);
    }
}

proof fn lemma_matches_equal(a: Seq<char>, i: int)
    requires
        0 <= i <= a.len(),
    ensures
        edits_between(table_path(a, a, i, i), i, i) == Seq::<Edit>::empty(),
    decreases i,
{
    if i > 0 {
        lemma_cell_equal(a, i);
        lemma_matches_equal(a, i - 1);
        let blocks = table_path(a, a, i, i);
        assert(blocks.drop_last() =~= table_path(a, a, i - 1, i - 1));
    }
}

/// Neither search finds a change between equal texts.
pub proof fn lemma_found_equal(a: Seq<char>)
    requires
        a.len() >= 1,
    ensures
        found(a, a) == Seq::<Edit>::empty(),
{
    lemma_matches_equal(a, a.len() as int);
    lemma_myers_equal(a);
}

/// The words of equal texts are equal as a whole.
proof fn lemma_scan_equal(a: Seq<char>, st: Scan, x: int)
    requires
        st.queue.len() == 0,
        st.extra.len() == 0,
    ensures
        ({
            let n = a.len() as int;
            let run = Edit { a: Interval { start: 0, end: n }, b: Interval { start: 0, end: n } };
            let next = scan(a, a, st, x, x, run);
            next.queue.len() == 0 && next.extra.len() == 0
        }),
{
    let n = a.len() as int;
    let run = Edit { a: Interval { start: 0, end: n }, b: Interval { start: 0, end: n } };
    if word_at(a, x) is Some {
        lemma_word_at(a, x);
    }
}

proof fn lemma_words_equal(a: Seq<char>)
    ensures
        changed_words(a, a, Seq::empty()).len() == 0,
{
    let n = a.len() as int;
    let none = Seq::<Edit>::empty();
    let run = Edit { a: Interval { start: 0, end: n }, b: Interval { start: 0, end: n } };
    let st = Scan { queue: gaps(none, n, n), extra: none, last: (0, 0) };
    assert(st.queue[0] == gap(none, n, n, 0));
    assert(st.queue[0] == run);
    let rest = Scan { queue: st.queue.drop_first(), ..st };
    reveal_with_fuel(scan_runs, 2);
    lemma_scan_equal(a, rest, 0);
    let first = scan(a, a, rest, 0, 0, run);
    lemma_scan_equal(a, first, n - 1);
}

/// Nothing is changed between equal texts.
proof fn lemma_tidied_equal(a: Seq<char>)
    requires
        a.len() >= 1,
    ensures
        tidied(a, a) == Seq::<Edit>::empty(),
{
    let none = Seq::<Edit>::empty();
    lemma_found_equal(a);
    assert(optimized(a, a, none) =~= none);
    lemma_words_equal(a);
    assert(interleave(none, changed_words(a, a, none)) =~= none);
    assert(extended(a, a, none) =~= none);
}

/// The changes between equal texts have nothing on either side.
proof fn lemma_refined_equal(t: Text, d: int)
    requires
        t.wf(),
        t.len() <= MAX_ELEMENTS,
        0 <= d < refined(t, t).len(),
    ensures
        t.len() == 0,
        refined(t, t)[d].within(0, 0),
{
    if t.len() == 0 {
        lemma_tidied(t.chars, t.chars);
        lemma_changes_within(t, t, tidied(t.chars, t.chars), d);
    } else {
        let none = Seq::<Edit>::empty();
        lemma_tidied_equal(t.chars);
        assert(pulled(t, t, none) =~= none);
        assert(pulled_up_to(t, t, none, MAX_ROUNDS as int) =~= none);
        assert(refined(t, t) =~= none);
    }
}

/// A line without marks and bars has only plain spans.
proof fn lemma_cut_plain(line: Seq<char>, mask: Seq<bool>, left: bool, i: int)
    requires
        mask.len() == line.len(),
        0 <= i <= mask.len(),
        forall|j: int| 0 <= j < mask.len() ==> !(#[trigger] mask[j]),
    ensures
        forall|p: int|
            0 <= p < cut(line, mask, Seq::empty(), left, i, 0).len() ==> (#[trigger] cut(
                line,
                mask,
                Seq::empty(),
                left,
                i,
                0,
            )[p]).mark is None,
    decreases mask.len() - i,
{
    let none = Seq::<Bar>::empty();
    let all = cut(line, mask, none, left, i, 0);
    if i < mask.len() {
        let j = run_end(mask, -1, i, i + 1);
        lemma_run_end(mask, -1, i, i + 1);
        let rest = cut(line, mask, none, left, j, 0);
        lemma_cut_plain(line, mask, left, j);
        assert forall|p: int| 0 <= p < all.len() implies (#[trigger] all[p]).mark is None by {
            if p > 0 {
                assert(all[p] == rest[p - 1]);
            }
        }
    }
}

/// Changes that have nothing on either side give no bars.
proof fn lemma_no_bars(
    lines: Seq<Seq<char>>,
    t: Text,
    u: Text,
    es: Seq<Edit>,
    left: bool,
    line: int,
    k: int,
)
    requires
        0 <= k <= es.len(),
        forall|d: int| 0 <= d < es.len() ==> (#[trigger] es[d]).within(0, 0),
    ensures
        bars_on(lines, t, u, es, left, line, k) == Seq::<Bar>::empty(),
    decreases k,
{
    if k > 0 {
        lemma_no_bars(lines, t, u, es, left, line, k - 1);
        assert(es[k - 1].within(0, 0));
    }
}

/// Two equal runs of lines carry no marks and no bars, unless they are too large
/// to be compared.
pub proof fn equal_blocks_carry_no_marks(lines: Seq<Seq<char>>, left: bool, k: int, p: int)
    requires
        !by_lines(lines, lines),
        0 <= k < lines.len(),
        0 <= p < pieces_of(lines, lines, left)[k].len(),
    ensures
        pieces_of(lines, lines, left)[k][p].mark is None,
{
    let t = text_of(lines);
    let es = refined(t, t);
    lemma_text_of(lines);
    let ws_pair = pair_at(white_pairs(lines, lines), k);
    assert(pieces_of(lines, lines, left)[k] == line_pieces(lines, t, es, left, ws_pair, k));
    assert forall|d: int| 0 <= d < es.len() implies t.len() == 0 && (#[trigger] es[d]).within(
        0,
        0,
    ) by {
        lemma_refined_equal(t, d);
    }
    lemma_no_bars(lines, t, t, es, left, k, es.len() as int);
    let mask = line_mask(lines, t, t, es, left, ws_pair, k);
    assert forall|j: int| 0 <= j < mask.len() implies !(#[trigger] mask[j]) by {
        if mask[j] {
            let d = choose|d: int|
                0 <= d < es.len() && marks_at(
                    t.chars,
                    t.chars,
                    #[trigger] es[d],
                    left,
                    ws_pair,
                    line_offset(lines, k) + j,
                );
            assert(es[d].within(0, 0));
            assert(own(es[d], left).has(line_offset(lines, k) + j));
        }
    }
    lemma_cut_plain(lines[k], mask, left, 0);
}

} // verus!
