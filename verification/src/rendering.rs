//! What a rendered line shows of each span.

use vstd::prelude::*;
use vstd::utf8::*;

use crate::laws::lemma_bytes_between;
use crate::spans::Piece;
use crate::widen::{byte_len, rendered};

verus! {

/// How many of the spans have text.
pub open spec fn texts(ps: Seq<Piece>) -> int
    decreases ps.len(),
{
    if ps.len() == 0 {
        0
    } else if ps.last().text.len() > 0 {
        texts(ps.drop_last()) + 1
    } else {
        texts(ps.drop_last())
    }
}

/// How many of the spans are bars that take a cell: they have no text but a
/// mark, and their counterpart has no line of its own.
pub open spec fn cells(ps: Seq<Piece>) -> int
    decreases ps.len(),
{
    if ps.len() == 0 {
        0
    } else if ps.last().text.len() == 0 && ps.last().mark is Some && !ps.last().spans_line {
        cells(ps.drop_last()) + 1
    } else {
        cells(ps.drop_last())
    }
}

proof fn lemma_counts(ps: Seq<Piece>)
    ensures
        texts(ps) >= 0,
        cells(ps) >= 0,
        rendered(ps).ranges.len() == texts(ps) + cells(ps),
    decreases ps.len(),
{
    if ps.len() > 0 {
        lemma_counts(ps.drop_last());
    }
}

/// Where the range of span `k` lies, in characters.
proof fn lemma_span_range(ps: Seq<Piece>, k: int) -> (r: (int, int))
    requires
        0 <= k < ps.len(),
        ps[k].text.len() > 0 || (ps[k].mark is Some && !ps[k].spans_line),
    ensures
        ({
            let line = rendered(ps);
            let i = texts(ps.take(k)) + cells(ps.take(k));
            let (lo, hi) = r;
            &&& 0 <= i < line.ranges.len()
            &&& 0 <= lo <= hi <= line.text.len()
            &&& line.ranges[i].0 == ps[k].mark
            &&& line.ranges[i].1 == byte_len(line.text.take(lo))
            &&& line.ranges[i].2 == byte_len(line.text.take(hi))
            &&& line.text.subrange(lo, hi) == (if ps[k].text.len() > 0 {
                ps[k].text
            } else {
                seq!['\u{2800}']
            })
        }),
    decreases ps.len(),
{
    let head = rendered(ps.drop_last());
    let line = rendered(ps);
    lemma_counts(ps.take(k));
    lemma_counts(ps.drop_last());
    if k < ps.len() - 1 {
        let (lo, hi) = lemma_span_range(ps.drop_last(), k);
        assert(ps.drop_last().take(k) =~= ps.take(k));
        assert(line.text.take(lo) =~= head.text.take(lo));
        assert(line.text.take(hi) =~= head.text.take(hi));
        assert(line.text.subrange(lo, hi) =~= head.text.subrange(lo, hi));
        (lo, hi)
    } else {
        let lo = head.text.len() as int;
        let hi = line.text.len() as int;
        assert(ps.take(k) =~= ps.drop_last());
        assert(line.text.take(lo) =~= head.text);
        assert(line.text.take(hi) =~= line.text);
        assert(line.text.subrange(lo, hi) =~= if ps[k].text.len() > 0 {
            ps[k].text
        } else {
            seq!['\u{2800}']
        });
        (lo, hi)
    }
}

/// A rendered line has one range for each span that has text and one for each
/// bar that takes a cell, and no others.
pub proof fn each_shown_span_has_a_range(ps: Seq<Piece>)
    ensures
        rendered(ps).ranges.len() == texts(ps) + cells(ps),
{
    lemma_counts(ps);
}

/// The range of a span that has text, or that is a bar which takes a cell, is
/// the one behind the ranges of such spans before it. It carries the mark of the
/// span and cuts out the text of the span, or the one character U+2800 of a bar,
/// whichever mark that has.
pub proof fn a_shown_span_is_cut_out(ps: Seq<Piece>, k: int)
    requires
        0 <= k < ps.len(),
        ps[k].text.len() > 0 || (ps[k].mark is Some && !ps[k].spans_line),
    ensures
        ({
            let line = rendered(ps);
            let i = texts(ps.take(k)) + cells(ps.take(k));
            &&& 0 <= i < line.ranges.len()
            &&& line.ranges[i].0 == ps[k].mark
            &&& encode_utf8(line.text).subrange(line.ranges[i].1, line.ranges[i].2)
                == encode_utf8(
                if ps[k].text.len() > 0 {
                    ps[k].text
                } else {
                    seq!['\u{2800}']
                },
            )
        }),
{
    let (lo, hi) = lemma_span_range(ps, k);
    lemma_bytes_between(rendered(ps).text, lo, hi);
}

} // verus!
