//! Where a side shows that it lacks something.

use vstd::prelude::*;

use crate::block::{by_lines, lemma_tidied, refined, tidied, white_pairs};
use crate::char_seq::{lemma_last_start, lemma_last_start_is, lemma_text_of, text_of, Text};
use crate::chars::{element, white};
use crate::laws::{
    bars_are_shown, bars_sorted, lemma_bars_on, lemma_run_stops, lines_of, pieces_of, spoken,
};
use crate::marking::{against_a_line_break, lemma_separator};
use crate::ranges::{greatest, Edit};
use crate::spans::{
    bar_before, bar_line, bar_of, bar_piece, bars_on, cut, has_content, is_bar, lemma_run_end,
    line_mask, line_pieces, other, own, pair_at, run_end, run_piece, with_bar, Bar, Mark, Piece,
};
use crate::survival::lemma_changes_within;

verus! {

/// A change has something else than white space on the other side, whose text is
/// `u`.
pub open spec fn against_content(u: Seq<char>, e: Edit, left: bool) -> bool {
    exists|j: int|
        0 <= j < u.len() && (if left {
            e.b.start <= j < e.b.end
        } else {
            e.a.start <= j < e.a.end
        }) && !white(#[trigger] u[j])
}

/// The change has nothing on this side, and something on the other.
pub open spec fn only_over_there(e: Edit, left: bool) -> bool {
    if left {
        e.a.start == e.a.end && e.b.start < e.b.end
    } else {
        e.b.start == e.b.end && e.a.start < e.a.end
    }
}

/// The offset that decides on which line a change without text is shown. Behind
/// the last character it is that of the last character.
pub open spec fn anchor(e: Edit, left: bool, len: int) -> int {
    let at = if left {
        e.a.start
    } else {
        e.b.start
    };
    if at == len && len > 0 {
        len - 1
    } else {
        at
    }
}

/// An offset falls on line `k`.
pub open spec fn on_line(starts: Seq<int>, k: int, at: int) -> bool {
    &&& 0 <= k < starts.len()
    &&& starts[k] <= at
    &&& k + 1 < starts.len() ==> at < starts[k + 1]
}

proof fn lemma_content(u: Seq<char>, e: Edit, left: bool)
    requires
        e.a.within(u.len() as int) || left,
        e.b.within(u.len() as int) || !left,
    ensures
        has_content(u, other(e, left)) <==> against_content(u, e, left),
{
    let range = other(e, left);
    if has_content(u, range) {
        let k = choose|k: int|
            greatest(range.start, 0) <= k < range.end && !white(#[trigger] element(u, k));
        assert(!white(u[k]));
    }
    if against_content(u, e, left) {
        let j = choose|j: int|
            0 <= j < u.len() && (if left {
                e.b.start <= j < e.b.end
            } else {
                e.a.start <= j < e.a.end
            }) && !white(#[trigger] u[j]);
        assert(!white(element(u, j)));
    }
}

/// The line of a bar is the one that its anchor falls on.
proof fn lemma_bar_line(t: Text, e: Edit, left: bool, k: int)
    requires
        t.wf(),
        own(e, left).within(t.len()),
        0 <= k < t.starts.len(),
    ensures
        bar_line(t, own(e, left)) == k <==> on_line(t.starts, k, anchor(e, left, t.len())),
{
    let at = anchor(e, left, t.len());
    let count = t.starts.len() as int;
    assert(bar_line(t, own(e, left)) == t.line_of(at));
    lemma_last_start(t.starts, at, count);
    if on_line(t.starts, k, at) {
        assert forall|j: int| k < j < count implies at < t.starts[j] by {
            if k + 1 < j {
                assert(t.starts[k + 1] < t.starts[j]);
            }
        }
        lemma_last_start_is(t.starts, at, count, k);
    }
}

/// A change that has nothing on one side is shown there by a span without text,
/// with the mark of the other side. It stands on the line where the change lies,
/// behind as much of it as comes before the change. Its `spans_line` is set if
/// the change goes across a line separator and has content.
pub proof fn a_missing_change_is_shown(
    del: Seq<Seq<char>>,
    add: Seq<Seq<char>>,
    left: bool,
    d: int,
    k: int,
) -> (p: int)
    requires
        !by_lines(del, add),
        0 <= d < refined(text_of(del), text_of(add)).len(),
        only_over_there(refined(text_of(del), text_of(add))[d], left),
        ({
            let t = text_of(lines_of(del, add, left));
            let e = refined(text_of(del), text_of(add))[d];
            on_line(t.starts, k, anchor(e, left, t.len()))
        }),
    ensures
        ({
            let e = refined(text_of(del), text_of(add))[d];
            let lines = lines_of(del, add, left);
            let t = text_of(lines);
            let u = text_of(lines_of(del, add, !left)).chars;
            let spans = pieces_of(del, add, left)[k];
            let before = (if left {
                e.a.start
            } else {
                e.b.start
            }) - t.starts[k];
            &&& 0 <= k < lines.len()
            &&& 0 <= p < spans.len()
            &&& spans[p].text.len() == 0
            &&& spans[p].mark == (if left {
                Some(Mark::Ins)
            } else {
                Some(Mark::Del)
            })
            &&& spans[p].spans_line == (against_a_line_break(u, e, left) && against_content(
                u,
                e,
                left,
            ))
            &&& spoken(spans.take(p)) == lines[k].take(
                if before <= lines[k].len() {
                    before
                } else {
                    lines[k].len() as int
                },
            )
        }),
{
    let es = refined(text_of(del), text_of(add));
    let e = es[d];
    let lines = lines_of(del, add, left);
    let t = text_of(lines);
    let u = text_of(lines_of(del, add, !left));
    lemma_text_of(del);
    lemma_text_of(add);
    lemma_tidied(text_of(del).chars, text_of(add).chars);
    lemma_changes_within(
        text_of(del),
        text_of(add),
        tidied(text_of(del).chars, text_of(add).chars),
        d,
    );
    lemma_bar_line(t, e, left, k);
    lemma_separator(u.chars, e, left);
    lemma_content(u.chars, e, left);
    bars_are_shown(del, add, left, d)
}

/// How many of the spans of a line have no text.
pub open spec fn textless(ps: Seq<Piece>) -> int
    decreases ps.len(),
{
    if ps.len() == 0 {
        0
    } else {
        (if ps[0].text.len() == 0 {
            1int
        } else {
            0
        }) + textless(ps.drop_first())
    }
}

/// How many of the first `n` changes have nothing on one side and lie on line
/// `k` there.
pub open spec fn missing_on(
    es: Seq<Edit>,
    left: bool,
    starts: Seq<int>,
    len: int,
    k: int,
    n: int,
) -> int
    decreases n,
{
    if n <= 0 {
        0
    } else {
        (if only_over_there(es[n - 1], left) && on_line(
            starts,
            k,
            anchor(es[n - 1], left, len),
        ) {
            1int
        } else {
            0
        }) + missing_on(es, left, starts, len, k, n - 1)
    }
}

/// Of two bars at one place, one that does not stand for a line comes first.
spec fn plain_first(bars: Seq<Bar>) -> bool {
    forall|c: int, d: int|
        #![trigger bars[c], bars[d]]
        0 <= c < d < bars.len() ==> bars[c].0 <= bars[d].0 && !(bars[c].0 == bars[d].0 && bars[c].1
            && !bars[d].1)
}

proof fn lemma_with_bar(bars: Seq<Bar>, bar: Bar)
    requires
        plain_first(bars),
    ensures
        plain_first(with_bar(bars, bar)),
        with_bar(bars, bar).len() == bars.len() + 1,
        forall|c: int|
            0 <= c < with_bar(bars, bar).len() ==> #[trigger] with_bar(bars, bar)[c] == bar
                || bars.contains(with_bar(bars, bar)[c]),
    decreases bars.len(),
{
    let all = with_bar(bars, bar);
    if bars.len() > 0 && bar_before(bar, bars.last()) {
        let head = bars.drop_last();
        let put = with_bar(head, bar);
        lemma_with_bar(head, bar);
        assert forall|c: int| 0 <= c < all.len() implies #[trigger] all[c] == bar || bars.contains(
            all[c],
        ) by {
            if c < put.len() {
                assert(all[c] == put[c]);
                if put[c] != bar {
                    let j = choose|j: int| 0 <= j < head.len() && head[j] == put[c];
                    assert(bars[j] == all[c]);
                }
            } else {
                assert(bars[bars.len() - 1] == all[c]);
            }
        }
        assert forall|c: int, d: int|
            #![trigger all[c], all[d]]
            0 <= c < d < all.len() implies all[c].0 <= all[d].0 && !(all[c].0 == all[d].0
            && all[c].1 && !all[d].1) by {
            assert(all[c] == put[c]);
            if d < put.len() {
                assert(all[d] == put[d]);
            } else if put[c] != bar {
                let j = choose|j: int| 0 <= j < head.len() && head[j] == put[c];
                assert(bars[j] == put[c]);
                assert(bars[j].0 <= bars[bars.len() - 1].0);
            }
        }
    } else {
        assert forall|c: int, d: int|
            #![trigger all[c], all[d]]
            0 <= c < d < all.len() implies all[c].0 <= all[d].0 && !(all[c].0 == all[d].0
            && all[c].1 && !all[d].1) by {
            if d == bars.len() {
                let l = bars.len() - 1;
                if c < l {
                    assert(bars[c].0 <= bars[l].0);
                }
            }
        }
        assert forall|c: int| 0 <= c < all.len() implies #[trigger] all[c] == bar || bars.contains(
            all[c],
        ) by {
            if c < bars.len() {
                assert(bars[c] == all[c]);
            }
        }
    }
}

proof fn lemma_bars_counted(
    lines: Seq<Seq<char>>,
    t: Text,
    u: Text,
    es: Seq<Edit>,
    left: bool,
    line: int,
    n: int,
)
    requires
        t.wf(),
        0 <= n <= es.len(),
        0 <= line < t.starts.len(),
        forall|d: int| 0 <= d < es.len() ==> own(#[trigger] es[d], left).within(t.len()),
        forall|d: int| 0 <= d < es.len() ==> other(#[trigger] es[d], left).within(u.len()),
    ensures
        plain_first(bars_on(lines, t, u, es, left, line, n)),
        bars_on(lines, t, u, es, left, line, n).len() == missing_on(
            es,
            left,
            t.starts,
            t.len(),
            line,
            n,
        ),
    decreases n,
{
    if n > 0 {
        let e = es[n - 1];
        assert(own(es[n - 1], left).within(t.len()));
        assert(other(es[n - 1], left).within(u.len()));
        let bars = bars_on(lines, t, u, es, left, line, n - 1);
        lemma_bars_counted(lines, t, u, es, left, line, n - 1);
        lemma_bar_line(t, e, left, line);
        assert(is_bar(e, left) <==> only_over_there(e, left));
        if is_bar(e, left) && bar_line(t, own(e, left)) == line {
            lemma_with_bar(bars, bar_of(t, u, e, left, lines[line].len() as int));
        }
    }
}

proof fn lemma_cut_textless(
    line: Seq<char>,
    mask: Seq<bool>,
    bars: Seq<Bar>,
    left: bool,
    i: int,
    b: int,
)
    requires
        mask.len() == line.len(),
        0 <= i <= mask.len(),
        0 <= b <= bars.len(),
        bars_sorted(bars, line.len() as int),
        plain_first(bars),
        b < bars.len() ==> i <= bars[b].0,
    ensures
        textless(cut(line, mask, bars, left, i, b)) == bars.len() - b,
        forall|p: int, q: int|
            #![trigger cut(line, mask, bars, left, i, b)[p], cut(line, mask, bars, left, i, b)[q]]
            0 <= p && q == p + 1 && q < cut(line, mask, bars, left, i, b).len() ==> !(cut(
                line,
                mask,
                bars,
                left,
                i,
                b,
            )[p].text.len() == 0 && cut(line, mask, bars, left, i, b)[q].text.len() == 0 && cut(
                line,
                mask,
                bars,
                left,
                i,
                b,
            )[p].spans_line && !cut(line, mask, bars, left, i, b)[q].spans_line),
        ({
            let all = cut(line, mask, bars, left, i, b);
            all.len() > 0 && all[0].text.len() == 0 ==> b < bars.len() && bars[b].0 == i && all[0]
                == bar_piece(left, bars[b])
        }),
    decreases mask.len() - i, bars.len() - b,
{
    let all = cut(line, mask, bars, left, i, b);
    if b < bars.len() && bars[b].0 == i {
        let rest = cut(line, mask, bars, left, i, b + 1);
        if b + 1 < bars.len() {
            assert(bars[b].0 <= bars[b + 1].0);
        }
        lemma_cut_textless(line, mask, bars, left, i, b + 1);
        assert(all.drop_first() =~= rest);
        assert forall|p: int, q: int|
            #![trigger all[p], all[q]]
            0 <= p && q == p + 1 && q < all.len() implies !(all[p].text.len() == 0
            && all[q].text.len() == 0 && all[p].spans_line && !all[q].spans_line) by {
            assert(all[q] == rest[q - 1]);
            if p > 0 {
                assert(all[p] == rest[p - 1]);
            } else if b + 1 < bars.len() {
                assert(!(bars[b].0 == bars[b + 1].0 && bars[b].1 && !bars[b + 1].1));
            }
        }
    } else if i >= mask.len() {
        if b < bars.len() {
            assert(0 <= bars[b].0 <= line.len());
        }
    } else {
        let stop = if b < bars.len() {
            bars[b].0
        } else {
            -1
        };
        let j = run_end(mask, stop, i, i + 1);
        lemma_run_end(mask, stop, i, i + 1);
        if b < bars.len() {
            assert(0 <= bars[b].0 <= line.len());
            lemma_run_stops(mask, stop, i, i + 1);
        }
        let rest = cut(line, mask, bars, left, j, b);
        lemma_cut_textless(line, mask, bars, left, j, b);
        assert(all.drop_first() =~= rest);
        assert(all[0] == run_piece(line, left, mask[i], i, j));
        assert(all[0].text.len() == j - i);
        assert forall|p: int, q: int|
            #![trigger all[p], all[q]]
            0 <= p && q == p + 1 && q < all.len() implies !(all[p].text.len() == 0
            && all[q].text.len() == 0 && all[p].spans_line && !all[q].spans_line) by {
            assert(all[q] == rest[q - 1]);
            if p > 0 {
                assert(all[p] == rest[p - 1]);
            }
        }
    }
}

/// A line has exactly one span without text for each change that has nothing on
/// its side, has something on the other, and lies on this line. Where two of
/// them stand side by side, one that stands for a line of the other side does
/// not come before one that does not.
pub proof fn only_missing_changes_have_bars(
    del: Seq<Seq<char>>,
    add: Seq<Seq<char>>,
    left: bool,
    k: int,
)
    requires
        !by_lines(del, add),
        0 <= k < lines_of(del, add, left).len(),
    ensures
        ({
            let es = refined(text_of(del), text_of(add));
            let t = text_of(lines_of(del, add, left));
            let spans = pieces_of(del, add, left)[k];
            &&& textless(spans) == missing_on(es, left, t.starts, t.len(), k, es.len() as int)
            &&& forall|p: int, q: int|
                #![trigger spans[p], spans[q]]
                0 <= p && q == p + 1 && q < spans.len() ==> !(spans[p].text.len() == 0
                    && spans[q].text.len() == 0 && spans[p].spans_line && !spans[q].spans_line)
        }),
{
    let es = refined(text_of(del), text_of(add));
    let lines = lines_of(del, add, left);
    let others = lines_of(del, add, !left);
    let t = text_of(lines);
    let u = text_of(others);
    let first = text_of(del);
    let second = text_of(add);
    lemma_text_of(del);
    lemma_text_of(add);
    lemma_tidied(first.chars, second.chars);
    assert forall|d: int| 0 <= d < es.len() implies own(#[trigger] es[d], left).within(t.len())
        && other(es[d], left).within(u.len()) by {
        lemma_changes_within(
            first,
            second,
            tidied(first.chars, second.chars),
            d,
        );
    }
    lemma_bars_counted(lines, t, u, es, left, k, es.len() as int);
    lemma_bars_on(lines, t, u, es, left, k, es.len() as int, 0);
    let bars = bars_on(lines, t, u, es, left, k, es.len() as int);
    let ws_pair = pair_at(white_pairs(lines, others), k);
    let mask = line_mask(lines, t, u, es, left, ws_pair, k);
    if bars.len() > 0 {
        assert(0 <= bars[0].0);
    }
    lemma_cut_textless(lines[k], mask, bars, left, 0, 0);
    assert(pieces_of(del, add, left)[k] == line_pieces(lines, u, es, left, ws_pair, k));
}

} // verus!
