//! What holds of the marks of every block, and of every rendered line.

use vstd::prelude::*;
use vstd::utf8::*;

use crate::block::{
    add_pieces, by_lines, del_pieces, lemma_tidied, refined, tidied, white_pairs, whole_lines,
};
use crate::char_seq::{
    body, lemma_encode_boundary, lemma_encode_concat, lemma_last_start, lemma_text_line,
    lemma_text_of, line_offset, text_of, Text,
};
use crate::chars::white;
use crate::ranges::{clamp, greatest, least, Edit};
use crate::spans::{
    bar_before, bar_line, bar_of, bar_piece, bars_on, cut, has_content, has_separator, is_bar,
    lemma_line_of, lemma_run_end, line_mask, line_pieces, marked, marks_at, other, own, own_mark,
    pair_at, run_end, run_piece, side_pieces, whole, with_bar, Bar, Mark, Piece,
};
use crate::survival::{covered, kept, lemma_kept_same, lemma_kept_split};
use crate::widen::{byte_len, rendered, rendering};

verus! {

/// The text of a line's spans, one after the other.
pub open spec fn spoken(ps: Seq<Piece>) -> Seq<char>
    decreases ps.len(),
{
    if ps.len() == 0 {
        Seq::empty()
    } else {
        ps[0].text + spoken(ps.drop_first())
    }
}

/// The text of a line's spans that carry no mark.
pub open spec fn unmarked(ps: Seq<Piece>) -> Seq<char>
    decreases ps.len(),
{
    if ps.len() == 0 {
        Seq::empty()
    } else if ps[0].mark is None {
        ps[0].text + unmarked(ps.drop_first())
    } else {
        unmarked(ps.drop_first())
    }
}

/// The unmarked text of several lines.
pub open spec fn plain_text(side: Seq<Seq<Piece>>) -> Seq<char>
    decreases side.len(),
{
    if side.len() == 0 {
        Seq::empty()
    } else {
        plain_text(side.drop_last()) + unmarked(side.last())
    }
}

/// A text without its white space.
pub open spec fn visible(s: Seq<char>) -> Seq<char>
    decreases s.len(),
{
    if s.len() == 0 {
        Seq::empty()
    } else if white(s.last()) {
        visible(s.drop_last())
    } else {
        visible(s.drop_last()).push(s.last())
    }
}

/// The spans of one side: those of the deleted or of the added lines.
pub open spec fn pieces_of(del: Seq<Seq<char>>, add: Seq<Seq<char>>, left: bool) -> Seq<
    Seq<Piece>,
> {
    if left {
        del_pieces(del, add)
    } else {
        add_pieces(del, add)
    }
}

/// The lines of one side.
pub open spec fn lines_of(del: Seq<Seq<char>>, add: Seq<Seq<char>>, left: bool) -> Seq<Seq<char>> {
    if left {
        del
    } else {
        add
    }
}

proof fn lemma_cut_text(
    line: Seq<char>,
    mask: Seq<bool>,
    bars: Seq<Bar>,
    left: bool,
    i: int,
    b: int,
)
    requires
        mask.len() == line.len(),
        0 <= i <= mask.len(),
        0 <= b <= bars.len(),
    ensures
        spoken(cut(line, mask, bars, left, i, b)) == line.subrange(i, line.len() as int),
    decreases mask.len() - i, bars.len() - b,
{
    let all = cut(line, mask, bars, left, i, b);
    if b < bars.len() && bars[b].0 == i {
        let rest = cut(line, mask, bars, left, i, b + 1);
        lemma_cut_text(line, mask, bars, left, i, b + 1);
        assert(all.drop_first() =~= rest);
        assert(spoken(all) =~= spoken(rest));
    } else if i < mask.len() {
        let stop = if b < bars.len() {
            bars[b].0
        } else {
            -1
        };
        let j = run_end(mask, stop, i, i + 1);
        lemma_run_end(mask, stop, i, i + 1);
        let rest = cut(line, mask, bars, left, j, b);
        lemma_cut_text(line, mask, bars, left, j, b);
        assert(all.drop_first() =~= rest);
        assert(spoken(all) =~= line.subrange(i, line.len() as int));
    } else {
        assert(line.subrange(i, line.len() as int) =~= Seq::<char>::empty());
    }
}

/// Each line has its spans, and their texts spell the line.
pub proof fn spans_spell_the_line(
    del: Seq<Seq<char>>,
    add: Seq<Seq<char>>,
    left: bool,
    k: int,
)
    requires
        0 <= k < lines_of(del, add, left).len(),
    ensures
        pieces_of(del, add, left).len() == lines_of(del, add, left).len(),
        spoken(pieces_of(del, add, left)[k]) == lines_of(del, add, left)[k],
{
    let line = lines_of(del, add, left)[k];
    if by_lines(del, add) {
        let ps = whole(line, own_mark(left));
        assert(pieces_of(del, add, left)[k] == ps);
        if line.len() > 0 {
            assert(ps.drop_first() =~= Seq::<Piece>::empty());
            assert(spoken(ps) =~= line) by {
                reveal_with_fuel(spoken, 2);
            }
        }
    } else {
        let t = text_of(del);
        let u = text_of(add);
        let es = refined(t, u);
        let others = lines_of(del, add, !left);
        let own_lines = lines_of(del, add, left);
        let ws_pair = pair_at(white_pairs(own_lines, others), k);
        assert(pieces_of(del, add, left)[k] == line_pieces(
            own_lines,
            text_of(others),
            es,
            left,
            ws_pair,
            k,
        ));
        let tt = text_of(own_lines);
        let uu = text_of(others);
        lemma_cut_text(
            line,
            line_mask(own_lines, tt, uu, es, left, ws_pair, k),
            bars_on(own_lines, tt, uu, es, left, k, es.len() as int),
            left,
            0,
            0,
        );
        assert(line.subrange(0, line.len() as int) =~= line);
    }
}

/// Spans of one side carry the marks that they may: text the mark of its side
/// or none, and a bar that of the other side.
pub open spec fn well_marked(p: Piece, left: bool) -> bool {
    if p.text.len() > 0 {
        (p.mark is None || p.mark == Some(own_mark(left))) && !p.spans_line
    } else {
        p.mark == Some(own_mark(!left))
    }
}

proof fn lemma_cut_marks(
    line: Seq<char>,
    mask: Seq<bool>,
    bars: Seq<Bar>,
    left: bool,
    i: int,
    b: int,
)
    requires
        mask.len() == line.len(),
        0 <= i <= mask.len(),
        0 <= b <= bars.len(),
    ensures
        forall|p: int|
            0 <= p < cut(line, mask, bars, left, i, b).len() ==> well_marked(
                #[trigger] cut(line, mask, bars, left, i, b)[p],
                left,
            ),
    decreases mask.len() - i, bars.len() - b,
{
    let all = cut(line, mask, bars, left, i, b);
    if b < bars.len() && bars[b].0 == i {
        let rest = cut(line, mask, bars, left, i, b + 1);
        lemma_cut_marks(line, mask, bars, left, i, b + 1);
        assert forall|p: int| 0 <= p < all.len() implies well_marked(#[trigger] all[p], left) by {
            if p > 0 {
                assert(all[p] == rest[p - 1]);
            }
        }
    } else if i < mask.len() {
        let stop = if b < bars.len() {
            bars[b].0
        } else {
            -1
        };
        let j = run_end(mask, stop, i, i + 1);
        lemma_run_end(mask, stop, i, i + 1);
        let rest = cut(line, mask, bars, left, j, b);
        lemma_cut_marks(line, mask, bars, left, j, b);
        assert forall|p: int| 0 <= p < all.len() implies well_marked(#[trigger] all[p], left) by {
            if p > 0 {
                assert(all[p] == rest[p - 1]);
            }
        }
    }
}

/// Text is marked as a change of its own side only, and a bar always as one of
/// the other side.
pub proof fn marks_tell_the_side(
    del: Seq<Seq<char>>,
    add: Seq<Seq<char>>,
    left: bool,
    k: int,
    p: int,
)
    requires
        0 <= k < lines_of(del, add, left).len(),
        0 <= p < pieces_of(del, add, left)[k].len(),
    ensures
        well_marked(pieces_of(del, add, left)[k][p], left),
{
    if !by_lines(del, add) {
        let es = refined(text_of(del), text_of(add));
        let others = lines_of(del, add, !left);
        let own_lines = lines_of(del, add, left);
        let ws_pair = pair_at(white_pairs(own_lines, others), k);
        let t = text_of(own_lines);
        let u = text_of(others);
        lemma_cut_marks(
            own_lines[k],
            line_mask(own_lines, t, u, es, left, ws_pair, k),
            bars_on(own_lines, t, u, es, left, k, es.len() as int),
            left,
            0,
            0,
        );
        assert(pieces_of(del, add, left)[k] == line_pieces(own_lines, u, es, left, ws_pair, k));
    } else {
        assert(pieces_of(del, add, left)[k] == whole(
            lines_of(del, add, left)[k],
            own_mark(left),
        ));
    }
}

proof fn lemma_cut_runs(
    line: Seq<char>,
    mask: Seq<bool>,
    bars: Seq<Bar>,
    left: bool,
    i: int,
    b: int,
    p: int,
)
    requires
        mask.len() == line.len(),
        0 <= i <= mask.len(),
        0 <= b <= bars.len(),
        0 <= p,
        p + 1 < cut(line, mask, bars, left, i, b).len(),
        cut(line, mask, bars, left, i, b)[p].text.len() > 0,
        cut(line, mask, bars, left, i, b)[p + 1].text.len() > 0,
    ensures
        cut(line, mask, bars, left, i, b)[p].mark != cut(line, mask, bars, left, i, b)[p + 1].mark,
    decreases mask.len() - i, bars.len() - b,
{
    let all = cut(line, mask, bars, left, i, b);
    if b < bars.len() && bars[b].0 == i {
        let rest = cut(line, mask, bars, left, i, b + 1);
        assert(all[p] == rest[p - 1]);
        assert(all[p + 1] == rest[p]);
        lemma_cut_runs(line, mask, bars, left, i, b + 1, p - 1);
    } else {
        let stop = if b < bars.len() {
            bars[b].0
        } else {
            -1
        };
        let j = run_end(mask, stop, i, i + 1);
        lemma_run_end(mask, stop, i, i + 1);
        let rest = cut(line, mask, bars, left, j, b);
        assert(all[p + 1] == rest[p]);
        if p > 0 {
            assert(all[p] == rest[p - 1]);
            lemma_cut_runs(line, mask, bars, left, j, b, p - 1);
        }
    }
}

/// Text spans are as long as can be: of two that stand side by side one is
/// marked and the other is not.
pub proof fn neighbouring_text_spans_differ(
    del: Seq<Seq<char>>,
    add: Seq<Seq<char>>,
    left: bool,
    k: int,
    p: int,
)
    requires
        0 <= k < lines_of(del, add, left).len(),
        0 <= p,
        p + 1 < pieces_of(del, add, left)[k].len(),
        pieces_of(del, add, left)[k][p].text.len() > 0,
        pieces_of(del, add, left)[k][p + 1].text.len() > 0,
    ensures
        pieces_of(del, add, left)[k][p].mark is None <==> pieces_of(del, add, left)[k][p
            + 1].mark is Some,
{
    marks_tell_the_side(del, add, left, k, p);
    marks_tell_the_side(del, add, left, k, p + 1);
    if !by_lines(del, add) {
        let es = refined(text_of(del), text_of(add));
        let others = lines_of(del, add, !left);
        let own_lines = lines_of(del, add, left);
        let ws_pair = pair_at(white_pairs(own_lines, others), k);
        let t = text_of(own_lines);
        let u = text_of(others);
        lemma_cut_runs(
            own_lines[k],
            line_mask(own_lines, t, u, es, left, ws_pair, k),
            bars_on(own_lines, t, u, es, left, k, es.len() as int),
            left,
            0,
            0,
            p,
        );
        assert(pieces_of(del, add, left)[k] == line_pieces(own_lines, u, es, left, ws_pair, k));
    } else {
        assert(pieces_of(del, add, left)[k] == whole(
            lines_of(del, add, left)[k],
            own_mark(left),
        ));
    }
}

/// The span that holds the character at `at`, and whether it is marked.
pub proof fn lemma_cut_at(
    line: Seq<char>,
    mask: Seq<bool>,
    bars: Seq<Bar>,
    left: bool,
    i: int,
    b: int,
    at: int,
) -> (p: int)
    requires
        mask.len() == line.len(),
        0 <= i <= at < mask.len(),
        0 <= b <= bars.len(),
    ensures
        ({
            let spans = cut(line, mask, bars, left, i, b);
            let before = spoken(spans.take(p)).len();
            &&& 0 <= p < spans.len()
            &&& before <= at - i < before + spans[p].text.len()
            &&& spans[p].mark == (if mask[at] {
                Some(own_mark(left))
            } else {
                None
            })
        }),
    decreases mask.len() - i, bars.len() - b,
{
    let all = cut(line, mask, bars, left, i, b);
    if b < bars.len() && bars[b].0 == i {
        let rest = cut(line, mask, bars, left, i, b + 1);
        let p = lemma_cut_at(line, mask, bars, left, i, b + 1, at);
        assert(all[p + 1] == rest[p]);
        assert(all.take(p + 1).drop_first() =~= rest.take(p));
        assert(all.take(p + 1)[0] == bar_piece(left, bars[b]));
        p + 1
    } else {
        let stop = if b < bars.len() {
            bars[b].0
        } else {
            -1
        };
        let j = run_end(mask, stop, i, i + 1);
        lemma_run_end(mask, stop, i, i + 1);
        assert(all[0] == run_piece(line, left, mask[i], i, j));
        if at < j {
            assert(all.take(0) =~= Seq::<Piece>::empty());
            assert(at > i ==> mask[at] == mask[i]);
            0
        } else {
            let rest = cut(line, mask, bars, left, j, b);
            let p = lemma_cut_at(line, mask, bars, left, j, b, at);
            assert(all[p + 1] == rest[p]);
            assert(all.take(p + 1).drop_first() =~= rest.take(p));
            assert(all.take(p + 1)[0] == all[0]);
            p + 1
        }
    }
}

/// Changed text is shown: a character that is no white space stands in a span
/// with the mark of its side if a change covers it, and in one without a mark
/// if none does.
pub proof fn changed_text_is_marked(
    del: Seq<Seq<char>>,
    add: Seq<Seq<char>>,
    left: bool,
    k: int,
    at: int,
) -> (p: int)
    requires
        !by_lines(del, add),
        0 <= k < lines_of(del, add, left).len(),
        0 <= at < lines_of(del, add, left)[k].len(),
        !white(lines_of(del, add, left)[k][at]),
    ensures
        ({
            let lines = lines_of(del, add, left);
            let es = refined(text_of(del), text_of(add));
            let spans = pieces_of(del, add, left)[k];
            let before = spoken(spans.take(p)).len();
            &&& 0 <= p < spans.len()
            &&& before <= at < before + spans[p].text.len()
            &&& spans[p].mark == (if covered(es, left, line_offset(lines, k) + at) {
                Some(own_mark(left))
            } else {
                None
            })
        }),
{
    let lines = lines_of(del, add, left);
    let others = lines_of(del, add, !left);
    let es = refined(text_of(del), text_of(add));
    let ws_pair = pair_at(white_pairs(lines, others), k);
    let t = text_of(lines);
    let u = text_of(others);
    let mask = line_mask(lines, t, u, es, left, ws_pair, k);
    assert(at < body(lines[k]).len());
    lemma_line_of(lines, k, at);
    lemma_marked_covered(t.chars, u.chars, es, left, ws_pair, line_offset(lines, k) + at);
    assert(pieces_of(del, add, left)[k] == line_pieces(lines, u, es, left, ws_pair, k));
    lemma_cut_at(
        lines[k],
        mask,
        bars_on(lines, t, u, es, left, k, es.len() as int),
        left,
        0,
        0,
        at,
    )
}

proof fn lemma_visible_concat(x: Seq<char>, y: Seq<char>)
    ensures
        visible(x + y) == visible(x) + visible(y),
    decreases y.len(),
{
    if y.len() == 0 {
        assert(x + y =~= x);
        assert(visible(x) + visible(y) =~= visible(x));
    } else {
        lemma_visible_concat(x, y.drop_last());
        assert((x + y).drop_last() =~= x + y.drop_last());
        assert((x + y).last() == y.last());
        assert(visible(x + y) =~= visible(x) + visible(y));
    }
}

proof fn lemma_visible_push(s: Seq<char>, c: char)
    ensures
        visible(s.push(c)) == (if white(c) {
            visible(s)
        } else {
            visible(s).push(c)
        }),
{
    assert(s.push(c).drop_last() =~= s);
}

/// The characters from `lo` to `hi` that a mask leaves out.
spec fn left_out(line: Seq<char>, mask: Seq<bool>, lo: int, hi: int) -> Seq<char>
    decreases hi - lo,
{
    if hi <= lo {
        Seq::empty()
    } else if mask[hi - 1] {
        left_out(line, mask, lo, hi - 1)
    } else {
        left_out(line, mask, lo, hi - 1).push(line[hi - 1])
    }
}

proof fn lemma_left_out_split(line: Seq<char>, mask: Seq<bool>, lo: int, mid: int, hi: int)
    requires
        lo <= mid <= hi,
    ensures
        left_out(line, mask, lo, hi) == left_out(line, mask, lo, mid) + left_out(
            line,
            mask,
            mid,
            hi,
        ),
    decreases hi - mid,
{
    if mid < hi {
        lemma_left_out_split(line, mask, lo, mid, hi - 1);
    }
    assert(left_out(line, mask, lo, hi) =~= left_out(line, mask, lo, mid) + left_out(
        line,
        mask,
        mid,
        hi,
    ));
}

proof fn lemma_left_out_run(line: Seq<char>, mask: Seq<bool>, lo: int, hi: int)
    requires
        0 <= lo <= hi <= line.len(),
        line.len() == mask.len(),
        forall|k: int| lo <= k < hi ==> #[trigger] mask[k] == mask[lo],
    ensures
        left_out(line, mask, lo, hi) == (if lo < hi && mask[lo] {
            Seq::empty()
        } else {
            line.subrange(lo, hi)
        }),
    decreases hi - lo,
{
    if lo < hi {
        lemma_left_out_run(line, mask, lo, hi - 1);
        assert(mask[hi - 1] == mask[lo]);
        if !mask[lo] {
            assert(line.subrange(lo, hi) =~= line.subrange(lo, hi - 1).push(line[hi - 1]));
        }
    } else {
        assert(line.subrange(lo, hi) =~= Seq::<char>::empty());
    }
}

proof fn lemma_cut_unmarked(
    line: Seq<char>,
    mask: Seq<bool>,
    bars: Seq<Bar>,
    left: bool,
    i: int,
    b: int,
)
    requires
        mask.len() == line.len(),
        0 <= i <= mask.len(),
        0 <= b <= bars.len(),
    ensures
        unmarked(cut(line, mask, bars, left, i, b)) == left_out(
            line,
            mask,
            i,
            line.len() as int,
        ),
    decreases mask.len() - i, bars.len() - b,
{
    let n = line.len() as int;
    let all = cut(line, mask, bars, left, i, b);
    if b < bars.len() && bars[b].0 == i {
        let rest = cut(line, mask, bars, left, i, b + 1);
        lemma_cut_unmarked(line, mask, bars, left, i, b + 1);
        assert(all.drop_first() =~= rest);
    } else if i < mask.len() {
        let stop = if b < bars.len() {
            bars[b].0
        } else {
            -1
        };
        let j = run_end(mask, stop, i, i + 1);
        lemma_run_end(mask, stop, i, i + 1);
        let rest = cut(line, mask, bars, left, j, b);
        lemma_cut_unmarked(line, mask, bars, left, j, b);
        assert(all.drop_first() =~= rest);
        lemma_left_out_run(line, mask, i, j);
        lemma_left_out_split(line, mask, i, j, n);
        assert(all[0] == run_piece(line, left, mask[i], i, j));
        assert(unmarked(all) =~= left_out(line, mask, i, n));
    }
}

/// A change marks what it covers, white space aside.
proof fn lemma_marked_covered(
    s: Seq<char>,
    others: Seq<char>,
    es: Seq<Edit>,
    left: bool,
    ws_pair: bool,
    at: int,
)
    requires
        !white(s[at]),
    ensures
        marked(s, others, es, left, ws_pair, at) <==> covered(es, left, at),
{
    if marked(s, others, es, left, ws_pair, at) {
        let d = choose|d: int|
            0 <= d < es.len() && marks_at(s, others, #[trigger] es[d], left, ws_pair, at);
        assert(own(es[d], left).has(at));
    }
    if covered(es, left, at) {
        let d = choose|d: int| 0 <= d < es.len() && own(#[trigger] es[d], left).has(at);
        assert(marks_at(s, others, es[d], left, ws_pair, at));
    }
}

/// What is left unmarked of the first `i` characters of a line shows what the
/// changes leave out of them.
proof fn lemma_line_visible(
    lines: Seq<Seq<char>>,
    u: Text,
    es: Seq<Edit>,
    left: bool,
    ws_pair: bool,
    k: int,
    i: int,
)
    requires
        0 <= k < lines.len(),
        0 <= i <= body(lines[k]).len(),
    ensures
        ({
            let t = text_of(lines);
            let start = line_offset(lines, k);
            let mask = line_mask(lines, t, u, es, left, ws_pair, k);
            visible(left_out(lines[k], mask, 0, i)) == visible(
                kept(t.chars, es, left, start, start + i),
            )
        }),
    decreases i,
{
    let t = text_of(lines);
    let start = line_offset(lines, k);
    let mask = line_mask(lines, t, u, es, left, ws_pair, k);
    if i > 0 {
        let at = start + i - 1;
        let c = lines[k][i - 1];
        lemma_line_visible(lines, u, es, left, ws_pair, k, i - 1);
        lemma_line_of(lines, k, i - 1);
        assert(t.chars[at] == c);
        lemma_visible_push(left_out(lines[k], mask, 0, i - 1), c);
        lemma_visible_push(kept(t.chars, es, left, start, at), c);
        if !white(c) {
            lemma_marked_covered(t.chars, u.chars, es, left, ws_pair, at);
        }
    }
}

/// The unmarked text of a line shows what the changes leave out of it.
proof fn lemma_line_unmarked(
    lines: Seq<Seq<char>>,
    u: Text,
    es: Seq<Edit>,
    left: bool,
    ws_pair: bool,
    k: int,
)
    requires
        0 <= k < lines.len(),
    ensures
        visible(unmarked(line_pieces(lines, u, es, left, ws_pair, k))) == visible(
            kept(
                text_of(lines).chars,
                es,
                left,
                line_offset(lines, k),
                line_offset(lines, k) + body(lines[k]).len(),
            ),
        ),
{
    let t = text_of(lines);
    let line = lines[k];
    let count = body(line).len() as int;
    let mask = line_mask(lines, t, u, es, left, ws_pair, k);
    lemma_cut_unmarked(
        line,
        mask,
        bars_on(lines, t, u, es, left, k, es.len() as int),
        left,
        0,
        0,
    );
    lemma_line_visible(lines, u, es, left, ws_pair, k, count);
    if count < line.len() {
        assert(left_out(line, mask, 0, line.len() as int) == left_out(line, mask, 0, count).push(
            '\n',
        ));
        lemma_visible_push(left_out(line, mask, 0, count), '\n');
    }
}

/// Where the first `k` lines end in the text, their separators included.
spec fn lines_end(lines: Seq<Seq<char>>, k: int) -> int {
    if k < lines.len() {
        line_offset(lines, k)
    } else {
        text_of(lines).len()
    }
}

/// The unmarked text of the first `k` lines shows what the changes leave out of
/// them.
proof fn lemma_side_unmarked(
    lines: Seq<Seq<char>>,
    u: Text,
    es: Seq<Edit>,
    left: bool,
    ws: Seq<bool>,
    k: int,
)
    requires
        0 < lines.len(),
        0 <= k <= lines.len(),
    ensures
        visible(plain_text(side_pieces(lines, u, es, left, ws).take(k))) == visible(
            kept(text_of(lines).chars, es, left, 0, lines_end(lines, k)),
        ),
    decreases k,
{
    let t = text_of(lines);
    let side = side_pieces(lines, u, es, left, ws);
    if k > 0 {
        let line = k - 1;
        lemma_text_line(lines, line);
        let start = line_offset(lines, line);
        let end = start + body(lines[line]).len();
        lemma_side_unmarked(lines, u, es, left, ws, line);
        lemma_line_unmarked(lines, u, es, left, pair_at(ws, line), line);
        assert(side.take(k).drop_last() =~= side.take(line));
        lemma_visible_concat(plain_text(side.take(line)), unmarked(side[line]));
        lemma_kept_split(t.chars, es, left, 0, start, end);
        lemma_visible_concat(
            kept(t.chars, es, left, 0, start),
            kept(t.chars, es, left, start, end),
        );
        if k < lines.len() {
            assert(lines_end(lines, k) == end + 1);
            assert(t.chars[end] == '\n');
            lemma_visible_push(kept(t.chars, es, left, 0, end), '\n');
        }
    } else {
        assert(side.take(0) =~= Seq::<Seq<Piece>>::empty());
        assert(line_offset(lines, 0) == 0);
    }
}

/// Lines that are marked as a whole have no unmarked text.
proof fn lemma_whole_unmarked(lines: Seq<Seq<char>>, mark: Mark, k: int)
    requires
        0 <= k <= lines.len(),
    ensures
        plain_text(whole_lines(lines, mark).take(k)) == Seq::<char>::empty(),
    decreases k,
{
    let side = whole_lines(lines, mark);
    if k > 0 {
        lemma_whole_unmarked(lines, mark, k - 1);
        assert(side.take(k).drop_last() =~= side.take(k - 1));
        let ps = whole(lines[k - 1], mark);
        if ps.len() > 0 {
            assert(ps.drop_first() =~= Seq::<Piece>::empty());
        }
        assert(unmarked(ps) =~= Seq::<char>::empty()) by {
            reveal_with_fuel(unmarked, 2);
        }
        assert(plain_text(side.take(k)) =~= Seq::<char>::empty());
    }
}

/// What carries no mark survives: without white space, the unmarked text of the
/// deleted lines is that of the added lines.
pub proof fn unmarked_text_survives(del: Seq<Seq<char>>, add: Seq<Seq<char>>)
    ensures
        visible(plain_text(del_pieces(del, add))) == visible(plain_text(add_pieces(del, add))),
{
    let n = del.len() as int;
    let m = add.len() as int;
    if by_lines(del, add) {
        lemma_whole_unmarked(del, Mark::Del, n);
        lemma_whole_unmarked(add, Mark::Ins, m);
        assert(whole_lines(del, Mark::Del).take(n) =~= whole_lines(del, Mark::Del));
        assert(whole_lines(add, Mark::Ins).take(m) =~= whole_lines(add, Mark::Ins));
    } else {
        let t = text_of(del);
        let u = text_of(add);
        let es = refined(t, u);
        lemma_text_of(del);
        lemma_text_of(add);
        lemma_tidied(t.chars, u.chars);
        lemma_kept_same(t, u, tidied(t.chars, u.chars));
        lemma_side_unmarked(del, u, es, true, white_pairs(del, add), n);
        lemma_side_unmarked(add, t, es, false, white_pairs(add, del), m);
        assert(del_pieces(del, add).take(n) =~= del_pieces(del, add));
        assert(add_pieces(del, add).take(m) =~= add_pieces(del, add));
    }
}

/// What no change of a block covers is the same on both sides, white space
/// included.
pub proof fn uncovered_text_is_common(del: Seq<Seq<char>>, add: Seq<Seq<char>>)
    requires
        !by_lines(del, add),
    ensures
        ({
            let t = text_of(del);
            let u = text_of(add);
            let es = refined(t, u);
            kept(t.chars, es, true, 0, t.len()) == kept(u.chars, es, false, 0, u.len())
        }),
{
    let t = text_of(del);
    let u = text_of(add);
    lemma_text_of(del);
    lemma_tidied(t.chars, u.chars);
    lemma_kept_same(t, u, tidied(t.chars, u.chars));
}

/// The bars are sorted, and lie within a line of `count` characters.
pub open spec fn bars_sorted(bars: Seq<Bar>, count: int) -> bool {
    &&& forall|c: int| 0 <= c < bars.len() ==> 0 <= (#[trigger] bars[c]).0 <= count
    &&& forall|c: int, d: int|
        #![trigger bars[c], bars[d]]
        0 <= c < d < bars.len() ==> bars[c].0 <= bars[d].0
}

/// Putting a bar into a sorted list keeps it sorted, and keeps every bar.
pub proof fn lemma_with_bar_sorted(bars: Seq<Bar>, bar: Bar, count: int)
    requires
        bars_sorted(bars, count),
        0 <= bar.0 <= count,
    ensures
        bars_sorted(with_bar(bars, bar), count),
        with_bar(bars, bar).contains(bar),
        forall|c: int| 0 <= c < bars.len() ==> with_bar(bars, bar).contains(#[trigger] bars[c]),
        forall|c: int|
            0 <= c < with_bar(bars, bar).len() ==> (#[trigger] with_bar(bars, bar)[c] == bar
                || bars.contains(with_bar(bars, bar)[c])),
    decreases bars.len(),
{
    let all = with_bar(bars, bar);
    if bars.len() > 0 && bar_before(bar, bars.last()) {
        let front = bars.drop_last();
        let last = bars.last();
        let rest = with_bar(front, bar);
        lemma_with_bar_sorted(front, bar, count);
        assert forall|c: int| 0 <= c < all.len() implies (#[trigger] all[c] == bar
            || bars.contains(all[c])) by {
            if c < rest.len() {
                assert(rest[c] == bar || front.contains(rest[c]));
                if rest[c] != bar {
                    let d = choose|d: int| 0 <= d < front.len() && front[d] == rest[c];
                    assert(bars[d] == all[c]);
                }
            } else {
                assert(bars[bars.len() - 1] == all[c]);
            }
        }
        assert forall|c: int| 0 <= c < rest.len() implies (#[trigger] rest[c]).0 <= last.0 by {
            assert(rest[c] == bar || front.contains(rest[c]));
            if rest[c] != bar {
                let d = choose|d: int| 0 <= d < front.len() && front[d] == rest[c];
                assert(bars[d].0 <= bars[bars.len() - 1].0);
            }
        }
        assert(bars_sorted(all, count)) by {
            assert forall|c: int, d: int|
                #![trigger all[c], all[d]]
                0 <= c < d < all.len() implies all[c].0 <= all[d].0 by {
                assert(all[c] == rest[c]);
                if d < rest.len() {
                    assert(all[d] == rest[d]);
                }
            }
            assert forall|c: int| 0 <= c < all.len() implies 0 <= (#[trigger] all[c]).0
                <= count by {
                if c < rest.len() {
                    assert(all[c] == rest[c]);
                } else {
                    assert(all[c] == bars[bars.len() - 1]);
                }
            }
        }
        let at = choose|at: int| 0 <= at < rest.len() && rest[at] == bar;
        assert(all[at] == bar);
        assert forall|c: int| 0 <= c < bars.len() implies all.contains(#[trigger] bars[c]) by {
            if c < front.len() {
                assert(front[c] == bars[c]);
                assert(rest.contains(front[c]));
                let d = choose|d: int| 0 <= d < rest.len() && rest[d] == front[c];
                assert(all[d] == bars[c]);
            } else {
                assert(all[all.len() - 1] == bars[c]);
            }
        }
    } else {
        assert(all[all.len() - 1] == bar);
        assert forall|c: int| 0 <= c < bars.len() implies all.contains(#[trigger] bars[c]) by {
            assert(all[c] == bars[c]);
        }
        assert forall|c: int| 0 <= c < all.len() implies (#[trigger] all[c] == bar
            || bars.contains(all[c])) by {
            if c < bars.len() {
                assert(bars[c] == all[c]);
            }
        }
        assert(bars_sorted(all, count)) by {
            assert forall|c: int, d: int|
                #![trigger all[c], all[d]]
                0 <= c < d < all.len() implies all[c].0 <= all[d].0 by {
                assert(bars[c] == all[c]);
                assert(bars[c].0 <= bars[bars.len() - 1].0);
            }
            assert forall|c: int| 0 <= c < all.len() implies 0 <= (#[trigger] all[c]).0
                <= count by {
                if c < bars.len() {
                    assert(all[c] == bars[c]);
                }
            }
        }
    }
}

/// The bars on a line are sorted, and the bar of change `d` is one of them.
pub proof fn lemma_bars_on(
    lines: Seq<Seq<char>>,
    t: Text,
    u: Text,
    es: Seq<Edit>,
    left: bool,
    line: int,
    k: int,
    d: int,
)
    requires
        0 <= k <= es.len(),
    ensures
        bars_sorted(bars_on(lines, t, u, es, left, line, k), lines[line].len() as int),
        0 <= d < k && is_bar(es[d], left) && bar_line(t, own(es[d], left)) == line ==> bars_on(
            lines,
            t,
            u,
            es,
            left,
            line,
            k,
        ).contains(bar_of(t, u, es[d], left, lines[line].len() as int)),
    decreases k,
{
    if k > 0 {
        let count = lines[line].len() as int;
        let e = es[k - 1];
        let bars = bars_on(lines, t, u, es, left, line, k - 1);
        lemma_bars_on(lines, t, u, es, left, line, k - 1, d);
        if is_bar(e, left) && bar_line(t, own(e, left)) == line {
            lemma_with_bar_sorted(bars, bar_of(t, u, e, left, count), count);
            if 0 <= d < k - 1 && is_bar(es[d], left) && bar_line(t, own(es[d], left)) == line {
                let bar = bar_of(t, u, es[d], left, count);
                let c = choose|c: int| 0 <= c < bars.len() && bars[c] == bar;
                assert(bars[c] == bar);
            }
        }
    }
}

/// Bar `c` has its span, behind as much text as its position says.
pub proof fn lemma_cut_bar(
    line: Seq<char>,
    mask: Seq<bool>,
    bars: Seq<Bar>,
    left: bool,
    i: int,
    b: int,
    c: int,
) -> (p: int)
    requires
        mask.len() == line.len(),
        0 <= i <= mask.len(),
        0 <= b <= c < bars.len(),
        bars_sorted(bars, line.len() as int),
        i <= bars[b].0,
    ensures
        0 <= p < cut(line, mask, bars, left, i, b).len(),
        cut(line, mask, bars, left, i, b)[p] == bar_piece(left, bars[c]),
        spoken(cut(line, mask, bars, left, i, b).take(p)) == line.subrange(i, bars[c].0),
    decreases mask.len() - i, bars.len() - b,
{
    let all = cut(line, mask, bars, left, i, b);
    if bars[b].0 == i {
        if b == c {
            assert(all.take(0) =~= Seq::<Piece>::empty());
            assert(line.subrange(i, i) =~= Seq::<char>::empty());
            0
        } else {
            let rest = cut(line, mask, bars, left, i, b + 1);
            assert(bars[b].0 <= bars[b + 1].0);
            let p = lemma_cut_bar(line, mask, bars, left, i, b + 1, c);
            assert(all[p + 1] == rest[p]);
            assert(all.take(p + 1).drop_first() =~= rest.take(p));
            assert(spoken(all.take(p + 1)) =~= spoken(rest.take(p)));
            p + 1
        }
    } else {
        assert(bars[b].0 <= mask.len());
        let stop = bars[b].0;
        let j = run_end(mask, stop, i, i + 1);
        lemma_run_end(mask, stop, i, i + 1);
        lemma_run_stops(mask, stop, i, i + 1);
        let rest = cut(line, mask, bars, left, j, b);
        let p = lemma_cut_bar(line, mask, bars, left, j, b, c);
        assert(bars[b].0 <= bars[c].0);
        assert(all[p + 1] == rest[p]);
        assert(all.take(p + 1).drop_first() =~= rest.take(p));
        assert(all.take(p + 1)[0] == run_piece(line, left, mask[i], i, j));
        assert(spoken(all.take(p + 1)) =~= line.subrange(i, bars[c].0));
        p + 1
    }
}

pub proof fn lemma_run_stops(mask: Seq<bool>, stop: int, i: int, j: int)
    requires
        i < j <= stop <= mask.len(),
    ensures
        run_end(mask, stop, i, j) <= stop,
    decreases mask.len() - j,
{
    if !(j >= mask.len() || j == stop || mask[j] != mask[i]) {
        lemma_run_stops(mask, stop, i, j + 1);
    }
}

/// A change that has nothing on one side is shown there: on its line a bar
/// stands behind as much text as comes before the change, and `spans_line` says
/// whether the change has content that goes across lines.
pub proof fn bars_are_shown(
    del: Seq<Seq<char>>,
    add: Seq<Seq<char>>,
    left: bool,
    d: int,
) -> (p: int)
    requires
        !by_lines(del, add),
        0 <= d < refined(text_of(del), text_of(add)).len(),
        is_bar(refined(text_of(del), text_of(add))[d], left),
    ensures
        ({
            let e = refined(text_of(del), text_of(add))[d];
            let lines = lines_of(del, add, left);
            let t = text_of(lines);
            let u = text_of(lines_of(del, add, !left));
            let k = bar_line(t, own(e, left));
            let spans = pieces_of(del, add, left)[k];
            let at = clamp(
                clamp(own(e, left).start, 0, t.len()) - t.starts[k],
                0,
                lines[k].len() as int,
            );
            &&& 0 <= k < lines.len()
            &&& 0 <= p < spans.len()
            &&& spans[p].text.len() == 0
            &&& spans[p].mark == Some(own_mark(!left))
            &&& spans[p].spans_line == (has_separator(u.chars, other(e, left)) && has_content(
                u.chars,
                other(e, left),
            ))
            &&& spoken(spans.take(p)) == lines[k].take(at)
        }),
{
    let es = refined(text_of(del), text_of(add));
    let e = es[d];
    let lines = lines_of(del, add, left);
    let others = lines_of(del, add, !left);
    let t = text_of(lines);
    let u = text_of(others);
    let k = bar_line(t, own(e, left));
    lemma_text_of(lines);
    lemma_last_start(
        t.starts,
        clamp(
            least(
                clamp(own(e, left).start, 0, t.len()),
                greatest(t.len(), 1) - 1,
            ),
            0,
            t.len(),
        ),
        t.starts.len() as int,
    );
    let count = lines[k].len() as int;
    let bars = bars_on(lines, t, u, es, left, k, es.len() as int);
    lemma_bars_on(lines, t, u, es, left, k, es.len() as int, d);
    let bar = bar_of(t, u, e, left, count);
    let c = choose|c: int| 0 <= c < bars.len() && bars[c] == bar;
    let ws_pair = pair_at(white_pairs(lines, others), k);
    let mask = line_mask(lines, t, u, es, left, ws_pair, k);
    assert(0 <= bars[0].0);
    let p = lemma_cut_bar(lines[k], mask, bars, left, 0, 0, c);
    assert(pieces_of(del, add, left)[k] == line_pieces(lines, u, es, left, ws_pair, k));
    assert(lines[k].take(bar.0) =~= lines[k].subrange(0, bar.0));
    p
}

/// Where range `i` of a rendered line starts and ends, in characters, and which
/// span it shows.
proof fn lemma_range_at(ps: Seq<Piece>, i: int) -> (r: (int, int, int))
    requires
        0 <= i < rendered(ps).ranges.len(),
    ensures
        ({
            let line = rendered(ps);
            let range = line.ranges[i];
            &&& 0 <= r.0 < r.1 <= line.text.len()
            &&& range.1 == byte_len(line.text.take(r.0))
            &&& range.2 == byte_len(line.text.take(r.1))
            &&& 0 <= r.2 < ps.len()
            &&& range.0 == ps[r.2].mark
            &&& rendering(ps[r.2]) == Some(line.text.subrange(r.0, r.1))
        }),
    decreases ps.len(),
{
    let head = rendered(ps.drop_last());
    let line = rendered(ps);
    match rendering(ps.last()) {
        Some(shown) => {
            if i < head.ranges.len() {
                let r = lemma_range_at(ps.drop_last(), i);
                assert(line.text.take(r.0) =~= head.text.take(r.0));
                assert(line.text.take(r.1) =~= head.text.take(r.1));
                assert(line.text.subrange(r.0, r.1) =~= head.text.subrange(r.0, r.1));
                r
            } else {
                let lo = head.text.len() as int;
                let hi = line.text.len() as int;
                assert(line.text.take(lo) =~= head.text);
                assert(line.text.take(hi) =~= line.text);
                assert(line.text.subrange(lo, hi) =~= shown);
                (lo, hi, ps.len() - 1)
            }
        },
        None => lemma_range_at(ps.drop_last(), i),
    }
}

/// The ranges of a rendered line follow one another from its start to its end,
/// and none is empty.
pub proof fn ranges_tile_the_line(ps: Seq<Piece>, i: int)
    requires
        0 <= i < rendered(ps).ranges.len(),
    ensures
        ({
            let line = rendered(ps);
            let range = line.ranges[i];
            &&& range.1 == (if i == 0 {
                0
            } else {
                line.ranges[i - 1].2
            })
            &&& range.1 < range.2
            &&& i == line.ranges.len() - 1 ==> range.2 == byte_len(line.text)
        }),
    decreases ps.len(),
{
    let head = rendered(ps.drop_last());
    match rendering(ps.last()) {
        Some(shown) => {
            if i < head.ranges.len() {
                ranges_tile_the_line(ps.drop_last(), i);
            } else {
                lemma_bytes_grow(head.text, shown);
                if head.ranges.len() > 0 {
                    ranges_tile_the_line(ps.drop_last(), head.ranges.len() - 1);
                } else {
                    lemma_no_ranges(ps.drop_last());
                }
            }
        },
        None => {
            ranges_tile_the_line(ps.drop_last(), i);
        },
    }
}

proof fn lemma_no_ranges(ps: Seq<Piece>)
    requires
        rendered(ps).ranges.len() == 0,
    ensures
        rendered(ps).text == Seq::<char>::empty(),
    decreases ps.len(),
{
    if ps.len() > 0 {
        lemma_no_ranges(ps.drop_last());
    }
}

proof fn lemma_bytes_grow(x: Seq<char>, y: Seq<char>)
    requires
        y.len() > 0,
    ensures
        byte_len(x) < byte_len(x + y),
{
    lemma_encode_concat(x, y);
    assert(encode_utf8(y).len() > 0) by {
        reveal_with_fuel(encode_utf8, 2);
    }
}

/// The bytes between two characters are those of the characters between them.
pub proof fn lemma_bytes_between(text: Seq<char>, lo: int, hi: int)
    requires
        0 <= lo <= hi <= text.len(),
    ensures
        encode_utf8(text).subrange(byte_len(text.take(lo)), byte_len(text.take(hi)))
            == encode_utf8(text.subrange(lo, hi)),
        is_char_boundary(encode_utf8(text), byte_len(text.take(lo))),
        is_char_boundary(encode_utf8(text), byte_len(text.take(hi))),
{
    let x = text.take(lo);
    let y = text.subrange(lo, hi);
    let z = text.skip(hi);
    assert(text =~= x + (y + z));
    assert(text =~= text.take(hi) + z);
    assert(text.take(hi) =~= x + y);
    lemma_encode_boundary(x, y + z);
    lemma_encode_boundary(text.take(hi), z);
    lemma_encode_concat(x, y + z);
    lemma_encode_concat(y, z);
    lemma_encode_concat(x, y);
    let from = byte_len(x);
    assert(encode_utf8(text).subrange(from, byte_len(text.take(hi))) =~= encode_utf8(y));
}

/// A range of a rendered line cuts out, between characters, what one span is
/// rendered as, and carries the mark of that span.
pub proof fn ranges_cut_out_the_spans(ps: Seq<Piece>, i: int) -> (which: int)
    requires
        0 <= i < rendered(ps).ranges.len(),
    ensures
        ({
            let line = rendered(ps);
            let range = line.ranges[i];
            let bytes = encode_utf8(line.text);
            &&& 0 <= which < ps.len()
            &&& range.0 == ps[which].mark
            &&& rendering(ps[which]) is Some
            &&& bytes.subrange(range.1, range.2) == encode_utf8(rendering(ps[which])->0)
            &&& is_char_boundary(bytes, range.1)
            &&& is_char_boundary(bytes, range.2)
        }),
{
    let (lo, hi, which) = lemma_range_at(ps, i);
    lemma_bytes_between(rendered(ps).text, lo, hi);
    which
}

/// How many bars are shown by a placeholder.
pub open spec fn placeholders(ps: Seq<Piece>) -> int
    decreases ps.len(),
{
    if ps.len() == 0 {
        0
    } else {
        placeholders(ps.drop_last()) + if ps.last().text.len() == 0 && rendering(
            ps.last(),
        ) is Some {
            1int
        } else {
            0
        }
    }
}

proof fn lemma_spoken_push(ps: Seq<Piece>)
    requires
        ps.len() > 0,
    ensures
        spoken(ps) == spoken(ps.drop_last()) + ps.last().text,
    decreases ps.len(),
{
    let rest = ps.drop_first();
    if rest.len() == 0 {
        assert(ps.drop_last() =~= Seq::<Piece>::empty());
        assert(spoken(rest) =~= Seq::<char>::empty());
        assert(spoken(ps) =~= spoken(ps.drop_last()) + ps.last().text);
    } else {
        lemma_spoken_push(rest);
        assert(ps.drop_last().drop_first() =~= rest.drop_last());
        assert(ps.drop_last()[0] == ps[0]);
        assert(spoken(ps) =~= spoken(ps.drop_last()) + ps.last().text);
    }
}

/// A rendered line is the text of its spans with one character more for each
/// placeholder; without placeholders it is that text.
pub proof fn rendering_adds_placeholders(ps: Seq<Piece>)
    ensures
        rendered(ps).text.len() == spoken(ps).len() + placeholders(ps),
        placeholders(ps) >= 0,
        placeholders(ps) == 0 ==> rendered(ps).text == spoken(ps),
    decreases ps.len(),
{
    if ps.len() > 0 {
        rendering_adds_placeholders(ps.drop_last());
        lemma_spoken_push(ps);
        assert(ps.last().text.len() == 0 ==> spoken(ps.drop_last()) + ps.last().text =~= spoken(
            ps.drop_last(),
        ));
    }
}

} // verus!
