//! Changes cut back into marked spans, line by line.

use vstd::prelude::*;

use crate::char_seq::{
    body, lemma_last_start_is, lemma_text_line, lemma_text_of, line_offset, offsets_of, raw,
    text_of, CharSeq, Text, MAX_ELEMENTS,
};
use crate::chars::{element, is_whitespace, white};
use crate::ranges::{clamp, edits, greatest, least, Edit, Interval, OffsetRange, SequenceDiff};

verus! {

/// Emphasis on one side of a diff.
#[derive(Clone, Copy, Debug, PartialEq, Eq, Structural)]
pub enum Mark {
    Del,
    Ins,
}

/// One marked or plain piece of a line. `text` is a slice of the line; where
/// `mark` is `None`, what the text shows survives on the other side.
///
/// A span without text is a bar: it stands where the other side has a change
/// and this side has nothing. `spans_line` is set if that change goes across a
/// line separator and has content: then the other side's line has a row of its
/// own. Other bars are to be shown as a placeholder.
#[derive(Clone, Debug, PartialEq, Eq)]
pub struct DiffSpan<'a> {
    pub text: &'a str,
    pub mark: Option<Mark>,
    pub spans_line: bool,
}

/// What a span stands for.
pub struct Piece {
    pub text: Seq<char>,
    pub mark: Option<Mark>,
    pub spans_line: bool,
}

impl<'a> View for DiffSpan<'a> {
    type V = Piece;

    open spec fn view(&self) -> Piece {
        Piece { text: self.text@, mark: self.mark, spans_line: self.spans_line }
    }
}

/// What the spans of a line stand for.
pub open spec fn pieces(spans: Seq<DiffSpan<'_>>) -> Seq<Piece> {
    Seq::new(spans.len(), |i: int| spans[i]@)
}

/// What the spans of several lines stand for.
pub open spec fn piece_lines(lines: Seq<Vec<DiffSpan<'_>>>) -> Seq<Seq<Piece>> {
    Seq::new(lines.len(), |i: int| pieces(lines[i]@))
}

/// The spans of a line that is changed as a whole: one, or none if it is empty.
pub open spec fn whole(line: Seq<char>, mark: Mark) -> Seq<Piece> {
    if line.len() == 0 {
        Seq::empty()
    } else {
        seq![Piece { text: line, mark: Some(mark), spans_line: false }]
    }
}

/// The range of a change on one side.
pub open spec fn own(e: Edit, left: bool) -> Interval {
    if left {
        e.a
    } else {
        e.b
    }
}

/// The range of a change on the other side.
pub open spec fn other(e: Edit, left: bool) -> Interval {
    own(e, !left)
}

/// A range has a line separator in it.
pub open spec fn has_separator(s: Seq<char>, range: Interval) -> bool {
    exists|k: int| greatest(range.start, 0) <= k < range.end && #[trigger] element(s, k) == '\n'
}

/// A range has something else than white space in it.
pub open spec fn has_content(s: Seq<char>, range: Interval) -> bool {
    exists|k: int| greatest(range.start, 0) <= k < range.end && !white(#[trigger] element(s, k))
}

/// A change that covers `at` marks it: white space only on a line that differs
/// from its counterpart by white space alone, against a line separator, or
/// against nothing. White space that merely flows differently is not marked.
pub open spec fn marks_at(
    s: Seq<char>,
    others: Seq<char>,
    e: Edit,
    left: bool,
    ws_pair: bool,
    at: int,
) -> bool {
    &&& own(e, left).has(at)
    &&& white(s[at]) ==> ws_pair || has_separator(others, other(e, left)) || other(
        e,
        left,
    ).empty()
}

/// Some change marks `at`.
pub open spec fn marked(
    s: Seq<char>,
    others: Seq<char>,
    es: Seq<Edit>,
    left: bool,
    ws_pair: bool,
    at: int,
) -> bool {
    exists|d: int| 0 <= d < es.len() && marks_at(s, others, #[trigger] es[d], left, ws_pair, at)
}

/// A change that has nothing on this side and something on the other.
pub open spec fn is_bar(e: Edit, left: bool) -> bool {
    own(e, left).empty() && !other(e, left).empty()
}

/// A bar: its character position in its line, and whether it stands for a line
/// with content.
pub type Bar = (int, bool);

/// The line on which a change without text is shown.
pub open spec fn bar_line(t: Text, range: Interval) -> int {
    t.line_of(least(clamp(range.start, 0, t.len()), greatest(t.len(), 1) - 1))
}

/// The bar of a change, on a line of `count` characters that starts at `start`.
pub open spec fn bar_of(t: Text, u: Text, e: Edit, left: bool, count: int) -> Bar {
    let range = own(e, left);
    let start = t.starts[bar_line(t, range)];
    (
        clamp(clamp(range.start, 0, t.len()) - start, 0, count),
        has_separator(u.chars, other(e, left)) && has_content(u.chars, other(e, left)),
    )
}

/// One bar comes before another: further left, or at the same place without a
/// line of its own.
pub open spec fn bar_before(x: Bar, y: Bar) -> bool {
    x.0 < y.0 || x.0 == y.0 && !x.1 && y.1
}

/// A bar put into a sorted list.
pub open spec fn with_bar(bars: Seq<Bar>, bar: Bar) -> Seq<Bar>
    decreases bars.len(),
{
    if bars.len() > 0 && bar_before(bar, bars.last()) {
        with_bar(bars.drop_last(), bar).push(bars.last())
    } else {
        bars.push(bar)
    }
}

/// The bars on a line, sorted, of the first `k` changes.
pub open spec fn bars_on(
    lines: Seq<Seq<char>>,
    t: Text,
    u: Text,
    es: Seq<Edit>,
    left: bool,
    line: int,
    k: int,
) -> Seq<Bar>
    decreases k,
{
    if k <= 0 {
        Seq::empty()
    } else {
        let bars = bars_on(lines, t, u, es, left, line, k - 1);
        let e = es[k - 1];
        if is_bar(e, left) && bar_line(t, own(e, left)) == line {
            with_bar(bars, bar_of(t, u, e, left, lines[line].len() as int))
        } else {
            bars
        }
    }
}

/// Where the run of equal marks that starts at `i` ends, looking from `j` on: a
/// bar at `stop` ends it too.
pub open spec fn run_end(mask: Seq<bool>, stop: int, i: int, j: int) -> int
    decreases mask.len() - j,
{
    if j >= mask.len() || j == stop || mask[j] != mask[i] {
        j
    } else {
        run_end(mask, stop, i, j + 1)
    }
}

pub proof fn lemma_run_end(mask: Seq<bool>, stop: int, i: int, j: int)
    requires
        i < j <= mask.len(),
    ensures
        j <= run_end(mask, stop, i, j) <= mask.len(),
        forall|k: int| j <= k < run_end(mask, stop, i, j) ==> #[trigger] mask[k] == mask[i],
        ({
            let end = run_end(mask, stop, i, j);
            end == mask.len() || end == stop || mask[end] != mask[i]
        }),
    decreases mask.len() - j,
{
    if !(j >= mask.len() || j == stop || mask[j] != mask[i]) {
        lemma_run_end(mask, stop, i, j + 1);
    }
}

/// The marks that spans of one side carry: that of the side on text, and that
/// of the other side on bars.
pub open spec fn own_mark(left: bool) -> Mark {
    if left {
        Mark::Del
    } else {
        Mark::Ins
    }
}

/// The span of a bar.
pub open spec fn bar_piece(left: bool, bar: Bar) -> Piece {
    Piece { text: Seq::empty(), mark: Some(own_mark(!left)), spans_line: bar.1 }
}

/// The span of the characters from `i` to `j`.
pub open spec fn run_piece(line: Seq<char>, left: bool, marked: bool, i: int, j: int) -> Piece {
    Piece {
        text: line.subrange(i, j),
        mark: if marked {
            Some(own_mark(left))
        } else {
            None
        },
        spans_line: false,
    }
}

/// A line cut from position `i` and bar `b` on: bars first, and between them the
/// longest runs of characters that are all marked or all plain.
pub open spec fn cut(
    line: Seq<char>,
    mask: Seq<bool>,
    bars: Seq<Bar>,
    left: bool,
    i: int,
    b: int,
) -> Seq<Piece>
    decreases mask.len() - i, bars.len() - b,
{
    if b < bars.len() && bars[b].0 == i {
        seq![bar_piece(left, bars[b])] + cut(line, mask, bars, left, i, b + 1)
    } else if i < 0 || i >= mask.len() {
        Seq::empty()
    } else {
        let stop = if b < bars.len() {
            bars[b].0
        } else {
            -1
        };
        let j = run_end(mask, stop, i, i + 1);
        proof {
            lemma_run_end(mask, stop, i, i + 1);
        }
        seq![run_piece(line, left, mask[i], i, j)] + cut(line, mask, bars, left, j, b)
    }
}

/// The marks of the characters of line `k`. A line feed at its end has none.
pub open spec fn line_mask(
    lines: Seq<Seq<char>>,
    t: Text,
    u: Text,
    es: Seq<Edit>,
    left: bool,
    ws_pair: bool,
    k: int,
) -> Seq<bool> {
    Seq::new(
        lines[k].len(),
        |i: int|
            i < body(lines[k]).len() && marked(
                t.chars,
                u.chars,
                es,
                left,
                ws_pair,
                line_offset(lines, k) + i,
            ),
    )
}

/// The spans of line `k`. `lines` is one side of the block and `u` the text of
/// the other.
pub open spec fn line_pieces(
    lines: Seq<Seq<char>>,
    u: Text,
    es: Seq<Edit>,
    left: bool,
    ws_pair: bool,
    k: int,
) -> Seq<Piece> {
    let t = text_of(lines);
    cut(
        lines[k],
        line_mask(lines, t, u, es, left, ws_pair, k),
        bars_on(lines, t, u, es, left, k, es.len() as int),
        left,
        0,
        0,
    )
}

/// Line `k` differs from its counterpart by white space alone.
pub open spec fn pair_at(ws: Seq<bool>, k: int) -> bool {
    k < ws.len() && ws[k]
}

/// The spans of each line of one side.
pub open spec fn side_pieces(
    lines: Seq<Seq<char>>,
    u: Text,
    es: Seq<Edit>,
    left: bool,
    ws: Seq<bool>,
) -> Seq<Seq<Piece>> {
    Seq::new(
        lines.len(),
        |k: int| line_pieces(lines, u, es, left, pair_at(ws, k), k),
    )
}

/// Marks a line as a whole.
pub fn whole_line<'a>(text: &'a str, mark: Mark) -> (spans: Vec<DiffSpan<'a>>)
    ensures
        pieces(spans@) == whole(text@, mark),
{
    let mut spans: Vec<DiffSpan<'a>> = Vec::new();
    if !text.is_empty() {
        spans.push(DiffSpan { text, mark: Some(mark), spans_line: false });
    }
    assert(pieces(spans@) =~= whole(text@, mark));
    spans
}

/// A range has a line separator in it.
fn range_has_separator(seq: &CharSeq, range: OffsetRange) -> (yes: bool)
    ensures
        yes == has_separator(seq@.chars, range@),
{
    let mut k: i64 = if range.start < 0 {
        0
    } else {
        range.start
    };
    while k < range.end
        invariant
            greatest(range@.start, 0) <= k,
            forall|j: int|
                greatest(range@.start, 0) <= j < k ==> #[trigger] element(seq@.chars, j) != '\n',
        decreases range.end - k,
    {
        if seq.element(k) == '\n' {
            return true;
        }
        k = k + 1;
    }
    false
}

/// A range has something else than white space in it.
fn range_has_content(seq: &CharSeq, range: OffsetRange) -> (yes: bool)
    ensures
        yes == has_content(seq@.chars, range@),
{
    let mut k: i64 = if range.start < 0 {
        0
    } else {
        range.start
    };
    while k < range.end
        invariant
            greatest(range@.start, 0) <= k,
            forall|j: int|
                greatest(range@.start, 0) <= j < k ==> white(#[trigger] element(seq@.chars, j)),
        decreases range.end - k,
    {
        if !is_whitespace(seq.element(k)) {
            return true;
        }
        k = k + 1;
    }
    false
}

/// The range of a change on one side.
fn own_range(d: SequenceDiff, left: bool) -> (range: OffsetRange)
    ensures
        range@ == own(d@, left),
{
    if left {
        d.seq1
    } else {
        d.seq2
    }
}

/// `mask` holds the marks of the first `d` changes.
spec fn masks(seq: &CharSeq, others: Seq<char>, es: Seq<Edit>, left: bool, ws: Seq<bool>, d: int,
    mask: Seq<bool>) -> bool {
    &&& mask.len() == seq@.len()
    &&& forall|at: int|
        0 <= at < mask.len() ==> #[trigger] mask[at] == marked(
            seq@.chars,
            others,
            es.take(d),
            left,
            pair_at(ws, seq@.line_of(at)),
            at,
        )
}

/// One more change marks what it marks itself, and the rest stays.
proof fn lemma_marked_step(
    s: Seq<char>,
    others: Seq<char>,
    es: Seq<Edit>,
    left: bool,
    ws_pair: bool,
    at: int,
    d: int,
)
    requires
        0 <= d < es.len(),
    ensures
        marked(s, others, es.take(d + 1), left, ws_pair, at) <==> marked(
            s,
            others,
            es.take(d),
            left,
            ws_pair,
            at,
        ) || marks_at(s, others, es[d], left, ws_pair, at),
{
    let old_list = es.take(d);
    let new_list = es.take(d + 1);
    if marked(s, others, old_list, left, ws_pair, at) {
        let k = choose|k: int|
            0 <= k < old_list.len() && marks_at(
                s,
                others,
                #[trigger] old_list[k],
                left,
                ws_pair,
                at,
            );
        assert(marks_at(s, others, new_list[k], left, ws_pair, at));
    }
    if marks_at(s, others, es[d], left, ws_pair, at) {
        assert(marks_at(s, others, new_list[d], left, ws_pair, at));
    }
    if marked(s, others, new_list, left, ws_pair, at) {
        let k = choose|k: int|
            0 <= k < new_list.len() && marks_at(
                s,
                others,
                #[trigger] new_list[k],
                left,
                ws_pair,
                at,
            );
        if k < d {
            assert(marks_at(s, others, old_list[k], left, ws_pair, at));
        }
    }
}

/// Adds the marks of one change.
fn mark_change(
    seq: &CharSeq,
    other_seq: &CharSeq,
    diff: SequenceDiff,
    left: bool,
    ws_pair: &[bool],
    mask: &mut Vec<bool>,
)
    requires
        seq.wf(),
        old(mask)@.len() == seq@.len(),
    ensures
        final(mask)@.len() == seq@.len(),
        forall|at: int|
            0 <= at < seq@.len() ==> #[trigger] final(mask)@[at] == (old(mask)@[at] || marks_at(
                seq@.chars,
                other_seq@.chars,
                diff@,
                left,
                pair_at(ws_pair@, seq@.line_of(at)),
                at,
            )),
{
    let range: OffsetRange = own_range(diff, left);
    let others: OffsetRange = own_range(diff, !left);
    let against: bool = range_has_separator(other_seq, others) || others.is_empty();
    let start: i64 = if range.start < 0 {
        0
    } else {
        range.start
    };
    let end: i64 = if range.end < seq.length() {
        range.end
    } else {
        seq.length()
    };
    let mut at: i64 = start;
    while at < end
        invariant
            seq.wf(),
            0 <= start <= at,
            end <= seq@.len(),
            end == least(range@.end, seq@.len()),
            start == greatest(range@.start, 0),
            range@ == own(diff@, left),
            others@ == other(diff@, left),
            against == (has_separator(other_seq@.chars, others@) || others@.empty()),
            mask@.len() == seq@.len(),
            forall|k: int|
                0 <= k < seq@.len() ==> #[trigger] mask@[k] == (old(mask)@[k] || k < at
                    && marks_at(
                    seq@.chars,
                    other_seq@.chars,
                    diff@,
                    left,
                    pair_at(ws_pair@, seq@.line_of(k)),
                    k,
                )),
        decreases end - at,
    {
        let line: usize = seq.line_of(at);
        let paired: bool = line < ws_pair.len() && ws_pair[line];
        assert(at < mask.len());
        if !is_whitespace(seq.element(at)) || paired || against {
            mask.set(at as usize, true);
        }
        at = at + 1;
    }
}

/// What a list of bars stands for.
pub open spec fn bars_of(bars: Seq<(usize, bool)>) -> Seq<Bar> {
    Seq::new(bars.len(), |i: int| (bars[i].0 as int, bars[i].1))
}

proof fn lemma_with_bar(bars: Seq<Bar>, bar: Bar, j: int)
    requires
        0 <= j <= bars.len(),
        forall|k: int| j <= k < bars.len() ==> bar_before(bar, #[trigger] bars[k]),
        j > 0 ==> !bar_before(bar, bars[j - 1]),
    ensures
        with_bar(bars, bar) == bars.insert(j, bar),
    decreases bars.len(),
{
    if j < bars.len() {
        let front = bars.drop_last();
        assert(bar_before(bar, bars[bars.len() - 1]));
        assert forall|k: int| j <= k < front.len() implies bar_before(bar, #[trigger] front[k]) by {
            assert(bar_before(bar, bars[k]));
        }
        lemma_with_bar(front, bar, j);
        assert(front.insert(j, bar).push(bars.last()) =~= bars.insert(j, bar));
    } else {
        assert(bars.push(bar) =~= bars.insert(j, bar));
    }
}

/// Puts a bar into a sorted list.
fn insert_bar(bars: &mut Vec<(usize, bool)>, at: usize, drop: bool)
    ensures
        bars_of(final(bars)@) == with_bar(bars_of(old(bars)@), (at as int, drop)),
{
    let mut j: usize = bars.len();
    let ghost before = bars_of(bars@);
    let ghost bar: Bar = (at as int, drop);
    while j > 0 && (at < bars[j - 1].0 || (at == bars[j - 1].0 && !drop && bars[j - 1].1))
        invariant
            j <= bars@.len(),
            bars@ == old(bars)@,
            before == bars_of(bars@),
            bar == (at as int, drop),
            forall|k: int| j <= k < before.len() ==> bar_before(bar, #[trigger] before[k]),
        decreases j,
    {
        j = j - 1;
    }
    bars.insert(j, (at, drop));
    proof {
        assert(j > 0 ==> before[j - 1] == (old(bars)@[j - 1].0 as int, old(bars)@[j - 1].1));
        lemma_with_bar(before, bar, j as int);
        assert(bars_of(bars@) =~= before.insert(j as int, bar));
    }
}

/// The marks of every element of one side.
fn all_marks(
    seq: &CharSeq,
    other_seq: &CharSeq,
    diffs: &[SequenceDiff],
    left: bool,
    ws_pair: &[bool],
) -> (mask: Vec<bool>)
    requires
        seq.wf(),
    ensures
        mask@.len() == seq@.len(),
        forall|at: int|
            0 <= at < mask@.len() ==> #[trigger] mask@[at] == marked(
                seq@.chars,
                other_seq@.chars,
                edits(diffs@),
                left,
                pair_at(ws_pair@, seq@.line_of(at)),
                at,
            ),
{
    let ghost es = edits(diffs@);
    let ghost others = other_seq@.chars;
    let mut mask: Vec<bool> = Vec::new();
    let mut i: usize = 0;
    while i < seq.elements.len()
        invariant
            i <= seq.elements@.len(),
            mask@.len() == i,
            forall|at: int| 0 <= at < i ==> !(#[trigger] mask@[at]),
        decreases seq.elements@.len() - i,
    {
        mask.push(false);
        i = i + 1;
    }
    let mut d: usize = 0;
    while d < diffs.len()
        invariant
            d <= diffs@.len(),
            seq.wf(),
            es == edits(diffs@),
            others == other_seq@.chars,
            masks(seq, others, es, left, ws_pair@, d as int, mask@),
        decreases diffs@.len() - d,
    {
        let ghost before = mask@;
        mark_change(seq, other_seq, diffs[d], left, ws_pair, &mut mask);
        proof {
            assert(es[d as int] == diffs@[d as int]@);
            assert forall|at: int| 0 <= at < mask@.len() implies #[trigger] mask@[at] == marked(
                seq@.chars,
                others,
                es.take(d + 1),
                left,
                pair_at(ws_pair@, seq@.line_of(at)),
                at,
            ) by {
                assert(before[at] == before[at]);
                lemma_marked_step(
                    seq@.chars,
                    others,
                    es,
                    left,
                    pair_at(ws_pair@, seq@.line_of(at)),
                    at,
                    d as int,
                );
            }
        }
        d = d + 1;
    }
    assert(es.take(d as int) =~= es);
    mask
}

/// The bars on each line of one side.
fn all_bars(
    lines: &[&str],
    seq: &CharSeq,
    other_seq: &CharSeq,
    diffs: &[SequenceDiff],
    left: bool,
) -> (bars: Vec<Vec<(usize, bool)>>)
    requires
        seq.wf(),
        seq.models(raw(lines@)),
    ensures
        bars@.len() == lines@.len(),
        forall|k: int|
            0 <= k < bars@.len() ==> bars_of(#[trigger] bars@[k]@) == bars_on(
                raw(lines@),
                seq@,
                other_seq@,
                edits(diffs@),
                left,
                k,
                diffs@.len() as int,
            ),
{
    let ghost es = edits(diffs@);
    let ghost all = raw(lines@);
    let mut bars: Vec<Vec<(usize, bool)>> = Vec::new();
    let mut i: usize = 0;
    while i < lines.len()
        invariant
            i <= lines@.len(),
            bars@.len() == i,
            forall|k: int| 0 <= k < i ==> (#[trigger] bars@[k])@.len() == 0,
        decreases lines@.len() - i,
    {
        bars.push(Vec::new());
        i = i + 1;
    }
    proof {
        assert forall|k: int| 0 <= k < bars@.len() implies bars_of(#[trigger] bars@[k]@) == bars_on(
            all,
            seq@,
            other_seq@,
            es,
            left,
            k,
            0,
        ) by {
            assert(bars_of(bars@[k]@) =~= Seq::<Bar>::empty());
        }
    }
    let length: i64 = seq.length();
    let mut d: usize = 0;
    while d < diffs.len()
        invariant
            d <= diffs@.len(),
            seq.wf(),
            seq.models(all),
            all == raw(lines@),
            es == edits(diffs@),
            length == seq@.len(),
            bars@.len() == lines@.len(),
            forall|k: int|
                0 <= k < bars@.len() ==> bars_of(#[trigger] bars@[k]@) == bars_on(
                    all,
                    seq@,
                    other_seq@,
                    es,
                    left,
                    k,
                    d as int,
                ),
        decreases diffs@.len() - d,
    {
        let diff: SequenceDiff = diffs[d];
        let range: OffsetRange = own_range(diff, left);
        let others: OffsetRange = own_range(diff, !left);
        assert(es[d as int] == diff@);
        if range.is_empty() && !others.is_empty() {
            let drop: bool = range_has_separator(other_seq, others) && range_has_content(
                other_seq,
                others,
            );
            let p: i64 = if range.start < 0 {
                0
            } else if range.start > length {
                length
            } else {
                range.start
            };
            let shown: i64 = if p > 0 && p == length {
                length - 1
            } else {
                p
            };
            let line: usize = seq.line_of(shown);
            let count: usize = seq.char_bytes[line].len() - 1;
            let start: usize = seq.line_start[line];
            let at: usize = if (p as u64) < start as u64 {
                0
            } else if p as u64 - start as u64 > count as u64 {
                count
            } else {
                (p as u64 - start as u64) as usize
            };
            let ghost before = bars@;
            assert(seq@.starts[line as int] == start);
            assert(line == bar_line(seq@, own(diff@, left)));
            assert((at as int, drop) == bar_of(
                seq@,
                other_seq@,
                diff@,
                left,
                all[line as int].len() as int,
            ));
            insert_bar(&mut bars[line], at, drop);
            proof {
                assert forall|k: int| 0 <= k < bars@.len() implies bars_of(#[trigger] bars@[k]@)
                    == bars_on(all, seq@, other_seq@, es, left, k, d + 1) by {
                    assert(bars_of(before[k]@) == bars_on(
                        all,
                        seq@,
                        other_seq@,
                        es,
                        left,
                        k,
                        d as int,
                    ));
                }
            }
        }
        d = d + 1;
    }
    bars
}

/// Cuts a line at its marks and bars, see `cut`.
fn cut_line<'a>(
    line: &'a str,
    bytes: &Vec<usize>,
    mask: &Vec<bool>,
    bars: &Vec<(usize, bool)>,
    left: bool,
) -> (spans: Vec<DiffSpan<'a>>)
    requires
        offsets_of(bytes@, line@),
        mask@.len() == line@.len(),
    ensures
        pieces(spans@) == cut(line@, mask@, bars_of(bars@), left, 0, 0),
{
    let mark_kind: Mark = if left {
        Mark::Del
    } else {
        Mark::Ins
    };
    let bar_kind: Mark = if left {
        Mark::Ins
    } else {
        Mark::Del
    };
    let ghost all = cut(line@, mask@, bars_of(bars@), left, 0, 0);
    let n: usize = mask.len();
    let mut spans: Vec<DiffSpan<'a>> = Vec::new();
    let mut i: usize = 0;
    let mut b: usize = 0;
    assert(pieces(spans@) + all =~= all);
    while i < n || (b < bars.len() && bars[b].0 == i)
        invariant
            i <= n == mask@.len() == line@.len(),
            b <= bars@.len(),
            offsets_of(bytes@, line@),
            mark_kind == own_mark(left),
            bar_kind == own_mark(!left),
            pieces(spans@) + cut(line@, mask@, bars_of(bars@), left, i as int, b as int) == all,
        decreases n - i, bars@.len() - b,
    {
        let ghost before = pieces(spans@);
        let ghost bs = bars_of(bars@);
        let ghost here = cut(line@, mask@, bs, left, i as int, b as int);
        assert(b < bars@.len() ==> bs[b as int] == (bars@[b as int].0 as int, bars@[b as int].1));
        if b < bars.len() && bars[b].0 == i {
            proof {
                reveal_strlit("");
            }
            let bar: DiffSpan<'a> = DiffSpan {
                text: "",
                mark: Some(bar_kind),
                spans_line: bars[b].1,
            };
            assert(bar@.text =~= Seq::<char>::empty());
            spans.push(bar);
            b = b + 1;
            proof {
                let rest = cut(line@, mask@, bs, left, i as int, b as int);
                assert(here == seq![bar@] + rest);
                assert(pieces(spans@) =~= before.push(bar@));
                assert(before + here =~= before.push(bar@) + rest);
            }
        } else {
            let ghost stop = if b < bs.len() {
                bs[b as int].0
            } else {
                -1
            };
            let mut j: usize = i + 1;
            while j < n && mask[j] == mask[i] && !(b < bars.len() && bars[b].0 == j)
                invariant
                    i < j <= n == mask@.len(),
                    b <= bars@.len(),
                    bs == bars_of(bars@),
                    stop == (if b < bs.len() {
                        bs[b as int].0
                    } else {
                        -1
                    }),
                    run_end(mask@, stop, i as int, i + 1) == run_end(
                        mask@,
                        stop,
                        i as int,
                        j as int,
                    ),
                decreases n - j,
            {
                j = j + 1;
            }
            let run: DiffSpan<'a> = DiffSpan {
                text: CharSeq::slice(line, bytes, i, j),
                mark: if mask[i] {
                    Some(mark_kind)
                } else {
                    None
                },
                spans_line: false,
            };
            spans.push(run);
            proof {
                let rest = cut(line@, mask@, bs, left, j as int, b as int);
                assert(run@ == run_piece(line@, left, mask@[i as int], i as int, j as int));
                assert(here == seq![run@] + rest);
                assert(pieces(spans@) =~= before.push(run@));
                assert(before + here =~= before.push(run@) + rest);
            }
            i = j;
        }
    }
    proof {
        let bs = bars_of(bars@);
        assert(b < bars@.len() ==> bs[b as int] == (bars@[b as int].0 as int, bars@[b as int].1));
        assert(pieces(spans@) =~= all);
    }
    spans
}

/// The characters of a line are on that line.
pub proof fn lemma_line_of(lines: Seq<Seq<char>>, k: int, i: int)
    requires
        0 <= k < lines.len(),
        0 <= i < body(lines[k]).len(),
    ensures
        0 <= line_offset(lines, k) + i < text_of(lines).len(),
        text_of(lines).line_of(line_offset(lines, k) + i) == k,
        text_of(lines).chars[line_offset(lines, k) + i] == body(lines[k])[i],
{
    let t = text_of(lines);
    let at = line_offset(lines, k) + i;
    let n = lines.len() as int;
    lemma_text_of(lines);
    lemma_text_line(lines, k);
    assert(t.starts[k] == line_offset(lines, k));
    assert(t.chars.subrange(t.starts[k], t.starts[k] + body(lines[k]).len())[i] == t.chars[at]);
    assert forall|j: int| k < j < n implies at < t.starts[j] by {
        assert(t.starts[k + 1] == line_offset(lines, k + 1));
        assert(j > k + 1 ==> t.starts[k + 1] < t.starts[j]);
    }
    assert(t.starts[0] <= t.starts[k]);
    lemma_last_start_is(t.starts, at, n, k);
}

/// The marks of one line, out of those of all elements.
fn marks_of_line(seq: &CharSeq, mask: &Vec<bool>, k: usize) -> (line_marks: Vec<bool>)
    requires
        k < seq.line_start@.len(),
        seq.line_start@.len() == seq.line_trimmed_end@.len() == seq.char_bytes@.len(),
        seq.char_bytes@[k as int]@.len() > 0,
        seq.line_start@[k as int] <= seq.line_trimmed_end@[k as int] <= mask@.len(),
    ensures
        line_marks@ == Seq::new(
            (seq.char_bytes@[k as int]@.len() - 1) as nat,
            |i: int|
                i < seq.line_trimmed_end@[k as int] - seq.line_start@[k as int]
                    && mask@[seq.line_start@[k as int] + i],
        ),
{
    let start: usize = seq.line_start[k];
    let count: usize = seq.char_bytes[k].len() - 1;
    let within: usize = seq.line_trimmed_end[k] - start;
    let mut line_marks: Vec<bool> = Vec::new();
    let mut i: usize = 0;
    while i < count
        invariant
            i <= count,
            start + within <= mask.len(),
            line_marks@.len() == i,
            forall|j: int|
                0 <= j < i ==> #[trigger] line_marks@[j] == (j < within && mask@[start + j]),
        decreases count - i,
    {
        line_marks.push(i < within && mask[start + i]);
        i = i + 1;
    }
    line_marks
}

/// Cuts each line of one side at its marked ranges. A change that has nothing
/// on this side is shown as a bar.
pub fn diffs_to_line_spans<'a>(
    lines: &[&'a str],
    seq: &CharSeq,
    other_seq: &CharSeq,
    diffs: &[SequenceDiff],
    left: bool,
    ws_pair: &[bool],
) -> (result: Vec<Vec<DiffSpan<'a>>>)
    requires
        lines@.len() > 0 || diffs@.len() == 0,
        seq.models(raw(lines@)),
        seq@.len() <= MAX_ELEMENTS,
    ensures
        piece_lines(result@) == side_pieces(
            raw(lines@),
            other_seq@,
            edits(diffs@),
            left,
            ws_pair@,
        ),
{
    let ghost es = edits(diffs@);
    let ghost all = raw(lines@);
    let ghost t = text_of(all);
    let ghost u = other_seq@;
    let mut result: Vec<Vec<DiffSpan<'a>>> = Vec::new();
    if lines.len() == 0 {
        assert(piece_lines(result@) =~= side_pieces(all, u, es, left, ws_pair@));
        return result;
    }
    proof {
        lemma_text_of(all);
    }
    let mask: Vec<bool> = all_marks(seq, other_seq, diffs, left, ws_pair);
    let bars: Vec<Vec<(usize, bool)>> = all_bars(lines, seq, other_seq, diffs, left);
    let mut k: usize = 0;
    while k < lines.len()
        invariant
            k <= lines@.len(),
            all == raw(lines@),
            t == text_of(all),
            u == other_seq@,
            es == edits(diffs@),
            seq.models(all),
            mask@.len() == t.len(),
            forall|at: int|
                0 <= at < mask@.len() ==> #[trigger] mask@[at] == marked(
                    t.chars,
                    u.chars,
                    es,
                    left,
                    pair_at(ws_pair@, t.line_of(at)),
                    at,
                ),
            bars@.len() == lines@.len(),
            forall|j: int|
                0 <= j < bars@.len() ==> bars_of(#[trigger] bars@[j]@) == bars_on(
                    all,
                    t,
                    u,
                    es,
                    left,
                    j,
                    es.len() as int,
                ),
            result@.len() == k,
            forall|j: int|
                0 <= j < k ==> pieces(#[trigger] result@[j]@) == line_pieces(
                    all,
                    u,
                    es,
                    left,
                    pair_at(ws_pair@, j),
                    j,
                ),
        decreases lines@.len() - k,
    {
        proof {
            lemma_text_line(all, k as int);
            assert(all[k as int] == lines@[k as int]@);
            assert(t.starts[k as int] == line_offset(all, k as int));
            assert(seq@.starts.len() == t.starts.len());
            assert(seq@.starts[k as int] == seq.line_start@[k as int]);
            assert(seq.line_trimmed_end@[k as int] == line_offset(all, k as int) + body(
                all[k as int],
            ).len());
            assert(offsets_of(seq.char_bytes@[k as int]@, all[k as int]));
        }
        let line_marks: Vec<bool> = marks_of_line(seq, &mask, k);
        proof {
            let expected = line_mask(all, t, u, es, left, pair_at(ws_pair@, k as int), k as int);
            assert forall|i: int| 0 <= i < expected.len() implies line_marks@[i] == expected[i] by {
                if i < body(all[k as int]).len() {
                    lemma_line_of(all, k as int, i);
                }
            }
            assert(line_marks@ =~= expected);
            assert(bars_of(bars@[k as int]@) == bars_on(
                all,
                t,
                u,
                es,
                left,
                k as int,
                es.len() as int,
            ));
        }
        result.push(cut_line(lines[k], &seq.char_bytes[k], &line_marks, &bars[k], left));
        k = k + 1;
    }
    assert(piece_lines(result@) =~= side_pieces(all, u, es, left, ws_pair@));
    result
}

} // verus!
