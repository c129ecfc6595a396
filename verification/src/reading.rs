//! What the texts of a block are made of: lines, words, white space, and places
//! where a text is better or worse to cut.

use vstd::prelude::*;

use crate::char_seq::{
    body, closed_lines, first_start, last_start, lemma_first_start, lemma_last_start, lemma_word_at,
    line_offset, score_at, text_of, word_at, Text,
};
use crate::chars::{element, trim, trim_end, trim_start, white, word_char};
use crate::ranges::{clamp, Interval};

verus! {

/// A line feed at the end of a line is not part of its text. Everything else is.
pub proof fn one_line_feed_is_taken_off(line: Seq<char>)
    ensures
        body(line.push('\n')) == line,
        line.len() == 0 ==> body(line) == line,
        line.len() > 0 && line.last() != '\n' ==> body(line) == line,
{
    assert(line.push('\n').drop_last() =~= line);
}

/// The text of some lines is that of the first ones, a line feed, and the text
/// of the last line, which starts behind the line feed.
pub proof fn lines_are_joined_by_line_feeds(lines: Seq<Seq<char>>, line: Seq<char>)
    ensures
        text_of(seq![line]).chars == body(line),
        text_of(seq![line]).starts == seq![0int],
        lines.len() > 0 ==> text_of(lines.push(line)).chars == text_of(lines).chars + seq!['\n']
            + body(line),
        lines.len() > 0 ==> text_of(lines.push(line)).starts == text_of(lines).starts.push(
            text_of(lines).len() + 1,
        ),
{
    let one = seq![line];
    lemma_closed_one(one);
    assert(text_of(one).chars =~= body(line));
    assert(text_of(one).starts =~= seq![0int]) by {
        assert(line_offset(one, 0) == 0) by {
            reveal_with_fuel(closed_lines, 2);
        }
    }
    if lines.len() > 0 {
        let more = lines.push(line);
        let k = lines.len() as int;
        lemma_closed_same(lines, more, k);
        assert(closed_lines(more, k + 1) == closed_lines(more, k) + body(line).push('\n')) by {
            assert(more[k] == line);
        }
        assert(closed_lines(lines, k) == closed_lines(lines, k - 1) + body(lines[k - 1]).push(
            '\n',
        ));
        assert(text_of(more).chars =~= text_of(lines).chars + seq!['\n'] + body(line));
        assert forall|i: int| 0 <= i < more.len() implies #[trigger] text_of(more).starts[i]
            == text_of(lines).starts.push(text_of(lines).len() + 1)[i] by {
            if i < k {
                lemma_closed_same(lines, more, i);
            }
        }
        assert(text_of(more).starts =~= text_of(lines).starts.push(text_of(lines).len() + 1));
    }
}

proof fn lemma_closed_one(one: Seq<Seq<char>>)
    requires
        one.len() == 1,
    ensures
        closed_lines(one, 1) == body(one[0]).push('\n'),
{
    reveal_with_fuel(closed_lines, 2);
    assert(closed_lines(one, 1) =~= body(one[0]).push('\n'));
}

proof fn lemma_closed_same(xs: Seq<Seq<char>>, ys: Seq<Seq<char>>, k: int)
    requires
        k <= xs.len(),
        xs.len() <= ys.len(),
        forall|i: int| 0 <= i < xs.len() ==> xs[i] == ys[i],
    ensures
        closed_lines(xs, k) == closed_lines(ys, k),
    decreases k,
{
    if k > 0 {
        lemma_closed_same(xs, ys, k - 1);
    }
}

/// How many of the first `k` line starts lie behind `lo` and up to `hi`.
pub open spec fn starts_between(starts: Seq<int>, lo: int, hi: int, k: int) -> int
    decreases k,
{
    if k <= 0 {
        0
    } else if lo < starts[k - 1] <= hi {
        starts_between(starts, lo, hi, k - 1) + 1
    } else {
        starts_between(starts, lo, hi, k - 1)
    }
}

proof fn lemma_starts_between(starts: Seq<int>, lo: int, hi: int, k: int)
    requires
        1 <= k <= starts.len(),
        starts[0] <= lo <= hi,
        forall|i: int, j: int| 0 <= i < j < starts.len() ==> starts[i] < starts[j],
    ensures
        starts_between(starts, lo, hi, k) == last_start(starts, hi, k) - last_start(
            starts,
            lo,
            k,
        ),
    decreases k,
{
    if k == 1 {
        assert(starts_between(starts, lo, hi, 0) == 0);
    } else {
        lemma_starts_between(starts, lo, hi, k - 1);
        if starts[k - 1] <= hi {
            lemma_all_below(starts, hi, k - 1);
        }
        if starts[k - 1] <= lo {
            lemma_all_below(starts, lo, k - 1);
        }
    }
}

proof fn lemma_all_below(starts: Seq<int>, at: int, k: int)
    requires
        1 <= k < starts.len(),
        starts[k] <= at,
        forall|i: int, j: int| 0 <= i < j < starts.len() ==> starts[i] < starts[j],
    ensures
        last_start(starts, at, k) == k - 1,
{
    assert(starts[k - 1] < starts[k]);
}

/// The number of lines that a range goes beyond is the number of lines that
/// start behind its start, up to its end. A range is cut to the text for that.
pub proof fn lines_are_counted_by_their_starts(t: Text, range: Interval)
    requires
        t.wf(),
        range.start <= range.end,
        range.start <= t.len(),
    ensures
        t.lines_in(range) == starts_between(
            t.starts,
            if range.start < 0 {
                0
            } else {
                range.start
            },
            if range.end < 0 {
                0
            } else if range.end > t.len() {
                t.len()
            } else {
                range.end
            },
            t.starts.len() as int,
        ),
{
    lemma_starts_between(
        t.starts,
        clamp(range.start, 0, t.len()),
        clamp(range.end, 0, t.len()),
        t.starts.len() as int,
    );
}

/// A range widened to full lines starts at the last line start up to its start,
/// and ends at the first line start from its end on, or at the end of the text
/// if no line starts there.
pub proof fn full_lines_are_the_nearest(t: Text, range: Interval)
    requires
        t.wf(),
        range.within(t.len()),
    ensures
        ({
            let full = t.full_lines(range);
            &&& full.start <= range.start <= range.end <= full.end <= t.len()
            &&& t.starts.contains(full.start)
            &&& full.end == t.len() || t.starts.contains(full.end)
            &&& forall|i: int|
                0 <= i < t.starts.len() ==> !(full.start < #[trigger] t.starts[i] <= range.start)
            &&& forall|i: int|
                0 <= i < t.starts.len() ==> !(range.end <= #[trigger] t.starts[i] < full.end)
        }),
{
    let first = last_start(t.starts, range.start, t.starts.len() as int);
    let after = first_start(t.starts, range.end, 0);
    lemma_last_start(t.starts, range.start, t.starts.len() as int);
    lemma_first_start(t.starts, range.end, 0);
    assert(t.starts[first] == t.full_lines(range).start);
    assert forall|i: int| 0 <= i < t.starts.len() implies !(t.full_lines(range).start
        < #[trigger] t.starts[i] <= range.start) by {
        if i < first {
            assert(t.starts[i] < t.starts[first]);
        }
    }
    assert forall|i: int| 0 <= i < t.starts.len() implies !(range.end <= #[trigger] t.starts[i]
        < t.full_lines(range).end) by {
        if i >= after && after < t.starts.len() {
            assert(i > after ==> t.starts[after] < t.starts[i]);
        }
    }
}

/// The line that an offset falls on is the last one that starts up to it; an
/// offset outside of the text falls on its first or last line.
pub proof fn an_offset_falls_on_its_line(t: Text, at: int)
    requires
        t.wf(),
    ensures
        0 <= t.line_of(at) < t.starts.len(),
        at <= 0 ==> t.line_of(at) == 0,
        0 <= at ==> t.starts[t.line_of(at)] <= at,
        forall|i: int|
            t.line_of(at) < i < t.starts.len() && at <= t.len() ==> at < #[trigger] t.starts[i],
        at >= t.len() ==> t.line_of(at) == t.starts.len() - 1,
{
    let count = t.starts.len() as int;
    lemma_last_start(t.starts, clamp(at, 0, t.len()), count);
    let line = t.line_of(at);
    if at <= 0 && line > 0 {
        assert(t.starts[0] < t.starts[line]);
    }
    if at >= t.len() {
        assert(t.starts[count - 1] <= t.len());
    }
}

/// The word around an offset: there is one if a letter or a digit of ASCII
/// stands there; it goes on as long as such characters do, to both sides.
pub proof fn a_word_is_a_longest_run_of_word_characters(s: Seq<char>, at: int)
    ensures
        word_at(s, at) is Some <==> 0 <= at < s.len() && (('a' <= s[at] && s[at] <= 'z') || (
        'A' <= s[at] && s[at] <= 'Z') || ('0' <= s[at] && s[at] <= '9')),
        word_at(s, at) is Some ==> ({
            let w = word_at(s, at)->0;
            &&& 0 <= w.start <= at < w.end <= s.len()
            &&& forall|i: int|
                w.start <= i < w.end ==> ('a' <= #[trigger] s[i] && s[i] <= 'z') || ('A' <= s[i]
                    && s[i] <= 'Z') || ('0' <= s[i] && s[i] <= '9')
            &&& w.start > 0 ==> !word_char(s[w.start - 1])
            &&& w.end < s.len() ==> !word_char(s[w.end])
        }),
{
    if word_at(s, at) is Some {
        lemma_word_at(s, at);
        let w = word_at(s, at)->0;
        assert forall|i: int| w.start <= i < w.end implies ('a' <= #[trigger] s[i] && s[i] <= 'z')
            || ('A' <= s[i] && s[i] <= 'Z') || ('0' <= s[i] && s[i] <= '9') by {
            assert(word_char(element(s, i)));
        }
    }
}

proof fn lemma_trim_start(s: Seq<char>) -> (k: int)
    ensures
        0 <= k <= s.len(),
        trim_start(s) == s.skip(k),
        forall|i: int| 0 <= i < k ==> white(#[trigger] s[i]),
        k < s.len() ==> !white(s[k]),
    decreases s.len(),
{
    if s.len() > 0 && white(s[0]) {
        let rest = s.drop_first();
        let k = lemma_trim_start(rest);
        assert(rest.skip(k) =~= s.skip(k + 1));
        assert forall|i: int| 0 <= i < k + 1 implies white(#[trigger] s[i]) by {
            if i > 0 {
                assert(rest[i - 1] == s[i]);
            }
        }
        k + 1
    } else {
        assert(s.skip(0) =~= s);
        0
    }
}

proof fn lemma_trim_end(s: Seq<char>) -> (k: int)
    ensures
        0 <= k <= s.len(),
        trim_end(s) == s.take(k),
        forall|i: int| k <= i < s.len() ==> white(#[trigger] s[i]),
        k > 0 ==> !white(s[k - 1]),
    decreases s.len(),
{
    if s.len() > 0 && white(s.last()) {
        let rest = s.drop_last();
        let k = lemma_trim_end(rest);
        assert(rest.take(k) =~= s.take(k));
        assert forall|i: int| k <= i < s.len() implies white(#[trigger] s[i]) by {
            if i < rest.len() {
                assert(rest[i] == s[i]);
            }
        }
        k
    } else {
        assert(s.take(s.len() as int) =~= s);
        s.len() as int
    }
}

/// Trimming takes off the white space at both ends of a text, all of it, and
/// nothing else. Returns what is left, as a range.
pub proof fn trimming_takes_off_the_white_ends(s: Seq<char>) -> (range: Interval)
    ensures
        0 <= range.start <= range.end <= s.len(),
        trim(s) == s.subrange(range.start, range.end),
        forall|i: int| 0 <= i < range.start ==> white(#[trigger] s[i]),
        forall|i: int| range.end <= i < s.len() ==> white(#[trigger] s[i]),
        range.start < range.end ==> !white(s[range.start]) && !white(s[range.end - 1]),
{
    let k = lemma_trim_start(s);
    let rest = s.skip(k);
    let l = lemma_trim_end(rest);
    assert(rest.take(l) =~= s.subrange(k, k + l));
    assert forall|i: int| k + l <= i < s.len() implies white(#[trigger] s[i]) by {
        assert(rest[i - k] == s[i]);
    }
    if l > 0 {
        assert(rest[0] == s[k]);
    }
    Interval { start: k, end: k + l }
}

/// What a character counts towards a cut beside it; `None` is an end of the
/// text.
pub open spec fn cut_value(c: Option<char>) -> int {
    match c {
        None => 10,
        Some(c) => {
            if c == '\n' || c == '\r' {
                10
            } else if c == ',' || c == ';' {
                30
            } else if blank(c) {
                3
            } else if word_char(c) {
                0
            } else {
                2
            }
        },
    }
}

/// A space or a tab, or another of the blank characters that do not end a line.
pub open spec fn blank(c: char) -> bool {
    ||| c == ' ' || c == '\t' || c == '\u{b}' || c == '\u{c}' || c == '\u{a0}'
    ||| c == '\u{1680}' || '\u{2000}' <= c && c <= '\u{200a}' || c == '\u{2028}'
    ||| c == '\u{2029}' || c == '\u{202f}' || c == '\u{205f}' || c == '\u{3000}'
    ||| c == '\u{feff}'
}

/// Two characters are of one kind.
pub open spec fn alike(x: Option<char>, y: Option<char>) -> bool {
    match (x, y) {
        (None, None) => true,
        (Some(x), Some(y)) => {
            if word_char(x) || word_char(y) {
                ||| 'a' <= x && x <= 'z' && 'a' <= y && y <= 'z'
                ||| 'A' <= x && x <= 'Z' && 'A' <= y && y <= 'Z'
                ||| '0' <= x && x <= '9' && '0' <= y && y <= '9'
            } else if x == '\n' || y == '\n' || x == '\r' || y == '\r' {
                x == y
            } else {
                cut_value(Some(x)) == cut_value(Some(y))
            }
        },
        _ => false,
    }
}

/// How good it is to cut a text: 150 behind a line feed and 0 between a carriage
/// return and its line feed. Elsewhere it is what the two characters beside the
/// cut count, with 10 more if they are of different kinds, or 11 between a small
/// and a capital letter.
pub proof fn cuts_are_scored(s: Seq<char>, at: int)
    ensures
        ({
            let x = if at > 0 {
                Some(element(s, at - 1))
            } else {
                None
            };
            let y = if at < s.len() {
                Some(element(s, at))
            } else {
                None
            };
            let parts = cut_value(x) + cut_value(y);
            score_at(s, at) == (if x == Some('\n') {
                150
            } else if x == Some('\r') && y == Some('\n') {
                0
            } else if alike(x, y) {
                parts
            } else if small_then_capital(x, y) {
                parts + 11
            } else {
                parts + 10
            })
        }),
{
}

/// A small letter is followed by a capital one.
pub open spec fn small_then_capital(x: Option<char>, y: Option<char>) -> bool {
    match (x, y) {
        (Some(x), Some(y)) => 'a' <= x && x <= 'z' && 'A' <= y && y <= 'Z',
        _ => false,
    }
}

/// An offset outside of a text has the character `\0`, and a range is cut to the
/// text.
pub proof fn nothing_lies_outside_of_a_text(t: Text, range: Interval, at: int)
    requires
        range.start <= t.len(),
        0 <= range.end,
        range.start <= range.end,
    ensures
        0 <= at < t.len() ==> element(t.chars, at) == t.chars[at],
        at < 0 || at >= t.len() ==> element(t.chars, at) == '\0',
        ({
            let low = if range.start < 0 {
                0
            } else {
                range.start
            };
            let high = if range.end > t.len() {
                t.len()
            } else {
                range.end
            };
            &&& t.slice(range).len() == high - low
            &&& low <= at < high ==> t.slice(range)[at - low] == t.chars[at]
        }),
{
}

} // verus!
