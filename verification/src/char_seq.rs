//! One side of a block as a single sequence of characters.

use vstd::prelude::*;
use vstd::utf8::*;

use crate::chars::{
    boundary_category, category, category_boundary, category_weight, char_code, chars_of, code,
    element, is_word_char, word_char,
};
use crate::ranges::{clamp, greatest, least, Interval, OffsetRange};

verus! {

/// The longest sequence whose offsets leave room for every sum below. A
/// `Vec<char>` cannot hold more: its bytes are limited to `isize::MAX`.
pub const MAX_ELEMENTS: u64 = 0x1fff_ffff_ffff_ffff;

/// A character sequence with the offsets at which its lines start.
pub struct Text {
    pub chars: Seq<char>,
    pub starts: Seq<int>,
}

/// The last of the first `k` lines that starts at or before `at`; line 0 if
/// there is none.
pub open spec fn last_start(starts: Seq<int>, at: int, k: int) -> int
    decreases k,
{
    if k <= 1 {
        0
    } else if starts[k - 1] <= at {
        k - 1
    } else {
        last_start(starts, at, k - 1)
    }
}

/// The first line from line `k` on that starts at or after `at`; the number of
/// lines if there is none.
pub open spec fn first_start(starts: Seq<int>, at: int, k: int) -> int
    decreases starts.len() - k,
{
    if k >= starts.len() || at <= starts[k] {
        k
    } else {
        first_start(starts, at, k + 1)
    }
}

/// Where the run of word characters that ends at `at` starts.
pub open spec fn word_start(s: Seq<char>, at: int) -> int
    decreases at,
{
    if at > 0 && word_char(element(s, at - 1)) {
        word_start(s, at - 1)
    } else {
        at
    }
}

/// Where the run of word characters that starts at `at` ends.
pub open spec fn word_end(s: Seq<char>, at: int) -> int
    decreases s.len() - at,
{
    if at < s.len() && word_char(element(s, at)) {
        word_end(s, at + 1)
    } else {
        at
    }
}

/// The word around the character at `at`, if that is a word character.
pub open spec fn word_at(s: Seq<char>, at: int) -> Option<Interval> {
    if at < 0 || at >= s.len() || !word_char(element(s, at)) {
        None
    } else {
        Some(Interval { start: word_start(s, at), end: word_end(s, at) })
    }
}

/// How good a place `at` is for a change to start or end.
pub open spec fn score_at(s: Seq<char>, at: int) -> int {
    let prev = category(
        if at > 0 {
            code(element(s, at - 1))
        } else {
            -1
        },
    );
    let next = category(
        if at < s.len() {
            code(element(s, at))
        } else {
            -1
        },
    );
    if prev == 7 && next == 8 {
        0
    } else if prev == 8 {
        150
    } else {
        let kind = if prev == next {
            0
        } else if prev == 0 && next == 1 {
            11
        } else {
            10int
        };
        kind + category_weight(prev) + category_weight(next)
    }
}

impl Text {
    pub open spec fn len(self) -> int {
        self.chars.len() as int
    }

    /// There is a first line, it starts at 0, and no line starts before the one
    /// above it or past the end.
    pub open spec fn wf(self) -> bool {
        &&& self.starts.len() > 0
        &&& self.starts[0] == 0
        &&& forall|i: int, j: int|
            0 <= i < j < self.starts.len() ==> self.starts[i] < self.starts[j]
        &&& forall|i: int| 0 <= i < self.starts.len() ==> #[trigger] self.starts[i] <= self.len()
    }

    /// The line that an offset falls on.
    pub open spec fn line_of(self, at: int) -> int {
        last_start(self.starts, clamp(at, 0, self.len()), self.starts.len() as int)
    }

    /// How many line starts lie between the ends of a range.
    pub open spec fn lines_in(self, range: Interval) -> int {
        self.line_of(least(range.end, self.len())) - self.line_of(range.start)
    }

    /// The range of every line that a range touches.
    pub open spec fn full_lines(self, range: Interval) -> Interval {
        let after = first_start(self.starts, range.end, 0);
        Interval {
            start: self.starts[last_start(self.starts, range.start, self.starts.len() as int)],
            end: if after < self.starts.len() {
                self.starts[after]
            } else {
                self.len()
            },
        }
    }

    /// The characters of a range, cut to the sequence.
    pub open spec fn slice(self, range: Interval) -> Seq<char> {
        self.chars.subrange(greatest(range.start, 0), least(range.end, self.len()))
    }
}

pub proof fn lemma_last_start(starts: Seq<int>, at: int, k: int)
    requires
        1 <= k <= starts.len(),
    ensures
        0 <= last_start(starts, at, k) < k,
        starts[0] <= at ==> starts[last_start(starts, at, k)] <= at,
        forall|j: int| last_start(starts, at, k) < j < k ==> at < starts[j],
    decreases k,
{
    if k > 1 && starts[k - 1] > at {
        lemma_last_start(starts, at, k - 1);
    }
}

/// A line that starts at or before `at`, with every later line starting behind
/// it, is the line of `at`.
pub proof fn lemma_last_start_is(starts: Seq<int>, at: int, k: int, line: int)
    requires
        0 <= line < k <= starts.len(),
        starts[0] <= at,
        starts[line] <= at,
        forall|j: int| line < j < k ==> at < starts[j],
    ensures
        last_start(starts, at, k) == line,
    decreases k,
{
    if k > 1 && starts[k - 1] > at {
        lemma_last_start_is(starts, at, k - 1, line);
    }
}

pub proof fn lemma_first_start(starts: Seq<int>, at: int, k: int)
    requires
        0 <= k <= starts.len(),
    ensures
        k <= first_start(starts, at, k) <= starts.len(),
        first_start(starts, at, k) < starts.len() ==> at <= starts[first_start(starts, at, k)],
        forall|j: int| k <= j < first_start(starts, at, k) ==> starts[j] < at,
    decreases starts.len() - k,
{
    if !(k >= starts.len() || at <= starts[k]) {
        lemma_first_start(starts, at, k + 1);
    }
}

pub proof fn lemma_word_start(s: Seq<char>, at: int)
    requires
        0 <= at,
    ensures
        0 <= word_start(s, at) <= at,
        forall|i: int| word_start(s, at) <= i < at ==> word_char(#[trigger] element(s, i)),
        word_start(s, at) > 0 ==> !word_char(element(s, word_start(s, at) - 1)),
    decreases at,
{
    if at > 0 && word_char(element(s, at - 1)) {
        lemma_word_start(s, at - 1);
    }
}

pub proof fn lemma_word_end(s: Seq<char>, at: int)
    requires
        at <= s.len(),
    ensures
        at <= word_end(s, at) <= s.len(),
        forall|i: int| at <= i < word_end(s, at) ==> word_char(#[trigger] element(s, i)),
        word_end(s, at) < s.len() ==> !word_char(element(s, word_end(s, at))),
    decreases s.len() - at,
{
    if at < s.len() && word_char(element(s, at)) {
        lemma_word_end(s, at + 1);
    }
}

/// The word around `at` reaches from `w.start` to `w.end`.
pub proof fn lemma_word_at(s: Seq<char>, at: int)
    requires
        word_at(s, at) is Some,
    ensures
        ({
            let w = word_at(s, at)->0;
            &&& 0 <= w.start <= at < w.end <= s.len()
            &&& forall|i: int| w.start <= i < w.end ==> word_char(#[trigger] element(s, i))
            &&& w.start > 0 ==> !word_char(element(s, w.start - 1))
            &&& w.end < s.len() ==> !word_char(element(s, w.end))
        }),
{
    lemma_word_start(s, at);
    lemma_word_end(s, at + 1);
}

/// A line without the line feed that may end it.
pub open spec fn body(line: Seq<char>) -> Seq<char> {
    if line.len() > 0 && line.last() == '\n' {
        line.drop_last()
    } else {
        line
    }
}

/// The first `k` lines, each closed by a line feed.
pub open spec fn closed_lines(lines: Seq<Seq<char>>, k: int) -> Seq<char>
    decreases k,
{
    if k <= 0 {
        Seq::empty()
    } else {
        closed_lines(lines, k - 1) + body(lines[k - 1]).push('\n')
    }
}

/// The offset at which line `k` starts.
pub open spec fn line_offset(lines: Seq<Seq<char>>, k: int) -> int {
    closed_lines(lines, k).len() as int
}

/// The lines joined by line feeds.
pub open spec fn text_of(lines: Seq<Seq<char>>) -> Text {
    Text {
        chars: if lines.len() == 0 {
            Seq::empty()
        } else {
            closed_lines(lines, lines.len() - 1) + body(lines.last())
        },
        starts: Seq::new(lines.len(), |i: int| line_offset(lines, i)),
    }
}

/// The characters of each line.
pub open spec fn raw(lines: Seq<&str>) -> Seq<Seq<char>> {
    Seq::new(lines.len(), |i: int| lines[i]@)
}

pub proof fn lemma_closed_lines(lines: Seq<Seq<char>>, i: int, j: int)
    requires
        0 <= i < j <= lines.len(),
    ensures
        line_offset(lines, i) + body(lines[i]).len() + 1 <= line_offset(lines, j),
        closed_lines(lines, i) + body(lines[i]).push('\n') =~= closed_lines(lines, j).take(
            line_offset(lines, i) + body(lines[i]).len() + 1,
        ),
    decreases j,
{
    if i < j - 1 {
        lemma_closed_lines(lines, i, j - 1);
        assert(closed_lines(lines, j).take(line_offset(lines, j - 1)) =~= closed_lines(
            lines,
            j - 1,
        ));
    }
}

/// Where line `k` of a text stands, and what separates it from the next.
pub proof fn lemma_text_line(lines: Seq<Seq<char>>, k: int)
    requires
        0 <= k < lines.len(),
    ensures
        0 <= line_offset(lines, k),
        line_offset(lines, k) + body(lines[k]).len() <= text_of(lines).len(),
        text_of(lines).chars.subrange(
            line_offset(lines, k),
            line_offset(lines, k) + body(lines[k]).len(),
        ) == body(lines[k]),
        k + 1 < lines.len() ==> line_offset(lines, k + 1) == line_offset(lines, k) + body(
            lines[k],
        ).len() + 1 && text_of(lines).chars[line_offset(lines, k + 1) - 1] == '\n',
        k + 1 == lines.len() ==> text_of(lines).len() == line_offset(lines, k) + body(
            lines[k],
        ).len(),
{
    let t = text_of(lines);
    let n = lines.len() as int;
    let s = line_offset(lines, k);
    let e = s + body(lines[k]).len();
    if k + 1 < n {
        lemma_closed_lines(lines, k, n - 1);
        let all = closed_lines(lines, n - 1);
        let part = closed_lines(lines, k) + body(lines[k]).push('\n');
        assert(part == all.take(e + 1));
        assert(t.chars.subrange(s, e) =~= body(lines[k])) by {
            assert forall|x: int| 0 <= x < e - s implies t.chars.subrange(s, e)[x] == body(
                lines[k],
            )[x] by {
                assert(all.take(e + 1)[s + x] == part[s + x]);
            }
        }
        assert(all.take(e + 1)[e] == part[e]);
    } else {
        assert(t.chars.subrange(s, e) =~= body(lines[k]));
    }
}

/// The text of one or more lines is well formed.
pub proof fn lemma_text_of(lines: Seq<Seq<char>>)
    requires
        lines.len() > 0,
    ensures
        text_of(lines).wf(),
{
    let t = text_of(lines);
    assert forall|i: int, j: int| 0 <= i < j < t.starts.len() implies t.starts[i]
        < t.starts[j] by {
        lemma_closed_lines(lines, i, j);
    }
    assert forall|i: int| 0 <= i < t.starts.len() implies #[trigger] t.starts[i] <= t.len() by {
        lemma_text_line(lines, i);
    }
}

pub proof fn lemma_encode_concat(x: Seq<char>, y: Seq<char>)
    ensures
        encode_utf8(x + y) == encode_utf8(x) + encode_utf8(y),
    decreases x.len(),
{
    if x.len() == 0 {
        assert(x + y =~= y);
        assert(encode_utf8(x) + encode_utf8(y) =~= encode_utf8(y));
    } else {
        lemma_encode_concat(x.drop_first(), y);
        assert((x + y).drop_first() =~= x.drop_first() + y);
        assert(encode_utf8(x + y) =~= encode_utf8(x) + encode_utf8(y));
    }
}

pub proof fn lemma_encode_push(x: Seq<char>, c: char)
    ensures
        encode_utf8(x.push(c)) == encode_utf8(x) + encode_scalar(c as u32),
{
    let one = seq![c];
    assert(x.push(c) =~= x + one);
    lemma_encode_concat(x, one);
    assert(one.drop_first() =~= Seq::<char>::empty());
    assert(encode_utf8(one) =~= encode_scalar(c as u32)) by {
        reveal_with_fuel(encode_utf8, 2);
    }
}

/// The offset between two characters is a boundary, and splits the text there.
pub proof fn lemma_encode_boundary(x: Seq<char>, y: Seq<char>)
    ensures
        is_char_boundary(encode_utf8(x + y), encode_utf8(x).len() as int),
        encode_utf8(x + y).subrange(0, encode_utf8(x).len() as int) == encode_utf8(x),
        encode_utf8(x + y).subrange(
            encode_utf8(x).len() as int,
            encode_utf8(x + y).len() as int,
        ) == encode_utf8(y),
    decreases x.len(),
{
    broadcast use encode_utf8_valid_utf8;

    lemma_encode_concat(x, y);
    assert(encode_utf8(x + y).subrange(0, encode_utf8(x).len() as int) =~= encode_utf8(x));
    assert(encode_utf8(x + y).subrange(encode_utf8(x).len() as int, encode_utf8(x + y).len() as int)
        =~= encode_utf8(y));
    if x.len() > 0 {
        let bytes = encode_utf8(x + y);
        encode_utf8_first_scalar(x + y);
        assert((x + y).drop_first() =~= x.drop_first() + y);
        assert(pop_first_scalar(bytes) =~= encode_utf8(x.drop_first() + y));
        lemma_encode_boundary(x.drop_first(), y);
    }
}

pub proof fn lemma_encode_injective(x: Seq<char>, y: Seq<char>)
    requires
        encode_utf8(x) == encode_utf8(y),
    ensures
        x == y,
{
    encode_utf8_decode_utf8(x);
    encode_utf8_decode_utf8(y);
}

/// How many bytes a character takes in UTF-8.
fn utf8_width(c: char) -> (width: usize)
    ensures
        width == encode_scalar(c as u32).len(),
{
    let value: u32 = c as u32;
    if value <= 0x7f {
        1
    } else if value <= 0x7ff {
        2
    } else if value <= 0xffff {
        3
    } else {
        4
    }
}

/// One side of a block: its lines joined by `\n` elements.
pub struct CharSeq {
    /// Characters of the lines without their line feeds, separated by `'\n'`.
    pub elements: Vec<char>,
    /// Offset at which the text of each line starts.
    pub line_start: Vec<usize>,
    /// Offset just past the text of each line: its separator, or the end.
    pub line_trimmed_end: Vec<usize>,
    /// Per line: the byte offset of each character, then the length in bytes.
    pub char_bytes: Vec<Vec<usize>>,
}

impl View for CharSeq {
    type V = Text;

    open spec fn view(&self) -> Text {
        Text {
            chars: self.elements@,
            starts: Seq::new(self.line_start@.len(), |i: int| self.line_start@[i] as int),
        }
    }
}

impl CharSeq {
    /// The lines are in order, and offsets have room to be added up.
    pub open spec fn wf(&self) -> bool {
        self@.wf() && self@.len() <= MAX_ELEMENTS
    }

    /// The sequence was made of these lines.
    pub open spec fn models(&self, lines: Seq<Seq<char>>) -> bool {
        &&& self@ == text_of(lines)
        &&& self.line_trimmed_end@.len() == lines.len()
        &&& self.char_bytes@.len() == lines.len()
        &&& forall|k: int|
            0 <= k < lines.len() ==> #[trigger] self.line_trimmed_end@[k] == line_offset(lines, k)
                + body(lines[k]).len()
        &&& forall|k: int|
            0 <= k < lines.len() ==> offsets_of(#[trigger] self.char_bytes@[k]@, lines[k])
    }
}

/// `offsets` are the byte offsets of `line`.
pub open spec fn offsets_of(offsets: Seq<usize>, line: Seq<char>) -> bool {
    &&& offsets.len() == line.len() + 1
    &&& forall|i: int|
        0 <= i <= line.len() ==> #[trigger] offsets[i] == encode_utf8(line.take(i)).len()
}

/// The byte offsets of the characters of `line`, whose characters are `chars`.
fn offsets_in(line: &str, chars: &Vec<char>) -> (offsets: Vec<usize>)
    requires
        chars@ == line@,
    ensures
        offsets_of(offsets@, line@),
{
    let total: usize = line.as_bytes().len();
    let mut offsets: Vec<usize> = Vec::new();
    let mut at: usize = 0;
    let mut i: usize = 0;
    assert(line@.take(0) =~= Seq::<char>::empty());
    while i < chars.len()
        invariant
            i <= chars.len(),
            chars@ == line@,
            total == encode_utf8(line@).len(),
            at == encode_utf8(line@.take(i as int)).len(),
            offsets@.len() == i,
            forall|k: int|
                0 <= k < i ==> #[trigger] offsets@[k] == encode_utf8(line@.take(k)).len(),
        decreases chars.len() - i,
    {
        offsets.push(at);
        proof {
            let head = line@.take(i + 1);
            assert(head =~= line@.take(i as int).push(line@[i as int]));
            lemma_encode_push(line@.take(i as int), line@[i as int]);
            assert(line@ =~= head + line@.skip(i + 1));
            lemma_encode_concat(head, line@.skip(i + 1));
        }
        at = at + utf8_width(chars[i]);
        i = i + 1;
    }
    offsets.push(at);
    offsets
}

impl CharSeq {
    /// Joins the lines, leaving out the one line feed that may end each.
    pub fn new(lines: &[&str]) -> (seq: CharSeq)
        ensures
            seq.models(raw(lines@)),
    {
        let mut elements: Vec<char> = Vec::new();
        let mut line_start: Vec<usize> = Vec::new();
        let mut line_trimmed_end: Vec<usize> = Vec::new();
        let mut char_bytes: Vec<Vec<usize>> = Vec::new();
        let mut at: usize = 0;
        let ghost all = raw(lines@);
        while at < lines.len()
            invariant
                at <= lines.len(),
                all == raw(lines@),
                elements@ == (if at == lines.len() {
                    text_of(all).chars
                } else {
                    closed_lines(all, at as int)
                }),
                line_start@.len() == at,
                line_trimmed_end@.len() == at,
                char_bytes@.len() == at,
                forall|k: int| 0 <= k < at ==> #[trigger] line_start@[k] == line_offset(all, k),
                forall|k: int|
                    0 <= k < at ==> #[trigger] line_trimmed_end@[k] == line_offset(all, k) + body(
                        all[k],
                    ).len(),
                forall|k: int|
                    0 <= k < at ==> offsets_of(#[trigger] char_bytes@[k]@, all[k]),
            decreases lines.len() - at,
        {
            let line: &str = lines[at];
            let chars: Vec<char> = chars_of(line);
            assert(all[at as int] == line@);
            char_bytes.push(offsets_in(line, &chars));
            let count: usize = if chars.len() > 0 && chars[chars.len() - 1] == '\n' {
                chars.len() - 1
            } else {
                chars.len()
            };
            let ghost text = body(line@);
            assert(chars@.take(count as int) =~= text);
            line_start.push(elements.len());
            let ghost before = elements@;
            let mut i: usize = 0;
            while i < count
                invariant
                    i <= count <= chars@.len(),
                    text == chars@.take(count as int),
                    elements@ =~= before + text.take(i as int),
                decreases count - i,
            {
                elements.push(chars[i]);
                i = i + 1;
            }
            assert(text.take(count as int) =~= text);
            line_trimmed_end.push(elements.len());
            if at < lines.len() - 1 {
                elements.push('\n');
                assert(elements@ =~= before + text.push('\n'));
            }
            at = at + 1;
        }
        let seq = CharSeq { elements, line_start, line_trimmed_end, char_bytes };
        assert(seq@.starts =~= text_of(all).starts);
        seq
    }

    pub fn length(&self) -> (length: i64)
        requires
            self@.len() <= MAX_ELEMENTS,
        ensures
            length == self@.len(),
    {
        self.elements.len() as i64
    }

    /// Character at `offset`; `'\0'` out of range, so that two offsets out of
    /// range compare equal.
    pub fn element(&self, offset: i64) -> (c: char)
        ensures
            c == element(self@.chars, offset as int),
    {
        if 0 <= offset && (offset as u64) < self.elements.len() as u64 {
            self.elements[offset as usize]
        } else {
            '\0'
        }
    }

    pub fn is_strongly_equal(&self, offset1: i64, offset2: i64) -> (equal: bool)
        ensures
            equal == (element(self@.chars, offset1 as int) == element(
                self@.chars,
                offset2 as int,
            )),
    {
        self.element(offset1) == self.element(offset2)
    }

    /// The characters of a range, cut to the sequence.
    pub fn text(&self, range: OffsetRange) -> (chars: Vec<char>)
        requires
            0 <= range.end,
            greatest(range@.start, 0) <= least(range@.end, self@.len()),
        ensures
            chars@ == self@.slice(range@),
    {
        let start: usize = if range.start < 0 {
            0
        } else {
            range.start as usize
        };
        let end: usize = if (range.end as u64) < self.elements.len() as u64 {
            range.end as usize
        } else {
            self.elements.len()
        };
        let mut chars: Vec<char> = Vec::new();
        let mut i: usize = start;
        while i < end
            invariant
                start <= i <= end <= self.elements@.len(),
                chars@ =~= self.elements@.subrange(start as int, i as int),
            decreases end - i,
        {
            chars.push(self.elements[i]);
            i = i + 1;
        }
        chars
    }

    /// The line that an offset falls on.
    pub fn line_of(&self, offset: i64) -> (line: usize)
        requires
            self.wf(),
        ensures
            line == self@.line_of(offset as int),
            line < self@.starts.len(),
    {
        let length: i64 = self.length();
        let at: i64 = if offset < 0 {
            0
        } else if offset > length {
            length
        } else {
            offset
        };
        let mut low: usize = 0;
        let mut high: usize = self.line_start.len() - 1;
        let ghost starts = self@.starts;
        while low < high
            invariant
                low <= high < self.line_start@.len(),
                0 <= at,
                self.wf(),
                starts == self@.starts,
                starts[low as int] <= at,
                forall|j: int| high < j < starts.len() ==> at < starts[j],
            decreases high - low,
        {
            let mid: usize = high - (high - low) / 2;
            assert(starts[mid as int] == self.line_start@[mid as int]);
            if self.line_start[mid] as u64 <= at as u64 {
                low = mid;
            } else {
                high = mid - 1;
            }
        }
        proof {
            lemma_last_start_is(starts, at as int, starts.len() as int, low as int);
        }
        low
    }

    /// How many line starts lie between the ends of a range.
    pub fn count_lines_in(&self, range: OffsetRange) -> (count: usize)
        requires
            self.wf(),
            0 <= self@.lines_in(range@),
        ensures
            count == self@.lines_in(range@),
    {
        let length: i64 = self.length();
        let end: i64 = if range.end < length {
            range.end
        } else {
            length
        };
        self.line_of(end) - self.line_of(range.start)
    }

    /// The element range of every line that the range touches.
    pub fn extend_to_full_lines(&self, range: OffsetRange) -> (full: OffsetRange)
        requires
            self.wf(),
        ensures
            full@ == self@.full_lines(range@),
    {
        let ghost starts = self@.starts;
        let n: usize = self.line_start.len();
        let mut start_line: usize = 0;
        let mut at: usize = 1;
        while at < n
            invariant
                1 <= at <= n == self.line_start@.len(),
                self.wf(),
                starts == self@.starts,
                start_line < n,
                start_line == last_start(starts, range.start as int, at as int),
            decreases n - at,
        {
            assert(starts[at as int] == self.line_start@[at as int]);
            if self.line_start[at] as i64 <= range.start {
                start_line = at;
            }
            at = at + 1;
        }
        let mut after: usize = 0;
        assert(starts[0] == self.line_start@[0]);
        while after < n && range.end > self.line_start[after] as i64
            invariant
                after <= n == self.line_start@.len(),
                self.wf(),
                starts == self@.starts,
                first_start(starts, range.end as int, 0) == first_start(
                    starts,
                    range.end as int,
                    after as int,
                ),
            decreases n - after,
        {
            assert(starts[after as int] == self.line_start@[after as int]);
            after = after + 1;
        }
        assert(after < n ==> starts[after as int] == self.line_start@[after as int]);
        assert(starts[start_line as int] == self.line_start@[start_line as int]);
        OffsetRange {
            start: self.line_start[start_line] as i64,
            end: if after < n {
                self.line_start[after] as i64
            } else {
                self.length()
            },
        }
    }

    /// The run of ASCII letters and digits around an offset.
    pub fn find_word_containing(&self, offset: i64) -> (word: Option<OffsetRange>)
        requires
            self@.len() <= MAX_ELEMENTS,
        ensures
            match word {
                Some(range) => word_at(self@.chars, offset as int) == Some(range@),
                None => word_at(self@.chars, offset as int) is None,
            },
    {
        let length: i64 = self.length();
        if offset < 0 || offset >= length || !is_word_char(char_code(self.element(offset))) {
            return None;
        }
        let ghost s = self@.chars;
        let mut start: i64 = offset;
        while start > 0 && is_word_char(char_code(self.element(start - 1)))
            invariant
                0 <= start <= offset,
                s == self@.chars,
                word_start(s, offset as int) == word_start(s, start as int),
            decreases start,
        {
            start = start - 1;
        }
        let mut end: i64 = offset;
        while end < length && is_word_char(char_code(self.element(end)))
            invariant
                offset <= end <= length == s.len(),
                s == self@.chars,
                word_end(s, offset as int) == word_end(s, end as int),
            decreases length - end,
        {
            end = end + 1;
        }
        Some(OffsetRange { start, end })
    }

    /// How good a place `length` is for a change to start or end: the category
    /// table that anchors where an insertion is put.
    pub fn boundary_score(&self, length: i64) -> (score: i64)
        requires
            self@.len() <= MAX_ELEMENTS,
        ensures
            score == score_at(self@.chars, length as int),
            0 <= score <= 150,
    {
        let prev: i64 = if length > 0 {
            char_code(self.element(length - 1))
        } else {
            -1
        };
        let next: i64 = if length < self.length() {
            char_code(self.element(length))
        } else {
            -1
        };
        let prev_cat: i64 = boundary_category(prev);
        let next_cat: i64 = boundary_category(next);
        if prev_cat == 7 && next_cat == 8 {
            return 0;
        }
        if prev_cat == 8 {
            return 150;
        }
        let mut score: i64 = 0;
        if prev_cat != next_cat {
            score = score + 10;
            if prev_cat == 0 && next_cat == 1 {
                score = score + 1;
            }
        }
        score = score + category_boundary(prev_cat);
        score = score + category_boundary(next_cat);
        score
    }

    /// The characters `a..b` of a line, by its byte offsets.
    pub fn slice<'a>(line: &'a str, bytes: &[usize], a: usize, b: usize) -> (piece: &'a str)
        requires
            offsets_of(bytes@, line@),
            a <= b <= line@.len(),
        ensures
            piece@ == line@.subrange(a as int, b as int),
    {
        broadcast use encode_utf8_valid_utf8;

        let ghost head = line@.take(b as int);
        let ghost lead = line@.take(a as int);
        proof {
            assert(line@ =~= head + line@.skip(b as int));
            lemma_encode_boundary(head, line@.skip(b as int));
            assert(head =~= lead + line@.subrange(a as int, b as int));
            lemma_encode_boundary(lead, line@.subrange(a as int, b as int));
        }
        let upto: &'a str = line.split_at(bytes[b]).0;
        proof {
            lemma_encode_injective(upto@, head);
        }
        let piece: &'a str = upto.split_at(bytes[a]).1;
        proof {
            lemma_encode_injective(piece@, line@.subrange(a as int, b as int));
        }
        piece
    }
}

/// A range that does not end before it starts goes on for no line or more.
pub proof fn lemma_lines_in(t: Text, range: Interval)
    requires
        t.wf(),
        range.start <= range.end,
        range.start <= t.len(),
    ensures
        0 <= t.lines_in(range),
{
    let n = t.starts.len() as int;
    lemma_last_start(t.starts, clamp(range.start, 0, t.len()), n);
    lemma_last_start(t.starts, clamp(least(range.end, t.len()), 0, t.len()), n);
}

} // verus!
