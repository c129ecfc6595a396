//! Lines rendered with placeholders for bars.

use vstd::prelude::*;
use vstd::string::*;
use vstd::utf8::*;

use crate::spans::{pieces, DiffSpan, Mark, Piece};

verus! {

/// A line widened by one-cell placeholders for bars. `ranges` gives, for each
/// rendered piece in order, its emphasis and its start and end in `text`, in
/// bytes. Bars whose counterpart has a line of its own are left out.
pub struct WidenedLine {
    pub text: String,
    pub ranges: Vec<(Option<Mark>, usize, usize)>,
}

/// A rendered line: its text, and for each rendered piece its emphasis and the
/// byte offsets between which it stands.
pub struct Rendered {
    pub text: Seq<char>,
    pub ranges: Seq<(Option<Mark>, int, int)>,
}

/// The ranges of a line, over unbounded integers.
pub open spec fn plain_ranges(ranges: Seq<(Option<Mark>, usize, usize)>) -> Seq<
    (Option<Mark>, int, int),
> {
    Seq::new(ranges.len(), |i: int| (ranges[i].0, ranges[i].1 as int, ranges[i].2 as int))
}

impl View for WidenedLine {
    type V = Rendered;

    open spec fn view(&self) -> Rendered {
        Rendered { text: self.text@, ranges: plain_ranges(self.ranges@) }
    }
}

/// What a bar is rendered as: the blank Braille pattern. It shows an empty cell
/// but is no white space, so it is not taken for white space at the end of the
/// line.
pub open spec fn placeholder() -> Seq<char> {
    seq!['\u{2800}']
}

/// What a span is rendered as; nothing for a bar whose counterpart has a line of
/// its own.
pub open spec fn rendering(p: Piece) -> Option<Seq<char>> {
    if p.text.len() > 0 {
        Some(p.text)
    } else if p.mark is Some && !p.spans_line {
        Some(placeholder())
    } else {
        None
    }
}

/// The number of bytes of a text in UTF-8.
pub open spec fn byte_len(s: Seq<char>) -> int {
    encode_utf8(s).len() as int
}

/// The line that the spans are rendered to.
pub open spec fn rendered(ps: Seq<Piece>) -> Rendered
    decreases ps.len(),
{
    if ps.len() == 0 {
        Rendered { text: Seq::empty(), ranges: Seq::empty() }
    } else {
        let head = rendered(ps.drop_last());
        match rendering(ps.last()) {
            Some(shown) => {
                let text = head.text + shown;
                Rendered {
                    text,
                    ranges: head.ranges.push(
                        (ps.last().mark, byte_len(head.text), byte_len(text)),
                    ),
                }
            },
            None => head,
        }
    }
}

/// Appends a piece of text with its range.
fn append_piece(line: &mut WidenedLine, mark: Option<Mark>, piece: &str)
    ensures
        final(line)@.text == old(line)@.text + piece@,
        final(line)@.ranges == old(line)@.ranges.push(
            (mark, byte_len(old(line)@.text), byte_len(old(line)@.text + piece@)),
        ),
{
    let ghost before = line.ranges@;
    let start: usize = line.text.as_str().as_bytes().len();
    line.text.append(piece);
    let end: usize = line.text.as_str().as_bytes().len();
    line.ranges.push((mark, start, end));
    assert(plain_ranges(line.ranges@) =~= plain_ranges(before).push(
        (mark, start as int, end as int),
    ));
}

/// Renders the spans of one line.
pub fn widen_line(spans: &[DiffSpan]) -> (line: WidenedLine)
    ensures
        line@ == rendered(pieces(spans@)),
{
    let mut line: WidenedLine = WidenedLine { text: String::new(), ranges: Vec::new() };
    let ghost ps = pieces(spans@);
    let mut i: usize = 0;
    assert(plain_ranges(line.ranges@) =~= Seq::<(Option<Mark>, int, int)>::empty());
    assert(line.text@ =~= Seq::<char>::empty());
    while i < spans.len()
        invariant
            i <= spans@.len(),
            ps == pieces(spans@),
            line@ == rendered(ps.take(i as int)),
        decreases spans@.len() - i,
    {
        let span: &DiffSpan = &spans[i];
        proof {
            assert(ps.take(i + 1).drop_last() =~= ps.take(i as int));
            assert(ps.take(i + 1).last() == span@);
        }
        if span.text.is_empty() {
            if span.mark.is_some() && !span.spans_line {
                proof {
                    reveal_strlit("\u{2800}");
                    assert("\u{2800}"@ =~= placeholder());
                }
                append_piece(&mut line, span.mark, "\u{2800}");
            }
        } else {
            append_piece(&mut line, span.mark, span.text);
        }
        i = i + 1;
    }
    assert(ps.take(i as int) =~= ps);
    line
}

} // verus!
