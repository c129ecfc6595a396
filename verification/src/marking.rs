//! Which blocks are compared by characters, and which text is marked.

use vstd::prelude::*;

use crate::block::{by_lines, refined, white_pairs};
use crate::char_seq::{body, line_offset, text_of};
use crate::chars::{element, trim, white};
use crate::equality::equal_blocks_carry_no_marks;
use crate::laws::{lemma_cut_at, lines_of, pieces_of, spoken};
use crate::ranges::{greatest, Edit};
use crate::spans::{
    bars_on, has_separator, lemma_line_of, line_mask, line_pieces, marked, marks_at, other, own,
    own_mark, pair_at, Mark, Piece,
};

verus! {

/// Two runs with at least one line each are compared by characters where the
/// lengths of their joined texts have a product of at most 25 000 000, and
/// marked by whole lines where the product is larger. (No vector of characters
/// is longer than the other bound.)
pub proof fn blocks_up_to_the_limit_are_compared(del: Seq<Seq<char>>, add: Seq<Seq<char>>)
    requires
        del.len() > 0,
        add.len() > 0,
        text_of(del).len() <= 0x1fff_ffff_ffff_ffff,
        text_of(add).len() <= 0x1fff_ffff_ffff_ffff,
    ensures
        text_of(del).len() * text_of(add).len() <= 25_000_000 ==> !by_lines(del, add),
        text_of(del).len() * text_of(add).len() > 25_000_000 ==> by_lines(del, add),
{
}

/// Where a side has no lines, or the product of the lengths is above
/// 25 000 000, every line is one span with the mark of its side; an empty line
/// has none.
pub proof fn blocks_beyond_the_limit_are_marked_by_lines(
    del: Seq<Seq<char>>,
    add: Seq<Seq<char>>,
    k: int,
)
    requires
        del.len() == 0 || add.len() == 0 || text_of(del).len() * text_of(add).len() > 25_000_000,
    ensures
        0 <= k < del.len() ==> pieces_of(del, add, true)[k] == (if del[k].len() == 0 {
            Seq::<Piece>::empty()
        } else {
            seq![Piece { text: del[k], mark: Some(Mark::Del), spans_line: false }]
        }),
        0 <= k < add.len() ==> pieces_of(del, add, false)[k] == (if add[k].len() == 0 {
            Seq::<Piece>::empty()
        } else {
            seq![Piece { text: add[k], mark: Some(Mark::Ins), spans_line: false }]
        }),
{
}

/// Two equal runs of lines whose joined text is at most 5000 characters long
/// carry no marks and no bars.
pub proof fn equal_blocks_up_to_the_limit_carry_no_marks(
    lines: Seq<Seq<char>>,
    left: bool,
    k: int,
    p: int,
)
    requires
        text_of(lines).len() <= 5000,
        0 <= k < lines.len(),
        0 <= p < pieces_of(lines, lines, left)[k].len(),
    ensures
        pieces_of(lines, lines, left)[k][p].mark is None,
{
    let n = text_of(lines).len();
    assert(n * n <= 25_000_000) by (nonlinear_arith)
        requires
            0 <= n <= 5000,
    ;
    blocks_up_to_the_limit_are_compared(lines, lines);
    equal_blocks_carry_no_marks(lines, left, k, p);
}

/// A change covers the character at `at` of the text of one side.
pub open spec fn covers_at(e: Edit, left: bool, at: int) -> bool {
    if left {
        e.a.start <= at < e.a.end
    } else {
        e.b.start <= at < e.b.end
    }
}

/// A change has nothing on the other side.
pub open spec fn against_nothing(e: Edit, left: bool) -> bool {
    if left {
        e.b.end <= e.b.start
    } else {
        e.a.end <= e.a.start
    }
}

/// A change has a line separator on the other side, whose text is `u`.
pub open spec fn against_a_line_break(u: Seq<char>, e: Edit, left: bool) -> bool {
    exists|j: int|
        0 <= j < u.len() && (if left {
            e.b.start <= j < e.b.end
        } else {
            e.a.start <= j < e.a.end
        }) && #[trigger] u[j] == '\n'
}

pub proof fn lemma_separator(u: Seq<char>, e: Edit, left: bool)
    ensures
        has_separator(u, other(e, left)) <==> against_a_line_break(u, e, left),
{
    let range = other(e, left);
    if has_separator(u, range) {
        let k = choose|k: int|
            greatest(range.start, 0) <= k < range.end
                && #[trigger] element(u, k) == '\n';
        assert(u[k] == '\n');
    }
    if against_a_line_break(u, e, left) {
        let j = choose|j: int|
            0 <= j < u.len() && (if left {
                e.b.start <= j < e.b.end
            } else {
                e.a.start <= j < e.a.end
            }) && #[trigger] u[j] == '\n';
        assert(element(u, j) == '\n');
    }
}

/// The span of character `at` of line `k`, and its mark.
proof fn lemma_mark_at(del: Seq<Seq<char>>, add: Seq<Seq<char>>, left: bool, k: int, at: int) -> (p:
    int)
    requires
        !by_lines(del, add),
        0 <= k < lines_of(del, add, left).len(),
        0 <= at < lines_of(del, add, left)[k].len(),
    ensures
        ({
            let lines = lines_of(del, add, left);
            let others = lines_of(del, add, !left);
            let es = refined(text_of(del), text_of(add));
            let spans = pieces_of(del, add, left)[k];
            let before = spoken(spans.take(p)).len();
            let x = line_offset(lines, k) + at;
            let pair = pair_at(white_pairs(lines, others), k);
            &&& 0 <= p < spans.len()
            &&& before <= at < before + spans[p].text.len()
            &&& spans[p].mark == (if at < body(lines[k]).len() && marked(
                text_of(lines).chars,
                text_of(others).chars,
                es,
                left,
                pair,
                x,
            ) {
                Some(own_mark(left))
            } else {
                None
            })
            &&& at < body(lines[k]).len() ==> text_of(lines).chars[x] == lines[k][at]
        }),
{
    let lines = lines_of(del, add, left);
    let others = lines_of(del, add, !left);
    let es = refined(text_of(del), text_of(add));
    let pair = pair_at(white_pairs(lines, others), k);
    let t = text_of(lines);
    let u = text_of(others);
    if at < body(lines[k]).len() {
        lemma_line_of(lines, k, at);
    }
    assert(pieces_of(del, add, left)[k] == line_pieces(lines, u, es, left, pair, k));
    lemma_cut_at(
        lines[k],
        line_mask(lines, t, u, es, left, pair, k),
        bars_on(lines, t, u, es, left, k, es.len() as int),
        left,
        0,
        0,
        at,
    )
}

/// Which text is marked. The line feed that may end a line never is. Of the
/// other characters, one that change `d` covers is marked with the mark of its
/// side if it is no white space; if the other side has a line at the same place
/// that differs by the white space around it at most; if the change has nothing
/// on the other side; or if it has a line separator there.
pub proof fn covered_text_is_marked(
    del: Seq<Seq<char>>,
    add: Seq<Seq<char>>,
    left: bool,
    k: int,
    at: int,
    d: int,
) -> (p: int)
    requires
        !by_lines(del, add),
        0 <= k < lines_of(del, add, left).len(),
        0 <= at < lines_of(del, add, left)[k].len(),
        0 <= d < refined(text_of(del), text_of(add)).len(),
    ensures
        ({
            let lines = if left {
                del
            } else {
                add
            };
            let others = if left {
                add
            } else {
                del
            };
            let e = refined(text_of(del), text_of(add))[d];
            let spans = pieces_of(del, add, left)[k];
            let before = spoken(spans.take(p)).len();
            let feed = at == lines[k].len() - 1 && lines[k][at] == '\n';
            let own_side = if left {
                Some(Mark::Del)
            } else {
                Some(Mark::Ins)
            };
            &&& 0 <= p < spans.len()
            &&& before <= at < before + spans[p].text.len()
            &&& feed ==> spans[p].mark is None
            &&& !feed && covers_at(e, left, line_offset(lines, k) + at) && (!white(lines[k][at])
                || (k < others.len() && trim(lines[k]) == trim(others[k])) || against_nothing(
                e,
                left,
            ) || against_a_line_break(text_of(others).chars, e, left)) ==> spans[p].mark
                == own_side
        }),
{
    let lines = lines_of(del, add, left);
    let others = lines_of(del, add, !left);
    let es = refined(text_of(del), text_of(add));
    let e = es[d];
    let x = line_offset(lines, k) + at;
    let p = lemma_mark_at(del, add, left, k, at);
    lemma_separator(text_of(others).chars, e, left);
    if at < body(lines[k]).len() && covers_at(e, left, x) {
        assert(own(e, left).has(x));
        assert(marks_at(
            text_of(lines).chars,
            text_of(others).chars,
            es[d],
            left,
            pair_at(white_pairs(lines, others), k),
            x,
        ) || white(lines[k][at]));
    }
    p
}

/// Which white space is not marked: white space that no change covers, and, on
/// a line without a counterpart that differs by white space alone, white space
/// that only stands against other text without a line separator.
pub proof fn other_text_is_not_marked(
    del: Seq<Seq<char>>,
    add: Seq<Seq<char>>,
    left: bool,
    k: int,
    at: int,
) -> (p: int)
    requires
        !by_lines(del, add),
        0 <= k < lines_of(del, add, left).len(),
        0 <= at < lines_of(del, add, left)[k].len(),
        ({
            let lines = if left {
                del
            } else {
                add
            };
            let others = if left {
                add
            } else {
                del
            };
            let es = refined(text_of(del), text_of(add));
            forall|d: int|
                0 <= d < es.len() && covers_at(
                    #[trigger] es[d],
                    left,
                    line_offset(lines, k) + at,
                ) ==> white(lines[k][at]) && !(k < others.len() && trim(lines[k]) == trim(
                    others[k],
                )) && !against_nothing(es[d], left) && !against_a_line_break(
                    text_of(others).chars,
                    es[d],
                    left,
                )
        }),
    ensures
        ({
            let spans = pieces_of(del, add, left)[k];
            let before = spoken(spans.take(p)).len();
            &&& 0 <= p < spans.len()
            &&& before <= at < before + spans[p].text.len()
            &&& spans[p].mark is None
        }),
{
    let lines = lines_of(del, add, left);
    let others = lines_of(del, add, !left);
    let es = refined(text_of(del), text_of(add));
    let x = line_offset(lines, k) + at;
    let pair = pair_at(white_pairs(lines, others), k);
    let t = text_of(lines).chars;
    let u = text_of(others).chars;
    let p = lemma_mark_at(del, add, left, k, at);
    if at < body(lines[k]).len() && marked(t, u, es, left, pair, x) {
        let d = choose|d: int|
            0 <= d < es.len() && marks_at(t, u, #[trigger] es[d], left, pair, x);
        lemma_separator(u, es[d], left);
        assert(covers_at(es[d], left, x));
    }
    p
}

} // verus!
