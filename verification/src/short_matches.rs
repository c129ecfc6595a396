//! Joining changes across very short matches, and widening them to whole lines.

use vstd::prelude::*;

use crate::band::{covers, held, inside};
use crate::char_seq::{
    last_start, lemma_first_start, lemma_last_start, lemma_lines_in, CharSeq, Text, MAX_ELEMENTS,
};
use crate::chars::{trim, trim_bounds};
use crate::matching::{
    aligned, compares, lemma_aligned_at, lemma_aligned_extend, lemma_aligned_push,
    lemma_aligned_take,
};
use crate::ranges::{
    delta_end_diff, delta_start_diff, edits, fits, gap, intersect_diffs, join_diffs,
    lemma_edits_push, lemma_edits_update, ordered, Edit, Interval, OffsetRange, SequenceDiff,
};
use crate::weight::{are_heavy, change_weight, counts, heavy, range_counts, weight};

verus! {

/// A list with each change joined to the one before it where `joins` says so.
pub open spec fn join_where(es: Seq<Edit>, joins: spec_fn(Edit, Edit) -> bool) -> Seq<Edit>
    decreases es.len(),
{
    if es.len() == 0 {
        es
    } else {
        let done = join_where(es.drop_last(), joins);
        let next = es.last();
        if done.len() > 0 && joins(done.last(), next) {
            done.drop_last().push(done.last().hull(next))
        } else {
            done.push(next)
        }
    }
}

/// At most one element lies between two changes, on one side at least.
pub open spec fn close_by(last: Edit, next: Edit) -> bool {
    next.a.start - last.a.end <= 1 || next.b.start - last.b.end <= 1
}

/// Changes joined across matches of at most one element.
pub open spec fn without_short(es: Seq<Edit>) -> Seq<Edit> {
    join_where(es, |last: Edit, next: Edit| close_by(last, next))
}

/// The text between two changes is short: it goes on for few lines and
/// characters, and without the white space around it stays on one line.
pub open spec fn short_between(t: Text, last: Edit, next: Edit) -> bool {
    let range = Interval { start: last.a.end, end: next.a.start };
    let text = trim(t.slice(range));
    &&& t.lines_in(range) <= 5
    &&& range.len() <= 500
    &&& text.len() <= 20
    &&& !text.contains('\n')
}

/// What a change weighs.
pub open spec fn weight_of(t: Text, u: Text, e: Edit) -> int {
    weight(counts(t.lines_in(e.a), e.a.len()), counts(u.lines_in(e.b), e.b.len()))
}

/// Two changes are heavy, and little text lies between them.
pub open spec fn pulled_together(t: Text, u: Text, last: Edit, next: Edit) -> bool {
    short_between(t, last, next) && heavy(weight_of(t, u, last), weight_of(t, u, next))
}

/// Heavy changes joined across short text, once.
pub open spec fn pulled(t: Text, u: Text, es: Seq<Edit>) -> Seq<Edit> {
    join_where(es, |last: Edit, next: Edit| pulled_together(t, u, last, next))
}

/// Heavy changes joined across short text until nothing changes, at most `k`
/// times.
pub open spec fn pulled_up_to(t: Text, u: Text, es: Seq<Edit>, k: int) -> Seq<Edit>
    decreases k,
{
    if k <= 0 {
        es
    } else {
        let fs = pulled(t, u, es);
        if fs.len() < es.len() {
            pulled_up_to(t, u, fs, k - 1)
        } else {
            fs
        }
    }
}

/// How often heavy changes are joined at most.
pub const MAX_ROUNDS: usize = 10;

/// The rest of a line beside a long change is so short that it counts as
/// changed too.
pub open spec fn negligible(text: Seq<char>, e: Edit) -> bool {
    text.len() > 0 && trim(text).len() <= 3 && e.a.len() + e.b.len() > 100
}

/// A change with the start of its first line, where that is negligible.
pub open spec fn from_line_start(t: Text, e: Edit) -> Edit {
    let prefix = t.slice(Interval { start: t.full_lines(e.a).start, end: e.a.start });
    if negligible(prefix, e) {
        e.shift_start(-(prefix.len() as int))
    } else {
        e
    }
}

/// A change with the end of its last line, which ends at `line_end`, where that
/// is negligible.
pub open spec fn to_line_end(t: Text, e: Edit, line_end: int) -> Edit {
    let suffix = t.slice(Interval { start: e.a.end, end: line_end });
    if negligible(suffix, e) {
        e.shift_end(suffix.len() as int)
    } else {
        e
    }
}

/// A change with the negligible ends of its lines.
pub open spec fn stretched(t: Text, e: Edit) -> Edit {
    to_line_end(t, from_line_start(t, e), t.full_lines(e.a).end)
}

/// The room that change `i` has between its neighbours. The last change has
/// room without limit.
pub open spec fn room(es: Seq<Edit>, i: int) -> Edit {
    let before = gap(es, i64::MAX as int, i64::MAX as int, i);
    let after = gap(es, i64::MAX as int, i64::MAX as int, i + 1);
    Edit {
        a: Interval { start: before.a.start, end: after.a.end },
        b: Interval { start: before.b.start, end: after.b.end },
    }
}

/// The first `k` changes stretched to negligible line ends as far as there is
/// room, and joined where they then touch.
pub open spec fn stretched_all(t: Text, es: Seq<Edit>, k: int) -> Seq<Edit>
    decreases k,
{
    if k <= 0 {
        Seq::empty()
    } else {
        let done = stretched_all(t, es, k - 1);
        match stretched(t, es[k - 1]).meet(room(es, k - 1)) {
            Some(next) => if done.len() > 0 && done.last().ends() == (next.a.start, next.b.start) {
                done.drop_last().push(done.last().hull(next))
            } else {
                done.push(next)
            },
            None => done,
        }
    }
}

/// Changes joined across short text between heavy ones, then stretched to
/// negligible line ends.
pub open spec fn without_very_short(t: Text, u: Text, es: Seq<Edit>) -> Seq<Edit> {
    let fs = pulled_up_to(t, u, es, MAX_ROUNDS as int);
    stretched_all(t, fs, fs.len() as int)
}

/// Joining changes of an aligned list keeps it aligned.
pub proof fn lemma_join_where(
    a: Seq<char>,
    b: Seq<char>,
    es: Seq<Edit>,
    n: int,
    m: int,
    joins: spec_fn(Edit, Edit) -> bool,
)
    requires
        aligned(a, b, es, n, m),
    ensures
        aligned(a, b, join_where(es, joins), n, m),
        join_where(es, joins).len() <= es.len(),
        es.len() > 0 ==> join_where(es, joins).len() > 0 && join_where(es, joins).last().ends()
            == es.last().ends(),
    decreases es.len(),
{
    if es.len() > 0 {
        let k = es.len() - 1;
        let e = es.last();
        let head = es.drop_last();
        let done = join_where(head, joins);
        lemma_aligned_at(a, b, es, n, m, k);
        lemma_aligned_take(a, b, es, n, m, k);
        assert(head =~= es.take(k));
        lemma_join_where(a, b, head, e.a.start, e.b.start, joins);
        let room = n - e.a.end;
        if done.len() > 0 && joins(done.last(), e) {
            let last = done.last();
            let front = done.drop_last();
            lemma_aligned_at(a, b, done, e.a.start, e.b.start, done.len() - 1);
            lemma_aligned_take(a, b, done, e.a.start, e.b.start, done.len() - 1);
            assert(front =~= done.take(done.len() - 1));
            lemma_aligned_push(a, b, front, last.a.start, last.b.start, e.a.end, e.b.end);
            assert(last.hull(e) == Edit {
                a: Interval { start: last.a.start, end: e.a.end },
                b: Interval { start: last.b.start, end: e.b.end },
            });
            lemma_aligned_extend(a, b, front.push(last.hull(e)), e.a.end, e.b.end, room);
        } else {
            lemma_aligned_push(a, b, done, e.a.start, e.b.start, e.a.end, e.b.end);
            lemma_aligned_extend(a, b, done.push(e), e.a.end, e.b.end, room);
        }
    }
}

/// Joining changes of an ordered list keeps it ordered.
pub proof fn lemma_join_ordered(
    es: Seq<Edit>,
    n: int,
    m: int,
    joins: spec_fn(Edit, Edit) -> bool,
)
    requires
        ordered(es, n, m),
    ensures
        ordered(join_where(es, joins), n, m),
        join_where(es, joins).len() <= es.len(),
        es.len() > 0 ==> join_where(es, joins).len() > 0 && join_where(es, joins).last().ends()
            == es.last().ends(),
    decreases es.len(),
{
    if es.len() > 0 {
        let e = es.last();
        let head = es.drop_last();
        let done = join_where(head, joins);
        let all = join_where(es, joins);
        assert(es[es.len() - 1].within(n, m));
        assert forall|i: int| 0 <= i < head.len() implies #[trigger] head[i].within(n, m) by {
            assert(es[i].within(n, m));
        }
        lemma_join_ordered(head, n, m, joins);
        if head.len() > 0 {
            assert(es[es.len() - 2].a.end <= e.a.start && es[es.len() - 2].b.end <= e.b.start);
            assert(done[done.len() - 1].within(n, m));
        }
        assert forall|i: int| 0 <= i < all.len() implies #[trigger] all[i].within(n, m) by {
            if i < done.len() {
                assert(done[i].within(n, m));
            }
        }
        assert forall|i: int, j: int| 0 <= i < j < all.len() implies all[i].a.end <= all[j].a.start
            && all[i].b.end <= all[j].b.start by {
            assert(all[i] == done[i]);
            if i < done.len() - 1 {
                assert(done[i].a.end <= done[done.len() - 1].a.start);
            }
        }
    }
}

/// Joining makes a list shorter, or leaves it as it is.
pub proof fn lemma_join_where_len(es: Seq<Edit>, joins: spec_fn(Edit, Edit) -> bool)
    ensures
        join_where(es, joins).len() <= es.len(),
        join_where(es, joins).len() == es.len() ==> join_where(es, joins) == es,
    decreases es.len(),
{
    if es.len() > 0 {
        lemma_join_where_len(es.drop_last(), joins);
        assert(es.drop_last().push(es.last()) =~= es);
    }
}

/// The changes that joining has made of the first `i` ones lie before the next.
proof fn lemma_join_prefix(
    es: Seq<Edit>,
    n: int,
    m: int,
    joins: spec_fn(Edit, Edit) -> bool,
    i: int,
)
    requires
        ordered(es, n, m),
        0 < i < es.len(),
    ensures
        es[i].within(n, m),
        join_where(es.take(i), joins).len() > 0,
        join_where(es.take(i), joins).last().within(es[i].a.start, es[i].b.start),
        es.take(i + 1).drop_last() == es.take(i),
        es.take(i + 1).last() == es[i],
{
    let head = es.take(i);
    let done = join_where(head, joins);
    assert(es[i].within(n, m));
    assert forall|k: int| 0 <= k < head.len() implies #[trigger] head[k].within(n, m) by {
        assert(es[k].within(n, m));
    }
    lemma_join_ordered(head, n, m, joins);
    assert(done[done.len() - 1].within(n, m));
    assert(es[i - 1].a.end <= es[i].a.start && es[i - 1].b.end <= es[i].b.start);
    assert(es.take(i + 1).drop_last() =~= es.take(i));
}

/// The distances from one change to a later one are `i64`.
pub open spec fn distances_fit(last: Edit, next: Edit) -> bool {
    fits(next.a.start, -last.a.end) && fits(next.b.start, -last.b.end)
}

/// Each two neighbours have more than one element between them, on both sides.
pub open spec fn apart(es: Seq<Edit>) -> bool {
    forall|i: int, j: int|
        #![trigger es[i], es[j]]
        0 <= i && j == i + 1 && j < es.len() ==> !close_by(es[i], es[j])
}

/// Nothing is joined where no neighbours are close to one another.
proof fn lemma_apart_stays(es: Seq<Edit>)
    requires
        apart(es),
    ensures
        without_short(es) == es,
    decreases es.len(),
{
    if es.len() > 0 {
        let head = es.drop_last();
        assert forall|i: int, j: int|
            #![trigger head[i], head[j]]
            0 <= i && j == i + 1 && j < head.len() implies !close_by(head[i], head[j]) by {
            assert(!close_by(es[i], es[j]));
        }
        lemma_apart_stays(head);
        if head.len() > 0 {
            assert(!close_by(es[es.len() - 2], es[es.len() - 1]));
        }
        assert(head.push(es.last()) =~= es);
    }
}

proof fn lemma_without_short_apart(es: Seq<Edit>, n: int, m: int)
    requires
        ordered(es, n, m),
    ensures
        apart(without_short(es)),
        covers(es, without_short(es)),
    decreases es.len(),
{
    let joins = |last: Edit, next: Edit| close_by(last, next);
    let fs = without_short(es);
    if es.len() > 0 {
        let head = es.drop_last();
        let done = without_short(head);
        let e = es.last();
        assert(es[es.len() - 1].within(n, m));
        assert forall|i: int| 0 <= i < head.len() implies #[trigger] head[i].within(n, m) by {
            assert(es[i].within(n, m));
        }
        lemma_without_short_apart(head, n, m);
        lemma_join_ordered(head, n, m, joins);
        if head.len() > 0 {
            assert(es[es.len() - 2].a.end <= e.a.start && es[es.len() - 2].b.end <= e.b.start);
            assert(done[done.len() - 1].within(n, m));
        }
        assert forall|i: int, j: int|
            #![trigger fs[i], fs[j]]
            0 <= i && j == i + 1 && j < fs.len() implies !close_by(fs[i], fs[j]) by {
            if j < done.len() {
                assert(!close_by(done[i], done[j]));
            }
        }
        assert forall|k: int| 0 <= k < es.len() implies #[trigger] held(es[k], fs) by {
            if k < head.len() {
                assert(held(head[k], done));
                let u = choose|u: int| 0 <= u < done.len() && #[trigger] inside(head[k], done[u]);
                assert(inside(es[k], fs[u]));
            } else {
                assert(inside(es[k], fs[fs.len() - 1]));
            }
        }
    }
}

/// Once changes are joined across single elements, neighbours are further apart
/// than that on both sides; every change lies within one of the result; and
/// joining once more changes nothing.
pub proof fn lemma_without_short(es: Seq<Edit>, n: int, m: int)
    requires
        ordered(es, n, m),
    ensures
        forall|i: int, j: int|
            #![trigger without_short(es)[i], without_short(es)[j]]
            0 <= i && j == i + 1 && j < without_short(es).len() ==> !close_by(
                without_short(es)[i],
                without_short(es)[j],
            ),
        covers(es, without_short(es)),
        ordered(without_short(es), n, m),
        without_short(without_short(es)) == without_short(es),
{
    lemma_without_short_apart(es, n, m);
    lemma_join_ordered(es, n, m, |last: Edit, next: Edit| close_by(last, next));
    lemma_apart_stays(without_short(es));
}

/// Joins changes across matches of at most one element: enough to keep frequent
/// small edits together, while a short common run of two characters stays.
pub fn remove_short_matches(diffs: &[SequenceDiff]) -> (result: Vec<SequenceDiff>)
    requires
        forall|i: int, j: int|
            0 <= i < j < diffs@.len() ==> distances_fit(
                (#[trigger] diffs@[i])@,
                (#[trigger] diffs@[j])@,
            ),
    ensures
        edits(result@) == without_short(edits(diffs@)),
{
    let mut result: Vec<SequenceDiff> = Vec::new();
    let ghost es = edits(diffs@);
    let ghost joins = |last: Edit, next: Edit| close_by(last, next);
    let mut i: usize = 0;
    assert(edits(result@) =~= es.take(0));
    while i < diffs.len()
        invariant
            i <= diffs@.len(),
            es == edits(diffs@),
            joins == (|last: Edit, next: Edit| close_by(last, next)),
            edits(result@) == join_where(es.take(i as int), joins),
            forall|k: int|
                result@.len() > 0 && i <= k < diffs@.len() ==> distances_fit(
                    result@.last()@,
                    (#[trigger] diffs@[k])@,
                ),
            forall|k: int, j: int|
                0 <= k < j < diffs@.len() ==> distances_fit(
                    (#[trigger] diffs@[k])@,
                    (#[trigger] diffs@[j])@,
                ),
        decreases diffs@.len() - i,
    {
        let s: SequenceDiff = diffs[i];
        let ghost before = result@;
        let ghost done = edits(before);
        assert(es.take(i + 1).drop_last() =~= es.take(i as int));
        assert(es.take(i + 1).last() == s@);
        let n: usize = result.len();
        if n == 0 {
            result.push(s);
            proof {
                lemma_edits_push(before, s);
            }
        } else {
            let last: SequenceDiff = result[n - 1];
            assert(done.last() == last@);
            if s.seq1.start - last.seq1.end <= 1 || s.seq2.start - last.seq2.end <= 1 {
                result.set(n - 1, join_diffs(last, s));
                proof {
                    lemma_edits_update(before, n - 1, result@[n - 1]);
                    assert(edits(result@) =~= done.drop_last().push(last@.hull(s@)));
                }
            } else {
                result.push(s);
                proof {
                    lemma_edits_push(before, s);
                }
            }
        }
        i = i + 1;
    }
    assert(es.take(i as int) =~= es);
    result
}

/// Little text lies between two changes.
fn is_short_between(seq1: &CharSeq, last: SequenceDiff, cur: SequenceDiff) -> (short: bool)
    requires
        seq1.wf(),
        0 <= last@.a.end <= cur@.a.start <= seq1@.len(),
    ensures
        short == short_between(seq1@, last@, cur@),
{
    let range: OffsetRange = OffsetRange { start: last.seq1.end, end: cur.seq1.start };
    proof {
        lemma_lines_in(seq1@, range@);
    }
    if seq1.count_lines_in(range) > 5 || range.len() > 500 {
        return false;
    }
    let text: Vec<char> = seq1.text(range);
    let bounds: (usize, usize) = trim_bounds(&text);
    let ghost trimmed = trim(text@);
    if bounds.1 - bounds.0 > 20 {
        return false;
    }
    let mut i: usize = bounds.0;
    while i < bounds.1
        invariant
            bounds.0 <= i <= bounds.1 <= text@.len(),
            trimmed == text@.subrange(bounds.0 as int, bounds.1 as int),
            forall|k: int| bounds.0 <= k < i ==> #[trigger] text@[k] != '\n',
            trimmed == trim(seq1@.slice(range@)),
            range@ == (Interval { start: last@.a.end, end: cur@.a.start }),
        decreases bounds.1 - i,
    {
        if text[i] == '\n' {
            assert(trimmed[i - bounds.0] == '\n');
            return false;
        }
        i = i + 1;
    }
    assert(!trimmed.contains('\n')) by {
        assert forall|k: int| 0 <= k < trimmed.len() implies trimmed[k] != '\n' by {
            assert(text@[k + bounds.0] != '\n');
        }
    }
    true
}

/// What a change weighs.
fn diff_weight(seq1: &CharSeq, seq2: &CharSeq, d: SequenceDiff) -> (value: u128)
    requires
        seq1.wf(),
        seq2.wf(),
        d@.within(seq1@.len(), seq2@.len()),
    ensures
        value == weight_of(seq1@, seq2@, d@),
        value <= 0x1000_0000_0000_0000,
{
    proof {
        lemma_lines_in(seq1@, d@.a);
        lemma_lines_in(seq2@, d@.b);
    }
    change_weight(
        range_counts(seq1.count_lines_in(d.seq1) as u64, d.seq1.len() as u64),
        range_counts(seq2.count_lines_in(d.seq2) as u64, d.seq2.len() as u64),
    )
}

/// Joins heavy changes across short text, once, see `pulled`.
fn pull_together(seq1: &CharSeq, seq2: &CharSeq, diffs: &Vec<SequenceDiff>) -> (result: Vec<
    SequenceDiff,
>)
    requires
        seq1.wf(),
        seq2.wf(),
        compares(seq1, seq2, edits(diffs@)),
    ensures
        edits(result@) == pulled(seq1@, seq2@, edits(diffs@)),
        compares(seq1, seq2, edits(result@)),
        result@.len() <= diffs@.len(),
{
    let mut result: Vec<SequenceDiff> = Vec::new();
    let ghost es = edits(diffs@);
    let ghost joins = |last: Edit, next: Edit| pulled_together(seq1@, seq2@, last, next);
    let mut i: usize = 0;
    assert(edits(result@) =~= es.take(0));
    while i < diffs.len()
        invariant
            i <= diffs@.len(),
            seq1.wf(),
            seq2.wf(),
            es == edits(diffs@),
            compares(seq1, seq2, es),
            joins == (|last: Edit, next: Edit| pulled_together(seq1@, seq2@, last, next)),
            edits(result@) == join_where(es.take(i as int), joins),
        decreases diffs@.len() - i,
    {
        let cur: SequenceDiff = diffs[i];
        let ghost before = result@;
        let ghost done = edits(before);
        proof {
            assert(es.take(i + 1).drop_last() =~= es.take(i as int));
            assert(es.take(i + 1).last() == cur@);
            if i > 0 {
                lemma_join_prefix(
                    es,
                    seq1@.len(),
                    seq2@.len(),
                    joins,
                    i as int,
                );
            }
        }
        let n: usize = result.len();
        if i > 0 {
            let last: SequenceDiff = result[n - 1];
            assert(done.last() == last@);
            if is_short_between(seq1, last, cur) && are_heavy(
                diff_weight(seq1, seq2, last),
                diff_weight(seq1, seq2, cur),
            ) {
                result.set(n - 1, join_diffs(last, cur));
                proof {
                    lemma_edits_update(before, n - 1, result@[n - 1]);
                    assert(edits(result@) =~= done.drop_last().push(last@.hull(cur@)));
                }
            } else {
                result.push(cur);
                proof {
                    lemma_edits_push(before, cur);
                }
            }
        } else {
            result.push(cur);
            proof {
                lemma_edits_push(before, cur);
            }
        }
        i = i + 1;
    }
    proof {
        assert(es.take(i as int) =~= es);
        lemma_join_ordered(es, seq1@.len(), seq2@.len(), joins);
    }
    result
}

/// The lines that a range touches reach from at or before its start to at or
/// behind its end.
pub proof fn lemma_full_lines(t: Text, range: Interval)
    requires
        t.wf(),
        range.within(t.len()),
    ensures
        0 <= t.full_lines(range).start <= range.start,
        range.end <= t.full_lines(range).end <= t.len(),
{
    lemma_last_start(t.starts, range.start, t.starts.len() as int);
    lemma_first_start(t.starts, range.end, 0);
    let first = last_start(t.starts, range.start, t.starts.len() as int);
    assert(first == 0 || t.starts[0] < t.starts[first]);
}

/// The rest of a line beside a long change counts as changed too.
fn is_negligible(text: &Vec<char>, d: SequenceDiff) -> (yes: bool)
    requires
        0 <= d@.a.len() <= 2 * MAX_ELEMENTS,
        0 <= d@.b.len() <= 2 * MAX_ELEMENTS,
    ensures
        yes == negligible(text@, d@),
{
    let bounds: (usize, usize) = trim_bounds(text);
    text.len() > 0 && bounds.1 - bounds.0 <= 3 && d.seq1.len() + d.seq2.len() > 100
}

/// Takes negligible line ends into a change, see `stretched`.
fn stretch(seq1: &CharSeq, d: SequenceDiff) -> (result: SequenceDiff)
    requires
        seq1.wf(),
        d@.within(seq1@.len(), MAX_ELEMENTS as int),
    ensures
        result@ == stretched(seq1@, d@),
{
    proof {
        lemma_full_lines(seq1@, d@.a);
    }
    let mut new_diff: SequenceDiff = d;
    let full: OffsetRange = seq1.extend_to_full_lines(d.seq1);
    let prefix: Vec<char> = seq1.text(OffsetRange { start: full.start, end: d.seq1.start });
    if is_negligible(&prefix, new_diff) {
        new_diff = delta_start_diff(new_diff, -(prefix.len() as i64));
    }
    assert(new_diff@ == from_line_start(seq1@, d@));
    let suffix: Vec<char> = seq1.text(OffsetRange { start: new_diff.seq1.end, end: full.end });
    if is_negligible(&suffix, new_diff) {
        new_diff = delta_end_diff(new_diff, suffix.len() as i64);
    }
    new_diff
}

proof fn lemma_pulled(t: Text, u: Text, es: Seq<Edit>)
    requires
        aligned(t.chars, u.chars, es, t.len(), u.len()),
    ensures
        aligned(t.chars, u.chars, pulled(t, u, es), t.len(), u.len()),
        pulled(t, u, es).len() <= es.len(),
{
    lemma_join_where(
        t.chars,
        u.chars,
        es,
        t.len(),
        u.len(),
        |last: Edit, next: Edit| pulled_together(t, u, last, next),
    );
}

/// Joining heavy changes keeps the list aligned.
pub proof fn lemma_pulled_up_to(t: Text, u: Text, es: Seq<Edit>, k: int)
    requires
        aligned(t.chars, u.chars, es, t.len(), u.len()),
    ensures
        aligned(t.chars, u.chars, pulled_up_to(t, u, es, k), t.len(), u.len()),
    decreases k,
{
    if k > 0 {
        lemma_pulled(t, u, es);
        lemma_pulled_up_to(t, u, pulled(t, u, es), k - 1);
    }
}

/// Joins heavy changes across short text until nothing changes, and then
/// stretches changes to negligible line ends.
pub fn remove_very_short_matching_text(
    seq1: &CharSeq,
    seq2: &CharSeq,
    diffs: Vec<SequenceDiff>,
) -> (result: Vec<SequenceDiff>)
    requires
        diffs@.len() > 0 ==> seq1.wf() && seq2.wf(),
        compares(seq1, seq2, edits(diffs@)),
    ensures
        edits(result@) == without_very_short(seq1@, seq2@, edits(diffs@)),
{
    if diffs.len() == 0 {
        proof {
            let none = edits(diffs@);
            assert(pulled(seq1@, seq2@, none) =~= none);
            assert(without_very_short(seq1@, seq2@, none) =~= none);
        }
        return diffs;
    }
    let ghost t = seq1@;
    let ghost u = seq2@;
    let ghost es = edits(diffs@);
    let mut current: Vec<SequenceDiff> = diffs;
    let mut counter: usize = 0;
    let mut should_repeat: bool = true;
    while should_repeat && counter < MAX_ROUNDS
        invariant
            counter <= MAX_ROUNDS,
            seq1.wf(),
            seq2.wf(),
            t == seq1@,
            u == seq2@,
            compares(seq1, seq2, edits(current@)),
            pulled_up_to(t, u, es, MAX_ROUNDS as int) == (if should_repeat {
                pulled_up_to(t, u, edits(current@), MAX_ROUNDS - counter)
            } else {
                edits(current@)
            }),
        decreases MAX_ROUNDS - counter,
    {
        counter = counter + 1;
        let joined: Vec<SequenceDiff> = pull_together(seq1, seq2, &current);
        should_repeat = joined.len() < current.len();
        current = joined;
    }
    let ghost fs = edits(current@);
    let mut out: Vec<SequenceDiff> = Vec::new();
    let mut i: usize = 0;
    assert(edits(out@) =~= Seq::<Edit>::empty());
    while i < current.len()
        invariant
            i <= current@.len(),
            seq1.wf(),
            seq2.wf(),
            t == seq1@,
            fs == edits(current@),
            compares(seq1, seq2, fs),
            edits(out@) == stretched_all(t, fs, i as int),
        decreases current@.len() - i,
    {
        let cur: SequenceDiff = current[i];
        proof {
            assert(fs[i as int] == cur@);
            assert(fs[i as int].within(seq1@.len(), seq2@.len()));
        }
        let new_diff: SequenceDiff = stretch(seq1, cur);
        let start: (i64, i64) = if i > 0 {
            assert(fs[i - 1] == current@[i - 1]@);
            (current[i - 1].seq1.end, current[i - 1].seq2.end)
        } else {
            (0, 0)
        };
        let end: (i64, i64) = if i < current.len() - 1 {
            assert(fs[i + 1] == current@[i + 1]@);
            (current[i + 1].seq1.start, current[i + 1].seq2.start)
        } else {
            (i64::MAX, i64::MAX)
        };
        let available: SequenceDiff = SequenceDiff {
            seq1: OffsetRange { start: start.0, end: end.0 },
            seq2: OffsetRange { start: start.1, end: end.1 },
        };
        assert(available@ == room(fs, i as int));
        let ghost before = out@;
        let ghost done = edits(before);
        let n: usize = out.len();
        if let Some(clipped) = intersect_diffs(new_diff, available) {
            assert(n > 0 ==> done.last() == before.last()@);
            if n > 0 && out[n - 1].seq1.end == clipped.seq1.start && out[n - 1].seq2.end
                == clipped.seq2.start {
                let last: SequenceDiff = out[n - 1];
                out.set(n - 1, join_diffs(last, clipped));
                proof {
                    lemma_edits_update(before, n - 1, out@[n - 1]);
                    assert(edits(out@) =~= done.drop_last().push(last@.hull(clipped@)));
                }
            } else {
                out.push(clipped);
                proof {
                    lemma_edits_push(before, clipped);
                }
            }
        }
        i = i + 1;
    }
    out
}

} // verus!
