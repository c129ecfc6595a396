//! Widening changes to whole words.

use vstd::prelude::*;

use crate::char_seq::{lemma_word_at, word_at, CharSeq, MAX_ELEMENTS};
use crate::matching::compares;
use crate::ranges::{
    diff_ends, edits, gaps, intersect_diffs, intersects_ranges, invert_diffs, join_diffs,
    lemma_edits_push, lemma_edits_update, ordered, Edit, Interval, SequenceDiff,
};

verus! {

/// A word on each side, with the number of its elements that lie in equal runs,
/// and the equal runs still to come.
pub struct Growth {
    pub word: Edit,
    pub equal_a: int,
    pub equal_b: int,
    pub queue: Seq<Edit>,
}

/// Widens a pair of words as long as it overlaps the next equal run: by the
/// words at the start of that run. A run that is used up leaves the queue.
pub open spec fn grow(a: Seq<char>, b: Seq<char>, g: Growth) -> Growth
    decreases g.queue.len(),
{
    if g.queue.len() == 0 {
        g
    } else {
        let next = g.queue[0];
        if !g.word.a.overlaps(next.a) && !g.word.b.overlaps(next.b) {
            g
        } else {
            match (word_at(a, next.a.start), word_at(b, next.b.start)) {
                (Some(va), Some(vb)) => {
                    let v = Edit { a: va, b: vb };
                    let (more_a, more_b) = match v.meet(next) {
                        Some(common) => (common.a.len(), common.b.len()),
                        None => (0, 0),
                    };
                    let h = Growth {
                        word: g.word.hull(v),
                        equal_a: g.equal_a + more_a,
                        equal_b: g.equal_b + more_b,
                        queue: g.queue,
                    };
                    if h.word.a.end >= next.a.end {
                        grow(a, b, Growth { queue: g.queue.drop_first(), ..h })
                    } else {
                        h
                    }
                },
                _ => g,
            }
        }
    }
}

/// The equal runs still to come, the words found to be changed as a whole, and
/// where the last word ends.
pub struct Scan {
    pub queue: Seq<Edit>,
    pub extra: Seq<Edit>,
    pub last: (int, int),
}

/// The pair of words at two offsets, before it is widened.
pub open spec fn seed(wa: Interval, wb: Interval, run: Edit, queue: Seq<Edit>) -> Growth {
    let word = Edit { a: wa, b: wb };
    let (equal_a, equal_b) = match word.meet(run) {
        Some(common) => (common.a.len(), common.b.len()),
        None => (0, 0),
    };
    Growth { word, equal_a, equal_b, queue }
}

/// Looks at the words around two offsets of an equal run. If less than two
/// thirds of what they grow to is equal, all of it counts as changed.
pub open spec fn scan(
    a: Seq<char>,
    b: Seq<char>,
    st: Scan,
    x: int,
    y: int,
    run: Edit,
) -> Scan {
    if x < st.last.0 || y < st.last.1 {
        st
    } else {
        match (word_at(a, x), word_at(b, y)) {
            (Some(wa), Some(wb)) => {
                let g = grow(a, b, seed(wa, wb, run, st.queue));
                Scan {
                    queue: g.queue,
                    extra: if g.equal_a + g.equal_b < (g.word.a.len() + g.word.b.len()) * 2 / 3 {
                        st.extra.push(g.word)
                    } else {
                        st.extra
                    },
                    last: g.word.ends(),
                }
            },
            _ => st,
        }
    }
}

pub proof fn lemma_grow_shrinks(a: Seq<char>, b: Seq<char>, g: Growth)
    ensures
        grow(a, b, g).queue.len() <= g.queue.len(),
    decreases g.queue.len(),
{
    if g.queue.len() > 0 {
        let next = g.queue[0];
        match (word_at(a, next.a.start), word_at(b, next.b.start)) {
            (Some(va), Some(vb)) => {
                let v = Edit { a: va, b: vb };
                let (more_a, more_b) = match v.meet(next) {
                    Some(common) => (common.a.len(), common.b.len()),
                    None => (0, 0),
                };
                let h = Growth {
                    word: g.word.hull(v),
                    equal_a: g.equal_a + more_a,
                    equal_b: g.equal_b + more_b,
                    queue: g.queue,
                };
                lemma_grow_shrinks(a, b, Growth { queue: g.queue.drop_first(), ..h });
            },
            _ => {},
        }
    }
}

/// Looks at the words at the start and at the end of an equal run.
pub open spec fn scan_run(a: Seq<char>, b: Seq<char>, st: Scan, run: Edit) -> Scan {
    let first = scan(a, b, st, run.a.start, run.b.start, run);
    scan(a, b, first, run.a.end - 1, run.b.end - 1, run)
}

/// Looks at the equal runs of the queue, one after the other.
pub open spec fn scan_runs(a: Seq<char>, b: Seq<char>, st: Scan) -> Scan
    decreases st.queue.len(),
{
    if st.queue.len() == 0 {
        st
    } else {
        let run = st.queue[0];
        let rest = Scan { queue: st.queue.drop_first(), ..st };
        if run.a.empty() {
            scan_runs(a, b, rest)
        } else {
            proof {
                lemma_scan_shrinks(a, b, rest, run.a.start, run.b.start, run);
                lemma_scan_shrinks(
                    a,
                    b,
                    scan(a, b, rest, run.a.start, run.b.start, run),
                    run.a.end - 1,
                    run.b.end - 1,
                    run,
                );
            }
            scan_runs(a, b, scan_run(a, b, rest, run))
        }
    }
}

pub proof fn lemma_scan_shrinks(
    a: Seq<char>,
    b: Seq<char>,
    st: Scan,
    x: int,
    y: int,
    run: Edit,
)
    ensures
        scan(a, b, st, x, y, run).queue.len() <= st.queue.len(),
{
    if !(x < st.last.0 || y < st.last.1) {
        match (word_at(a, x), word_at(b, y)) {
            (Some(wa), Some(wb)) => {
                lemma_grow_shrinks(a, b, seed(wa, wb, run, st.queue));
            },
            _ => {},
        }
    }
}

/// The words that are changed as a whole.
pub open spec fn changed_words(a: Seq<char>, b: Seq<char>, es: Seq<Edit>) -> Seq<Edit> {
    let queue = gaps(es, a.len() as int, b.len() as int);
    scan_runs(a, b, Scan { queue, extra: Seq::empty(), last: (0, 0) }).extra
}

/// Two lists as one, ordered by where the changes start on the first side. Of
/// two that start together the one from the second list comes first.
pub open spec fn interleave(xs: Seq<Edit>, ys: Seq<Edit>) -> Seq<Edit>
    decreases xs.len() + ys.len(),
{
    if xs.len() == 0 {
        ys
    } else if ys.len() == 0 {
        xs
    } else if xs[0].a.start < ys[0].a.start {
        seq![xs[0]] + interleave(xs.drop_first(), ys)
    } else {
        seq![ys[0]] + interleave(xs, ys.drop_first())
    }
}

/// A list with each change joined to the one before it where the two touch or
/// overlap on the first side.
pub open spec fn coalesce(es: Seq<Edit>) -> Seq<Edit>
    decreases es.len(),
{
    if es.len() == 0 {
        es
    } else {
        let done = coalesce(es.drop_last());
        let next = es.last();
        if done.len() > 0 && done.last().a.end >= next.a.start {
            done.drop_last().push(done.last().hull(next))
        } else {
            done.push(next)
        }
    }
}

/// The changes together with the words that are changed as a whole.
pub open spec fn extended(a: Seq<char>, b: Seq<char>, es: Seq<Edit>) -> Seq<Edit> {
    coalesce(interleave(es, changed_words(a, b, es)))
}

/// The equal runs of a queue are in bounds and in order.
pub open spec fn in_order(queue: Seq<Edit>, n: int, m: int) -> bool {
    ordered(queue, n, m)
}

proof fn lemma_edits_remove_first(queue: Seq<SequenceDiff>)
    requires
        queue.len() > 0,
    ensures
        edits(queue.remove(0)) == edits(queue).drop_first(),
{
    assert(edits(queue.remove(0)) =~= edits(queue).drop_first());
}

/// Looks at the words around two offsets of an equal run, see `scan`.
pub fn scan_word(
    seq1: &CharSeq,
    seq2: &CharSeq,
    queue: &mut Vec<SequenceDiff>,
    additional: &mut Vec<SequenceDiff>,
    last_point: &mut (i64, i64),
    offset1: i64,
    offset2: i64,
    equal_mapping: SequenceDiff,
)
    requires
        seq1@.len() <= MAX_ELEMENTS,
        seq2@.len() <= MAX_ELEMENTS,
        in_order(edits(old(queue)@), seq1@.len(), seq2@.len()),
        equal_mapping@.within(seq1@.len(), seq2@.len()),
        old(queue)@.len() > 0 ==> equal_mapping@.a.end <= old(queue)@[0]@.a.start
            && equal_mapping@.b.end <= old(queue)@[0]@.b.start,
    ensures
        ({
            let st = Scan {
                queue: edits(old(queue)@),
                extra: edits(old(additional)@),
                last: (old(last_point).0 as int, old(last_point).1 as int),
            };
            let next = scan(
                seq1@.chars,
                seq2@.chars,
                st,
                offset1 as int,
                offset2 as int,
                equal_mapping@,
            );
            &&& edits(final(queue)@) == next.queue
            &&& edits(final(additional)@) == next.extra
            &&& (final(last_point).0 as int, final(last_point).1 as int) == next.last
        }),
        exists|k: int|
            0 <= k <= old(queue)@.len() && #[trigger] edits(old(queue)@).skip(k) == edits(
                final(queue)@,
            ),
{
    broadcast use lemma_edits_push;

    let ghost a = seq1@.chars;
    let ghost b = seq2@.chars;
    let ghost n = seq1@.len();
    let ghost m = seq2@.len();
    let ghost first = edits(queue@);
    assert(first.skip(0) =~= first);
    if offset1 < last_point.0 || offset2 < last_point.1 {
        return;
    }
    let (w1, w2) = match (
        seq1.find_word_containing(offset1),
        seq2.find_word_containing(offset2),
    ) {
        (Some(w1), Some(w2)) => (w1, w2),
        _ => {
            return;
        },
    };
    let mut w: SequenceDiff = SequenceDiff { seq1: w1, seq2: w2 };
    proof {
        lemma_word_at(a, offset1 as int);
        lemma_word_at(b, offset2 as int);
    }
    let mut equal_chars1: i64 = 0;
    let mut equal_chars2: i64 = 0;
    if let Some(common) = intersect_diffs(w, equal_mapping) {
        equal_chars1 = common.seq1.len();
        equal_chars2 = common.seq2.len();
    }
    let ghost grown = grow(a, b, seed(w1@, w2@, equal_mapping@, first));
    let ghost mut used = 0int;
    let mut going: bool = true;
    while going && queue.len() > 0
        invariant
            a == seq1@.chars,
            b == seq2@.chars,
            n == seq1@.len() <= MAX_ELEMENTS,
            m == seq2@.len() <= MAX_ELEMENTS,
            w@.within(n, m),
            in_order(edits(queue@), n, m),
            0 <= equal_chars1 <= n,
            0 <= equal_chars2 <= m,
            queue@.len() > 0 && going ==> equal_chars1 <= queue@[0]@.a.start && equal_chars2
                <= queue@[0]@.b.start,
            first == edits(old(queue)@),
            0 <= used <= first.len(),
            first.skip(used) == edits(queue@),
            grown == (if going {
                grow(
                    a,
                    b,
                    Growth {
                        word: w@,
                        equal_a: equal_chars1 as int,
                        equal_b: equal_chars2 as int,
                        queue: edits(queue@),
                    },
                )
            } else {
                Growth {
                    word: w@,
                    equal_a: equal_chars1 as int,
                    equal_b: equal_chars2 as int,
                    queue: edits(queue@),
                }
            }),
        decreases
            queue@.len() + if going {
                1int
            } else {
                0
            },
    {
        let next: SequenceDiff = queue[0];
        let ghost es = edits(queue@);
        assert(es[0] == next@);
        assert(es[0].within(n, m));
        if !intersects_ranges(w.seq1, next.seq1) && !intersects_ranges(w.seq2, next.seq2) {
            going = false;
        } else {
            match (
                seq1.find_word_containing(next.seq1.start),
                seq2.find_word_containing(next.seq2.start),
            ) {
                (Some(v1), Some(v2)) => {
                    proof {
                        lemma_word_at(a, next@.a.start);
                        lemma_word_at(b, next@.b.start);
                    }
                    let v: SequenceDiff = SequenceDiff { seq1: v1, seq2: v2 };
                    if let Some(common) = intersect_diffs(v, next) {
                        equal_chars1 = equal_chars1 + common.seq1.len();
                        equal_chars2 = equal_chars2 + common.seq2.len();
                    }
                    w = join_diffs(w, v);
                    if w.seq1.end >= next.seq1.end {
                        let ghost before = queue@;
                        queue.remove(0);
                        proof {
                            lemma_edits_remove_first(before);
                            assert(queue@ =~= before.remove(0));
                            used = used + 1;
                            assert(first.skip(used) =~= first.skip(used - 1).drop_first());
                            if queue@.len() > 0 {
                                assert(es[1] == queue@[0]@);
                                assert(es[0].a.end <= es[1].a.start);
                            }
                        }
                    } else {
                        going = false;
                    }
                },
                _ => {
                    going = false;
                },
            }
        }
    }
    if equal_chars1 + equal_chars2 < (w.seq1.len() + w.seq2.len()) * 2 / 3 {
        additional.push(w);
    }
    *last_point = diff_ends(w);
    assert(first.skip(used) == edits(queue@));
}

proof fn lemma_in_order(es: Seq<Edit>, n: int, m: int)
    requires
        0 <= n,
        0 <= m,
        ordered(es, n, m),
    ensures
        in_order(gaps(es, n, m), n, m),
{
    let queue = gaps(es, n, m);
    assert forall|i: int| 0 <= i < queue.len() implies #[trigger] queue[i].within(n, m) by {
        if i > 0 {
            assert(es[i - 1].within(n, m));
        }
        if i < es.len() {
            assert(es[i].within(n, m));
        }
    }
    assert forall|i: int, j: int| 0 <= i < j < queue.len() implies queue[i].a.end
        <= queue[j].a.start && queue[i].b.end <= queue[j].b.start by {
        assert(es[i].within(n, m));
        assert(es[j - 1].within(n, m));
    }
}

proof fn lemma_in_order_skip(queue: Seq<Edit>, k: int, n: int, m: int)
    requires
        in_order(queue, n, m),
        0 <= k <= queue.len(),
    ensures
        in_order(queue.skip(k), n, m),
{
    let rest = queue.skip(k);
    assert forall|i: int| 0 <= i < rest.len() implies #[trigger] rest[i].within(n, m) by {
        assert(queue[i + k].within(n, m));
    }
}

/// Two lists as one, see `interleave`, with what touches joined, see
/// `coalesce`.
pub fn merge_sorted_diffs(diffs1: &[SequenceDiff], diffs2: &[SequenceDiff]) -> (result: Vec<
    SequenceDiff,
>)
    ensures
        edits(result@) == coalesce(interleave(edits(diffs1@), edits(diffs2@))),
{
    let mut result: Vec<SequenceDiff> = Vec::new();
    let mut i: usize = 0;
    let mut j: usize = 0;
    let ghost xs = edits(diffs1@);
    let ghost ys = edits(diffs2@);
    let ghost all = interleave(xs, ys);
    let ghost mut done = Seq::<Edit>::empty();
    assert(xs.skip(0) =~= xs);
    assert(ys.skip(0) =~= ys);
    assert(done + all =~= all);
    assert(edits(result@) =~= done);
    while i < diffs1.len() || j < diffs2.len()
        invariant
            i <= diffs1@.len(),
            j <= diffs2@.len(),
            xs == edits(diffs1@),
            ys == edits(diffs2@),
            all == interleave(xs, ys),
            done + interleave(xs.skip(i as int), ys.skip(j as int)) == all,
            edits(result@) == coalesce(done),
        decreases diffs1@.len() - i + diffs2@.len() - j,
    {
        let take_one: bool = i < diffs1.len() && (j >= diffs2.len() || diffs1[i].seq1.start
            < diffs2[j].seq1.start);
        let ghost rest_x = xs.skip(i as int);
        let ghost rest_y = ys.skip(j as int);
        let ghost rest = interleave(rest_x, rest_y);
        let next: SequenceDiff = if take_one {
            i = i + 1;
            diffs1[i - 1]
        } else {
            j = j + 1;
            diffs2[j - 1]
        };
        proof {
            if take_one {
                assert(xs.skip(i as int) =~= rest_x.drop_first());
                assert(rest =~= seq![next@] + interleave(xs.skip(i as int), rest_y));
            } else {
                assert(ys.skip(j as int) =~= rest_y.drop_first());
                assert(rest =~= seq![next@] + interleave(rest_x, ys.skip(j as int)));
            }
            let tail = interleave(xs.skip(i as int), ys.skip(j as int));
            assert(done + (seq![next@] + tail) =~= done.push(next@) + tail);
            assert(done.push(next@).drop_last() =~= done);
            done = done.push(next@);
        }
        let ghost before = result@;
        let ghost joined = edits(before);
        let n: usize = result.len();
        if n > 0 && result[n - 1].seq1.end >= next.seq1.start {
            let last: SequenceDiff = result[n - 1];
            result.set(n - 1, join_diffs(last, next));
            proof {
                lemma_edits_update(before, n - 1, result@[n - 1]);
                assert(edits(result@) =~= joined.drop_last().push(joined.last().hull(next@)));
            }
        } else {
            result.push(next);
            proof {
                lemma_edits_push(before, next);
            }
        }
    }
    proof {
        assert(xs.skip(i as int) =~= Seq::<Edit>::empty());
        assert(ys.skip(j as int) =~= Seq::<Edit>::empty());
        assert(done =~= all);
    }
    result
}

/// Widens changes to the words that they change for the most part, see
/// `extended`.
pub fn extend_diffs_to_words(
    seq1: &CharSeq,
    seq2: &CharSeq,
    diffs: Vec<SequenceDiff>,
) -> (result: Vec<SequenceDiff>)
    requires
        compares(seq1, seq2, edits(diffs@)),
    ensures
        edits(result@) == extended(seq1@.chars, seq2@.chars, edits(diffs@)),
{
    let ghost a = seq1@.chars;
    let ghost b = seq2@.chars;
    let ghost n = seq1@.len();
    let ghost m = seq2@.len();
    let mut queue: Vec<SequenceDiff> = invert_diffs(&diffs, seq1.length(), seq2.length());
    let mut additional: Vec<SequenceDiff> = Vec::new();
    let mut last_point: (i64, i64) = (0, 0);
    let ghost start = Scan { queue: edits(queue@), extra: Seq::empty(), last: (0, 0) };
    proof {
        lemma_in_order(edits(diffs@), n, m);
        assert(edits(additional@) =~= Seq::<Edit>::empty());
    }
    while queue.len() > 0
        invariant
            a == seq1@.chars,
            b == seq2@.chars,
            n == seq1@.len() <= MAX_ELEMENTS,
            m == seq2@.len() <= MAX_ELEMENTS,
            in_order(edits(queue@), n, m),
            scan_runs(a, b, start) == scan_runs(
                a,
                b,
                Scan {
                    queue: edits(queue@),
                    extra: edits(additional@),
                    last: (last_point.0 as int, last_point.1 as int),
                },
            ),
        decreases queue@.len(),
    {
        let ghost before = queue@;
        let next: SequenceDiff = queue.remove(0);
        proof {
            lemma_edits_remove_first(before);
            assert(queue@ =~= before.remove(0));
            assert(edits(before)[0] == next@);
            assert(edits(before)[0].within(n, m));
            if queue@.len() > 0 {
                assert(edits(before)[1] == queue@[0]@);
            }
        }
        if !next.seq1.is_empty() {
            let ghost rest = edits(queue@);
            scan_word(
                seq1,
                seq2,
                &mut queue,
                &mut additional,
                &mut last_point,
                next.seq1.start,
                next.seq2.start,
                next,
            );
            proof {
                let k = choose|k: int|
                    0 <= k <= rest.len() && #[trigger] rest.skip(k) == edits(queue@);
                lemma_in_order_skip(rest, k, n, m);
                if queue@.len() > 0 {
                    assert(edits(queue@)[0] == queue@[0]@);
                    assert(rest.skip(k)[0] == rest[k]);
                    assert(rest[k] == edits(before)[k + 1]);
                }
            }
            let ends: (i64, i64) = diff_ends(next);
            let ghost rest = edits(queue@);
            scan_word(
                seq1,
                seq2,
                &mut queue,
                &mut additional,
                &mut last_point,
                ends.0 - 1,
                ends.1 - 1,
                next,
            );
            proof {
                let k = choose|k: int|
                    0 <= k <= rest.len() && #[trigger] rest.skip(k) == edits(queue@);
                lemma_in_order_skip(rest, k, n, m);
            }
        }
    }
    merge_sorted_diffs(&diffs, &additional)
}

} // verus!
