//! Moving pure insertions and deletions along the text they repeat: first to
//! join them with a neighbour, then to put them where they read best.

use vstd::prelude::*;

use crate::char_seq::{score_at, CharSeq, MAX_ELEMENTS};
use crate::chars::element;
use crate::matching::{
    aligned, equal_run, lemma_aligned_at, lemma_aligned_extend, lemma_aligned_push,
    lemma_aligned_take, spaced,
};
use crate::ranges::{
    delta_diff, edits, gap, lemma_edits_push, lemma_edits_update, Edit, Interval, OffsetRange,
    SequenceDiff,
};

verus! {

/// A change that only inserts or only deletes.
pub open spec fn pure(e: Edit) -> bool {
    e.a.empty() || e.b.empty()
}

/// On both sides, the element `t` past the start of a change equals the one `t`
/// past its end.
pub open spec fn slides(a: Seq<char>, b: Seq<char>, e: Edit, t: int) -> bool {
    &&& element(a, e.a.start + t) == element(a, e.a.end + t)
    &&& element(b, e.b.start + t) == element(b, e.b.end + t)
}

/// How far a change slides to the left, at most `room`, if it is known to slide
/// `t - 1` elements.
pub open spec fn left_run(a: Seq<char>, b: Seq<char>, e: Edit, room: int, t: int) -> int
    decreases room + 1 - t,
{
    if t <= room && slides(a, b, e, -t) {
        left_run(a, b, e, room, t + 1)
    } else {
        t - 1
    }
}

/// How far a change slides to the right, at most `room`, if it is known to slide
/// `t` elements.
pub open spec fn right_run(a: Seq<char>, b: Seq<char>, e: Edit, room: int, t: int) -> int
    decreases room - t,
{
    if t < room && slides(a, b, e, t) {
        right_run(a, b, e, room, t + 1)
    } else {
        t
    }
}

/// Slides each pure change to the left as far as it goes. One that reaches the
/// change before it is joined with that.
pub open spec fn merge_left(a: Seq<char>, b: Seq<char>, es: Seq<Edit>) -> Seq<Edit>
    decreases es.len(),
{
    if es.len() <= 1 {
        es
    } else {
        let done = merge_left(a, b, es.drop_last());
        let prev = done.last();
        let cur = es.last();
        if pure(cur) {
            let room = cur.a.start - prev.a.end;
            let d = left_run(a, b, cur, room, 1);
            if d == room {
                done.drop_last().push(
                    Edit {
                        a: Interval { start: prev.a.start, end: cur.a.end - room },
                        b: Interval { start: prev.b.start, end: cur.b.end - room },
                    },
                )
            } else {
                done.push(cur.shift(-d))
            }
        } else {
            done.push(cur)
        }
    }
}

/// A change that slid to the right up to the change after it, joined with that.
pub open spec fn join_right(cur: Edit, next: Edit, room: int) -> Edit {
    Edit {
        a: Interval { start: cur.a.start + room, end: next.a.end },
        b: Interval { start: cur.b.start + room, end: next.b.end },
    }
}

/// Slides each pure change to the right as far as it goes. One that reaches the
/// change after it is joined with that.
pub open spec fn merge_right(a: Seq<char>, b: Seq<char>, es: Seq<Edit>) -> Seq<Edit>
    decreases es.len(),
{
    if es.len() <= 1 {
        es
    } else {
        let cur = es[0];
        let next = es[1];
        let rest = es.drop_first();
        if pure(cur) {
            let room = next.a.start - cur.a.end;
            let d = right_run(a, b, cur, room, 0);
            if d == room {
                merge_right(a, b, rest.update(0, join_right(cur, next, room)))
            } else {
                seq![cur.shift(d)] + merge_right(a, b, rest)
            }
        } else {
            seq![cur] + merge_right(a, b, rest)
        }
    }
}

/// The changes, slid together to the left and then to the right.
pub open spec fn joined(a: Seq<char>, b: Seq<char>, es: Seq<Edit>) -> Seq<Edit> {
    merge_right(a, b, merge_left(a, b, es))
}

/// The longest move to a better place.
pub const MAX_SHIFT: i64 = 100;

/// An insertion into `a` may move `t` to the left if it may move `t - 1`: it stays
/// inside the bounds, and the element it gains equals the one it loses.
pub open spec fn may_go_left(b: Seq<char>, e: Edit, va: Interval, vb: Interval, t: int) -> bool {
    &&& e.a.start - t >= va.start
    &&& e.b.start - t >= vb.start
    &&& element(b, e.b.start - t) == element(b, e.b.end - t)
}

/// An insertion into `a` may move `t + 1` to the right if it may move `t`.
pub open spec fn may_go_right(b: Seq<char>, e: Edit, va: Interval, vb: Interval, t: int) -> bool {
    &&& e.a.start + t < va.end
    &&& e.b.end + t < vb.end
    &&& element(b, e.b.start + t) == element(b, e.b.end + t)
}

/// How far an insertion into `a` may move to the left inside the given bounds,
/// if it may move `t - 1` elements.
pub open spec fn before_run(b: Seq<char>, e: Edit, va: Interval, vb: Interval, t: int) -> int
    decreases MAX_SHIFT - t,
{
    if may_go_left(b, e, va, vb, t) && t < MAX_SHIFT {
        before_run(b, e, va, vb, t + 1)
    } else {
        t - 1
    }
}

/// How far an insertion into `a` may move to the right inside the given bounds,
/// if it may move `t` elements.
pub open spec fn after_run(b: Seq<char>, e: Edit, va: Interval, vb: Interval, t: int) -> int
    decreases MAX_SHIFT - t,
{
    if may_go_right(b, e, va, vb, t) && t < MAX_SHIFT {
        after_run(b, e, va, vb, t + 1)
    } else {
        t
    }
}

/// How good it is to move an insertion into `a` by `delta`.
pub open spec fn move_score(a: Seq<char>, b: Seq<char>, e: Edit, delta: int) -> int {
    score_at(a, e.a.start + delta) + score_at(b, e.b.start + delta) + score_at(b, e.b.end + delta)
}

/// The best move from `lo..=hi`, the leftmost of equals, with its score.
pub open spec fn best_move(a: Seq<char>, b: Seq<char>, e: Edit, lo: int, hi: int) -> (int, int)
    decreases hi + 1 - lo,
{
    if hi < lo {
        (0, -1)
    } else {
        let best = best_move(a, b, e, lo, hi - 1);
        let score = move_score(a, b, e, hi);
        if score > best.1 {
            (hi, score)
        } else {
            best
        }
    }
}

/// An insertion into `a`, at its best place inside the given bounds.
pub open spec fn best_place(
    a: Seq<char>,
    b: Seq<char>,
    e: Edit,
    va: Interval,
    vb: Interval,
) -> Edit {
    let before = before_run(b, e, va, vb, 1);
    let after = after_run(b, e, va, vb, 0);
    e.shift(best_move(a, b, e, -before, after).0)
}

/// The offsets between which change `i` may move, on the first side: at least
/// one element stays between it and its neighbours.
pub open spec fn room_a(es: Seq<Edit>, i: int, n: int) -> Interval {
    Interval {
        start: if i > 0 {
            es[i - 1].a.end + 1
        } else {
            0
        },
        end: if i + 1 < es.len() {
            es[i + 1].a.start - 1
        } else {
            n
        },
    }
}

/// The offsets between which change `i` may move, on the second side.
pub open spec fn room_b(es: Seq<Edit>, i: int, m: int) -> Interval {
    Interval {
        start: if i > 0 {
            es[i - 1].b.end + 1
        } else {
            0
        },
        end: if i + 1 < es.len() {
            es[i + 1].b.start - 1
        } else {
            m
        },
    }
}

/// Change `i` at its best place. Only a pure insertion or deletion moves.
pub open spec fn placed(a: Seq<char>, b: Seq<char>, es: Seq<Edit>, i: int) -> Edit {
    let e = es[i];
    let va = room_a(es, i, a.len() as int);
    let vb = room_b(es, i, b.len() as int);
    if e.a.empty() {
        best_place(a, b, e, va, vb)
    } else if e.b.empty() {
        best_place(b, a, e.swap(), vb, va).swap()
    } else {
        e
    }
}

/// The list with its first `k` changes placed, one after the other.
pub open spec fn place(a: Seq<char>, b: Seq<char>, es: Seq<Edit>, k: int) -> Seq<Edit>
    decreases k,
{
    if k <= 0 {
        es
    } else {
        let done = place(a, b, es, k - 1);
        done.update(k - 1, placed(a, b, done, k - 1))
    }
}

/// The changes joined twice, then placed.
pub open spec fn optimized(a: Seq<char>, b: Seq<char>, es: Seq<Edit>) -> Seq<Edit> {
    let twice = joined(a, b, joined(a, b, es));
    place(a, b, twice, twice.len() as int)
}

pub proof fn lemma_left_run(a: Seq<char>, b: Seq<char>, e: Edit, room: int, t: int)
    requires
        1 <= t,
        t - 1 <= room,
        forall|s: int| 1 <= s < t ==> #[trigger] slides(a, b, e, -s),
    ensures
        t - 1 <= left_run(a, b, e, room, t) <= room,
        forall|s: int|
            1 <= s <= left_run(a, b, e, room, t) ==> #[trigger] slides(a, b, e, -s),
    decreases room + 1 - t,
{
    if t <= room && slides(a, b, e, -t) {
        lemma_left_run(a, b, e, room, t + 1);
    }
}

pub proof fn lemma_right_run(a: Seq<char>, b: Seq<char>, e: Edit, room: int, t: int)
    requires
        0 <= t <= room,
        forall|s: int| 0 <= s < t ==> #[trigger] slides(a, b, e, s),
    ensures
        t <= right_run(a, b, e, room, t) <= room,
        forall|s: int| 0 <= s < right_run(a, b, e, room, t) ==> #[trigger] slides(a, b, e, s),
    decreases room - t,
{
    if t < room && slides(a, b, e, t) {
        lemma_right_run(a, b, e, room, t + 1);
    }
}

/// Moving a change over elements that it repeats keeps the list aligned.
pub proof fn lemma_aligned_shift(
    a: Seq<char>,
    b: Seq<char>,
    es: Seq<Edit>,
    n: int,
    m: int,
    i: int,
    by: int,
)
    requires
        n <= a.len(),
        m <= b.len(),
        aligned(a, b, es, n, m),
        0 <= i < es.len(),
        gap(es, n, m, i).a.len() + by >= 0,
        gap(es, n, m, i + 1).a.len() - by >= 0,
        forall|t: int|
            (by <= t < 0 || 0 <= t < by) ==> #[trigger] slides(a, b, es[i], t),
    ensures
        aligned(a, b, es.update(i, es[i].shift(by)), n, m),
{
    reveal(aligned);
    let e = es[i];
    let fs = es.update(i, e.shift(by));
    assert(e.within(n, m));
    assert(equal_run(a, b, gap(es, n, m, i), n, m));
    assert(equal_run(a, b, gap(es, n, m, i + 1), n, m));
    assert forall|j: int| 0 <= j < fs.len() implies #[trigger] fs[j].within(n, m) by {
        if j != i {
            assert(es[j].within(n, m));
        }
    }
    assert forall|j: int| 0 <= j <= fs.len() implies equal_run(
        a,
        b,
        #[trigger] gap(fs, n, m, j),
        n,
        m,
    ) by {
        let g = gap(es, n, m, j);
        let h = gap(fs, n, m, j);
        assert(equal_run(a, b, g, n, m));
        if j == i {
            assert forall|x: int| h.a.start <= x < h.a.start + h.a.len() implies #[trigger] a[x]
                == b[x - h.a.start + h.b.start] by {
                if x < e.a.start {
                    assert(a[x] == b[x - g.a.start + g.b.start]);
                } else {
                    let t = x - e.a.start;
                    assert(slides(a, b, e, t));
                    let next = gap(es, n, m, i + 1);
                    assert(a[e.a.end + t] == b[e.a.end + t - next.a.start + next.b.start]);
                }
            }
        } else if j == i + 1 {
            assert forall|x: int| h.a.start <= x < h.a.start + h.a.len() implies #[trigger] a[x]
                == b[x - h.a.start + h.b.start] by {
                if x >= e.a.end {
                    assert(a[x] == b[x - g.a.start + g.b.start]);
                } else {
                    let t = x - e.a.end;
                    assert(slides(a, b, e, t));
                    let prev = gap(es, n, m, i);
                    assert(a[e.a.start + t] == b[e.a.start + t - prev.a.start + prev.b.start]);
                }
            }
        } else {
            assert(h == g);
        }
    }
}

/// Joining two changes that touch keeps the list aligned.
pub proof fn lemma_aligned_fuse(a: Seq<char>, b: Seq<char>, es: Seq<Edit>, n: int, m: int, i: int)
    requires
        aligned(a, b, es, n, m),
        0 <= i,
        i + 1 < es.len(),
    ensures
        aligned(
            a,
            b,
            es.remove(i + 1).update(
                i,
                Edit {
                    a: Interval { start: es[i].a.start, end: es[i + 1].a.end },
                    b: Interval { start: es[i].b.start, end: es[i + 1].b.end },
                },
            ),
            n,
            m,
        ),
{
    reveal(aligned);
    let e = Edit {
        a: Interval { start: es[i].a.start, end: es[i + 1].a.end },
        b: Interval { start: es[i].b.start, end: es[i + 1].b.end },
    };
    let fs = es.remove(i + 1).update(i, e);
    assert(es[i].within(n, m));
    assert(es[i + 1].within(n, m));
    assert(equal_run(a, b, gap(es, n, m, i + 1), n, m));
    assert forall|j: int| 0 <= j < fs.len() implies #[trigger] fs[j].within(n, m) by {
        if j < i {
            assert(es[j].within(n, m));
        } else if j > i {
            assert(es[j + 1].within(n, m));
        }
    }
    assert forall|j: int| 0 <= j <= fs.len() implies equal_run(
        a,
        b,
        #[trigger] gap(fs, n, m, j),
        n,
        m,
    ) by {
        if j <= i {
            assert(equal_run(a, b, gap(es, n, m, j), n, m));
            assert(gap(fs, n, m, j) == gap(es, n, m, j));
        } else {
            assert(equal_run(a, b, gap(es, n, m, j + 1), n, m));
            assert(gap(fs, n, m, j) == gap(es, n, m, j + 1));
        }
    }
}

/// Sliding to the left keeps the list aligned and its changes apart.
pub proof fn lemma_merge_left(a: Seq<char>, b: Seq<char>, es: Seq<Edit>, n: int, m: int)
    requires
        n <= a.len(),
        m <= b.len(),
        aligned(a, b, es, n, m),
        spaced(es),
    ensures
        aligned(a, b, merge_left(a, b, es), n, m),
        spaced(merge_left(a, b, es)),
        es.len() > 0 ==> 0 < merge_left(a, b, es).len() <= es.len(),
        es.len() > 0 ==> merge_left(a, b, es).last().a.end <= es.last().a.end,
    decreases es.len(),
{
    if es.len() > 1 {
        let cur = es.last();
        let head = es.drop_last();
        lemma_aligned_at(a, b, es, n, m, es.len() - 1);
        lemma_aligned_take(a, b, es, n, m, es.len() - 1);
        assert(head =~= es.take(es.len() - 1));
        assert(spaced(head));
        lemma_merge_left(a, b, head, cur.a.start, cur.b.start);
        let done = merge_left(a, b, head);
        let prev = done.last();
        let last = done.len() as int;
        lemma_aligned_push(
            a,
            b,
            done,
            cur.a.start,
            cur.b.start,
            cur.a.end,
            cur.b.end,
        );
        let all = done.push(cur);
        assert(all =~= done.push(
            Edit {
                a: Interval { start: cur.a.start, end: cur.a.end },
                b: Interval { start: cur.b.start, end: cur.b.end },
            },
        ));
        lemma_aligned_extend(a, b, all, cur.a.end, cur.b.end, n - cur.a.end);
        lemma_aligned_at(a, b, all, n, m, last);
        let room = cur.a.start - prev.a.end;
        assert(room == gap(all, n, m, last).a.len());
        assert(head.last() == es[es.len() - 2]);
        assert(es[es.len() - 1].a.start > es[es.len() - 2].a.end);
        assert(room > 0);
        if pure(cur) {
            let d = left_run(a, b, cur, room, 1);
            lemma_left_run(a, b, cur, room, 1);
            assert forall|t: int| -d <= t < 0 implies #[trigger] slides(a, b, cur, t) by {
                assert(slides(a, b, cur, -(-t)));
            }
            lemma_aligned_shift(a, b, all, n, m, last, -d);
            let moved = all.update(last, cur.shift(-d));
            if d == room {
                lemma_aligned_fuse(a, b, moved, n, m, last - 1);
                let fused = Edit {
                    a: Interval { start: prev.a.start, end: cur.a.end - room },
                    b: Interval { start: prev.b.start, end: cur.b.end - room },
                };
                assert(moved.remove(last).update(last - 1, fused) =~= done.drop_last().push(
                    fused,
                ));
            } else {
                assert(moved =~= done.push(cur.shift(-d)));
            }
        }
    }
}

/// One change slid to the right: the list stays aligned and its changes apart.
proof fn lemma_right_step(
    a: Seq<char>,
    b: Seq<char>,
    head: Seq<Edit>,
    es: Seq<Edit>,
    n: int,
    m: int,
)
    requires
        n <= a.len(),
        m <= b.len(),
        aligned(a, b, head + es, n, m),
        spaced(head + es),
        es.len() > 1,
    ensures
        ({
            let cur = es[0];
            let room = es[1].a.start - cur.a.end;
            let d = right_run(a, b, cur, room, 0);
            let fused = head + es.drop_first().update(0, join_right(cur, es[1], room));
            let moved = head.push(cur.shift(d)) + es.drop_first();
            if d == room {
                aligned(a, b, fused, n, m) && spaced(fused)
            } else {
                aligned(a, b, moved, n, m) && spaced(moved)
            }
        }),
{
    let cur = es[0];
    let next = es[1];
    let rest = es.drop_first();
    let all = head + es;
    let i = head.len() as int;
    assert(all[i] == cur && all[i + 1] == next);
    lemma_aligned_at(a, b, all, n, m, i);
    lemma_aligned_at(a, b, all, n, m, i + 1);
    let room = next.a.start - cur.a.end;
    let d = right_run(a, b, cur, room, 0);
    lemma_right_run(a, b, cur, room, 0);
    lemma_aligned_shift(a, b, all, n, m, i, d);
    let moved = all.update(i, cur.shift(d));
    if d == room {
        lemma_aligned_fuse(a, b, moved, n, m, i);
        let fused = join_right(cur, next, room);
        let joint = head + rest.update(0, fused);
        assert(moved.remove(i + 1).update(i, fused) =~= joint);
        assert forall|h: int, j: int|
            #![trigger joint[h], joint[j]]
            0 <= h && j == h + 1 && j < joint.len() implies joint[h].a.end < joint[j].a.start by {
            if j > i {
                assert(joint[j] == all[j + 1]);
                assert(joint[h].a.end == all[j].a.end);
            } else {
                assert(joint[h] == all[h]);
                assert(all[h].a.end < all[j].a.start);
            }
        }
    } else {
        assert(moved =~= head.push(cur.shift(d)) + rest);
        assert forall|h: int, j: int|
            #![trigger moved[h], moved[j]]
            0 <= h && j == h + 1 && j < moved.len() implies moved[h].a.end < moved[j].a.start by {
            assert(all[h].a.end < all[j].a.start);
        }
    }
}

/// Sliding to the right keeps the list aligned and its changes apart, whatever
/// stands before the part that slides.
pub proof fn lemma_merge_right(
    a: Seq<char>,
    b: Seq<char>,
    head: Seq<Edit>,
    es: Seq<Edit>,
    n: int,
    m: int,
)
    requires
        n <= a.len(),
        m <= b.len(),
        aligned(a, b, head + es, n, m),
        spaced(head + es),
    ensures
        aligned(a, b, head + merge_right(a, b, es), n, m),
        spaced(head + merge_right(a, b, es)),
        merge_right(a, b, es).len() <= es.len(),
        es.len() > 0 ==> merge_right(a, b, es).len() > 0,
    decreases es.len(),
{
    if es.len() > 1 {
        let cur = es[0];
        let next = es[1];
        let rest = es.drop_first();
        if pure(cur) {
            lemma_right_step(a, b, head, es, n, m);
            let room = next.a.start - cur.a.end;
            let d = right_run(a, b, cur, room, 0);
            if d == room {
                lemma_merge_right(a, b, head, rest.update(0, join_right(cur, next, room)), n, m);
            } else {
                let longer = head.push(cur.shift(d));
                lemma_merge_right(a, b, longer, rest, n, m);
                assert(longer + merge_right(a, b, rest) =~= head + merge_right(a, b, es));
            }
        } else {
            let longer = head.push(cur);
            assert(head + es =~= longer + rest);
            lemma_merge_right(a, b, longer, rest, n, m);
            assert(longer + merge_right(a, b, rest) =~= head + merge_right(a, b, es));
        }
    }
}

/// Joining by sliding keeps the list aligned and its changes apart.
pub proof fn lemma_joined(a: Seq<char>, b: Seq<char>, es: Seq<Edit>)
    requires
        aligned(a, b, es, a.len() as int, b.len() as int),
        spaced(es),
    ensures
        aligned(a, b, joined(a, b, es), a.len() as int, b.len() as int),
        spaced(joined(a, b, es)),
{
    let n = a.len() as int;
    let m = b.len() as int;
    lemma_merge_left(a, b, es, n, m);
    let left = merge_left(a, b, es);
    let none = Seq::<Edit>::empty();
    assert(none + left =~= left);
    lemma_merge_right(a, b, none, left, n, m);
    assert(none + merge_right(a, b, left) =~= merge_right(a, b, left));
}

proof fn lemma_before_run(b: Seq<char>, e: Edit, va: Interval, vb: Interval, t: int)
    requires
        1 <= t <= MAX_SHIFT,
        forall|s: int|
            1 <= s < t ==> #[trigger] may_go_left(b, e, va, vb, s),
    ensures
        t - 1 <= before_run(b, e, va, vb, t) < MAX_SHIFT,
        forall|s: int|
            1 <= s <= before_run(b, e, va, vb, t) ==> #[trigger] may_go_left(b, e, va, vb, s),
    decreases MAX_SHIFT - t,
{
    if may_go_left(b, e, va, vb, t) && t < MAX_SHIFT {
        lemma_before_run(b, e, va, vb, t + 1);
    }
}

proof fn lemma_after_run(b: Seq<char>, e: Edit, va: Interval, vb: Interval, t: int)
    requires
        0 <= t <= MAX_SHIFT,
        forall|s: int|
            0 <= s < t ==> #[trigger] may_go_right(b, e, va, vb, s),
    ensures
        t <= after_run(b, e, va, vb, t) <= MAX_SHIFT,
        forall|s: int|
            0 <= s < after_run(b, e, va, vb, t) ==> #[trigger] may_go_right(b, e, va, vb, s),
    decreases MAX_SHIFT - t,
{
    if may_go_right(b, e, va, vb, t) && t < MAX_SHIFT {
        lemma_after_run(b, e, va, vb, t + 1);
    }
}

/// The best move is in range, no other scores higher, and none further to the
/// left scores as high.
pub proof fn lemma_best_move(a: Seq<char>, b: Seq<char>, e: Edit, lo: int, hi: int)
    requires
        lo <= hi,
    ensures
        lo <= best_move(a, b, e, lo, hi).0 <= hi,
        best_move(a, b, e, lo, hi).1 == move_score(a, b, e, best_move(a, b, e, lo, hi).0),
        forall|d: int|
            lo <= d <= hi ==> #[trigger] move_score(a, b, e, d) <= best_move(a, b, e, lo, hi).1,
        forall|d: int|
            lo <= d < best_move(a, b, e, lo, hi).0 ==> #[trigger] move_score(a, b, e, d)
                < best_move(a, b, e, lo, hi).1,
    decreases hi - lo,
{
    assert(best_move(a, b, e, lo, lo - 1) == (0int, -1int));
    if lo < hi {
        lemma_best_move(a, b, e, lo, hi - 1);
    }
}

/// How an insertion into `a` moves to its best place: over elements that it
/// repeats, and never as far as its neighbours.
proof fn lemma_best_place(a: Seq<char>, b: Seq<char>, e: Edit, va: Interval, vb: Interval) -> (by:
    int)
    requires
        e.a.start == e.a.end,
    ensures
        best_place(a, b, e, va, vb) == e.shift(by),
        -MAX_SHIFT <= by <= MAX_SHIFT,
        by < 0 ==> e.a.start + by >= va.start && e.b.start + by >= vb.start,
        by > 0 ==> e.a.start + by <= va.end && e.b.end + by <= vb.end,
        forall|t: int| (by <= t < 0 || 0 <= t < by) ==> #[trigger] slides(a, b, e, t),
{
    let before = before_run(b, e, va, vb, 1);
    let after = after_run(b, e, va, vb, 0);
    lemma_before_run(b, e, va, vb, 1);
    lemma_after_run(b, e, va, vb, 0);
    lemma_best_move(a, b, e, -before, after);
    let by = best_move(a, b, e, -before, after).0;
    if by < 0 {
        assert(may_go_left(b, e, va, vb, -by));
    }
    if by > 0 {
        assert(may_go_right(b, e, va, vb, by - 1));
    }
    assert forall|t: int| (by <= t < 0 || 0 <= t < by) implies #[trigger] slides(a, b, e, t) by {
        if t < 0 {
            assert(may_go_left(b, e, va, vb, -t));
        } else {
            assert(may_go_right(b, e, va, vb, t));
        }
    }
    by
}

/// Placing a change keeps the list aligned and its changes apart.
pub proof fn lemma_placed(a: Seq<char>, b: Seq<char>, es: Seq<Edit>, i: int)
    requires
        aligned(a, b, es, a.len() as int, b.len() as int),
        spaced(es),
        0 <= i < es.len(),
    ensures
        aligned(
            a,
            b,
            es.update(i, placed(a, b, es, i)),
            a.len() as int,
            b.len() as int,
        ),
        spaced(es.update(i, placed(a, b, es, i))),
{
    let n = a.len() as int;
    let m = b.len() as int;
    let e = es[i];
    let va = room_a(es, i, n);
    let vb = room_b(es, i, m);
    lemma_aligned_at(a, b, es, n, m, i);
    let before = gap(es, n, m, i);
    let after = gap(es, n, m, i + 1);
    let by = if e.a.empty() {
        lemma_best_place(a, b, e, va, vb)
    } else if e.b.empty() {
        let by = lemma_best_place(b, a, e.swap(), vb, va);
        assert forall|t: int| (by <= t < 0 || 0 <= t < by) implies #[trigger] slides(
            a,
            b,
            e,
            t,
        ) by {
            assert(slides(b, a, e.swap(), t));
        }
        by
    } else {
        0
    };
    assert(placed(a, b, es, i) == e.shift(by));
    if i > 0 {
        assert(es[i - 1].a.end < es[i].a.start);
    }
    if i + 1 < es.len() {
        assert(es[i].a.end < es[i + 1].a.start);
    }
    lemma_aligned_shift(a, b, es, n, m, i, by);
    let fs = es.update(i, e.shift(by));
    assert(spaced(fs)) by {
        assert forall|h: int, j: int|
            #![trigger fs[h], fs[j]]
            0 <= h && j == h + 1 && j < fs.len() implies fs[h].a.end < fs[j].a.start by {
            assert(es[h].a.end < es[j].a.start);
        }
    }
}

/// Placing all changes keeps the list aligned and its changes apart.
pub proof fn lemma_place(a: Seq<char>, b: Seq<char>, es: Seq<Edit>, k: int)
    requires
        aligned(a, b, es, a.len() as int, b.len() as int),
        spaced(es),
        k <= es.len(),
    ensures
        aligned(a, b, place(a, b, es, k), a.len() as int, b.len() as int),
        spaced(place(a, b, es, k)),
        place(a, b, es, k).len() == es.len(),
    decreases k,
{
    if k > 0 {
        lemma_place(a, b, es, k - 1);
        lemma_placed(a, b, place(a, b, es, k - 1), k - 1);
    }
}

/// What the raw changes leave out equally on both sides, the optimized ones do
/// too; and they stay apart.
pub proof fn lemma_optimized(a: Seq<char>, b: Seq<char>, es: Seq<Edit>)
    requires
        aligned(a, b, es, a.len() as int, b.len() as int),
        spaced(es),
    ensures
        aligned(a, b, optimized(a, b, es), a.len() as int, b.len() as int),
        spaced(optimized(a, b, es)),
{
    lemma_joined(a, b, es);
    lemma_joined(a, b, joined(a, b, es));
    let twice = joined(a, b, joined(a, b, es));
    lemma_place(a, b, twice, twice.len() as int);
}

/// The offsets of a change leave room to be added up: those of the first side
/// are no larger than a sequence can be, and the second side is no further away
/// from the first than that.
pub open spec fn roomy(e: Edit) -> bool {
    &&& e.a.within(MAX_ELEMENTS as int)
    &&& -MAX_ELEMENTS <= e.b.start - e.a.start <= MAX_ELEMENTS
    &&& -MAX_ELEMENTS <= e.b.end - e.a.end <= MAX_ELEMENTS
}

/// Sliding to the left stays within the room that there is on the first side.
proof fn lemma_merge_left_roomy(a: Seq<char>, b: Seq<char>, es: Seq<Edit>)
    requires
        forall|i: int| 0 <= i < es.len() ==> roomy(#[trigger] es[i]),
    ensures
        es.len() > 0 ==> merge_left(a, b, es).len() > 0,
        forall|i: int|
            0 <= i < merge_left(a, b, es).len() ==> roomy(#[trigger] merge_left(a, b, es)[i]),
    decreases es.len(),
{
    if es.len() > 1 {
        let head = es.drop_last();
        let done = merge_left(a, b, head);
        let cur = es.last();
        let all = merge_left(a, b, es);
        assert forall|i: int| 0 <= i < head.len() implies roomy(#[trigger] head[i]) by {
            assert(roomy(es[i]));
        }
        lemma_merge_left_roomy(a, b, head);
        assert(roomy(es[es.len() - 1]));
        let prev = done.last();
        assert(roomy(done[done.len() - 1]));
        let room = cur.a.start - prev.a.end;
        lemma_left_run_bound(a, b, cur, room, 1);
        assert forall|i: int| 0 <= i < all.len() implies roomy(#[trigger] all[i]) by {
            if i < done.len() {
                assert(roomy(done[i]));
            }
        }
    }
}

proof fn lemma_left_run_bound(a: Seq<char>, b: Seq<char>, e: Edit, room: int, t: int)
    requires
        1 <= t,
        t <= room + 1 || t == 1,
    ensures
        t - 1 <= left_run(a, b, e, room, t),
        left_run(a, b, e, room, t) <= room || left_run(a, b, e, room, t) == 0,
    decreases room + 1 - t,
{
    if t <= room && slides(a, b, e, -t) {
        lemma_left_run_bound(a, b, e, room, t + 1);
    }
}

proof fn lemma_right_run_bound(a: Seq<char>, b: Seq<char>, e: Edit, room: int, t: int)
    requires
        0 <= t,
        t <= room || t == 0,
    ensures
        t <= right_run(a, b, e, room, t),
        right_run(a, b, e, room, t) <= room || right_run(a, b, e, room, t) == 0,
    decreases room - t,
{
    if t < room && slides(a, b, e, t) {
        lemma_right_run_bound(a, b, e, room, t + 1);
    }
}

/// One step of sliding to the right stays within the room on the first side.
proof fn lemma_right_roomy(a: Seq<char>, b: Seq<char>, cur: Edit, next: Edit)
    requires
        roomy(cur),
        roomy(next),
    ensures
        ({
            let room = next.a.start - cur.a.end;
            let d = right_run(a, b, cur, room, 0);
            &&& 0 <= d
            &&& d <= room || d == 0
            &&& d == room ==> roomy(join_right(cur, next, room))
            &&& roomy(cur.shift(d))
        }),
{
    lemma_right_run_bound(a, b, cur, next.a.start - cur.a.end, 0);
}

proof fn lemma_merge_right_roomy(a: Seq<char>, b: Seq<char>, es: Seq<Edit>)
    requires
        forall|i: int| 0 <= i < es.len() ==> roomy(#[trigger] es[i]),
    ensures
        forall|i: int|
            0 <= i < merge_right(a, b, es).len() ==> roomy(#[trigger] merge_right(a, b, es)[i]),
    decreases es.len(),
{
    if es.len() > 1 {
        let cur = es[0];
        let next = es[1];
        let rest = es.drop_first();
        let room = next.a.start - cur.a.end;
        let d = right_run(a, b, cur, room, 0);
        let all = merge_right(a, b, es);
        assert(roomy(es[0]) && roomy(es[1]));
        lemma_right_roomy(a, b, cur, next);
        let tail = if pure(cur) && d == room {
            rest.update(0, join_right(cur, next, room))
        } else {
            rest
        };
        assert forall|i: int| 0 <= i < tail.len() implies roomy(#[trigger] tail[i]) by {
            assert(roomy(es[i + 1]));
        }
        lemma_merge_right_roomy(a, b, tail);
        let more = merge_right(a, b, tail);
        if !(pure(cur) && d == room) {
            assert forall|i: int| 0 <= i < all.len() implies roomy(#[trigger] all[i]) by {
                if i > 0 {
                    assert(all[i] == more[i - 1]);
                }
            }
        }
    }
}

fn slide_left(seq1: &CharSeq, seq2: &CharSeq, cur: SequenceDiff, room: i64) -> (d: i64)
    requires
        roomy(cur@),
        room <= MAX_ELEMENTS,
    ensures
        d == left_run(seq1@.chars, seq2@.chars, cur@, room as int, 1),
        0 <= d,
        d <= room || d == 0,
{
    let mut d: i64 = 1;
    while d <= room && seq1.is_strongly_equal(cur.seq1.start - d, cur.seq1.end - d)
        && seq2.is_strongly_equal(cur.seq2.start - d, cur.seq2.end - d)
        invariant
            roomy(cur@),
            1 <= d,
            d <= room + 1 || d == 1,
            room <= MAX_ELEMENTS,
            left_run(seq1@.chars, seq2@.chars, cur@, room as int, 1) == left_run(
                seq1@.chars,
                seq2@.chars,
                cur@,
                room as int,
                d as int,
            ),
        decreases room + 1 - d,
    {
        d = d + 1;
    }
    d - 1
}

fn slide_right(seq1: &CharSeq, seq2: &CharSeq, cur: SequenceDiff, room: i64) -> (d: i64)
    requires
        roomy(cur@),
        room <= MAX_ELEMENTS,
    ensures
        d == right_run(seq1@.chars, seq2@.chars, cur@, room as int, 0),
{
    let mut d: i64 = 0;
    while d < room && seq1.is_strongly_equal(cur.seq1.start + d, cur.seq1.end + d)
        && seq2.is_strongly_equal(cur.seq2.start + d, cur.seq2.end + d)
        invariant
            roomy(cur@),
            0 <= d,
            d <= room || d == 0,
            room <= MAX_ELEMENTS,
            right_run(seq1@.chars, seq2@.chars, cur@, room as int, 0) == right_run(
                seq1@.chars,
                seq2@.chars,
                cur@,
                room as int,
                d as int,
            ),
        decreases room - d,
    {
        d = d + 1;
    }
    d
}

/// Joins changes that touch once they slide over the text they repeat: first
/// to the left, then to the right.
pub fn join_sequence_diffs_by_shifting(
    seq1: &CharSeq,
    seq2: &CharSeq,
    diffs: Vec<SequenceDiff>,
) -> (result: Vec<SequenceDiff>)
    requires
        forall|i: int| 0 <= i < diffs@.len() ==> roomy((#[trigger] diffs@[i])@),
    ensures
        edits(result@) == joined(seq1@.chars, seq2@.chars, edits(diffs@)),
        forall|i: int| 0 <= i < result@.len() ==> roomy((#[trigger] result@[i])@),
{
    if diffs.len() == 0 {
        return diffs;
    }
    let ghost a = seq1@.chars;
    let ghost b = seq2@.chars;
    let ghost es = edits(diffs@);
    let mut result: Vec<SequenceDiff> = Vec::new();
    result.push(diffs[0]);
    let mut i: usize = 1;
    assert(edits(result@) =~= es.take(1));
    while i < diffs.len()
        invariant
            1 <= i <= diffs@.len(),
            a == seq1@.chars,
            b == seq2@.chars,
            es == edits(diffs@),
            forall|k: int| 0 <= k < diffs@.len() ==> roomy((#[trigger] diffs@[k])@),
            result@.len() > 0,
            edits(result@) == merge_left(a, b, es.take(i as int)),
        decreases diffs@.len() - i,
    {
        let last: usize = result.len() - 1;
        let prev: SequenceDiff = result[last];
        let cur: SequenceDiff = diffs[i];
        proof {
            let head = es.take(i as int);
            assert forall|k: int| 0 <= k < head.len() implies roomy(#[trigger] head[k]) by {
                assert(roomy(diffs@[k]@));
            }
            lemma_merge_left_roomy(a, b, head);
            assert(edits(result@)[last as int] == prev@);
            assert(es.take(i + 1).drop_last() =~= head);
            assert(es.take(i + 1).last() == cur@);
        }
        let ghost before = result@;
        if cur.seq1.is_empty() || cur.seq2.is_empty() {
            let room: i64 = cur.seq1.start - prev.seq1.end;
            let d: i64 = slide_left(seq1, seq2, cur, room);
            if d == room {
                let fused: SequenceDiff = SequenceDiff {
                    seq1: OffsetRange { start: prev.seq1.start, end: cur.seq1.end - room },
                    seq2: OffsetRange { start: prev.seq2.start, end: cur.seq2.end - room },
                };
                result.set(last, fused);
                proof {
                    lemma_edits_update(before, last as int, fused);
                    assert(edits(result@) =~= edits(before).drop_last().push(fused@));
                }
            } else {
                let moved: SequenceDiff = delta_diff(cur, -d);
                result.push(moved);
                proof {
                    lemma_edits_push(before, moved);
                }
            }
        } else {
            result.push(cur);
            proof {
                lemma_edits_push(before, cur);
            }
        }
        i = i + 1;
    }
    assert(es.take(i as int) =~= es);
    let ghost left = merge_left(a, b, es);
    proof {
        assert forall|k: int| 0 <= k < es.len() implies roomy(#[trigger] es[k]) by {
            assert(roomy(diffs@[k]@));
        }
        lemma_merge_left_roomy(a, b, es);
        lemma_merge_right_roomy(a, b, left);
        assert forall|k: int| 0 <= k < result@.len() implies roomy((#[trigger] result@[k])@) by {
            assert(left[k] == result@[k]@);
        }
    }
    let mut result2: Vec<SequenceDiff> = Vec::new();
    let mut i: usize = 0;
    assert(left.skip(0) =~= left);
    assert(edits(result2@) =~= Seq::empty());
    assert(edits(result2@) + merge_right(a, b, left) =~= merge_right(a, b, left));
    while i < result.len() - 1
        invariant
            i < result@.len(),
            a == seq1@.chars,
            b == seq2@.chars,
            forall|k: int| 0 <= k < result@.len() ==> roomy((#[trigger] result@[k])@),
            edits(result2@) + merge_right(a, b, edits(result@).skip(i as int)) == merge_right(
                a,
                b,
                left,
            ),
        decreases result@.len() - i,
    {
        let cur: SequenceDiff = result[i];
        let next: SequenceDiff = result[i + 1];
        let ghost head = edits(result2@);
        let ghost tail = edits(result@).skip(i as int);
        proof {
            assert(tail[0] == cur@ && tail[1] == next@);
            lemma_right_roomy(a, b, cur@, next@);
        }
        let ghost before = result@;
        let ghost before2 = result2@;
        if cur.seq1.is_empty() || cur.seq2.is_empty() {
            let room: i64 = next.seq1.start - cur.seq1.end;
            let d: i64 = slide_right(seq1, seq2, cur, room);
            if d == room {
                let fused: SequenceDiff = SequenceDiff {
                    seq1: OffsetRange { start: cur.seq1.start + room, end: next.seq1.end },
                    seq2: OffsetRange { start: cur.seq2.start + room, end: next.seq2.end },
                };
                result.set(i + 1, fused);
                proof {
                    lemma_edits_update(before, i + 1, fused);
                    assert(edits(result@).skip(i + 1) =~= tail.drop_first().update(0, fused@));
                }
            } else {
                let moved: SequenceDiff = delta_diff(cur, d);
                result2.push(moved);
                proof {
                    lemma_edits_push(before2, moved);
                    assert(edits(result@).skip(i + 1) =~= tail.drop_first());
                    let rest = merge_right(a, b, tail.drop_first());
                    assert(head + (seq![moved@] + rest) =~= head.push(moved@) + rest);
                }
            }
        } else {
            result2.push(cur);
            proof {
                lemma_edits_push(before2, cur);
                assert(edits(result@).skip(i + 1) =~= tail.drop_first());
                let rest = merge_right(a, b, tail.drop_first());
                assert(head + (seq![cur@] + rest) =~= head.push(cur@) + rest);
            }
        }
        i = i + 1;
    }
    let last: SequenceDiff = result[i];
    let ghost before2 = result2@;
    result2.push(last);
    proof {
        lemma_edits_push(before2, last);
        assert(edits(result@).skip(i as int) =~= seq![last@]);
        assert(edits(before2) + seq![last@] =~= edits(before2).push(last@));
        assert forall|k: int| 0 <= k < result2@.len() implies roomy((#[trigger] result2@[k])@) by {
            assert(edits(result2@)[k] == result2@[k]@);
        }
    }
    result2
}

/// Every offset of a change lies between `-limit` and `limit`.
pub open spec fn near(e: Edit, limit: int) -> bool {
    &&& -limit <= e.a.start <= limit && -limit <= e.a.end <= limit
    &&& -limit <= e.b.start <= limit && -limit <= e.b.end <= limit
}

/// A change moves by at most `MAX_SHIFT` to its best place.
proof fn lemma_placed_near(a: Seq<char>, b: Seq<char>, es: Seq<Edit>, i: int)
    requires
        roomy(es[i]),
    ensures
        near(placed(a, b, es, i), 2 * MAX_ELEMENTS + MAX_SHIFT),
{
    let e = es[i];
    let va = room_a(es, i, a.len() as int);
    let vb = room_b(es, i, b.len() as int);
    if e.a.empty() {
        let before = before_run(b, e, va, vb, 1);
        let after = after_run(b, e, va, vb, 0);
        lemma_before_run(b, e, va, vb, 1);
        lemma_after_run(b, e, va, vb, 0);
        lemma_best_move(a, b, e, -before, after);
    } else if e.b.empty() {
        let before = before_run(a, e.swap(), vb, va, 1);
        let after = after_run(a, e.swap(), vb, va, 0);
        lemma_before_run(a, e.swap(), vb, va, 1);
        lemma_after_run(a, e.swap(), vb, va, 0);
        lemma_best_move(b, a, e.swap(), -before, after);
    }
}

/// Moves an insertion into the first sequence to the place inside the given
/// bounds that reads best.
pub fn shift_diff_to_better_position(
    diff: SequenceDiff,
    seq1: &CharSeq,
    seq2: &CharSeq,
    seq1_valid: OffsetRange,
    seq2_valid: OffsetRange,
) -> (moved: SequenceDiff)
    requires
        seq1@.len() <= MAX_ELEMENTS,
        seq2@.len() <= MAX_ELEMENTS,
        near(diff@, 3 * MAX_ELEMENTS),
    ensures
        moved@ == best_place(seq1@.chars, seq2@.chars, diff@, seq1_valid@, seq2_valid@),
{
    let ghost a = seq1@.chars;
    let ghost b = seq2@.chars;
    let mut delta_before: i64 = 1;
    while diff.seq1.start - delta_before >= seq1_valid.start && diff.seq2.start - delta_before
        >= seq2_valid.start && seq2.is_strongly_equal(
        diff.seq2.start - delta_before,
        diff.seq2.end - delta_before,
    ) && delta_before < MAX_SHIFT
        invariant
            b == seq2@.chars,
            1 <= delta_before <= MAX_SHIFT,
            near(diff@, 3 * MAX_ELEMENTS),
            before_run(b, diff@, seq1_valid@, seq2_valid@, 1) == before_run(
                b,
                diff@,
                seq1_valid@,
                seq2_valid@,
                delta_before as int,
            ),
        decreases MAX_SHIFT - delta_before,
    {
        delta_before = delta_before + 1;
    }
    delta_before = delta_before - 1;
    let mut delta_after: i64 = 0;
    while diff.seq1.start + delta_after < seq1_valid.end && diff.seq2.end + delta_after
        < seq2_valid.end && seq2.is_strongly_equal(
        diff.seq2.start + delta_after,
        diff.seq2.end + delta_after,
    ) && delta_after < MAX_SHIFT
        invariant
            b == seq2@.chars,
            0 <= delta_after <= MAX_SHIFT,
            near(diff@, 3 * MAX_ELEMENTS),
            after_run(b, diff@, seq1_valid@, seq2_valid@, 0) == after_run(
                b,
                diff@,
                seq1_valid@,
                seq2_valid@,
                delta_after as int,
            ),
        decreases MAX_SHIFT - delta_after,
    {
        delta_after = delta_after + 1;
    }
    let mut best_delta: i64 = 0;
    let mut best_score: i64 = -1;
    let mut delta: i64 = -delta_before;
    while delta <= delta_after
        invariant
            a == seq1@.chars,
            b == seq2@.chars,
            seq1@.len() <= MAX_ELEMENTS,
            seq2@.len() <= MAX_ELEMENTS,
            near(diff@, 3 * MAX_ELEMENTS),
            0 <= delta_before < MAX_SHIFT,
            0 <= delta_after <= MAX_SHIFT,
            -delta_before <= delta <= delta_after + 1,
            -delta_before <= best_delta <= delta_after,
            (best_delta as int, best_score as int) == best_move(
                a,
                b,
                diff@,
                -delta_before as int,
                delta - 1,
            ),
        decreases delta_after + 1 - delta,
    {
        let score: i64 = seq1.boundary_score(diff.seq1.start + delta) + seq2.boundary_score(
            diff.seq2.start + delta,
        ) + seq2.boundary_score(diff.seq2.end + delta);
        if score > best_score {
            best_score = score;
            best_delta = delta;
        }
        delta = delta + 1;
    }
    delta_diff(diff, best_delta)
}

/// Moves each pure insertion or deletion to where it reads best.
pub fn shift_sequence_diffs(
    seq1: &CharSeq,
    seq2: &CharSeq,
    diffs: Vec<SequenceDiff>,
) -> (result: Vec<SequenceDiff>)
    requires
        seq1@.len() <= MAX_ELEMENTS,
        seq2@.len() <= MAX_ELEMENTS,
        forall|i: int| 0 <= i < diffs@.len() ==> roomy((#[trigger] diffs@[i])@),
    ensures
        edits(result@) == place(
            seq1@.chars,
            seq2@.chars,
            edits(diffs@),
            edits(diffs@).len() as int,
        ),
{
    let ghost a = seq1@.chars;
    let ghost b = seq2@.chars;
    let ghost es = edits(diffs@);
    let mut result: Vec<SequenceDiff> = diffs;
    let mut i: usize = 0;
    while i < result.len()
        invariant
            i <= result@.len(),
            a == seq1@.chars,
            b == seq2@.chars,
            seq1@.len() <= MAX_ELEMENTS,
            seq2@.len() <= MAX_ELEMENTS,
            forall|k: int| i <= k < result@.len() ==> roomy((#[trigger] result@[k])@),
            forall|k: int|
                0 <= k < i ==> near((#[trigger] result@[k])@, 2 * MAX_ELEMENTS + MAX_SHIFT),
            es.len() == result@.len(),
            edits(result@) == place(a, b, es, i as int),
        decreases result@.len() - i,
    {
        let ghost before = result@;
        let ghost now = edits(before);
        let diff: SequenceDiff = result[i];
        let start: (i64, i64) = if i > 0 {
            (result[i - 1].seq1.end + 1, result[i - 1].seq2.end + 1)
        } else {
            (0, 0)
        };
        let end: (i64, i64) = if i < result.len() - 1 {
            (result[i + 1].seq1.start - 1, result[i + 1].seq2.start - 1)
        } else {
            (seq1.length(), seq2.length())
        };
        let seq1_valid: OffsetRange = OffsetRange { start: start.0, end: end.0 };
        let seq2_valid: OffsetRange = OffsetRange { start: start.1, end: end.1 };
        proof {
            assert(now[i as int] == diff@);
            assert(i > 0 ==> now[i - 1] == before[i - 1]@);
            assert(i + 1 < before.len() ==> now[i + 1] == before[i + 1]@);
            assert(seq1_valid@ == room_a(now, i as int, seq1@.len()));
            assert(seq2_valid@ == room_b(now, i as int, seq2@.len()));
            lemma_placed_near(a, b, now, i as int);
        }
        let put: SequenceDiff = if diff.seq1.is_empty() {
            shift_diff_to_better_position(diff, seq1, seq2, seq1_valid, seq2_valid)
        } else if diff.seq2.is_empty() {
            let swapped: SequenceDiff = SequenceDiff { seq1: diff.seq2, seq2: diff.seq1 };
            let shifted: SequenceDiff = shift_diff_to_better_position(
                swapped,
                seq2,
                seq1,
                seq2_valid,
                seq1_valid,
            );
            SequenceDiff { seq1: shifted.seq2, seq2: shifted.seq1 }
        } else {
            diff
        };
        assert(put@ == placed(a, b, now, i as int));
        result.set(i, put);
        proof {
            lemma_edits_update(before, i as int, put);
        }
        i = i + 1;
    }
    result
}

/// Joins changes by shifting, twice, and then shifts each to where it reads
/// best.
pub fn optimize_sequence_diffs(
    seq1: &CharSeq,
    seq2: &CharSeq,
    diffs: Vec<SequenceDiff>,
) -> (result: Vec<SequenceDiff>)
    requires
        seq1@.len() <= MAX_ELEMENTS,
        seq2@.len() <= MAX_ELEMENTS,
        forall|i: int| 0 <= i < diffs@.len() ==> roomy((#[trigger] diffs@[i])@),
    ensures
        edits(result@) == optimized(seq1@.chars, seq2@.chars, edits(diffs@)),
{
    let once: Vec<SequenceDiff> = join_sequence_diffs_by_shifting(seq1, seq2, diffs);
    let twice: Vec<SequenceDiff> = join_sequence_diffs_by_shifting(seq1, seq2, once);
    shift_sequence_diffs(seq1, seq2, twice)
}

} // verus!
