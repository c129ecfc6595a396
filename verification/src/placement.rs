//! Where pure insertions and deletions end up: the best place that they can be
//! slid to.

use vstd::prelude::*;

use crate::char_seq::score_at;
use crate::chars::element;
use crate::matching::{aligned, lemma_aligned_at, spaced};
use crate::ranges::{Edit, Interval};
use crate::shifting::{
    after_run, before_run, best_move, best_place, left_run, lemma_best_move, lemma_place,
    may_go_left, may_go_right, merge_left, merge_right, move_score, place, placed, right_run,
    room_a, room_b, slides,
};

verus! {

/// Whether an insertion of `b[e.b.start..e.b.end]` can be slid by `delta`, to the
/// left if that is negative: it stays inside the bounds, and each element on the
/// way equals the one that lies the length of the insertion behind it.
pub open spec fn can_slide(b: Seq<char>, e: Edit, va: Interval, vb: Interval, delta: int) -> bool {
    let by = e.b.end - e.b.start;
    if delta < 0 {
        &&& va.start <= e.a.start + delta
        &&& vb.start <= e.b.start + delta
        &&& forall|x: int| e.b.start + delta <= x < e.b.start ==> #[trigger] b[x] == b[x + by]
    } else if delta > 0 {
        &&& e.a.start + delta <= va.end
        &&& e.b.end + delta <= vb.end
        &&& forall|x: int| e.b.start <= x < e.b.start + delta ==> #[trigger] b[x] == b[x + by]
    } else {
        true
    }
}

/// How good a place is: the scores of the three offsets at which the two texts
/// are cut there.
pub open spec fn place_score(a: Seq<char>, b: Seq<char>, e: Edit, delta: int) -> int {
    score_at(a, e.a.start + delta) + score_at(b, e.b.start + delta) + score_at(b, e.b.end + delta)
}

/// The search to the left stops no earlier than the text, the bounds or the
/// limit stop it.
proof fn lemma_before_reaches(
    b: Seq<char>,
    e: Edit,
    va: Interval,
    vb: Interval,
    far: int,
    t: int,
)
    requires
        1 <= t <= far + 1,
        far <= 99,
        0 <= vb.start <= e.b.start - far,
        va.start <= e.a.start - far,
        e.b.start <= e.b.end <= b.len(),
        forall|x: int|
            e.b.start - far <= x < e.b.start ==> #[trigger] b[x] == b[x + (e.b.end - e.b.start)],
    ensures
        before_run(b, e, va, vb, t) >= far,
    decreases far + 1 - t,
{
    if t <= far {
        let x = e.b.start - t;
        assert(b[x] == b[x + (e.b.end - e.b.start)]);
        assert(may_go_left(b, e, va, vb, t));
        lemma_before_reaches(b, e, va, vb, far, t + 1);
    } else {
        lemma_before_grows(b, e, va, vb, t);
    }
}

proof fn lemma_before_grows(b: Seq<char>, e: Edit, va: Interval, vb: Interval, t: int)
    requires
        t <= 100,
    ensures
        t - 1 <= before_run(b, e, va, vb, t) <= 99,
        forall|s: int|
            t <= s <= before_run(b, e, va, vb, t) ==> #[trigger] may_go_left(b, e, va, vb, s),
    decreases 100 - t,
{
    if may_go_left(b, e, va, vb, t) && t < 100 {
        lemma_before_grows(b, e, va, vb, t + 1);
    }
}

/// The search to the right stops no earlier than the text, the bounds or the
/// limit stop it.
proof fn lemma_after_reaches(b: Seq<char>, e: Edit, va: Interval, vb: Interval, far: int, t: int)
    requires
        0 <= t <= far,
        far <= 100,
        0 <= e.b.start,
        e.a.start + far <= va.end,
        e.b.end + far <= vb.end <= b.len(),
        e.b.start <= e.b.end,
        forall|x: int|
            e.b.start <= x < e.b.start + far ==> #[trigger] b[x] == b[x + (e.b.end - e.b.start)],
    ensures
        after_run(b, e, va, vb, t) >= far,
    decreases far - t,
{
    if t < far {
        let x = e.b.start + t;
        assert(b[x] == b[x + (e.b.end - e.b.start)]);
        assert(may_go_right(b, e, va, vb, t));
        lemma_after_reaches(b, e, va, vb, far, t + 1);
    } else {
        lemma_after_grows(b, e, va, vb, t);
    }
}

proof fn lemma_after_grows(b: Seq<char>, e: Edit, va: Interval, vb: Interval, t: int)
    requires
        t <= 100,
    ensures
        t <= after_run(b, e, va, vb, t) <= 100,
        forall|s: int|
            t <= s < after_run(b, e, va, vb, t) ==> #[trigger] may_go_right(b, e, va, vb, s),
    decreases 100 - t,
{
    if may_go_right(b, e, va, vb, t) && t < 100 {
        lemma_after_grows(b, e, va, vb, t + 1);
    }
}

/// An insertion is put at the best of all places that it can be slid to, up to
/// 99 elements to the left and 100 to the right; at the leftmost of equally good
/// ones. Only its place changes.
pub proof fn the_chosen_place_is_best(
    a: Seq<char>,
    b: Seq<char>,
    e: Edit,
    va: Interval,
    vb: Interval,
    delta: int,
)
    requires
        e.a.start == e.a.end,
        0 <= vb.start,
        0 <= e.b.start <= e.b.end <= b.len(),
        vb.end <= b.len(),
        -99 <= delta <= 100,
        can_slide(b, e, va, vb, delta),
    ensures
        ({
            let chosen = best_place(a, b, e, va, vb);
            let by = chosen.a.start - e.a.start;
            &&& chosen.a.end == e.a.end + by
            &&& chosen.b.start == e.b.start + by
            &&& chosen.b.end == e.b.end + by
            &&& -99 <= by <= 100
            &&& can_slide(b, e, va, vb, by)
            &&& place_score(a, b, e, by) >= place_score(a, b, e, delta)
            &&& place_score(a, b, e, by) == place_score(a, b, e, delta) ==> by <= delta
        }),
{
    let before = before_run(b, e, va, vb, 1);
    let after = after_run(b, e, va, vb, 0);
    lemma_before_grows(b, e, va, vb, 1);
    lemma_after_grows(b, e, va, vb, 0);
    lemma_best_move(a, b, e, -before, after);
    if delta < 0 {
        lemma_before_reaches(b, e, va, vb, -delta, 1);
    } else if delta > 0 {
        lemma_after_reaches(b, e, va, vb, delta, 0);
    }
    assert(move_score(a, b, e, delta) == place_score(a, b, e, delta));
    let by = best_move(a, b, e, -before, after).0;
    assert(move_score(a, b, e, by) == place_score(a, b, e, by));
    let len = e.b.end - e.b.start;
    if by < 0 {
        assert(may_go_left(b, e, va, vb, -by));
        assert forall|x: int| e.b.start + by <= x < e.b.start implies #[trigger] b[x] == b[x
            + len] by {
            assert(may_go_left(b, e, va, vb, e.b.start - x));
        }
    } else if by > 0 {
        assert(may_go_right(b, e, va, vb, by - 1));
        assert forall|x: int| e.b.start <= x < e.b.start + by implies #[trigger] b[x] == b[x
            + len] by {
            assert(may_go_right(b, e, va, vb, x - e.b.start));
        }
    }
}

/// Placing the changes from `k` on leaves those before it alone, and placing
/// those before `k` leaves the rest alone.
proof fn lemma_place_steps(a: Seq<char>, b: Seq<char>, es: Seq<Edit>, i: int, k: int)
    requires
        0 <= i < es.len(),
        0 <= k <= es.len(),
    ensures
        place(a, b, es, k).len() == es.len(),
        k <= i ==> place(a, b, es, k)[i] == es[i],
        k > i ==> place(a, b, es, k)[i] == place(a, b, es, i + 1)[i],
    decreases k,
{
    if k > 0 {
        lemma_place_steps(a, b, es, i, k - 1);
    }
}

/// In a list of changes, each pure insertion or deletion is put at the best
/// place that it can be slid to without coming closer than one element to the
/// change before it, where that was put, or to the change after it; at the
/// leftmost of equally good places. The other changes stay.
pub proof fn changes_stand_at_their_best_place(
    a: Seq<char>,
    b: Seq<char>,
    es: Seq<Edit>,
    i: int,
    delta: int,
)
    requires
        aligned(a, b, es, a.len() as int, b.len() as int),
        spaced(es),
        0 <= i < es.len(),
        -99 <= delta <= 100,
    ensures
        ({
            let fs = place(a, b, es, es.len() as int);
            let e = es[i];
            let f = fs[i];
            let va = Interval {
                start: if i > 0 {
                    fs[i - 1].a.end + 1
                } else {
                    0
                },
                end: if i + 1 < es.len() {
                    es[i + 1].a.start - 1
                } else {
                    a.len() as int
                },
            };
            let vb = Interval {
                start: if i > 0 {
                    fs[i - 1].b.end + 1
                } else {
                    0
                },
                end: if i + 1 < es.len() {
                    es[i + 1].b.start - 1
                } else {
                    b.len() as int
                },
            };
            let by = f.a.start - e.a.start;
            let turned = Edit { a: e.b, b: e.a };
            &&& fs.len() == es.len()
            &&& f.a.end == e.a.end + by && f.b.start == e.b.start + by && f.b.end == e.b.end + by
            &&& -99 <= by <= 100
            &&& e.a.start < e.a.end && e.b.start < e.b.end ==> f == e
            &&& e.a.start == e.a.end ==> can_slide(b, e, va, vb, by)
            &&& e.a.start == e.a.end && can_slide(b, e, va, vb, delta) ==> {
                &&& place_score(a, b, e, by) >= place_score(a, b, e, delta)
                &&& place_score(a, b, e, by) == place_score(a, b, e, delta) ==> by <= delta
            }
            &&& e.a.start < e.a.end && e.b.start == e.b.end ==> can_slide(a, turned, vb, va, by)
            &&& e.a.start < e.a.end && e.b.start == e.b.end && can_slide(
                a,
                turned,
                vb,
                va,
                delta,
            ) ==> {
                &&& place_score(b, a, turned, by) >= place_score(b, a, turned, delta)
                &&& place_score(b, a, turned, by) == place_score(b, a, turned, delta) ==> by
                    <= delta
            }
        }),
{
    let n = a.len() as int;
    let m = b.len() as int;
    let done = place(a, b, es, i);
    let fs = place(a, b, es, es.len() as int);
    lemma_place(a, b, es, i);
    lemma_place_steps(a, b, es, i, i);
    lemma_place_steps(a, b, es, i, es.len() as int);
    lemma_aligned_at(a, b, es, n, m, i);
    if i > 0 {
        lemma_place_steps(a, b, es, i - 1, es.len() as int);
        lemma_place_steps(a, b, es, i - 1, i);
        lemma_aligned_at(a, b, done, n, m, i - 1);
        assert(done[i - 1] == fs[i - 1]);
    }
    if i + 1 < es.len() {
        lemma_place_steps(a, b, es, i + 1, i);
        lemma_aligned_at(a, b, es, n, m, i + 1);
        assert(done[i + 1] == es[i + 1]);
    }
    assert(place(a, b, es, i + 1) == done.update(i, placed(a, b, done, i)));
    assert(fs[i] == placed(a, b, done, i));
    let e = es[i];
    let va = room_a(done, i, n);
    let vb = room_b(done, i, m);
    if e.a.start == e.a.end {
        the_chosen_place_is_best(a, b, e, va, vb, 0);
        if can_slide(b, e, va, vb, delta) {
            the_chosen_place_is_best(a, b, e, va, vb, delta);
        }
    } else if e.b.start == e.b.end {
        the_chosen_place_is_best(b, a, e.swap(), vb, va, 0);
        if can_slide(a, e.swap(), vb, va, delta) {
            the_chosen_place_is_best(b, a, e.swap(), vb, va, delta);
        }
    }
}

/// Each of the elements from `lo` to `hi` equals the one `by` elements behind it.
pub open spec fn repeats(s: Seq<char>, lo: int, hi: int, by: int) -> bool {
    forall|x: int| lo <= x < hi ==> #[trigger] element(s, x) == element(s, x + by)
}

proof fn lemma_left_stops(a: Seq<char>, b: Seq<char>, e: Edit, room: int, t: int)
    requires
        1 <= t,
    ensures
        t - 1 <= left_run(a, b, e, room, t),
        t - 1 <= room ==> left_run(a, b, e, room, t) <= room,
        t - 1 > room ==> left_run(a, b, e, room, t) == t - 1,
        forall|s: int| t <= s <= left_run(a, b, e, room, t) ==> #[trigger] slides(a, b, e, -s),
        left_run(a, b, e, room, t) < room ==> !slides(
            a,
            b,
            e,
            -(left_run(a, b, e, room, t) + 1),
        ),
    decreases room + 1 - t,
{
    if t <= room && slides(a, b, e, -t) {
        lemma_left_stops(a, b, e, room, t + 1);
    }
}

proof fn lemma_right_stops(a: Seq<char>, b: Seq<char>, e: Edit, room: int, t: int)
    requires
        0 <= t,
    ensures
        t <= right_run(a, b, e, room, t),
        t <= room ==> right_run(a, b, e, room, t) <= room,
        t > room ==> right_run(a, b, e, room, t) == t,
        forall|s: int| t <= s < right_run(a, b, e, room, t) ==> #[trigger] slides(a, b, e, s),
        right_run(a, b, e, room, t) < room ==> !slides(a, b, e, right_run(a, b, e, room, t)),
    decreases room - t,
{
    if t < room && slides(a, b, e, t) {
        lemma_right_stops(a, b, e, room, t + 1);
    }
}

/// How one more change is slid to the left. A pure insertion or deletion goes as
/// far as the text repeats, up to the change before it, and is joined with that
/// if it gets there. Another change stays. Returns how far it goes.
pub proof fn pure_changes_slide_to_the_left(
    a: Seq<char>,
    b: Seq<char>,
    es: Seq<Edit>,
    cur: Edit,
) -> (d: int)
    requires
        es.len() > 0,
    ensures
        ({
            let done = merge_left(a, b, es);
            let prev = done.last();
            let len_a = cur.a.end - cur.a.start;
            let len_b = cur.b.end - cur.b.start;
            let room = cur.a.start - prev.a.end;
            let pure_change = len_a <= 0 || len_b <= 0;
            let moved = Edit {
                a: Interval { start: cur.a.start - d, end: cur.a.end - d },
                b: Interval { start: cur.b.start - d, end: cur.b.end - d },
            };
            &&& 0 <= d
            &&& !pure_change ==> d == 0
            &&& d > 0 ==> d <= room
            &&& repeats(a, cur.a.start - d, cur.a.start, len_a)
            &&& repeats(b, cur.b.start - d, cur.b.start, len_b)
            &&& pure_change && d < room ==> !(element(a, cur.a.start - d - 1) == element(
                a,
                cur.a.end - d - 1,
            ) && element(b, cur.b.start - d - 1) == element(b, cur.b.end - d - 1))
            &&& merge_left(a, b, es.push(cur)) == (if pure_change && d == room {
                done.drop_last().push(
                    Edit {
                        a: Interval { start: prev.a.start, end: moved.a.end },
                        b: Interval { start: prev.b.start, end: moved.b.end },
                    },
                )
            } else {
                done.push(moved)
            })
        }),
{
    let done = merge_left(a, b, es);
    let prev = done.last();
    let all = es.push(cur);
    assert(all.drop_last() =~= es);
    if cur.a.end <= cur.a.start || cur.b.end <= cur.b.start {
        let room = cur.a.start - prev.a.end;
        let d = left_run(a, b, cur, room, 1);
        lemma_left_stops(a, b, cur, room, 1);
        assert forall|x: int| cur.a.start - d <= x < cur.a.start implies #[trigger] element(a, x)
            == element(a, x + (cur.a.end - cur.a.start)) by {
            assert(slides(a, b, cur, -(cur.a.start - x)));
        }
        assert forall|x: int| cur.b.start - d <= x < cur.b.start implies #[trigger] element(b, x)
            == element(b, x + (cur.b.end - cur.b.start)) by {
            assert(slides(a, b, cur, -(cur.b.start - x)));
        }
        d
    } else {
        0
    }
}

/// How the first change is slid to the right. A pure insertion or deletion goes
/// as far as the text repeats, up to the change after it, and is joined with that
/// if it gets there. Another change stays. Returns how far it goes.
pub proof fn pure_changes_slide_to_the_right(
    a: Seq<char>,
    b: Seq<char>,
    cur: Edit,
    es: Seq<Edit>,
) -> (d: int)
    requires
        es.len() > 0,
    ensures
        ({
            let next = es[0];
            let len_a = cur.a.end - cur.a.start;
            let len_b = cur.b.end - cur.b.start;
            let room = next.a.start - cur.a.end;
            let pure_change = len_a <= 0 || len_b <= 0;
            let moved = Edit {
                a: Interval { start: cur.a.start + d, end: cur.a.end + d },
                b: Interval { start: cur.b.start + d, end: cur.b.end + d },
            };
            &&& 0 <= d
            &&& !pure_change ==> d == 0
            &&& d > 0 ==> d <= room
            &&& repeats(a, cur.a.start, cur.a.start + d, len_a)
            &&& repeats(b, cur.b.start, cur.b.start + d, len_b)
            &&& pure_change && d < room ==> !(element(a, cur.a.start + d) == element(
                a,
                cur.a.end + d,
            ) && element(b, cur.b.start + d) == element(b, cur.b.end + d))
            &&& merge_right(a, b, seq![cur] + es) == (if pure_change && d == room {
                merge_right(
                    a,
                    b,
                    es.update(
                        0,
                        Edit {
                            a: Interval { start: moved.a.start, end: next.a.end },
                            b: Interval { start: moved.b.start, end: next.b.end },
                        },
                    ),
                )
            } else {
                seq![moved] + merge_right(a, b, es)
            })
        }),
{
    let all = seq![cur] + es;
    assert(all.drop_first() =~= es);
    let next = es[0];
    if cur.a.end <= cur.a.start || cur.b.end <= cur.b.start {
        let room = next.a.start - cur.a.end;
        let d = right_run(a, b, cur, room, 0);
        lemma_right_stops(a, b, cur, room, 0);
        assert forall|x: int| cur.a.start <= x < cur.a.start + d implies #[trigger] element(a, x)
            == element(a, x + (cur.a.end - cur.a.start)) by {
            assert(slides(a, b, cur, x - cur.a.start));
        }
        assert forall|x: int| cur.b.start <= x < cur.b.start + d implies #[trigger] element(b, x)
            == element(b, x + (cur.b.end - cur.b.start)) by {
            assert(slides(a, b, cur, x - cur.b.start));
        }
        d
    } else {
        0
    }
}

/// There is nothing to slide a single change to.
pub proof fn a_single_change_does_not_slide(a: Seq<char>, b: Seq<char>, e: Edit)
    ensures
        merge_left(a, b, Seq::empty()) == Seq::<Edit>::empty(),
        merge_right(a, b, Seq::empty()) == Seq::<Edit>::empty(),
        merge_left(a, b, seq![e]) == seq![e],
        merge_right(a, b, seq![e]) == seq![e],
{
}

} // verus!
