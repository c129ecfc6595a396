//! What no change covers is the same text on both sides.

use vstd::prelude::*;

use crate::char_seq::{Text, MAX_ELEMENTS};
use crate::matching::{aligned, equal_run, lemma_aligned_at, lemma_aligned_order};
use crate::ranges::{gap, Edit};
use crate::short_matches::{
    lemma_full_lines, lemma_pulled_up_to, pulled_up_to, room, stretched, stretched_all,
    without_very_short, MAX_ROUNDS,
};
use crate::spans::own;

verus! {

/// Some change covers `at` on one side.
pub open spec fn covered(es: Seq<Edit>, left: bool, at: int) -> bool {
    exists|d: int| 0 <= d < es.len() && own(#[trigger] es[d], left).has(at)
}

/// The elements from `lo` to `hi` that no change covers.
pub open spec fn kept(s: Seq<char>, es: Seq<Edit>, left: bool, lo: int, hi: int) -> Seq<char>
    decreases hi - lo,
{
    if hi <= lo {
        Seq::empty()
    } else {
        let head = kept(s, es, left, lo, hi - 1);
        if covered(es, left, hi - 1) {
            head
        } else {
            head.push(s[hi - 1])
        }
    }
}

pub proof fn lemma_kept_split(
    s: Seq<char>,
    es: Seq<Edit>,
    left: bool,
    lo: int,
    mid: int,
    hi: int,
)
    requires
        lo <= mid <= hi,
    ensures
        kept(s, es, left, lo, hi) == kept(s, es, left, lo, mid) + kept(s, es, left, mid, hi),
    decreases hi - mid,
{
    if mid < hi {
        lemma_kept_split(s, es, left, lo, mid, hi - 1);
        assert(kept(s, es, left, lo, hi) =~= kept(s, es, left, lo, mid) + kept(
            s,
            es,
            left,
            mid,
            hi,
        ));
    } else {
        assert(kept(s, es, left, lo, mid) + Seq::<char>::empty() =~= kept(s, es, left, lo, mid));
    }
}

/// Nothing is kept of what is covered throughout.
pub proof fn lemma_kept_none(s: Seq<char>, es: Seq<Edit>, left: bool, lo: int, hi: int)
    requires
        forall|at: int| lo <= at < hi ==> #[trigger] covered(es, left, at),
    ensures
        kept(s, es, left, lo, hi) == Seq::<char>::empty(),
    decreases hi - lo,
{
    if lo < hi {
        lemma_kept_none(s, es, left, lo, hi - 1);
        assert(covered(es, left, hi - 1));
    }
}

/// Changes cover an equal run at the same offsets on both sides.
spec fn cover_alike(fs: Seq<Edit>, run: Edit) -> bool {
    forall|j: int|
        0 <= j < run.a.len() ==> (#[trigger] covered(fs, true, run.a.start + j) <==> covered(
            fs,
            false,
            run.b.start + j,
        ))
}

/// Of an equal run that is covered alike the same is kept.
proof fn lemma_kept_run(
    a: Seq<char>,
    b: Seq<char>,
    fs: Seq<Edit>,
    run: Edit,
    n: int,
    m: int,
    k: int,
)
    requires
        equal_run(a, b, run, n, m),
        cover_alike(fs, run),
        0 <= k <= run.a.len(),
    ensures
        kept(a, fs, true, run.a.start, run.a.start + k) == kept(
            b,
            fs,
            false,
            run.b.start,
            run.b.start + k,
        ),
    decreases k,
{
    if k > 0 {
        lemma_kept_run(a, b, fs, run, n, m, k - 1);
        assert(covered(fs, true, run.a.start + (k - 1)) <==> covered(
            fs,
            false,
            run.b.start + (k - 1),
        ));
        assert(a[run.a.start + k - 1] == b[run.a.start + k - 1 - run.a.start + run.b.start]);
    }
}

/// `fs` covers every change of `es`, and the equal runs between them alike.
spec fn covers_alike(es: Seq<Edit>, fs: Seq<Edit>, n: int, m: int) -> bool {
    &&& forall|k: int, at: int|
        0 <= k < es.len() && (#[trigger] es[k]).a.has(at) ==> #[trigger] covered(fs, true, at)
    &&& forall|k: int, at: int|
        0 <= k < es.len() && (#[trigger] es[k]).b.has(at) ==> #[trigger] covered(fs, false, at)
    &&& forall|k: int| 0 <= k <= es.len() ==> cover_alike(fs, #[trigger] gap(es, n, m, k))
}

/// Up to the end of equal run `k` the same is kept.
proof fn lemma_kept_upto(
    a: Seq<char>,
    b: Seq<char>,
    es: Seq<Edit>,
    fs: Seq<Edit>,
    n: int,
    m: int,
    k: int,
)
    requires
        aligned(a, b, es, n, m),
        covers_alike(es, fs, n, m),
        0 <= k <= es.len(),
    ensures
        kept(a, fs, true, 0, gap(es, n, m, k).a.end) == kept(
            b,
            fs,
            false,
            0,
            gap(es, n, m, k).b.end,
        ),
    decreases k,
{
    reveal(aligned);
    let run = gap(es, n, m, k);
    assert(equal_run(a, b, run, n, m));
    assert(cover_alike(fs, gap(es, n, m, k)));
    lemma_kept_run(a, b, fs, run, n, m, run.a.len());
    if k > 0 {
        let e = es[k - 1];
        assert(e.within(n, m));
        lemma_kept_upto(a, b, es, fs, n, m, k - 1);
        assert(equal_run(a, b, gap(es, n, m, k - 1), n, m));
        assert forall|at: int| e.a.start <= at < e.a.end implies #[trigger] covered(
            fs,
            true,
            at,
        ) by {
            assert(es[k - 1].a.has(at));
        }
        assert forall|at: int| e.b.start <= at < e.b.end implies #[trigger] covered(
            fs,
            false,
            at,
        ) by {
            assert(es[k - 1].b.has(at));
        }
        lemma_kept_none(a, fs, true, e.a.start, e.a.end);
        lemma_kept_none(b, fs, false, e.b.start, e.b.end);
        lemma_kept_split(a, fs, true, 0, e.a.start, e.a.end);
        lemma_kept_split(b, fs, false, 0, e.b.start, e.b.end);
        lemma_kept_split(a, fs, true, 0, e.a.end, run.a.end);
        lemma_kept_split(b, fs, false, 0, e.b.end, run.b.end);
    }
}

/// Where change `k` reaches after it has been stretched and clipped: `r.0`
/// further to the left, and `r.1` further to the right, on both sides.
pub proof fn lemma_clip(t: Text, u: Text, es: Seq<Edit>, k: int) -> (r: (int, int))
    requires
        t.wf(),
        t.len() <= MAX_ELEMENTS,
        u.len() <= MAX_ELEMENTS,
        aligned(t.chars, u.chars, es, t.len(), u.len()),
        0 <= k < es.len(),
    ensures
        0 <= r.0 <= gap(es, t.len(), u.len(), k).a.len(),
        0 <= r.1 <= gap(es, t.len(), u.len(), k + 1).a.len(),
        stretched(t, es[k]).meet(room(es, k)) == Some(reached(es[k], r)),
{
    let n = t.len();
    let m = u.len();
    let e = es[k];
    lemma_aligned_at(t.chars, u.chars, es, n, m, k);
    lemma_full_lines(t, e.a);
    let before = gap(es, n, m, k);
    let after = gap(es, n, m, k + 1);
    let f = stretched(t, e);
    let p = e.a.start - f.a.start;
    let s = f.a.end - e.a.end;
    assert(f.b.start == e.b.start - p);
    assert(f.b.end == e.b.end + s);
    assert(0 <= p);
    assert(0 <= s <= n - e.a.end);
    let r = (
        if p <= before.a.len() {
            p
        } else {
            before.a.len()
        },
        if s <= after.a.len() {
            s
        } else {
            after.a.len()
        },
    );
    assert(f.meet(room(es, k)) == Some(reached(e, r)));
    r
}

/// A change that reaches further on both sides alike.
pub open spec fn reached(e: Edit, r: (int, int)) -> Edit {
    e.shift_start(-r.0).shift_end(r.1)
}

/// Change `k`, stretched and clipped, covers `at`.
spec fn clip_covers(t: Text, es: Seq<Edit>, k: int, left: bool, at: int) -> bool {
    match stretched(t, es[k]).meet(room(es, k)) {
        Some(c) => own(c, left).has(at),
        None => false,
    }
}

/// The stretched list covers what its parts cover.
proof fn lemma_stretched_cover(t: Text, u: Text, es: Seq<Edit>, k: int, left: bool, at: int)
    requires
        t.wf(),
        t.len() <= MAX_ELEMENTS,
        u.len() <= MAX_ELEMENTS,
        aligned(t.chars, u.chars, es, t.len(), u.len()),
        0 <= k <= es.len(),
    ensures
        covered(stretched_all(t, es, k), left, at) <==> exists|j: int|
            0 <= j < k && #[trigger] clip_covers(t, es, j, left, at),
        stretched_all(t, es, k).len() > 0 ==> ({
            let last = stretched_all(t, es, k).last();
            last.a.start <= last.a.end && last.b.start <= last.b.end
        }),
    decreases k,
{
    let all = stretched_all(t, es, k);
    if k > 0 {
        let done = stretched_all(t, es, k - 1);
        lemma_stretched_cover(t, u, es, k - 1, left, at);
        let r = lemma_clip(t, u, es, k - 1);
        lemma_aligned_at(t.chars, u.chars, es, t.len(), u.len(), k - 1);
        let next = reached(es[k - 1], r);
        let joins = done.len() > 0 && done.last().ends() == (next.a.start, next.b.start);
        if covered(done, left, at) {
            let d = choose|d: int| 0 <= d < done.len() && own(#[trigger] done[d], left).has(at);
            if joins && d == done.len() - 1 {
                assert(own(all[all.len() - 1], left).has(at));
            } else {
                assert(all[d] == done[d]);
            }
            let j = choose|j: int| 0 <= j < k - 1 && #[trigger] clip_covers(t, es, j, left, at);
            assert(0 <= j < k && clip_covers(t, es, j, left, at));
        }
        if clip_covers(t, es, k - 1, left, at) {
            assert(own(all[all.len() - 1], left).has(at));
        }
        if covered(all, left, at) {
            let d = choose|d: int| 0 <= d < all.len() && own(#[trigger] all[d], left).has(at);
            if d < all.len() - 1 {
                assert(all[d] == done[d]);
                assert(covered(done, left, at));
            } else if joins && !own(next, left).has(at) {
                assert(own(done[done.len() - 1], left).has(at));
                assert(covered(done, left, at));
            } else {
                assert(clip_covers(t, es, k - 1, left, at));
            }
        }
        if exists|j: int| 0 <= j < k && #[trigger] clip_covers(t, es, j, left, at) {
            let j = choose|j: int| 0 <= j < k && #[trigger] clip_covers(t, es, j, left, at);
            if j < k - 1 {
                assert(covered(done, left, at));
            }
        }
    }
}

proof fn lemma_stretched_within(t: Text, u: Text, es: Seq<Edit>, k: int)
    requires
        t.wf(),
        t.len() <= MAX_ELEMENTS,
        u.len() <= MAX_ELEMENTS,
        aligned(t.chars, u.chars, es, t.len(), u.len()),
        0 <= k <= es.len(),
    ensures
        forall|d: int|
            0 <= d < stretched_all(t, es, k).len() ==> (#[trigger] stretched_all(
                t,
                es,
                k,
            )[d]).within(t.len(), u.len()),
    decreases k,
{
    let all = stretched_all(t, es, k);
    if k > 0 {
        let done = stretched_all(t, es, k - 1);
        lemma_stretched_within(t, u, es, k - 1);
        let r = lemma_clip(t, u, es, k - 1);
        lemma_aligned_at(t.chars, u.chars, es, t.len(), u.len(), k - 1);
        assert forall|d: int| 0 <= d < all.len() implies (#[trigger] all[d]).within(
            t.len(),
            u.len(),
        ) by {
            if d < done.len() {
                assert(done[d].within(t.len(), u.len()));
            }
        }
    }
}

/// The changes that joining and stretching leave lie within the two texts.
pub proof fn lemma_changes_within(t: Text, u: Text, es: Seq<Edit>, d: int)
    requires
        t.wf(),
        t.len() <= MAX_ELEMENTS,
        u.len() <= MAX_ELEMENTS,
        aligned(t.chars, u.chars, es, t.len(), u.len()),
        0 <= d < without_very_short(t, u, es).len(),
    ensures
        without_very_short(t, u, es)[d].within(t.len(), u.len()),
{
    let fs = pulled_up_to(t, u, es, MAX_ROUNDS as int);
    lemma_pulled_up_to(t, u, es, MAX_ROUNDS as int);
    lemma_stretched_within(t, u, fs, fs.len() as int);
}

/// A stretched change covers an equal run at the same offsets on both sides.
proof fn lemma_clip_alike(t: Text, u: Text, es: Seq<Edit>, i: int, k: int, j: int)
    requires
        t.wf(),
        t.len() <= MAX_ELEMENTS,
        u.len() <= MAX_ELEMENTS,
        aligned(t.chars, u.chars, es, t.len(), u.len()),
        0 <= i < es.len(),
        0 <= k <= es.len(),
        0 <= j < gap(es, t.len(), u.len(), k).a.len(),
    ensures
        clip_covers(t, es, i, true, gap(es, t.len(), u.len(), k).a.start + j) <==> clip_covers(
            t,
            es,
            i,
            false,
            gap(es, t.len(), u.len(), k).b.start + j,
        ),
{
    let n = t.len();
    let m = u.len();
    let r = lemma_clip(t, u, es, i);
    lemma_aligned_order(t.chars, u.chars, es, n, m);
    lemma_aligned_at(t.chars, u.chars, es, n, m, i);
    if k > 0 {
        lemma_aligned_at(t.chars, u.chars, es, n, m, k - 1);
    }
    if k < es.len() {
        lemma_aligned_at(t.chars, u.chars, es, n, m, k);
    }
    if i < k - 1 {
        lemma_aligned_at(t.chars, u.chars, es, n, m, i + 1);
        assert(gap(es, n, m, i + 1).a.end == es[i + 1].a.start);
    } else if k < i {
        lemma_aligned_at(t.chars, u.chars, es, n, m, i - 1);
        assert(gap(es, n, m, i).a.start == es[i - 1].a.end);
    }
}

proof fn lemma_stretched_alike(t: Text, u: Text, es: Seq<Edit>)
    requires
        t.wf(),
        t.len() <= MAX_ELEMENTS,
        u.len() <= MAX_ELEMENTS,
        aligned(t.chars, u.chars, es, t.len(), u.len()),
    ensures
        covers_alike(es, stretched_all(t, es, es.len() as int), t.len(), u.len()),
{
    let n = t.len();
    let m = u.len();
    let count = es.len() as int;
    let fs = stretched_all(t, es, count);
    assert forall|k: int, at: int|
        0 <= k < es.len() && (#[trigger] es[k]).a.has(at) implies #[trigger] covered(
        fs,
        true,
        at,
    ) by {
        let r = lemma_clip(t, u, es, k);
        assert(clip_covers(t, es, k, true, at));
        lemma_stretched_cover(t, u, es, count, true, at);
    }
    assert forall|k: int, at: int|
        0 <= k < es.len() && (#[trigger] es[k]).b.has(at) implies #[trigger] covered(
        fs,
        false,
        at,
    ) by {
        let r = lemma_clip(t, u, es, k);
        assert(clip_covers(t, es, k, false, at));
        lemma_stretched_cover(t, u, es, count, false, at);
    }
    assert forall|k: int| 0 <= k <= es.len() implies cover_alike(
        fs,
        #[trigger] gap(es, n, m, k),
    ) by {
        let run = gap(es, n, m, k);
        assert forall|j: int| 0 <= j < run.a.len() implies (#[trigger] covered(
            fs,
            true,
            run.a.start + j,
        ) <==> covered(fs, false, run.b.start + j)) by {
            let x = run.a.start + j;
            let y = run.b.start + j;
            lemma_stretched_cover(t, u, es, count, true, x);
            lemma_stretched_cover(t, u, es, count, false, y);
            if covered(fs, true, x) {
                let i = choose|i: int|
                    0 <= i < count && #[trigger] clip_covers(t, es, i, true, x);
                lemma_clip_alike(t, u, es, i, k, j);
            }
            if covered(fs, false, y) {
                let i = choose|i: int|
                    0 <= i < count && #[trigger] clip_covers(t, es, i, false, y);
                lemma_clip_alike(t, u, es, i, k, j);
            }
        }
    }
}

/// Joining heavy changes and stretching them to line ends covers as much of an
/// equal run on one side as on the other: what no change covers in the end is
/// the same text on both sides.
pub proof fn lemma_kept_same(t: Text, u: Text, es: Seq<Edit>)
    requires
        t.wf(),
        t.len() <= MAX_ELEMENTS,
        u.len() <= MAX_ELEMENTS,
        aligned(t.chars, u.chars, es, t.len(), u.len()),
    ensures
        kept(t.chars, without_very_short(t, u, es), true, 0, t.len()) == kept(
            u.chars,
            without_very_short(t, u, es),
            false,
            0,
            u.len(),
        ),
{
    let fs = pulled_up_to(t, u, es, MAX_ROUNDS as int);
    lemma_pulled_up_to(t, u, es, MAX_ROUNDS as int);
    lemma_stretched_alike(t, u, fs);
    lemma_kept_upto(
        t.chars,
        u.chars,
        fs,
        without_very_short(t, u, es),
        t.len(),
        u.len(),
        fs.len() as int,
    );
}

} // verus!
