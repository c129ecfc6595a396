//! Which words are changed as a whole.

use vstd::prelude::*;

use crate::band::{
    covers, fitting, held, in_place, inside, lemma_band_cut, lemma_own_fitting, on_run,
};
use crate::char_seq::{lemma_word_at, word_at};
use crate::chars::{element, word_char};
use crate::matching::{aligned, equal_run, lemma_aligned_order, spaced};
use crate::ranges::{gap, gaps, least, Edit, Interval};
use crate::spans::own;
use crate::survival::{covered, kept, lemma_kept_none, lemma_kept_split};
use crate::word_alignment::{
    ahead, ascending, grown, lemma_coalesce, lemma_extended, lemma_grow, lemma_grow_step,
    lemma_interleave, lemma_runs, lemma_runs_order, lemma_scan, lemma_scan_runs, lemma_word_pair,
    lemma_word_starts, scanned,
};
use crate::words::{
    changed_words, coalesce, extended, grow, interleave, scan, scan_run, scan_runs, seed, Growth,
    Scan,
};

verus! {

/// The characters from `lo` to `hi` are all part of a word.
pub open spec fn in_word(s: Seq<char>, lo: int, hi: int) -> bool {
    forall|i: int| lo <= i < hi ==> word_char(#[trigger] element(s, i))
}

/// The matched elements `x` and `y` stand at the start or at the end of equal
/// run `r`, next to a change.
pub open spec fn run_tip(es: Seq<Edit>, n: int, m: int, r: int, x: int, y: int) -> bool {
    let run = gap(es, n, m, r);
    &&& 0 <= r <= es.len()
    &&& run.a.start < run.a.end
    &&& {
        ||| x == run.a.start && y == run.b.start
        ||| x == run.a.end - 1 && y == run.b.end - 1
    }
}

/// The pair starts with the words around two matched elements.
pub open spec fn starts_at(a: Seq<char>, b: Seq<char>, w: Edit, x: int, y: int) -> bool {
    &&& w.a.has(x)
    &&& w.b.has(y)
    &&& in_word(a, w.a.start, x + 1)
    &&& in_word(b, w.b.start, y + 1)
}

/// The pair ends with the words around two matched elements.
pub open spec fn ends_at(a: Seq<char>, b: Seq<char>, w: Edit, x: int, y: int) -> bool {
    &&& w.a.has(x)
    &&& w.b.has(y)
    &&& in_word(a, x, w.a.end)
    &&& in_word(b, y, w.b.end)
}

/// On one side a word goes on from the end of equal run `j - 1` to the start of
/// equal run `j`.
pub open spec fn bridged(a: Seq<char>, b: Seq<char>, es: Seq<Edit>, j: int) -> bool {
    let before = gap(es, a.len() as int, b.len() as int, j - 1);
    let run = gap(es, a.len() as int, b.len() as int, j);
    ||| in_word(a, before.a.end, run.a.start + 1)
    ||| in_word(b, before.b.end, run.b.start + 1)
}

/// The words go on from the tip `(x, y)` of equal run `r` to equal run `q`: they
/// start with the words at the tip, they end with the words at the start of run
/// `q`, or with those at the tip if that is the run of the tip, and in between
/// one word or another leads from each equal run to the next.
pub open spec fn linked(
    a: Seq<char>,
    b: Seq<char>,
    es: Seq<Edit>,
    w: Edit,
    r: int,
    x: int,
    y: int,
    q: int,
) -> bool {
    let n = a.len() as int;
    let m = b.len() as int;
    &&& run_tip(es, n, m, r, x, y)
    &&& r <= q <= es.len()
    &&& starts_at(a, b, w, x, y)
    &&& q == r ==> ends_at(a, b, w, x, y)
    &&& q > r ==> ends_at(a, b, w, gap(es, n, m, q).a.start, gap(es, n, m, q).b.start)
    &&& q > r ==> in_word(a, x, gap(es, n, m, r).a.end)
    &&& forall|j: int|
        r < j < q ==> in_word(a, (#[trigger] gap(es, n, m, j)).a.start, gap(es, n, m, j).a.end)
    &&& forall|j: int| r < j <= q ==> #[trigger] bridged(a, b, es, j)
}

/// Words of both sides that belong together: no word goes across an end of
/// either range. They go on from the tip of an equal run to the same or a later
/// equal run, from one to the next by words. And an equal run with elements that
/// starts in them on one side does so on the other.
#[verifier::opaque]
pub open spec fn word_group(a: Seq<char>, b: Seq<char>, es: Seq<Edit>, w: Edit) -> bool {
    let n = a.len() as int;
    let m = b.len() as int;
    &&& 0 <= w.a.start < w.a.end <= n
    &&& 0 <= w.b.start < w.b.end <= m
    &&& w.a.start > 0 ==> !word_char(a[w.a.start - 1])
    &&& w.b.start > 0 ==> !word_char(b[w.b.start - 1])
    &&& w.a.end < n ==> !word_char(a[w.a.end])
    &&& w.b.end < m ==> !word_char(b[w.b.end])
    &&& exists|r: int, x: int, y: int, q: int| #[trigger] linked(a, b, es, w, r, x, y, q)
    &&& forall|j: int|
        0 <= j <= es.len() && (#[trigger] gap(es, n, m, j)).a.start < gap(es, n, m, j).a.end ==> (
        w.a.has(gap(es, n, m, j).a.start) <==> w.b.has(gap(es, n, m, j).b.start))
}

/// How many elements of a pair of words lie in equal runs.
pub open spec fn equal_elements(a: Seq<char>, b: Seq<char>, es: Seq<Edit>, w: Edit) -> nat {
    kept(a, es, true, w.a.start, w.a.end).len() + kept(b, es, false, w.b.start, w.b.end).len()
}

/// Fewer than two thirds of the elements of a pair of words, rounded down, lie
/// in equal runs.
pub open spec fn mostly_changed(a: Seq<char>, b: Seq<char>, es: Seq<Edit>, w: Edit) -> bool {
    equal_elements(a, b, es, w) < (w.a.end - w.a.start + (w.b.end - w.b.start)) * 2 / 3
}

/// What is known of a pair of words that has been widened up to equal run `q`.
spec fn part_group(a: Seq<char>, b: Seq<char>, es: Seq<Edit>, w: Edit, q: int) -> bool {
    let n = a.len() as int;
    let m = b.len() as int;
    &&& exists|r: int, x: int, y: int| #[trigger] linked(a, b, es, w, r, x, y, q)
    &&& forall|j: int|
        0 <= j <= q && (#[trigger] gap(es, n, m, j)).a.start < gap(es, n, m, j).a.end ==> (
        w.a.has(gap(es, n, m, j).a.start) <==> w.b.has(gap(es, n, m, j).b.start))
}

proof fn lemma_run_uncovered(
    a: Seq<char>,
    b: Seq<char>,
    es: Seq<Edit>,
    r: int,
    left: bool,
    at: int,
)
    requires
        aligned(a, b, es, a.len() as int, b.len() as int),
        0 <= r <= es.len(),
        own(gap(es, a.len() as int, b.len() as int, r), left).has(at),
    ensures
        !covered(es, left, at),
{
    let n = a.len() as int;
    let m = b.len() as int;
    lemma_aligned_order(a, b, es, n, m);
    if covered(es, left, at) {
        let d = choose|d: int| 0 <= d < es.len() && own(#[trigger] es[d], left).has(at);
        assert(es[d].within(n, m));
        if d < r - 1 {
            assert(es[r - 1].within(n, m));
            assert(es[d].a.end <= es[r - 1].a.start);
        }
        if d > r {
            assert(es[r].within(n, m));
            assert(es[r].a.end <= es[d].a.start);
        }
    }
}

/// All of a part of an equal run is kept.
proof fn lemma_kept_all(
    a: Seq<char>,
    b: Seq<char>,
    es: Seq<Edit>,
    r: int,
    left: bool,
    lo: int,
    hi: int,
)
    requires
        aligned(a, b, es, a.len() as int, b.len() as int),
        0 <= r <= es.len(),
        own(gap(es, a.len() as int, b.len() as int, r), left).start <= lo <= hi <= own(
            gap(es, a.len() as int, b.len() as int, r),
            left,
        ).end,
    ensures
        kept(
            if left {
                a
            } else {
                b
            },
            es,
            left,
            lo,
            hi,
        ).len() == hi - lo,
    decreases hi - lo,
{
    if lo < hi {
        lemma_kept_all(a, b, es, r, left, lo, hi - 1);
        lemma_run_uncovered(a, b, es, r, left, hi - 1);
    }
}

/// Nothing of a part of a change is kept.
proof fn lemma_kept_box(s: Seq<char>, es: Seq<Edit>, d: int, left: bool, lo: int, hi: int)
    requires
        0 <= d < es.len(),
        own(es[d], left).start <= lo,
        hi <= own(es[d], left).end,
    ensures
        kept(s, es, left, lo, hi).len() == 0,
{
    assert forall|at: int| lo <= at < hi implies #[trigger] covered(es, left, at) by {
        assert(own(es[d], left).has(at));
    }
    lemma_kept_none(s, es, left, lo, hi);
}

/// One step of widening, for `part_group`.
proof fn lemma_part_step(a: Seq<char>, b: Seq<char>, es: Seq<Edit>, w: Edit, r: int)
    requires
        aligned(a, b, es, a.len() as int, b.len() as int),
        spaced(es),
        0 <= r < es.len(),
        grown(a, b, gap(es, a.len() as int, b.len() as int, r), w),
        w.a.overlaps(gap(es, a.len() as int, b.len() as int, r + 1).a) || w.b.overlaps(
            gap(es, a.len() as int, b.len() as int, r + 1).b,
        ),
        part_group(a, b, es, w, r),
    ensures
        ({
            let next = gap(es, a.len() as int, b.len() as int, r + 1);
            let v = Edit { a: word_at(a, next.a.start)->0, b: word_at(b, next.b.start)->0 };
            let h = w.hull(v);
            &&& word_at(a, next.a.start) is Some
            &&& word_at(b, next.b.start) is Some
            &&& part_group(a, b, es, h, r + 1)
        }),
{
    let n = a.len() as int;
    let m = b.len() as int;
    let run = gap(es, n, m, r);
    let next = gap(es, n, m, r + 1);
    lemma_runs(a, b, es, r);
    lemma_runs(a, b, es, r + 1);
    lemma_grow_step(a, b, run, next, w);
    lemma_word_at(a, next.a.start);
    lemma_word_at(b, next.b.start);
    let v = Edit { a: word_at(a, next.a.start)->0, b: word_at(b, next.b.start)->0 };
    let h = w.hull(v);
    let (p, x, y) = choose|p: int, x: int, y: int| #[trigger] linked(a, b, es, w, p, x, y, r);
    assert(bridged(a, b, es, r + 1)) by {
        if w.a.overlaps(next.a) {
            assert(in_word(a, run.a.end, next.a.start + 1));
        } else {
            assert(in_word(b, run.b.end, next.b.start + 1));
        }
    }
    assert forall|j: int|
        0 <= j <= r + 1 && (#[trigger] gap(es, n, m, j)).a.start < gap(es, n, m, j).a.end implies (
    h.a.has(gap(es, n, m, j).a.start) <==> h.b.has(gap(es, n, m, j).b.start)) by {
        if j <= r {
            lemma_starts_before(a, b, es, j, r);
            assert(w.a.has(gap(es, n, m, j).a.start) <==> w.b.has(gap(es, n, m, j).b.start));
        }
    }
    assert(linked(a, b, es, h, p, x, y, r + 1)) by {
        assert forall|j: int| p < j < r + 1 implies in_word(
            a,
            (#[trigger] gap(es, n, m, j)).a.start,
            gap(es, n, m, j).a.end,
        ) by {
            if j < r {
                assert(in_word(a, gap(es, n, m, j).a.start, gap(es, n, m, j).a.end));
            }
        }
        assert forall|j: int| p < j <= r + 1 implies #[trigger] bridged(a, b, es, j) by {}
    }
}

/// The start of equal run `j` is not behind the end of equal run `r`.
proof fn lemma_starts_before(a: Seq<char>, b: Seq<char>, es: Seq<Edit>, j: int, r: int)
    requires
        aligned(a, b, es, a.len() as int, b.len() as int),
        spaced(es),
        0 <= j <= r <= es.len(),
    ensures
        ({
            let n = a.len() as int;
            let m = b.len() as int;
            &&& gap(es, n, m, j).a.start <= gap(es, n, m, r).a.start
            &&& gap(es, n, m, j).b.start <= gap(es, n, m, r).b.start
            &&& gap(es, n, m, j).a.end <= gap(es, n, m, r).a.end
            &&& gap(es, n, m, j).b.end <= gap(es, n, m, r).b.end
            &&& j < r ==> gap(es, n, m, j).a.end <= gap(es, n, m, r).a.start
            &&& j < r ==> gap(es, n, m, j).b.end <= gap(es, n, m, r).b.start
        }),
    decreases r - j,
{
    lemma_runs(a, b, es, j);
    if j < r {
        lemma_runs(a, b, es, j + 1);
        lemma_starts_before(a, b, es, j + 1, r);
    }
}

/// The numbers of a pair of words that has been widened up to equal run `run`:
/// how many of its elements up to the end of that run lie in equal runs.
spec fn counted(a: Seq<char>, b: Seq<char>, es: Seq<Edit>, g: Growth, run: Edit) -> bool {
    let w = g.word;
    &&& g.equal_a == kept(a, es, true, w.a.start, least(w.a.end, run.a.end)).len()
    &&& g.equal_b == kept(b, es, false, w.b.start, least(w.b.end, run.b.end)).len()
}

/// One step of widening, for `counted`.
proof fn lemma_count_step(a: Seq<char>, b: Seq<char>, es: Seq<Edit>, g: Growth, r: int, v: Edit)
    requires
        aligned(a, b, es, a.len() as int, b.len() as int),
        spaced(es),
        0 <= r < es.len(),
        counted(a, b, es, g, gap(es, a.len() as int, b.len() as int, r)),
        ({
            let run = gap(es, a.len() as int, b.len() as int, r);
            let next = gap(es, a.len() as int, b.len() as int, r + 1);
            let h = g.word.hull(v);
            &&& g.word.a.start < run.a.end <= g.word.a.end
            &&& g.word.b.start < run.b.end <= g.word.b.end
            &&& v.a.has(next.a.start) && v.b.has(next.b.start)
            &&& h.a.start == g.word.a.start && h.b.start == g.word.b.start
            &&& h.ends() == v.ends()
        }),
    ensures
        ({
            let next = gap(es, a.len() as int, b.len() as int, r + 1);
            let (more_a, more_b) = match v.meet(next) {
                Some(common) => (common.a.len(), common.b.len()),
                None => (0, 0),
            };
            counted(
                a,
                b,
                es,
                Growth {
                    word: g.word.hull(v),
                    equal_a: g.equal_a + more_a,
                    equal_b: g.equal_b + more_b,
                    queue: g.queue,
                },
                next,
            )
        }),
{
    let n = a.len() as int;
    let m = b.len() as int;
    let run = gap(es, n, m, r);
    let next = gap(es, n, m, r + 1);
    let w = g.word;
    lemma_runs(a, b, es, r);
    lemma_runs(a, b, es, r + 1);
    let end_a = least(v.a.end, next.a.end);
    let end_b = least(v.b.end, next.b.end);
    lemma_kept_split(a, es, true, w.a.start, run.a.end, next.a.start);
    lemma_kept_split(a, es, true, w.a.start, next.a.start, end_a);
    lemma_kept_split(b, es, false, w.b.start, run.b.end, next.b.start);
    lemma_kept_split(b, es, false, w.b.start, next.b.start, end_b);
    lemma_kept_box(a, es, r, true, run.a.end, next.a.start);
    lemma_kept_box(b, es, r, false, run.b.end, next.b.start);
    lemma_kept_all(a, b, es, r + 1, true, next.a.start, end_a);
    lemma_kept_all(a, b, es, r + 1, false, next.b.start, end_b);
}

/// Widening ends with a group of words whose numbers are right.
proof fn lemma_grow_group(a: Seq<char>, b: Seq<char>, es: Seq<Edit>, g: Growth, r: int)
    requires
        aligned(a, b, es, a.len() as int, b.len() as int),
        spaced(es),
        0 <= r <= es.len(),
        g.queue == gaps(es, a.len() as int, b.len() as int).skip(r + 1),
        grown(a, b, gap(es, a.len() as int, b.len() as int, r), g.word),
        part_group(a, b, es, g.word, r),
        counted(a, b, es, g, gap(es, a.len() as int, b.len() as int, r)),
    ensures
        word_group(a, b, es, grow(a, b, g).word),
        grow(a, b, g).equal_a + grow(a, b, g).equal_b == equal_elements(
            a,
            b,
            es,
            grow(a, b, g).word,
        ),
    decreases es.len() - r,
{
    let n = a.len() as int;
    let m = b.len() as int;
    let runs = gaps(es, n, m);
    let run = gap(es, n, m, r);
    let w = g.word;
    lemma_runs(a, b, es, r);
    if r == es.len() {
        lemma_group_done(a, b, es, g, r);
    } else {
        let next = gap(es, n, m, r + 1);
        lemma_runs(a, b, es, r + 1);
        assert(g.queue[0] == next);
        if !w.a.overlaps(next.a) && !w.b.overlaps(next.b) {
            lemma_group_done(a, b, es, g, r);
        } else {
            lemma_grow_step(a, b, run, next, w);
            lemma_part_step(a, b, es, w, r);
            lemma_word_at(a, next.a.start);
            lemma_word_at(b, next.b.start);
            let v = Edit { a: word_at(a, next.a.start)->0, b: word_at(b, next.b.start)->0 };
            lemma_count_step(a, b, es, g, r, v);
            let (more_a, more_b) = match v.meet(next) {
                Some(common) => (common.a.len(), common.b.len()),
                None => (0, 0),
            };
            let h = Growth {
                word: w.hull(v),
                equal_a: g.equal_a + more_a,
                equal_b: g.equal_b + more_b,
                queue: g.queue,
            };
            if h.word.a.end >= next.a.end {
                let h = Growth { queue: g.queue.drop_first(), ..h };
                assert(h.queue =~= runs.skip(r + 2));
                lemma_grow_group(a, b, es, h, r + 1);
            } else {
                lemma_group_done(a, b, es, h, r + 1);
            }
        }
    }
}

/// A pair of words that does not reach the equal run behind `r` is done.
proof fn lemma_group_done(a: Seq<char>, b: Seq<char>, es: Seq<Edit>, g: Growth, r: int)
    requires
        aligned(a, b, es, a.len() as int, b.len() as int),
        spaced(es),
        0 <= r <= es.len(),
        grown(a, b, gap(es, a.len() as int, b.len() as int, r), g.word),
        part_group(a, b, es, g.word, r),
        counted(a, b, es, g, gap(es, a.len() as int, b.len() as int, r)),
        r < es.len() ==> g.word.a.end <= gap(es, a.len() as int, b.len() as int, r + 1).a.start,
        r < es.len() ==> g.word.b.end <= gap(es, a.len() as int, b.len() as int, r + 1).b.start,
    ensures
        word_group(a, b, es, g.word),
        g.equal_a + g.equal_b == equal_elements(a, b, es, g.word),
{
    let n = a.len() as int;
    let m = b.len() as int;
    let run = gap(es, n, m, r);
    let w = g.word;
    reveal(word_group);
    lemma_runs(a, b, es, r);
    assert forall|j: int| r < j <= es.len() implies !w.a.has(
        (#[trigger] gap(es, n, m, j)).a.start,
    ) && !w.b.has(gap(es, n, m, j).b.start) by {
        lemma_starts_before(a, b, es, r + 1, j);
    }
    if run.a.end <= w.a.end {
        lemma_kept_split(a, es, true, w.a.start, run.a.end, w.a.end);
        lemma_kept_split(b, es, false, w.b.start, run.b.end, w.b.end);
        if r < es.len() {
            lemma_kept_box(a, es, r, true, run.a.end, w.a.end);
            lemma_kept_box(b, es, r, false, run.b.end, w.b.end);
        }
    }
}

/// The words around two matched elements of equal run `r` are the first part of
/// a group.
proof fn lemma_seed_group(
    a: Seq<char>,
    b: Seq<char>,
    es: Seq<Edit>,
    r: int,
    x: int,
    y: int,
    queue: Seq<Edit>,
)
    requires
        aligned(a, b, es, a.len() as int, b.len() as int),
        spaced(es),
        run_tip(es, a.len() as int, b.len() as int, r, x, y),
        word_at(a, x) is Some,
        word_at(b, y) is Some,
        r > 0 ==> gap(es, a.len() as int, b.len() as int, r - 1).a.end <= (word_at(a, x)->0).start,
        r > 0 ==> gap(es, a.len() as int, b.len() as int, r - 1).b.end <= (word_at(b, y)->0).start,
    ensures
        ({
            let run = gap(es, a.len() as int, b.len() as int, r);
            let g = seed(word_at(a, x)->0, word_at(b, y)->0, run, queue);
            &&& grown(a, b, run, g.word)
            &&& part_group(a, b, es, g.word, r)
            &&& counted(a, b, es, g, run)
        }),
{
    let n = a.len() as int;
    let m = b.len() as int;
    let run = gap(es, n, m, r);
    let g = seed(word_at(a, x)->0, word_at(b, y)->0, run, queue);
    let w = g.word;
    lemma_runs(a, b, es, r);
    lemma_word_pair(a, b, run, x, y);
    lemma_word_at(a, x);
    lemma_word_at(b, y);
    assert(linked(a, b, es, w, r, x, y, r));
    assert forall|j: int|
        0 <= j <= r && (#[trigger] gap(es, n, m, j)).a.start < gap(es, n, m, j).a.end implies (
    w.a.has(gap(es, n, m, j).a.start) <==> w.b.has(gap(es, n, m, j).b.start)) by {
        if j < r {
            lemma_starts_before(a, b, es, j, r - 1);
            lemma_runs(a, b, es, j);
        }
    }
    if w.a.start < run.a.start {
        if r > 0 {
            lemma_runs(a, b, es, r - 1);
            lemma_kept_box(a, es, r - 1, true, w.a.start, run.a.start);
        }
        lemma_kept_split(a, es, true, w.a.start, run.a.start, least(w.a.end, run.a.end));
        lemma_kept_all(a, b, es, r, true, run.a.start, least(w.a.end, run.a.end));
    } else {
        lemma_kept_all(a, b, es, r, true, w.a.start, least(w.a.end, run.a.end));
    }
    if w.b.start < run.b.start {
        if r > 0 {
            lemma_runs(a, b, es, r - 1);
            lemma_kept_box(b, es, r - 1, false, w.b.start, run.b.start);
        }
        lemma_kept_split(b, es, false, w.b.start, run.b.start, least(w.b.end, run.b.end));
        lemma_kept_all(a, b, es, r, false, run.b.start, least(w.b.end, run.b.end));
    } else {
        lemma_kept_all(a, b, es, r, false, w.b.start, least(w.b.end, run.b.end));
    }
}

/// Some group of the list holds both elements.
spec fn reached(gs: Seq<Edit>, x: int, y: int) -> bool {
    exists|u: int| 0 <= u < gs.len() && (#[trigger] gs[u]).a.has(x) && gs[u].b.has(y)
}

/// The groups that the scan has come upon so far: they follow one another up to
/// the last point, and those that are mostly changed have been taken down.
spec fn traced(
    a: Seq<char>,
    b: Seq<char>,
    es: Seq<Edit>,
    extra: Seq<Edit>,
    last: (int, int),
    gs: Seq<Edit>,
) -> bool {
    let n = a.len() as int;
    let m = b.len() as int;
    &&& forall|u: int| 0 <= u < gs.len() ==> word_group(a, b, es, #[trigger] gs[u])
    &&& forall|u: int| 0 <= u < gs.len() ==> fitting(es, n, m, #[trigger] gs[u])
    &&& forall|u: int, v: int|
        #![trigger gs[u], gs[v]]
        0 <= u < v < gs.len() ==> gs[u].a.end <= gs[v].a.start
    &&& last == (if gs.len() == 0 {
        (0int, 0int)
    } else {
        gs.last().ends()
    })
    &&& taken_down(a, b, es, extra, gs)
}

/// The list holds those groups that are mostly changed, and no others.
#[verifier::opaque]
spec fn taken_down(
    a: Seq<char>,
    b: Seq<char>,
    es: Seq<Edit>,
    extra: Seq<Edit>,
    gs: Seq<Edit>,
) -> bool {
    &&& forall|u: int|
        0 <= u < gs.len() && mostly_changed(a, b, es, #[trigger] gs[u]) ==> extra.contains(gs[u])
    &&& forall|k: int|
        0 <= k < extra.len() ==> gs.contains(#[trigger] extra[k]) && mostly_changed(
            a,
            b,
            es,
            extra[k],
        )
}

proof fn lemma_taken_down(
    a: Seq<char>,
    b: Seq<char>,
    es: Seq<Edit>,
    extra: Seq<Edit>,
    gs: Seq<Edit>,
    w: Edit,
)
    requires
        taken_down(a, b, es, extra, gs),
    ensures
        mostly_changed(a, b, es, w) ==> taken_down(a, b, es, extra.push(w), gs.push(w)),
        !mostly_changed(a, b, es, w) ==> taken_down(a, b, es, extra, gs.push(w)),
{
    reveal(taken_down);
    let more = if mostly_changed(a, b, es, w) {
        extra.push(w)
    } else {
        extra
    };
    let hs = gs.push(w);
    assert forall|u: int|
        0 <= u < hs.len() && mostly_changed(a, b, es, #[trigger] hs[u]) implies more.contains(
        hs[u],
    ) by {
        if u < gs.len() {
            assert(hs[u] == gs[u]);
            let k = choose|k: int| 0 <= k < extra.len() && extra[k] == gs[u];
            assert(more[k] == hs[u]);
        } else {
            assert(more[more.len() - 1] == hs[u]);
        }
    }
    assert forall|k: int| 0 <= k < more.len() implies hs.contains(#[trigger] more[k])
        && mostly_changed(a, b, es, more[k]) by {
        if k < extra.len() {
            assert(more[k] == extra[k]);
            let u = choose|u: int| 0 <= u < gs.len() && gs[u] == extra[k];
            assert(hs[u] == more[k]);
        } else {
            assert(hs[gs.len() as int] == more[k]);
        }
    }
}

/// No group starts behind the two elements.
spec fn started(gs: Seq<Edit>, x: int, y: int) -> bool {
    forall|u: int| 0 <= u < gs.len() ==> (#[trigger] gs[u]).a.start <= x && gs[u].b.start <= y
}

/// One look at the words around two matched elements of equal run `r`.
#[verifier::rlimit(30)]
proof fn lemma_scan_group(
    a: Seq<char>,
    b: Seq<char>,
    es: Seq<Edit>,
    st: Scan,
    q: int,
    r: int,
    x: int,
    y: int,
    gs: Seq<Edit>,
) -> (hs: Seq<Edit>)
    requires
        aligned(a, b, es, a.len() as int, b.len() as int),
        spaced(es),
        r < q,
        scanned(a, b, es, st, q, r),
        ahead(es, a.len() as int, b.len() as int, st, q, r),
        run_tip(es, a.len() as int, b.len() as int, r, x, y),
        traced(a, b, es, st.extra, st.last, gs),
        started(gs, x, y),
    ensures
        ({
            let next = scan(a, b, st, x, y, gap(es, a.len() as int, b.len() as int, r));
            &&& traced(a, b, es, next.extra, next.last, hs)
            &&& started(hs, x, y)
            &&& gs.len() <= hs.len()
            &&& forall|u: int| 0 <= u < gs.len() ==> #[trigger] hs[u] == gs[u]
            &&& word_char(element(a, x)) ==> reached(hs, x, y)
        }),
{
    let n = a.len() as int;
    let m = b.len() as int;
    let run = gap(es, n, m, r);
    lemma_runs(a, b, es, r);
    lemma_band_cut(a, b, es, n, m, r, x, y, st.last);
    let next = scan(a, b, st, x, y, run);
    if x < st.last.0 || y < st.last.1 {
        let u = gs.len() - 1;
        assert(gs[u].a.has(x) && gs[u].b.has(y));
        gs
    } else {
        if q > r + 1 {
            lemma_runs_order(a, b, es, r, q - 1);
        }
        assert(q == r + 1);
        lemma_word_pair(a, b, run, x, y);
        if word_at(a, x) is Some {
            lemma_word_at(a, x);
            lemma_word_at(b, y);
            lemma_word_starts(a, b, es, st, r, x, y);
            let g = seed(word_at(a, x)->0, word_at(b, y)->0, run, st.queue);
            lemma_seed_group(a, b, es, r, x, y, st.queue);
            let p = lemma_grow(a, b, es, g, r);
            lemma_grow_group(a, b, es, g, r);
            let w = grow(a, b, g).word;
            let hs = gs.push(w);
            assert(mostly_changed(a, b, es, w) <==> grow(a, b, g).equal_a + grow(a, b, g).equal_b
                < (w.a.len() + w.b.len()) * 2 / 3);
            assert(fitting(es, n, m, w));
            assert forall|u: int, v: int|
                #![trigger hs[u], hs[v]]
                0 <= u < v < hs.len() implies hs[u].a.end <= hs[v].a.start by {
                let l = gs.len() - 1;
                assert(fitting(es, n, m, gs[l]));
                if u < l {
                    assert(gs[u].a.end <= gs[l].a.start);
                }
            }
            lemma_taken_down(a, b, es, st.extra, gs, w);
            assert(hs[gs.len() as int].a.has(x) && hs[gs.len() as int].b.has(y));
            hs
        } else {
            gs
        }
    }
}

/// Every word at the tip of one of the first `q` equal runs has been reached.
spec fn all_reached(a: Seq<char>, es: Seq<Edit>, n: int, m: int, gs: Seq<Edit>, q: int) -> bool {
    forall|r: int, x: int, y: int| #[trigger]
        run_tip(es, n, m, r, x, y) && r < q && word_char(element(a, x)) ==> reached(gs, x, y)
}

proof fn lemma_reached_more(gs: Seq<Edit>, hs: Seq<Edit>, x: int, y: int)
    requires
        reached(gs, x, y),
        gs.len() <= hs.len(),
        forall|u: int| 0 <= u < gs.len() ==> #[trigger] hs[u] == gs[u],
    ensures
        reached(hs, x, y),
{
    let u = choose|u: int| 0 <= u < gs.len() && (#[trigger] gs[u]).a.has(x) && gs[u].b.has(y);
    assert(hs[u].a.has(x) && hs[u].b.has(y));
}

/// The groups that the whole scan comes upon.
proof fn lemma_scan_groups(
    a: Seq<char>,
    b: Seq<char>,
    es: Seq<Edit>,
    st: Scan,
    q: int,
    gs: Seq<Edit>,
) -> (hs: Seq<Edit>)
    requires
        aligned(a, b, es, a.len() as int, b.len() as int),
        spaced(es),
        scanned(a, b, es, st, q, q),
        traced(a, b, es, st.extra, st.last, gs),
        all_reached(a, es, a.len() as int, b.len() as int, gs, q),
        q <= es.len() ==> started(
            gs,
            gap(es, a.len() as int, b.len() as int, q).a.start,
            gap(es, a.len() as int, b.len() as int, q).b.start,
        ),
    ensures
        traced(a, b, es, scan_runs(a, b, st).extra, scan_runs(a, b, st).last, hs),
        all_reached(a, es, a.len() as int, b.len() as int, hs, es.len() as int + 1),
    decreases es.len() + 1 - q,
{
    let n = a.len() as int;
    let m = b.len() as int;
    if q <= es.len() {
        let run = gap(es, n, m, q);
        lemma_runs(a, b, es, q);
        assert(st.queue[0] == run);
        let rest = Scan { queue: st.queue.drop_first(), ..st };
        assert(rest.queue =~= gaps(es, n, m).skip(q + 1));
        if run.a.empty() {
            if q < es.len() {
                lemma_starts_before(a, b, es, q, q + 1);
            }
            lemma_scan_groups(a, b, es, rest, q + 1, gs)
        } else {
            assert(scanned(a, b, es, rest, q + 1, q));
            let p = lemma_scan(a, b, es, rest, q + 1, q, run.a.start, run.b.start);
            let fs = lemma_scan_group(
                a,
                b,
                es,
                rest,
                q + 1,
                q,
                run.a.start,
                run.b.start,
                gs,
            );
            let first = scan(a, b, rest, run.a.start, run.b.start, run);
            let o = lemma_scan(a, b, es, first, p, q, run.a.end - 1, run.b.end - 1);
            let hs = lemma_scan_group(
                a,
                b,
                es,
                first,
                p,
                q,
                run.a.end - 1,
                run.b.end - 1,
                fs,
            );
            let both = scan_run(a, b, rest, run);
            assert(scanned(a, b, es, both, o, o));
            assert forall|r: int, x: int, y: int| #[trigger]
                run_tip(es, n, m, r, x, y) && r < o && word_char(element(a, x)) implies reached(
                hs,
                x,
                y,
            ) by {
                if r < q {
                    lemma_reached_more(gs, fs, x, y);
                    lemma_reached_more(fs, hs, x, y);
                } else if r == q {
                    if x == run.a.start {
                        lemma_reached_more(fs, hs, x, y);
                    }
                } else {
                    lemma_starts_before(a, b, es, q, r);
                    lemma_starts_before(a, b, es, r, o - 1);
                    lemma_runs(a, b, es, r);
                    let u = hs.len() - 1;
                    assert(0 < hs.len());
                    assert(hs[u].a.has(x) && hs[u].b.has(y));
                }
            }
            if o <= es.len() {
                lemma_starts_before(a, b, es, q, o);
            }
            lemma_scan_groups(a, b, es, both, o, hs)
        }
    } else {
        gs
    }
}

proof fn lemma_interleave_holds(xs: Seq<Edit>, ys: Seq<Edit>, e: Edit)
    ensures
        interleave(xs, ys).contains(e) <==> xs.contains(e) || ys.contains(e),
    decreases xs.len() + ys.len(),
{
    if xs.len() > 0 && ys.len() > 0 {
        if xs[0].a.start < ys[0].a.start {
            lemma_interleave_holds(xs.drop_first(), ys, e);
            lemma_first_holds(xs, e);
            lemma_cons_holds(xs[0], interleave(xs.drop_first(), ys), e);
        } else {
            lemma_interleave_holds(xs, ys.drop_first(), e);
            lemma_first_holds(ys, e);
            lemma_cons_holds(ys[0], interleave(xs, ys.drop_first()), e);
        }
    }
}

proof fn lemma_first_holds(xs: Seq<Edit>, e: Edit)
    requires
        xs.len() > 0,
    ensures
        xs.contains(e) <==> xs[0] == e || xs.drop_first().contains(e),
{
    let rest = xs.drop_first();
    if xs.contains(e) {
        let i = choose|i: int| 0 <= i < xs.len() && xs[i] == e;
        if i > 0 {
            assert(rest[i - 1] == e);
        }
    }
    if rest.contains(e) {
        let i = choose|i: int| 0 <= i < rest.len() && rest[i] == e;
        assert(xs[i + 1] == e);
    }
}

proof fn lemma_cons_holds(x: Edit, xs: Seq<Edit>, e: Edit)
    ensures
        (seq![x] + xs).contains(e) <==> x == e || xs.contains(e),
{
    assert((seq![x] + xs).drop_first() =~= xs);
    lemma_first_holds(seq![x] + xs, e);
}

/// Joining what touches covers no more on the first side. Returns a change that
/// covers the element.
proof fn lemma_coalesce_cover(
    a: Seq<char>,
    b: Seq<char>,
    es: Seq<Edit>,
    zs: Seq<Edit>,
    u: int,
    at: int,
) -> (k: int)
    requires
        aligned(a, b, es, a.len() as int, b.len() as int),
        ascending(zs),
        forall|k: int|
            0 <= k < zs.len() ==> fitting(
                es,
                a.len() as int,
                b.len() as int,
                #[trigger] zs[k],
            ),
        0 <= u < coalesce(zs).len(),
        coalesce(zs)[u].a.has(at),
    ensures
        0 <= k < zs.len(),
        zs[k].a.has(at),
    decreases zs.len(),
{
    let n = a.len() as int;
    let m = b.len() as int;
    let head = zs.drop_last();
    let done = coalesce(head);
    let next = zs.last();
    assert forall|k: int| 0 <= k < head.len() implies fitting(es, n, m, #[trigger] head[k]) by {
        assert(head[k] == zs[k]);
    }
    lemma_coalesce(a, b, es, n, m, head);
    if head.len() > 0 {
        assert(zs[zs.len() - 2].a.start <= zs[zs.len() - 1].a.start);
    }
    if u < done.len() && done[u].a.has(at) {
        let k = lemma_coalesce_cover(a, b, es, head, u, at);
        assert(zs[k] == head[k]);
        k
    } else {
        zs.len() - 1
    }
}

/// The groups of words that widening comes upon, and the changes it works on.
proof fn lemma_groups(a: Seq<char>, b: Seq<char>, es: Seq<Edit>) -> (gs: Seq<Edit>)
    requires
        aligned(a, b, es, a.len() as int, b.len() as int),
        spaced(es),
    ensures
        exists|last: (int, int)| #[trigger]
            traced(a, b, es, changed_words(a, b, es), last, gs),
        all_reached(a, es, a.len() as int, b.len() as int, gs, es.len() as int + 1),
        ({
            let zs = interleave(es, changed_words(a, b, es));
            &&& ascending(zs)
            &&& forall|k: int|
                0 <= k < zs.len() ==> fitting(
                    es,
                    a.len() as int,
                    b.len() as int,
                    #[trigger] zs[k],
                )
        }),
{
    let n = a.len() as int;
    let m = b.len() as int;
    let queue = gaps(es, n, m);
    let st = Scan { queue, extra: Seq::empty(), last: (0, 0) };
    let words = changed_words(a, b, es);
    lemma_runs(a, b, es, 0);
    assert(queue.skip(0) =~= queue);
    assert(in_place(es, n, m, 0, false, 0, 0));
    lemma_scan_runs(a, b, es, st, 0);
    lemma_aligned_order(a, b, es, n, m);
    assert forall|u: int| 0 <= u < es.len() implies fitting(es, n, m, #[trigger] es[u]) by {
        lemma_own_fitting(a, b, es, n, m, u);
    }
    assert(ascending(es)) by {
        assert forall|u: int, v: int|
            #![trigger es[u], es[v]]
            0 <= u < v < es.len() implies es[u].a.start <= es[v].a.start by {
            assert(fitting(es, n, m, es[u]));
        }
    }
    lemma_interleave(es, n, m, es, words, 0);
    let none = Seq::<Edit>::empty();
    assert(taken_down(a, b, es, none, none)) by {
        reveal(taken_down);
    }
    assert(traced(a, b, es, st.extra, st.last, none));
    let gs = lemma_scan_groups(a, b, es, st, 0, none);
    assert(traced(a, b, es, words, scan_runs(a, b, st).last, gs));
    gs
}

/// A change that starts and ends at points of the band has two matched elements
/// both or neither.
proof fn lemma_fitting_alike(
    a: Seq<char>,
    b: Seq<char>,
    es: Seq<Edit>,
    r: int,
    x: int,
    y: int,
    e: Edit,
)
    requires
        aligned(a, b, es, a.len() as int, b.len() as int),
        0 <= r <= es.len(),
        gap(es, a.len() as int, b.len() as int, r).a.has(x),
        on_run(gap(es, a.len() as int, b.len() as int, r), x, y),
        fitting(es, a.len() as int, b.len() as int, e),
    ensures
        e.a.has(x) <==> e.b.has(y),
{
    let n = a.len() as int;
    let m = b.len() as int;
    lemma_band_cut(a, b, es, n, m, r, x, y, (e.a.start, e.b.start));
    lemma_band_cut(a, b, es, n, m, r, x, y, (e.a.end, e.b.end));
}

/// The equal run of an element that no change covers.
proof fn lemma_run_of(
    a: Seq<char>,
    b: Seq<char>,
    es: Seq<Edit>,
    left: bool,
    at: int,
    k: int,
) -> (r: int)
    requires
        aligned(a, b, es, a.len() as int, b.len() as int),
        !covered(es, left, at),
        0 <= k <= es.len(),
        0 <= at < own(gap(es, a.len() as int, b.len() as int, k), left).end,
    ensures
        0 <= r <= es.len(),
        own(gap(es, a.len() as int, b.len() as int, r), left).has(at),
        equal_run(
            a,
            b,
            gap(es, a.len() as int, b.len() as int, r),
            a.len() as int,
            b.len() as int,
        ),
    decreases k,
{
    reveal(aligned);
    let n = a.len() as int;
    let m = b.len() as int;
    assert(equal_run(a, b, gap(es, n, m, k), n, m));
    if own(gap(es, n, m, k), left).start <= at {
        k
    } else {
        assert(!own(es[k - 1], left).has(at));
        lemma_run_of(a, b, es, left, at, k - 1)
    }
}

/// Of a change that covers an element on the first side and that widening has
/// added, and of a group that holds it.
proof fn lemma_added_left(a: Seq<char>, b: Seq<char>, es: Seq<Edit>, gs: Seq<Edit>, at: int) -> (v:
    int)
    requires
        aligned(a, b, es, a.len() as int, b.len() as int),
        exists|last: (int, int)| #[trigger]
            traced(a, b, es, changed_words(a, b, es), last, gs),
        ({
            let zs = interleave(es, changed_words(a, b, es));
            &&& ascending(zs)
            &&& forall|k: int|
                0 <= k < zs.len() ==> fitting(
                    es,
                    a.len() as int,
                    b.len() as int,
                    #[trigger] zs[k],
                )
        }),
        covered(extended(a, b, es), true, at),
        !covered(es, true, at),
    ensures
        0 <= v < gs.len(),
        gs[v].a.has(at),
        mostly_changed(a, b, es, gs[v]),
{
    let words = changed_words(a, b, es);
    let zs = interleave(es, words);
    let fs = extended(a, b, es);
    let u = choose|u: int| 0 <= u < fs.len() && own(#[trigger] fs[u], true).has(at);
    let k = lemma_coalesce_cover(a, b, es, zs, u, at);
    assert(zs.contains(zs[k]));
    lemma_interleave_holds(es, words, zs[k]);
    if es.contains(zs[k]) {
        let d = choose|d: int| 0 <= d < es.len() && es[d] == zs[k];
        assert(own(es[d], true).has(at));
    }
    let i = choose|i: int| 0 <= i < words.len() && words[i] == zs[k];
    reveal(taken_down);
    assert(gs.contains(words[i]) && mostly_changed(a, b, es, words[i]));
    let v = choose|v: int| 0 <= v < gs.len() && gs[v] == words[i];
    v
}

/// Of the elements of a group that is not mostly changed, widening covers none
/// that was not covered before.
proof fn lemma_group_left_alone(
    a: Seq<char>,
    b: Seq<char>,
    es: Seq<Edit>,
    gs: Seq<Edit>,
    u: int,
    left: bool,
    at: int,
)
    requires
        aligned(a, b, es, a.len() as int, b.len() as int),
        spaced(es),
        exists|last: (int, int)| #[trigger]
            traced(a, b, es, changed_words(a, b, es), last, gs),
        ({
            let zs = interleave(es, changed_words(a, b, es));
            &&& ascending(zs)
            &&& forall|k: int|
                0 <= k < zs.len() ==> fitting(
                    es,
                    a.len() as int,
                    b.len() as int,
                    #[trigger] zs[k],
                )
        }),
        0 <= u < gs.len(),
        !mostly_changed(a, b, es, gs[u]),
        own(gs[u], left).has(at),
        covered(extended(a, b, es), left, at),
    ensures
        covered(es, left, at),
{
    let n = a.len() as int;
    let m = b.len() as int;
    let zs = interleave(es, changed_words(a, b, es));
    let fs = extended(a, b, es);
    if !covered(es, left, at) {
        let x = if left {
            at
        } else {
            let r = lemma_run_of(a, b, es, false, at, es.len() as int);
            let run = gap(es, n, m, r);
            let x = at - run.b.start + run.a.start;
            lemma_coalesce(a, b, es, n, m, zs);
            let k = choose|k: int| 0 <= k < fs.len() && own(#[trigger] fs[k], false).has(at);
            assert(fitting(es, n, m, fs[k]));
            lemma_fitting_alike(a, b, es, r, x, at, fs[k]);
            assert(own(fs[k], true).has(x));
            lemma_fitting_alike(a, b, es, r, x, at, gs[u]);
            lemma_run_uncovered(a, b, es, r, true, x);
            x
        };
        let v = lemma_added_left(a, b, es, gs, x);
        if v < u {
            assert(gs[v].a.end <= gs[u].a.start);
        } else if u < v {
            assert(gs[u].a.end <= gs[v].a.start);
        }
    }
}

/// The rule for words. Two matched word characters at the start or at the end of
/// an equal run lie in a group of words of both sides. If fewer than two thirds
/// of the elements of that group lie in equal runs, one change of the widened
/// list covers all of it, on both sides; otherwise widening adds nothing to what
/// the changes cover of it.
pub proof fn words_are_changed_as_a_whole(
    a: Seq<char>,
    b: Seq<char>,
    es: Seq<Edit>,
    r: int,
    x: int,
    y: int,
) -> (w: Edit)
    requires
        aligned(a, b, es, a.len() as int, b.len() as int),
        spaced(es),
        run_tip(es, a.len() as int, b.len() as int, r, x, y),
        word_char(a[x]),
    ensures
        word_group(a, b, es, w),
        w.a.has(x),
        w.b.has(y),
        mostly_changed(a, b, es, w) ==> held(w, extended(a, b, es)),
        !mostly_changed(a, b, es, w) ==> forall|at: int|
            w.a.has(at) ==> (#[trigger] covered(extended(a, b, es), true, at) <==> covered(
                es,
                true,
                at,
            )),
        !mostly_changed(a, b, es, w) ==> forall|at: int|
            w.b.has(at) ==> (#[trigger] covered(extended(a, b, es), false, at) <==> covered(
                es,
                false,
                at,
            )),
{
    let n = a.len() as int;
    let m = b.len() as int;
    let words = changed_words(a, b, es);
    let zs = interleave(es, words);
    let fs = extended(a, b, es);
    lemma_runs(a, b, es, r);
    let gs = lemma_groups(a, b, es);
    assert(reached(gs, x, y));
    let u = choose|u: int| 0 <= u < gs.len() && (#[trigger] gs[u]).a.has(x) && gs[u].b.has(y);
    let w = gs[u];
    assert(word_group(a, b, es, gs[u]));
    lemma_coalesce(a, b, es, n, m, zs);
    if mostly_changed(a, b, es, w) {
        reveal(taken_down);
        assert(words.contains(gs[u]));
        lemma_interleave_holds(es, words, w);
        let k = choose|k: int| 0 <= k < zs.len() && zs[k] == w;
        assert(held(zs[k], fs));
    } else {
        lemma_extended(a, b, es);
        assert forall|at: int| w.a.has(at) implies (#[trigger] covered(fs, true, at) <==> covered(
            es,
            true,
            at,
        )) by {
            if covered(fs, true, at) {
                lemma_group_left_alone(a, b, es, gs, u, true, at);
            }
            if covered(es, true, at) {
                lemma_still_covered(es, fs, true, at);
            }
        }
        assert forall|at: int| w.b.has(at) implies (#[trigger] covered(fs, false, at) <==> covered(
            es,
            false,
            at,
        )) by {
            if covered(fs, false, at) {
                lemma_group_left_alone(a, b, es, gs, u, false, at);
            }
            if covered(es, false, at) {
                lemma_still_covered(es, fs, false, at);
            }
        }
    }
    w
}

proof fn lemma_still_covered(es: Seq<Edit>, fs: Seq<Edit>, left: bool, at: int)
    requires
        covers(es, fs),
        covered(es, left, at),
    ensures
        covered(fs, left, at),
{
    let d = choose|d: int| 0 <= d < es.len() && own(#[trigger] es[d], left).has(at);
    assert(held(es[d], fs));
    let u = choose|u: int| 0 <= u < fs.len() && #[trigger] inside(es[d], fs[u]);
    assert(own(fs[u], left).has(at));
}

/// What widening adds are words: an element that it covers and that was not
/// covered before lies in a group of words of both sides of which fewer than two
/// thirds lie in equal runs.
pub proof fn added_changes_are_words(
    a: Seq<char>,
    b: Seq<char>,
    es: Seq<Edit>,
    left: bool,
    at: int,
) -> (w: Edit)
    requires
        aligned(a, b, es, a.len() as int, b.len() as int),
        spaced(es),
        covered(extended(a, b, es), left, at),
        !covered(es, left, at),
    ensures
        word_group(a, b, es, w),
        mostly_changed(a, b, es, w),
        left ==> w.a.has(at),
        !left ==> w.b.has(at),
{
    let n = a.len() as int;
    let m = b.len() as int;
    let zs = interleave(es, changed_words(a, b, es));
    let fs = extended(a, b, es);
    let gs = lemma_groups(a, b, es);
    lemma_coalesce(a, b, es, n, m, zs);
    let k = choose|k: int| 0 <= k < fs.len() && own(#[trigger] fs[k], left).has(at);
    assert(fitting(es, n, m, fs[k]));
    if left {
        let v = lemma_added_left(a, b, es, gs, at);
        gs[v]
    } else {
        let r = lemma_run_of(a, b, es, false, at, es.len() as int);
        let run = gap(es, n, m, r);
        let x = at - run.b.start + run.a.start;
        lemma_fitting_alike(a, b, es, r, x, at, fs[k]);
        assert(own(fs[k], true).has(x));
        lemma_run_uncovered(a, b, es, r, true, x);
        let v = lemma_added_left(a, b, es, gs, x);
        lemma_fitting_alike(a, b, es, r, x, at, gs[v]);
        gs[v]
    }
}

/// The range is a word of the text, around `at`.
pub open spec fn word_around(s: Seq<char>, range: Interval, at: int) -> bool {
    &&& 0 <= range.start <= at < range.end <= s.len()
    &&& in_word(s, range.start, range.end)
    &&& range.start > 0 ==> !word_char(s[range.start - 1])
    &&& range.end < s.len() ==> !word_char(s[range.end])
}

/// The ranges have elements of no other equal run than `r`.
pub open spec fn meets_only(es: Seq<Edit>, n: int, m: int, w: Edit, r: int) -> bool {
    forall|j: int|
        0 <= j <= es.len() && j != r ==> {
            let run = #[trigger] gap(es, n, m, j);
            &&& run.a.end <= w.a.start || w.a.end <= run.a.start || run.a.end <= run.a.start
            &&& run.b.end <= w.b.start || w.b.end <= run.b.start || run.b.end <= run.b.start
        }
}

/// A stretch of word characters that has an element of a word lies in the word.
proof fn lemma_same_word(s: Seq<char>, range: Interval, at: int, lo: int, hi: int)
    requires
        word_around(s, range, at),
        lo <= at < hi,
        in_word(s, lo, hi),
    ensures
        range.start <= lo,
        hi <= range.end,
{
    if lo < range.start {
        assert(word_char(element(s, range.start - 1)));
    }
    if range.end < hi {
        assert(word_char(element(s, range.end)));
    }
}

/// A tip of equal run `j` whose word is that of the pair lies in the run of the
/// pair.
proof fn lemma_only_run(es: Seq<Edit>, n: int, m: int, w: Edit, r: int, j: int, x: int, y: int)
    requires
        meets_only(es, n, m, w, r),
        0 <= j <= es.len(),
        ({
            let run = gap(es, n, m, j);
            ||| run.a.has(x) && w.a.has(x)
            ||| run.b.has(y) && w.b.has(y)
        }),
    ensures
        j == r,
{
}

/// The group of a tip consists of the words at the tip, where these have
/// elements of no other equal run.
proof fn lemma_group_is_pair(
    a: Seq<char>,
    b: Seq<char>,
    es: Seq<Edit>,
    r: int,
    x: int,
    y: int,
    pair: Edit,
    w: Edit,
)
    requires
        aligned(a, b, es, a.len() as int, b.len() as int),
        spaced(es),
        run_tip(es, a.len() as int, b.len() as int, r, x, y),
        word_around(a, pair.a, x),
        word_around(b, pair.b, y),
        meets_only(es, a.len() as int, b.len() as int, pair, r),
        word_group(a, b, es, w),
        w.a.has(x),
        w.b.has(y),
    ensures
        w == pair,
{
    reveal(word_group);
    let n = a.len() as int;
    let m = b.len() as int;
    let (p, x0, y0, q) = choose|p: int, x0: int, y0: int, q: int| #[trigger]
        linked(a, b, es, w, p, x0, y0, q);
    let run = gap(es, n, m, r);
    lemma_runs(a, b, es, r);
    lemma_runs(a, b, es, p);
    lemma_runs(a, b, es, q);
    // The group starts in the run of the pair.
    if p > r {
        lemma_starts_before(a, b, es, r, p);
        lemma_same_word(a, pair.a, x, w.a.start, x0 + 1);
        lemma_only_run(es, n, m, pair, r, p, x0, y0);
    }
    if p < r {
        if q < r {
            lemma_starts_before(a, b, es, q, r);
            let z = if q == p {
                x0
            } else {
                gap(es, n, m, q).a.start
            };
            lemma_same_word(a, pair.a, x, z, w.a.end);
            assert(gap(es, n, m, q).a.has(z));
            lemma_only_run(es, n, m, pair, r, q, z, 0);
        } else {
            lemma_group_from_before(a, b, es, r, x, y, pair, w, p, x0, y0, q);
        }
    }
    assert(p == r);
    lemma_group_to_behind(a, b, es, r, x, y, pair, w, x0, y0, q);
    if x < x0 {
        lemma_same_word(a, pair.a, x, w.a.start, x0 + 1);
        lemma_same_word(a, pair.a, x0, x0, w.a.end);
        lemma_same_word(b, pair.b, y, w.b.start, y0 + 1);
        lemma_same_word(b, pair.b, y0, y0, w.b.end);
    } else {
        lemma_same_word(a, pair.a, x, x0, w.a.end);
        lemma_same_word(a, pair.a, x0, w.a.start, x0 + 1);
        lemma_same_word(b, pair.b, y, y0, w.b.end);
        lemma_same_word(b, pair.b, y0, w.b.start, y0 + 1);
    }
    if w.a.start > pair.a.start {
        assert(word_char(element(a, w.a.start - 1)));
    }
    if w.b.start > pair.b.start {
        assert(word_char(element(b, w.b.start - 1)));
    }
    if w.a.end < pair.a.end {
        assert(word_char(element(a, w.a.end)));
    }
    if w.b.end < pair.b.end {
        assert(word_char(element(b, w.b.end)));
    }
}

/// No group comes to the run of the pair from a run before it.
proof fn lemma_group_from_before(
    a: Seq<char>,
    b: Seq<char>,
    es: Seq<Edit>,
    r: int,
    x: int,
    y: int,
    pair: Edit,
    w: Edit,
    p: int,
    x0: int,
    y0: int,
    q: int,
)
    requires
        aligned(a, b, es, a.len() as int, b.len() as int),
        spaced(es),
        run_tip(es, a.len() as int, b.len() as int, r, x, y),
        word_around(a, pair.a, x),
        word_around(b, pair.b, y),
        meets_only(es, a.len() as int, b.len() as int, pair, r),
        linked(a, b, es, w, p, x0, y0, q),
        w.a.has(x),
        w.b.has(y),
        r <= q,
    ensures
        r <= p,
{
    if p < r {
        let n = a.len() as int;
        let m = b.len() as int;
        let run = gap(es, n, m, r);
        let before = gap(es, n, m, r - 1);
        lemma_runs(a, b, es, r);
        lemma_runs(a, b, es, r - 1);
        lemma_runs(a, b, es, p);
        assert(bridged(a, b, es, r));
        let e = before.a.end - 1;
        let f = before.b.end - 1;
        assert(before.a.start <= e && word_char(element(a, e))) by {
            if p < r - 1 {
                assert(in_word(a, gap(es, n, m, r - 1).a.start, gap(es, n, m, r - 1).a.end));
            }
        }
        assert(a[e] == b[e - before.a.start + before.b.start]);
        assert(element(a, e) == element(b, f));
        // All of the run up to the tip is one word.
        assert(in_word(a, run.a.start, x + 1)) by {
            if r < q {
                assert(in_word(a, gap(es, n, m, r).a.start, gap(es, n, m, r).a.end));
            }
        }
        assert(in_word(b, run.b.start, y + 1)) by {
            assert forall|i: int| run.b.start <= i < y + 1 implies word_char(
                #[trigger] element(b, i),
            ) by {
                let k = i - run.b.start + run.a.start;
                assert(a[k] == b[k - run.a.start + run.b.start]);
                assert(word_char(element(a, k)));
            }
        }
        if in_word(a, before.a.end, run.a.start + 1) {
            assert(in_word(a, e, x + 1));
            lemma_same_word(a, pair.a, x, e, x + 1);
            lemma_only_run(es, n, m, pair, r, r - 1, e, f);
        } else {
            assert(in_word(b, f, y + 1));
            lemma_same_word(b, pair.b, y, f, y + 1);
            lemma_only_run(es, n, m, pair, r, r - 1, e, f);
        }
    }
}

/// No group goes on from the run of the pair to a run behind it.
proof fn lemma_group_to_behind(
    a: Seq<char>,
    b: Seq<char>,
    es: Seq<Edit>,
    r: int,
    x: int,
    y: int,
    pair: Edit,
    w: Edit,
    x0: int,
    y0: int,
    q: int,
)
    requires
        aligned(a, b, es, a.len() as int, b.len() as int),
        spaced(es),
        run_tip(es, a.len() as int, b.len() as int, r, x, y),
        word_around(a, pair.a, x),
        word_around(b, pair.b, y),
        meets_only(es, a.len() as int, b.len() as int, pair, r),
        linked(a, b, es, w, r, x0, y0, q),
        w.a.has(x),
        w.b.has(y),
    ensures
        q <= r,
{
    if r < q {
        let n = a.len() as int;
        let m = b.len() as int;
        let run = gap(es, n, m, r);
        let next = gap(es, n, m, r + 1);
        lemma_runs(a, b, es, r);
        lemma_runs(a, b, es, r + 1);
        assert(bridged(a, b, es, r + 1));
        // All of the run from the tip on is one word.
        assert(in_word(a, x, run.a.end));
        assert(in_word(b, y, run.b.end)) by {
            assert forall|i: int| y <= i < run.b.end implies word_char(
                #[trigger] element(b, i),
            ) by {
                let k = i - run.b.start + run.a.start;
                assert(a[k] == b[k - run.a.start + run.b.start]);
                assert(word_char(element(a, k)));
            }
        }
        if in_word(a, run.a.end, next.a.start + 1) {
            assert(word_char(element(a, next.a.start)));
            assert(in_word(a, x, next.a.start + 1));
            lemma_same_word(a, pair.a, x, x, next.a.start + 1);
            lemma_only_run(es, n, m, pair, r, r + 1, next.a.start, next.b.start);
        } else {
            assert(word_char(element(b, next.b.start)));
            assert(in_word(b, y, next.b.start + 1));
            lemma_same_word(b, pair.b, y, y, next.b.start + 1);
            lemma_only_run(es, n, m, pair, r, r + 1, next.a.start, next.b.start);
        }
    }
}

/// The rule for a pair of words: one word on each side, around two matched
/// elements at the start or at the end of an equal run, with elements of no other
/// equal run. If fewer than two thirds of the elements of both words lie in the
/// equal run, one change of the widened list covers both words; otherwise
/// widening adds nothing to what the changes cover of them.
pub proof fn a_pair_of_words_is_changed_as_a_whole(
    a: Seq<char>,
    b: Seq<char>,
    es: Seq<Edit>,
    r: int,
    x: int,
    y: int,
    pair: Edit,
)
    requires
        aligned(a, b, es, a.len() as int, b.len() as int),
        spaced(es),
        run_tip(es, a.len() as int, b.len() as int, r, x, y),
        word_around(a, pair.a, x),
        word_around(b, pair.b, y),
        meets_only(es, a.len() as int, b.len() as int, pair, r),
    ensures
        ({
            let run = gap(es, a.len() as int, b.len() as int, r);
            let low = if pair.a.start < run.a.start {
                run.a.start
            } else {
                pair.a.start
            };
            let high = if pair.a.end < run.a.end {
                pair.a.end
            } else {
                run.a.end
            };
            let both = pair.a.end - pair.a.start + (pair.b.end - pair.b.start);
            let fs = extended(a, b, es);
            // The run has as many elements in common with the one word as with the other.
            if (high - low) + (high - low) < both * 2 / 3 {
                exists|u: int|
                    0 <= u < fs.len() && (#[trigger] fs[u]).a.start <= pair.a.start && pair.a.end
                        <= fs[u].a.end && fs[u].b.start <= pair.b.start && pair.b.end <= fs[u].b.end
            } else {
                &&& forall|at: int|
                    pair.a.has(at) ==> (#[trigger] covered(fs, true, at) <==> covered(es, true, at))
                &&& forall|at: int|
                    pair.b.has(at) ==> (#[trigger] covered(fs, false, at) <==> covered(
                        es,
                        false,
                        at,
                    ))
            }
        }),
{
    let n = a.len() as int;
    let m = b.len() as int;
    lemma_runs(a, b, es, r);
    assert(word_char(element(a, x)));
    let w = words_are_changed_as_a_whole(a, b, es, r, x, y);
    lemma_group_is_pair(a, b, es, r, x, y, pair, w);
    lemma_pair_counted(a, b, es, r, x, y, pair);
    let fs = extended(a, b, es);
    if mostly_changed(a, b, es, w) {
        let u = choose|u: int| 0 <= u < fs.len() && #[trigger] inside(w, fs[u]);
        assert(fs[u].a.start <= pair.a.start);
    }
}

/// The elements of a pair of words that lie in equal runs are those in its run.
proof fn lemma_pair_counted(
    a: Seq<char>,
    b: Seq<char>,
    es: Seq<Edit>,
    r: int,
    x: int,
    y: int,
    pair: Edit,
)
    requires
        aligned(a, b, es, a.len() as int, b.len() as int),
        spaced(es),
        run_tip(es, a.len() as int, b.len() as int, r, x, y),
        word_around(a, pair.a, x),
        word_around(b, pair.b, y),
        meets_only(es, a.len() as int, b.len() as int, pair, r),
    ensures
        ({
            let run = gap(es, a.len() as int, b.len() as int, r);
            let low = if pair.a.start < run.a.start {
                run.a.start
            } else {
                pair.a.start
            };
            let high = if pair.a.end < run.a.end {
                pair.a.end
            } else {
                run.a.end
            };
            equal_elements(a, b, es, pair) == (high - low) + (high - low)
        }),
{
    let n = a.len() as int;
    let m = b.len() as int;
    let run = gap(es, n, m, r);
    lemma_runs(a, b, es, r);
    let low_a = if pair.a.start < run.a.start {
        run.a.start
    } else {
        pair.a.start
    };
    let high_a = least(pair.a.end, run.a.end);
    let low_b = if pair.b.start < run.b.start {
        run.b.start
    } else {
        pair.b.start
    };
    let high_b = least(pair.b.end, run.b.end);
    assert(word_at(a, x) == Some(pair.a)) by {
        lemma_word_is(a, pair.a, x);
    }
    assert(word_at(b, y) == Some(pair.b)) by {
        lemma_word_is(b, pair.b, y);
    }
    lemma_word_pair(a, b, run, x, y);
    assert(high_a - low_a == high_b - low_b);
    // What lies before and behind the run is changed.
    if pair.a.start < low_a {
        lemma_outside_changed(a, b, es, r, pair, true, pair.a.start, low_a);
    }
    if pair.b.start < low_b {
        lemma_outside_changed(a, b, es, r, pair, false, pair.b.start, low_b);
    }
    if high_a < pair.a.end {
        lemma_outside_changed(a, b, es, r, pair, true, high_a, pair.a.end);
    }
    if high_b < pair.b.end {
        lemma_outside_changed(a, b, es, r, pair, false, high_b, pair.b.end);
    }
    lemma_kept_all(a, b, es, r, true, low_a, high_a);
    lemma_kept_all(a, b, es, r, false, low_b, high_b);
    lemma_kept_split(a, es, true, pair.a.start, low_a, high_a);
    lemma_kept_split(a, es, true, pair.a.start, high_a, pair.a.end);
    lemma_kept_split(b, es, false, pair.b.start, low_b, high_b);
    lemma_kept_split(b, es, false, pair.b.start, high_b, pair.b.end);
}

proof fn lemma_word_is(s: Seq<char>, range: Interval, at: int)
    requires
        word_around(s, range, at),
    ensures
        word_at(s, at) == Some(range),
{
    assert(word_char(element(s, at)));
    lemma_word_at(s, at);
    let w = word_at(s, at)->0;
    assert(in_word(s, w.start, w.end));
    lemma_same_word(s, range, at, w.start, w.end);
    if range.start < w.start {
        assert(word_char(element(s, w.start - 1)));
    }
    if w.end < range.end {
        assert(word_char(element(s, w.end)));
    }
}

/// Of a part of a pair of words outside of its run nothing is kept.
proof fn lemma_outside_changed(
    a: Seq<char>,
    b: Seq<char>,
    es: Seq<Edit>,
    r: int,
    pair: Edit,
    left: bool,
    lo: int,
    hi: int,
)
    requires
        aligned(a, b, es, a.len() as int, b.len() as int),
        spaced(es),
        0 <= r <= es.len(),
        meets_only(es, a.len() as int, b.len() as int, pair, r),
        own(pair, left).start <= lo <= hi <= own(pair, left).end,
        0 <= lo,
        left ==> hi <= a.len(),
        !left ==> hi <= b.len(),
        ({
            let run = own(gap(es, a.len() as int, b.len() as int, r), left);
            hi <= run.start || run.end <= lo
        }),
    ensures
        kept(
            if left {
                a
            } else {
                b
            },
            es,
            left,
            lo,
            hi,
        ).len() == 0,
    decreases hi - lo,
{
    if lo < hi {
        let n = a.len() as int;
        let m = b.len() as int;
        lemma_outside_changed(a, b, es, r, pair, left, lo, hi - 1);
        let at = hi - 1;
        if !covered(es, left, at) {
            let j = lemma_run_of(a, b, es, left, at, es.len() as int);
            assert(own(gap(es, n, m, j), left).has(at));
        }
    }
}

} // verus!
