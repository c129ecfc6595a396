//! Widening changes to whole words keeps a list of changes aligned.

use vstd::prelude::*;

use crate::band::{
    covers, fitting, held, in_place, inside, lemma_band_cut, lemma_coarse_aligned,
    lemma_hull_fitting, lemma_own_fitting, on_band, on_run,
};
use crate::char_seq::{lemma_word_at, word_at};
use crate::chars::{element, word_char};
use crate::matching::{aligned, equal_run, lemma_aligned_order, spaced};
use crate::ranges::{gap, gaps, Edit};
use crate::words::{
    changed_words, coalesce, extended, grow, interleave, scan, scan_run, scan_runs, seed, Growth,
    Scan,
};

verus! {

/// Two ends lie at the same offset within a run, or both at or behind its end.
pub open spec fn ends_agree(run: Edit, x: int, y: int) -> bool {
    ||| run.a.end <= x && run.b.end <= y
    ||| run.a.start < x < run.a.end && x - run.a.start == y - run.b.start
}

/// Two starts lie at the same offset within a run, or both at or before its
/// start.
pub open spec fn starts_agree(run: Edit, x: int, y: int) -> bool {
    ||| x <= run.a.start && y <= run.b.start
    ||| run.a.start < x < run.a.end && x - run.a.start == y - run.b.start
}

/// The words around two elements of an equal run agree as far as the run goes.
pub proof fn lemma_word_pair(a: Seq<char>, b: Seq<char>, run: Edit, x: int, y: int)
    requires
        equal_run(a, b, run, a.len() as int, b.len() as int),
        run.a.has(x),
        on_run(run, x, y),
    ensures
        word_at(a, x) is Some <==> word_at(b, y) is Some,
        word_at(a, x) is Some ==> ends_agree(
            run,
            (word_at(a, x)->0).end,
            (word_at(b, y)->0).end,
        ) && starts_agree(run, (word_at(a, x)->0).start, (word_at(b, y)->0).start),
{
    assert(a[x] == b[y]);
    if word_at(a, x) is Some {
        lemma_word_at(a, x);
        lemma_word_at(b, y);
        let wa = word_at(a, x)->0;
        let wb = word_at(b, y)->0;
        let d = run.b.start - run.a.start;
        assert forall|i: int| run.a.start <= i < run.a.end implies #[trigger] element(a, i)
            == element(b, i + d) by {
            assert(a[i] == b[i - run.a.start + run.b.start]);
        }
        if wa.end < run.a.end {
            assert(element(a, wa.end) == element(b, wa.end + d));
            assert(wb.end <= wa.end + d) by {
                if wb.end > wa.end + d {
                    assert(word_char(element(b, wa.end + d)));
                }
            }
        }
        if wb.end < run.b.end {
            assert(element(a, wb.end - d) == element(b, wb.end - d + d));
            assert(wa.end <= wb.end - d) by {
                if wa.end > wb.end - d {
                    assert(word_char(element(a, wb.end - d)));
                }
            }
        }
        if wa.start > run.a.start {
            assert(element(a, wa.start - 1) == element(b, wa.start - 1 + d));
            assert(wb.start >= wa.start + d) by {
                if wb.start < wa.start + d {
                    assert(word_char(element(b, wa.start - 1 + d)));
                }
            }
        }
        if wb.start > run.b.start {
            assert(element(a, wb.start - 1 - d) == element(b, wb.start - 1 - d + d));
            assert(wa.start >= wb.start - d) by {
                if wa.start < wb.start - d {
                    assert(word_char(element(a, wb.start - 1 - d)));
                }
            }
        }
    }
}

/// Pair of words that has been widened up to equal run `run`.
pub open spec fn grown(a: Seq<char>, b: Seq<char>, run: Edit, w: Edit) -> bool {
    &&& 0 <= w.a.start < w.a.end <= a.len()
    &&& 0 <= w.b.start < w.b.end <= b.len()
    &&& w.a.start < run.a.end
    &&& w.b.start < run.b.end
    &&& w.a.start > 0 ==> !word_char(element(a, w.a.start - 1))
    &&& w.b.start > 0 ==> !word_char(element(b, w.b.start - 1))
    &&& w.a.end < a.len() ==> !word_char(element(a, w.a.end))
    &&& w.b.end < b.len() ==> !word_char(element(b, w.b.end))
    &&& forall|i: int| run.a.end <= i < w.a.end ==> word_char(#[trigger] element(a, i))
    &&& forall|i: int| run.b.end <= i < w.b.end ==> word_char(#[trigger] element(b, i))
    &&& ends_agree(run, w.a.end, w.b.end)
}

/// Runs of an aligned list whose changes are apart: each is an equal run, they
/// are in order, and only the first and the last can be empty.
pub proof fn lemma_runs(a: Seq<char>, b: Seq<char>, es: Seq<Edit>, r: int)
    requires
        aligned(a, b, es, a.len() as int, b.len() as int),
        spaced(es),
        0 <= r <= es.len(),
    ensures
        ({
            let n = a.len() as int;
            let m = b.len() as int;
            let run = gap(es, n, m, r);
            &&& gaps(es, n, m)[r] == run
            &&& equal_run(a, b, run, n, m)
            &&& 0 < r < es.len() ==> run.a.start < run.a.end
            &&& r == 0 ==> run.a.start == 0 && run.b.start == 0
            &&& r == es.len() ==> run.a.end == n && run.b.end == m
            &&& r < es.len() ==> {
                let next = gap(es, n, m, r + 1);
                &&& run.a.end == es[r].a.start && run.b.end == es[r].b.start
                &&& next.a.start == es[r].a.end && next.b.start == es[r].b.end
                &&& es[r].within(n, m)
            }
        }),
{
    reveal(aligned);
    if 0 < r && r < es.len() {
        assert(es[r - 1].a.end < es[r].a.start);
    }
    if r < es.len() {
        assert(es[r].within(a.len() as int, b.len() as int));
    }
}

/// One step of widening: the words at the start of the next run reach further,
/// and the start stays.
pub proof fn lemma_grow_step(a: Seq<char>, b: Seq<char>, run: Edit, next: Edit, w: Edit)
    requires
        equal_run(a, b, run, a.len() as int, b.len() as int),
        equal_run(a, b, next, a.len() as int, b.len() as int),
        run.a.end <= next.a.start,
        run.b.end <= next.b.start,
        next.a.start < next.a.end || next.a.start == a.len() && next.b.start == b.len(),
        grown(a, b, run, w),
        w.a.overlaps(next.a) || w.b.overlaps(next.b),
    ensures
        word_at(a, next.a.start) is Some,
        word_at(b, next.b.start) is Some,
        ({
            let v = Edit { a: word_at(a, next.a.start)->0, b: word_at(b, next.b.start)->0 };
            let h = w.hull(v);
            &&& h.a.start == w.a.start && h.b.start == w.b.start
            &&& h.ends() == v.ends()
            &&& w.a.end <= h.a.end && w.b.end <= h.b.end
            &&& next.a.start < h.a.end && next.b.start < h.b.end
            &&& grown(a, b, next, h)
        }),
{
    if w.a.overlaps(next.a) {
        assert(word_char(element(a, next.a.start)));
    } else {
        assert(word_char(element(b, next.b.start)));
    }
    lemma_word_pair(a, b, next, next.a.start, next.b.start);
    lemma_word_at(a, next.a.start);
    lemma_word_at(b, next.b.start);
    let va = word_at(a, next.a.start)->0;
    let vb = word_at(b, next.b.start)->0;
    assert(va.start >= w.a.start) by {
        if va.start < w.a.start {
            assert(word_char(element(a, w.a.start - 1)));
        }
    }
    assert(vb.start >= w.b.start) by {
        if vb.start < w.b.start {
            assert(word_char(element(b, w.b.start - 1)));
        }
    }
    assert(va.end >= w.a.end) by {
        if va.end < w.a.end {
            assert(word_char(element(a, va.end)));
        }
    }
    assert(vb.end >= w.b.end) by {
        if vb.end < w.b.end {
            assert(word_char(element(b, vb.end)));
        }
    }
}

/// Widening ends at a point of the band, at the end of a word on both sides.
/// `q` runs have been used up by then.
pub proof fn lemma_grow(a: Seq<char>, b: Seq<char>, es: Seq<Edit>, g: Growth, r: int) -> (q: int)
    requires
        aligned(a, b, es, a.len() as int, b.len() as int),
        spaced(es),
        0 <= r <= es.len(),
        g.queue == gaps(es, a.len() as int, b.len() as int).skip(r + 1),
        grown(a, b, gap(es, a.len() as int, b.len() as int, r), g.word),
    ensures
        ({
            let n = a.len() as int;
            let m = b.len() as int;
            let w = grow(a, b, g).word;
            let run = gap(es, n, m, q - 1);
            &&& r < q <= es.len() + 1
            &&& grow(a, b, g).queue == gaps(es, n, m).skip(q)
            &&& w.a.start == g.word.a.start && w.b.start == g.word.b.start
            &&& g.word.a.end <= w.a.end <= n && g.word.b.end <= w.b.end <= m
            &&& on_band(es, n, m, w.a.end, w.b.end)
            &&& w.a.end < n ==> !word_char(element(a, w.a.end))
            &&& w.b.end < m ==> !word_char(element(b, w.b.end))
            &&& q > r + 1 ==> run.a.end <= w.a.end && run.b.end <= w.b.end
        }),
    decreases es.len() - r,
{
    let n = a.len() as int;
    let m = b.len() as int;
    let runs = gaps(es, n, m);
    let run = gap(es, n, m, r);
    let w = g.word;
    lemma_runs(a, b, es, r);
    if r == es.len() {
        assert(in_place(es, n, m, r, false, w.a.end, w.b.end));
        r + 1
    } else {
        let next = gap(es, n, m, r + 1);
        lemma_runs(a, b, es, r + 1);
        assert(g.queue[0] == next);
        if !w.a.overlaps(next.a) && !w.b.overlaps(next.b) {
            if run.a.end <= w.a.end {
                assert(in_place(es, n, m, r, true, w.a.end, w.b.end));
            } else {
                assert(in_place(es, n, m, r, false, w.a.end, w.b.end));
            }
            r + 1
        } else {
            lemma_grow_step(a, b, run, next, w);
            let v = Edit { a: word_at(a, next.a.start)->0, b: word_at(b, next.b.start)->0 };
            let (more_a, more_b) = match v.meet(next) {
                Some(common) => (common.a.len(), common.b.len()),
                None => (0, 0),
            };
            let h = Growth {
                word: w.hull(v),
                equal_a: g.equal_a + more_a,
                equal_b: g.equal_b + more_b,
                queue: g.queue,
            };
            if h.word.a.end >= next.a.end {
                let h = Growth { queue: g.queue.drop_first(), ..h };
                assert(h.queue =~= runs.skip(r + 2));
                let q = lemma_grow(a, b, es, h, r + 1);
                q
            } else {
                assert(in_place(es, n, m, r + 1, false, h.word.a.end, h.word.b.end));
                r + 1
            }
        }
    }
}

/// No word goes across `at`.
pub open spec fn between_words(s: Seq<char>, at: int) -> bool {
    0 < at < s.len() ==> !(word_char(element(s, at - 1)) && word_char(element(s, at)))
}

/// If an equal run ends within a word, the point lies behind it.
pub open spec fn past_word(a: Seq<char>, run: Edit, p: (int, int)) -> bool {
    run.a.start < run.a.end && word_char(element(a, run.a.end - 1)) ==> run.a.end <= p.0
        && run.b.end <= p.1
}

/// The changed words fit the list, and follow one another on the first side up
/// to `limit`.
pub open spec fn words_fit(es: Seq<Edit>, n: int, m: int, words: Seq<Edit>, limit: int) -> bool {
    &&& forall|u: int| 0 <= u < words.len() ==> fitting(es, n, m, #[trigger] words[u])
    &&& forall|u: int| 0 <= u < words.len() ==> (#[trigger] words[u]).a.end <= limit
    &&& forall|u: int, v: int|
        #![trigger words[u], words[v]]
        0 <= u < v < words.len() ==> words[u].a.start <= words[v].a.start
}

/// State of the scan with `q` runs taken from the queue, `r` of them done with.
pub open spec fn scanned(
    a: Seq<char>,
    b: Seq<char>,
    es: Seq<Edit>,
    st: Scan,
    q: int,
    r: int,
) -> bool {
    let n = a.len() as int;
    let m = b.len() as int;
    &&& 0 <= r <= q <= es.len() + 1
    &&& st.queue == gaps(es, n, m).skip(q)
    &&& on_band(es, n, m, st.last.0, st.last.1)
    &&& between_words(a, st.last.0)
    &&& between_words(b, st.last.1)
    &&& r > 0 ==> past_word(a, gap(es, n, m, r - 1), st.last)
    &&& words_fit(es, n, m, st.extra, st.last.0)
}

/// Every run that the scan has used up ahead of run `r` ends at or before the
/// last word.
pub open spec fn ahead(es: Seq<Edit>, n: int, m: int, st: Scan, q: int, r: int) -> bool {
    q > r + 1 ==> {
        let run = gap(es, n, m, q - 1);
        run.a.end <= st.last.0 && run.b.end <= st.last.1
    }
}

/// The pair of words at an element of run `r` starts at a point of the band,
/// behind the last word.
pub proof fn lemma_word_starts(
    a: Seq<char>,
    b: Seq<char>,
    es: Seq<Edit>,
    st: Scan,
    r: int,
    x: int,
    y: int,
)
    requires
        aligned(a, b, es, a.len() as int, b.len() as int),
        spaced(es),
        scanned(a, b, es, st, r + 1, r),
        gap(es, a.len() as int, b.len() as int, r).a.has(x),
        on_run(gap(es, a.len() as int, b.len() as int, r), x, y),
        st.last.0 <= x,
        st.last.1 <= y,
        word_at(a, x) is Some,
    ensures
        word_at(b, y) is Some,
        on_band(
            es,
            a.len() as int,
            b.len() as int,
            (word_at(a, x)->0).start,
            (word_at(b, y)->0).start,
        ),
        st.last.0 <= (word_at(a, x)->0).start,
        st.last.1 <= (word_at(b, y)->0).start,
        r > 0 ==> gap(es, a.len() as int, b.len() as int, r - 1).a.end <= (word_at(a, x)->0).start,
        r > 0 ==> gap(es, a.len() as int, b.len() as int, r - 1).b.end <= (word_at(b, y)->0).start,
{
    let n = a.len() as int;
    let m = b.len() as int;
    let run = gap(es, n, m, r);
    lemma_runs(a, b, es, r);
    lemma_word_pair(a, b, run, x, y);
    lemma_word_at(a, x);
    lemma_word_at(b, y);
    let wa = word_at(a, x)->0;
    let wb = word_at(b, y)->0;
    assert(st.last.0 <= wa.start) by {
        if wa.start < st.last.0 {
            assert(word_char(element(a, st.last.0 - 1)));
            assert(word_char(element(a, st.last.0)));
        }
    }
    assert(st.last.1 <= wb.start) by {
        if wb.start < st.last.1 {
            assert(word_char(element(b, st.last.1 - 1)));
            assert(word_char(element(b, st.last.1)));
        }
    }
    if run.a.start < wa.start {
        assert(in_place(es, n, m, r, false, wa.start, wb.start));
        if r > 0 {
            lemma_runs(a, b, es, r - 1);
        }
    } else if r == 0 {
        assert(in_place(es, n, m, r, false, wa.start, wb.start));
    } else {
        let before = gap(es, n, m, r - 1);
        lemma_runs(a, b, es, r - 1);
        let p = before.a.end - 1;
        let o = before.b.end - 1;
        assert(before.a.end <= wa.start && before.b.end <= wb.start) by {
            if before.a.start < before.a.end {
                assert(a[p] == b[p - before.a.start + before.b.start]);
                assert(element(a, p) == element(b, o));
                if wa.start <= p {
                    assert(word_char(element(a, p)));
                }
                if wb.start <= o {
                    assert(word_char(element(b, o)));
                }
            }
        }
        assert(in_place(es, n, m, r - 1, true, wa.start, wb.start));
    }
}

/// One look at the words around two matched elements of run `r`.
pub proof fn lemma_scan(
    a: Seq<char>,
    b: Seq<char>,
    es: Seq<Edit>,
    st: Scan,
    q: int,
    r: int,
    x: int,
    y: int,
) -> (p: int)
    requires
        aligned(a, b, es, a.len() as int, b.len() as int),
        spaced(es),
        r < q,
        scanned(a, b, es, st, q, r),
        ahead(es, a.len() as int, b.len() as int, st, q, r),
        gap(es, a.len() as int, b.len() as int, r).a.has(x),
        on_run(gap(es, a.len() as int, b.len() as int, r), x, y),
    ensures
        ({
            let n = a.len() as int;
            let m = b.len() as int;
            let next = scan(a, b, st, x, y, gap(es, n, m, r));
            &&& r < p
            &&& scanned(a, b, es, next, p, r)
            &&& ahead(es, n, m, next, p, r)
            &&& word_char(element(a, x)) ==> x < next.last.0 && y < next.last.1
        }),
{
    let n = a.len() as int;
    let m = b.len() as int;
    let run = gap(es, n, m, r);
    lemma_runs(a, b, es, r);
    lemma_band_cut(a, b, es, n, m, r, x, y, st.last);
    if x < st.last.0 || y < st.last.1 {
        q
    } else {
        if q > r + 1 {
            lemma_runs_order(a, b, es, r, q - 1);
        }
        assert(q == r + 1);
        lemma_word_pair(a, b, run, x, y);
        if word_at(a, x) is Some {
            lemma_word_at(a, x);
            lemma_word_at(b, y);
            lemma_word_starts(a, b, es, st, r, x, y);
            let g = seed(word_at(a, x)->0, word_at(b, y)->0, run, st.queue);
            let p = lemma_grow(a, b, es, g, r);
            let w = grow(a, b, g).word;
            let next = scan(a, b, st, x, y, run);
            assert(fitting(es, n, m, w));
            assert(words_fit(es, n, m, st.extra.push(w), w.a.end)) by {
                let words = st.extra.push(w);
                assert forall|u: int| 0 <= u < words.len() implies fitting(
                    es,
                    n,
                    m,
                    #[trigger] words[u],
                ) by {
                    if u < st.extra.len() {
                        assert(fitting(es, n, m, st.extra[u]));
                    }
                }
                assert forall|u: int, v: int|
                    #![trigger words[u], words[v]]
                    0 <= u < v < words.len() implies words[u].a.start <= words[v].a.start by {
                    assert(fitting(es, n, m, st.extra[u]));
                    assert(st.extra[u].a.end <= st.last.0);
                    if v < st.extra.len() {
                        assert(st.extra[u].a.start <= st.extra[v].a.start);
                    }
                }
            }
            if r > 0 {
                lemma_runs(a, b, es, r - 1);
            }
            p
        } else {
            q
        }
    }
}

pub proof fn lemma_runs_order(a: Seq<char>, b: Seq<char>, es: Seq<Edit>, i: int, j: int)
    requires
        aligned(a, b, es, a.len() as int, b.len() as int),
        0 <= i < j <= es.len(),
    ensures
        gap(es, a.len() as int, b.len() as int, i).a.end <= gap(
            es,
            a.len() as int,
            b.len() as int,
            j,
        ).a.start,
        gap(es, a.len() as int, b.len() as int, j).a.start <= gap(
            es,
            a.len() as int,
            b.len() as int,
            j,
        ).a.end,
{
    reveal(aligned);
    lemma_aligned_order(a, b, es, a.len() as int, b.len() as int);
    assert(es[i].within(a.len() as int, b.len() as int));
    assert(es[j - 1].within(a.len() as int, b.len() as int));
    assert(equal_run(
        a,
        b,
        gap(es, a.len() as int, b.len() as int, j),
        a.len() as int,
        b.len() as int,
    ));
}

/// The words that the scan finds fit the list.
pub proof fn lemma_scan_runs(a: Seq<char>, b: Seq<char>, es: Seq<Edit>, st: Scan, q: int)
    requires
        aligned(a, b, es, a.len() as int, b.len() as int),
        spaced(es),
        scanned(a, b, es, st, q, q),
    ensures
        words_fit(
            es,
            a.len() as int,
            b.len() as int,
            scan_runs(a, b, st).extra,
            scan_runs(a, b, st).last.0,
        ),
    decreases es.len() + 1 - q,
{
    let n = a.len() as int;
    let m = b.len() as int;
    if q <= es.len() {
        let run = gap(es, n, m, q);
        lemma_runs(a, b, es, q);
        assert(st.queue[0] == run);
        let rest = Scan { queue: st.queue.drop_first(), ..st };
        assert(rest.queue =~= gaps(es, n, m).skip(q + 1));
        if run.a.empty() {
            lemma_scan_runs(a, b, es, rest, q + 1);
        } else {
            assert(scanned(a, b, es, rest, q + 1, q));
            let p = lemma_scan(a, b, es, rest, q + 1, q, run.a.start, run.b.start);
            let first = scan(a, b, rest, run.a.start, run.b.start, run);
            let o = lemma_scan(a, b, es, first, p, q, run.a.end - 1, run.b.end - 1);
            let both = scan_run(a, b, rest, run);
            assert(scanned(a, b, es, both, o, o));
            lemma_scan_runs(a, b, es, both, o);
        }
    }
}

/// The changes are ordered by where they start on the first side.
pub open spec fn ascending(xs: Seq<Edit>) -> bool {
    forall|u: int, v: int|
        #![trigger xs[u], xs[v]]
        0 <= u < v < xs.len() ==> xs[u].a.start <= xs[v].a.start
}

/// The changes fit the list, and none starts before `low`.
pub open spec fn all_fit(es: Seq<Edit>, n: int, m: int, xs: Seq<Edit>, low: int) -> bool {
    &&& forall|u: int| 0 <= u < xs.len() ==> fitting(es, n, m, #[trigger] xs[u])
    &&& forall|u: int| 0 <= u < xs.len() ==> low <= (#[trigger] xs[u]).a.start
}

pub proof fn lemma_drop_first(es: Seq<Edit>, n: int, m: int, xs: Seq<Edit>, low: int)
    requires
        xs.len() > 0,
        ascending(xs),
        all_fit(es, n, m, xs, low),
    ensures
        ascending(xs.drop_first()),
        all_fit(es, n, m, xs.drop_first(), xs[0].a.start),
{
    let rest = xs.drop_first();
    assert forall|u: int, v: int|
        #![trigger rest[u], rest[v]]
        0 <= u < v < rest.len() implies rest[u].a.start <= rest[v].a.start by {
        assert(xs[u + 1].a.start <= xs[v + 1].a.start);
    }
    assert forall|u: int| 0 <= u < rest.len() implies fitting(es, n, m, #[trigger] rest[u]) by {
        assert(fitting(es, n, m, xs[u + 1]));
    }
}

pub proof fn lemma_cons(es: Seq<Edit>, n: int, m: int, e: Edit, xs: Seq<Edit>, low: int)
    requires
        fitting(es, n, m, e),
        low <= e.a.start,
        ascending(xs),
        all_fit(es, n, m, xs, e.a.start),
    ensures
        ascending(seq![e] + xs),
        all_fit(es, n, m, seq![e] + xs, low),
{
    let ys = seq![e] + xs;
    assert forall|u: int, v: int|
        #![trigger ys[u], ys[v]]
        0 <= u < v < ys.len() implies ys[u].a.start <= ys[v].a.start by {
        assert(ys[v] == xs[v - 1]);
        if u > 0 {
            assert(ys[u] == xs[u - 1]);
        }
    }
    assert forall|u: int| 0 <= u < ys.len() implies fitting(es, n, m, #[trigger] ys[u]) by {
        if u > 0 {
            assert(ys[u] == xs[u - 1]);
        }
    }
    assert forall|u: int| 0 <= u < ys.len() implies low <= (#[trigger] ys[u]).a.start by {
        if u > 0 {
            assert(ys[u] == xs[u - 1]);
        }
    }
}

/// Interleaving keeps the order, and loses nothing of the first list.
#[verifier::rlimit(30)]
pub proof fn lemma_interleave(
    es: Seq<Edit>,
    n: int,
    m: int,
    xs: Seq<Edit>,
    ys: Seq<Edit>,
    low: int,
)
    requires
        ascending(xs),
        ascending(ys),
        all_fit(es, n, m, xs, low),
        all_fit(es, n, m, ys, low),
    ensures
        ascending(interleave(xs, ys)),
        all_fit(es, n, m, interleave(xs, ys), low),
        forall|i: int| 0 <= i < xs.len() ==> interleave(xs, ys).contains(#[trigger] xs[i]),
    decreases xs.len() + ys.len(),
{
    let zs = interleave(xs, ys);
    if xs.len() == 0 {
    } else if ys.len() == 0 {
        assert forall|i: int| 0 <= i < xs.len() implies zs.contains(#[trigger] xs[i]) by {
            assert(zs[i] == xs[i]);
        }
    } else if xs[0].a.start < ys[0].a.start {
        let rest = xs.drop_first();
        let tail = interleave(rest, ys);
        lemma_drop_first(es, n, m, xs, low);
        assert forall|u: int| 0 <= u < ys.len() implies xs[0].a.start <= (
        #[trigger] ys[u]).a.start by {
            assert(u > 0 ==> ys[0].a.start <= ys[u].a.start);
        }
        lemma_interleave(es, n, m, rest, ys, xs[0].a.start);
        lemma_cons(es, n, m, xs[0], tail, low);
        assert forall|i: int| 0 <= i < xs.len() implies zs.contains(#[trigger] xs[i]) by {
            if i == 0 {
                assert(zs[0] == xs[0]);
            } else {
                assert(rest[i - 1] == xs[i]);
                let k = choose|k: int| 0 <= k < tail.len() && tail[k] == xs[i];
                assert(zs[k + 1] == xs[i]);
            }
        }
    } else {
        let rest = ys.drop_first();
        let tail = interleave(xs, rest);
        lemma_drop_first(es, n, m, ys, low);
        assert forall|u: int| 0 <= u < xs.len() implies ys[0].a.start <= (
        #[trigger] xs[u]).a.start by {
            assert(u > 0 ==> xs[0].a.start <= xs[u].a.start);
        }
        lemma_interleave(es, n, m, xs, rest, ys[0].a.start);
        lemma_cons(es, n, m, ys[0], tail, low);
        assert forall|i: int| 0 <= i < xs.len() implies zs.contains(#[trigger] xs[i]) by {
            let k = choose|k: int| 0 <= k < tail.len() && tail[k] == xs[i];
            assert(zs[k + 1] == xs[i]);
        }
    }
}

/// Joining what touches gives separate changes that fit the list and cover what
/// they were made of.
pub proof fn lemma_coalesce(
    a: Seq<char>,
    b: Seq<char>,
    es: Seq<Edit>,
    n: int,
    m: int,
    zs: Seq<Edit>,
)
    requires
        aligned(a, b, es, n, m),
        ascending(zs),
        forall|u: int| 0 <= u < zs.len() ==> fitting(es, n, m, #[trigger] zs[u]),
    ensures
        spaced(coalesce(zs)),
        forall|u: int|
            0 <= u < coalesce(zs).len() ==> fitting(es, n, m, #[trigger] coalesce(zs)[u]),
        forall|k: int| 0 <= k < zs.len() ==> held(#[trigger] zs[k], coalesce(zs)),
        zs.len() > 0 ==> coalesce(zs).len() > 0 && coalesce(zs).last().a.start
            <= zs.last().a.start,
    decreases zs.len(),
{
    if zs.len() > 0 {
        let head = zs.drop_last();
        let done = coalesce(head);
        let next = zs.last();
        let fs = coalesce(zs);
        assert forall|u: int| 0 <= u < head.len() implies fitting(es, n, m, #[trigger] head[u]) by {
            assert(fitting(es, n, m, zs[u]));
        }
        lemma_coalesce(a, b, es, n, m, head);
        assert(fitting(es, n, m, zs[zs.len() - 1]));
        if head.len() > 0 {
            assert(zs[zs.len() - 2].a.start <= zs[zs.len() - 1].a.start);
            assert(fitting(es, n, m, done[done.len() - 1]));
        }
        let joins = done.len() > 0 && done.last().a.end >= next.a.start;
        if joins {
            lemma_hull_fitting(a, b, es, n, m, done.last(), next);
        }
        assert forall|u: int| 0 <= u < fs.len() implies fitting(es, n, m, #[trigger] fs[u]) by {
            if u < fs.len() - 1 {
                assert(fitting(es, n, m, done[u]));
            }
        }
        assert(spaced(fs)) by {
            assert forall|i: int, j: int|
                #![trigger fs[i], fs[j]]
                0 <= i && j == i + 1 && j < fs.len() implies fs[i].a.end < fs[j].a.start by {
                if j < done.len() {
                    assert(done[i].a.end < done[j].a.start);
                }
            }
        }
        assert forall|k: int| 0 <= k < zs.len() implies held(#[trigger] zs[k], fs) by {
            if k < head.len() {
                assert(head[k] == zs[k]);
                assert(held(head[k], done));
                let u = choose|u: int| 0 <= u < done.len() && #[trigger] inside(head[k], done[u]);
                assert(inside(zs[k], fs[u]));
            } else {
                assert(inside(zs[k], fs[fs.len() - 1]));
            }
        }
    }
}

/// Widening changes to whole words keeps the list aligned, and its changes
/// apart: what lies outside of them is the same on both sides.
pub proof fn lemma_extended(a: Seq<char>, b: Seq<char>, es: Seq<Edit>)
    requires
        aligned(a, b, es, a.len() as int, b.len() as int),
        spaced(es),
    ensures
        aligned(a, b, extended(a, b, es), a.len() as int, b.len() as int),
        spaced(extended(a, b, es)),
        covers(es, extended(a, b, es)),
{
    let n = a.len() as int;
    let m = b.len() as int;
    let queue = gaps(es, n, m);
    let st = Scan { queue, extra: Seq::empty(), last: (0, 0) };
    let words = changed_words(a, b, es);
    lemma_runs(a, b, es, 0);
    assert(queue.skip(0) =~= queue);
    assert(in_place(es, n, m, 0, false, 0, 0));
    lemma_scan_runs(a, b, es, st, 0);
    lemma_aligned_order(a, b, es, n, m);
    assert forall|u: int| 0 <= u < es.len() implies fitting(es, n, m, #[trigger] es[u]) by {
        lemma_own_fitting(a, b, es, n, m, u);
    }
    assert(ascending(es)) by {
        assert forall|u: int, v: int|
            #![trigger es[u], es[v]]
            0 <= u < v < es.len() implies es[u].a.start <= es[v].a.start by {
            assert(fitting(es, n, m, es[u]));
        }
    }
    let zs = interleave(es, words);
    lemma_interleave(es, n, m, es, words, 0);
    lemma_coalesce(a, b, es, n, m, zs);
    let fs = coalesce(zs);
    assert forall|k: int| 0 <= k < es.len() implies #[trigger] held(es[k], fs) by {
        assert(zs.contains(es[k]));
        let i = choose|i: int| 0 <= i < zs.len() && zs[i] == es[k];
        assert(held(zs[i], fs));
    }
    lemma_coarse_aligned(a, b, es, fs, n, m);
}

} // verus!
