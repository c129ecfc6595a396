//! Changes that are coarser than an aligned list of changes.
//!
//! An aligned list cuts the rectangle of two texts into equal runs, along
//! diagonals, and into the boxes of the changes between them. A point on a run
//! or in a box splits both texts in a way that no equal run crosses. A list
//! whose changes start and end at such points, and cover every box, is aligned
//! again.

use vstd::prelude::*;

use crate::matching::{aligned, equal_run, lemma_aligned_order, lemma_gap_run, spaced};
use crate::ranges::{gap, greatest, least, Edit};

verus! {

/// The point lies on the diagonal of an equal run.
pub open spec fn on_run(g: Edit, x: int, y: int) -> bool {
    g.a.start <= x <= g.a.end && x - g.a.start == y - g.b.start
}

/// The point lies in the box of a change.
pub open spec fn in_box(e: Edit, x: int, y: int) -> bool {
    e.a.start <= x <= e.a.end && e.b.start <= y <= e.b.end
}

/// The point lies on equal run `k`, or in box `k`.
pub open spec fn in_place(
    es: Seq<Edit>,
    n: int,
    m: int,
    k: int,
    boxed: bool,
    x: int,
    y: int,
) -> bool {
    if boxed {
        0 <= k < es.len() && in_box(es[k], x, y)
    } else {
        0 <= k <= es.len() && on_run(gap(es, n, m, k), x, y)
    }
}

/// The point lies on an equal run or in a box.
pub open spec fn on_band(es: Seq<Edit>, n: int, m: int, x: int, y: int) -> bool {
    exists|k: int, boxed: bool| in_place(es, n, m, k, boxed, x, y)
}

/// The change starts and ends at points of the band.
pub open spec fn fitting(es: Seq<Edit>, n: int, m: int, e: Edit) -> bool {
    &&& e.within(n, m)
    &&& on_band(es, n, m, e.a.start, e.b.start)
    &&& on_band(es, n, m, e.a.end, e.b.end)
}

/// One change lies within the other.
pub open spec fn inside(e: Edit, f: Edit) -> bool {
    f.a.start <= e.a.start && e.a.end <= f.a.end && f.b.start <= e.b.start && e.b.end <= f.b.end
}

/// The change lies within one of a list.
pub open spec fn held(e: Edit, fs: Seq<Edit>) -> bool {
    exists|u: int| 0 <= u < fs.len() && #[trigger] inside(e, fs[u])
}

/// Each change of the first list lies within one of the second.
pub open spec fn covers(es: Seq<Edit>, fs: Seq<Edit>) -> bool {
    forall|k: int| 0 <= k < es.len() ==> #[trigger] held(es[k], fs)
}

/// Places follow one another in order on both sides.
pub proof fn lemma_place_order(
    a: Seq<char>,
    b: Seq<char>,
    es: Seq<Edit>,
    n: int,
    m: int,
    p: (int, bool, int, int),
    q: (int, bool, int, int),
)
    requires
        aligned(a, b, es, n, m),
        in_place(es, n, m, p.0, p.1, p.2, p.3),
        in_place(es, n, m, q.0, q.1, q.2, q.3),
        p.0 < q.0 || p.0 == q.0 && !p.1 && q.1,
    ensures
        p.2 <= q.2,
        p.3 <= q.3,
{
    reveal(aligned);
    lemma_aligned_order(a, b, es, n, m);
    if !p.1 {
        assert(equal_run(a, b, gap(es, n, m, p.0), n, m));
    }
    if !q.1 {
        assert(equal_run(a, b, gap(es, n, m, q.0), n, m));
    }
    if p.0 < es.len() {
        assert(es[p.0].within(n, m));
    }
    if 0 < q.0 {
        assert(es[q.0 - 1].within(n, m));
    }
}

/// The lower left and the upper right of two points of the band are on it too.
pub proof fn lemma_band_corners(
    a: Seq<char>,
    b: Seq<char>,
    es: Seq<Edit>,
    n: int,
    m: int,
    p: (int, int),
    q: (int, int),
)
    requires
        aligned(a, b, es, n, m),
        on_band(es, n, m, p.0, p.1),
        on_band(es, n, m, q.0, q.1),
    ensures
        on_band(es, n, m, least(p.0, q.0), least(p.1, q.1)),
        on_band(es, n, m, greatest(p.0, q.0), greatest(p.1, q.1)),
{
    let (i, s) = choose|i: int, s: bool| in_place(es, n, m, i, s, p.0, p.1);
    let (j, t) = choose|j: int, t: bool| in_place(es, n, m, j, t, q.0, q.1);
    if i < j || i == j && !s && t {
        lemma_place_order(a, b, es, n, m, (i, s, p.0, p.1), (j, t, q.0, q.1));
    } else if j < i || i == j && !t && s {
        lemma_place_order(a, b, es, n, m, (j, t, q.0, q.1), (i, s, p.0, p.1));
    } else {
        assert(in_place(es, n, m, i, s, least(p.0, q.0), least(p.1, q.1)));
        assert(in_place(es, n, m, i, s, greatest(p.0, q.0), greatest(p.1, q.1)));
    }
}

/// The hull of two fitting changes fits.
pub proof fn lemma_hull_fitting(
    a: Seq<char>,
    b: Seq<char>,
    es: Seq<Edit>,
    n: int,
    m: int,
    e: Edit,
    f: Edit,
)
    requires
        aligned(a, b, es, n, m),
        fitting(es, n, m, e),
        fitting(es, n, m, f),
    ensures
        fitting(es, n, m, e.hull(f)),
{
    lemma_band_corners(a, b, es, n, m, (e.a.start, e.b.start), (f.a.start, f.b.start));
    lemma_band_corners(a, b, es, n, m, e.ends(), f.ends());
}

/// The changes of the list itself fit.
pub proof fn lemma_own_fitting(
    a: Seq<char>,
    b: Seq<char>,
    es: Seq<Edit>,
    n: int,
    m: int,
    k: int,
)
    requires
        aligned(a, b, es, n, m),
        0 <= k < es.len(),
    ensures
        fitting(es, n, m, es[k]),
{
    reveal(aligned);
    let e = es[k];
    assert(e.within(n, m));
    assert(in_place(es, n, m, k, true, e.a.start, e.b.start));
    assert(in_place(es, n, m, k, true, e.a.end, e.b.end));
}

/// A point of the band lies behind an element of an equal run on one side where
/// it does on the other.
pub proof fn lemma_band_cut(
    a: Seq<char>,
    b: Seq<char>,
    es: Seq<Edit>,
    n: int,
    m: int,
    r: int,
    x: int,
    y: int,
    p: (int, int),
)
    requires
        aligned(a, b, es, n, m),
        0 <= r <= es.len(),
        gap(es, n, m, r).a.has(x),
        on_run(gap(es, n, m, r), x, y),
        on_band(es, n, m, p.0, p.1),
    ensures
        x < p.0 <==> y < p.1,
{
    reveal(aligned);
    let g = gap(es, n, m, r);
    assert(equal_run(a, b, g, n, m));
    let (k, boxed) = choose|k: int, boxed: bool| in_place(es, n, m, k, boxed, p.0, p.1);
    if k < r {
        lemma_place_order(
            a,
            b,
            es,
            n,
            m,
            (k, boxed, p.0, p.1),
            (r, false, g.a.start, g.b.start),
        );
    } else if k > r || boxed {
        lemma_place_order(a, b, es, n, m, (r, false, g.a.end, g.b.end), (k, boxed, p.0, p.1));
    }
}

proof fn lemma_spaced_order(fs: Seq<Edit>, n: int, m: int, i: int, j: int)
    requires
        spaced(fs),
        forall|t: int| 0 <= t < fs.len() ==> #[trigger] fs[t].within(n, m),
        0 <= i < j < fs.len(),
    ensures
        fs[i].a.end < fs[j].a.start,
    decreases j,
{
    assert(fs[j - 1].a.end < fs[j].a.start);
    if i < j - 1 {
        lemma_spaced_order(fs, n, m, i, j - 1);
        assert(fs[j - 1].within(n, m));
    }
}

/// What a coarser list leaves out between two of its changes lies on one equal
/// run.
proof fn lemma_same_run(
    a: Seq<char>,
    b: Seq<char>,
    es: Seq<Edit>,
    fs: Seq<Edit>,
    n: int,
    m: int,
    t: int,
    i: int,
    j: int,
) -> (k: int)
    requires
        aligned(a, b, es, n, m),
        spaced(fs),
        covers(es, fs),
        forall|u: int| 0 <= u < fs.len() ==> #[trigger] fs[u].within(n, m),
        0 <= t <= fs.len(),
        0 <= i <= j <= es.len(),
        ({
            let h = gap(fs, n, m, t);
            &&& on_run(gap(es, n, m, i), h.a.start, h.b.start)
            &&& on_run(gap(es, n, m, j), h.a.end, h.b.end)
            &&& forall|u: int| 0 <= u < t ==> (#[trigger] fs[u]).b.end <= h.b.start
            &&& forall|u: int| t <= u < fs.len() ==> h.b.end <= (#[trigger] fs[u]).b.start
        }),
    ensures
        0 <= k <= es.len(),
        on_run(gap(es, n, m, k), gap(fs, n, m, t).a.start, gap(fs, n, m, t).b.start),
        on_run(gap(es, n, m, k), gap(fs, n, m, t).a.end, gap(fs, n, m, t).b.end),
    decreases j - i,
{
    reveal(aligned);
    let h = gap(fs, n, m, t);
    if i == j {
        i
    } else {
        let e = es[i];
        let g = gap(es, n, m, i);
        assert(equal_run(a, b, g, n, m));
        assert(equal_run(a, b, gap(es, n, m, i + 1), n, m));
        assert(e.within(n, m));
        lemma_place_order(
            a,
            b,
            es,
            n,
            m,
            (i, true, e.a.end, e.b.end),
            (j, false, h.a.end, h.b.end),
        );
        assert(held(es[i], fs));
        let u = choose|u: int| 0 <= u < fs.len() && #[trigger] inside(e, fs[u]);
        if u < t {
            if u < t - 1 {
                lemma_spaced_order(fs, n, m, u, t - 1);
                assert(fs[t - 1].within(n, m));
            }
            assert(fs[u].b.end <= h.b.start);
            assert(on_run(gap(es, n, m, i + 1), h.a.start, h.b.start));
            lemma_same_run(a, b, es, fs, n, m, t, i + 1, j)
        } else {
            if t < u {
                lemma_spaced_order(fs, n, m, t, u);
                assert(fs[t].within(n, m));
            }
            assert(h.b.end <= fs[u].b.start);
            assert(on_run(g, h.a.end, h.b.end));
            i
        }
    }
}

/// A coarser list is in order on the second side too.
proof fn lemma_coarse_order(
    a: Seq<char>,
    b: Seq<char>,
    es: Seq<Edit>,
    fs: Seq<Edit>,
    n: int,
    m: int,
    i: int,
    j: int,
)
    requires
        aligned(a, b, es, n, m),
        spaced(fs),
        covers(es, fs),
        forall|u: int| 0 <= u < fs.len() ==> fitting(es, n, m, #[trigger] fs[u]),
        0 <= i < j < fs.len(),
    ensures
        fs[i].b.end <= fs[j].b.start,
{
    let p = fs[i].ends();
    let q = (fs[j].a.start, fs[j].b.start);
    assert forall|u: int| 0 <= u < fs.len() implies #[trigger] fs[u].within(n, m) by {
        assert(fitting(es, n, m, fs[u]));
    }
    assert(fitting(es, n, m, fs[i]) && fitting(es, n, m, fs[j]));
    lemma_spaced_order(fs, n, m, i, j);
    let (k, s) = choose|k: int, s: bool| in_place(es, n, m, k, s, p.0, p.1);
    let (l, t) = choose|l: int, t: bool| in_place(es, n, m, l, t, q.0, q.1);
    if k < l || k == l && !s && t {
        lemma_place_order(a, b, es, n, m, (k, s, p.0, p.1), (l, t, q.0, q.1));
    } else if l < k || k == l && !t && s {
        lemma_place_order(a, b, es, n, m, (l, t, q.0, q.1), (k, s, p.0, p.1));
    } else if s {
        assert(held(es[k], fs));
        let u = choose|u: int| 0 <= u < fs.len() && #[trigger] inside(es[k], fs[u]);
        assert(fs[u].within(n, m));
        if u < i {
            lemma_spaced_order(fs, n, m, u, i);
        } else if i < u {
            lemma_spaced_order(fs, n, m, i, u);
        }
    }
}

/// A change of a coarser list ends on an equal run.
proof fn lemma_end_on_run(
    a: Seq<char>,
    b: Seq<char>,
    es: Seq<Edit>,
    fs: Seq<Edit>,
    n: int,
    m: int,
    t: int,
) -> (k: int)
    requires
        aligned(a, b, es, n, m),
        spaced(fs),
        covers(es, fs),
        forall|u: int| 0 <= u < fs.len() ==> fitting(es, n, m, #[trigger] fs[u]),
        0 <= t < fs.len(),
    ensures
        0 <= k <= es.len(),
        on_run(gap(es, n, m, k), fs[t].a.end, fs[t].b.end),
{
    let p = fs[t].ends();
    assert forall|u: int| 0 <= u < fs.len() implies #[trigger] fs[u].within(n, m) by {
        assert(fitting(es, n, m, fs[u]));
    }
    assert(fitting(es, n, m, fs[t]));
    let (k, boxed) = choose|k: int, boxed: bool| in_place(es, n, m, k, boxed, p.0, p.1);
    if boxed {
        reveal(aligned);
        assert(held(es[k], fs));
        let u = choose|u: int| 0 <= u < fs.len() && #[trigger] inside(es[k], fs[u]);
        assert(fs[u].within(n, m));
        if u < t {
            lemma_spaced_order(fs, n, m, u, t);
        } else if t < u {
            lemma_spaced_order(fs, n, m, t, u);
        }
        assert(equal_run(a, b, gap(es, n, m, k + 1), n, m));
        k + 1
    } else {
        k
    }
}

/// A change of a coarser list starts on an equal run.
proof fn lemma_start_on_run(
    a: Seq<char>,
    b: Seq<char>,
    es: Seq<Edit>,
    fs: Seq<Edit>,
    n: int,
    m: int,
    t: int,
) -> (k: int)
    requires
        aligned(a, b, es, n, m),
        spaced(fs),
        covers(es, fs),
        forall|u: int| 0 <= u < fs.len() ==> fitting(es, n, m, #[trigger] fs[u]),
        0 <= t < fs.len(),
    ensures
        0 <= k <= es.len(),
        on_run(gap(es, n, m, k), fs[t].a.start, fs[t].b.start),
{
    let p = (fs[t].a.start, fs[t].b.start);
    assert forall|u: int| 0 <= u < fs.len() implies #[trigger] fs[u].within(n, m) by {
        assert(fitting(es, n, m, fs[u]));
    }
    assert(fitting(es, n, m, fs[t]));
    let (k, boxed) = choose|k: int, boxed: bool| in_place(es, n, m, k, boxed, p.0, p.1);
    if boxed {
        reveal(aligned);
        assert(held(es[k], fs));
        let u = choose|u: int| 0 <= u < fs.len() && #[trigger] inside(es[k], fs[u]);
        assert(fs[u].within(n, m));
        if u < t {
            lemma_spaced_order(fs, n, m, u, t);
        } else if t < u {
            lemma_spaced_order(fs, n, m, t, u);
        }
        assert(equal_run(a, b, gap(es, n, m, k), n, m));
    }
    k
}

proof fn lemma_part_of_run(a: Seq<char>, b: Seq<char>, g: Edit, h: Edit, n: int, m: int)
    requires
        equal_run(a, b, g, n, m),
        on_run(g, h.a.start, h.b.start),
        on_run(g, h.a.end, h.b.end),
        h.a.start <= h.a.end,
    ensures
        equal_run(a, b, h, n, m),
{
    assert forall|p: int| h.a.start <= p < h.a.start + h.a.len() implies #[trigger] a[p] == b[p
        - h.a.start + h.b.start] by {
        assert(a[p] == b[p - g.a.start + g.b.start]);
    }
}

/// The runs on which a stretch between two changes of a coarser list starts and
/// ends.
proof fn lemma_stretch(
    a: Seq<char>,
    b: Seq<char>,
    es: Seq<Edit>,
    fs: Seq<Edit>,
    n: int,
    m: int,
    t: int,
) -> (r: (int, int))
    requires
        0 <= n,
        0 <= m,
        aligned(a, b, es, n, m),
        spaced(fs),
        covers(es, fs),
        forall|u: int| 0 <= u < fs.len() ==> fitting(es, n, m, #[trigger] fs[u]),
        0 <= t <= fs.len(),
    ensures
        0 <= r.0 <= r.1 <= es.len(),
        on_run(gap(es, n, m, r.0), gap(fs, n, m, t).a.start, gap(fs, n, m, t).b.start),
        on_run(gap(es, n, m, r.1), gap(fs, n, m, t).a.end, gap(fs, n, m, t).b.end),
        gap(fs, n, m, t).a.within(n),
{
    let h = gap(fs, n, m, t);
    lemma_gap_run(a, b, es, n, m, 0);
    lemma_gap_run(a, b, es, n, m, es.len() as int);
    let i = if t == 0 {
        0
    } else {
        lemma_end_on_run(a, b, es, fs, n, m, t - 1)
    };
    let j = if t == fs.len() {
        es.len() as int
    } else {
        lemma_start_on_run(a, b, es, fs, n, m, t)
    };
    if t < fs.len() {
        assert(fitting(es, n, m, fs[t]));
    }
    if 0 < t {
        assert(fitting(es, n, m, fs[t - 1]));
    }
    if 0 < t && t < fs.len() {
        assert(fs[t - 1].a.end < fs[t].a.start);
    }
    if j < i {
        lemma_place_order(
            a,
            b,
            es,
            n,
            m,
            (j, false, h.a.end, h.b.end),
            (i, false, h.a.start, h.b.start),
        );
    }
    (i, j)
}

proof fn lemma_coarse_gap(
    a: Seq<char>,
    b: Seq<char>,
    es: Seq<Edit>,
    fs: Seq<Edit>,
    n: int,
    m: int,
    t: int,
)
    requires
        0 <= n,
        0 <= m,
        aligned(a, b, es, n, m),
        spaced(fs),
        covers(es, fs),
        forall|u: int| 0 <= u < fs.len() ==> fitting(es, n, m, #[trigger] fs[u]),
        0 <= t <= fs.len(),
    ensures
        equal_run(a, b, gap(fs, n, m, t), n, m),
{
    let h = gap(fs, n, m, t);
    let (i, j) = lemma_stretch(a, b, es, fs, n, m, t);
    assert forall|u: int| 0 <= u < fs.len() implies #[trigger] fs[u].within(n, m) by {
        assert(fitting(es, n, m, fs[u]));
    }
    assert forall|u: int| 0 <= u < t implies (#[trigger] fs[u]).b.end <= h.b.start by {
        if u < t - 1 {
            lemma_coarse_order(a, b, es, fs, n, m, u, t - 1);
            assert(fs[t - 1].within(n, m));
        }
    }
    assert forall|u: int| t <= u < fs.len() implies h.b.end <= (#[trigger] fs[u]).b.start by {
        if t < u {
            lemma_coarse_order(a, b, es, fs, n, m, t, u);
            assert(fs[t].within(n, m));
        }
    }
    let k = lemma_same_run(a, b, es, fs, n, m, t, i, j);
    lemma_gap_run(a, b, es, n, m, k);
    lemma_part_of_run(a, b, gap(es, n, m, k), h, n, m);
}

/// A list of separate changes that fit an aligned list and cover it is aligned.
pub proof fn lemma_coarse_aligned(
    a: Seq<char>,
    b: Seq<char>,
    es: Seq<Edit>,
    fs: Seq<Edit>,
    n: int,
    m: int,
)
    requires
        0 <= n,
        0 <= m,
        aligned(a, b, es, n, m),
        spaced(fs),
        covers(es, fs),
        forall|u: int| 0 <= u < fs.len() ==> fitting(es, n, m, #[trigger] fs[u]),
    ensures
        aligned(a, b, fs, n, m),
{
    assert forall|t: int| 0 <= t <= fs.len() implies equal_run(
        a,
        b,
        #[trigger] gap(fs, n, m, t),
        n,
        m,
    ) by {
        lemma_coarse_gap(a, b, es, fs, n, m, t);
    }
    assert forall|u: int| 0 <= u < fs.len() implies #[trigger] fs[u].within(n, m) by {
        assert(fitting(es, n, m, fs[u]));
    }
    assert(aligned(a, b, fs, n, m)) by {
        reveal(aligned);
    }
}

} // verus!
