//! Comparison of two long sequences by greedy search along diagonals.
//!
//! Diagonal `k` holds the points `(x, x - k)`. Round `d` of the search takes
//! every path one step further: on each diagonal it starts from the better of
//! the two neighbouring diagonals and then follows matching elements as far as
//! they go. The search ends with the first path that reaches the far corner.

use vstd::prelude::*;

use crate::char_seq::{CharSeq, MAX_ELEMENTS};
use crate::chars::element;
use crate::dp::{dp_edits, trivial_diff, whole};
use crate::matching::{
    aligned, chain, edits_between, lemma_aligned_none, lemma_aligned_push, lemma_chain_widen,
    lemma_edits_between, report, reversed, same, spaced, Block,
};
use crate::ranges::{edits, greatest, least, Edit, SequenceDiff};
use crate::shortest::{changed, lemma_searches_compared};

verus! {

/// How far the search has come.
pub struct Frontier {
    /// The furthest offset of the first sequence on each diagonal.
    pub reach: Map<int, int>,
    /// The matching blocks on the way there.
    pub trail: Map<int, Seq<Block>>,
}

/// The furthest offset on diagonal `k`, `-1` on one that was not reached.
pub open spec fn reach_at(f: Frontier, k: int) -> int {
    if f.reach.dom().contains(k) {
        f.reach[k]
    } else {
        -1
    }
}

/// The blocks on the way along diagonal `k`.
pub open spec fn trail_at(f: Frontier, k: int) -> Seq<Block> {
    if f.trail.dom().contains(k) {
        f.trail[k]
    } else {
        Seq::empty()
    }
}

/// Where the matching elements from `(x, y)` on stop, on the first side.
pub open spec fn snake_end(a: Seq<char>, b: Seq<char>, x: int, y: int) -> int
    decreases a.len() - x,
{
    if x < a.len() && y < b.len() && element(a, x) == element(b, y) {
        snake_end(a, b, x + 1, y + 1)
    } else {
        x
    }
}

/// The first diagonal of round `d`, for a second side of length `m`.
pub open spec fn lower(d: int, m: int) -> int {
    -least(d, m + d % 2)
}

/// The bound on the diagonals of round `d`, for a first side of length `n`.
pub open spec fn upper(d: int, n: int) -> int {
    least(d, n + d % 2)
}

/// The offset that diagonal `k` takes over from the diagonal above it.
pub open spec fn from_top(f: Frontier, hi: int, k: int) -> int {
    if k == hi {
        -1
    } else {
        reach_at(f, k + 1)
    }
}

/// The offset that diagonal `k` takes over from the diagonal below it.
pub open spec fn from_left(f: Frontier, lo: int, k: int) -> int {
    if k == lo {
        -1
    } else {
        reach_at(f, k - 1) + 1
    }
}

/// The offset at which diagonal `k` is entered in a round over `lo..=hi`.
pub open spec fn entry(f: Frontier, n: int, lo: int, hi: int, k: int) -> int {
    least(greatest(from_top(f, hi, k), from_left(f, lo, k)), n)
}

/// The frontier once diagonal `k` is entered and its matches are followed.
pub open spec fn advance(
    a: Seq<char>,
    b: Seq<char>,
    f: Frontier,
    lo: int,
    hi: int,
    k: int,
) -> Frontier {
    let x = entry(f, a.len() as int, lo, hi, k);
    let end = snake_end(a, b, x, x - k);
    let trail = if x == from_top(f, hi, k) {
        trail_at(f, k + 1)
    } else {
        trail_at(f, k - 1)
    };
    Frontier {
        reach: f.reach.insert(k, end),
        trail: f.trail.insert(
            k,
            if end != x {
                trail.push(Block { a: x, b: x - k, len: end - x })
            } else {
                trail
            },
        ),
    }
}

/// The rest of a round, from diagonal `k` on: the frontier, and the diagonal on
/// which the far corner was reached. A diagonal that would be entered below the
/// last row is left as it is.
pub open spec fn sweep(
    a: Seq<char>,
    b: Seq<char>,
    f: Frontier,
    lo: int,
    hi: int,
    k: int,
) -> (Frontier, Option<int>)
    decreases hi + 2 - k,
{
    if k > hi {
        (f, None)
    } else if entry(f, a.len() as int, lo, hi, k) - k > b.len() {
        sweep(a, b, f, lo, hi, k + 2)
    } else {
        let g = advance(a, b, f, lo, hi, k);
        if reach_at(g, k) == a.len() && a.len() - k == b.len() {
            (g, Some(k))
        } else {
            sweep(a, b, g, lo, hi, k + 2)
        }
    }
}

/// The blocks of the path that the rounds from `d` on find.
pub open spec fn search(a: Seq<char>, b: Seq<char>, f: Frontier, d: int) -> Seq<Block>
    decreases a.len() + b.len() + 1 - d,
{
    let lo = lower(d, b.len() as int);
    let (g, found) = sweep(a, b, f, lo, upper(d, a.len() as int), lo);
    match found {
        Some(k) => trail_at(g, k),
        None => if d > a.len() + b.len() {
            Seq::empty()
        } else {
            search(a, b, g, d + 1)
        },
    }
}

/// The frontier before the first round: the matches from the start on.
pub open spec fn origin(a: Seq<char>, b: Seq<char>) -> Frontier {
    let end = snake_end(a, b, 0, 0);
    Frontier {
        reach: Map::empty().insert(0, end),
        trail: Map::empty().insert(
            0,
            if end == 0 {
                Seq::empty()
            } else {
                seq![Block { a: 0, b: 0, len: end }]
            },
        ),
    }
}

/// The changes that the search finds.
pub open spec fn myers_edits(a: Seq<char>, b: Seq<char>) -> Seq<Edit> {
    let n = a.len() as int;
    let m = b.len() as int;
    if n == 0 || m == 0 {
        seq![whole(a, b)]
    } else {
        edits_between(search(a, b, origin(a, b), 1), n, m)
    }
}

/// Matches are followed forwards, up to the first elements that differ.
pub proof fn lemma_snake_grows(a: Seq<char>, b: Seq<char>, x: int, y: int)
    ensures
        x <= snake_end(a, b, x, y),
        ({
            let end = snake_end(a, b, x, y);
            ||| end >= a.len()
            ||| end - x + y >= b.len()
            ||| element(a, end) != element(b, end - x + y)
        }),
    decreases a.len() - x,
{
    if x < a.len() && y < b.len() && element(a, x) == element(b, y) {
        lemma_snake_grows(a, b, x + 1, y + 1);
    }
}

pub proof fn lemma_snake(a: Seq<char>, b: Seq<char>, x: int, y: int)
    requires
        x <= a.len(),
        y <= b.len(),
    ensures
        x <= snake_end(a, b, x, y) <= a.len(),
        snake_end(a, b, x, y) - x + y <= b.len(),
        0 <= x && 0 <= y ==> same(a, x, b, y, snake_end(a, b, x, y) - x),
    decreases a.len() - x,
{
    if x < a.len() && y < b.len() && element(a, x) == element(b, y) {
        lemma_snake(a, b, x + 1, y + 1);
        if 0 <= x && 0 <= y {
            assert forall|i: int| x <= i < snake_end(a, b, x, y) implies #[trigger] a[i] == b[i - x
                + y] by {
                if i > x {
                    assert(a[i] == b[i - (x + 1) + (y + 1)]);
                }
            }
        }
    }
}

/// How many steps the paths of round `d` have taken. With an odd number of rows
/// the round after the last row is reached visits the diagonals of the round
/// before it once more.
pub open spec fn level(d: int, m: int) -> int {
    if d <= m || m % 2 == 0 {
        d
    } else {
        d - 1
    }
}

/// The diagonals that `e` steps reach inside the grid.
pub open spec fn inside(e: int, n: int, m: int, k: int) -> bool {
    -least(e, m) <= k <= least(e, n) && (k - e) % 2 == 0
}

/// Diagonal `k` is as far as `e` steps without any match would take it, along
/// matching blocks.
pub open spec fn good(a: Seq<char>, b: Seq<char>, f: Frontier, e: int, k: int) -> bool {
    let n = a.len() as int;
    let m = b.len() as int;
    &&& reach_at(f, k) >= least((e + k) / 2, n)
    &&& chain(a, b, trail_at(f, k), n, m)
    &&& reach_at(f, k) < n ==> chain(a, b, trail_at(f, k), reach_at(f, k), reach_at(f, k) - k)
}

/// What holds of a frontier at any time in a round of level `e`. `crest` is the
/// highest diagonal on which the last row is reached, `-m - 1` if there is none;
/// nothing below it matters any more.
pub open spec fn bounded(a: Seq<char>, b: Seq<char>, f: Frontier, e: int, crest: int) -> bool {
    let n = a.len() as int;
    let m = b.len() as int;
    &&& forall|j: int|
        {
            &&& -1 <= #[trigger] reach_at(f, j) <= n
            &&& j >= -m - 1 ==> reach_at(f, j) - j <= m
            &&& j > e || j < -e ==> reach_at(f, j) == -1
            &&& j > crest && j >= -m ==> reach_at(f, j) != m + j
        }
    &&& crest == -m - 1 || (-m <= crest && reach_at(f, crest) == m + crest)
    &&& reach_at(f, n + 1) == -1 || (reach_at(f, n + 1) == n && chain(
        a,
        b,
        trail_at(f, n + 1),
        n,
        m,
    ))
}

/// The diagonals of the round before, of level `e`.
pub open spec fn old_row(a: Seq<char>, b: Seq<char>, f: Frontier, e: int, crest: int) -> bool {
    let n = a.len() as int;
    let m = b.len() as int;
    forall|j: int| #[trigger]
        inside(e, n, m, j) ==> j + 2 <= crest || (crest == n - m && j + 1 <= crest) || good(
            a,
            b,
            f,
            e,
            j,
        )
}

/// The diagonals of the current round, of level `e`, below `k`.
pub open spec fn new_row(
    a: Seq<char>,
    b: Seq<char>,
    f: Frontier,
    e: int,
    crest: int,
    k: int,
) -> bool {
    let n = a.len() as int;
    let m = b.len() as int;
    forall|j: int| #[trigger]
        inside(e, n, m, j) && j < k ==> j < crest || good(a, b, f, e, j)
}

/// The crest would be entered where it is once more.
pub open spec fn steady(a: Seq<char>, b: Seq<char>, f: Frontier, lo: int, crest: int) -> bool {
    let x = entry(f, a.len() as int, lo, a.len() as int + 2, crest);
    reach_at(f, crest) <= snake_end(a, b, x, x - crest)
}

/// What holds after a round of level `e` that started at diagonal `lo` and did
/// not reach the far corner.
pub open spec fn settled(
    a: Seq<char>,
    b: Seq<char>,
    f: Frontier,
    e: int,
    lo: int,
    crest: int,
) -> bool {
    let n = a.len() as int;
    let m = b.len() as int;
    &&& bounded(a, b, f, e, crest)
    &&& old_row(a, b, f, e - 1, crest)
    &&& new_row(a, b, f, e, crest, n + 1)
    &&& crest == -m - 1 || crest == n - m || (crest - e) % 2 == 0
    &&& crest == n - m ==> n == m && (e == 0 || reach_at(f, 1) == n)
    &&& e >= 1 && crest > -m - 1 && crest != n - m ==> steady(a, b, f, lo, crest)
}

/// What holds in a round of level `e` before diagonal `k` is visited. `again`
/// tells whether the round visits the diagonals of the round before; `first` is
/// the crest at its start.
pub open spec fn midway(
    a: Seq<char>,
    b: Seq<char>,
    f: Frontier,
    e: int,
    lo: int,
    crest: int,
    k: int,
    again: bool,
    first: int,
) -> bool {
    let n = a.len() as int;
    let m = b.len() as int;
    &&& bounded(a, b, f, e, crest)
    &&& old_row(a, b, f, e - 1, crest)
    &&& new_row(
        a,
        b,
        f,
        e,
        crest,
        if again {
            n + 1
        } else {
            k
        },
    )
    &&& first <= crest
    &&& first == -m - 1 || first == n - m || (first - e) % 2 == (if again {
        0int
    } else {
        1int
    })
    &&& first > -m - 1 && first != n - m && !again && k > first + 1 ==> crest > first
    &&& crest != first ==> (crest - e) % 2 == 0 && crest < k
    &&& crest == n - m ==> {
        &&& first == crest
        &&& n == m
        &&& reach_at(f, 1) == n || (e == 1 && k <= 1)
        &&& again || e == 1 || reach_at(f, 1) == n
    }
    &&& crest > -m - 1 && crest != n - m && (crest - e) % 2 == 0 ==> steady(a, b, f, lo, crest)
    &&& (n - m - e) % 2 == 0 && n - m < k ==> reach_at(f, n - m) != n
}

/// How the bounds of a round relate to its level.
pub open spec fn round_of(e: int, n: int, m: int, lo: int, hi: int) -> bool {
    &&& e >= 1 && n >= 1 && m >= 1
    &&& (lo - e) % 2 == 0
    &&& if e <= m {
        lo == -e
    } else {
        lo == -m || lo == -m - 1
    }
    &&& 1 <= hi
    &&& least(e, n) <= hi
    &&& hi == e || hi == e + 1 || hi == n || hi == n + 1
    &&& hi <= e + 1
    &&& hi <= n + 1
}

pub proof fn lemma_round(d: int, n: int, m: int)
    requires
        d >= 1,
        n >= 1,
        m >= 1,
    ensures
        round_of(level(d, m), n, m, lower(d, m), upper(d, n)),
{
}

/// Visiting a diagonal that the search still cares about.
pub proof fn lemma_advance_good(
    a: Seq<char>,
    b: Seq<char>,
    f: Frontier,
    e: int,
    lo: int,
    hi: int,
    crest: int,
    k: int,
)
    requires
        round_of(e, a.len() as int, b.len() as int, lo, hi),
        bounded(a, b, f, e, crest),
        old_row(a, b, f, e - 1, crest),
        inside(e, a.len() as int, b.len() as int, k),
        crest < k || (crest == k && crest != a.len() - b.len()),
    ensures
        0 <= entry(f, a.len() as int, lo, hi, k),
        0 <= entry(f, a.len() as int, lo, hi, k) - k <= b.len(),
        good(a, b, advance(a, b, f, lo, hi, k), e, k),
        reach_at(advance(a, b, f, lo, hi, k), k) - k <= b.len(),
        reach_at(advance(a, b, f, lo, hi, k), k) <= a.len(),
        reach_at(advance(a, b, f, lo, hi, k), k) >= 0,
        crest == k - 1 && crest >= -b.len() && crest != a.len() - b.len() ==> reach_at(
            advance(a, b, f, lo, hi, k),
            k,
        ) == b.len() + k,
{
    let n = a.len() as int;
    let m = b.len() as int;
    let top = from_top(f, hi, k);
    let left = from_left(f, lo, k);
    let x = entry(f, n, lo, hi, k);
    let g = advance(a, b, f, lo, hi, k);
    assert(-1 <= reach_at(f, k + 1) <= n);
    assert(-1 <= reach_at(f, k - 1) <= n);
    if k + 1 <= least(e - 1, n) {
        assert(inside(e - 1, n, m, k + 1));
        assert(good(a, b, f, e - 1, k + 1));
        assert(top >= least((e + k) / 2, n));
    }
    if k - 1 >= -least(e - 1, m) {
        assert(inside(e - 1, n, m, k - 1));
        assert(good(a, b, f, e - 1, k - 1));
    }
    assert(x >= least((e + k) / 2, n));
    assert(x >= 0 && x - k >= 0);
    assert(x - k <= m);
    lemma_snake(a, b, x, x - k);
    let end = snake_end(a, b, x, x - k);
    let trail = if x == top {
        trail_at(f, k + 1)
    } else {
        trail_at(f, k - 1)
    };
    assert(chain(a, b, trail, n, m));
    if x < n {
        if x == top {
            lemma_chain_widen(a, b, trail, x, x - (k + 1), x, x - k);
        } else {
            lemma_chain_widen(a, b, trail, x - 1, x - k, x, x - k);
        }
    }
    if end != x {
        let longer = trail.push(Block { a: x, b: x - k, len: end - x });
        assert(longer.drop_last() =~= trail);
        assert(chain(a, b, longer, end, end - k));
        lemma_chain_widen(a, b, longer, end, end - k, n, m);
    }
}

/// A diagonal that is left out lies below the crest.
pub proof fn lemma_skip(
    a: Seq<char>,
    b: Seq<char>,
    f: Frontier,
    e: int,
    lo: int,
    hi: int,
    crest: int,
    k: int,
    again: bool,
    first: int,
)
    requires
        round_of(e, a.len() as int, b.len() as int, lo, hi),
        midway(a, b, f, e, lo, crest, k, again, first),
        lo <= k <= hi,
        (k - e) % 2 == 0,
        entry(f, a.len() as int, lo, hi, k) - k > b.len(),
    ensures
        k < crest,
{
    let n = a.len() as int;
    let m = b.len() as int;
    assert(-1 <= reach_at(f, k + 1) <= n);
    assert(-1 <= reach_at(f, k - 1) <= n);
    if crest <= k && inside(e, n, m, k) {
        if crest == k && crest == n - m {
            assert(inside(e - 1, n, m, 1));
        } else {
            lemma_advance_good(a, b, f, e, lo, hi, crest, k);
        }
    }
}

/// The crest once diagonal `k` has been visited.
pub open spec fn crest_after(g: Frontier, m: int, crest: int, k: int) -> int {
    if crest < k && -m <= k && reach_at(g, k) == m + k {
        k
    } else {
        crest
    }
}

/// What a visit does to the diagonal itself: as far as the search cares about
/// it, it is good again, and only the corner is reached at the end of both
/// sides.
pub open spec fn visited(
    a: Seq<char>,
    b: Seq<char>,
    f: Frontier,
    g: Frontier,
    e: int,
    crest: int,
    k: int,
) -> bool {
    let n = a.len() as int;
    let m = b.len() as int;
    &&& forall|j: int| j != k ==> #[trigger] reach_at(g, j) == reach_at(f, j)
    &&& forall|j: int| j != k ==> #[trigger] trail_at(g, j) == trail_at(f, j)
    &&& -1 <= reach_at(g, k) <= n
    &&& reach_at(g, k) - k <= m
    &&& crest <= k && inside(e, n, m, k) && !(crest == k && crest == n - m) ==> {
        &&& good(a, b, g, e, k)
        &&& crest == k ==> reach_at(g, k) == m + k
        &&& crest == k - 1 && crest >= -m && crest != n - m ==> reach_at(g, k) == m + k
    }
    &&& crest == k && crest == n - m ==> reach_at(g, k) == n && chain(a, b, trail_at(g, k), n, m)
    &&& k == n + 1 ==> reach_at(g, k) == n && chain(a, b, trail_at(g, k), n, m)
}

pub proof fn lemma_visited(
    a: Seq<char>,
    b: Seq<char>,
    f: Frontier,
    e: int,
    lo: int,
    hi: int,
    crest: int,
    k: int,
    again: bool,
    first: int,
)
    requires
        round_of(e, a.len() as int, b.len() as int, lo, hi),
        midway(a, b, f, e, lo, crest, k, again, first),
        lo <= k <= hi,
        (k - e) % 2 == 0,
        entry(f, a.len() as int, lo, hi, k) - k <= b.len(),
    ensures
        visited(a, b, f, advance(a, b, f, lo, hi, k), e, crest, k),
{
    let n = a.len() as int;
    let m = b.len() as int;
    let x = entry(f, n, lo, hi, k);
    let g = advance(a, b, f, lo, hi, k);
    assert(-1 <= reach_at(f, k + 1) <= n);
    assert(-1 <= reach_at(f, k - 1) <= n);
    assert(-1 <= reach_at(f, k) <= n);
    lemma_snake(a, b, x, x - k);
    if crest <= k && inside(e, n, m, k) {
        if crest == k && crest == n - m {
            assert(inside(e - 1, n, m, 1));
            assert(good(a, b, f, e - 1, 1));
        } else {
            lemma_advance_good(a, b, f, e, lo, hi, crest, k);
        }
    }
    if k == n + 1 {
        assert(inside(e - 1, n, m, n));
        assert(good(a, b, f, e - 1, n));
        assert(reach_at(f, n) == n);
    }
}

proof fn lemma_visit_bounded(
    a: Seq<char>,
    b: Seq<char>,
    f: Frontier,
    g: Frontier,
    e: int,
    lo: int,
    hi: int,
    crest: int,
    k: int,
    again: bool,
    first: int,
)
    requires
        round_of(e, a.len() as int, b.len() as int, lo, hi),
        midway(a, b, f, e, lo, crest, k, again, first),
        visited(a, b, f, g, e, crest, k),
        lo <= k <= hi,
        (k - e) % 2 == 0,
        !(reach_at(g, k) == a.len() && a.len() - k == b.len()),
    ensures
        bounded(a, b, g, e, crest_after(g, b.len() as int, crest, k)),
{
}

proof fn lemma_visit_rows(
    a: Seq<char>,
    b: Seq<char>,
    f: Frontier,
    g: Frontier,
    e: int,
    lo: int,
    hi: int,
    crest: int,
    k: int,
    again: bool,
    first: int,
)
    requires
        round_of(e, a.len() as int, b.len() as int, lo, hi),
        midway(a, b, f, e, lo, crest, k, again, first),
        visited(a, b, f, g, e, crest, k),
        lo <= k <= hi,
        (k - e) % 2 == 0,
        !(reach_at(g, k) == a.len() && a.len() - k == b.len()),
    ensures
        old_row(a, b, g, e - 1, crest_after(g, b.len() as int, crest, k)),
        new_row(
            a,
            b,
            g,
            e,
            crest_after(g, b.len() as int, crest, k),
            if again {
                a.len() as int + 1
            } else {
                k + 2
            },
        ),
{
    let n = a.len() as int;
    let m = b.len() as int;
    let next = crest_after(g, m, crest, k);
    assert forall|j: int| #[trigger] inside(e - 1, n, m, j) implies j + 2 <= next || (next == n - m
        && j + 1 <= next) || good(a, b, g, e - 1, j) by {
        assert(j != k);
        assert(reach_at(g, j) == reach_at(f, j));
        assert(trail_at(g, j) == trail_at(f, j));
    }
    assert forall|j: int| #[trigger]
        inside(e, n, m, j) && (again || j < k + 2) implies j < next || good(a, b, g, e, j) by {
        if j != k {
            assert(j < k || again);
            assert(reach_at(g, j) == reach_at(f, j));
            assert(trail_at(g, j) == trail_at(f, j));
        }
    }
}

proof fn lemma_visit_steady(
    a: Seq<char>,
    b: Seq<char>,
    f: Frontier,
    g: Frontier,
    e: int,
    lo: int,
    hi: int,
    crest: int,
    k: int,
    again: bool,
    first: int,
)
    requires
        round_of(e, a.len() as int, b.len() as int, lo, hi),
        midway(a, b, f, e, lo, crest, k, again, first),
        visited(a, b, f, g, e, crest, k),
        lo <= k <= hi,
        (k - e) % 2 == 0,
        !(reach_at(g, k) == a.len() && a.len() - k == b.len()),
        g == advance(a, b, f, lo, hi, k),
    ensures
        ({
            let n = a.len() as int;
            let m = b.len() as int;
            let next = crest_after(g, m, crest, k);
            next > -m - 1 && next != n - m && (next - e) % 2 == 0 ==> steady(a, b, g, lo, next)
        }),
{
    let next = crest_after(g, b.len() as int, crest, k);
    assert(reach_at(g, next - 1) == reach_at(f, next - 1) || next - 1 == k);
    assert(reach_at(g, next + 1) == reach_at(f, next + 1) || next + 1 == k);
}

/// Visiting one diagonal keeps what holds in a round; if the far corner is
/// reached, then along matching blocks. Gives the new crest.
#[verifier::rlimit(30)]
pub proof fn lemma_visit(
    a: Seq<char>,
    b: Seq<char>,
    f: Frontier,
    e: int,
    lo: int,
    hi: int,
    crest: int,
    k: int,
    again: bool,
    first: int,
) -> (next: int)
    requires
        round_of(e, a.len() as int, b.len() as int, lo, hi),
        midway(a, b, f, e, lo, crest, k, again, first),
        lo <= k <= hi,
        (k - e) % 2 == 0,
    ensures
        next == crest || (next == k && crest < k),
        entry(f, a.len() as int, lo, hi, k) - k > b.len() ==> midway(
            a,
            b,
            f,
            e,
            lo,
            next,
            k + 2,
            again,
            first,
        ),
        entry(f, a.len() as int, lo, hi, k) - k <= b.len() ==> {
            let g = advance(a, b, f, lo, hi, k);
            if reach_at(g, k) == a.len() && a.len() - k == b.len() {
                chain(a, b, trail_at(g, k), a.len() as int, b.len() as int)
            } else {
                midway(a, b, g, e, lo, next, k + 2, again, first)
            }
        },
{
    let n = a.len() as int;
    let m = b.len() as int;
    let g = advance(a, b, f, lo, hi, k);
    if entry(f, n, lo, hi, k) - k > m {
        lemma_skip(a, b, f, e, lo, hi, crest, k, again, first);
        crest
    } else {
        let next = crest_after(g, m, crest, k);
        lemma_visited(a, b, f, e, lo, hi, crest, k, again, first);
        if !(reach_at(g, k) == n && n - k == m) {
            lemma_visit_bounded(a, b, f, g, e, lo, hi, crest, k, again, first);
            lemma_visit_rows(a, b, f, g, e, lo, hi, crest, k, again, first);
            lemma_visit_steady(a, b, f, g, e, lo, hi, crest, k, again, first);
        }
        next
    }
}

/// What holds in a round holds at its end, unless it reaches the far corner;
/// and it does once its paths have taken `n + m` steps.
proof fn lemma_sweep(
    a: Seq<char>,
    b: Seq<char>,
    f: Frontier,
    e: int,
    lo: int,
    hi: int,
    crest: int,
    k: int,
    again: bool,
    first: int,
) -> (next: int)
    requires
        round_of(e, a.len() as int, b.len() as int, lo, hi),
        midway(a, b, f, e, lo, crest, k, again, first),
        lo <= k,
        (k - e) % 2 == 0,
        e <= a.len() + b.len(),
    ensures
        ({
            let (g, found) = sweep(a, b, f, lo, hi, k);
            match found {
                Some(end) => chain(a, b, trail_at(g, end), a.len() as int, b.len() as int),
                None => settled(a, b, g, e, lo, next) && e < a.len() + b.len(),
            }
        }),
    decreases hi + 2 - k,
{
    let n = a.len() as int;
    let m = b.len() as int;
    if k > hi {
        if e == n + m {
            assert(inside(e, n, m, n - m));
        }
        assert(settled(a, b, f, e, lo, crest));
        crest
    } else {
        let next = lemma_visit(a, b, f, e, lo, hi, crest, k, again, first);
        if entry(f, n, lo, hi, k) - k > m {
            lemma_sweep(a, b, f, e, lo, hi, next, k + 2, again, first)
        } else {
            let g = advance(a, b, f, lo, hi, k);
            if reach_at(g, k) == n && n - k == m {
                next
            } else {
                lemma_sweep(a, b, g, e, lo, hi, next, k + 2, again, first)
            }
        }
    }
}

/// A round that follows a settled one is settled too, or reaches the far corner.
proof fn lemma_next_round(a: Seq<char>, b: Seq<char>, f: Frontier, d: int, crest: int) -> (next:
    int)
    requires
        a.len() >= 1,
        b.len() >= 1,
        1 <= d,
        level(d - 1, b.len() as int) < a.len() + b.len(),
        settled(
            a,
            b,
            f,
            level(d - 1, b.len() as int),
            lower(d - 1, b.len() as int),
            crest,
        ),
    ensures
        ({
            let lo = lower(d, b.len() as int);
            let (g, found) = sweep(a, b, f, lo, upper(d, a.len() as int), lo);
            match found {
                Some(end) => chain(a, b, trail_at(g, end), a.len() as int, b.len() as int),
                None => {
                    &&& settled(a, b, g, level(d, b.len() as int), lo, next)
                    &&& level(d, b.len() as int) < a.len() + b.len()
                },
            }
        }),
{
    let n = a.len() as int;
    let m = b.len() as int;
    let e = level(d, m);
    let lo = lower(d, m);
    let hi = upper(d, n);
    lemma_round(d, n, m);
    let again = level(d - 1, m) == e;
    if again {
        assert(d == m + 1 && lower(d - 1, m) == lo);
    } else {
        assert(level(d - 1, m) == e - 1);
        assert(old_row(a, b, f, e - 1, crest)) by {
            assert forall|j: int| #[trigger] inside(e - 1, n, m, j) implies j + 2 <= crest || (crest
                == n - m && j + 1 <= crest) || good(a, b, f, e - 1, j) by {}
        }
    }
    assert(midway(a, b, f, e, lo, crest, lo, again, crest));
    lemma_sweep(a, b, f, e, lo, hi, crest, lo, again, crest)
}

/// The search ends within `n + m + 1` rounds, with a path of matching blocks.
proof fn lemma_search(a: Seq<char>, b: Seq<char>, f: Frontier, d: int, crest: int)
    requires
        a.len() >= 1,
        b.len() >= 1,
        1 <= d <= a.len() + b.len() + 1,
        level(d - 1, b.len() as int) < a.len() + b.len(),
        settled(
            a,
            b,
            f,
            level(d - 1, b.len() as int),
            lower(d - 1, b.len() as int),
            crest,
        ),
    ensures
        chain(a, b, search(a, b, f, d), a.len() as int, b.len() as int),
    decreases a.len() + b.len() + 1 - d,
{
    let next = lemma_next_round(a, b, f, d, crest);
    let lo = lower(d, b.len() as int);
    let (g, found) = sweep(a, b, f, lo, upper(d, a.len() as int), lo);
    if found is None {
        lemma_search(a, b, g, d + 1, next);
    }
}

pub proof fn lemma_origin(a: Seq<char>, b: Seq<char>) -> (crest: int)
    requires
        a.len() >= 1,
        b.len() >= 1,
    ensures
        settled(a, b, origin(a, b), 0, 0, crest),
{
    let n = a.len() as int;
    let m = b.len() as int;
    let f = origin(a, b);
    lemma_snake(a, b, 0, 0);
    let end = snake_end(a, b, 0, 0);
    let crest = if end == m {
        0
    } else {
        -m - 1
    };
    assert forall|j: int| j != 0 implies #[trigger] reach_at(f, j) == -1 by {}
    assert(reach_at(f, 0) == end);
    assert(chain(a, b, trail_at(f, 0), end, end)) by {
        if end > 0 {
            let t = trail_at(f, 0);
            assert(t.drop_last() =~= Seq::<Block>::empty());
            assert(chain(a, b, Seq::<Block>::empty(), 0, 0));
        }
    }
    lemma_chain_widen(a, b, trail_at(f, 0), end, end, n, m);
    assert(good(a, b, f, 0, 0));
    assert(new_row(a, b, f, 0, crest, n + 1)) by {
        assert forall|j: int| #[trigger] inside(0, n, m, j) && j < n + 1 implies j < crest || good(
            a,
            b,
            f,
            0,
            j,
        ) by {
            assert(j == 0);
        }
    }
    crest
}

/// What the search leaves unchanged is the same text on both sides, and no two
/// of its changes touch.
pub proof fn lemma_myers_aligned(a: Seq<char>, b: Seq<char>)
    ensures
        aligned(a, b, myers_edits(a, b), a.len() as int, b.len() as int),
        spaced(myers_edits(a, b)),
{
    let n = a.len() as int;
    let m = b.len() as int;
    if n == 0 || m == 0 {
        let none = Seq::<Edit>::empty();
        lemma_aligned_none(a, b);
        lemma_aligned_push(a, b, none, 0, 0, n, m);
        assert(none.push(whole(a, b)) =~= seq![whole(a, b)]);
    } else {
        let crest = lemma_origin(a, b);
        lemma_search(a, b, origin(a, b), 1, crest);
        lemma_edits_between(a, b, search(a, b, origin(a, b), 1), n, m);
    }
}

/// A block of a path, with the path before it.
struct Node {
    /// One more than the index of the node before; 0 at the start.
    prev: usize,
    x: i64,
    y: i64,
    len: i64,
}

/// The blocks of the path that ends with node `at - 1`.
spec fn path_of(nodes: Seq<Node>, at: int) -> Seq<Block>
    decreases at,
{
    if at <= 0 || at > nodes.len() || nodes[at - 1].prev >= at {
        Seq::empty()
    } else {
        let node = nodes[at - 1];
        path_of(nodes, node.prev as int).push(
            Block { a: node.x as int, b: node.y as int, len: node.len as int },
        )
    }
}

proof fn lemma_path_push(nodes: Seq<Node>, node: Node, at: int)
    requires
        at <= nodes.len(),
    ensures
        path_of(nodes.push(node), at) == path_of(nodes, at),
    decreases at,
{
    if !(at <= 0 || at > nodes.len() || nodes[at - 1].prev >= at) {
        lemma_path_push(nodes, node, nodes[at - 1].prev as int);
    }
}

/// The frontier as it is kept: one slot per diagonal, the paths sharing nodes.
struct Table {
    reach: Vec<i64>,
    trail: Vec<usize>,
    nodes: Vec<Node>,
}

impl Table {
    spec fn holds(self, f: Frontier, n: int, m: int) -> bool {
        &&& self.reach@.len() == n + m + 3
        &&& self.trail@.len() == n + m + 3
        &&& forall|i: int| 0 <= i < self.nodes@.len() ==> (#[trigger] self.nodes@[i]).prev <= i
        &&& forall|i: int|
            0 <= i < n + m + 3 ==> #[trigger] self.reach@[i] == reach_at(f, i - m - 1)
        &&& forall|i: int|
            0 <= i < n + m + 3 ==> {
                &&& #[trigger] self.trail@[i] <= self.nodes@.len()
                &&& path_of(self.nodes@, self.trail@[i] as int) == trail_at(f, i - m - 1)
            }
    }
}

/// A slot for each diagonal that the search looks at can be counted.
pub open spec fn slots_fit(n: int, m: int) -> bool {
    n + m + 3 <= usize::MAX
}

fn get_x_after_snake(seq1: &CharSeq, seq2: &CharSeq, x: i64, y: i64) -> (end: i64)
    requires
        seq1@.len() <= MAX_ELEMENTS,
        seq2@.len() <= MAX_ELEMENTS,
        x <= seq1@.len(),
        y <= seq2@.len(),
    ensures
        end == snake_end(seq1@.chars, seq2@.chars, x as int, y as int),
{
    let n: i64 = seq1.length();
    let m: i64 = seq2.length();
    let mut i: i64 = x;
    let mut j: i64 = y;
    while i < n && j < m && seq1.element(i) == seq2.element(j)
        invariant
            i <= n == seq1@.len() <= MAX_ELEMENTS,
            j <= m == seq2@.len() <= MAX_ELEMENTS,
            snake_end(seq1@.chars, seq2@.chars, x as int, y as int) == snake_end(
                seq1@.chars,
                seq2@.chars,
                i as int,
                j as int,
            ),
        decreases n - i,
    {
        i = i + 1;
        j = j + 1;
    }
    i
}

/// Visits diagonal `k`, unless it would be entered below the last row.
fn visit(
    seq1: &CharSeq,
    seq2: &CharSeq,
    table: &mut Table,
    Ghost(f): Ghost<Frontier>,
    lo: i64,
    hi: i64,
    k: i64,
) -> (entered: bool)
    requires
        seq1@.len() <= MAX_ELEMENTS,
        seq2@.len() <= MAX_ELEMENTS,
        slots_fit(seq1@.len(), seq2@.len()),
        old(table).holds(f, seq1@.len(), seq2@.len()),
        -seq2@.len() - 1 <= lo <= k <= hi <= seq1@.len() + 1,
        lo < hi,
        forall|j: int| -1 <= #[trigger] reach_at(f, j) <= seq1@.len(),
    ensures
        entered == (entry(f, seq1@.len(), lo as int, hi as int, k as int) - k <= seq2@.len()),
        entered ==> final(table).holds(
            advance(seq1@.chars, seq2@.chars, f, lo as int, hi as int, k as int),
            seq1@.len(),
            seq2@.len(),
        ),
        !entered ==> *final(table) == *old(table),
{
    let n: i64 = seq1.length();
    let m: i64 = seq2.length();
    let slot: usize = (k + m + 1) as usize;
    assert(-1 <= reach_at(f, k + 1) <= n);
    assert(-1 <= reach_at(f, k - 1) <= n);
    let top: i64 = if k == hi {
        -1
    } else {
        table.reach[slot + 1]
    };
    let left: i64 = if k == lo {
        -1
    } else {
        table.reach[slot - 1] + 1
    };
    let far: i64 = if top >= left {
        top
    } else {
        left
    };
    let x: i64 = if far <= n {
        far
    } else {
        n
    };
    let y: i64 = x - k;
    if y > m {
        return false;
    }
    let end: i64 = get_x_after_snake(seq1, seq2, x, y);
    proof {
        lemma_snake(seq1@.chars, seq2@.chars, x as int, y as int);
    }
    let trail: usize = if x == top {
        table.trail[slot + 1]
    } else {
        table.trail[slot - 1]
    };
    let ghost nodes = table.nodes@;
    let ghost way = if x == top {
        trail_at(f, k + 1)
    } else {
        trail_at(f, k - 1)
    };
    assert(path_of(nodes, trail as int) == way);
    let longer: usize = if end != x {
        table.nodes.push(Node { prev: trail, x, y, len: end - x });
        table.nodes.len()
    } else {
        trail
    };
    proof {
        if end != x {
            assert forall|at: int| at <= nodes.len() implies #[trigger] path_of(table.nodes@, at)
                == path_of(nodes, at) by {
                lemma_path_push(nodes, table.nodes@.last(), at);
            }
            assert(path_of(table.nodes@, trail as int) == way);
            assert(path_of(table.nodes@, longer as int) == way.push(
                Block { a: x as int, b: y as int, len: end - x },
            ));
        }
    }
    table.reach.set(slot, end);
    table.trail.set(slot, longer);
    proof {
        let g = advance(seq1@.chars, seq2@.chars, f, lo as int, hi as int, k as int);
        assert(path_of(table.nodes@, longer as int) == trail_at(g, k as int));
        assert forall|i: int| 0 <= i < n + m + 3 implies #[trigger] table.reach@[i] == reach_at(
            g,
            i - m - 1,
        ) by {
            assert(i != slot ==> table.reach@[i] == old(table).reach@[i]);
        }
        assert forall|i: int| 0 <= i < n + m + 3 implies #[trigger] table.trail@[i]
            <= table.nodes@.len() && path_of(table.nodes@, table.trail@[i] as int) == trail_at(
            g,
            i - m - 1,
        ) by {
            assert(i != slot ==> table.trail@[i] == old(table).trail@[i]);
        }
    }
    true
}

/// Every reach is `-1` or an offset of the first sequence.
spec fn in_reach(f: Frontier, n: int) -> bool {
    forall|j: int| -1 <= #[trigger] reach_at(f, j) <= n
}

/// Round `d` of the search.
fn run_round(
    seq1: &CharSeq,
    seq2: &CharSeq,
    table: &mut Table,
    Ghost(f): Ghost<Frontier>,
    d: i64,
) -> (found: Option<i64>)
    requires
        1 <= seq1@.len(),
        1 <= seq2@.len(),
        seq1@.len() <= MAX_ELEMENTS,
        seq2@.len() <= MAX_ELEMENTS,
        slots_fit(seq1@.len(), seq2@.len()),
        1 <= d <= seq1@.len() + seq2@.len() + 1,
        old(table).holds(f, seq1@.len(), seq2@.len()),
        in_reach(f, seq1@.len()),
    ensures
        ({
            let lo = lower(d as int, seq2@.len());
            let hi = upper(d as int, seq1@.len());
            let (g, end) = sweep(seq1@.chars, seq2@.chars, f, lo, hi, lo);
            &&& final(table).holds(g, seq1@.len(), seq2@.len())
            &&& in_reach(g, seq1@.len())
            &&& match found {
                Some(k) => end == Some(k as int) && -seq2@.len() <= k <= seq1@.len(),
                None => end is None,
            }
        }),
{
    let n: i64 = seq1.length();
    let m: i64 = seq2.length();
    let ghost a = seq1@.chars;
    let ghost b = seq2@.chars;
    let odd: i64 = d % 2;
    let lo: i64 = if d <= m + odd {
        -d
    } else {
        -(m + odd)
    };
    let hi: i64 = if d <= n + odd {
        d
    } else {
        n + odd
    };
    let ghost all = sweep(a, b, f, lo as int, hi as int, lo as int);
    let ghost mut now = f;
    let mut k: i64 = lo;
    while k <= hi
        invariant
            a == seq1@.chars,
            b == seq2@.chars,
            1 <= n == seq1@.len(),
            1 <= m == seq2@.len(),
            n <= MAX_ELEMENTS,
            m <= MAX_ELEMENTS,
            slots_fit(n as int, m as int),
            lo == lower(d as int, m as int),
            hi == upper(d as int, n as int),
            d >= 1,
            lo <= k <= hi + 2,
            table.holds(now, n as int, m as int),
            in_reach(now, n as int),
            all == sweep(a, b, f, lo as int, hi as int, lo as int),
            sweep(a, b, now, lo as int, hi as int, k as int) == all,
        decreases hi + 2 - k,
    {
        let entered: bool = visit(seq1, seq2, table, Ghost(now), lo, hi, k);
        if entered {
            proof {
                let x = entry(now, n as int, lo as int, hi as int, k as int);
                assert(-1 <= reach_at(now, k + 1) <= n);
                assert(-1 <= reach_at(now, k - 1) <= n);
                lemma_snake(a, b, x, x - k);
                let g = advance(a, b, now, lo as int, hi as int, k as int);
                assert forall|j: int| -1 <= #[trigger] reach_at(g, j) <= n by {
                    assert(j != k ==> reach_at(g, j) == reach_at(now, j));
                }
                assert(reach_at(g, k as int) == n && n - k == m ==> all == (g, Some(k as int)));
                now = g;
            }
            let slot: usize = (k + m + 1) as usize;
            assert(table.reach@[slot as int] == reach_at(now, k as int));
            if table.reach[slot] == n && n - k == m {
                return Some(k);
            }
        }
        k = k + 2;
    }
    None
}

/// Greedy search for a shortest path from one corner to the other: no more
/// elements change than with the table, and as many with the sides exchanged.
pub fn myers_diff(seq1: &CharSeq, seq2: &CharSeq) -> (result: Vec<SequenceDiff>)
    requires
        seq1@.len() <= MAX_ELEMENTS,
        seq2@.len() <= MAX_ELEMENTS,
        seq1@.len() == 0 || seq2@.len() == 0 || slots_fit(seq1@.len(), seq2@.len()),
    ensures
        edits(result@) == myers_edits(seq1@.chars, seq2@.chars),
        changed(edits(result@)) <= changed(dp_edits(seq1@.chars, seq2@.chars)),
        changed(edits(result@)) == changed(myers_edits(seq2@.chars, seq1@.chars)),
{
    let ghost a = seq1@.chars;
    let ghost b = seq2@.chars;
    let n: i64 = seq1.length();
    let m: i64 = seq2.length();
    let mut result: Vec<SequenceDiff> = Vec::new();
    proof {
        lemma_searches_compared(a, b);
    }
    if n == 0 || m == 0 {
        result.push(trivial_diff(seq1, seq2));
        assert(edits(result@) =~= seq![whole(a, b)]);
        return result;
    }
    let x0: i64 = get_x_after_snake(seq1, seq2, 0, 0);
    proof {
        lemma_snake(a, b, 0, 0);
    }
    let slots: usize = (n + m + 3) as usize;
    let start: usize = (m + 1) as usize;
    let mut reach: Vec<i64> = Vec::new();
    let mut trail: Vec<usize> = Vec::new();
    let mut nodes: Vec<Node> = Vec::new();
    let mut i: usize = 0;
    if x0 != 0 {
        nodes.push(Node { prev: 0, x: 0, y: 0, len: x0 });
    }
    while i < slots
        invariant
            i <= slots,
            reach@.len() == i,
            trail@.len() == i,
            start == m + 1,
            forall|s: int|
                0 <= s < i ==> #[trigger] reach@[s] == (if s == start {
                    x0 as int
                } else {
                    -1
                }),
            forall|s: int|
                0 <= s < i ==> #[trigger] trail@[s] == (if s == start && x0 != 0 {
                    1usize
                } else {
                    0usize
                }),
        decreases slots - i,
    {
        reach.push(
            if i == start {
                x0
            } else {
                -1
            },
        );
        trail.push(
            if i == start && x0 != 0 {
                1
            } else {
                0
            },
        );
        i = i + 1;
    }
    let mut table: Table = Table { reach, trail, nodes };
    let ghost mut f = origin(a, b);
    let ghost mut crest = 0int;
    proof {
        crest = lemma_origin(a, b);
        assert(path_of(table.nodes@, 0) =~= Seq::<Block>::empty());
        if x0 != 0 {
            assert(path_of(table.nodes@, 1) =~= seq![Block { a: 0, b: 0, len: x0 as int }]);
        }
        assert forall|s: int| 0 <= s < n + m + 3 implies #[trigger] table.reach@[s] == reach_at(
            f,
            s - m - 1,
        ) by {}
        assert forall|s: int| 0 <= s < n + m + 3 implies #[trigger] table.trail@[s]
            <= table.nodes@.len() && path_of(table.nodes@, table.trail@[s] as int) == trail_at(
            f,
            s - m - 1,
        ) by {}
        assert(table.holds(f, n as int, m as int));
    }
    let ghost blocks = search(a, b, f, 1);
    let mut d: i64 = 1;
    let mut found: Option<i64> = run_round(seq1, seq2, &mut table, Ghost(f), d);
    proof {
        crest = lemma_next_round(a, b, f, 1, crest);
        f = sweep(a, b, f, lower(1, m as int), upper(1, n as int), lower(1, m as int)).0;
    }
    while found.is_none()
        invariant
            a == seq1@.chars,
            b == seq2@.chars,
            1 <= n == seq1@.len(),
            1 <= m == seq2@.len(),
            n <= MAX_ELEMENTS,
            m <= MAX_ELEMENTS,
            slots_fit(n as int, m as int),
            1 <= d <= n + m + 1,
            table.holds(f, n as int, m as int),
            in_reach(f, n as int),
            match found {
                Some(k) => blocks == trail_at(f, k as int) && -m <= k <= n,
                None => {
                    &&& settled(
                        a,
                        b,
                        f,
                        level(d as int, m as int),
                        lower(d as int, m as int),
                        crest,
                    )
                    &&& level(d as int, m as int) < n + m
                    &&& blocks == search(a, b, f, d + 1)
                },
            },
        decreases n + m + 1 - d,
    {
        d = d + 1;
        found = run_round(seq1, seq2, &mut table, Ghost(f), d);
        proof {
            crest = lemma_next_round(a, b, f, d as int, crest);
            let lo = lower(d as int, m as int);
            f = sweep(a, b, f, lo, upper(d as int, n as int), lo).0;
        }
    }
    let k: i64 = match found {
        Some(k) => k,
        None => 0,
    };
    let mut at: usize = table.trail[(k + m + 1) as usize];
    assert(path_of(table.nodes@, at as int) == blocks);
    let mut last1: i64 = n;
    let mut last2: i64 = m;
    let ghost all = edits_between(blocks, n as int, m as int);
    proof {
        let crest = lemma_origin(a, b);
        lemma_search(a, b, origin(a, b), 1, crest);
        assert(edits(result@).reverse() =~= Seq::empty());
        assert(all + edits(result@).reverse() =~= all);
    }
    while at != 0
        invariant
            at <= table.nodes@.len(),
            forall|i: int| 0 <= i < table.nodes@.len() ==> (#[trigger] table.nodes@[i]).prev <= i,
            chain(a, b, path_of(table.nodes@, at as int), last1 as int, last2 as int),
            edits_between(path_of(table.nodes@, at as int), last1 as int, last2 as int) + edits(
                result@,
            ).reverse() == all,
        decreases at,
    {
        let ghost before = edits(result@);
        let ghost path = path_of(table.nodes@, at as int);
        let node: &Node = &table.nodes[at - 1];
        assert(path.drop_last() =~= path_of(table.nodes@, node.prev as int));
        report(&mut result, node.x + node.len, node.y + node.len, last1, last2);
        last1 = node.x;
        last2 = node.y;
        at = node.prev;
        assert(edits_between(path_of(table.nodes@, at as int), last1 as int, last2 as int) + edits(
            result@,
        ).reverse() =~= all);
    }
    report(&mut result, 0, 0, last1, last2);
    assert(edits(result@).reverse() =~= all);
    reversed(&result)
}

} // verus!
