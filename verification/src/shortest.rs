//! The greedy search finds the fewest insertions and deletions.
//!
//! A path from the start to a point goes along matching blocks and takes one
//! step for every element that is in none of them. After a round of level `e`
//! the frontier lies, on every diagonal that still matters, at least as far as
//! any path of `e` steps gets, and its own paths take no more steps than that.

use vstd::prelude::*;

use crate::chars::element;
use crate::dp::{dp_edits, lemma_dp_aligned, whole};
use crate::matching::{
    aligned, chain, edits_between, equal_run, lemma_aligned_at, lemma_aligned_take,
    lemma_chain_widen, lemma_gap_run, same, Block,
};
use crate::myers::{
    advance, bounded, entry, from_left, from_top, inside, lemma_advance_good, lemma_myers_aligned,
    lemma_origin, lemma_round, lemma_skip, lemma_snake, lemma_visit, lemma_visited, level, lower,
    midway, myers_edits, old_row, origin, reach_at, round_of, search, settled, snake_end, sweep,
    trail_at, upper, Frontier,
};
use crate::ranges::{gap, Edit};

verus! {

/// How many elements the blocks match.
pub open spec fn matched(blocks: Seq<Block>) -> int
    decreases blocks.len(),
{
    if blocks.len() == 0 {
        0
    } else {
        matched(blocks.drop_last()) + blocks.last().len
    }
}

/// How many elements the changes insert and delete.
pub open spec fn changed(es: Seq<Edit>) -> int
    decreases es.len(),
{
    if es.len() == 0 {
        0
    } else {
        changed(es.drop_last()) + es.last().a.len() + es.last().b.len()
    }
}

/// How many steps the path along the blocks to `(x, y)` takes.
spec fn steps(blocks: Seq<Block>, x: int, y: int) -> int {
    x + y - 2 * matched(blocks)
}

/// Blocks match no more than there is on either side.
proof fn lemma_matched(a: Seq<char>, b: Seq<char>, blocks: Seq<Block>, x: int, y: int)
    requires
        chain(a, b, blocks, x, y),
    ensures
        0 <= matched(blocks) <= x,
        matched(blocks) <= y,
    decreases blocks.len(),
{
    if blocks.len() > 0 {
        lemma_matched(a, b, blocks.drop_last(), blocks.last().a, blocks.last().b);
    }
}

/// The path along the blocks reaches `(x, x - k)` in the grid in `e` steps.
spec fn arrives(a: Seq<char>, b: Seq<char>, blocks: Seq<Block>, e: int, k: int, x: int) -> bool {
    &&& x <= a.len()
    &&& x - k <= b.len()
    &&& chain(a, b, blocks, x, x - k)
    &&& steps(blocks, x, x - k) <= e
}

/// No path of `e` steps gets further on diagonal `k` than `end`.
spec fn furthest(a: Seq<char>, b: Seq<char>, e: int, k: int, end: int) -> bool {
    forall|blocks: Seq<Block>, x: int| #[trigger] arrives(a, b, blocks, e, k, x) ==> x <= end
}

/// The frontier is as far as any path of `e` steps, on the diagonals from the
/// crest to `top` that such a path reaches.
spec fn far_enough(a: Seq<char>, b: Seq<char>, f: Frontier, e: int, crest: int, top: int) -> bool {
    forall|j: int|
        crest <= j < top && #[trigger] inside(e, a.len() as int, b.len() as int, j) ==> furthest(
            a,
            b,
            e,
            j,
            reach_at(f, j),
        )
}

/// The paths of the frontier take at most `e` steps, or `e - 1` on the diagonals
/// of the round before.
spec fn thrifty(f: Frontier, e: int) -> bool {
    &&& forall|j: int| matched(#[trigger] trail_at(f, j)) >= 0
    &&& forall|j: int|
        -e <= j ==> steps(trail_at(f, j), #[trigger] reach_at(f, j), reach_at(f, j) - j) <= (if (j
            - e) % 2 == 0 {
            e
        } else {
            e - 1
        })
}

/// A path that takes at most `e` steps arrives on a diagonal inside the grid.
proof fn lemma_arrives_inside(
    a: Seq<char>,
    b: Seq<char>,
    blocks: Seq<Block>,
    e: int,
    k: int,
    x: int,
)
    requires
        arrives(a, b, blocks, e, k, x),
        (k - e) % 2 == 0,
    ensures
        inside(e, a.len() as int, b.len() as int, k),
        0 <= x,
        0 <= x - k,
{
    lemma_matched(a, b, blocks, x, x - k);
}

/// A path that does not end with a match came from a neighbouring diagonal.
proof fn lemma_last_step(
    a: Seq<char>,
    b: Seq<char>,
    blocks: Seq<Block>,
    e: int,
    k: int,
    x: int,
)
    requires
        arrives(a, b, blocks, e, k, x),
        x > 0 || x - k > 0,
        blocks.len() > 0 ==> blocks.last().a + blocks.last().len < x || blocks.last().b
            + blocks.last().len < x - k,
    ensures
        arrives(a, b, blocks, e - 1, k - 1, x - 1) || arrives(a, b, blocks, e - 1, k + 1, x),
{
    lemma_matched(a, b, blocks, x, x - k);
    if blocks.len() == 0 {
        if x > 0 {
            assert(arrives(a, b, blocks, e - 1, k - 1, x - 1));
        } else {
            assert(arrives(a, b, blocks, e - 1, k + 1, x));
        }
    } else if blocks.last().a + blocks.last().len < x {
        assert(arrives(a, b, blocks, e - 1, k - 1, x - 1));
    } else {
        assert(arrives(a, b, blocks, e - 1, k + 1, x));
    }
}

/// A path that ends with a match takes as many steps without it.
proof fn lemma_last_match(
    a: Seq<char>,
    b: Seq<char>,
    blocks: Seq<Block>,
    e: int,
    k: int,
    x: int,
) -> (shorter: Seq<Block>)
    requires
        arrives(a, b, blocks, e, k, x),
        blocks.len() > 0,
        blocks.last().a + blocks.last().len == x,
        blocks.last().b + blocks.last().len == x - k,
    ensures
        arrives(a, b, shorter, e, k, x - 1),
        0 < x,
        0 < x - k,
        element(a, x - 1) == element(b, x - k - 1),
{
    let last = blocks.last();
    let head = blocks.drop_last();
    lemma_matched(a, b, head, last.a, last.b);
    assert(a[x - 1] == b[x - 1 - last.a + last.b]);
    if last.len == 1 {
        assert(arrives(a, b, head, e, k, x - 1));
        head
    } else {
        let shorter = head.push(Block { a: last.a, b: last.b, len: last.len - 1 });
        assert(shorter.drop_last() =~= head);
        assert(same(a, last.a, b, last.b, last.len - 1));
        assert(matched(shorter) == matched(blocks) - 1);
        assert(arrives(a, b, shorter, e, k, x - 1));
        shorter
    }
}

proof fn lemma_snake_stops(a: Seq<char>, b: Seq<char>, x: int, y: int)
    requires
        x <= a.len(),
        y <= b.len(),
    ensures
        ({
            let end = snake_end(a, b, x, y);
            let other = end - x + y;
            end >= a.len() || other >= b.len() || element(a, end) != element(b, other)
        }),
    decreases a.len() - x,
{
    if x < a.len() && y < b.len() && element(a, x) == element(b, y) {
        lemma_snake_stops(a, b, x + 1, y + 1);
    }
}

/// A diagonal that is entered as far as its neighbours allow, and followed along
/// its matches, is as far as any path gets.
proof fn lemma_arrives_upto(
    a: Seq<char>,
    b: Seq<char>,
    e: int,
    k: int,
    enter: int,
    blocks: Seq<Block>,
    x: int,
)
    requires
        enter <= a.len(),
        enter - k <= b.len(),
        0 <= enter,
        0 <= enter - k,
        forall|path: Seq<Block>, z: int| #[trigger]
            arrives(a, b, path, e - 1, k - 1, z) ==> z + 1 <= enter || z + 1 > a.len(),
        forall|path: Seq<Block>, z: int| #[trigger]
            arrives(a, b, path, e - 1, k + 1, z) ==> z <= enter,
        arrives(a, b, blocks, e, k, x),
    ensures
        x <= snake_end(a, b, enter, enter - k),
    decreases x,
{
    let end = snake_end(a, b, enter, enter - k);
    lemma_snake(a, b, enter, enter - k);
    lemma_matched(a, b, blocks, x, x - k);
    if x > enter {
        if blocks.len() > 0 && blocks.last().a + blocks.last().len == x && blocks.last().b
            + blocks.last().len == x - k {
            let shorter = lemma_last_match(a, b, blocks, e, k, x);
            lemma_arrives_upto(a, b, e, k, enter, shorter, x - 1);
            lemma_snake_stops(a, b, enter, enter - k);
        } else {
            lemma_last_step(a, b, blocks, e, k, x);
        }
    }
}

/// A diagonal that still matters is as far as any path gets once it has been
/// visited.
proof fn lemma_visit_far(
    a: Seq<char>,
    b: Seq<char>,
    f: Frontier,
    e: int,
    lo: int,
    hi: int,
    crest: int,
    k: int,
)
    requires
        round_of(e, a.len() as int, b.len() as int, lo, hi),
        bounded(a, b, f, e, crest),
        old_row(a, b, f, e - 1, crest),
        crest != a.len() - b.len(),
        far_enough(a, b, f, e - 1, crest, a.len() as int + 1),
        crest < k,
        inside(e, a.len() as int, b.len() as int, k),
    ensures
        furthest(a, b, e, k, reach_at(advance(a, b, f, lo, hi, k), k)),
{
    let n = a.len() as int;
    let m = b.len() as int;
    let enter = entry(f, n, lo, hi, k);
    lemma_advance_good(a, b, f, e, lo, hi, crest, k);
    assert(-1 <= reach_at(f, k + 1) <= n);
    assert(-1 <= reach_at(f, k - 1) <= n);
    assert forall|path: Seq<Block>, z: int| #[trigger]
        arrives(a, b, path, e - 1, k - 1, z) implies z + 1 <= enter || z + 1 > n by {
        lemma_arrives_inside(a, b, path, e - 1, k - 1, z);
        assert(furthest(a, b, e - 1, k - 1, reach_at(f, k - 1)));
        assert(k != lo);
        assert(from_left(f, lo, k) >= z + 1);
    }
    assert forall|path: Seq<Block>, z: int| #[trigger]
        arrives(a, b, path, e - 1, k + 1, z) implies z <= enter by {
        lemma_arrives_inside(a, b, path, e - 1, k + 1, z);
        assert(furthest(a, b, e - 1, k + 1, reach_at(f, k + 1)));
        assert(k != hi);
        assert(from_top(f, hi, k) >= z);
    }
    assert forall|blocks: Seq<Block>, x: int| #[trigger] arrives(a, b, blocks, e, k, x) implies x
        <= reach_at(advance(a, b, f, lo, hi, k), k) by {
        lemma_arrives_upto(a, b, e, k, enter, blocks, x);
    }
}

/// A visit takes one step more than the diagonal it comes from.
proof fn lemma_visit_thrifty(
    a: Seq<char>,
    b: Seq<char>,
    f: Frontier,
    e: int,
    lo: int,
    hi: int,
    crest: int,
    k: int,
)
    requires
        round_of(e, a.len() as int, b.len() as int, lo, hi),
        bounded(a, b, f, e, crest),
        thrifty(f, e),
        lo <= k <= hi,
        (k - e) % 2 == 0,
        entry(f, a.len() as int, lo, hi, k) - k <= b.len(),
    ensures
        thrifty(advance(a, b, f, lo, hi, k), e),
{
    let n = a.len() as int;
    let x = entry(f, n, lo, hi, k);
    let g = advance(a, b, f, lo, hi, k);
    let end = snake_end(a, b, x, x - k);
    assert(-1 <= reach_at(f, k + 1) <= n);
    assert(-1 <= reach_at(f, k - 1) <= n);
    lemma_snake(a, b, x, x - k);
    let trail = if x == from_top(f, hi, k) {
        trail_at(f, k + 1)
    } else {
        trail_at(f, k - 1)
    };
    assert(matched(trail) >= 0);
    assert(steps(trail, x, x - k) <= e) by {
        if x == from_top(f, hi, k) {
            if k != hi {
                assert(steps(trail_at(f, k + 1), reach_at(f, k + 1), reach_at(f, k + 1) - (k + 1))
                    <= e - 1);
            }
        } else {
            assert(steps(trail_at(f, k - 1), reach_at(f, k - 1), reach_at(f, k - 1) - (k - 1)) <= e
                - 1);
        }
    }
    let longer = trail.push(Block { a: x, b: x - k, len: end - x });
    assert(longer.drop_last() =~= trail);
    assert(matched(trail_at(g, k)) == matched(trail) + end - x);
    assert forall|j: int| matched(#[trigger] trail_at(g, j)) >= 0 by {
        if j != k {
            assert(trail_at(g, j) == trail_at(f, j));
        }
    }
    assert forall|j: int| -e <= j implies steps(
        trail_at(g, j),
        #[trigger] reach_at(g, j),
        reach_at(g, j) - j,
    ) <= (if (j - e) % 2 == 0 {
        e
    } else {
        e - 1
    }) by {
        if j != k {
            assert(trail_at(g, j) == trail_at(f, j));
            assert(reach_at(g, j) == reach_at(f, j));
        }
    }
}

/// What holds of a frontier in a round of level `e`, of which the diagonals
/// below `top` have been visited.
spec fn best_so_far(
    a: Seq<char>,
    b: Seq<char>,
    f: Frontier,
    e: int,
    crest: int,
    top: int,
) -> bool {
    &&& crest != a.len() - b.len()
    &&& thrifty(f, e)
    &&& far_enough(a, b, f, e - 1, crest, a.len() as int + 1)
    &&& far_enough(a, b, f, e, crest, top)
}

/// Visiting a diagonal keeps the frontier as far as it has to be.
proof fn lemma_visit_best(
    a: Seq<char>,
    b: Seq<char>,
    f: Frontier,
    e: int,
    lo: int,
    hi: int,
    crest: int,
    next: int,
    k: int,
    again: bool,
    first: int,
)
    requires
        round_of(e, a.len() as int, b.len() as int, lo, hi),
        midway(a, b, f, e, lo, crest, k, again, first),
        lo <= k <= hi,
        (k - e) % 2 == 0,
        entry(f, a.len() as int, lo, hi, k) - k <= b.len(),
        next == crest || (next == k && crest < k),
        next != a.len() - b.len(),
        best_so_far(
            a,
            b,
            f,
            e,
            crest,
            if again {
                a.len() as int + 1
            } else {
                k
            },
        ),
    ensures
        best_so_far(
            a,
            b,
            advance(a, b, f, lo, hi, k),
            e,
            next,
            if again {
                a.len() as int + 1
            } else {
                k + 2
            },
        ),
{
    let n = a.len() as int;
    let m = b.len() as int;
    let g = advance(a, b, f, lo, hi, k);
    lemma_visit_thrifty(a, b, f, e, lo, hi, crest, k);
    lemma_visited(a, b, f, e, lo, hi, crest, k, again, first);
    assert forall|j: int| next <= j < n + 1 && #[trigger] inside(e - 1, n, m, j) implies furthest(
        a,
        b,
        e - 1,
        j,
        reach_at(g, j),
    ) by {
        assert(j != k);
        assert(reach_at(g, j) == reach_at(f, j));
        assert(furthest(a, b, e - 1, j, reach_at(f, j)));
    }
    assert forall|j: int|
        next <= j < (if again {
            n + 1
        } else {
            k + 2
        }) && #[trigger] inside(e, n, m, j) implies furthest(a, b, e, j, reach_at(g, j)) by {
        if j == k {
            if crest < k {
                lemma_visit_far(a, b, f, e, lo, hi, crest, k);
            } else {
                assert(reach_at(g, k) == m + k);
            }
        } else {
            assert(reach_at(g, j) == reach_at(f, j));
            assert(furthest(a, b, e, j, reach_at(f, j)));
        }
    }
}

/// A round leaves the frontier as far as it has to be, or finds a path of at
/// most as many steps as its level.
proof fn lemma_sweep_best(
    a: Seq<char>,
    b: Seq<char>,
    f: Frontier,
    e: int,
    lo: int,
    hi: int,
    crest: int,
    k: int,
    again: bool,
    first: int,
) -> (next: int)
    requires
        round_of(e, a.len() as int, b.len() as int, lo, hi),
        midway(a, b, f, e, lo, crest, k, again, first),
        lo <= k,
        (k - e) % 2 == 0,
        e <= a.len() + b.len(),
        first != a.len() - b.len(),
        best_so_far(
            a,
            b,
            f,
            e,
            crest,
            if again {
                a.len() as int + 1
            } else {
                k
            },
        ),
    ensures
        ({
            let n = a.len() as int;
            let m = b.len() as int;
            let (g, found) = sweep(a, b, f, lo, hi, k);
            match found {
                Some(end) => chain(a, b, trail_at(g, end), n, m) && steps(trail_at(g, end), n, m)
                    <= e,
                None => {
                    &&& settled(a, b, g, e, lo, next)
                    &&& e < n + m
                    &&& best_so_far(a, b, g, e, next, n + 1)
                    &&& (n - m - e) % 2 == 0 ==> reach_at(g, n - m) != n
                },
            }
        }),
    decreases hi + 2 - k,
{
    let n = a.len() as int;
    let m = b.len() as int;
    if k > hi {
        if e == n + m {
            assert(inside(e, n, m, n - m));
        }
        assert(settled(a, b, f, e, lo, crest));
        assert(far_enough(a, b, f, e, crest, n + 1)) by {
            assert forall|j: int|
                crest <= j < n + 1 && #[trigger] inside(e, n, m, j) implies furthest(
                a,
                b,
                e,
                j,
                reach_at(f, j),
            ) by {
                assert(j < k);
            }
        }
        if n - m >= k {
            assert(reach_at(f, n - m) == -1);
        }
        crest
    } else {
        let next = lemma_visit(a, b, f, e, lo, hi, crest, k, again, first);
        if entry(f, n, lo, hi, k) - k > m {
            lemma_skip(a, b, f, e, lo, hi, crest, k, again, first);
            assert(next == crest);
            assert(far_enough(
                a,
                b,
                f,
                e,
                crest,
                if again {
                    n + 1
                } else {
                    k + 2
                },
            ));
            lemma_sweep_best(a, b, f, e, lo, hi, next, k + 2, again, first)
        } else {
            let g = advance(a, b, f, lo, hi, k);
            if reach_at(g, k) == n && n - k == m {
                lemma_visit_thrifty(a, b, f, e, lo, hi, crest, k);
                assert(steps(trail_at(g, k), reach_at(g, k), reach_at(g, k) - k) <= e);
                next
            } else {
                lemma_visit_best(a, b, f, e, lo, hi, crest, next, k, again, first);
                lemma_sweep_best(a, b, g, e, lo, hi, next, k + 2, again, first)
            }
        }
    }
}

/// Every path to the far corner takes more than `e` steps.
spec fn out_of_reach(a: Seq<char>, b: Seq<char>, e: int) -> bool {
    forall|blocks: Seq<Block>| #[trigger]
        chain(a, b, blocks, a.len() as int, b.len() as int) ==> steps(
            blocks,
            a.len() as int,
            b.len() as int,
        ) > e
}

/// A frontier that has not reached the far corner shows that no path of as many
/// steps does.
proof fn lemma_out_of_reach(a: Seq<char>, b: Seq<char>, f: Frontier, e: int, crest: int)
    requires
        bounded(a, b, f, e, crest),
        far_enough(a, b, f, e, crest, a.len() as int + 1),
        out_of_reach(a, b, e - 1),
        (a.len() - b.len() - e) % 2 == 0 ==> reach_at(f, a.len() - b.len()) != a.len(),
    ensures
        out_of_reach(a, b, e),
{
    let n = a.len() as int;
    let m = b.len() as int;
    assert forall|blocks: Seq<Block>| #[trigger] chain(a, b, blocks, n, m) implies steps(
        blocks,
        n,
        m,
    ) > e by {
        if steps(blocks, n, m) <= e {
            assert(steps(blocks, n, m) == e);
            assert((n - m - e) % 2 == 0);
            assert(arrives(a, b, blocks, e, n - m, n));
            lemma_arrives_inside(a, b, blocks, e, n - m, n);
            assert(-1 <= reach_at(f, n - m) <= n);
            if crest > -m - 1 {
                assert(-1 <= reach_at(f, crest) <= n);
            }
            assert(furthest(a, b, e, n - m, reach_at(f, n - m)));
        }
    }
}

/// A frontier of one level lower serves the next round.
proof fn lemma_next_thrifty(a: Seq<char>, b: Seq<char>, f: Frontier, e: int, crest: int)
    requires
        e >= 1,
        bounded(a, b, f, e - 1, crest),
        thrifty(f, e - 1),
    ensures
        thrifty(f, e),
{
    assert forall|j: int| -e <= j implies steps(
        trail_at(f, j),
        #[trigger] reach_at(f, j),
        reach_at(f, j) - j,
    ) <= (if (j - e) % 2 == 0 {
        e
    } else {
        e - 1
    }) by {
        if j == -e {
            assert(reach_at(f, j) == -1);
            assert(matched(trail_at(f, j)) >= 0);
        } else {
            assert(steps(trail_at(f, j), reach_at(f, j), reach_at(f, j) - j) <= (if (j - (e - 1))
                % 2 == 0 {
                e - 1
            } else {
                e - 2
            }));
        }
    }
}

/// The search takes no more steps than any path to the far corner.
#[verifier::rlimit(30)]
proof fn lemma_search_best(a: Seq<char>, b: Seq<char>, f: Frontier, d: int, crest: int)
    requires
        a.len() >= 1,
        b.len() >= 1,
        1 <= d <= a.len() + b.len() + 1,
        level(d - 1, b.len() as int) < a.len() + b.len(),
        settled(
            a,
            b,
            f,
            level(d - 1, b.len() as int),
            lower(d - 1, b.len() as int),
            crest,
        ),
        best_so_far(a, b, f, level(d - 1, b.len() as int), crest, a.len() as int + 1),
        out_of_reach(a, b, level(d - 1, b.len() as int)),
    ensures
        chain(a, b, search(a, b, f, d), a.len() as int, b.len() as int),
        forall|blocks: Seq<Block>| #[trigger]
            chain(a, b, blocks, a.len() as int, b.len() as int) ==> steps(
                search(a, b, f, d),
                a.len() as int,
                b.len() as int,
            ) <= steps(blocks, a.len() as int, b.len() as int),
    decreases a.len() + b.len() + 1 - d,
{
    let n = a.len() as int;
    let m = b.len() as int;
    let e = level(d, m);
    let lo = lower(d, m);
    let hi = upper(d, n);
    lemma_round(d, n, m);
    let again = level(d - 1, m) == e;
    if again {
        assert(d == m + 1 && lower(d - 1, m) == lo);
    } else {
        assert(level(d - 1, m) == e - 1);
        lemma_next_thrifty(a, b, f, e, crest);
        assert(old_row(a, b, f, e - 1, crest));
        assert(far_enough(a, b, f, e, crest, lo)) by {
            assert forall|j: int|
                crest <= j < lo && #[trigger] inside(e, n, m, j) implies furthest(
                a,
                b,
                e,
                j,
                reach_at(f, j),
            ) by {}
        }
    }
    assert(midway(a, b, f, e, lo, crest, lo, again, crest));
    let next = lemma_sweep_best(a, b, f, e, lo, hi, crest, lo, again, crest);
    let (g, found) = sweep(a, b, f, lo, hi, lo);
    if found is None {
        if !again {
            lemma_out_of_reach(a, b, g, e, next);
        }
        lemma_search_best(a, b, g, d + 1, next);
    }
}

/// The matches from the start on are as far as a path of no step gets.
proof fn lemma_origin_best(a: Seq<char>, b: Seq<char>, crest: int)
    requires
        a.len() >= 1,
        b.len() >= 1,
        settled(a, b, origin(a, b), 0, 0, crest),
    ensures
        thrifty(origin(a, b), 0),
        far_enough(a, b, origin(a, b), -1, crest, a.len() as int + 1),
        far_enough(a, b, origin(a, b), 0, crest, a.len() as int + 1),
{
    let n = a.len() as int;
    let m = b.len() as int;
    let f = origin(a, b);
    let end = snake_end(a, b, 0, 0);
    lemma_snake(a, b, 0, 0);
    let none = Seq::<Block>::empty();
    assert(matched(none) == 0);
    assert(seq![Block { a: 0, b: 0, len: end }].drop_last() =~= none);
    assert(matched(trail_at(f, 0)) == end);
    assert forall|j: int| j != 0 implies #[trigger] reach_at(f, j) == -1 by {}
    assert forall|j: int| matched(#[trigger] trail_at(f, j)) >= 0 by {}
    assert forall|j: int|
        crest <= j < n + 1 && #[trigger] inside(-1, n, m, j) implies furthest(
        a,
        b,
        -1,
        j,
        reach_at(f, j),
    ) by {}
    assert forall|j: int|
        crest <= j < n + 1 && #[trigger] inside(0, n, m, j) implies furthest(
        a,
        b,
        0,
        j,
        reach_at(f, j),
    ) by {
        assert forall|blocks: Seq<Block>, x: int| #[trigger]
            arrives(a, b, blocks, 0, 0, x) implies x <= end by {
            assert forall|path: Seq<Block>, z: int| #[trigger]
                arrives(a, b, path, -1, -1, z) implies z + 1 <= 0 || z + 1 > n by {
                lemma_matched(a, b, path, z, z + 1);
            }
            assert forall|path: Seq<Block>, z: int| #[trigger]
                arrives(a, b, path, -1, 1, z) implies z <= 0 by {
                lemma_matched(a, b, path, z, z - 1);
            }
            lemma_arrives_upto(a, b, 0, 0, 0, blocks, x);
        }
    }
}

/// Unless the two texts are equal, the search from the start takes no more steps
/// than any path.
proof fn lemma_search_shortest(a: Seq<char>, b: Seq<char>)
    requires
        a.len() >= 1,
        b.len() >= 1,
        a != b,
    ensures
        chain(a, b, search(a, b, origin(a, b), 1), a.len() as int, b.len() as int),
        forall|blocks: Seq<Block>| #[trigger]
            chain(a, b, blocks, a.len() as int, b.len() as int) ==> steps(
                search(a, b, origin(a, b), 1),
                a.len() as int,
                b.len() as int,
            ) <= steps(blocks, a.len() as int, b.len() as int),
{
    let n = a.len() as int;
    let m = b.len() as int;
    let f = origin(a, b);
    let crest = lemma_origin(a, b);
    lemma_origin_best(a, b, crest);
    lemma_snake(a, b, 0, 0);
    let end = snake_end(a, b, 0, 0);
    assert(reach_at(f, 0) == end);
    assert(!(n == m && end == n)) by {
        if n == m && end == n {
            assert forall|i: int| 0 <= i < n implies a[i] == b[i] by {
                assert(a[i] == b[i - 0 + 0]);
            }
            assert(a =~= b);
        }
    }
    assert(crest != n - m);
    assert forall|blocks: Seq<Block>| #[trigger] chain(a, b, blocks, n, m) implies steps(
        blocks,
        n,
        m,
    ) > -1 by {
        lemma_matched(a, b, blocks, n, m);
    }
    assert(out_of_reach(a, b, -1));
    if (n - m) % 2 == 0 {
        assert(n != m ==> reach_at(f, n - m) == -1);
    }
    lemma_out_of_reach(a, b, f, 0, crest);
    lemma_search_best(a, b, f, 1, crest);
}

/// Matches of a text with itself go on to its end.
proof fn lemma_snake_equal(a: Seq<char>, x: int)
    requires
        0 <= x <= a.len(),
    ensures
        snake_end(a, a, x, x) == a.len(),
    decreases a.len() - x,
{
    if x < a.len() {
        lemma_snake_equal(a, x + 1);
    }
}

/// The frontier of equal texts, of which diagonal 1 has been visited too.
spec fn past_origin(f: Frontier, n: int) -> bool {
    let all = seq![Block { a: 0, b: 0, len: n }];
    &&& reach_at(f, 0) == n && trail_at(f, 0) == all
    &&& reach_at(f, 1) == n && trail_at(f, 1) == all
    &&& reach_at(f, -1) == -1
}

/// A round over the diagonals -1 and 1 of equal texts.
proof fn lemma_equal_narrow(a: Seq<char>, f: Frontier)
    requires
        a.len() >= 1,
        reach_at(f, 0) == a.len(),
        trail_at(f, 0) == seq![Block { a: 0, b: 0, len: a.len() as int }],
        reach_at(f, -1) == -1,
    ensures
        sweep(a, a, f, -1, 1, -1).1 is None,
        past_origin(sweep(a, a, f, -1, 1, -1).0, a.len() as int),
{
    let n = a.len() as int;
    reveal_with_fuel(sweep, 4);
    assert(entry(f, n, -1, 1, -1) == n);
    assert(entry(f, n, -1, 1, 1) == n);
    assert(snake_end(a, a, n, n - 1) == n);
    let g = advance(a, a, f, -1, 1, 1);
    assert(sweep(a, a, f, -1, 1, -1) == sweep(a, a, f, -1, 1, 1));
    assert(sweep(a, a, f, -1, 1, 1) == sweep(a, a, g, -1, 1, 3));
    assert(sweep(a, a, g, -1, 1, 3) == (g, None::<int>));
}

/// A round over the diagonals -2, 0 and 2 of equal texts.
proof fn lemma_equal_wide(a: Seq<char>, f: Frontier)
    requires
        a.len() >= 1,
        past_origin(f, a.len() as int),
    ensures
        sweep(a, a, f, -2, 2, -2).1 == Some(0int),
        trail_at(sweep(a, a, f, -2, 2, -2).0, 0) == seq![
            Block { a: 0, b: 0, len: a.len() as int },
        ],
{
    let n = a.len() as int;
    reveal_with_fuel(sweep, 4);
    assert(entry(f, n, -2, 2, -2) == -1);
    let g = advance(a, a, f, -2, 2, -2);
    assert(sweep(a, a, f, -2, 2, -2) == sweep(a, a, g, -2, 2, 0));
    assert(reach_at(g, 1) == n && trail_at(g, 1) == trail_at(f, 1));
    assert(reach_at(g, -1) == -1);
    assert(entry(g, n, -2, 2, 0) == n);
    assert(snake_end(a, a, n, n) == n);
    let h = advance(a, a, g, -2, 2, 0);
    assert(sweep(a, a, g, -2, 2, 0) == (h, Some(0int)));
}

/// The search matches equal texts as a whole.
proof fn lemma_search_equal(a: Seq<char>)
    requires
        a.len() >= 1,
    ensures
        search(a, a, origin(a, a), 1) == seq![Block { a: 0, b: 0, len: a.len() as int }],
{
    let n = a.len() as int;
    let f = origin(a, a);
    lemma_snake_equal(a, 0);
    assert(reach_at(f, 0) == n);
    assert(reach_at(f, -1) == -1);
    lemma_equal_narrow(a, f);
    let g = sweep(a, a, f, -1, 1, -1).0;
    assert(search(a, a, f, 1) == search(a, a, g, 2));
    if n == 1 {
        lemma_equal_narrow(a, g);
        let h = sweep(a, a, g, -1, 1, -1).0;
        assert(search(a, a, g, 2) == search(a, a, h, 3));
        lemma_equal_wide(a, h);
    } else {
        lemma_equal_wide(a, g);
    }
}

/// The greedy search finds no change between equal texts.
pub proof fn lemma_myers_equal(a: Seq<char>)
    requires
        a.len() >= 1,
    ensures
        myers_edits(a, a) == Seq::<Edit>::empty(),
{
    let n = a.len() as int;
    let blocks = seq![Block { a: 0, b: 0, len: n }];
    lemma_search_equal(a);
    assert(blocks.drop_last() =~= Seq::<Block>::empty());
    reveal_with_fuel(edits_between, 2);
    assert(myers_edits(a, a) =~= Seq::<Edit>::empty());
}

/// The changes between matching blocks change what the blocks do not match.
proof fn lemma_changed_between(a: Seq<char>, b: Seq<char>, blocks: Seq<Block>, n: int, m: int)
    requires
        chain(a, b, blocks, n, m),
    ensures
        changed(edits_between(blocks, n, m)) == steps(blocks, n, m),
    decreases blocks.len(),
{
    reveal_with_fuel(changed, 2);
    let es = edits_between(blocks, n, m);
    if blocks.len() == 0 {
        if n != 0 || m != 0 {
            assert(es.drop_last() =~= Seq::<Edit>::empty());
        }
    } else {
        let last = blocks.last();
        let head = edits_between(blocks.drop_last(), last.a, last.b);
        lemma_changed_between(a, b, blocks.drop_last(), last.a, last.b);
        if last.a + last.len != n || last.b + last.len != m {
            assert(es.drop_last() =~= head);
        }
    }
}

/// The equal runs between aligned changes, as matching blocks.
proof fn lemma_blocks_of(a: Seq<char>, b: Seq<char>, es: Seq<Edit>, n: int, m: int) -> (blocks: Seq<
    Block,
>)
    requires
        aligned(a, b, es, n, m),
    ensures
        chain(a, b, blocks, n, m),
        steps(blocks, n, m) == changed(es),
    decreases es.len(),
{
    lemma_gap_run(a, b, es, n, m, es.len() as int);
    let run = gap(es, n, m, es.len() as int);
    let head = if es.len() == 0 {
        Seq::empty()
    } else {
        let e = es.last();
        let k = es.len() - 1;
        lemma_aligned_at(a, b, es, n, m, k);
        lemma_aligned_take(a, b, es, n, m, k);
        assert(es.drop_last() =~= es.take(k));
        let blocks = lemma_blocks_of(a, b, es.drop_last(), e.a.start, e.b.start);
        lemma_chain_widen(a, b, blocks, e.a.start, e.b.start, e.a.end, e.b.end);
        blocks
    };
    assert(chain(a, b, head, run.a.start, run.b.start));
    assert(steps(head, run.a.start, run.b.start) == changed(es));
    if run.a.len() == 0 {
        head
    } else {
        let blocks = head.push(Block { a: run.a.start, b: run.b.start, len: run.a.len() });
        assert(blocks.drop_last() =~= head);
        blocks
    }
}

/// No list of changes that leaves equal runs inserts and deletes fewer elements
/// than the greedy search.
pub proof fn lemma_myers_shortest(a: Seq<char>, b: Seq<char>, es: Seq<Edit>)
    requires
        aligned(a, b, es, a.len() as int, b.len() as int),
    ensures
        changed(myers_edits(a, b)) <= changed(es),
{
    let n = a.len() as int;
    let m = b.len() as int;
    let blocks = lemma_blocks_of(a, b, es, n, m);
    lemma_matched(a, b, blocks, n, m);
    if n == 0 || m == 0 {
        let all = seq![whole(a, b)];
        assert(all.drop_last() =~= Seq::<Edit>::empty());
        assert(changed(all) == n + m) by {
            reveal_with_fuel(changed, 2);
        }
    } else if a == b {
        lemma_myers_equal(a);
    } else {
        lemma_search_shortest(a, b);
        lemma_changed_between(a, b, search(a, b, origin(a, b), 1), n, m);
    }
}

/// The changes with the sides exchanged.
pub open spec fn exchanged(es: Seq<Edit>) -> Seq<Edit> {
    Seq::new(es.len(), |i: int| es[i].swap())
}

/// Exchanging the sides changes as much.
proof fn lemma_exchanged_changed(es: Seq<Edit>)
    ensures
        changed(exchanged(es)) == changed(es),
    decreases es.len(),
{
    if es.len() > 0 {
        lemma_exchanged_changed(es.drop_last());
        assert(exchanged(es).drop_last() =~= exchanged(es.drop_last()));
    }
}

/// Exchanging the sides keeps the changes aligned.
proof fn lemma_exchanged_aligned(a: Seq<char>, b: Seq<char>, es: Seq<Edit>, n: int, m: int)
    requires
        aligned(a, b, es, n, m),
    ensures
        aligned(b, a, exchanged(es), m, n),
{
    let fs = exchanged(es);
    assert forall|i: int| 0 <= i < fs.len() implies #[trigger] fs[i].within(m, n) by {
        lemma_aligned_at(a, b, es, n, m, i);
    }
    assert forall|i: int| 0 <= i <= fs.len() implies equal_run(
        b,
        a,
        #[trigger] gap(fs, m, n, i),
        m,
        n,
    ) by {
        let g = gap(es, n, m, i);
        let h = gap(fs, m, n, i);
        lemma_gap_run(a, b, es, n, m, i);
        assert(h == g.swap());
        assert forall|k: int| h.a.start <= k < h.a.start + h.a.len() implies #[trigger] b[k]
            == a[k - h.a.start + h.b.start] by {
            let j = k - g.b.start + g.a.start;
            assert(a[j] == b[j - g.a.start + g.b.start]);
        }
    }
    assert(aligned(b, a, fs, m, n)) by {
        reveal(aligned);
    }
}

proof fn lemma_myers_exchanged(a: Seq<char>, b: Seq<char>)
    ensures
        changed(myers_edits(a, b)) <= changed(myers_edits(b, a)),
{
    let es = myers_edits(b, a);
    lemma_myers_aligned(b, a);
    lemma_exchanged_aligned(b, a, es, b.len() as int, a.len() as int);
    lemma_exchanged_changed(es);
    lemma_myers_shortest(a, b, exchanged(es));
}

/// The greedy search inserts and deletes no more elements than the table search
/// on the same sides, and as many when the sides are exchanged.
pub proof fn lemma_searches_compared(a: Seq<char>, b: Seq<char>)
    ensures
        changed(myers_edits(a, b)) <= changed(dp_edits(a, b)),
        changed(myers_edits(a, b)) == changed(myers_edits(b, a)),
{
    lemma_dp_aligned(a, b);
    lemma_myers_shortest(a, b, dp_edits(a, b));
    lemma_myers_exchanged(a, b);
    lemma_myers_exchanged(b, a);
}

} // verus!
