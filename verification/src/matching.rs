//! Matching blocks, and the changes that they leave between them.

use vstd::prelude::*;

use crate::char_seq::{CharSeq, MAX_ELEMENTS};
use crate::ranges::{
    edits, gap, lemma_edits_push, ordered, Edit, Interval, OffsetRange, SequenceDiff,
};

verus! {

/// A run of `len` elements of the first sequence from `a` on that is matched
/// with a run of the second from `b` on.
pub struct Block {
    pub a: int,
    pub b: int,
    pub len: int,
}

/// `len` elements of `a` from `x` on equal those of `b` from `y` on.
pub open spec fn same(a: Seq<char>, x: int, b: Seq<char>, y: int, len: int) -> bool {
    forall|i: int| x <= i < x + len ==> #[trigger] a[i] == b[i - x + y]
}

/// The blocks are matches, none is empty, and they follow one another on both
/// sides up to `n` and `m`.
pub open spec fn chain(a: Seq<char>, b: Seq<char>, blocks: Seq<Block>, n: int, m: int) -> bool
    decreases blocks.len(),
{
    if blocks.len() == 0 {
        0 <= n && 0 <= m
    } else {
        let last = blocks.last();
        &&& last.len >= 1
        &&& last.a + last.len <= n
        &&& last.b + last.len <= m
        &&& same(a, last.a, b, last.b, last.len)
        &&& chain(a, b, blocks.drop_last(), last.a, last.b)
    }
}

/// The changes between the blocks, up to `n` and `m`.
pub open spec fn edits_between(blocks: Seq<Block>, n: int, m: int) -> Seq<Edit>
    decreases blocks.len(),
{
    let last = blocks.last();
    let (head, x, y) = if blocks.len() == 0 {
        (Seq::empty(), 0, 0)
    } else {
        (edits_between(blocks.drop_last(), last.a, last.b), last.a + last.len, last.b + last.len)
    };
    if x != n || y != m {
        head.push(Edit { a: Interval { start: x, end: n }, b: Interval { start: y, end: m } })
    } else {
        head
    }
}

/// An equal run: as long on one side as on the other, and the same text.
pub open spec fn equal_run(a: Seq<char>, b: Seq<char>, run: Edit, n: int, m: int) -> bool {
    &&& run.within(n, m)
    &&& run.a.len() == run.b.len()
    &&& same(a, run.a.start, b, run.b.start, run.a.len())
}

/// The changes are in order and in bounds, and what they leave out of the first
/// `n` elements of `a` equals, run by run, what they leave out of the first `m`
/// elements of `b`.
#[verifier::opaque]
pub open spec fn aligned(a: Seq<char>, b: Seq<char>, es: Seq<Edit>, n: int, m: int) -> bool {
    &&& forall|i: int| 0 <= i < es.len() ==> #[trigger] es[i].within(n, m)
    &&& forall|i: int| 0 <= i <= es.len() ==> equal_run(a, b, #[trigger] gap(es, n, m, i), n, m)
}

/// No two changes touch.
pub open spec fn spaced(es: Seq<Edit>) -> bool {
    forall|i: int, j: int|
        #![trigger es[i], es[j]]
        0 <= i && j == i + 1 && j < es.len() ==> es[i].a.end < es[j].a.start
}

pub proof fn lemma_aligned_extend(
    a: Seq<char>,
    b: Seq<char>,
    es: Seq<Edit>,
    n: int,
    m: int,
    k: int,
)
    requires
        aligned(a, b, es, n, m),
        k >= 0,
        same(a, n, b, m, k),
    ensures
        aligned(a, b, es, n + k, m + k),
{
    reveal(aligned);
    assert forall|i: int| 0 <= i < es.len() implies #[trigger] es[i].within(n + k, m + k) by {
        assert(es[i].within(n, m));
    }
    assert forall|i: int| 0 <= i <= es.len() implies equal_run(
        a,
        b,
        #[trigger] gap(es, n + k, m + k, i),
        n + k,
        m + k,
    ) by {
        let g = gap(es, n, m, i);
        assert(equal_run(a, b, g, n, m));
        if i == es.len() {
            let h = gap(es, n + k, m + k, i);
            assert forall|j: int| h.a.start <= j < h.a.start + h.a.len() implies #[trigger] a[j]
                == b[j - h.a.start + h.b.start] by {
                if j < n {
                    assert(a[j] == b[j - g.a.start + g.b.start]);
                } else {
                    assert(a[j] == b[j - n + m]);
                }
            }
        }
    }
}

pub proof fn lemma_aligned_push(
    a: Seq<char>,
    b: Seq<char>,
    es: Seq<Edit>,
    n: int,
    m: int,
    x: int,
    y: int,
)
    requires
        aligned(a, b, es, n, m),
        n <= x,
        m <= y,
    ensures
        aligned(
            a,
            b,
            es.push(Edit { a: Interval { start: n, end: x }, b: Interval { start: m, end: y } }),
            x,
            y,
        ),
{
    reveal(aligned);
    let e = Edit { a: Interval { start: n, end: x }, b: Interval { start: m, end: y } };
    let fs = es.push(e);
    assert(equal_run(a, b, gap(es, n, m, es.len() as int), n, m));
    assert forall|i: int| 0 <= i < fs.len() implies #[trigger] fs[i].within(x, y) by {
        if i < es.len() {
            assert(es[i].within(n, m));
        }
    }
    assert forall|i: int| 0 <= i <= fs.len() implies equal_run(
        a,
        b,
        #[trigger] gap(fs, x, y, i),
        x,
        y,
    ) by {
        if i <= es.len() {
            assert(equal_run(a, b, gap(es, n, m, i), n, m));
            assert(gap(fs, x, y, i) == gap(es, n, m, i));
        }
    }
}

/// Where a change of an aligned list lies, and the equal runs around it.
pub proof fn lemma_aligned_at(a: Seq<char>, b: Seq<char>, es: Seq<Edit>, n: int, m: int, i: int)
    requires
        aligned(a, b, es, n, m),
        0 <= i < es.len(),
    ensures
        es[i].within(n, m),
        equal_run(a, b, gap(es, n, m, i), n, m),
        equal_run(a, b, gap(es, n, m, i + 1), n, m),
{
    reveal(aligned);
}

/// What lies between two aligned changes is an equal run.
pub proof fn lemma_gap_run(a: Seq<char>, b: Seq<char>, es: Seq<Edit>, n: int, m: int, k: int)
    requires
        aligned(a, b, es, n, m),
        0 <= k <= es.len(),
    ensures
        equal_run(a, b, gap(es, n, m, k), n, m),
{
    reveal(aligned);
}

/// Aligned changes are in bounds, and in order on both sides.
pub proof fn lemma_aligned_order(a: Seq<char>, b: Seq<char>, es: Seq<Edit>, n: int, m: int)
    requires
        aligned(a, b, es, n, m),
    ensures
        ordered(es, n, m),
{
    assert forall|i: int| 0 <= i < es.len() implies #[trigger] es[i].within(n, m) by {
        lemma_aligned_at(a, b, es, n, m, i);
    }
    assert forall|i: int, j: int| 0 <= i < j < es.len() implies es[i].a.end <= es[j].a.start
        && es[i].b.end <= es[j].b.start by {
        lemma_aligned_order_at(a, b, es, n, m, i, j);
    }
}

proof fn lemma_aligned_order_at(
    a: Seq<char>,
    b: Seq<char>,
    es: Seq<Edit>,
    n: int,
    m: int,
    i: int,
    j: int,
)
    requires
        aligned(a, b, es, n, m),
        0 <= i < j < es.len(),
    ensures
        es[i].a.end <= es[j].a.start,
        es[i].b.end <= es[j].b.start,
    decreases j,
{
    reveal(aligned);
    assert(equal_run(a, b, gap(es, n, m, j), n, m));
    if i < j - 1 {
        lemma_aligned_order_at(a, b, es, n, m, i, j - 1);
        assert(es[j - 1].within(n, m));
    }
}

/// The changes before change `i` are aligned up to where that starts.
pub proof fn lemma_aligned_take(a: Seq<char>, b: Seq<char>, es: Seq<Edit>, n: int, m: int, i: int)
    requires
        aligned(a, b, es, n, m),
        0 <= i < es.len(),
    ensures
        aligned(a, b, es.take(i), es[i].a.start, es[i].b.start),
{
    reveal(aligned);
    let fs = es.take(i);
    let x = es[i].a.start;
    let y = es[i].b.start;
    lemma_aligned_order(a, b, es, n, m);
    assert forall|j: int| 0 <= j < fs.len() implies #[trigger] fs[j].within(x, y) by {
        assert(es[j].within(n, m));
    }
    assert forall|j: int| 0 <= j <= fs.len() implies equal_run(
        a,
        b,
        #[trigger] gap(fs, x, y, j),
        x,
        y,
    ) by {
        assert(equal_run(a, b, gap(es, n, m, j), n, m));
        assert(gap(fs, x, y, j) == gap(es, n, m, j));
        if j < fs.len() {
            assert(es[j].within(n, m));
        }
    }
}

/// A list without changes is aligned with two equal texts.
pub proof fn lemma_aligned_none(a: Seq<char>, b: Seq<char>)
    ensures
        aligned(a, b, Seq::empty(), 0, 0),
{
    reveal(aligned);
    assert(same(a, 0, b, 0, 0));
}

/// The changes between matching blocks are aligned, and apart from one another.
pub proof fn lemma_edits_between(a: Seq<char>, b: Seq<char>, blocks: Seq<Block>, n: int, m: int)
    requires
        chain(a, b, blocks, n, m),
    ensures
        aligned(a, b, edits_between(blocks, n, m), n, m),
        spaced(edits_between(blocks, n, m)),
    decreases blocks.len(),
{
    reveal(aligned);
    if blocks.len() == 0 {
        let none = Seq::<Edit>::empty();
        lemma_aligned_none(a, b);
        lemma_aligned_push(a, b, none, 0, 0, n, m);
    } else {
        let last = blocks.last();
        let head = edits_between(blocks.drop_last(), last.a, last.b);
        lemma_edits_between(a, b, blocks.drop_last(), last.a, last.b);
        lemma_aligned_extend(a, b, head, last.a, last.b, last.len);
        lemma_aligned_push(a, b, head, last.a + last.len, last.b + last.len, n, m);
        if head.len() > 0 {
            assert(head.last().within(last.a, last.b));
        }
    }
}

pub proof fn lemma_chain_widen(
    a: Seq<char>,
    b: Seq<char>,
    blocks: Seq<Block>,
    n: int,
    m: int,
    x: int,
    y: int,
)
    requires
        chain(a, b, blocks, n, m),
        n <= x,
        m <= y,
    ensures
        chain(a, b, blocks, x, y),
{
}

/// `es` is a list of changes between the two sequences.
pub open spec fn compares(seq1: &CharSeq, seq2: &CharSeq, es: Seq<Edit>) -> bool {
    &&& seq1@.len() <= MAX_ELEMENTS
    &&& seq2@.len() <= MAX_ELEMENTS
    &&& ordered(es, seq1@.len(), seq2@.len())
}

/// Appends the change from `(x, y)` up to `(end1, end2)`, unless it is empty on
/// both sides.
pub fn report(result: &mut Vec<SequenceDiff>, x: i64, y: i64, end1: i64, end2: i64)
    ensures
        edits(final(result)@) == (if x != end1 || y != end2 {
            edits(old(result)@).push(
                Edit {
                    a: Interval { start: x as int, end: end1 as int },
                    b: Interval { start: y as int, end: end2 as int },
                },
            )
        } else {
            edits(old(result)@)
        }),
{
    broadcast use lemma_edits_push;

    if x != end1 || y != end2 {
        result.push(
            SequenceDiff {
                seq1: OffsetRange { start: x, end: end1 },
                seq2: OffsetRange { start: y, end: end2 },
            },
        );
    }
}

/// The elements of a list, last first.
pub fn reversed(diffs: &Vec<SequenceDiff>) -> (result: Vec<SequenceDiff>)
    ensures
        edits(result@) == edits(diffs@).reverse(),
{
    let mut result: Vec<SequenceDiff> = Vec::new();
    let mut i: usize = diffs.len();
    while i > 0
        invariant
            i <= diffs@.len(),
            result@.len() == diffs@.len() - i,
            forall|k: int|
                0 <= k < result@.len() ==> #[trigger] result@[k] == diffs@[diffs@.len() - 1 - k],
        decreases i,
    {
        i = i - 1;
        result.push(diffs[i]);
    }
    assert(edits(result@) =~= edits(diffs@).reverse());
    result
}

} // verus!
