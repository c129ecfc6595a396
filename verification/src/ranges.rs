//! Half-open offset ranges, and changes that pair a range of each side.

use vstd::prelude::*;

verus! {

/// A half-open range of offsets, over unbounded integers.
pub struct Interval {
    pub start: int,
    pub end: int,
}

/// A change: a range of the first sequence and one of the second.
pub struct Edit {
    pub a: Interval,
    pub b: Interval,
}

impl Interval {
    pub open spec fn len(self) -> int {
        self.end - self.start
    }

    pub open spec fn empty(self) -> bool {
        self.end <= self.start
    }

    pub open spec fn has(self, at: int) -> bool {
        self.start <= at < self.end
    }

    /// The smallest interval that covers both.
    pub open spec fn hull(self, other: Interval) -> Interval {
        Interval { start: least(self.start, other.start), end: greatest(self.end, other.end) }
    }

    /// The common part; intervals that only touch have an empty one.
    pub open spec fn meet(self, other: Interval) -> Option<Interval> {
        let start = greatest(self.start, other.start);
        let end = least(self.end, other.end);
        if start <= end {
            Some(Interval { start, end })
        } else {
            None
        }
    }

    pub open spec fn overlaps(self, other: Interval) -> bool {
        self.start < other.end && other.start < self.end
    }

    pub open spec fn shift(self, by: int) -> Interval {
        Interval { start: self.start + by, end: self.end + by }
    }

    /// Inside `[0, n]`, with its ends in order.
    pub open spec fn within(self, n: int) -> bool {
        0 <= self.start <= self.end <= n
    }
}

impl Edit {
    pub open spec fn ends(self) -> (int, int) {
        (self.a.end, self.b.end)
    }

    pub open spec fn hull(self, other: Edit) -> Edit {
        Edit { a: self.a.hull(other.a), b: self.b.hull(other.b) }
    }

    pub open spec fn meet(self, other: Edit) -> Option<Edit> {
        match (self.a.meet(other.a), self.b.meet(other.b)) {
            (Some(a), Some(b)) => Some(Edit { a, b }),
            _ => None,
        }
    }

    pub open spec fn shift(self, by: int) -> Edit {
        Edit { a: self.a.shift(by), b: self.b.shift(by) }
    }

    pub open spec fn shift_start(self, by: int) -> Edit {
        Edit {
            a: Interval { start: self.a.start + by, end: self.a.end },
            b: Interval { start: self.b.start + by, end: self.b.end },
        }
    }

    pub open spec fn shift_end(self, by: int) -> Edit {
        Edit {
            a: Interval { start: self.a.start, end: self.a.end + by },
            b: Interval { start: self.b.start, end: self.b.end + by },
        }
    }

    /// The same change with the sides exchanged.
    pub open spec fn swap(self) -> Edit {
        Edit { a: self.b, b: self.a }
    }

    pub open spec fn within(self, n: int, m: int) -> bool {
        self.a.within(n) && self.b.within(m)
    }
}

pub open spec fn least(x: int, y: int) -> int {
    if x <= y {
        x
    } else {
        y
    }
}

pub open spec fn greatest(x: int, y: int) -> int {
    if x >= y {
        x
    } else {
        y
    }
}

pub open spec fn clamp(x: int, low: int, high: int) -> int {
    if x < low {
        low
    } else if x > high {
        high
    } else {
        x
    }
}

/// A half-open offset range. Offsets are signed, so that shifting a range to
/// the left never wraps.
#[derive(Clone, Copy, Debug, PartialEq, Eq, Structural)]
pub struct OffsetRange {
    pub start: i64,
    /// One past the last offset.
    pub end: i64,
}

impl View for OffsetRange {
    type V = Interval;

    open spec fn view(&self) -> Interval {
        Interval { start: self.start as int, end: self.end as int }
    }
}

impl OffsetRange {
    pub fn len(self) -> (length: i64)
        requires
            i64::MIN <= self@.len() <= i64::MAX,
        ensures
            length == self@.len(),
    {
        self.end - self.start
    }

    pub fn is_empty(self) -> (empty: bool)
        ensures
            empty == self@.empty(),
    {
        self.end <= self.start
    }
}

/// One change between the two sequences: a range on each side at once.
#[derive(Clone, Copy, Debug, PartialEq, Eq, Structural)]
pub struct SequenceDiff {
    pub seq1: OffsetRange,
    pub seq2: OffsetRange,
}

impl View for SequenceDiff {
    type V = Edit;

    open spec fn view(&self) -> Edit {
        Edit { a: self.seq1@, b: self.seq2@ }
    }
}

/// What a list of changes stands for.
pub open spec fn edits(diffs: Seq<SequenceDiff>) -> Seq<Edit> {
    Seq::new(diffs.len(), |i: int| diffs[i]@)
}

pub broadcast proof fn lemma_edits_push(diffs: Seq<SequenceDiff>, diff: SequenceDiff)
    ensures
        #[trigger] edits(diffs.push(diff)) == edits(diffs).push(diff@),
{
    assert(edits(diffs.push(diff)) =~= edits(diffs).push(diff@));
}

pub broadcast proof fn lemma_edits_update(diffs: Seq<SequenceDiff>, i: int, diff: SequenceDiff)
    requires
        0 <= i < diffs.len(),
    ensures
        #[trigger] edits(diffs.update(i, diff)) == edits(diffs).update(i, diff@),
{
    assert(edits(diffs.update(i, diff)) =~= edits(diffs).update(i, diff@));
}

fn min_i64(x: i64, y: i64) -> (z: i64)
    ensures
        z == least(x as int, y as int),
{
    if x <= y {
        x
    } else {
        y
    }
}

fn max_i64(x: i64, y: i64) -> (z: i64)
    ensures
        z == greatest(x as int, y as int),
{
    if x >= y {
        x
    } else {
        y
    }
}

/// The smallest range that covers both.
pub fn join_ranges(a: OffsetRange, b: OffsetRange) -> (joined: OffsetRange)
    ensures
        joined@ == a@.hull(b@),
{
    OffsetRange { start: min_i64(a.start, b.start), end: max_i64(a.end, b.end) }
}

/// The common part of two ranges, if they at least touch.
pub fn intersect_ranges(a: OffsetRange, b: OffsetRange) -> (common: Option<OffsetRange>)
    ensures
        match common {
            Some(range) => a@.meet(b@) == Some(range@),
            None => a@.meet(b@) is None,
        },
{
    let start: i64 = max_i64(a.start, b.start);
    let end: i64 = min_i64(a.end, b.end);
    if start <= end {
        Some(OffsetRange { start, end })
    } else {
        None
    }
}

pub fn intersects_ranges(a: OffsetRange, b: OffsetRange) -> (overlap: bool)
    ensures
        overlap == a@.overlaps(b@),
{
    a.start < b.end && b.start < a.end
}

/// Where a change ends, on each side.
pub fn diff_ends(d: SequenceDiff) -> (ends: (i64, i64))
    ensures
        (ends.0 as int, ends.1 as int) == d@.ends(),
{
    (d.seq1.end, d.seq2.end)
}

/// The smallest change that covers both.
pub fn join_diffs(a: SequenceDiff, b: SequenceDiff) -> (joined: SequenceDiff)
    ensures
        joined@ == a@.hull(b@),
{
    SequenceDiff { seq1: join_ranges(a.seq1, b.seq1), seq2: join_ranges(a.seq2, b.seq2) }
}

/// `x + by` is an `i64`.
pub open spec fn fits(x: int, by: int) -> bool {
    i64::MIN <= x + by <= i64::MAX
}

/// The change moved by `offset` on both sides.
pub fn delta_diff(d: SequenceDiff, offset: i64) -> (moved: SequenceDiff)
    requires
        fits(d@.a.start, offset as int),
        fits(d@.a.end, offset as int),
        fits(d@.b.start, offset as int),
        fits(d@.b.end, offset as int),
    ensures
        moved@ == d@.shift(offset as int),
{
    SequenceDiff {
        seq1: OffsetRange { start: d.seq1.start + offset, end: d.seq1.end + offset },
        seq2: OffsetRange { start: d.seq2.start + offset, end: d.seq2.end + offset },
    }
}

/// The change with its start moved by `offset` on both sides.
pub fn delta_start_diff(d: SequenceDiff, offset: i64) -> (moved: SequenceDiff)
    requires
        fits(d@.a.start, offset as int),
        fits(d@.b.start, offset as int),
    ensures
        moved@ == d@.shift_start(offset as int),
{
    SequenceDiff {
        seq1: OffsetRange { start: d.seq1.start + offset, end: d.seq1.end },
        seq2: OffsetRange { start: d.seq2.start + offset, end: d.seq2.end },
    }
}

/// The change with its end moved by `offset` on both sides.
pub fn delta_end_diff(d: SequenceDiff, offset: i64) -> (moved: SequenceDiff)
    requires
        fits(d@.a.end, offset as int),
        fits(d@.b.end, offset as int),
    ensures
        moved@ == d@.shift_end(offset as int),
{
    SequenceDiff {
        seq1: OffsetRange { start: d.seq1.start, end: d.seq1.end + offset },
        seq2: OffsetRange { start: d.seq2.start, end: d.seq2.end + offset },
    }
}

/// The common part of two changes, if they at least touch on both sides.
pub fn intersect_diffs(a: SequenceDiff, b: SequenceDiff) -> (common: Option<SequenceDiff>)
    ensures
        match common {
            Some(d) => a@.meet(b@) == Some(d@),
            None => a@.meet(b@) is None,
        },
{
    match (intersect_ranges(a.seq1, b.seq1), intersect_ranges(a.seq2, b.seq2)) {
        (Some(seq1), Some(seq2)) => Some(SequenceDiff { seq1, seq2 }),
        _ => None,
    }
}

/// The stretch between the changes `i - 1` and `i` of a list, or between a
/// change and the start or the end of the sequences, whose lengths are `n` and
/// `m`.
pub open spec fn gap(es: Seq<Edit>, n: int, m: int, i: int) -> Edit {
    let start = if i == 0 {
        (0, 0)
    } else {
        es[i - 1].ends()
    };
    let end = if i == es.len() {
        (n, m)
    } else {
        (es[i].a.start, es[i].b.start)
    };
    Edit { a: Interval { start: start.0, end: end.0 }, b: Interval { start: start.1, end: end.1 } }
}

/// All stretches that a list of changes leaves out.
pub open spec fn gaps(es: Seq<Edit>, n: int, m: int) -> Seq<Edit> {
    Seq::new(es.len() + 1, |i: int| gap(es, n, m, i))
}

/// The changes are in bounds, and in order on both sides.
pub open spec fn ordered(es: Seq<Edit>, n: int, m: int) -> bool {
    &&& forall|i: int| 0 <= i < es.len() ==> #[trigger] es[i].within(n, m)
    &&& forall|i: int, j: int|
        0 <= i < j < es.len() ==> es[i].a.end <= es[j].a.start && es[i].b.end <= es[j].b.start
}

/// The equal runs between the given diffs.
pub fn invert_diffs(diffs: &[SequenceDiff], doc1_length: i64, doc2_length: i64) -> (result: Vec<
    SequenceDiff,
>)
    ensures
        edits(result@) == gaps(edits(diffs@), doc1_length as int, doc2_length as int),
{
    let mut result: Vec<SequenceDiff> = Vec::new();
    let mut start: (i64, i64) = (0, 0);
    let mut i: usize = 0;
    let ghost all = gaps(edits(diffs@), doc1_length as int, doc2_length as int);
    while i < diffs.len()
        invariant
            i <= diffs.len(),
            all == gaps(edits(diffs@), doc1_length as int, doc2_length as int),
            (start.0 as int, start.1 as int) == (if i == 0 {
                (0, 0)
            } else {
                diffs@[i - 1]@.ends()
            }),
            edits(result@) =~= all.take(i as int),
        decreases diffs.len() - i,
    {
        let cur: SequenceDiff = diffs[i];
        let ghost before = result@;
        result.push(
            SequenceDiff {
                seq1: OffsetRange { start: start.0, end: cur.seq1.start },
                seq2: OffsetRange { start: start.1, end: cur.seq2.start },
            },
        );
        proof {
            let es = edits(diffs@);
            assert(es[i as int] == cur@);
            assert(i > 0 ==> es[i - 1] == diffs@[i - 1]@);
            assert(result@.last()@ == all[i as int]);
            lemma_edits_push(before, result@.last());
            assert(all.take(i + 1) =~= all.take(i as int).push(all[i as int]));
        }
        start = diff_ends(cur);
        i = i + 1;
    }
    let ghost before = result@;
    result.push(
        SequenceDiff {
            seq1: OffsetRange { start: start.0, end: doc1_length },
            seq2: OffsetRange { start: start.1, end: doc2_length },
        },
    );
    proof {
        let es = edits(diffs@);
        assert(i > 0 ==> es[i - 1] == diffs@[i - 1]@);
        assert(result@.last()@ == all[i as int]);
        lemma_edits_push(before, result@.last());
        assert(all =~= all.take(i as int).push(all[i as int]));
    }
    result
}

/// The common part of two intervals has what both have. There is none only where
/// one of them ends before the other starts.
pub proof fn the_common_part_is_in_both(x: Interval, y: Interval, at: int)
    requires
        x.start <= x.end,
        y.start <= y.end,
    ensures
        match x.meet(y) {
            Some(common) => {
                &&& common.start <= common.end
                &&& common.start <= at < common.end <==> x.start <= at < x.end && y.start <= at
                    < y.end
            },
            None => x.end < y.start || y.end < x.start,
        },
{
}

/// Two intervals overlap if some offset lies in both.
pub proof fn overlapping_intervals_share_an_offset(x: Interval, y: Interval, at: int)
    ensures
        x.start <= at < x.end && y.start <= at < y.end ==> x.overlaps(y),
        x.start < x.end && y.start < y.end && x.overlaps(y) ==> {
            let first = if x.start < y.start {
                y.start
            } else {
                x.start
            };
            x.start <= first < x.end && y.start <= first < y.end
        },
{
}

/// The hull of two intervals is the smallest one that has all of both.
pub proof fn the_hull_is_the_smallest_cover(x: Interval, y: Interval, z: Interval)
    ensures
        x.hull(y).start <= x.start && x.hull(y).start <= y.start,
        x.hull(y).end >= x.end && x.hull(y).end >= y.end,
        z.start <= x.start && z.start <= y.start && x.end <= z.end && y.end <= z.end ==> z.start
            <= x.hull(y).start && x.hull(y).end <= z.end,
{
}

/// The equal runs of a list lie before, between and behind its changes: one more
/// than there are changes.
pub proof fn equal_runs_lie_between_the_changes(es: Seq<Edit>, n: int, m: int, i: int)
    requires
        0 <= i <= es.len(),
    ensures
        gaps(es, n, m).len() == es.len() + 1,
        gaps(es, n, m)[i].a.start == (if i > 0 {
            es[i - 1].a.end
        } else {
            0
        }),
        gaps(es, n, m)[i].b.start == (if i > 0 {
            es[i - 1].b.end
        } else {
            0
        }),
        gaps(es, n, m)[i].a.end == (if i < es.len() {
            es[i].a.start
        } else {
            n
        }),
        gaps(es, n, m)[i].b.end == (if i < es.len() {
            es[i].b.start
        } else {
            m
        }),
{
}

} // verus!
