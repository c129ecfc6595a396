//! Which changes are joined across short text, and how far changes are
//! stretched.

use vstd::prelude::*;

use crate::band::inside;
use crate::block::refined;
use crate::char_seq::{first_start, lemma_first_start, lemma_last_start_is, Text};
use crate::chars::trim;
use crate::dp::dp_edits;
use crate::matching::{aligned, lemma_aligned_at};
use crate::myers::myers_edits;
use crate::ranges::{least, ordered, Edit, Interval};
use crate::shifting::{merge_left, merge_right, place};
use crate::short_matches::{
    close_by, join_where, lemma_full_lines, lemma_join_ordered, lemma_join_where_len, pulled,
    pulled_together, pulled_up_to, stretched, stretched_all, without_short, without_very_short,
};
use crate::survival::lemma_clip;
use crate::weight::power;
use crate::words::extended;

verus! {

/// Where at least two elements lie between two neighbours on both sides, one
/// change of the joined list ends where the first of them ends, and the next one
/// starts where the second starts. Otherwise one change of the joined list holds
/// both. Returns the place of the first in the joined list.
pub proof fn changes_are_joined_across_single_elements(es: Seq<Edit>, n: int, m: int, i: int) -> (u:
    int)
    requires
        ordered(es, n, m),
        0 <= i,
        i + 1 < es.len(),
    ensures
        ({
            let fs = without_short(es);
            let far = es[i + 1].a.start - es[i].a.end >= 2 && es[i + 1].b.start - es[i].b.end >= 2;
            &&& 0 <= u < fs.len()
            &&& far ==> u + 1 < fs.len() && fs[u].ends() == es[i].ends() && fs[u + 1].a.start
                == es[i + 1].a.start && fs[u + 1].b.start == es[i + 1].b.start
            &&& !far ==> inside(es[i], fs[u]) && inside(es[i + 1], fs[u])
        }),
    decreases es.len(),
{
    let joins = |last: Edit, next: Edit| close_by(last, next);
    let head = es.drop_last();
    let done = without_short(head);
    let fs = without_short(es);
    let e = es.last();
    assert forall|k: int| 0 <= k < head.len() implies #[trigger] head[k].within(n, m) by {
        assert(es[k].within(n, m));
    }
    assert(es[i].within(n, m));
    assert(es[es.len() - 1].within(n, m));
    assert(es[i].a.end <= es[i + 1].a.start && es[i].b.end <= es[i + 1].b.start);
    assert(es[es.len() - 2].a.end <= e.a.start && es[es.len() - 2].b.end <= e.b.start);
    lemma_join_ordered(head, n, m, joins);
    assert(done[done.len() - 1].within(n, m));
    if i + 1 == es.len() - 1 {
        assert(done.last().ends() == es[i].ends());
        lemma_last_held(head, n, m);
        done.len() - 1
    } else {
        let u = changes_are_joined_across_single_elements(head, n, m, i);
        assert(head[i] == es[i] && head[i + 1] == es[i + 1]);
        u
    }
}

/// The last change lies within the last one of the joined list.
proof fn lemma_last_held(es: Seq<Edit>, n: int, m: int)
    requires
        ordered(es, n, m),
        es.len() > 0,
    ensures
        without_short(es).len() > 0,
        inside(es.last(), without_short(es).last()),
{
    let joins = |last: Edit, next: Edit| close_by(last, next);
    let head = es.drop_last();
    assert forall|k: int| 0 <= k < head.len() implies #[trigger] head[k].within(n, m) by {
        assert(es[k].within(n, m));
    }
    lemma_join_ordered(head, n, m, joins);
    assert(es[es.len() - 1].within(n, m));
    if head.len() > 0 {
        let done = without_short(head);
        assert(done[done.len() - 1].within(n, m));
    }
}

/// What a change weighs: each side counts 40 for each line it goes beyond and 1
/// for each element, up to 130.
pub open spec fn mass(t: Text, u: Text, e: Edit) -> int {
    power(
        power(
            least(40 * t.lines_in(e.a) + (e.a.end - e.a.start), 130) * 0x1000_0000,
        ) + power(least(40 * u.lines_in(e.b) + (e.b.end - e.b.start), 130) * 0x1000_0000),
    )
}

/// How one round of joining goes on with one more change. It is joined to the
/// last one, and all that lies between them with it, if that goes beyond at most
/// five lines and 500 characters on the first side, is at most 20 characters on
/// one line without the white space around it, and the two changes weigh more
/// than 1.3 times what a single large change weighs. Otherwise it stays apart.
pub proof fn heavy_changes_are_joined(t: Text, u: Text, es: Seq<Edit>, next: Edit, n: int, m: int)
    requires
        ordered(es.push(next), n, m),
        es.len() > 0,
    ensures
        pulled(t, u, es).len() > 0,
        ({
            let done = pulled(t, u, es);
            let last = done.last();
            let between = Interval { start: last.a.end, end: next.a.start };
            let text = trim(t.slice(between));
            let near = t.lines_in(between) <= 5 && next.a.start - last.a.end <= 500 && text.len()
                <= 20 && !text.contains('\n');
            let large = 10 * (mass(t, u, last) + mass(t, u, next)) > 13 * power(
                power(130int * 0x1000_0000),
            );
            pulled(t, u, es.push(next)) == (if near && large {
                done.drop_last().push(
                    Edit {
                        a: Interval { start: last.a.start, end: next.a.end },
                        b: Interval { start: last.b.start, end: next.b.end },
                    },
                )
            } else {
                done.push(next)
            })
        }),
{
    let joins = |last: Edit, next: Edit| pulled_together(t, u, last, next);
    let all = es.push(next);
    assert(all.drop_last() =~= es);
    assert forall|k: int| 0 <= k < es.len() implies #[trigger] es[k].within(n, m) by {
        assert(all[k].within(n, m));
    }
    assert forall|i: int, j: int| 0 <= i < j < es.len() implies es[i].a.end <= es[j].a.start
        && es[i].b.end <= es[j].b.start by {
        assert(all[i].a.end <= all[j].a.start && all[i].b.end <= all[j].b.start);
    }
    lemma_join_ordered(es, n, m, joins);
    let done = pulled(t, u, es);
    assert(done[done.len() - 1].within(n, m));
    assert(all[es.len() - 1].a.end <= all[es.len() as int].a.start);
    assert(all[es.len() - 1].b.end <= all[es.len() as int].b.start);
    assert(all[es.len() as int].within(n, m));
}

/// A single change has nothing to be joined with.
pub proof fn a_single_change_stays(t: Text, u: Text, e: Edit)
    ensures
        pulled(t, u, Seq::empty()) == Seq::<Edit>::empty(),
        pulled(t, u, seq![e]) == seq![e],
{
    let joins = |last: Edit, next: Edit| pulled_together(t, u, last, next);
    assert(seq![e].drop_last() =~= Seq::<Edit>::empty());
    assert(join_where(Seq::<Edit>::empty(), joins) =~= Seq::<Edit>::empty());
    assert(pulled(t, u, seq![e]) =~= seq![e]);
}

/// `k` rounds of joining heavy changes.
pub open spec fn rounds(t: Text, u: Text, es: Seq<Edit>, k: nat) -> Seq<Edit>
    decreases k,
{
    if k == 0 {
        es
    } else {
        rounds(t, u, pulled(t, u, es), (k - 1) as nat)
    }
}

proof fn lemma_rounds_stay(t: Text, u: Text, es: Seq<Edit>, k: nat)
    requires
        pulled(t, u, es) == es,
    ensures
        rounds(t, u, es, k) == es,
    decreases k,
{
    if k > 0 {
        lemma_rounds_stay(t, u, es, (k - 1) as nat);
    }
}

proof fn lemma_rounds(t: Text, u: Text, es: Seq<Edit>, k: nat)
    ensures
        pulled_up_to(t, u, es, k as int) == rounds(t, u, es, k),
    decreases k,
{
    if k > 0 {
        let fs = pulled(t, u, es);
        let joins = |last: Edit, next: Edit| pulled_together(t, u, last, next);
        lemma_join_where_len(es, joins);
        if fs.len() < es.len() {
            lemma_rounds(t, u, fs, (k - 1) as nat);
        } else {
            lemma_rounds_stay(t, u, es, (k - 1) as nat);
        }
    }
}

/// Heavy changes are joined in ten rounds, and then stretched. (A round that
/// joins nothing changes nothing, and neither do those after it.)
pub proof fn heavy_changes_are_joined_in_ten_rounds(t: Text, u: Text, es: Seq<Edit>)
    ensures
        without_very_short(t, u, es) == stretched_all(
            t,
            rounds(t, u, es, 10),
            rounds(t, u, es, 10).len() as int,
        ),
{
    lemma_rounds(t, u, es, 10);
}

/// How a change is stretched. `low` is where its first line starts, and `high`
/// where the line starts that follows its last one, or the end of the text. A
/// change of more than 100 elements takes the text before it on its line if that
/// is not empty and no longer than three characters without the white space
/// around it; then, with what it has become, the text after it.
pub proof fn long_changes_take_short_line_ends(t: Text, e: Edit, k: int, high: int)
    requires
        t.wf(),
        e.a.within(t.len()),
        0 <= k < t.starts.len(),
        t.starts[k] <= e.a.start,
        k + 1 < t.starts.len() ==> e.a.start < t.starts[k + 1],
        e.a.end <= high,
        high == t.len() || t.starts.contains(high),
        forall|i: int| 0 <= i < t.starts.len() ==> !(e.a.end <= #[trigger] t.starts[i] < high),
    ensures
        ({
            let low = t.starts[k];
            let size = e.a.end - e.a.start + (e.b.end - e.b.start);
            let before = t.chars.subrange(low, e.a.start);
            let more_before = if before.len() > 0 && trim(before).len() <= 3 && size > 100 {
                e.a.start - low
            } else {
                0
            };
            let after = t.chars.subrange(e.a.end, high);
            let more_after = if after.len() > 0 && trim(after).len() <= 3 && size + 2 * more_before
                > 100 {
                high - e.a.end
            } else {
                0
            };
            stretched(t, e) == Edit {
                a: Interval { start: e.a.start - more_before, end: e.a.end + more_after },
                b: Interval { start: e.b.start - more_before, end: e.b.end + more_after },
            }
        }),
{
    let count = t.starts.len() as int;
    assert forall|j: int| k < j < count implies e.a.start < t.starts[j] by {
        if k + 1 < j {
            assert(t.starts[k + 1] < t.starts[j]);
        }
    }
    lemma_last_start_is(t.starts, e.a.start, count, k);
    lemma_first_start(t.starts, e.a.end, 0);
    let next = first_start(t.starts, e.a.end, 0);
    assert(t.full_lines(e.a).end == high) by {
        if next < count {
            assert(t.starts[next] >= high);
            if t.starts.contains(high) {
                let i = choose|i: int| 0 <= i < count && t.starts[i] == high;
                assert(i >= next);
                if i > next {
                    assert(t.starts[next] < t.starts[i]);
                }
            } else {
                assert(t.starts[next] <= t.len());
            }
        } else if t.starts.contains(high) {
            let i = choose|i: int| 0 <= i < count && t.starts[i] == high;
            assert(t.starts[i] < e.a.end);
        }
    }
}

/// The changes that are shown come about in these steps: they are found with the
/// table if the two texts are shorter than 500 characters together, and with the
/// search for a shortest way otherwise; slid together twice, and each to its best
/// place; widened to whole words; joined across single elements; joined across
/// short text between heavy ones, and stretched.
pub proof fn changes_come_about_in_steps(t: Text, u: Text)
    ensures
        ({
            let a = t.chars;
            let b = u.chars;
            let first = if a.len() + b.len() < 500 {
                dp_edits(a, b)
            } else {
                myers_edits(a, b)
            };
            let once = merge_right(a, b, merge_left(a, b, first));
            let slid = merge_right(a, b, merge_left(a, b, once));
            let placed = place(a, b, slid, slid.len() as int);
            refined(t, u) == without_very_short(t, u, without_short(extended(a, b, placed)))
        }),
{
}

/// How the next change is added when changes are stretched: it keeps clear of
/// what its neighbours covered before they were stretched, and is joined to the
/// last one if it touches that on both sides.
pub proof fn stretched_changes_keep_clear(t: Text, u: Text, es: Seq<Edit>, k: int)
    requires
        t.wf(),
        t.len() <= 0x1fff_ffff_ffff_ffff,
        u.len() <= 0x1fff_ffff_ffff_ffff,
        aligned(t.chars, u.chars, es, t.len(), u.len()),
        0 <= k < es.len(),
    ensures
        stretched_all(t, es, 0) == Seq::<Edit>::empty(),
        ({
            let f = stretched(t, es[k]);
            let next = Edit {
                a: Interval {
                    start: if k > 0 && f.a.start < es[k - 1].a.end {
                        es[k - 1].a.end
                    } else {
                        f.a.start
                    },
                    end: if k + 1 < es.len() && f.a.end > es[k + 1].a.start {
                        es[k + 1].a.start
                    } else {
                        f.a.end
                    },
                },
                b: Interval {
                    start: if k > 0 && f.b.start < es[k - 1].b.end {
                        es[k - 1].b.end
                    } else {
                        f.b.start
                    },
                    end: if k + 1 < es.len() && f.b.end > es[k + 1].b.start {
                        es[k + 1].b.start
                    } else {
                        f.b.end
                    },
                },
            };
            let done = stretched_all(t, es, k);
            stretched_all(t, es, k + 1) == (if done.len() > 0 && done.last().a.end == next.a.start
                && done.last().b.end == next.b.start {
                done.drop_last().push(
                    Edit {
                        a: Interval { start: done.last().a.start, end: next.a.end },
                        b: Interval { start: done.last().b.start, end: next.b.end },
                    },
                )
            } else {
                done.push(next)
            })
        }),
{
    let e = es[k];
    let n = t.len();
    let m = u.len();
    let f = stretched(t, e);
    let r = lemma_clip(t, u, es, k);
    lemma_aligned_at(t.chars, u.chars, es, n, m, k);
    lemma_full_lines(t, e.a);
    if k > 0 {
        lemma_aligned_at(t.chars, u.chars, es, n, m, k - 1);
    }
    if k + 1 < es.len() {
        lemma_aligned_at(t.chars, u.chars, es, n, m, k + 1);
    }
    lemma_stretched_ends(t, u, es, k);
}

/// The last of the stretched changes is in order.
proof fn lemma_stretched_ends(t: Text, u: Text, es: Seq<Edit>, k: int)
    requires
        t.wf(),
        t.len() <= 0x1fff_ffff_ffff_ffff,
        u.len() <= 0x1fff_ffff_ffff_ffff,
        aligned(t.chars, u.chars, es, t.len(), u.len()),
        0 <= k <= es.len(),
    ensures
        stretched_all(t, es, k).len() > 0 ==> ({
            let last = stretched_all(t, es, k).last();
            last.a.start <= last.a.end && last.b.start <= last.b.end
        }),
    decreases k,
{
    if k > 0 {
        lemma_stretched_ends(t, u, es, k - 1);
        let r = lemma_clip(t, u, es, k - 1);
        lemma_aligned_at(t.chars, u.chars, es, t.len(), u.len(), k - 1);
    }
}

} // verus!
