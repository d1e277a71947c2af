//! The time that a segment leaves open.

use crate::spans::TimeRange;
use crate::time_segment::{
    apart, covers, holds, in_window, lemma_turn, lemma_turns_add, recurs, segment_wf, turns, within,
};
use vstd::arithmetic::div_mod::{lemma_fundamental_div_mod, lemma_mod_bound};
use vstd::prelude::*;

verus! {

/// The spans between `from` and `to` that the ranges leave open.
pub open spec fn gaps(ranges: Seq<TimeRange>, from: int, to: int) -> Seq<TimeRange>
    decreases ranges.len(),
{
    if ranges.len() == 0 {
        if from < to {
            seq![TimeRange { start: from as i64, end: to as i64 }]
        } else {
            Seq::empty()
        }
    } else {
        let rest = gaps(ranges.drop_first(), ranges.first().end as int, to);
        if from < ranges.first().start {
            seq![TimeRange { start: from as i64, end: ranges.first().start }] + rest
        } else {
            rest
        }
    }
}

/// The ranges after the first lie in what is left of the window after it.
pub proof fn lemma_drop_first_window(ranges: Seq<TimeRange>, from: int, to: int)
    requires
        in_window(ranges, from, to),
        ranges.len() > 0,
    ensures
        in_window(ranges.drop_first(), ranges.first().end as int, to),
        apart(ranges) ==> apart(ranges.drop_first()) && (ranges.len() > 1
            ==> ranges.first().end < ranges[1].start),
{
    let rest = ranges.drop_first();
    assert forall|i: int| 0 <= i < rest.len() implies ranges.first().end <= (
    #[trigger] rest[i]).start < rest[i].end <= to by {
        assert(rest[i] == ranges[i + 1]);
        assert(ranges[0].end <= ranges[i + 1].start);
    }
    assert forall|i: int, j: int| 0 <= i < j < rest.len() implies (#[trigger] rest[i]).end <= (
    #[trigger] rest[j]).start by {
        assert(rest[i] == ranges[i + 1]);
        assert(rest[j] == ranges[j + 1]);
    }
    if apart(ranges) {
        assert forall|i: int, j: int| 0 <= i < j < rest.len() implies (#[trigger] rest[i]).end < (
        #[trigger] rest[j]).start by {
            assert(rest[i] == ranges[i + 1]);
            assert(rest[j] == ranges[j + 1]);
        }
        if ranges.len() > 1 {
            assert(ranges[0].end < ranges[1].start);
        }
    }
}

/// The gaps lie in the same window, no two of them touch, and between
/// `from` and `to` an instant lies in a gap exactly where it lies in no range.
pub proof fn lemma_gaps(ranges: Seq<TimeRange>, from: int, to: int)
    requires
        in_window(ranges, from, to),
        i64::MIN <= from <= to <= i64::MAX,
    ensures
        in_window(gaps(ranges, from, to), from, to),
        apart(gaps(ranges, from, to)),
        forall|t: int|
            from <= t < to ==> (#[trigger] within(gaps(ranges, from, to), t) <==> !within(
                ranges,
                t,
            )),
        ranges.len() > 0 ==> forall|i: int|
            0 <= i < gaps(ranges, from, to).len() ==> (#[trigger] gaps(ranges, from, to)[i]).end
                <= ranges.first().start || ranges.first().end <= gaps(ranges, from, to)[i].start,
    decreases ranges.len(),
{
    let all = gaps(ranges, from, to);
    if ranges.len() == 0 {
        assert forall|t: int| from <= t < to implies (#[trigger] within(all, t) <==> !within(
            ranges,
            t,
        )) by {
            assert(holds(all[0], t));
        }
    } else {
        let first = ranges.first();
        let rest = ranges.drop_first();
        let tail = gaps(rest, first.end as int, to);
        lemma_drop_first_window(ranges, from, to);
        lemma_gaps(rest, first.end as int, to);
        let head = TimeRange { start: from as i64, end: first.start };
        if from < first.start {
            assert(all == seq![head] + tail);
            assert forall|i: int| 0 <= i < all.len() implies from <= (#[trigger] all[i]).start
                < all[i].end <= to by {
                if i > 0 {
                    assert(all[i] == tail[i - 1]);
                }
            }
            assert forall|i: int, j: int| 0 <= i < j < all.len() implies (#[trigger] all[i]).end < (
            #[trigger] all[j]).start by {
                assert(all[j] == tail[j - 1]);
                if i > 0 {
                    assert(all[i] == tail[i - 1]);
                }
            }
        } else {
            assert(all == tail);
        }
        assert forall|i: int| 0 <= i < all.len() implies (#[trigger] all[i]).end <= first.start
            || first.end <= all[i].start by {
            if from < first.start {
                if i > 0 {
                    assert(all[i] == tail[i - 1]);
                }
            }
        }
        assert forall|t: int| from <= t < to implies (#[trigger] within(all, t) <==> !within(
            ranges,
            t,
        )) by {
            if within(ranges, t) {
                let i = choose|i: int| 0 <= i < ranges.len() && holds(#[trigger] ranges[i], t);
                if i > 0 {
                    assert(rest[i - 1] == ranges[i]);
                    assert(holds(rest[i - 1], t));
                    assert(within(rest, t));
                }
            }
            if within(rest, t) {
                let i = choose|i: int| 0 <= i < rest.len() && holds(#[trigger] rest[i], t);
                assert(rest[i] == ranges[i + 1]);
                assert(holds(ranges[i + 1], t));
            }
            if within(all, t) {
                let i = choose|i: int| 0 <= i < all.len() && holds(#[trigger] all[i], t);
                if from < first.start {
                    if i > 0 {
                        assert(all[i] == tail[i - 1]);
                        assert(holds(tail[i - 1], t));
                    }
                }
            }
            if within(tail, t) {
                let i = choose|i: int| 0 <= i < tail.len() && holds(#[trigger] tail[i], t);
                if from < first.start {
                    assert(all[i + 1] == tail[i]);
                    assert(holds(all[i + 1], t));
                } else {
                    assert(holds(all[i], t));
                }
            }
            if t < first.start {
                assert(from < first.start);
                assert(holds(all[0], t));
                assert(!within(ranges, t)) by {
                    if within(ranges, t) {
                        let i = choose|i: int|
                            0 <= i < ranges.len() && holds(#[trigger] ranges[i], t);
                        assert(ranges[0].start <= ranges[i].start);
                    }
                }
            } else if t < first.end {
                assert(holds(ranges[0], t));
            } else {
                assert(!holds(ranges[0], t));
            }
        }
    }
}

/// The gaps that the gaps after a range leave open from the start of that
/// range on are the range and the ranges after it.
proof fn lemma_gaps_after(first: TimeRange, rest: Seq<TimeRange>, to: int)
    requires
        first.start < first.end <= to <= i64::MAX,
        in_window(rest, first.end as int, to),
        apart(rest),
        rest.len() > 0 ==> first.end < rest.first().start,
    ensures
        gaps(gaps(rest, first.end as int, to), first.start as int, to) == seq![first] + rest,
    decreases rest.len(),
{
    let open = gaps(rest, first.end as int, to);
    if rest.len() == 0 {
        if first.end < to {
            let only = TimeRange { start: first.end, end: to as i64 };
            assert(open == seq![only]);
            assert(open.drop_first() =~= Seq::<TimeRange>::empty());
            assert(gaps(open.drop_first(), to, to) =~= Seq::<TimeRange>::empty());
            assert(gaps(open, first.start as int, to) =~= seq![first]);
        }
        assert(seq![first] + rest =~= seq![first]);
    } else {
        let next = rest.first();
        let others = rest.drop_first();
        let head = TimeRange { start: first.end, end: next.start };
        let tail = gaps(others, next.end as int, to);
        lemma_drop_first_window(rest, first.end as int, to);
        assert(open == seq![head] + tail);
        assert(open.first() == head);
        assert(open.drop_first() =~= tail);
        lemma_gaps_after(next, others, to);
        assert(gaps(open, first.start as int, to) == seq![first] + gaps(
            tail,
            next.start as int,
            to,
        ));
        assert(seq![first] + (seq![next] + others) =~= seq![first] + rest);
    }
}

/// The inverse of the inverse: where no two of the ranges touch, the gaps
/// that their gaps leave open are the ranges themselves.
pub proof fn lemma_gaps_of_gaps(ranges: Seq<TimeRange>, from: int, to: int)
    requires
        in_window(ranges, from, to),
        apart(ranges),
        i64::MIN <= from <= to <= i64::MAX,
    ensures
        gaps(gaps(ranges, from, to), from, to) == ranges,
{
    let open = gaps(ranges, from, to);
    if ranges.len() == 0 {
        if from < to {
            assert(open.drop_first() =~= Seq::<TimeRange>::empty());
            assert(gaps(open.drop_first(), to, to) =~= Seq::<TimeRange>::empty());
        }
        assert(gaps(open, from, to) =~= ranges);
    } else {
        let first = ranges.first();
        let rest = ranges.drop_first();
        lemma_drop_first_window(ranges, from, to);
        lemma_gaps_after(first, rest, to);
        let tail = gaps(rest, first.end as int, to);
        if from < first.start {
            let head = TimeRange { start: from as i64, end: first.start };
            assert(open == seq![head] + tail);
            assert(open.drop_first() =~= tail);
        }
        assert(seq![first] + rest =~= ranges);
    }
}

/// The ranges that cover what the given ranges leave open of the period
/// that begins at `start`.
pub fn inverse_ranges(ranges: &Vec<TimeRange>, start: i64, period: i64) -> (inverse: Vec<TimeRange>)
    requires
        segment_wf(ranges@, start as int, period as int),
    ensures
        inverse@ == gaps(ranges@, start as int, start + period),
{
    let end = start + period;
    let mut inverse: Vec<TimeRange> = Vec::new();
    let mut cursor = start;
    let mut i: usize = 0;
    proof {
        assert(ranges@.subrange(0, ranges@.len() as int) =~= ranges@);
    }
    while i < ranges.len()
        invariant
            0 <= i <= ranges.len(),
            end == start + period,
            segment_wf(ranges@, start as int, period as int),
            start <= cursor <= end,
            i < ranges.len() ==> cursor <= ranges[i as int].start,
            inverse@ + gaps(ranges@.subrange(i as int, ranges@.len() as int), cursor as int, end as int)
                == gaps(ranges@, start as int, end as int),
        decreases ranges.len() - i,
    {
        let range = ranges[i];
        let ghost rest = ranges@.subrange(i as int, ranges@.len() as int);
        proof {
            assert(rest.first() == ranges@[i as int]);
            assert(rest.drop_first() =~= ranges@.subrange(i + 1, ranges@.len() as int));
            if i + 1 < ranges.len() {
                assert(ranges@[i as int].end <= ranges@[i + 1].start);
            }
        }
        if cursor < range.start {
            let ghost before = inverse@;
            inverse.push(TimeRange { start: cursor, end: range.start });
            proof {
                let head = TimeRange { start: cursor, end: range.start };
                let tail = gaps(rest.drop_first(), range.end as int, end as int);
                assert(before.push(head) + tail =~= before + (seq![head] + tail));
            }
        }
        cursor = range.end;
        i += 1;
    }
    proof {
        assert(ranges@.subrange(i as int, ranges@.len() as int) =~= Seq::<TimeRange>::empty());
    }
    if cursor < end {
        let ghost before = inverse@;
        inverse.push(TimeRange { start: cursor, end });
        proof {
            assert(before.push(TimeRange { start: cursor, end }) =~= before + seq![
                TimeRange { start: cursor, end },
            ]);
        }
    } else {
        proof {
            assert(inverse@ + Seq::<TimeRange>::empty() =~= inverse@);
        }
    }
    inverse
}

/// As they recur, the gaps cover exactly the time that the ranges leave open.
pub proof fn lemma_inverse_covers(ranges: Seq<TimeRange>, start: int, period: int)
    requires
        segment_wf(ranges, start, period),
        i64::MIN <= start,
    ensures
        forall|t: int|
            #[trigger] covers(gaps(ranges, start, start + period), period, t) <==> !covers(
                ranges,
                period,
                t,
            ),
{
    let open = gaps(ranges, start, start + period);
    lemma_gaps(ranges, start, start + period);
    assert forall|t: int| #[trigger] covers(open, period, t) <==> !covers(ranges, period, t) by {
        let on = turns(t, start, period);
        let home = t - on * period;
        lemma_mod_bound(t - start, period);
        lemma_fundamental_div_mod(t - start, period);
        assert(period * on == on * period) by (nonlinear_arith);
        assert(start <= home < start + period);
        if covers(open, period, t) {
            let (i, turn) = choose|i: int, turn: int|
                0 <= i < open.len() && #[trigger] recurs(open[i], turn, period, t);
            lemma_turns_add(turn, on, period);
            lemma_turn(turn - on, period);
            assert(holds(open[i], home));
            assert(within(open, home));
        }
        if covers(ranges, period, t) {
            let (i, turn) = choose|i: int, turn: int|
                0 <= i < ranges.len() && #[trigger] recurs(ranges[i], turn, period, t);
            lemma_turns_add(turn, on, period);
            lemma_turn(turn - on, period);
            assert(holds(ranges[i], home));
            assert(within(ranges, home));
        }
        if within(open, home) {
            let i = choose|i: int| 0 <= i < open.len() && holds(#[trigger] open[i], home);
            assert(recurs(open[i], on, period, t));
        }
        if within(ranges, home) {
            let i = choose|i: int| 0 <= i < ranges.len() && holds(#[trigger] ranges[i], home);
            assert(recurs(ranges[i], on, period, t));
        }
    }
}

} // verus!
