//! The ranges that a segment covers between two instants.

use crate::spans::TimeRange;
use crate::time_segment::{
    apart, covers, holds, in_window, lemma_turn, lemma_turns_add, recurs, segment_wf, within,
};
use crate::time_segment::inverse::lemma_drop_first_window;
use crate::time_segment::moving::{aligned, lemma_moved_ranges, ranges_with_start};
use vstd::prelude::*;

verus! {

/// The ranges show what a segment covers between `start` and `end`: in
/// order, none touching another, and covering exactly the time that the
/// segment's ranges cover there as they recur.
pub open spec fn shows(
    all: Seq<TimeRange>,
    ranges: Seq<TimeRange>,
    period: int,
    start: int,
    end: int,
) -> bool {
    &&& in_window(all, start, end)
    &&& apart(all)
    &&& forall|t: int| #[trigger] within(all, t) <==> start <= t < end && covers(ranges, period, t)
}

/// The ranges, in order and none touching another, that cover between
/// `start` and `end` what the ranges of a segment cover as they recur.
pub open spec fn covered_ranges(ranges: Seq<TimeRange>, period: int, start: int, end: int) -> Seq<
    TimeRange,
> {
    choose|all: Seq<TimeRange>| shows(all, ranges, period, start, end)
}

/// Ranges in order, none touching another, are known by the time they cover.
#[verifier::rlimit(40)]
pub proof fn lemma_same_cover(a: Seq<TimeRange>, b: Seq<TimeRange>, from: int, to: int)
    requires
        in_window(a, from, to),
        apart(a),
        in_window(b, from, to),
        apart(b),
        forall|t: int| #[trigger] within(a, t) <==> within(b, t),
    ensures
        a == b,
    decreases a.len(),
{
    if a.len() == 0 {
        if b.len() > 0 {
            assert(holds(b[0], b[0].start as int));
            assert(within(b, b[0].start as int));
            assert(!within(a, b[0].start as int));
        }
        assert(a =~= b);
    } else {
        assert(holds(a[0], a[0].start as int));
        assert(within(a, a[0].start as int));
        assert(within(b, a[0].start as int));
        let bj = choose|j: int| 0 <= j < b.len() && holds(#[trigger] b[j], a[0].start as int);
        assert(holds(b[0], b[0].start as int));
        assert(within(a, b[0].start as int));
        let aj = choose|j: int| 0 <= j < a.len() && holds(#[trigger] a[j], b[0].start as int);
        if bj > 0 {
            assert(b[0].end <= b[bj].start);
        }
        if aj > 0 {
            assert(a[0].end <= a[aj].start);
        }
        assert(a[0].start == b[0].start);
        if a[0].end < b[0].end {
            assert(holds(b[0], a[0].end as int));
            assert(within(a, a[0].end as int));
            let k = choose|k: int| 0 <= k < a.len() && holds(#[trigger] a[k], a[0].end as int);
            assert(a[0].end < a[k].start);
        }
        if b[0].end < a[0].end {
            assert(holds(a[0], b[0].end as int));
            assert(within(a, b[0].end as int));
            assert(within(b, b[0].end as int));
            let k = choose|k: int| 0 <= k < b.len() && holds(#[trigger] b[k], b[0].end as int);
            assert(b[0].end < b[k].start);
        }
        assert(a[0] == b[0]);
        let ar = a.drop_first();
        let br = b.drop_first();
        lemma_drop_first_window(a, from, to);
        lemma_drop_first_window(b, from, to);
        assert forall|t: int| #[trigger] within(ar, t) <==> within(br, t) by {
            if within(ar, t) {
                let k = choose|k: int| 0 <= k < ar.len() && holds(#[trigger] ar[k], t);
                assert(ar[k] == a[k + 1]);
                assert(holds(a[k + 1], t));
                assert(a[0].end < a[k + 1].start);
                assert(within(a, t));
                assert(within(b, t));
                let l = choose|l: int| 0 <= l < b.len() && holds(#[trigger] b[l], t);
                assert(br[l - 1] == b[l]);
                assert(holds(br[l - 1], t));
            }
            if within(br, t) {
                let k = choose|k: int| 0 <= k < br.len() && holds(#[trigger] br[k], t);
                assert(br[k] == b[k + 1]);
                assert(holds(b[k + 1], t));
                assert(b[0].end < b[k + 1].start);
                assert(within(a, t));
                let l = choose|l: int| 0 <= l < a.len() && holds(#[trigger] a[l], t);
                assert(ar[l - 1] == a[l]);
                assert(holds(ar[l - 1], t));
            }
        }
        lemma_same_cover(ar, br, a[0].end as int, to);
        assert(a =~= seq![a[0]] + ar);
        assert(b =~= seq![b[0]] + br);
    }
}

/// What shows the cover of a segment is what `covered_ranges` names.
pub proof fn lemma_covered_ranges(
    all: Seq<TimeRange>,
    ranges: Seq<TimeRange>,
    period: int,
    start: int,
    end: int,
)
    requires
        shows(all, ranges, period, start, end),
    ensures
        all == covered_ranges(ranges, period, start, end),
{
    let chosen = covered_ranges(ranges, period, start, end);
    assert(shows(chosen, ranges, period, start, end));
    lemma_same_cover(all, chosen, start, end);
}

/// The instant `t` lies in one of the ranges as it recurs in one of the
/// first `turn` periods, or in one of the first `count` ranges as it recurs
/// in the period after those.
pub open spec fn unrolled(ranges: Seq<TimeRange>, period: int, turn: int, count: int, t: int) -> bool {
    exists|i: int, on: int|
        0 <= i < ranges.len() && 0 <= on && (on < turn || (on == turn && i < count))
            && #[trigger] recurs(ranges[i], on, period, t)
}

/// An instant lies in the ranges and one more where it lies in the ranges or in that one.
proof fn lemma_within_push(ranges: Seq<TimeRange>, range: TimeRange, t: int)
    ensures
        within(ranges.push(range), t) <==> within(ranges, t) || holds(range, t),
{
    let all = ranges.push(range);
    if within(all, t) {
        let i = choose|i: int| 0 <= i < all.len() && holds(#[trigger] all[i], t);
        if i < ranges.len() {
            assert(all[i] == ranges[i]);
            assert(holds(ranges[i], t));
        }
    }
    if within(ranges, t) {
        let i = choose|i: int| 0 <= i < ranges.len() && holds(#[trigger] ranges[i], t);
        assert(all[i] == ranges[i]);
        assert(holds(all[i], t));
    }
    if holds(range, t) {
        assert(all[ranges.len() as int] == range);
        assert(holds(all[ranges.len() as int], t));
    }
}

/// What has been unrolled up to a range and the range as it recurs make up
/// what has been unrolled up to the next range.
proof fn lemma_unrolled_next(ranges: Seq<TimeRange>, period: int, turn: int, count: int, t: int)
    requires
        0 <= count < ranges.len(),
        0 <= turn,
    ensures
        unrolled(ranges, period, turn, count + 1, t) <==> unrolled(ranges, period, turn, count, t)
            || recurs(ranges[count], turn, period, t),
{
    if unrolled(ranges, period, turn, count + 1, t) {
        let (i, on) = choose|i: int, on: int|
            0 <= i < ranges.len() && 0 <= on && (on < turn || (on == turn && i < count + 1))
                && #[trigger] recurs(ranges[i], on, period, t);
        if !(on == turn && i == count) {
            assert(unrolled(ranges, period, turn, count, t));
        }
    }
    if unrolled(ranges, period, turn, count, t) {
        let (i, on) = choose|i: int, on: int|
            0 <= i < ranges.len() && 0 <= on && (on < turn || (on == turn && i < count))
                && #[trigger] recurs(ranges[i], on, period, t);
        assert(recurs(ranges[i], on, period, t));
    }
}

/// Before an instant that no later range reaches, what has been unrolled
/// is what the ranges cover from `start` on.
proof fn lemma_unrolled_all(
    ranges: Seq<TimeRange>,
    start: int,
    period: int,
    turn: int,
    count: int,
    end: int,
    t: int,
)
    requires
        segment_wf(ranges, start, period),
        0 <= turn,
        0 <= count <= ranges.len(),
        t < end,
        count < ranges.len() ==> end <= ranges[count].start + turn * period,
        count == ranges.len() ==> end <= start + (turn + 1) * period,
    ensures
        unrolled(ranges, period, turn, count, t) <==> start <= t && covers(ranges, period, t),
{
    if unrolled(ranges, period, turn, count, t) {
        let (i, on) = choose|i: int, on: int|
            0 <= i < ranges.len() && 0 <= on && (on < turn || (on == turn && i < count))
                && #[trigger] recurs(ranges[i], on, period, t);
        assert(on * period >= 0) by (nonlinear_arith)
            requires
                on >= 0,
                period > 0,
        ;
    }
    if start <= t && covers(ranges, period, t) {
        let (i, on) = choose|i: int, on: int|
            0 <= i < ranges.len() && #[trigger] recurs(ranges[i], on, period, t);
        lemma_turn(on, period);
        lemma_turns_add(on, turn, period);
        lemma_turn(on - turn, period);
        lemma_turns_add(turn, 1, period);
        lemma_turn(1, period);
        if on > turn {
        } else if on == turn && i >= count {
            if count < ranges.len() && i > count {
                assert(ranges[count].end <= ranges[i].start);
            }
        } else {
            assert(0 <= on);
        }
    }
}

/// What has been unrolled at the end of a period has been unrolled at the
/// beginning of the next.
proof fn lemma_unrolled_period(ranges: Seq<TimeRange>, period: int, turn: int, t: int)
    requires
        0 <= turn,
    ensures
        unrolled(ranges, period, turn, ranges.len() as int, t) <==> unrolled(
            ranges,
            period,
            turn + 1,
            0,
            t,
        ),
{
    if unrolled(ranges, period, turn, ranges.len() as int, t) {
        let (i, on) = choose|i: int, on: int|
            0 <= i < ranges.len() && 0 <= on && (on < turn || (on == turn && i < ranges.len()))
                && #[trigger] recurs(ranges[i], on, period, t);
        assert(recurs(ranges[i], on, period, t));
    }
    if unrolled(ranges, period, turn + 1, 0, t) {
        let (i, on) = choose|i: int, on: int|
            0 <= i < ranges.len() && 0 <= on && (on < turn + 1 || (on == turn + 1 && i < 0))
                && #[trigger] recurs(ranges[i], on, period, t);
        assert(recurs(ranges[i], on, period, t));
    }
}

/// Generates all the time ranges that a segment covers between the given
/// start and end time: the ranges, in order and none touching another, that
/// cover exactly the time the segment covers there.
#[verifier::rlimit(40)]
pub fn generated_ranges(
    ranges: &Vec<TimeRange>,
    anchor: i64,
    period: i64,
    start: i64,
    end: i64,
) -> (all: Vec<TimeRange>)
    requires
        segment_wf(ranges@, anchor as int, period as int),
        start + period <= i64::MAX,
    ensures
        shows(all@, ranges@, period as int, start as int, end as int),
        all@ == covered_ranges(ranges@, period as int, start as int, end as int),
{
    let aligned = ranges_with_start(ranges, period, start);
    proof {
        lemma_moved_ranges(ranges@, anchor as int, start as int, period as int);
    }
    let mut all: Vec<TimeRange> = Vec::new();
    let mut period_start: i128 = start as i128;
    let ghost mut turn: int = 0;
    proof {
        lemma_turn(0, period as int);
        assert forall|t: int| #[trigger] within(all@, t) <==> t < end && unrolled(
            aligned@,
            period as int,
            0,
            0,
            t,
        ) by {}
    }
    while period_start < end as i128
        invariant
            segment_wf(aligned@, start as int, period as int),
            0 <= turn,
            period_start == start + turn * period,
            in_window(all@, start as int, end as int),
            apart(all@),
            all.len() > 0 ==> all@.last().end <= period_start,
            forall|t: int|
                #[trigger] within(all@, t) <==> t < end && unrolled(
                    aligned@,
                    period as int,
                    turn,
                    0,
                    t,
                ),
        decreases
                (if period_start < end {
                    end - period_start
                } else {
                    0
                }),
    {
        let offset: i128 = period_start - start as i128;
        let mut i: usize = 0;
        let mut stopped = false;
        proof {
            lemma_turns_add(turn, 1, period as int);
            lemma_turn(1, period as int);
        }
        while i < aligned.len() && !stopped
            invariant
                0 <= i <= aligned.len(),
                segment_wf(aligned@, start as int, period as int),
                0 <= turn,
                0 <= offset == turn * period,
                start + offset < end,
                in_window(all@, start as int, end as int),
                apart(all@),
                all.len() > 0 ==> all@.last().end <= (if i < aligned.len() {
                    aligned[i as int].start + offset
                } else {
                    start + offset + period
                }),
                stopped ==> i < aligned.len() && end <= aligned[i as int].start + offset,
                forall|t: int|
                    #[trigger] within(all@, t) <==> t < end && unrolled(
                        aligned@,
                        period as int,
                        turn,
                        i as int,
                        t,
                    ),
            decreases
                    aligned.len() - i,
                    (if stopped {
                        0int
                    } else {
                        1int
                    }),
        {
            let range = aligned[i];
            let range_start: i128 = range.start as i128 + offset;
            let range_end: i128 = range.end as i128 + offset;
            if range_start >= end as i128 {
                stopped = true;
            } else {
                let upto: i64 = if range_end > end as i128 {
                    end
                } else {
                    range_end as i64
                };
                let ghost before = all@;
                let piece = TimeRange { start: range_start as i64, end: upto };
                // A range that begins where the last one ends is joined to it.
                let mut added = false;
                let count = all.len();
                if count > 0 {
                    let last = all[count - 1];
                    if last.end as i128 == range_start {
                        let merged = TimeRange { start: last.start, end: upto };
                        all.pop();
                        all.push(merged);
                        added = true;
                        proof {
                            let front = before.drop_last();
                            assert(before =~= front.push(last));
                            assert forall|t: int| #[trigger]
                                within(all@, t) <==> within(before, t) || holds(piece, t) by {
                                lemma_within_push(front, last, t);
                                lemma_within_push(front, merged, t);
                            }
                            assert forall|k: int| 0 <= k < all.len() implies start <= (
                            #[trigger] all@[k]).start < all@[k].end <= end by {
                                if k < count - 1 {
                                    assert(all@[k] == before[k]);
                                }
                            }
                            assert forall|k: int, l: int| 0 <= k < l < all.len() implies (
                            #[trigger] all@[k]).end < (#[trigger] all@[l]).start by {
                                assert(all@[k] == before[k]);
                                if l < count - 1 {
                                    assert(all@[l] == before[l]);
                                } else {
                                    assert(before[k].end < before[l].start);
                                }
                            }
                        }
                    }
                }
                if !added {
                    all.push(piece);
                    proof {
                        assert forall|t: int| #[trigger]
                            within(all@, t) <==> within(before, t) || holds(piece, t) by {
                            lemma_within_push(before, piece, t);
                        }
                        assert forall|k: int| 0 <= k < all.len() implies start <= (
                        #[trigger] all@[k]).start < all@[k].end <= end by {
                            if k < count {
                                assert(all@[k] == before[k]);
                            }
                        }
                        assert forall|k: int, l: int| 0 <= k < l < all.len() implies (
                        #[trigger] all@[k]).end < (#[trigger] all@[l]).start by {
                            assert(all@[k] == before[k]);
                            if l < count {
                                assert(all@[l] == before[l]);
                            } else if k < count - 1 {
                                assert(before[k].end < before[count - 1].start);
                            }
                        }
                    }
                }
                proof {
                    assert forall|t: int| #[trigger]
                        within(all@, t) <==> t < end && unrolled(
                            aligned@,
                            period as int,
                            turn,
                            i + 1,
                            t,
                        ) by {
                        lemma_unrolled_next(aligned@, period as int, turn, i as int, t);
                        assert(within(all@, t) <==> within(before, t) || holds(piece, t));
                    }
                    if i + 1 < aligned.len() {
                        assert(aligned@[i as int].end <= aligned@[i + 1].start);
                    }
                }
                i += 1;
            }
        }
        proof {
            assert forall|t: int| #[trigger]
                within(all@, t) <==> t < end && unrolled(
                    aligned@,
                    period as int,
                    turn + 1,
                    0,
                    t,
                ) by {
                if t < end {
                    lemma_unrolled_period(aligned@, period as int, turn + 1, t);
                    lemma_unrolled_period(aligned@, period as int, turn, t);
                    if i < aligned.len() {
                        lemma_unrolled_all(
                            aligned@,
                            start as int,
                            period as int,
                            turn,
                            i as int,
                            end as int,
                            t,
                        );
                        lemma_turns_add(turn + 1, 1, period as int);
                        lemma_unrolled_all(
                            aligned@,
                            start as int,
                            period as int,
                            turn + 1,
                            aligned.len() as int,
                            end as int,
                            t,
                        );
                        lemma_unrolled_period(aligned@, period as int, turn + 1, t);
                        lemma_unrolled_all(
                            aligned@,
                            start as int,
                            period as int,
                            turn + 1,
                            0,
                            end as int,
                            t,
                        );
                    }
                }
            }
        }
        period_start = period_start + period as i128;
        proof {
            turn = turn + 1;
        }
    }
    proof {
        assert forall|t: int| #[trigger]
            within(all@, t) <==> start <= t < end && covers(ranges@, period as int, t) by {
            if t < end {
                lemma_turns_add(turn, 1, period as int);
                lemma_turn(1, period as int);
                if aligned.len() > 0 {
                    assert(start <= aligned@[0].start);
                }
                if turn > 0 {
                    lemma_unrolled_period(aligned@, period as int, turn - 1, t);
                    lemma_unrolled_all(
                        aligned@,
                        start as int,
                        period as int,
                        turn - 1,
                        aligned.len() as int,
                        end as int,
                        t,
                    );
                } else {
                    lemma_unrolled_all(
                        aligned@,
                        start as int,
                        period as int,
                        0,
                        0,
                        end as int,
                        t,
                    );
                }
                assert(covers(aligned@, period as int, t) <==> covers(
                    ranges@,
                    period as int,
                    t,
                ));
            }
        }
        lemma_covered_ranges(all@, ranges@, period as int, start as int, end as int);
    }
    all
}

} // verus!
