//! The schedule that is to come of the tasks, and what holds of it whatever
//! the tasks are.

use crate::configuration::SchedulingStrategy;
use crate::fits::{is_earliest_fit, is_latest_fit, lemma_earliest_fit, lemma_latest_fit};
use crate::item::Item;
use crate::scheduling::{blocks, horizon, lemma_horizon, strategy_key, Error, Scheduled, Task};
use crate::scheduling::merging::interleaved;
use crate::scheduling::showing::projected;
use crate::scheduling::strategies::{
    backloaded, compacted, leaf_of, lemma_backloaded_ok, lemma_place_of, lemma_settled, moved_to,
    pulled, settled, settles_after, swept, swept_times,
};
use crate::sorting::{
    distinct_keys, lemma_stable_sorted_members, lemma_stable_sorted_order_free, stable_sorted,
    upper_rank,
};
use crate::spans::{rank, Entry, TimeRange};
use crate::time_segment::{covers, within, TimeSegment};
use crate::time_segment::generating::{covered_ranges, lemma_covered_ranges, shows};
use crate::time_segment::inverse::gaps;
use vstd::prelude::*;

verus! {

/// The schedule of the tasks within one segment, or the error of the first
/// task that cannot be placed: the tasks are taken up in the order of the
/// strategy, placed as late as their deadlines and the time that the
/// segment leaves open allow, and then pulled towards `start`, each in its
/// turn by the urgency strategy, sweep after sweep until none moves by the
/// importance strategy.
pub open spec fn planned(
    start: i64,
    tasks: Seq<Task>,
    ranges: Seq<TimeRange>,
    anchor: int,
    period: int,
    strategy: SchedulingStrategy,
) -> Result<Seq<Scheduled>, Error> {
    if tasks.len() == 0 {
        Ok(Seq::empty())
    } else {
        let forbidden = covered_ranges(
            gaps(ranges, anchor, anchor + period),
            period,
            start as int,
            horizon(tasks, i64::MIN as int),
        );
        let sorted = stable_sorted(tasks, strategy_key(strategy, start));
        match backloaded(blocks(forbidden), sorted, start as int, 0) {
            Err(error) => Err(error),
            Ok(late) => Ok(
                projected(
                    match strategy {
                        SchedulingStrategy::Importance => settled(late, sorted, start as int),
                        SchedulingStrategy::Urgency => compacted(
                            late,
                            late,
                            sorted,
                            start as int,
                            0,
                        ),
                    },
                    sorted,
                ),
            ),
        }
    }
}

/// The schedule of the tasks of every segment, merged in the order of the
/// clock into the schedule made so far, or the error of the first segment
/// that fails.
pub open spec fn planned_all<S: TimeSegment>(
    start: i64,
    tasks_per_segment: Seq<(S, Vec<Task>)>,
    strategy: SchedulingStrategy,
    so_far: Seq<Scheduled>,
) -> Result<Seq<Scheduled>, Error>
    decreases tasks_per_segment.len(),
{
    if tasks_per_segment.len() == 0 {
        Ok(so_far)
    } else {
        let (segment, tasks) = tasks_per_segment.first();
        match planned(
            start,
            tasks@,
            segment.spec_ranges(),
            segment.spec_start() as int,
            segment.spec_period() as int,
            strategy,
        ) {
            Err(error) => Err(error),
            Ok(schedule) => planned_all(
                start,
                tasks_per_segment.drop_first(),
                strategy,
                interleaved(so_far, schedule),
            ),
        }
    }
}

/// The same tasks have the same horizon, in whatever order they come.
proof fn lemma_horizon_order_free(a: Seq<Task>, b: Seq<Task>, floor: int)
    requires
        a.to_multiset() == b.to_multiset(),
    ensures
        horizon(a, floor) == horizon(b, floor),
{
    broadcast use vstd::seq_lib::to_multiset_contains;

    lemma_horizon(a, floor);
    lemma_horizon(b, floor);
    if horizon(a, floor) != floor {
        let i = choose|i: int|
            0 <= i < a.len() && (#[trigger] a[i]).deadline == horizon(a, floor);
        assert(a.contains(a[i]));
        assert(b.to_multiset().count(a[i]) > 0);
        assert(b.contains(a[i]));
        let j = choose|j: int| 0 <= j < b.len() && b[j] == a[i];
        assert(b[j].deadline <= horizon(b, floor));
    }
    if horizon(b, floor) != floor {
        let i = choose|i: int|
            0 <= i < b.len() && (#[trigger] b[i]).deadline == horizon(b, floor);
        assert(b.contains(b[i]));
        assert(a.to_multiset().count(b[i]) > 0);
        assert(a.contains(b[i]));
        let j = choose|j: int| 0 <= j < a.len() && a[j] == b[i];
        assert(a[j].deadline <= horizon(a, floor));
    }
}

/// The order in which the tasks are given does not matter to the schedule,
/// where no two of them are alike to the strategy: of the same importance
/// and, to the importance strategy, of the same deadline.
pub proof fn lemma_order_free(
    start: i64,
    tasks: Seq<Task>,
    shuffled: Seq<Task>,
    ranges: Seq<TimeRange>,
    anchor: int,
    period: int,
    strategy: SchedulingStrategy,
)
    requires
        tasks.to_multiset() == shuffled.to_multiset(),
        distinct_keys(tasks, strategy_key(strategy, start)),
    ensures
        planned(start, tasks, ranges, anchor, period, strategy) == planned(
            start,
            shuffled,
            ranges,
            anchor,
            period,
            strategy,
        ),
{
    vstd::seq_lib::to_multiset_len(tasks);
    vstd::seq_lib::to_multiset_len(shuffled);
    lemma_horizon_order_free(tasks, shuffled, i64::MIN as int);
    lemma_stable_sorted_order_free(tasks, shuffled, strategy_key(strategy, start));
}

/// No schedule is made of tasks one of which cannot be done by its
/// deadline even where it begins at `start`.
pub proof fn lemma_late_task_fails(
    start: i64,
    tasks: Seq<Task>,
    ranges: Seq<TimeRange>,
    anchor: int,
    period: int,
    strategy: SchedulingStrategy,
    late: int,
)
    requires
        0 <= late < tasks.len(),
        tasks[late].deadline < start + tasks[late].duration,
    ensures
        planned(start, tasks, ranges, anchor, period, strategy) is Err,
{
    let key = strategy_key(strategy, start);
    let sorted = stable_sorted(tasks, key);
    let forbidden = covered_ranges(
        gaps(ranges, anchor, anchor + period),
        period,
        start as int,
        horizon(tasks, i64::MIN as int),
    );
    lemma_stable_sorted_members(tasks, key);
    assert(sorted.contains(tasks[late]));
    let i = choose|i: int| 0 <= i < sorted.len() && sorted[i] == tasks[late];
    if backloaded(blocks(forbidden), sorted, start as int, 0) is Ok {
        lemma_backloaded_ok(blocks(forbidden), sorted, start as int, 0, i);
    }
}


/// A task on its own, in a segment that covers all time, begins at `start`,
/// whatever the strategy, where it can be done by its deadline.
pub proof fn lemma_single_task(
    start: i64,
    task: Task,
    anchor: i64,
    period: i64,
    strategy: SchedulingStrategy,
)
    requires
        task.duration > 0,
        start + task.duration <= task.deadline,
        period > 0,
        anchor + period <= i64::MAX,
    ensures
        planned(
            start,
            seq![task],
            seq![TimeRange { start: anchor, end: (anchor + period) as i64 }],
            anchor as int,
            period as int,
            strategy,
        ) == Ok::<Seq<Scheduled>, Error>(seq![Scheduled { task, when: start }]),
{
    let tasks = seq![task];
    let ranges = seq![TimeRange { start: anchor, end: (anchor + period) as i64 }];
    let duration = task.duration as int;
    let deadline = task.deadline as int;
    let nothing = Seq::<Entry>::empty();
    // The segment leaves nothing open, so that nothing is blocked.
    let open = gaps(ranges, anchor as int, anchor + period);
    assert(open =~= Seq::<TimeRange>::empty()) by {
        assert(ranges.drop_first() =~= Seq::<TimeRange>::empty());
        assert(gaps(ranges.drop_first(), anchor + period, anchor + period) =~= Seq::<
            TimeRange,
        >::empty());
    }
    let end = horizon(tasks, i64::MIN as int);
    let none = Seq::<TimeRange>::empty();
    assert(shows(none, open, period as int, start as int, end)) by {
        assert forall|t: int| !#[trigger] within(none, t) by {}
        assert forall|t: int| !#[trigger] covers(open, period as int, t) by {}
    }
    lemma_covered_ranges(none, open, period as int, start as int, end);
    assert(blocks(none) =~= nothing);
    // The task alone is in order.
    let key = strategy_key(strategy, start);
    assert(stable_sorted(tasks, key) =~= tasks) by {
        assert(tasks.drop_last() =~= Seq::<Task>::empty());
        assert(stable_sorted(tasks.drop_last(), key) =~= Seq::<Task>::empty());
        assert(upper_rank(Seq::<Task>::empty(), key(task), key) == 0);
        assert(Seq::<Task>::empty().insert(0, task) =~= tasks);
    }
    // It is placed as late as its deadline allows,
    let late_at = deadline - duration;
    assert(is_latest_fit(nothing, late_at, duration, deadline, Some(start)));
    lemma_latest_fit(nothing, late_at, duration, deadline, Some(start));
    let late_leaf = leaf_of(tasks, 0, late_at);
    let late = seq![late_leaf];
    assert(nothing.insert(rank(nothing, late_at), late_leaf) =~= late);
    assert(backloaded(late, tasks, start as int, 1) == Ok::<Seq<Entry>, Error>(late));
    assert(backloaded(nothing, tasks, start as int, 0) == Ok::<Seq<Entry>, Error>(late));
    // and then pulled to the start.
    let leaf = leaf_of(tasks, 0, start as int);
    let pulled_up = seq![leaf];
    assert(is_earliest_fit(nothing, start as int, duration, start as int, Some(task.deadline)));
    lemma_earliest_fit(nothing, start as int, duration, start as int, Some(task.deadline));
    assert(late.remove(0) =~= nothing);
    assert(pulled_up.remove(0) =~= nothing);
    assert(nothing.insert(rank(nothing, start as int), leaf) =~= pulled_up);
    lemma_place_of(late, 0, Item::Task(0));
    lemma_place_of(pulled_up, 0, Item::Task(0));
    assert(moved_to(late, start as int, 0) == start);
    assert(pulled(late, tasks, start as int, 0) == pulled_up);
    assert(is_earliest_fit(
        nothing,
        start as int,
        duration,
        start as int,
        Some((start + duration) as i64),
    ));
    lemma_earliest_fit(
        nothing,
        start as int,
        duration,
        start as int,
        Some((start + duration) as i64),
    );
    assert(moved_to(pulled_up, start as int, 0) == start);
    assert(pulled(pulled_up, tasks, start as int, 0) == pulled_up);
    match strategy {
        SchedulingStrategy::Urgency => {
            assert(compacted(pulled_up, late, tasks, start as int, 1) == pulled_up);
            assert(compacted(late, late, tasks, start as int, 0) == pulled_up);
        },
        SchedulingStrategy::Importance => {
            assert(swept(pulled_up, tasks, start as int, 0) == (pulled_up, false));
            assert(swept(pulled_up, tasks, start as int, 1) == (pulled_up, false));
            if late_at == start {
                assert(late == pulled_up);
                assert(settles_after(late, tasks, start as int, 0));
                lemma_settled(late, tasks, start as int, 0);
            } else {
                assert(swept(late, tasks, start as int, 1) == (pulled_up, true));
                assert(swept_times(late, tasks, start as int, 0) == late);
                assert(swept_times(late, tasks, start as int, 1) == pulled_up);
                assert(settles_after(late, tasks, start as int, 1)) by {
                    assert forall|round: nat| round < 1 implies (#[trigger] swept(
                        swept_times(late, tasks, start as int, round),
                        tasks,
                        start as int,
                        tasks.len() as int,
                    )).1 by {
                        assert(round == 0);
                    }
                }
                lemma_settled(late, tasks, start as int, 1);
            }
        },
    }
    assert(projected(pulled_up, tasks) =~= seq![Scheduled { task, when: start }]) by {
        assert(pulled_up.drop_first() =~= nothing);
        assert(projected(nothing, tasks) =~= Seq::<Scheduled>::empty());
    }
}

} // verus!
