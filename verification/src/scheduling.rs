//! Making a schedule: the tasks of each time segment are placed in a
//! schedule tree in which the time that the segment leaves open is blocked,
//! and the schedules of the segments are merged.

use crate::configuration::SchedulingStrategy;
use crate::item::Item;
use crate::schedule_tree::ScheduleTree;
use crate::scheduling::merging::{interleaved, lemma_interleaved, merge_schedules};
use crate::scheduling::planning::{planned, planned_all};
use crate::scheduling::showing::{has_leaf, known, lemma_shown, projected};
use crate::scheduling::strategies::{
    all_scheduled, lemma_backloaded_error, order_key, same_blocks, schedule_according_to_importance,
    schedule_according_to_myrjam, tense_of, valid_tasks,
};
use crate::sorting::{lemma_stable_sorted, lemma_stable_sorted_members};
use crate::spans::{lemma_rank_all_before, Entry, TimeRange};
use crate::time_segment::{covers, holds, in_window, is_valid, valid, within, TimeSegment};
use vstd::prelude::*;

pub mod merging;
pub mod planning;
pub mod showing;
pub mod strategies;

verus! {

/// A unit of work to be done by a deadline.
#[derive(Debug, PartialEq, Eq, Hash)]
pub struct Task {
    pub id: u32,
    pub content: String,
    pub deadline: i64,
    pub duration: i64,
    pub importance: u32,
    pub time_segment_id: u32,
}

impl Clone for Task {
    fn clone(&self) -> (copy: Self)
        ensures
            copy == *self,
    {
        Task {
            id: self.id,
            content: self.content.clone(),
            deadline: self.deadline,
            duration: self.duration,
            importance: self.importance,
            time_segment_id: self.time_segment_id,
        }
    }
}

/// Why no schedule could be made.
#[derive(Debug)]
pub enum Error {
    /// The task cannot be done by its deadline, whatever else is scheduled.
    DeadlineMissed { task: Task, tense: &'static str },
    /// There is no room left for the task before its deadline.
    NotEnoughTime { task: Task },
    /// The schedule tree did not behave as it should.
    Internal(&'static str),
}

/// A task with the instant at which it is to begin.
#[derive(Debug, PartialEq)]
pub struct Scheduled {
    pub task: Task,
    pub when: i64,
}

/// Tasks in the order of the instants at which they are to begin.
#[derive(Debug)]
pub struct Schedule(pub Vec<Scheduled>);

impl Default for Schedule {
    fn default() -> (schedule: Self)
        ensures
            schedule.0@ == Seq::<Scheduled>::empty(),
    {
        Schedule(Vec::new())
    }
}

/// Each task begins no sooner than `start` and ends by its deadline.
pub open spec fn on_time(schedule: Seq<Scheduled>, start: int) -> bool {
    forall|i: int|
        0 <= i < schedule.len() ==> start <= (#[trigger] schedule[i]).when && schedule[i].when
            + schedule[i].task.duration <= schedule[i].task.deadline
}

/// Each task ends before the next one begins.
pub open spec fn one_at_a_time(schedule: Seq<Scheduled>) -> bool {
    forall|i: int, j: int|
        0 <= i < j < schedule.len() ==> (#[trigger] schedule[i]).when + schedule[i].task.duration
            <= (#[trigger] schedule[j]).when
}

/// Each task begins later than the one before.
pub open spec fn ascending(schedule: Seq<Scheduled>) -> bool {
    forall|i: int, j: int|
        0 <= i < j < schedule.len() ==> (#[trigger] schedule[i]).when < (
        #[trigger] schedule[j]).when
}

/// The tasks come in the order of the instants at which they begin.
pub open spec fn chronological(schedule: Seq<Scheduled>) -> bool {
    forall|i: int, j: int|
        0 <= i < j < schedule.len() ==> (#[trigger] schedule[i]).when <= (
        #[trigger] schedule[j]).when
}

/// The tasks of a schedule.
pub open spec fn tasks_of(schedule: Seq<Scheduled>) -> Seq<Task> {
    Seq::new(schedule.len(), |i: int| schedule[i].task)
}

/// The latest deadline of the tasks, or `floor` where there is none later.
pub open spec fn horizon(tasks: Seq<Task>, floor: int) -> int
    decreases tasks.len(),
{
    if tasks.len() == 0 {
        floor
    } else {
        let before = horizon(tasks.drop_last(), floor);
        if tasks.last().deadline > before {
            tasks.last().deadline as int
        } else {
            before
        }
    }
}

/// Every instant at which a task is at work lies between `start` and `end`
/// in the time that the ranges cover as they recur.
pub open spec fn in_segment(
    schedule: Seq<Scheduled>,
    ranges: Seq<TimeRange>,
    period: int,
    start: int,
    end: int,
) -> bool {
    forall|i: int, t: int|
        0 <= i < schedule.len() && (#[trigger] schedule[i]).when <= t < schedule[i].when
            + schedule[i].task.duration ==> #[trigger] covers(ranges, period, t) && start <= t
            < end
}

/// The leaf that blocks the range.
pub open spec fn block_of(range: TimeRange) -> Entry {
    Entry { start: range.start, end: range.end, data: Item::Nothing }
}

/// The leaves that block the ranges.
pub open spec fn blocks(ranges: Seq<TimeRange>) -> Seq<Entry> {
    Seq::new(ranges.len(), |i: int| block_of(ranges[i]))
}

/// No deadline is later than the horizon, which is one of the deadlines
/// unless the floor is later than them all.
pub proof fn lemma_horizon(tasks: Seq<Task>, floor: int)
    ensures
        floor <= horizon(tasks, floor),
        forall|i: int| 0 <= i < tasks.len() ==> (#[trigger] tasks[i]).deadline <= horizon(tasks, floor),
        horizon(tasks, floor) == floor || exists|i: int|
            0 <= i < tasks.len() && (#[trigger] tasks[i]).deadline == horizon(tasks, floor),
    decreases tasks.len(),
{
    if tasks.len() > 0 {
        let front = tasks.drop_last();
        lemma_horizon(front, floor);
        assert forall|i: int| 0 <= i < tasks.len() implies (#[trigger] tasks[i]).deadline
            <= horizon(tasks, floor) by {
            if i < front.len() {
                assert(front[i] == tasks[i]);
            }
        }
        if horizon(tasks, floor) != floor {
            if tasks.last().deadline > horizon(front, floor) {
                assert(tasks[tasks.len() - 1].deadline == horizon(tasks, floor));
            } else {
                let i = choose|i: int|
                    0 <= i < front.len() && (#[trigger] front[i]).deadline == horizon(
                        front,
                        floor,
                    );
                assert(tasks[i] == front[i]);
            }
        }
    }
}

/// The latest deadline of the tasks.
fn last_deadline(tasks: &Vec<Task>) -> (last: Option<i64>)
    ensures
        match last {
            Some(deadline) => tasks.len() > 0 && deadline == horizon(tasks@, i64::MIN as int),
            None => tasks.len() == 0,
        },
{
    let mut last: Option<i64> = None;
    let mut i: usize = 0;
    while i < tasks.len()
        invariant
            0 <= i <= tasks.len(),
            match last {
                Some(deadline) => i > 0 && deadline == horizon(
                    tasks@.subrange(0, i as int),
                    i64::MIN as int,
                ),
                None => i == 0,
            },
        decreases tasks.len() - i,
    {
        let deadline = tasks[i].deadline;
        proof {
            assert(tasks@.subrange(0, i + 1).drop_last() =~= tasks@.subrange(0, i as int));
            if i == 0 {
                assert(horizon(tasks@.subrange(0, 0), i64::MIN as int) == i64::MIN);
            }
        }
        last = match last {
            Some(before) => if deadline > before {
                Some(deadline)
            } else {
                Some(before)
            },
            None => Some(deadline),
        };
        i += 1;
    }
    proof {
        assert(tasks@.subrange(0, i as int) =~= tasks@);
    }
    last
}

/// Every task, whatever its segment, in the order of the segments.
pub open spec fn all_tasks<S>(tasks_per_segment: Seq<(S, Vec<Task>)>) -> Seq<Task>
    decreases tasks_per_segment.len(),
{
    if tasks_per_segment.len() == 0 {
        Seq::empty()
    } else {
        tasks_per_segment.first().1@ + all_tasks(tasks_per_segment.drop_first())
    }
}

/// What a segment and its tasks must be for a schedule to be made: the
/// segment valid, every task taking time, and the period after `start` and
/// the time from `start` to each deadline within the range of the clock.
pub open spec fn schedulable<S: TimeSegment>(start: i64, segment: &S, tasks: Seq<Task>) -> bool {
    &&& valid(segment)
    &&& valid_tasks(tasks)
    &&& tasks.len() > 0 ==> start + segment.spec_period() <= i64::MAX
    &&& forall|i: int| 0 <= i < tasks.len() ==> (#[trigger] tasks[i]).deadline - start <= i64::MAX
}

/// The key by which a strategy takes the tasks up.
pub open spec fn strategy_key(strategy: SchedulingStrategy, start: i64) -> spec_fn(Task) -> (
    int,
    int,
) {
    match strategy {
        SchedulingStrategy::Importance => order_key(Some(start)),
        SchedulingStrategy::Urgency => order_key(None),
    }
}

/// What a failed schedule says: the task it names is one of the tasks, and
/// cannot be done by its deadline at all, or found no room.
pub open spec fn explains(error: Error, tasks: Seq<Task>, start: int) -> bool {
    match error {
        Error::DeadlineMissed { task, tense } => tasks.contains(task) && task.deadline < start
            + task.duration && tense == tense_of(task.deadline as int, start),
        Error::NotEnoughTime { task } => tasks.contains(task) && task.deadline >= start
            + task.duration,
        Error::Internal(_) => false,
    }
}

impl Schedule {
    /// Schedules tasks according to the given strategy, using the tasks'
    /// deadlines, importance and duration.
    ///
    /// Args:
    ///     start: the moment when the first task can be scheduled
    ///     tasks_per_segment: the tasks to schedule, with the time segment to
    ///         schedule each of them within
    ///     strategy: the scheduling algorithm to use
    /// Returns when successful an instance of Schedule which contains all
    /// tasks, each bound to a certain date and time; returns the error of
    /// the first segment whose tasks could not be scheduled otherwise.
    #[verifier::rlimit(40)]
    pub fn schedule<S: TimeSegment>(
        start: i64,
        tasks_per_segment: Vec<(S, Vec<Task>)>,
        strategy: SchedulingStrategy,
    ) -> (made: Result<Schedule, Error>)
        requires
            forall|i: int|
                0 <= i < tasks_per_segment.len() ==> schedulable(
                    start,
                    &(#[trigger] tasks_per_segment[i]).0,
                    tasks_per_segment[i].1@,
                ),
        ensures
            match made {
                Ok(schedule) => planned_all(
                    start,
                    tasks_per_segment@,
                    strategy,
                    Seq::empty(),
                ) == Ok::<Seq<Scheduled>, Error>(schedule.0@),
                Err(error) => planned_all(start, tasks_per_segment@, strategy, Seq::empty())
                    == Err::<Seq<Scheduled>, Error>(error),
            },
            match made {
                Ok(schedule) => {
                    &&& on_time(schedule.0@, start as int)
                    &&& chronological(schedule.0@)
                    &&& tasks_of(schedule.0@).to_multiset() == all_tasks(
                        tasks_per_segment@,
                    ).to_multiset()
                    &&& tasks_per_segment.len() == 1 ==> one_at_a_time(schedule.0@) && ascending(
                        schedule.0@,
                    )
                },
                Err(error) => explains(error, all_tasks(tasks_per_segment@), start as int),
            },
    {
        broadcast use vstd::multiset::group_multiset_axioms;

        let ghost given = tasks_per_segment@;
        let mut rest = tasks_per_segment;
        let mut schedule = Schedule::default();
        let ghost mut done: Seq<Task> = Seq::empty();
        proof {
            assert(tasks_of(schedule.0@) =~= Seq::<Task>::empty());
            assert(done + all_tasks(rest@) =~= all_tasks(given));
        }
        while rest.len() > 0
            invariant
                forall|i: int|
                    0 <= i < rest.len() ==> schedulable(
                        start,
                        &(#[trigger] rest[i]).0,
                        rest[i].1@,
                    ),
                on_time(schedule.0@, start as int),
                chronological(schedule.0@),
                tasks_of(schedule.0@).to_multiset() == done.to_multiset(),
                done + all_tasks(rest@) == all_tasks(given),
                given == tasks_per_segment@,
                planned_all(start, rest@, strategy, schedule.0@) == planned_all(
                    start,
                    given,
                    strategy,
                    Seq::empty(),
                ),
                rest.len() <= given.len(),
                given.len() == 1 ==> (if rest.len() == 1 {
                    schedule.0@.len() == 0
                } else {
                    one_at_a_time(schedule.0@) && ascending(schedule.0@)
                }),
            decreases rest.len(),
        {
            let ghost before = rest@;
            let (segment, tasks) = rest.remove(0);
            proof {
                assert(before.first() == (segment, tasks));
                assert(rest@ =~= before.drop_first());
                assert forall|i: int| 0 <= i < rest.len() implies schedulable(
                    start,
                    &(#[trigger] rest[i]).0,
                    rest[i].1@,
                ) by {
                    assert(rest[i] == before[i + 1]);
                }
                assert(schedulable(start, &before[0].0, before[0].1@));
                assert((done + tasks@) + all_tasks(rest@) =~= done + all_tasks(before));
            }
            let ghost mine = tasks@;
            match Schedule::schedule_within_segment(start, tasks, segment, strategy) {
                Err(error) => {
                    proof {
                        let all = all_tasks(given);
                        assert(all == (done + mine) + all_tasks(rest@));
                        assert forall|k: int| 0 <= k < mine.len() implies all.contains(
                            #[trigger] mine[k],
                        ) by {
                            assert(all[done.len() + k] == mine[k]);
                        }
                        lemma_explains(error, mine, all, start as int);
                    }
                    return Err(error);
                },
                Ok(new_schedule) => {
                    proof {
                        lemma_interleaved(schedule.0@, new_schedule.0@, start as int);
                        vstd::seq_lib::lemma_multiset_commutative(done, mine);
                        if given.len() == 1 {
                            assert(interleaved(schedule.0@, new_schedule.0@) == new_schedule.0@);
                        }
                    }
                    schedule = Schedule(merge_schedules(schedule.0, new_schedule.0));
                    proof {
                        done = done + mine;
                    }
                },
            }
        }
        proof {
            assert(done + all_tasks(rest@) =~= done);
        }
        Ok(schedule)
    }

    /// Schedules the tasks within one time segment.
    ///
    /// Returns the schedule, in which every task is at work on its own,
    /// between `start` and its deadline, at a time that the segment covers;
    /// or the error of the first task, in the order in which the strategy
    /// takes the tasks up, that could not be placed before its deadline.
    #[verifier::rlimit(40)]
    pub fn schedule_within_segment<S: TimeSegment>(
        start: i64,
        tasks: Vec<Task>,
        segment: S,
        strategy: SchedulingStrategy,
    ) -> (made: Result<Schedule, Error>)
        requires
            schedulable(start, &segment, tasks@),
        ensures
            tasks.len() == 0 ==> (made matches Ok(schedule) && schedule.0@.len() == 0),
            match made {
                Ok(schedule) => planned(
                    start,
                    tasks@,
                    segment.spec_ranges(),
                    segment.spec_start() as int,
                    segment.spec_period() as int,
                    strategy,
                ) == Ok::<Seq<Scheduled>, Error>(schedule.0@),
                Err(error) => planned(
                    start,
                    tasks@,
                    segment.spec_ranges(),
                    segment.spec_start() as int,
                    segment.spec_period() as int,
                    strategy,
                ) == Err::<Seq<Scheduled>, Error>(error),
            },
            match made {
                Ok(schedule) => {
                    &&& on_time(schedule.0@, start as int)
                    &&& one_at_a_time(schedule.0@)
                    &&& ascending(schedule.0@)
                    &&& tasks_of(schedule.0@).to_multiset() == tasks@.to_multiset()
                    &&& in_segment(
                        schedule.0@,
                        segment.spec_ranges(),
                        segment.spec_period() as int,
                        start as int,
                        horizon(tasks@, i64::MIN as int),
                    )
                },
                Err(error) => explains(error, tasks@, start as int),
            },
    {
        let ghost given = tasks@;
        let mut tasks = tasks;
        if tasks.is_empty() {
            let schedule = Schedule::default();
            proof {
                assert(tasks_of(schedule.0@) =~= tasks@);
            }
            Ok(schedule)
        } else {
            let mut tree = ScheduleTree::new();
            // Make sure things aren't scheduled before the algorithm is finished.
            let last_deadline = match last_deadline(&tasks) {
                Some(deadline) => deadline,
                None => {
                    return Err(Error::Internal("last deadline not found"));
                },
            };
            let inverse = segment.inverse();
            let unscheduleables = inverse.generate_ranges(start, last_deadline);
            proof {
                lemma_horizon(given, i64::MIN as int);
                assert(last_deadline - start <= i64::MAX) by {
                    assert(given[0].deadline <= last_deadline);
                    if last_deadline != i64::MIN {
                        let g = choose|g: int|
                            0 <= g < given.len() && (#[trigger] given[g]).deadline
                                == last_deadline;
                        assert(given[g].deadline - start <= i64::MAX);
                    } else {
                        assert(given[0].deadline - start <= i64::MAX);
                    }
                }
            }
            match block(&mut tree, &unscheduleables, start, last_deadline) {
                Err(error) => {
                    return Err(error);
                },
                Ok(()) => {},
            }
            let ghost blocked = tree.entries();
            proof {
                assert(all_scheduled(tree.index(), 0));
                lemma_stable_sorted(given, strategy_key(strategy, start));
                lemma_stable_sorted_members(given, strategy_key(strategy, start));
            }
            let done = match strategy {
                SchedulingStrategy::Importance => schedule_according_to_importance(
                    &mut tree,
                    start,
                    &mut tasks,
                ),
                SchedulingStrategy::Urgency => schedule_according_to_myrjam(
                    &mut tree,
                    start,
                    &mut tasks,
                ),
            };
            match done {
                Err(error) => {
                    proof {
                        lemma_backloaded_error(blocked, tasks@, start as int, 0);
                        lemma_explains(error, tasks@, given, start as int);
                    }
                    return Err(error);
                },
                Ok(()) => {},
            }
            proof {
                lemma_shown(&tree, tasks@, start as int);
                lemma_in_segment(
                    &tree,
                    tasks@,
                    given,
                    unscheduleables@,
                    segment.spec_ranges(),
                    inverse.ranges@,
                    segment.spec_period() as int,
                    start as int,
                );
            }
            Ok(Schedule::from_tree(tree, &tasks))
        }
    }

    /// The tasks that the tree shows, each with the start of its leaf.
    pub fn from_tree(tree: ScheduleTree, tasks: &Vec<Task>) -> (schedule: Schedule)
        requires
            known(tree.entries(), tasks.len() as int),
        ensures
            schedule.0@ == projected(tree.entries(), tasks@),
    {
        let ghost entries = tree.entries();
        let mut scheduled_tasks: Vec<Scheduled> = Vec::new();
        let mut iter = tree.into_iter();
        loop
            invariant
                known(iter.remaining(), tasks.len() as int),
                scheduled_tasks@ + projected(iter.remaining(), tasks@) == projected(
                    entries,
                    tasks@,
                ),
            ensures
                scheduled_tasks@ == projected(entries, tasks@),
            decreases iter.remaining().len(),
        {
            let ghost rest = iter.remaining();
            match iter.next() {
                Some(entry) => {
                    proof {
                        assert(rest[0] == entry);
                        assert forall|i: int| 0 <= i < rest.drop_first().len() implies ((
                        #[trigger] rest.drop_first()[i]).data matches Item::Task(key) ==> key
                            < tasks.len()) by {
                            assert(rest.drop_first()[i] == rest[i + 1]);
                        }
                    }
                    match entry.data {
                        Item::Nothing => {},
                        Item::Task(key) => {
                            let task = tasks[key as usize].clone();
                            let ghost before = scheduled_tasks@;
                            scheduled_tasks.push(Scheduled { task, when: entry.start });
                            proof {
                                let next = Scheduled {
                                    task: tasks@[key as int],
                                    when: entry.start,
                                };
                                assert(before.push(next) + projected(rest.drop_first(), tasks@)
                                    =~= before + (seq![next] + projected(
                                    rest.drop_first(),
                                    tasks@,
                                )));
                            }
                        },
                    }
                },
                None => {
                    proof {
                        assert(scheduled_tasks@ + projected(rest, tasks@) =~= scheduled_tasks@);
                    }
                    break ;
                },
            }
        }
        Schedule(scheduled_tasks)
    }
}

/// What explains an error among some tasks explains it among more.
proof fn lemma_explains(error: Error, part: Seq<Task>, all: Seq<Task>, start: int)
    requires
        explains(error, part, start),
        forall|k: int| 0 <= k < part.len() ==> all.contains(#[trigger] part[k]),
    ensures
        explains(error, all, start),
{
    match error {
        Error::DeadlineMissed { task, tense } => {
            let k = choose|k: int| 0 <= k < part.len() && part[k] == task;
            assert(all.contains(part[k]));
        },
        Error::NotEnoughTime { task } => {
            let k = choose|k: int| 0 <= k < part.len() && part[k] == task;
            assert(all.contains(part[k]));
        },
        Error::Internal(_) => {},
    }
}

/// Blocks the ranges in a tree that is empty.
fn block(tree: &mut ScheduleTree, ranges: &Vec<TimeRange>, start: i64, end: i64) -> (done: Result<
    (),
    Error,
>)
    requires
        old(tree).wf(),
        old(tree).entries().len() == 0,
        old(tree).index() == Map::<u64, i64>::empty(),
        in_window(ranges@, start as int, end as int),
        end - start <= i64::MAX,
    ensures
        done is Ok,
        final(tree).wf(),
        final(tree).index() == Map::<u64, i64>::empty(),
        final(tree).entries() == blocks(ranges@),
{
    let mut i: usize = 0;
    proof {
        assert(tree.entries() =~= blocks(ranges@.subrange(0, 0)));
    }
    while i < ranges.len()
        invariant
            0 <= i <= ranges.len(),
            tree.wf(),
            in_window(ranges@, start as int, end as int),
            end - start <= i64::MAX,
            tree.index() == Map::<u64, i64>::empty(),
            tree.entries() == blocks(ranges@.subrange(0, i as int)),
        decreases ranges.len() - i,
    {
        let range = ranges[i];
        let ghost before = tree.entries();
        proof {
            tree.lemma_entries();
            assert forall|k: int| 0 <= k < before.len() implies (#[trigger] before[k]).end
                <= range.start && before[k].start < range.start by {
                assert(ranges@[k].end <= ranges@[i as int].start);
            }
            lemma_rank_all_before(before, range.start as int);
            assert(before.insert(before.len() as int, block_of(range)) =~= blocks(
                ranges@.subrange(0, i + 1),
            ));
        }
        if !tree.schedule_exact(range.start, range.end - range.start, Item::Nothing) {
            return Err(Error::Internal("I couldn't block what the segment excludes"));
        }
        i += 1;
    }
    proof {
        assert(ranges@.subrange(0, i as int) =~= ranges@);
    }
    Ok(())
}

/// Tasks whose leaves stand in a tree beside the blocks of what a segment
/// leaves open are at work only at times that the segment covers.
#[verifier::rlimit(40)]
proof fn lemma_in_segment(
    tree: &ScheduleTree,
    tasks: Seq<Task>,
    given: Seq<Task>,
    forbidden: Seq<TimeRange>,
    ranges: Seq<TimeRange>,
    open: Seq<TimeRange>,
    period: int,
    start: int,
)
    requires
        tree.wf(),
        on_time(projected(tree.entries(), tasks), start),
        tasks_of(projected(tree.entries(), tasks)).to_multiset() == given.to_multiset(),
        forall|i: int|
            0 <= i < projected(tree.entries(), tasks).len() ==> has_leaf(
                tree.entries(),
                #[trigger] projected(tree.entries(), tasks)[i],
            ),
        same_blocks(blocks(forbidden), tree.entries()),
        forall|t: int|
            #[trigger] within(forbidden, t) <==> start <= t < horizon(given, i64::MIN as int)
                && covers(open, period, t),
        forall|t: int| #[trigger] covers(open, period, t) <==> !covers(ranges, period, t),
    ensures
        in_segment(
            projected(tree.entries(), tasks),
            ranges,
            period,
            start,
            horizon(given, i64::MIN as int),
        ),
{
    let entries = tree.entries();
    let shown = projected(entries, tasks);
    let blocked = blocks(forbidden);
    tree.lemma_entries();
    lemma_horizon(given, i64::MIN as int);
    assert forall|i: int, t: int|
        0 <= i < shown.len() && (#[trigger] shown[i]).when <= t < shown[i].when
            + shown[i].task.duration implies #[trigger] covers(ranges, period, t) && start <= t
        < horizon(given, i64::MIN as int) by {
        assert(has_leaf(entries, shown[i]));
        let j = choose|j: int|
            0 <= j < entries.len() && (#[trigger] entries[j]).data is Task && entries[j].start
                == shown[i].when && entries[j].end == shown[i].when + shown[i].task.duration;
        assert(tasks_of(shown)[i] == shown[i].task);
        assert(given.contains(shown[i].task)) by {
            broadcast use vstd::seq_lib::to_multiset_contains;

            assert(tasks_of(shown).contains(shown[i].task));
            assert(tasks_of(shown).to_multiset().count(shown[i].task) > 0);
            assert(given.to_multiset().count(shown[i].task) > 0);
        }
        let g = choose|g: int| 0 <= g < given.len() && given[g] == shown[i].task;
        assert(given[g].deadline <= horizon(given, i64::MIN as int));
        if !covers(ranges, period, t) {
            assert(covers(open, period, t));
            assert(within(forbidden, t));
            let b = choose|b: int| 0 <= b < forbidden.len() && holds(#[trigger] forbidden[b], t);
            assert(blocked[b] == block_of(forbidden[b]));
            assert(entries.contains(blocked[b]));
            let x = choose|x: int| 0 <= x < entries.len() && entries[x] == blocked[b];
            if x < j {
                assert(entries[x].end <= entries[j].start);
            } else {
                assert(entries[j].end <= entries[x].start);
            }
        }
    }
}

/// How long after the present a schedule begins, in seconds: nothing is
/// scheduled for an instant that has passed by the time the schedule is made.
pub const START_DELAY: i64 = 60;

/// Makes a schedule of the tasks that begins a minute after `now`, with the
/// strategy of the given name.
pub fn schedule<S: TimeSegment>(
    now: i64,
    tasks_per_segment: Vec<(S, Vec<Task>)>,
    strategy: &str,
) -> (made: Result<Schedule, Error>)
    requires
        strategy@ == SchedulingStrategy::Importance.name() || strategy@
            == SchedulingStrategy::Urgency.name(),
        now + START_DELAY <= i64::MAX,
        forall|i: int|
            0 <= i < tasks_per_segment.len() ==> schedulable(
                (now + START_DELAY) as i64,
                &(#[trigger] tasks_per_segment[i]).0,
                tasks_per_segment[i].1@,
            ),
    ensures
        ({
            let start = (now + START_DELAY) as i64;
            let chosen = if strategy@ == SchedulingStrategy::Importance.name() {
                SchedulingStrategy::Importance
            } else {
                SchedulingStrategy::Urgency
            };
            match made {
                Ok(schedule) => {
                    &&& planned_all(start, tasks_per_segment@, chosen, Seq::empty()) == Ok::<
                        Seq<Scheduled>,
                        Error,
                    >(schedule.0@)
                    &&& on_time(schedule.0@, start as int)
                    &&& chronological(schedule.0@)
                    &&& tasks_of(schedule.0@).to_multiset() == all_tasks(
                        tasks_per_segment@,
                    ).to_multiset()
                },
                Err(error) => {
                    &&& planned_all(start, tasks_per_segment@, chosen, Seq::empty()) == Err::<
                        Seq<Scheduled>,
                        Error,
                    >(error)
                    &&& explains(error, all_tasks(tasks_per_segment@), start as int)
                },
            }
        }),
{
    proof {
        reveal_strlit("importance");
        reveal_strlit("urgency");
        assert("importance"@.len() != "urgency"@.len());
    }
    let strategy = match SchedulingStrategy::from_name(strategy) {
        Some(strategy) => strategy,
        None => SchedulingStrategy::Importance,
    };
    // Ensure everything is scheduled for some time after the algorithm has
    // finished.
    let start = now + START_DELAY;
    Schedule::schedule(start, tasks_per_segment, strategy)
}

/// Whether a schedule that begins at `start` can be made of the tasks
/// within the segment.
pub fn is_schedulable<S: TimeSegment>(start: i64, segment: &S, tasks: &Vec<Task>) -> (ok: bool)
    ensures
        ok == schedulable(start, segment, tasks@),
{
    if !is_valid(segment) {
        return false;
    }
    if tasks.len() > 0 && start as i128 + segment.period() as i128 > i64::MAX as i128 {
        return false;
    }
    let mut i: usize = 0;
    while i < tasks.len()
        invariant
            0 <= i <= tasks.len(),
            forall|k: int|
                0 <= k < i ==> (#[trigger] tasks[k]).duration > 0 && tasks[k].deadline - start
                    <= i64::MAX,
        decreases tasks.len() - i,
    {
        let task = &tasks[i];
        if task.duration <= 0 || task.deadline as i128 - start as i128 > i64::MAX as i128 {
            return false;
        }
        i += 1;
    }
    true
}

} // verus!
