//! The two strategies: each places the tasks as late as their deadlines
//! allow and then pulls them towards the start of the schedule.

use crate::fits::{earliest_fit, fits_after, is_earliest_fit, latest_fit};
use crate::item::Item;
use crate::schedule_tree::ScheduleTree;
use crate::scheduling::{Error, Task};
use crate::sorting::{lemma_stable_sorted, lemma_stable_sorted_members, stable_sorted};
use crate::spans::{
    clear, lemma_insert_ordered, lemma_rank_bounds, lemma_remove_ordered, ordered, rank,
    scheduled_at, Entry,
};
use vstd::prelude::*;

verus! {

/// The key by which the tasks are taken up: their importance and, where
/// `urgent_from` names the start of the schedule, for tasks of equal
/// importance how close that start is to their deadline.
pub open spec fn order_key(urgent_from: Option<i64>) -> spec_fn(Task) -> (int, int) {
    |task: Task|
        (
            task.importance as int,
            match urgent_from {
                Some(start) => start - task.deadline,
                None => 0,
            },
        )
}

/// The key by which a task is taken up.
fn order_of(task: &Task, urgent_from: Option<i64>) -> (key: (u32, i128))
    ensures
        (key.0 as int, key.1 as int) == order_key(urgent_from)(*task),
{
    match urgent_from {
        Some(start) => (task.importance, start as i128 - task.deadline as i128),
        None => (task.importance, 0),
    }
}

/// `slice::sort_by_key` is a stable sort: it leaves the tasks in ascending
/// order of key, tasks of equal key in the order in which they came.
#[verifier::external_body]
fn sort_tasks(tasks: &mut Vec<Task>, urgent_from: Option<i64>)
    ensures
        final(tasks)@ == stable_sorted(old(tasks)@, order_key(urgent_from)),
{
    tasks.sort_by_key(|task| order_of(task, urgent_from));
}

/// Every task takes time.
pub open spec fn valid_tasks(tasks: Seq<Task>) -> bool {
    forall|i: int| 0 <= i < tasks.len() ==> (#[trigger] tasks[i]).duration > 0
}

/// How a deadline that cannot be met is spoken of: it has passed, or it will.
pub open spec fn tense_of(deadline: int, start: int) -> &'static str {
    if deadline < start {
        "missed"
    } else {
        "will miss"
    }
}

/// The leaf of the task with key `key`, where it begins at `at`.
pub open spec fn leaf_of(tasks: Seq<Task>, key: int, at: int) -> Entry {
    Entry { start: at as i64, end: (at + tasks[key].duration) as i64, data: Item::Task(key as u64) }
}

/// The leaves after each task from `from` on has been placed, in turn, as
/// late before its deadline as the leaves placed before it allow, or the
/// error of the first task that cannot be placed.
pub open spec fn backloaded(entries: Seq<Entry>, tasks: Seq<Task>, start: int, from: int) -> Result<
    Seq<Entry>,
    Error,
>
    decreases tasks.len() - from,
{
    if from < 0 || from >= tasks.len() {
        Ok(entries)
    } else if tasks[from].deadline < start + tasks[from].duration {
        Err(
            Error::DeadlineMissed {
                task: tasks[from],
                tense: tense_of(tasks[from].deadline as int, start),
            },
        )
    } else {
        match latest_fit(
            entries,
            tasks[from].duration as int,
            tasks[from].deadline as int,
            Some(start as i64),
        ) {
            Some(at) => backloaded(
                entries.insert(rank(entries, at), leaf_of(tasks, from, at)),
                tasks,
                start,
                from + 1,
            ),
            None => Err(Error::NotEnoughTime { task: tasks[from] }),
        }
    }
}

/// Each leaf that holds a task holds one of the first `count` tasks, begins
/// no sooner than `start`, lasts as long as the task, and ends by its deadline.
pub open spec fn in_time(entries: Seq<Entry>, tasks: Seq<Task>, start: int, count: int) -> bool {
    forall|i: int|
        0 <= i < entries.len() ==> ((#[trigger] entries[i]).data matches Item::Task(key) ==> {
            &&& key < count
            &&& start <= entries[i].start
            &&& entries[i].end == entries[i].start + tasks[key as int].duration
            &&& entries[i].end <= tasks[key as int].deadline
        })
}

/// Exactly the first `count` tasks have a leaf.
pub open spec fn all_scheduled(index: Map<u64, i64>, count: int) -> bool {
    forall|key: u64| #[trigger] index.contains_key(key) <==> key < count
}

/// The leaves that hold nothing are the same in both.
pub open spec fn same_blocks(before: Seq<Entry>, after: Seq<Entry>) -> bool {
    &&& forall|i: int|
        0 <= i < before.len() && (#[trigger] before[i]).data is Nothing ==> after.contains(
            before[i],
        )
    &&& forall|i: int|
        0 <= i < after.len() && (#[trigger] after[i]).data is Nothing ==> before.contains(
            after[i],
        )
}

/// A task leaf that enters leaves the blocks as they were.
proof fn lemma_blocks_insert(first: Seq<Entry>, before: Seq<Entry>, e: Entry)
    requires
        ordered(before),
        same_blocks(first, before),
        e.start < e.end,
        clear(before, e.start as int, e.end as int),
        e.data is Task,
    ensures
        same_blocks(first, before.insert(rank(before, e.start as int), e)),
{
    let place = rank(before, e.start as int);
    let after = before.insert(place, e);
    lemma_insert_ordered(before, e);
    assert forall|i: int| 0 <= i < first.len() && (#[trigger] first[i]).data is Nothing implies after.contains(
        first[i],
    ) by {
        let j = choose|j: int| 0 <= j < before.len() && before[j] == first[i];
        let k = if j < place {
            j
        } else {
            j + 1
        };
        assert(before[j] == after[k]);
    }
    assert forall|i: int| 0 <= i < after.len() && (#[trigger] after[i]).data is Nothing implies first.contains(
        after[i],
    ) by {
        if i < place {
            assert(after[i] == before[i]);
        } else {
            assert(after[i] == before[i - 1]);
        }
    }
}

/// A task leaf that leaves leaves the blocks as they were.
proof fn lemma_blocks_remove(first: Seq<Entry>, before: Seq<Entry>, place: int)
    requires
        ordered(before),
        same_blocks(first, before),
        0 <= place < before.len(),
        before[place].data is Task,
    ensures
        same_blocks(first, before.remove(place)),
{
    let after = before.remove(place);
    lemma_remove_ordered(before, place);
    assert forall|i: int| 0 <= i < first.len() && (#[trigger] first[i]).data is Nothing implies after.contains(
        first[i],
    ) by {
        let j = choose|j: int| 0 <= j < before.len() && before[j] == first[i];
        let k = if j < place {
            j
        } else {
            j - 1
        };
        assert(after[k] == before[j]);
    }
    assert forall|i: int| 0 <= i < after.len() && (#[trigger] after[i]).data is Nothing implies first.contains(
        after[i],
    ) by {
        let k = if i < place {
            i
        } else {
            i + 1
        };
        assert(after[i] == before[k]);
    }
}

/// What holds the same blocks as a second run of leaves, which holds the
/// same as a third, holds the same as the third.
proof fn lemma_blocks_trans(a: Seq<Entry>, b: Seq<Entry>, c: Seq<Entry>)
    requires
        same_blocks(a, b),
        same_blocks(b, c),
    ensures
        same_blocks(a, c),
{
    assert forall|i: int| 0 <= i < a.len() && (#[trigger] a[i]).data is Nothing implies c.contains(
        a[i],
    ) by {
        let j = choose|j: int| 0 <= j < b.len() && b[j] == a[i];
        assert(c.contains(b[j]));
    }
    assert forall|i: int| 0 <= i < c.len() && (#[trigger] c[i]).data is Nothing implies a.contains(
        c[i],
    ) by {
        let j = choose|j: int| 0 <= j < b.len() && b[j] == c[i];
        assert(a.contains(b[j]));
    }
}

/// A task leaf that enters in time leaves the others in time.
proof fn lemma_in_time_insert(
    before: Seq<Entry>,
    tasks: Seq<Task>,
    start: int,
    count: int,
    key: int,
    at: int,
)
    requires
        ordered(before),
        in_time(before, tasks, start, count) || in_time(before, tasks, start, count - 1),
        0 <= key < count <= u64::MAX,
        tasks[key].duration > 0,
        start <= at,
        i64::MIN <= at,
        at + tasks[key].duration <= tasks[key].deadline,
        clear(before, at, at + tasks[key].duration),
    ensures
        in_time(before.insert(rank(before, at), leaf_of(tasks, key, at)), tasks, start, count),
{
    let e = leaf_of(tasks, key, at);
    let place = rank(before, at);
    let after = before.insert(place, e);
    lemma_insert_ordered(before, e);
    assert forall|i: int| 0 <= i < after.len() implies ((#[trigger] after[i]).data matches Item::Task(
        k,
    ) ==> {
        &&& k < count
        &&& start <= after[i].start
        &&& after[i].end == after[i].start + tasks[k as int].duration
        &&& after[i].end <= tasks[k as int].deadline
    }) by {
        if i < place {
            assert(after[i] == before[i]);
        } else if i > place {
            assert(after[i] == before[i - 1]);
        }
    }
}

/// The leaves stay in time when one of them leaves.
proof fn lemma_in_time_remove(before: Seq<Entry>, tasks: Seq<Task>, start: int, count: int, place: int)
    requires
        ordered(before),
        in_time(before, tasks, start, count),
        0 <= place < before.len(),
    ensures
        in_time(before.remove(place), tasks, start, count),
{
    let after = before.remove(place);
    lemma_remove_ordered(before, place);
    assert forall|i: int| 0 <= i < after.len() implies ((#[trigger] after[i]).data matches Item::Task(
        k,
    ) ==> {
        &&& k < count
        &&& start <= after[i].start
        &&& after[i].end == after[i].start + tasks[k as int].duration
        &&& after[i].end <= tasks[k as int].deadline
    }) by {
        let k = if i < place {
            i
        } else {
            i + 1
        };
        assert(after[i] == before[k]);
    }
}

/// Places each task, in turn, as late before its deadline as the leaves
/// placed before it allow.
#[verifier::rlimit(40)]
fn backload(tree: &mut ScheduleTree, start: i64, tasks: &Vec<Task>) -> (done: Result<(), Error>)
    requires
        old(tree).wf(),
        all_scheduled(old(tree).index(), 0),
        in_time(old(tree).entries(), tasks@, start as int, 0),
        valid_tasks(tasks@),
    ensures
        final(tree).wf(),
        match done {
            Ok(()) => {
                &&& backloaded(old(tree).entries(), tasks@, start as int, 0) == Ok::<
                    Seq<Entry>,
                    Error,
                >(final(tree).entries())
                &&& all_scheduled(final(tree).index(), tasks.len() as int)
                &&& in_time(final(tree).entries(), tasks@, start as int, tasks.len() as int)
                &&& same_blocks(old(tree).entries(), final(tree).entries())
            },
            Err(error) => backloaded(old(tree).entries(), tasks@, start as int, 0) == Err::<
                Seq<Entry>,
                Error,
            >(error),
        },
{
    let ghost first = tree.entries();
    let mut i: usize = 0;
    proof {
        assert(same_blocks(first, first)) by {
            assert forall|i: int| 0 <= i < first.len() implies first.contains(
                #[trigger] first[i],
            ) by {}
        }
    }
    while i < tasks.len()
        invariant
            0 <= i <= tasks.len(),
            tree.wf(),
            valid_tasks(tasks@),
            first == old(tree).entries(),
            all_scheduled(tree.index(), i as int),
            in_time(tree.entries(), tasks@, start as int, i as int),
            same_blocks(first, tree.entries()),
            backloaded(tree.entries(), tasks@, start as int, i as int) == backloaded(
                first,
                tasks@,
                start as int,
                0,
            ),
        decreases tasks.len() - i,
    {
        let task = &tasks[i];
        let ghost before = tree.entries();
        proof {
            tree.lemma_entries();
        }
        if (task.deadline as i128) < start as i128 + task.duration as i128 {
            return Err(
                Error::DeadlineMissed {
                    task: task.clone(),
                    tense: if task.deadline < start {
                        "missed"
                    } else {
                        "will miss"
                    },
                },
            );
        }
        if !tree.schedule_close_before(
            task.deadline,
            task.duration,
            Some(start),
            Item::Task(i as u64),
        ) {
            return Err(Error::NotEnoughTime { task: task.clone() });
        }
        proof {
            let at = latest_fit(
                before,
                task.duration as int,
                task.deadline as int,
                Some(start),
            ).unwrap();
            lemma_in_time_insert(before, tasks@, start as int, i + 1, i as int, at);
            lemma_blocks_insert(first, before, leaf_of(tasks@, i as int, at));
            assert(all_scheduled(tree.index(), i + 1)) by {
                assert forall|key: u64| #[trigger] tree.index().contains_key(key) <==> key < i
                    + 1 by {}
            }
        }
        i += 1;
    }
    Ok(())
}

/// The error with which backloading fails names a task that cannot be
/// done by its deadline at all, or one for which no room is left.
pub proof fn lemma_backloaded_error(entries: Seq<Entry>, tasks: Seq<Task>, start: int, from: int)
    requires
        0 <= from,
        backloaded(entries, tasks, start, from) is Err,
    ensures
        match backloaded(entries, tasks, start, from)->Err_0 {
            Error::DeadlineMissed { task, tense } => tasks.contains(task) && task.deadline < start
                + task.duration && tense == tense_of(task.deadline as int, start),
            Error::NotEnoughTime { task } => tasks.contains(task) && task.deadline >= start
                + task.duration,
            Error::Internal(_) => false,
        },
    decreases tasks.len() - from,
{
    if from < tasks.len() {
        if tasks[from].deadline < start + tasks[from].duration {
        } else {
            match latest_fit(
                entries,
                tasks[from].duration as int,
                tasks[from].deadline as int,
                Some(start as i64),
            ) {
                Some(at) => {
                    lemma_backloaded_error(
                        entries.insert(rank(entries, at), leaf_of(tasks, from, at)),
                        tasks,
                        start,
                        from + 1,
                    );
                },
                None => {},
            }
        }
    }
}

/// While the tasks are placed one by one before their deadlines, each task
/// from `from` on that can be placed can be done by its deadline.
pub proof fn lemma_backloaded_ok(entries: Seq<Entry>, tasks: Seq<Task>, start: int, from: int, i: int)
    requires
        0 <= from <= i < tasks.len(),
        backloaded(entries, tasks, start, from) is Ok,
    ensures
        start + tasks[i].duration <= tasks[i].deadline,
    decreases tasks.len() - from,
{
    if from < i {
        let at = latest_fit(
            entries,
            tasks[from].duration as int,
            tasks[from].deadline as int,
            Some(start as i64),
        ).unwrap();
        lemma_backloaded_ok(
            entries.insert(rank(entries, at), leaf_of(tasks, from, at)),
            tasks,
            start,
            from + 1,
            i,
        );
    }
}

/// How far the leaves that hold a task begin after `start`, summed up.
pub open spec fn load(entries: Seq<Entry>, start: int) -> int
    decreases entries.len(),
{
    if entries.len() == 0 {
        0
    } else {
        load(entries.drop_last(), start) + weight(entries.last(), start)
    }
}

/// How far a leaf that holds a task begins after `start`.
pub open spec fn weight(e: Entry, start: int) -> int {
    match e.data {
        Item::Task(_) => e.start - start,
        Item::Nothing => 0,
    }
}

/// The load of two runs of leaves is the sum of theirs.
proof fn lemma_load_concat(a: Seq<Entry>, b: Seq<Entry>, start: int)
    ensures
        load(a + b, start) == load(a, start) + load(b, start),
    decreases b.len(),
{
    if b.len() == 0 {
        assert(a + b =~= a);
    } else {
        assert((a + b).drop_last() =~= a + b.drop_last());
        lemma_load_concat(a, b.drop_last(), start);
    }
}

/// A leaf that enters adds its weight to the load.
proof fn lemma_load_insert(entries: Seq<Entry>, place: int, e: Entry, start: int)
    requires
        0 <= place <= entries.len(),
    ensures
        load(entries.insert(place, e), start) == load(entries, start) + weight(e, start),
{
    let front = entries.subrange(0, place);
    let back = entries.subrange(place, entries.len() as int);
    assert(entries =~= front + back);
    lemma_load_concat(front, back, start);
    lemma_load_concat(front.push(e), back, start);
    assert(front.push(e).drop_last() =~= front);
}

/// A leaf that leaves takes its weight off the load.
proof fn lemma_load_remove(entries: Seq<Entry>, place: int, start: int)
    requires
        0 <= place < entries.len(),
    ensures
        load(entries.remove(place), start) == load(entries, start) - weight(entries[place], start),
{
    let front = entries.subrange(0, place);
    let back = entries.subrange(place + 1, entries.len() as int);
    assert(entries =~= front.push(entries[place]) + back);
    lemma_load_concat(front.push(entries[place]), back, start);
    lemma_load_concat(front, back, start);
    assert(front.push(entries[place]).drop_last() =~= front);
}

/// Leaves in time begin no sooner than `start`: their load is not negative.
proof fn lemma_load_in_time(entries: Seq<Entry>, tasks: Seq<Task>, start: int, count: int)
    requires
        in_time(entries, tasks, start, count),
    ensures
        load(entries, start) >= 0,
    decreases entries.len(),
{
    if entries.len() > 0 {
        let front = entries.drop_last();
        assert forall|i: int| 0 <= i < front.len() implies ((#[trigger] front[i]).data matches Item::Task(
            k,
        ) ==> {
            &&& k < count
            &&& start <= front[i].start
            &&& front[i].end == front[i].start + tasks[k as int].duration
            &&& front[i].end <= tasks[k as int].deadline
        }) by {
            assert(front[i] == entries[i]);
        }
        lemma_load_in_time(front, tasks, start, count);
        assert(entries[entries.len() - 1] == entries.last());
    }
}

/// The span of a leaf is clear once the leaf has left.
proof fn lemma_clear_after_remove(entries: Seq<Entry>, place: int)
    requires
        ordered(entries),
        0 <= place < entries.len(),
    ensures
        clear(entries.remove(place), entries[place].start as int, entries[place].end as int),
{
    let rest = entries.remove(place);
    lemma_remove_ordered(entries, place);
    assert forall|i: int| 0 <= i < rest.len() implies (#[trigger] rest[i]).end
        <= entries[place].start || entries[place].end <= rest[i].start by {
        let k = if i < place {
            i
        } else {
            i + 1
        };
        assert(rest[i] == entries[k]);
    }
}

/// Where the leaf at `place` goes when it is taken out and placed anew, as
/// soon after `start` as the other leaves allow and ending no later than it did.
pub open spec fn moved_to(entries: Seq<Entry>, start: int, place: int) -> int {
    earliest_fit(
        entries.remove(place),
        entries[place].end - entries[place].start,
        start,
        Some(entries[place].end),
    ).unwrap()
}

/// The leaves after the leaf at `place` has been taken out and placed
/// anew, as soon after `start` as the other leaves allow and ending no
/// later than it did.
pub open spec fn pulled(entries: Seq<Entry>, tasks: Seq<Task>, start: int, place: int) -> Seq<
    Entry,
> {
    let rest = entries.remove(place);
    let at = moved_to(entries, start, place);
    rest.insert(
        rank(rest, at),
        Entry {
            start: at as i64,
            end: (at + entries[place].end - entries[place].start) as i64,
            data: entries[place].data,
        },
    )
}

/// What holds of the leaves once a task leaf has left them.
proof fn lemma_task_left(first: Seq<Entry>, tasks: Seq<Task>, start: int, place: int)
    requires
        ordered(first),
        in_time(first, tasks, start, tasks.len() as int),
        0 <= place < first.len(),
        first[place].data is Task,
    ensures
        ordered(first.remove(place)),
        in_time(first.remove(place), tasks, start, tasks.len() as int),
        same_blocks(first, first.remove(place)),
        load(first.remove(place), start) == load(first, start) - (first[place].start - start),
        fits_after(
            first.remove(place),
            first[place].start as int,
            first[place].end - first[place].start,
            start,
            Some(first[place].end),
        ),
{
    lemma_remove_ordered(first, place);
    lemma_clear_after_remove(first, place);
    lemma_in_time_remove(first, tasks, start, tasks.len() as int, place);
    assert(same_blocks(first, first)) by {
        assert forall|i: int| 0 <= i < first.len() implies first.contains(
            #[trigger] first[i],
        ) by {}
    }
    lemma_blocks_remove(first, first, place);
    lemma_load_remove(first, place, start);
}

/// What holds of the leaves once a task leaf has entered them anew.
proof fn lemma_task_back(
    first: Seq<Entry>,
    rest: Seq<Entry>,
    tasks: Seq<Task>,
    start: int,
    key: int,
    at: int,
    was: int,
)
    requires
        ordered(rest),
        in_time(rest, tasks, start, tasks.len() as int),
        same_blocks(first, rest),
        0 <= key < tasks.len() <= usize::MAX,
        tasks[key].duration > 0,
        is_earliest_fit(rest, at, tasks[key].duration as int, start, Some(was as i64)),
        i64::MIN <= was <= i64::MAX,
        i64::MIN <= start,
        was <= tasks[key].deadline,
    ensures
        in_time(
            rest.insert(rank(rest, at), leaf_of(tasks, key, at)),
            tasks,
            start,
            tasks.len() as int,
        ),
        same_blocks(first, rest.insert(rank(rest, at), leaf_of(tasks, key, at))),
        load(rest.insert(rank(rest, at), leaf_of(tasks, key, at)), start) == load(rest, start) + (
        at - start),
{
    let e = leaf_of(tasks, key, at);
    lemma_in_time_insert(rest, tasks, start, tasks.len() as int, key, at);
    lemma_blocks_insert(first, rest, e);
    lemma_rank_bounds(rest, at);
    lemma_load_insert(rest, rank(rest, at), e, start);
}

/// Takes the task with key `key` out of the tree and places it anew, as soon
/// after `start` as the other leaves allow and ending no later than it did.
///
/// Returns the leaf that the task had.
#[verifier::rlimit(40)]
fn pull_forward(tree: &mut ScheduleTree, start: i64, tasks: &Vec<Task>, key: usize) -> (moved:
    Result<Entry, Error>)
    requires
        old(tree).wf(),
        all_scheduled(old(tree).index(), tasks.len() as int),
        in_time(old(tree).entries(), tasks@, start as int, tasks.len() as int),
        valid_tasks(tasks@),
        key < tasks.len(),
    ensures
        final(tree).wf(),
        all_scheduled(final(tree).index(), tasks.len() as int),
        in_time(final(tree).entries(), tasks@, start as int, tasks.len() as int),
        same_blocks(old(tree).entries(), final(tree).entries()),
        moved matches Ok(was) && {
            let place = rank(old(tree).entries(), was.start as int);
            &&& 0 <= place < old(tree).entries().len()
            &&& old(tree).entries()[place] == was
            &&& was.data == Item::Task(key as u64)
            &&& final(tree).entries() == pulled(old(tree).entries(), tasks@, start as int, place)
            &&& final(tree).index().contains_key(key as u64)
            &&& final(tree).index()[key as u64] == moved_to(
                old(tree).entries(),
                start as int,
                place,
            )
            &&& final(tree).index()[key as u64] <= was.start
            &&& load(final(tree).entries(), start as int) == load(
                old(tree).entries(),
                start as int,
            ) - was.start + final(tree).index()[key as u64]
        },
{
    let ghost first = tree.entries();
    let ghost names = tree.index();
    let data = Item::Task(key as u64);
    proof {
        tree.lemma_entries();
        assert(tree.index().contains_key(key as u64));
    }
    let scheduled_entry = match tree.unschedule(&data) {
        Some(entry) => entry,
        None => {
            return Err(Error::Internal("I couldn't unschedule a task"));
        },
    };
    let ghost place = rank(first, scheduled_entry.start as int);
    let ghost rest = tree.entries();
    let duration = tasks[key].duration;
    proof {
        assert(first[place] == scheduled_entry);
        lemma_task_left(first, tasks@, start as int, place);
    }
    if !tree.schedule_close_after(start, duration, Some(scheduled_entry.end), data) {
        return Err(Error::Internal("I couldn't reschedule a task"));
    }
    proof {
        let at = earliest_fit(
            rest,
            duration as int,
            start as int,
            Some(scheduled_entry.end),
        ).unwrap();
        lemma_task_back(
            first,
            rest,
            tasks@,
            start as int,
            key as int,
            at,
            scheduled_entry.end as int,
        );
        assert(tree.index() == names.remove(key as u64).insert(key as u64, at as i64));
        assert(all_scheduled(tree.index(), tasks.len() as int)) by {
            assert forall|k: u64| #[trigger]
                tree.index().contains_key(k) <==> k < tasks.len() by {
                if k != key as u64 {
                    assert(names.contains_key(k) <==> k < tasks.len());
                }
            }
        }
    }
    Ok(scheduled_entry)
}

/// Where the first leaf that holds `data` stands among the leaves.
pub open spec fn place_of(entries: Seq<Entry>, data: Item) -> int
    decreases entries.len(),
{
    if entries.len() == 0 {
        0
    } else if entries.first().data == data {
        0
    } else {
        1 + place_of(entries.drop_first(), data)
    }
}

/// The first leaf that holds `data` stands where no leaf before it holds it.
pub proof fn lemma_place_of(entries: Seq<Entry>, place: int, data: Item)
    requires
        0 <= place < entries.len(),
        entries[place].data == data,
        forall|i: int| 0 <= i < place ==> (#[trigger] entries[i]).data != data,
    ensures
        place_of(entries, data) == place,
    decreases entries.len(),
{
    if place > 0 {
        let rest = entries.drop_first();
        assert(entries[0].data != data);
        assert forall|i: int| 0 <= i < place - 1 implies (#[trigger] rest[i]).data != data by {
            assert(rest[i] == entries[i + 1]);
        }
        assert(rest[place - 1] == entries[place]);
        lemma_place_of(rest, place - 1, data);
    }
}

/// In a well-formed tree a task has one leaf, which stands at the rank of
/// the start that the index names.
proof fn lemma_place_of_task(tree: &ScheduleTree, key: u64)
    requires
        tree.wf(),
        tree.index().contains_key(key),
    ensures
        place_of(tree.entries(), Item::Task(key)) == rank(
            tree.entries(),
            tree.index()[key] as int,
        ),
{
    let entries = tree.entries();
    let place = rank(entries, tree.index()[key] as int);
    tree.lemma_entries();
    lemma_rank_bounds(entries, tree.index()[key] as int);
    assert(scheduled_at(entries, tree.index()[key] as int, Item::Task(key)));
    assert forall|i: int| 0 <= i < place implies (#[trigger] entries[i]).data != Item::Task(
        key,
    ) by {
        if entries[i].data == Item::Task(key) {
            assert(entries[i].start == entries[place].start);
            assert(entries[i].end <= entries[place].start);
        }
    }
    lemma_place_of(entries, place, Item::Task(key));
}

/// The leaves after each task that `snapshot` names from `from` on has
/// been pulled towards `start`, in turn.
pub open spec fn compacted(
    entries: Seq<Entry>,
    snapshot: Seq<Entry>,
    tasks: Seq<Task>,
    start: int,
    from: int,
) -> Seq<Entry>
    decreases snapshot.len() - from,
{
    if from < 0 || from >= snapshot.len() {
        entries
    } else {
        match snapshot[from].data {
            Item::Task(_) => compacted(
                pulled(entries, tasks, start, place_of(entries, snapshot[from].data)),
                snapshot,
                tasks,
                start,
                from + 1,
            ),
            Item::Nothing => compacted(entries, snapshot, tasks, start, from + 1),
        }
    }
}

/// The leaves of the tree in the order of the clock.
fn leaves_of(tree: &ScheduleTree) -> (leaves: Vec<Entry>)
    ensures
        leaves@ == tree.entries(),
{
    let mut leaves: Vec<Entry> = Vec::new();
    let mut iter = tree.iter();
    loop
        invariant
            leaves@ + iter.remaining() == tree.entries(),
        ensures
            leaves@ == tree.entries(),
        decreases iter.remaining().len(),
    {
        let ghost rest = iter.remaining();
        match iter.next() {
            Some(entry) => {
                proof {
                    assert(leaves@.push(entry) + rest.drop_first() =~= leaves@ + rest);
                }
                leaves.push(entry);
            },
            None => {
                proof {
                    assert(leaves@ + rest =~= leaves@);
                }
                break ;
            },
        }
    }
    leaves
}

/// A tree without tasks holds every task in time.
proof fn lemma_no_tasks(tree: &ScheduleTree, tasks: Seq<Task>, start: int)
    requires
        tree.wf(),
        all_scheduled(tree.index(), 0),
    ensures
        in_time(tree.entries(), tasks, start, 0),
{
    let entries = tree.entries();
    assert forall|i: int| 0 <= i < entries.len() implies !((#[trigger] entries[i]).data is Task) by {
        if let Item::Task(key) = entries[i].data {
            assert(tree.index().contains_key(key));
        }
    }
}

/// Sorting leaves every task valid.
proof fn lemma_sorted_valid(tasks: Seq<Task>, key: spec_fn(Task) -> (int, int))
    requires
        valid_tasks(tasks),
    ensures
        valid_tasks(stable_sorted(tasks, key)),
        stable_sorted(tasks, key).len() == tasks.len(),
{
    lemma_stable_sorted(tasks, key);
    lemma_stable_sorted_members(tasks, key);
    let sorted = stable_sorted(tasks, key);
    assert forall|i: int| 0 <= i < sorted.len() implies (#[trigger] sorted[i]).duration > 0 by {
        assert(tasks.contains(sorted[i]));
        let j = choose|j: int| 0 <= j < tasks.len() && tasks[j] == sorted[i];
        assert(tasks[j].duration > 0);
    }
}

/// Schedules `tasks` according to deadline first and then according to importance.
///
/// First, all tasks --- starting with the least important until the most important --- are
/// scheduled as close as possible to their deadline. Next, all tasks are put as close to the
/// present as possible, keeping the order from the first scheduling phase.
///
/// This algorithm is how Myrjam Van de Vijver does her personal scheduling. A benefit of doing
/// it this way, is that it is highly robust against contingencies like falling sick. A
/// disadvantage is that it gives more priority to urgent but less important tasks than to
/// important but less urgent tasks.
///
/// The tasks are left in the order in which they were taken up; the key of
/// a task in the tree is its place in that order.
#[verifier::rlimit(40)]
pub fn schedule_according_to_myrjam(
    tree: &mut ScheduleTree,
    start: i64,
    tasks: &mut Vec<Task>,
) -> (done: Result<(), Error>)
    requires
        old(tree).wf(),
        all_scheduled(old(tree).index(), 0),
        valid_tasks(old(tasks)@),
    ensures
        final(tasks)@ == stable_sorted(old(tasks)@, order_key(None)),
        final(tree).wf(),
        match done {
            Ok(()) => {
                &&& all_scheduled(final(tree).index(), final(tasks).len() as int)
                &&& in_time(
                    final(tree).entries(),
                    final(tasks)@,
                    start as int,
                    final(tasks).len() as int,
                )
                &&& same_blocks(old(tree).entries(), final(tree).entries())
                &&& backloaded(old(tree).entries(), final(tasks)@, start as int, 0) matches Ok(
                    late,
                ) && final(tree).entries() == compacted(
                    late,
                    late,
                    final(tasks)@,
                    start as int,
                    0,
                )
            },
            Err(error) => backloaded(old(tree).entries(), final(tasks)@, start as int, 0) == Err::<
                Seq<Entry>,
                Error,
            >(error),
        },
{
    let ghost first = tree.entries();
    proof {
        lemma_sorted_valid(tasks@, order_key(None));
    }
    // Start by scheduling the least important tasks closest to the deadline, and so on.
    sort_tasks(tasks, None);
    proof {
        lemma_no_tasks(tree, tasks@, start as int);
    }
    match backload(tree, start, tasks) {
        Err(error) => {
            return Err(error);
        },
        Ok(()) => {},
    }
    // Next, shift the all tasks towards the present, filling up the gaps.
    let entries = leaves_of(tree);
    let ghost late = tree.entries();
    let mut j: usize = 0;
    while j < entries.len()
        invariant
            0 <= j <= entries.len(),
            entries@ == late,
            tree.wf(),
            valid_tasks(tasks@),
            in_time(late, tasks@, start as int, tasks.len() as int),
            all_scheduled(tree.index(), tasks.len() as int),
            in_time(tree.entries(), tasks@, start as int, tasks.len() as int),
            same_blocks(first, tree.entries()),
            compacted(tree.entries(), late, tasks@, start as int, j as int) == compacted(
                late,
                late,
                tasks@,
                start as int,
                0,
            ),
        decreases entries.len() - j,
    {
        let entry = entries[j];
        if let Item::Task(key) = entry.data {
            proof {
                assert(tree.index().contains_key(key));
                lemma_place_of_task(tree, key);
            }
            let ghost before = tree.entries();
            match pull_forward(tree, start, tasks, key as usize) {
                Ok(_) => {},
                Err(error) => {
                    return Err(error);
                },
            }
            proof {
                lemma_blocks_trans(first, before, tree.entries());
            }
        }
        j += 1;
    }
    Ok(())
}

/// One sweep over the first `upto` tasks, from the last of them to the
/// first: each is pulled towards `start` until one of them moves. Gives the
/// leaves after the sweep and whether a task has moved.
pub open spec fn swept(entries: Seq<Entry>, tasks: Seq<Task>, start: int, upto: int) -> (
    Seq<Entry>,
    bool,
)
    decreases upto,
{
    if upto <= 0 {
        (entries, false)
    } else {
        let place = place_of(entries, Item::Task((upto - 1) as u64));
        let after = pulled(entries, tasks, start, place);
        if moved_to(entries, start, place) != entries[place].start {
            (after, true)
        } else {
            swept(after, tasks, start, upto - 1)
        }
    }
}

/// The leaves after a number of sweeps over all tasks.
pub open spec fn swept_times(entries: Seq<Entry>, tasks: Seq<Task>, start: int, rounds: nat) -> Seq<
    Entry,
>
    decreases rounds,
{
    if rounds == 0 {
        entries
    } else {
        swept(
            swept_times(entries, tasks, start, (rounds - 1) as nat),
            tasks,
            start,
            tasks.len() as int,
        ).0
    }
}

/// After `rounds` sweeps in each of which a task has moved comes a sweep
/// in which none moves.
pub open spec fn settles_after(entries: Seq<Entry>, tasks: Seq<Task>, start: int, rounds: nat) -> bool {
    &&& !swept(swept_times(entries, tasks, start, rounds), tasks, start, tasks.len() as int).1
    &&& forall|round: nat|
        round < rounds ==> (#[trigger] swept(
            swept_times(entries, tasks, start, round),
            tasks,
            start,
            tasks.len() as int,
        )).1
}

/// The leaves after the sweeps over all tasks have come to rest.
pub open spec fn settled(entries: Seq<Entry>, tasks: Seq<Task>, start: int) -> Seq<Entry> {
    let rounds = choose|rounds: nat| settles_after(entries, tasks, start, rounds);
    swept(swept_times(entries, tasks, start, rounds), tasks, start, tasks.len() as int).0
}

/// The sweeps come to rest after one number of rounds only.
pub proof fn lemma_settled(entries: Seq<Entry>, tasks: Seq<Task>, start: int, rounds: nat)
    requires
        settles_after(entries, tasks, start, rounds),
    ensures
        settled(entries, tasks, start) == swept(
            swept_times(entries, tasks, start, rounds),
            tasks,
            start,
            tasks.len() as int,
        ).0,
{
    let chosen = choose|chosen: nat| settles_after(entries, tasks, start, chosen);
    if chosen < rounds {
        assert(swept(
            swept_times(entries, tasks, start, chosen),
            tasks,
            start,
            tasks.len() as int,
        ).1);
    } else if rounds < chosen {
        assert(swept(
            swept_times(entries, tasks, start, rounds),
            tasks,
            start,
            tasks.len() as int,
        ).1);
    }
}

/// Schedules `tasks` according to importance while making sure all deadlines are met.
///
/// First, all tasks --- starting with the least important until the most important --- are
/// scheduled as close as possible to their deadline. Next, all tasks --- starting with the
/// most important until the least important --- are put as close to the present as possible.
/// For ties on importance, more urgent tasks are scheduled later in the first phase and sooner
/// in the second phase.
///
/// The tasks are left in the order in which they were taken up; the key of
/// a task in the tree is its place in that order.
#[verifier::rlimit(40)]
pub fn schedule_according_to_importance(
    tree: &mut ScheduleTree,
    start: i64,
    tasks: &mut Vec<Task>,
) -> (done: Result<(), Error>)
    requires
        old(tree).wf(),
        all_scheduled(old(tree).index(), 0),
        valid_tasks(old(tasks)@),
    ensures
        final(tasks)@ == stable_sorted(old(tasks)@, order_key(Some(start))),
        final(tree).wf(),
        match done {
            Ok(()) => {
                &&& all_scheduled(final(tree).index(), final(tasks).len() as int)
                &&& in_time(
                    final(tree).entries(),
                    final(tasks)@,
                    start as int,
                    final(tasks).len() as int,
                )
                &&& same_blocks(old(tree).entries(), final(tree).entries())
                &&& backloaded(old(tree).entries(), final(tasks)@, start as int, 0) matches Ok(
                    late,
                ) && final(tree).entries() == settled(late, final(tasks)@, start as int)
            },
            Err(error) => backloaded(old(tree).entries(), final(tasks)@, start as int, 0) == Err::<
                Seq<Entry>,
                Error,
            >(error),
        },
{
    let ghost first = tree.entries();
    proof {
        lemma_sorted_valid(tasks@, order_key(Some(start)));
    }
    // Start by scheduling the least important tasks closest to the deadline, and so on.
    sort_tasks(tasks, Some(start));
    proof {
        lemma_no_tasks(tree, tasks@, start as int);
    }
    match backload(tree, start, tasks) {
        Err(error) => {
            return Err(error);
        },
        Ok(()) => {},
    }
    let ghost late = tree.entries();
    let ghost mut rounds: nat = 0;
    // Next, shift the most important tasks towards today, and so on, filling up the gaps.
    // Keep repeating that, until nothing changes anymore (i.e. all gaps are filled).
    let mut changed = !tree.is_empty();
    proof {
        if !changed {
            assert(tasks.len() == 0) by {
                if tasks.len() > 0 {
                    assert(tree.index().contains_key(0u64));
                    assert(scheduled_at(
                        tree.entries(),
                        tree.index()[0u64] as int,
                        Item::Task(0u64),
                    ));
                }
            }
        }
    }
    while changed
        invariant
            tree.wf(),
            valid_tasks(tasks@),
            all_scheduled(tree.index(), tasks.len() as int),
            in_time(tree.entries(), tasks@, start as int, tasks.len() as int),
            same_blocks(first, tree.entries()),
            forall|round: nat|
                round < rounds ==> (#[trigger] swept(
                    swept_times(late, tasks@, start as int, round),
                    tasks@,
                    start as int,
                    tasks.len() as int,
                )).1,
            changed ==> tree.entries() == swept_times(late, tasks@, start as int, rounds),
            !changed ==> swept(
                swept_times(late, tasks@, start as int, rounds),
                tasks@,
                start as int,
                tasks.len() as int,
            ) == (tree.entries(), false),
        decreases
                load(tree.entries(), start as int),
                (if changed {
                    1int
                } else {
                    0int
                }),
    {
        let ghost heavy = load(tree.entries(), start as int);
        let ghost before_sweep = tree.entries();
        proof {
            lemma_load_in_time(tree.entries(), tasks@, start as int, tasks.len() as int);
        }
        changed = false;
        let mut i: usize = tasks.len();
        while i > 0 && !changed
            invariant
                0 <= i <= tasks.len(),
                tree.wf(),
                valid_tasks(tasks@),
                all_scheduled(tree.index(), tasks.len() as int),
                in_time(tree.entries(), tasks@, start as int, tasks.len() as int),
                same_blocks(first, tree.entries()),
                load(tree.entries(), start as int) >= 0,
                changed ==> load(tree.entries(), start as int) < heavy,
                !changed ==> load(tree.entries(), start as int) == heavy,
                !changed ==> swept(tree.entries(), tasks@, start as int, i as int) == swept(
                    before_sweep,
                    tasks@,
                    start as int,
                    tasks.len() as int,
                ),
                changed ==> swept(before_sweep, tasks@, start as int, tasks.len() as int) == (
                    tree.entries(),
                    true,
                ),
            decreases i,
        {
            i -= 1;
            let ghost before = tree.entries();
            proof {
                assert(tree.index().contains_key(i as u64));
                lemma_place_of_task(tree, i as u64);
            }
            let scheduled_entry = match pull_forward(tree, start, tasks, i) {
                Ok(entry) => entry,
                Err(error) => {
                    return Err(error);
                },
            };
            proof {
                lemma_blocks_trans(first, before, tree.entries());
                lemma_load_in_time(tree.entries(), tasks@, start as int, tasks.len() as int);
            }
            let new_start = match tree.when_scheduled(&Item::Task(i as u64)) {
                Some(new_start) => *new_start,
                None => {
                    return Err(
                        Error::Internal("I couldn't find a task that was just scheduled"),
                    );
                },
            };
            if scheduled_entry.start != new_start {
                changed = true;
            }
        }
        proof {
            if changed {
                rounds = rounds + 1;
            }
        }
    }
    proof {
        assert(settles_after(late, tasks@, start as int, rounds));
        lemma_settled(late, tasks@, start as int, rounds);
    }
    Ok(())
}

} // verus!
