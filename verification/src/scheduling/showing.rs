//! What a schedule shows of a tree: the tasks of its leaves, each with the
//! instant at which its leaf begins.

use crate::item::Item;
use crate::schedule_tree::ScheduleTree;
use crate::scheduling::{ascending, on_time, one_at_a_time, tasks_of, Scheduled, Task};
use crate::scheduling::strategies::{all_scheduled, in_time, leaf_of};
use crate::sorting::{lemma_picked_multiset, picked, rearranges};
use crate::spans::{lemma_rank_bounds, ordered, rank, scheduled_at, Entry};
use vstd::prelude::*;

verus! {

/// The tasks of the leaves with the instants at which the leaves begin.
pub open spec fn projected(entries: Seq<Entry>, tasks: Seq<Task>) -> Seq<Scheduled>
    decreases entries.len(),
{
    if entries.len() == 0 {
        Seq::empty()
    } else {
        let rest = projected(entries.drop_first(), tasks);
        match entries.first().data {
            Item::Task(key) => seq![
                Scheduled { task: tasks[key as int], when: entries.first().start },
            ] + rest,
            Item::Nothing => rest,
        }
    }
}

/// The keys of the leaves that hold a task.
pub open spec fn keys_of(entries: Seq<Entry>) -> Seq<int>
    decreases entries.len(),
{
    if entries.len() == 0 {
        Seq::empty()
    } else {
        let rest = keys_of(entries.drop_first());
        match entries.first().data {
            Item::Task(key) => seq![key as int] + rest,
            Item::Nothing => rest,
        }
    }
}

/// One of the leaves holds a task from the instant at which the scheduled
/// task begins to the instant at which it ends.
pub open spec fn has_leaf(entries: Seq<Entry>, scheduled: Scheduled) -> bool {
    exists|j: int|
        0 <= j < entries.len() && (#[trigger] entries[j]).data is Task && entries[j].start
            == scheduled.when && entries[j].end == scheduled.when + scheduled.task.duration
}

/// No two leaves hold the same task.
pub open spec fn distinct_tasks(entries: Seq<Entry>) -> bool {
    forall|i: int, j: int|
        0 <= i < entries.len() && 0 <= j < entries.len() && i != j && (
        #[trigger] entries[i]).data is Task ==> entries[i].data != (#[trigger] entries[j]).data
}

/// Each leaf that holds a task holds one of the first `count` tasks.
pub open spec fn known(entries: Seq<Entry>, count: int) -> bool {
    forall|i: int|
        0 <= i < entries.len() ==> ((#[trigger] entries[i]).data matches Item::Task(key) ==> key
            < count)
}

/// What a schedule shows of the leaves: each task that has a leaf, where
/// the leaf begins, in the order of the leaves.
#[verifier::rlimit(40)]
proof fn lemma_projected(entries: Seq<Entry>, tasks: Seq<Task>, start: int, count: int)
    requires
        ordered(entries),
        in_time(entries, tasks, start, count),
    ensures
        projected(entries, tasks).len() == keys_of(entries).len(),
        forall|i: int|
            0 <= i < keys_of(entries).len() ==> {
                &&& 0 <= #[trigger] keys_of(entries)[i] < count
                &&& projected(entries, tasks)[i].task == tasks[keys_of(entries)[i]]
                &&& entries.contains(
                    leaf_of(tasks, keys_of(entries)[i], projected(entries, tasks)[i].when as int),
                )
            },
        on_time(projected(entries, tasks), start),
        one_at_a_time(projected(entries, tasks)),
        forall|i: int|
            0 <= i < projected(entries, tasks).len() ==> entries.first().start <= (
            #[trigger] projected(entries, tasks)[i]).when && projected(
                entries,
                tasks,
            )[i].task.duration > 0,
    decreases entries.len(),
{
    if entries.len() > 0 {
        let first = entries.first();
        let rest = entries.drop_first();
        assert(ordered(rest) && in_time(rest, tasks, start, count)) by {
            assert forall|i: int| 0 <= i < rest.len() implies (#[trigger] rest[i]).start
                < rest[i].end by {
                assert(rest[i] == entries[i + 1]);
            }
            assert forall|i: int, j: int| 0 <= i < j < rest.len() implies (#[trigger] rest[i]).end
                <= (#[trigger] rest[j]).start by {
                assert(rest[i] == entries[i + 1] && rest[j] == entries[j + 1]);
            }
            assert forall|i: int| 0 <= i < rest.len() implies ((#[trigger] rest[i]).data matches Item::Task(
                k,
            ) ==> {
                &&& k < count
                &&& start <= rest[i].start
                &&& rest[i].end == rest[i].start + tasks[k as int].duration
                &&& rest[i].end <= tasks[k as int].deadline
            }) by {
                assert(rest[i] == entries[i + 1]);
            }
        }
        lemma_projected(rest, tasks, start, count);
        let shown = projected(entries, tasks);
        let keys = keys_of(entries);
        let shown_rest = projected(rest, tasks);
        let keys_rest = keys_of(rest);
        assert(entries[0] == first);
        if rest.len() > 0 {
            assert(rest[0] == entries[1]);
            assert(entries[0].end <= entries[1].start);
        }
        let shift = if first.data is Task {
            1int
        } else {
            0int
        };
        assert forall|i: int| 0 <= i < keys.len() implies {
            &&& 0 <= #[trigger] keys[i] < count
            &&& shown[i].task == tasks[keys[i]]
            &&& entries.contains(leaf_of(tasks, keys[i], shown[i].when as int))
        } by {
            if i >= shift {
                assert(keys[i] == keys_rest[i - shift]);
                assert(shown[i] == shown_rest[i - shift]);
                let leaf = leaf_of(tasks, keys_rest[i - shift], shown_rest[i - shift].when as int);
                assert(rest.contains(leaf));
                let j = choose|j: int| 0 <= j < rest.len() && rest[j] == leaf;
                assert(entries[j + 1] == leaf);
            } else {
                assert(entries[0] == leaf_of(tasks, keys[i], shown[i].when as int));
            }
        }
        assert forall|i: int| 0 <= i < shown.len() implies start <= (#[trigger] shown[i]).when
            && shown[i].when + shown[i].task.duration <= shown[i].task.deadline
            && entries.first().start <= shown[i].when && shown[i].task.duration > 0 by {
            if i >= shift {
                assert(shown[i] == shown_rest[i - shift]);
            }
        }
        assert forall|i: int, j: int| 0 <= i < j < shown.len() implies (
        #[trigger] shown[i]).when + shown[i].task.duration <= (#[trigger] shown[j]).when by {
            assert(shown[j] == shown_rest[j - shift]);
            if i >= shift {
                assert(shown[i] == shown_rest[i - shift]);
            }
        }
    }
}

/// The keys are those of the leaves that hold a task, each of them once.
#[verifier::rlimit(40)]
proof fn lemma_keys(entries: Seq<Entry>)
    requires
        distinct_tasks(entries),
    ensures
        keys_of(entries).no_duplicates(),
        forall|i: int|
            0 <= i < keys_of(entries).len() ==> 0 <= #[trigger] keys_of(entries)[i] <= u64::MAX
                && exists|j: int|
                0 <= j < entries.len() && (#[trigger] entries[j]).data == Item::Task(
                    keys_of(entries)[i] as u64,
                ),
        forall|j: int|
            0 <= j < entries.len() ==> ((#[trigger] entries[j]).data matches Item::Task(key)
                ==> keys_of(entries).contains(key as int)),
    decreases entries.len(),
{
    if entries.len() > 0 {
        let first = entries.first();
        let rest = entries.drop_first();
        let keys = keys_of(entries);
        let keys_rest = keys_of(rest);
        assert(distinct_tasks(rest)) by {
            assert forall|i: int, j: int|
                0 <= i < rest.len() && 0 <= j < rest.len() && i != j && (
                #[trigger] rest[i]).data is Task implies rest[i].data != (
            #[trigger] rest[j]).data by {
                assert(rest[i] == entries[i + 1] && rest[j] == entries[j + 1]);
            }
        }
        lemma_keys(rest);
        let shift = if first.data is Task {
            1int
        } else {
            0int
        };
        assert forall|i: int| 0 <= i < keys.len() implies 0 <= #[trigger] keys[i] <= u64::MAX
            && exists|j: int|
            0 <= j < entries.len() && (#[trigger] entries[j]).data == Item::Task(
                keys[i] as u64,
            ) by {
            if i >= shift {
                assert(keys[i] == keys_rest[i - shift]);
                let j = choose|j: int|
                    0 <= j < rest.len() && (#[trigger] rest[j]).data == Item::Task(
                        keys_rest[i - shift] as u64,
                    );
                assert(entries[j + 1] == rest[j]);
            } else {
                assert(entries[0].data == Item::Task(keys[i] as u64));
            }
        }
        assert forall|j: int| 0 <= j < entries.len() implies ((
        #[trigger] entries[j]).data matches Item::Task(key) ==> keys.contains(key as int)) by {
            if let Item::Task(key) = entries[j].data {
                if j == 0 {
                    assert(keys[0] == key as int);
                } else {
                    assert(rest[j - 1] == entries[j]);
                    assert(keys_rest.contains(key as int));
                    let i = choose|i: int| 0 <= i < keys_rest.len() && keys_rest[i] == key as int;
                    assert(keys[i + shift] == key as int);
                }
            }
        }
        assert forall|a: int, b: int|
            0 <= a < keys.len() && 0 <= b < keys.len() && a != b implies keys[a] != keys[b] by {
            if a >= shift && b >= shift {
                assert(keys[a] == keys_rest[a - shift] && keys[b] == keys_rest[b - shift]);
            } else {
                let other = if a < shift {
                    b
                } else {
                    a
                };
                assert(keys[other] == keys_rest[other - shift]);
                let j = choose|j: int|
                    0 <= j < rest.len() && (#[trigger] rest[j]).data == Item::Task(
                        keys_rest[other - shift] as u64,
                    );
                assert(entries[j + 1] == rest[j]);
                assert(entries[0].data != entries[j + 1].data);
            }
        }
    }
}

/// The tasks that a well-formed tree shows, once every task has a leaf in
/// time, are the tasks, each at work on its own between `start` and its
/// deadline.
#[verifier::rlimit(40)]
pub proof fn lemma_shown(tree: &ScheduleTree, tasks: Seq<Task>, start: int)
    requires
        tree.wf(),
        tasks.len() <= usize::MAX,
        all_scheduled(tree.index(), tasks.len() as int),
        in_time(tree.entries(), tasks, start, tasks.len() as int),
    ensures
        on_time(projected(tree.entries(), tasks), start),
        one_at_a_time(projected(tree.entries(), tasks)),
        ascending(projected(tree.entries(), tasks)),
        tasks_of(projected(tree.entries(), tasks)).to_multiset() == tasks.to_multiset(),
        projected(tree.entries(), tasks).len() == tasks.len(),
        forall|i: int|
            0 <= i < projected(tree.entries(), tasks).len() ==> has_leaf(
                tree.entries(),
                #[trigger] projected(tree.entries(), tasks)[i],
            ),
{
    let entries = tree.entries();
    let keys = keys_of(entries);
    let shown = projected(entries, tasks);
    let count = tasks.len() as int;
    tree.lemma_entries();
    lemma_projected(entries, tasks, start, count);
    assert(distinct_tasks(entries)) by {
        assert forall|i: int, j: int|
            0 <= i < entries.len() && 0 <= j < entries.len() && i != j && (
            #[trigger] entries[i]).data is Task implies entries[i].data != (
        #[trigger] entries[j]).data by {
            if entries[i].data == entries[j].data {
                if i < j {
                    assert(entries[i].end <= entries[j].start);
                } else {
                    assert(entries[j].end <= entries[i].start);
                }
            }
        }
    }
    lemma_keys(entries);
    assert(rearranges(keys, count)) by {
        assert forall|place: int| 0 <= place < count implies keys.contains(place) by {
            assert(tree.index().contains_key(place as u64));
            assert(scheduled_at(
                entries,
                tree.index()[place as u64] as int,
                Item::Task(place as u64),
            ));
            let at = rank(entries, tree.index()[place as u64] as int);
            lemma_rank_bounds(entries, tree.index()[place as u64] as int);
            assert(entries[at].data == Item::Task(place as u64));
            assert(keys.contains((place as u64) as int));
        }
    }
    lemma_picked_multiset(tasks, keys);
    assert(tasks_of(shown) =~= picked(tasks, keys));
    assert forall|i: int| 0 <= i < shown.len() implies has_leaf(entries, #[trigger] shown[i]) by {
        let leaf = leaf_of(tasks, keys[i], shown[i].when as int);
        assert(0 <= keys[i] < count);
        assert(entries.contains(leaf));
        let j = choose|j: int| 0 <= j < entries.len() && entries[j] == leaf;
        assert(entries[j].data is Task);
    }
}

} // verus!
