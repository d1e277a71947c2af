//! Merging the schedules of several segments in the order of the clock.

use crate::scheduling::{chronological, on_time, tasks_of, Scheduled, Task};
use itertools::Itertools;
use vstd::prelude::*;

verus! {

/// The schedule that comes of two: at each step the next task of the one
/// that begins no later than the next task of the other, and then what is
/// left of either.
pub open spec fn interleaved(ours: Seq<Scheduled>, theirs: Seq<Scheduled>) -> Seq<Scheduled>
    decreases ours.len() + theirs.len(),
{
    if ours.len() == 0 {
        theirs
    } else if theirs.len() == 0 {
        ours
    } else if ours.first().when <= theirs.first().when {
        seq![ours.first()] + interleaved(ours.drop_first(), theirs)
    } else {
        seq![theirs.first()] + interleaved(ours, theirs.drop_first())
    }
}

/// Whether a scheduled task comes first of two.
fn comes_first(ours: &Scheduled, theirs: &Scheduled) -> (first: bool)
    ensures
        first == (ours.when <= theirs.when),
{
    ours.when <= theirs.when
}

/// itertools' `merge_by` yields, while both schedules have a next task, the
/// next task of the first where the closure says so and else that of the
/// second, and then what is left of either.
#[verifier::external_body]
pub(crate) fn merge_schedules(ours: Vec<Scheduled>, theirs: Vec<Scheduled>) -> (merged: Vec<Scheduled>)
    ensures
        merged@ == interleaved(ours@, theirs@),
{
    ours.into_iter().merge_by(theirs, |ours, theirs| comes_first(ours, theirs)).collect()
}

/// Two schedules in which the tasks come on time and in order make one
/// such schedule, which holds the tasks of both.
#[verifier::rlimit(40)]
pub proof fn lemma_interleaved(ours: Seq<Scheduled>, theirs: Seq<Scheduled>, start: int)
    requires
        on_time(ours, start),
        on_time(theirs, start),
        chronological(ours),
        chronological(theirs),
    ensures
        on_time(interleaved(ours, theirs), start),
        chronological(interleaved(ours, theirs)),
        tasks_of(interleaved(ours, theirs)).to_multiset() == tasks_of(ours).to_multiset().add(
            tasks_of(theirs).to_multiset(),
        ),
        forall|i: int|
            0 <= i < interleaved(ours, theirs).len() ==> ours.contains(
                #[trigger] interleaved(ours, theirs)[i],
            ) || theirs.contains(interleaved(ours, theirs)[i]),
    decreases ours.len() + theirs.len(),
{
    broadcast use vstd::multiset::group_multiset_axioms;

    let all = interleaved(ours, theirs);
    if ours.len() == 0 {
        assert(tasks_of(ours) =~= Seq::<Task>::empty());
        assert(tasks_of(ours).to_multiset() =~= vstd::multiset::Multiset::<Task>::empty()) by {
            broadcast use vstd::seq_lib::to_multiset_len;

            assert(tasks_of(ours).to_multiset().len() == 0);
        }
        assert(tasks_of(all).to_multiset() =~= tasks_of(ours).to_multiset().add(
            tasks_of(theirs).to_multiset(),
        ));
        assert forall|i: int| 0 <= i < all.len() implies theirs.contains(#[trigger] all[i]) by {}
    } else if theirs.len() == 0 {
        assert(tasks_of(theirs) =~= Seq::<Task>::empty());
        assert(tasks_of(theirs).to_multiset() =~= vstd::multiset::Multiset::<Task>::empty()) by {
            broadcast use vstd::seq_lib::to_multiset_len;

            assert(tasks_of(theirs).to_multiset().len() == 0);
        }
        assert(tasks_of(all).to_multiset() =~= tasks_of(ours).to_multiset().add(
            tasks_of(theirs).to_multiset(),
        ));
        assert forall|i: int| 0 <= i < all.len() implies ours.contains(#[trigger] all[i]) by {}
    } else {
        let ours_first = ours.first().when <= theirs.first().when;
        let (head, a, b) = if ours_first {
            (ours.first(), ours.drop_first(), theirs)
        } else {
            (theirs.first(), ours, theirs.drop_first())
        };
        let taken = if ours_first {
            ours
        } else {
            theirs
        };
        let left = taken.drop_first();
        assert(on_time(left, start) && chronological(left)) by {
            assert forall|i: int| 0 <= i < left.len() implies start <= (#[trigger] left[i]).when
                && left[i].when + left[i].task.duration <= left[i].task.deadline by {
                assert(left[i] == taken[i + 1]);
            }
            assert forall|i: int, j: int| 0 <= i < j < left.len() implies (
            #[trigger] left[i]).when <= (#[trigger] left[j]).when by {
                assert(left[i] == taken[i + 1] && left[j] == taken[j + 1]);
            }
        }
        lemma_interleaved(a, b, start);
        let rest = interleaved(a, b);
        assert(all == seq![head] + rest);
        assert(taken[0] == head);
        assert forall|i: int| 0 <= i < rest.len() implies head.when <= (#[trigger] rest[i]).when
            && (ours.contains(rest[i]) || theirs.contains(rest[i])) by {
            if a.contains(rest[i]) {
                let k = choose|k: int| 0 <= k < a.len() && a[k] == rest[i];
                if ours_first {
                    assert(ours[k + 1] == rest[i]);
                    assert(ours[0].when <= ours[k + 1].when);
                } else {
                    assert(ours[k] == rest[i]);
                    if k > 0 {
                        assert(ours[0].when <= ours[k].when);
                    }
                }
            } else {
                let k = choose|k: int| 0 <= k < b.len() && b[k] == rest[i];
                if ours_first {
                    assert(theirs[k] == rest[i]);
                    if k > 0 {
                        assert(theirs[0].when <= theirs[k].when);
                    }
                } else {
                    assert(theirs[k + 1] == rest[i]);
                    assert(theirs[0].when <= theirs[k + 1].when);
                }
            }
        }
        assert forall|i: int| 0 <= i < all.len() implies start <= (#[trigger] all[i]).when
            && all[i].when + all[i].task.duration <= all[i].task.deadline && (ours.contains(
            all[i],
        ) || theirs.contains(all[i])) by {
            if i > 0 {
                assert(all[i] == rest[i - 1]);
            } else {
                assert(taken.contains(head));
            }
        }
        assert forall|i: int, j: int| 0 <= i < j < all.len() implies (#[trigger] all[i]).when <= (
        #[trigger] all[j]).when by {
            assert(all[j] == rest[j - 1]);
            if i > 0 {
                assert(all[i] == rest[i - 1]);
            }
        }
        assert(tasks_of(all) =~= seq![head.task] + tasks_of(rest));
        assert(tasks_of(taken) =~= seq![head.task] + tasks_of(left));
        vstd::seq_lib::lemma_multiset_commutative(seq![head.task], tasks_of(rest));
        vstd::seq_lib::lemma_multiset_commutative(seq![head.task], tasks_of(left));
        assert(tasks_of(all).to_multiset() =~= tasks_of(ours).to_multiset().add(
            tasks_of(theirs).to_multiset(),
        ));
    }
}

} // verus!
