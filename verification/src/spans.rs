//! Occupied spans of time in the order of the clock: what it means for them
//! to be in order, where a span stands among them, and how the index of the
//! tasks follows them.

use crate::item::Item;
use crate::scheduling::Task;
use vstd::prelude::*;

verus! {

/// A half-open span of time `[start, end)`.
#[derive(Debug, Clone, Copy, PartialEq, Eq, Structural)]
pub struct TimeRange {
    pub start: i64,
    pub end: i64,
}

/// One occupied span of the schedule.
#[derive(Debug, Clone, Copy, PartialEq, Eq)]
pub struct Entry {
    pub start: i64,
    pub end: i64,
    pub data: Item,
}

/// Every span is non-empty and the spans follow each other without overlap.
pub open spec fn ordered(leaves: Seq<Entry>) -> bool {
    &&& forall|i: int| 0 <= i < leaves.len() ==> (#[trigger] leaves[i]).start < leaves[i].end
    &&& forall|i: int, j: int|
        0 <= i < j < leaves.len() ==> (#[trigger] leaves[i]).end <= (#[trigger] leaves[j]).start
}

/// No span reaches into `[start, end)`.
pub open spec fn clear(leaves: Seq<Entry>, start: int, end: int) -> bool {
    forall|i: int|
        0 <= i < leaves.len() ==> (#[trigger] leaves[i]).end <= start || end <= leaves[i].start
}

/// The number of spans that begin before `start`: among ordered spans, the
/// place of the span that begins at `start`.
pub open spec fn rank(leaves: Seq<Entry>, start: int) -> int
    decreases leaves.len(),
{
    if leaves.len() == 0 {
        0
    } else {
        rank(leaves.drop_last(), start) + if leaves.last().start < start {
            1int
        } else {
            0int
        }
    }
}

/// `[start, end)` reaches into the span that the leaves cover from first to last.
pub open spec fn inside(leaves: Seq<Entry>, start: int, end: int) -> bool {
    leaves.len() > 0 && leaves.first().start < end && start < leaves.last().end
}

/// The rank of a start lies between nothing and the number of leaves.
pub proof fn lemma_rank_bounds(leaves: Seq<Entry>, start: int)
    ensures
        0 <= rank(leaves, start) <= leaves.len(),
    decreases leaves.len(),
{
    if leaves.len() > 0 {
        lemma_rank_bounds(leaves.drop_last(), start);
    }
}

/// The rank of a start in two runs of leaves is the sum of its ranks in each.
pub proof fn lemma_rank_concat(a: Seq<Entry>, b: Seq<Entry>, start: int)
    ensures
        rank(a + b, start) == rank(a, start) + rank(b, start),
    decreases b.len(),
{
    if b.len() == 0 {
        assert(a + b =~= a);
    } else {
        assert((a + b).drop_last() =~= a + b.drop_last());
        assert((a + b).last() == b.last());
        lemma_rank_concat(a, b.drop_last(), start);
    }
}

/// Where no leaf begins before `start`, its rank is nothing.
pub proof fn lemma_rank_none_before(leaves: Seq<Entry>, start: int)
    requires
        forall|i: int| 0 <= i < leaves.len() ==> (#[trigger] leaves[i]).start >= start,
    ensures
        rank(leaves, start) == 0,
    decreases leaves.len(),
{
    if leaves.len() > 0 {
        lemma_rank_none_before(leaves.drop_last(), start);
    }
}

/// Where every leaf begins before `start`, its rank is their number.
pub proof fn lemma_rank_all_before(leaves: Seq<Entry>, start: int)
    requires
        forall|i: int| 0 <= i < leaves.len() ==> (#[trigger] leaves[i]).start < start,
    ensures
        rank(leaves, start) == leaves.len(),
    decreases leaves.len(),
{
    if leaves.len() > 0 {
        lemma_rank_all_before(leaves.drop_last(), start);
    }
}

/// Among ordered spans the rank of a start is where the spans that begin
/// before it end and the others begin.
pub proof fn lemma_rank_ordered(leaves: Seq<Entry>, start: int)
    requires
        ordered(leaves),
    ensures
        forall|i: int| 0 <= i < rank(leaves, start) ==> (#[trigger] leaves[i]).start < start,
        forall|i: int|
            rank(leaves, start) <= i < leaves.len() ==> (#[trigger] leaves[i]).start >= start,
        0 <= rank(leaves, start) <= leaves.len(),
    decreases leaves.len(),
{
    if leaves.len() > 0 {
        let front = leaves.drop_last();
        assert(ordered(front)) by {
            assert forall|i: int| 0 <= i < front.len() implies (#[trigger] front[i]).start
                < front[i].end by {
                assert(front[i] == leaves[i]);
            }
            assert forall|i: int, j: int| 0 <= i < j < front.len() implies (#[trigger] front[i]).end
                <= (#[trigger] front[j]).start by {
                assert(front[i] == leaves[i]);
                assert(front[j] == leaves[j]);
            }
        }
        lemma_rank_ordered(front, start);
        lemma_rank_bounds(front, start);
        let n = leaves.len() - 1;
        if leaves.last().start < start {
            assert forall|i: int| 0 <= i < front.len() implies (#[trigger] front[i]).start
                < start by {
                assert(front[i] == leaves[i]);
                assert(leaves[i].start < leaves[i].end <= leaves[n].start);
            }
            lemma_rank_all_before(front, start);
            assert forall|i: int| 0 <= i < rank(leaves, start) implies (#[trigger] leaves[i]).start
                < start by {
                if i < n {
                    assert(front[i] == leaves[i]);
                }
            }
        } else {
            assert forall|i: int| 0 <= i < rank(leaves, start) implies (#[trigger] leaves[i]).start
                < start by {
                assert(front[i] == leaves[i]);
            }
            assert forall|i: int| rank(leaves, start) <= i < leaves.len() implies (
            #[trigger] leaves[i]).start >= start by {
                if i < n {
                    assert(front[i] == leaves[i]);
                }
            }
        }
    }
}

/// A span is clear of two runs of leaves where it is clear of each.
pub proof fn lemma_clear_concat(a: Seq<Entry>, b: Seq<Entry>, start: int, end: int)
    ensures
        clear(a + b, start, end) <==> clear(a, start, end) && clear(b, start, end),
{
    let ab = a + b;
    if clear(ab, start, end) {
        assert forall|i: int| 0 <= i < a.len() implies (#[trigger] a[i]).end <= start || end
            <= a[i].start by {
            assert(ab[i] == a[i]);
        }
        assert forall|i: int| 0 <= i < b.len() implies (#[trigger] b[i]).end <= start || end
            <= b[i].start by {
            assert(ab[a.len() + i] == b[i]);
        }
    }
    if clear(a, start, end) && clear(b, start, end) {
        assert forall|i: int| 0 <= i < ab.len() implies (#[trigger] ab[i]).end <= start || end
            <= ab[i].start by {
            if i < a.len() {
                assert(ab[i] == a[i]);
            } else {
                assert(ab[i] == b[i - a.len()]);
            }
        }
    }
}

/// Among ordered spans every span lies between the first start and the last end.
pub proof fn lemma_ordered_bounds(leaves: Seq<Entry>, i: int)
    requires
        ordered(leaves),
        0 <= i < leaves.len(),
    ensures
        leaves.first().start <= leaves[i].start,
        leaves[i].end <= leaves.last().end,
        leaves[i].start < leaves[i].end,
{
    if i > 0 {
        assert(leaves[0].end <= leaves[i].start);
    }
    if i < leaves.len() - 1 {
        assert(leaves[i].end <= leaves[leaves.len() - 1].start);
    }
}

/// A span that ends before the right run begins is placed in the left run.
pub proof fn lemma_place_left(l: Seq<Entry>, r: Seq<Entry>, e: Entry)
    requires
        ordered(l),
        ordered(r),
        l.len() > 0,
        r.len() > 0,
        l.last().end <= r.first().start,
        e.start < e.end <= l.last().end,
    ensures
        clear(l + r, e.start as int, e.end as int) <==> clear(l, e.start as int, e.end as int),
        inside(l + r, e.start as int, e.end as int) <==> inside(l, e.start as int, e.end as int),
        rank(l + r, e.start as int) == rank(l, e.start as int),
        0 <= rank(l, e.start as int) <= l.len(),
        l.insert(rank(l, e.start as int), e) + r == (l + r).insert(rank(l, e.start as int), e),
{
    let s = e.start as int;
    lemma_clear_concat(l, r, s, e.end as int);
    lemma_rank_concat(l, r, s);
    lemma_rank_bounds(l, s);
    assert forall|i: int| 0 <= i < r.len() implies (#[trigger] r[i]).start >= s && (r[i].end <= s
        || e.end <= r[i].start) by {
        lemma_ordered_bounds(r, i);
    }
    lemma_rank_none_before(r, s);
    lemma_ordered_bounds(r, 0);
    assert((l + r).first() == l.first());
    assert((l + r).last() == r.last());
    assert(l.insert(rank(l, s), e) + r =~= (l + r).insert(rank(l, s), e));
}

/// A span that begins after the left run ends is placed in the right run.
pub proof fn lemma_place_right(l: Seq<Entry>, r: Seq<Entry>, e: Entry)
    requires
        ordered(l),
        ordered(r),
        l.len() > 0,
        r.len() > 0,
        l.last().end <= r.first().start,
        r.first().start <= e.start < e.end,
    ensures
        clear(l + r, e.start as int, e.end as int) <==> clear(r, e.start as int, e.end as int),
        inside(l + r, e.start as int, e.end as int) <==> inside(r, e.start as int, e.end as int),
        rank(l + r, e.start as int) == l.len() + rank(r, e.start as int),
        0 <= rank(r, e.start as int) <= r.len(),
        l + r.insert(rank(r, e.start as int), e) == (l + r).insert(
            l.len() + rank(r, e.start as int),
            e,
        ),
{
    let s = e.start as int;
    lemma_clear_concat(l, r, s, e.end as int);
    lemma_rank_concat(l, r, s);
    lemma_rank_bounds(r, s);
    assert forall|i: int| 0 <= i < l.len() implies (#[trigger] l[i]).start < s && (l[i].end <= s
        || e.end <= l[i].start) by {
        lemma_ordered_bounds(l, i);
    }
    lemma_rank_all_before(l, s);
    lemma_ordered_bounds(l, 0);
    assert((l + r).first() == l.first());
    assert((l + r).last() == r.last());
    assert(l + r.insert(rank(r, s), e) =~= (l + r).insert(l.len() + rank(r, s), e));
}

/// A span that fits the gap between the two runs is placed between them.
pub proof fn lemma_place_between(l: Seq<Entry>, r: Seq<Entry>, e: Entry)
    requires
        ordered(l),
        ordered(r),
        l.len() > 0,
        r.len() > 0,
        l.last().end <= e.start < e.end <= r.first().start,
    ensures
        clear(l + r, e.start as int, e.end as int),
        inside(l + r, e.start as int, e.end as int),
        rank(l + r, e.start as int) == l.len(),
        l + (seq![e] + r) == (l + r).insert(l.len() as int, e),
{
    let s = e.start as int;
    lemma_clear_concat(l, r, s, e.end as int);
    lemma_rank_concat(l, r, s);
    assert forall|i: int| 0 <= i < l.len() implies (#[trigger] l[i]).start < s && (l[i].end <= s
        || e.end <= l[i].start) by {
        lemma_ordered_bounds(l, i);
    }
    assert forall|i: int| 0 <= i < r.len() implies (#[trigger] r[i]).start >= s && (r[i].end <= s
        || e.end <= r[i].start) by {
        lemma_ordered_bounds(r, i);
    }
    lemma_rank_all_before(l, s);
    lemma_rank_none_before(r, s);
    lemma_ordered_bounds(l, 0);
    lemma_ordered_bounds(r, r.len() - 1);
    assert((l + r).first() == l.first());
    assert((l + r).last() == r.last());
    assert(l + (seq![e] + r) =~= (l + r).insert(l.len() as int, e));
}

/// A span that reaches over an end of the gap between the two runs meets a span.
pub proof fn lemma_place_nowhere(l: Seq<Entry>, r: Seq<Entry>, start: int, end: int)
    requires
        ordered(l),
        ordered(r),
        l.len() > 0,
        r.len() > 0,
        l.last().end < end,
        start < r.first().start,
        start < l.last().end || r.first().start < end,
    ensures
        !clear(l + r, start, end),
{
    lemma_clear_concat(l, r, start, end);
    lemma_ordered_bounds(l, l.len() - 1);
    lemma_ordered_bounds(r, 0);
    if start < l.last().end {
        assert(l[l.len() - 1].end > start && end > l[l.len() - 1].start);
    } else {
        assert(r[0].end > start && end > r[0].start);
    }
}

/// The leaf that begins at `start` holds `data`.
pub open spec fn scheduled_at(leaves: Seq<Entry>, start: int, data: Item) -> bool {
    let place = rank(leaves, start);
    place < leaves.len() && leaves[place].start == start && leaves[place].data == data
}

/// A leaf that begins before the left run ends is a leaf of the left run.
pub proof fn lemma_find_left(l: Seq<Entry>, r: Seq<Entry>, start: int, data: Item)
    requires
        ordered(l),
        ordered(r),
        l.len() > 0,
        r.len() > 0,
        l.last().end <= r.first().start,
        start < l.last().end,
    ensures
        rank(l + r, start) == rank(l, start),
        0 <= rank(l, start) <= l.len(),
        scheduled_at(l + r, start, data) <==> scheduled_at(l, start, data),
        scheduled_at(l, start, data) ==> (l + r)[rank(l, start)] == l[rank(l, start)] && (l
            + r).remove(rank(l, start)) == l.remove(rank(l, start)) + r,
{
    lemma_rank_concat(l, r, start);
    lemma_rank_bounds(l, start);
    assert forall|i: int| 0 <= i < r.len() implies (#[trigger] r[i]).start >= start by {
        lemma_ordered_bounds(r, i);
    }
    lemma_rank_none_before(r, start);
    let place = rank(l, start);
    if place < l.len() {
        assert((l + r)[place] == l[place]);
        assert((l + r).remove(place) =~= l.remove(place) + r);
    } else {
        assert((l + r)[place] == r[0]);
    }
}

/// A leaf that begins no sooner than the right run is a leaf of the right run.
pub proof fn lemma_find_right(l: Seq<Entry>, r: Seq<Entry>, start: int, data: Item)
    requires
        ordered(l),
        ordered(r),
        l.len() > 0,
        r.len() > 0,
        l.last().end <= r.first().start,
        r.first().start <= start,
    ensures
        rank(l + r, start) == l.len() + rank(r, start),
        0 <= rank(r, start) <= r.len(),
        scheduled_at(l + r, start, data) <==> scheduled_at(r, start, data),
        scheduled_at(r, start, data) ==> (l + r)[l.len() + rank(r, start)] == r[rank(r, start)]
            && (l + r).remove(l.len() + rank(r, start)) == l + r.remove(rank(r, start)),
{
    lemma_rank_concat(l, r, start);
    lemma_rank_bounds(r, start);
    assert forall|i: int| 0 <= i < l.len() implies (#[trigger] l[i]).start < start by {
        lemma_ordered_bounds(l, i);
    }
    lemma_rank_all_before(l, start);
    let place = rank(r, start);
    if place < r.len() {
        assert((l + r)[l.len() + place] == r[place]);
        assert((l + r).remove(l.len() + place) =~= l + r.remove(place));
    }
}

/// No leaf begins in the gap between the two runs.
pub proof fn lemma_find_gap(l: Seq<Entry>, r: Seq<Entry>, start: int, data: Item)
    requires
        ordered(l),
        ordered(r),
        l.len() > 0,
        r.len() > 0,
        l.last().end <= start < r.first().start,
    ensures
        !scheduled_at(l + r, start, data),
{
    lemma_rank_concat(l, r, start);
    assert forall|i: int| 0 <= i < l.len() implies (#[trigger] l[i]).start < start by {
        lemma_ordered_bounds(l, i);
    }
    assert forall|i: int| 0 <= i < r.len() implies (#[trigger] r[i]).start >= start by {
        lemma_ordered_bounds(r, i);
    }
    lemma_rank_all_before(l, start);
    lemma_rank_none_before(r, start);
    assert((l + r)[l.len() as int] == r[0]);
}

/// Ordered spans stay ordered when one of them leaves.
pub proof fn lemma_remove_ordered(leaves: Seq<Entry>, place: int)
    requires
        ordered(leaves),
        0 <= place < leaves.len(),
    ensures
        ordered(leaves.remove(place)),
        leaves.remove(place).len() == leaves.len() - 1,
        forall|i: int|
            0 <= i < leaves.len() - 1 ==> #[trigger] leaves.remove(place)[i] == leaves[if i
                < place {
                i
            } else {
                i + 1
            }],
{
    let rest = leaves.remove(place);
    assert forall|i: int| 0 <= i < leaves.len() - 1 implies #[trigger] rest[i] == leaves[if i
        < place {
        i
    } else {
        i + 1
    }] by {}
    assert forall|i: int| 0 <= i < rest.len() implies (#[trigger] rest[i]).start
        < rest[i].end by {
        let k = if i < place {
            i
        } else {
            i + 1
        };
        assert(rest[i] == leaves[k]);
    }
    assert forall|i: int, j: int| 0 <= i < j < rest.len() implies (#[trigger] rest[i]).end <= (
    #[trigger] rest[j]).start by {
        let ki = if i < place {
            i
        } else {
            i + 1
        };
        let kj = if j < place {
            j
        } else {
            j + 1
        };
        assert(rest[i] == leaves[ki]);
        assert(rest[j] == leaves[kj]);
    }
}

/// Among ordered spans a span stands at the rank of its start.
pub proof fn lemma_rank_of_member(leaves: Seq<Entry>, place: int)
    requires
        ordered(leaves),
        0 <= place < leaves.len(),
    ensures
        rank(leaves, leaves[place].start as int) == place,
{
    let start = leaves[place].start as int;
    lemma_rank_ordered(leaves, start);
    let found = rank(leaves, start);
    if found < place {
        assert(leaves[found].start >= start);
        assert(leaves[found].start < leaves[found].end <= leaves[place].start);
    } else if found > place {
        assert(leaves[place].start < start);
    }
}

/// A span that meets none of the ordered spans keeps them ordered where it
/// enters at the rank of its start.
pub proof fn lemma_insert_ordered(leaves: Seq<Entry>, e: Entry)
    requires
        ordered(leaves),
        e.start < e.end,
        clear(leaves, e.start as int, e.end as int),
    ensures
        0 <= rank(leaves, e.start as int) <= leaves.len(),
        ordered(leaves.insert(rank(leaves, e.start as int), e)),
        leaves.insert(rank(leaves, e.start as int), e).len() == leaves.len() + 1,
        leaves.insert(rank(leaves, e.start as int), e)[rank(leaves, e.start as int)] == e,
        forall|i: int|
            0 <= i < leaves.len() ==> #[trigger] leaves[i] == leaves.insert(
                rank(leaves, e.start as int),
                e,
            )[if i < rank(leaves, e.start as int) {
                i
            } else {
                i + 1
            }],
{
    let place = rank(leaves, e.start as int);
    lemma_rank_ordered(leaves, e.start as int);
    let all = leaves.insert(place, e);
    assert forall|i: int| 0 <= i < leaves.len() implies #[trigger] leaves[i] == all[if i
        < place {
        i
    } else {
        i + 1
    }] by {}
    assert forall|i: int| 0 <= i < all.len() implies (#[trigger] all[i]).start < all[i].end by {
        if i < place {
            assert(all[i] == leaves[i]);
        } else if i > place {
            assert(all[i] == leaves[i - 1]);
        }
    }
    assert forall|i: int, j: int| 0 <= i < j < all.len() implies (#[trigger] all[i]).end <= (
    #[trigger] all[j]).start by {
        if i < place {
            assert(all[i] == leaves[i]);
            assert(leaves[i].end <= e.start || e.end <= leaves[i].start);
        } else if i > place {
            assert(all[i] == leaves[i - 1]);
        }
        if j < place {
            assert(all[j] == leaves[j]);
        } else if j > place {
            assert(all[j] == leaves[j - 1]);
            assert(leaves[j - 1].end <= e.start || e.end <= leaves[j - 1].start);
        }
    }
}

/// The index names the start of each leaf that holds a task, and nothing else.
pub open spec fn indexed(entries: Seq<Entry>, index: Map<u64, i64>) -> bool {
    &&& forall|i: int|
        0 <= i < entries.len() ==> ((#[trigger] entries[i]).data matches Item::Task(key)
            ==> index.contains_key(key) && index[key] == entries[i].start)
    &&& forall|key: u64| #[trigger]
        index.contains_key(key) ==> scheduled_at(entries, index[key] as int, Item::Task(key))
}

/// The index after the leaf `e` has entered.
pub open spec fn index_with(index: Map<u64, i64>, e: Entry) -> Map<u64, i64> {
    match e.data {
        Item::Task(key) => index.insert(key, e.start),
        Item::Nothing => index,
    }
}

/// The index after the leaf `e` has left.
pub open spec fn index_without(index: Map<u64, i64>, e: Entry) -> Map<u64, i64> {
    match e.data {
        Item::Task(key) => index.remove(key),
        Item::Nothing => index,
    }
}

/// The index follows a leaf that enters.
pub proof fn lemma_indexed_insert(entries: Seq<Entry>, index: Map<u64, i64>, e: Entry)
    requires
        ordered(entries),
        indexed(entries, index),
        e.start < e.end,
        clear(entries, e.start as int, e.end as int),
        e.data matches Item::Task(key) ==> !index.contains_key(key),
    ensures
        indexed(entries.insert(rank(entries, e.start as int), e), index_with(index, e)),
{
    let place = rank(entries, e.start as int);
    let all = entries.insert(place, e);
    let after = index_with(index, e);
    lemma_insert_ordered(entries, e);
    assert forall|i: int| 0 <= i < all.len() implies ((#[trigger] all[i]).data matches Item::Task(
        key,
    ) ==> after.contains_key(key) && after[key] == all[i].start) by {
        if i < place {
            assert(all[i] == entries[i]);
        } else if i > place {
            assert(all[i] == entries[i - 1]);
        }
    }
    assert forall|key: u64| #[trigger] after.contains_key(key) implies scheduled_at(
        all,
        after[key] as int,
        Item::Task(key),
    ) by {
        if e.data == Item::Task(key) {
            lemma_rank_of_member(all, place);
        } else {
            assert(index.contains_key(key));
            assert(scheduled_at(entries, index[key] as int, Item::Task(key)));
            let was = rank(entries, index[key] as int);
            lemma_rank_bounds(entries, index[key] as int);
            let now = if was < place {
                was
            } else {
                was + 1
            };
            assert(entries[was] == all[now]);
            lemma_rank_of_member(all, now);
        }
    }
}

/// The index follows a leaf that leaves.
pub proof fn lemma_indexed_remove(entries: Seq<Entry>, index: Map<u64, i64>, place: int)
    requires
        ordered(entries),
        indexed(entries, index),
        0 <= place < entries.len(),
    ensures
        indexed(entries.remove(place), index_without(index, entries[place])),
{
    let e = entries[place];
    let rest = entries.remove(place);
    let after = index_without(index, e);
    lemma_remove_ordered(entries, place);
    assert forall|i: int| 0 <= i < rest.len() implies ((#[trigger] rest[i]).data matches Item::Task(
        key,
    ) ==> after.contains_key(key) && after[key] == rest[i].start) by {
        let was = if i < place {
            i
        } else {
            i + 1
        };
        assert(rest[i] == entries[was]);
        if let Item::Task(key) = rest[i].data {
            if e.data == Item::Task(key) {
                lemma_rank_of_member(entries, was);
                lemma_rank_of_member(entries, place);
            }
        }
    }
    assert forall|key: u64| #[trigger] after.contains_key(key) implies scheduled_at(
        rest,
        after[key] as int,
        Item::Task(key),
    ) by {
        assert(index.contains_key(key));
        assert(scheduled_at(entries, index[key] as int, Item::Task(key)));
        let was = rank(entries, index[key] as int);
        lemma_rank_bounds(entries, index[key] as int);
        assert(was != place);
        let now = if was < place {
            was
        } else {
            was - 1
        };
        assert(rest[now] == entries[was]);
        lemma_rank_of_member(rest, now);
    }
}

/// A span that lies before the first leaf or after the last one meets none.
pub proof fn lemma_clear_outside(leaves: Seq<Entry>, start: int, end: int)
    requires
        ordered(leaves),
        leaves.len() > 0 ==> end <= leaves.first().start || leaves.last().end <= start,
    ensures
        clear(leaves, start, end),
{
    assert forall|i: int| 0 <= i < leaves.len() implies (#[trigger] leaves[i]).end <= start || end
        <= leaves[i].start by {
        lemma_ordered_bounds(leaves, i);
    }
}

/// A span before the first leaf enters in front, one after the last leaf at the back.
pub proof fn lemma_insert_outside(leaves: Seq<Entry>, e: Entry)
    requires
        ordered(leaves),
        leaves.len() > 0,
        e.start < e.end,
        e.end <= leaves.first().start || leaves.last().end <= e.start,
    ensures
        e.end <= leaves.first().start ==> leaves.insert(rank(leaves, e.start as int), e)
            == seq![e] + leaves,
        !(e.end <= leaves.first().start) ==> leaves.insert(rank(leaves, e.start as int), e)
            == leaves + seq![e],
{
    let start = e.start as int;
    if e.end <= leaves.first().start {
        assert forall|i: int| 0 <= i < leaves.len() implies (#[trigger] leaves[i]).start
            >= start by {
            lemma_ordered_bounds(leaves, i);
        }
        lemma_rank_none_before(leaves, start);
        assert(leaves.insert(0, e) =~= seq![e] + leaves);
    } else {
        assert forall|i: int| 0 <= i < leaves.len() implies (#[trigger] leaves[i]).start
            < start by {
            lemma_ordered_bounds(leaves, i);
        }
        lemma_rank_all_before(leaves, start);
        assert(leaves.insert(leaves.len() as int, e) =~= leaves + seq![e]);
    }
}

} // verus!
