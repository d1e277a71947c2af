//! Where a new span fits among occupied spans: the latest place before an
//! instant, the earliest after one.

use crate::spans::{clear, inside, lemma_clear_concat, lemma_ordered_bounds, ordered, Entry};
use vstd::prelude::*;

verus! {

/// A span of length `duration` that begins at `start` ends by `end`, begins
/// no sooner than `min_start` nor than the first instant there is, and meets
/// no leaf.
pub open spec fn fits_before(
    leaves: Seq<Entry>,
    start: int,
    duration: int,
    end: int,
    min_start: Option<i64>,
) -> bool {
    &&& i64::MIN <= start
    &&& start + duration <= end
    &&& (min_start matches Some(m) ==> m <= start)
    &&& clear(leaves, start, start + duration)
}

/// A span of length `duration` that begins at `at` begins no sooner than
/// `start`, ends by `max_end` and by the last instant there is, and meets no
/// leaf.
pub open spec fn fits_after(
    leaves: Seq<Entry>,
    at: int,
    duration: int,
    start: int,
    max_end: Option<i64>,
) -> bool {
    &&& at + duration <= i64::MAX
    &&& start <= at
    &&& (max_end matches Some(m) ==> at + duration <= m)
    &&& clear(leaves, at, at + duration)
}

/// `start` is the latest place between the leaves where the span fits.
pub open spec fn latest_between(
    leaves: Seq<Entry>,
    start: int,
    duration: int,
    end: int,
    min_start: Option<i64>,
) -> bool {
    &&& fits_before(leaves, start, duration, end, min_start)
    &&& inside(leaves, start, start + duration)
    &&& forall|other: int| #[trigger]
        fits_before(leaves, other, duration, end, min_start) && inside(
            leaves,
            other,
            other + duration,
        ) ==> other <= start
}

/// The span fits nowhere between the leaves.
pub open spec fn none_between_before(
    leaves: Seq<Entry>,
    duration: int,
    end: int,
    min_start: Option<i64>,
) -> bool {
    forall|other: int| #[trigger]
        fits_before(leaves, other, duration, end, min_start) ==> !inside(
            leaves,
            other,
            other + duration,
        )
}

/// `at` is the earliest place between the leaves where the span fits.
pub open spec fn earliest_between(
    leaves: Seq<Entry>,
    at: int,
    duration: int,
    start: int,
    max_end: Option<i64>,
) -> bool {
    &&& fits_after(leaves, at, duration, start, max_end)
    &&& inside(leaves, at, at + duration)
    &&& forall|other: int| #[trigger]
        fits_after(leaves, other, duration, start, max_end) && inside(
            leaves,
            other,
            other + duration,
        ) ==> at <= other
}

/// The span fits nowhere between the leaves.
pub open spec fn none_between_after(
    leaves: Seq<Entry>,
    duration: int,
    start: int,
    max_end: Option<i64>,
) -> bool {
    forall|other: int| #[trigger]
        fits_after(leaves, other, duration, start, max_end) ==> !inside(
            leaves,
            other,
            other + duration,
        )
}

/// A span between the leaves of two adjoining runs, meeting none of them,
/// lies between the leaves of the left run, in the gap, or between the
/// leaves of the right run.
pub proof fn lemma_split(l: Seq<Entry>, r: Seq<Entry>, start: int, end: int)
    requires
        ordered(l),
        ordered(r),
        l.len() > 0,
        r.len() > 0,
        l.last().end <= r.first().start,
        start < end,
        clear(l + r, start, end),
        inside(l + r, start, end),
    ensures
        clear(l, start, end),
        clear(r, start, end),
        ({
            ||| end <= l.last().start && inside(l, start, end)
            ||| l.last().end <= start && end <= r.first().start
            ||| r.first().end <= start && inside(r, start, end)
        }),
{
    lemma_clear_concat(l, r, start, end);
    lemma_ordered_bounds(l, l.len() - 1);
    lemma_ordered_bounds(r, 0);
    assert((l + r).first() == l.first());
    assert((l + r).last() == r.last());
    assert(l[l.len() - 1].end <= start || end <= l[l.len() - 1].start);
    assert(r[0].end <= start || end <= r[0].start);
}

/// A span that meets no leaf of either run and lies between the leaves of
/// one of them, or in the gap, lies between the leaves of both together.
pub proof fn lemma_join(l: Seq<Entry>, r: Seq<Entry>, start: int, end: int)
    requires
        ordered(l),
        ordered(r),
        l.len() > 0,
        r.len() > 0,
        l.last().end <= r.first().start,
        start < end,
        ({
            ||| clear(l, start, end) && inside(l, start, end)
            ||| l.last().end <= start && end <= r.first().start
            ||| clear(r, start, end) && inside(r, start, end)
        }),
    ensures
        clear(l + r, start, end),
        inside(l + r, start, end),
{
    lemma_clear_concat(l, r, start, end);
    lemma_ordered_bounds(l, 0);
    lemma_ordered_bounds(l, l.len() - 1);
    lemma_ordered_bounds(r, 0);
    lemma_ordered_bounds(r, r.len() - 1);
    assert((l + r).first() == l.first());
    assert((l + r).last() == r.last());
    if clear(l, start, end) && inside(l, start, end) {
        assert(l[l.len() - 1].end <= start || end <= l[l.len() - 1].start);
        assert forall|i: int| 0 <= i < r.len() implies (#[trigger] r[i]).end <= start || end
            <= r[i].start by {
            lemma_ordered_bounds(r, i);
        }
    } else if clear(r, start, end) && inside(r, start, end) {
        assert(r[0].end <= start || end <= r[0].start);
        assert forall|i: int| 0 <= i < l.len() implies (#[trigger] l[i]).end <= start || end
            <= l[i].start by {
            lemma_ordered_bounds(l, i);
        }
    } else {
        assert forall|i: int| 0 <= i < r.len() implies (#[trigger] r[i]).end <= start || end
            <= r[i].start by {
            lemma_ordered_bounds(r, i);
        }
        assert forall|i: int| 0 <= i < l.len() implies (#[trigger] l[i]).end <= start || end
            <= l[i].start by {
            lemma_ordered_bounds(l, i);
        }
    }
}

/// The latest place between the leaves of the right run is the latest
/// place between the leaves of both runs.
pub proof fn lemma_before_in_right(
    l: Seq<Entry>,
    r: Seq<Entry>,
    start: int,
    duration: int,
    end: int,
    min_start: Option<i64>,
)
    requires
        ordered(l),
        ordered(r),
        l.len() > 0,
        r.len() > 0,
        l.last().end <= r.first().start,
        duration > 0,
        latest_between(r, start, duration, end, min_start),
    ensures
        latest_between(l + r, start, duration, end, min_start),
        r.first().start <= start,
{
    lemma_join(l, r, start, start + duration);
    lemma_ordered_bounds(r, 0);
    assert(r[0].end <= start || start + duration <= r[0].start);
    assert forall|other: int| #[trigger]
        fits_before(l + r, other, duration, end, min_start) && inside(
            l + r,
            other,
            other + duration,
        ) implies other <= start by {
        lemma_split(l, r, other, other + duration);
        lemma_ordered_bounds(l, l.len() - 1);
        if r.first().end <= other {
            assert(fits_before(r, other, duration, end, min_start));
        }
    }
}

/// Where the span fits the gap between the two runs at its latest, and
/// nowhere between the leaves of the right run, that is the latest place
/// between the leaves of both runs.
pub proof fn lemma_before_in_gap(
    l: Seq<Entry>,
    r: Seq<Entry>,
    start: int,
    duration: int,
    end: int,
    min_start: Option<i64>,
)
    requires
        ordered(l),
        ordered(r),
        l.len() > 0,
        r.len() > 0,
        l.last().end <= r.first().start,
        duration > 0,
        r.first().start >= end || none_between_before(r, duration, end, min_start),
        l.last().end <= start,
        min_start matches Some(m) ==> m <= start,
        start + duration == if end < r.first().start {
            end
        } else {
            r.first().start as int
        },
    ensures
        latest_between(l + r, start, duration, end, min_start),
{
    lemma_join(l, r, start, start + duration);
    assert forall|other: int| #[trigger]
        fits_before(l + r, other, duration, end, min_start) && inside(
            l + r,
            other,
            other + duration,
        ) implies other <= start by {
        lemma_split(l, r, other, other + duration);
        lemma_ordered_bounds(l, l.len() - 1);
        lemma_ordered_bounds(r, 0);
        if r.first().end <= other {
            assert(fits_before(r, other, duration, end, min_start));
        }
    }
}

/// Where the span fits neither between the leaves of the right run nor in
/// the gap, what holds between the leaves of the left run holds between the
/// leaves of both runs.
pub proof fn lemma_before_in_left(
    l: Seq<Entry>,
    r: Seq<Entry>,
    found: Option<int>,
    duration: int,
    end: int,
    min_start: Option<i64>,
)
    requires
        ordered(l),
        ordered(r),
        l.len() > 0,
        r.len() > 0,
        l.last().end <= r.first().start,
        duration > 0,
        r.first().start >= end || none_between_before(r, duration, end, min_start),
        ({
            let here = if end < r.first().start {
                end
            } else {
                r.first().start as int
            };
            ||| l.last().end + duration > here
            ||| min_start matches Some(m) && m + duration > here
        }),
        match found {
            Some(start) => latest_between(l, start, duration, end, min_start),
            None => none_between_before(l, duration, end, min_start) || (min_start matches Some(m)
                && l.last().end <= m),
        },
    ensures
        match found {
            Some(start) => latest_between(l + r, start, duration, end, min_start),
            None => none_between_before(l + r, duration, end, min_start),
        },
{
    assert forall|other: int| #[trigger]
        fits_before(l + r, other, duration, end, min_start) && inside(
            l + r,
            other,
            other + duration,
        ) implies (found matches Some(start) && other <= start) by {
        lemma_split(l, r, other, other + duration);
        lemma_ordered_bounds(l, l.len() - 1);
        lemma_ordered_bounds(r, 0);
        if r.first().end <= other {
            assert(fits_before(r, other, duration, end, min_start));
        }
        assert(fits_before(l, other, duration, end, min_start));
    }
    if let Some(start) = found {
        lemma_join(l, r, start, start + duration);
    }
}

/// The earliest place between the leaves of the left run is the earliest
/// place between the leaves of both runs.
pub proof fn lemma_after_in_left(
    l: Seq<Entry>,
    r: Seq<Entry>,
    at: int,
    duration: int,
    start: int,
    max_end: Option<i64>,
)
    requires
        ordered(l),
        ordered(r),
        l.len() > 0,
        r.len() > 0,
        l.last().end <= r.first().start,
        duration > 0,
        earliest_between(l, at, duration, start, max_end),
    ensures
        earliest_between(l + r, at, duration, start, max_end),
        at + duration <= l.last().end,
{
    lemma_join(l, r, at, at + duration);
    lemma_ordered_bounds(l, l.len() - 1);
    assert(l[l.len() - 1].end <= at || at + duration <= l[l.len() - 1].start);
    assert forall|other: int| #[trigger]
        fits_after(l + r, other, duration, start, max_end) && inside(
            l + r,
            other,
            other + duration,
        ) implies at <= other by {
        lemma_split(l, r, other, other + duration);
        lemma_ordered_bounds(r, 0);
        if other + duration <= l.last().start {
            assert(fits_after(l, other, duration, start, max_end));
        }
    }
}

/// Where the span fits the gap between the two runs at its earliest, and
/// nowhere between the leaves of the left run, that is the earliest place
/// between the leaves of both runs.
pub proof fn lemma_after_in_gap(
    l: Seq<Entry>,
    r: Seq<Entry>,
    at: int,
    duration: int,
    start: int,
    max_end: Option<i64>,
)
    requires
        ordered(l),
        ordered(r),
        l.len() > 0,
        r.len() > 0,
        l.last().end <= r.first().start,
        duration > 0,
        start >= l.last().end || none_between_after(l, duration, start, max_end),
        at + duration <= r.first().start,
        max_end matches Some(m) ==> at + duration <= m,
        at == if start > l.last().end {
            start
        } else {
            l.last().end as int
        },
    ensures
        earliest_between(l + r, at, duration, start, max_end),
{
    lemma_join(l, r, at, at + duration);
    assert forall|other: int| #[trigger]
        fits_after(l + r, other, duration, start, max_end) && inside(
            l + r,
            other,
            other + duration,
        ) implies at <= other by {
        lemma_split(l, r, other, other + duration);
        lemma_ordered_bounds(l, l.len() - 1);
        lemma_ordered_bounds(r, 0);
        if other + duration <= l.last().start {
            assert(fits_after(l, other, duration, start, max_end));
        }
    }
}

/// Where the span fits neither between the leaves of the left run nor in
/// the gap, what holds between the leaves of the right run holds between
/// the leaves of both runs.
pub proof fn lemma_after_in_right(
    l: Seq<Entry>,
    r: Seq<Entry>,
    found: Option<int>,
    duration: int,
    start: int,
    max_end: Option<i64>,
)
    requires
        ordered(l),
        ordered(r),
        l.len() > 0,
        r.len() > 0,
        l.last().end <= r.first().start,
        duration > 0,
        start >= l.last().end || none_between_after(l, duration, start, max_end),
        ({
            let here = if start > l.last().end {
                start
            } else {
                l.last().end as int
            };
            ||| here + duration > r.first().start
            ||| max_end matches Some(m) && here + duration > m
        }),
        match found {
            Some(at) => earliest_between(r, at, duration, start, max_end),
            None => none_between_after(r, duration, start, max_end) || (max_end matches Some(m)
                && m <= r.first().start),
        },
    ensures
        match found {
            Some(at) => earliest_between(l + r, at, duration, start, max_end) && r.first().start
                <= at,
            None => none_between_after(l + r, duration, start, max_end),
        },
{
    assert forall|other: int| #[trigger]
        fits_after(l + r, other, duration, start, max_end) && inside(
            l + r,
            other,
            other + duration,
        ) implies (found matches Some(at) && at <= other) by {
        lemma_split(l, r, other, other + duration);
        lemma_ordered_bounds(l, l.len() - 1);
        lemma_ordered_bounds(r, 0);
        if other + duration <= l.last().start {
            assert(fits_after(l, other, duration, start, max_end));
        }
        assert(fits_after(r, other, duration, start, max_end));
    }
    if let Some(at) = found {
        lemma_join(l, r, at, at + duration);
        lemma_ordered_bounds(r, 0);
        assert(r[0].end <= at || at + duration <= r[0].start);
    }
}

/// `start` is the latest place at which the span fits.
pub open spec fn is_latest_fit(
    leaves: Seq<Entry>,
    start: int,
    duration: int,
    end: int,
    min_start: Option<i64>,
) -> bool {
    &&& fits_before(leaves, start, duration, end, min_start)
    &&& forall|other: int| #[trigger]
        fits_before(leaves, other, duration, end, min_start) ==> other <= start
}

/// The latest place at which a span of length `duration` fits that ends by
/// `end` and begins no sooner than `min_start`, if there is any.
pub open spec fn latest_fit(
    leaves: Seq<Entry>,
    duration: int,
    end: int,
    min_start: Option<i64>,
) -> Option<int> {
    if exists|start: int| fits_before(leaves, start, duration, end, min_start) {
        Some(choose|start: int| is_latest_fit(leaves, start, duration, end, min_start))
    } else {
        None
    }
}

/// `at` is the earliest place at which the span fits.
pub open spec fn is_earliest_fit(
    leaves: Seq<Entry>,
    at: int,
    duration: int,
    start: int,
    max_end: Option<i64>,
) -> bool {
    &&& fits_after(leaves, at, duration, start, max_end)
    &&& forall|other: int| #[trigger]
        fits_after(leaves, other, duration, start, max_end) ==> at <= other
}

/// The earliest place at which a span of length `duration` fits that begins
/// no sooner than `start` and ends by `max_end`, if there is any.
pub open spec fn earliest_fit(
    leaves: Seq<Entry>,
    duration: int,
    start: int,
    max_end: Option<i64>,
) -> Option<int> {
    if exists|at: int| fits_after(leaves, at, duration, start, max_end) {
        Some(choose|at: int| is_earliest_fit(leaves, at, duration, start, max_end))
    } else {
        None
    }
}

/// There is one latest fit at most, and `latest_fit` names it.
pub proof fn lemma_latest_fit(
    leaves: Seq<Entry>,
    start: int,
    duration: int,
    end: int,
    min_start: Option<i64>,
)
    requires
        is_latest_fit(leaves, start, duration, end, min_start),
    ensures
        latest_fit(leaves, duration, end, min_start) == Some(start),
{
    let chosen = choose|s: int| is_latest_fit(leaves, s, duration, end, min_start);
    assert(is_latest_fit(leaves, chosen, duration, end, min_start));
    assert(fits_before(leaves, chosen, duration, end, min_start));
    assert(fits_before(leaves, start, duration, end, min_start));
}

/// There is one earliest fit at most, and `earliest_fit` names it.
pub proof fn lemma_earliest_fit(
    leaves: Seq<Entry>,
    at: int,
    duration: int,
    start: int,
    max_end: Option<i64>,
)
    requires
        is_earliest_fit(leaves, at, duration, start, max_end),
    ensures
        earliest_fit(leaves, duration, start, max_end) == Some(at),
{
    let chosen = choose|s: int| is_earliest_fit(leaves, s, duration, start, max_end);
    assert(is_earliest_fit(leaves, chosen, duration, start, max_end));
    assert(fits_after(leaves, chosen, duration, start, max_end));
    assert(fits_after(leaves, at, duration, start, max_end));
}

/// A span that fits, but not between the leaves, lies before the first leaf
/// or after the last one.
pub proof fn lemma_fits_outside(leaves: Seq<Entry>, start: int, end: int)
    requires
        leaves.len() > 0,
        start < end,
        !inside(leaves, start, end),
    ensures
        end <= leaves.first().start || leaves.last().end <= start,
{
}

} // verus!
