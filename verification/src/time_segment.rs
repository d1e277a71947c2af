//! Time segments: sets of time windows that recur with a period.

use crate::spans::TimeRange;
use crate::time_segment::generating::{
    covered_ranges, generated_ranges, lemma_covered_ranges, shows,
};
use crate::time_segment::inverse::{gaps, inverse_ranges, lemma_gaps, lemma_inverse_covers};
use crate::time_segment::moving::{lemma_moved_ranges, moved_ranges, ranges_with_start};
use vstd::prelude::*;

pub mod generating;
pub mod inverse;
pub mod moving;

verus! {

/// The instant `t` lies in the range.
pub open spec fn holds(range: TimeRange, t: int) -> bool {
    range.start <= t < range.end
}

/// The instant `t` lies in one of the ranges.
pub open spec fn within(ranges: Seq<TimeRange>, t: int) -> bool {
    exists|i: int| 0 <= i < ranges.len() && holds(#[trigger] ranges[i], t)
}

/// The ranges are not empty, lie between `from` and `to`, and follow each
/// other without overlap.
pub open spec fn in_window(ranges: Seq<TimeRange>, from: int, to: int) -> bool {
    &&& forall|i: int|
        0 <= i < ranges.len() ==> from <= (#[trigger] ranges[i]).start < ranges[i].end <= to
    &&& forall|i: int, j: int|
        0 <= i < j < ranges.len() ==> (#[trigger] ranges[i]).end <= (#[trigger] ranges[j]).start
}

/// No range begins where another ends.
pub open spec fn apart(ranges: Seq<TimeRange>) -> bool {
    forall|i: int, j: int|
        0 <= i < j < ranges.len() ==> (#[trigger] ranges[i]).end < (#[trigger] ranges[j]).start
}

/// The ranges of a segment lie within the one period that begins at its
/// start, which ends within the range of the clock.
pub open spec fn segment_wf(ranges: Seq<TimeRange>, start: int, period: int) -> bool {
    &&& period > 0
    &&& start + period <= i64::MAX
    &&& in_window(ranges, start, start + period)
}

/// The instant `t` lies in the range as it recurs `turn` periods on.
pub open spec fn recurs(range: TimeRange, turn: int, period: int, t: int) -> bool {
    range.start + turn * period <= t < range.end + turn * period
}

/// The instant `t` lies in the time that the ranges cover as they recur
/// with the period.
pub open spec fn covers(ranges: Seq<TimeRange>, period: int, t: int) -> bool {
    exists|i: int, turn: int| 0 <= i < ranges.len() && #[trigger] recurs(ranges[i], turn, period, t)
}

/// How many periods lie between `instant` and the period that begins at `start`.
pub open spec fn turns(instant: int, start: int, period: int) -> int {
    (instant - start) / period
}

/// A whole number of periods is at least a period long, unless it is none.
pub proof fn lemma_turn(turn: int, period: int)
    requires
        period > 0,
    ensures
        turn >= 1 ==> turn * period >= period,
        turn <= -1 ==> turn * period <= -period,
        turn == 0 ==> turn * period == 0,
        turn == 1 ==> turn * period == period,
        turn == -1 ==> turn * period == -period,
{
    assert(turn >= 1 ==> turn * period >= period) by (nonlinear_arith)
        requires
            period > 0,
    ;
    assert(turn <= -1 ==> turn * period <= -period) by (nonlinear_arith)
        requires
            period > 0,
    ;
    assert(turn == 0 ==> turn * period == 0) by (nonlinear_arith);
}

/// Periods add up.
pub proof fn lemma_turns_add(a: int, b: int, period: int)
    ensures
        (a + b) * period == a * period + b * period,
        (a - b) * period == a * period - b * period,
{
    assert((a + b) * period == a * period + b * period) by (nonlinear_arith);
    assert((a - b) * period == a * period - b * period) by (nonlinear_arith);
}

/// A set of time windows that recurs with a period.
pub trait TimeSegment {
    /// The windows of the period that begins at the start of the segment.
    spec fn spec_ranges(&self) -> Seq<TimeRange>;

    /// The instant at which the segment's period begins.
    spec fn spec_start(&self) -> i64;

    /// The time after which the windows recur.
    spec fn spec_period(&self) -> i64;

    /// The windows of the period that begins at the start of the segment.
    fn ranges(&self) -> (ranges: &Vec<TimeRange>)
        ensures
            ranges@ == self.spec_ranges(),
    ;

    /// The instant at which the segment's period begins.
    fn start(&self) -> (start: i64)
        ensures
            start == self.spec_start(),
    ;

    /// The time after which the windows recur.
    fn period(&self) -> (period: i64)
        ensures
            period == self.spec_period(),
    ;

    /// Construct the inverse of the time segment, i.e. the time segment made up
    /// of all time that the given time segment _doesn't_ cover.
    fn inverse(&self) -> (inverse: UnnamedTimeSegment)
        requires
            segment_wf(self.spec_ranges(), self.spec_start() as int, self.spec_period() as int),
        ensures
            inverse.start == self.spec_start(),
            inverse.period == self.spec_period(),
            inverse.ranges@ == gaps(
                self.spec_ranges(),
                self.spec_start() as int,
                self.spec_start() + self.spec_period(),
            ),
            segment_wf(inverse.ranges@, inverse.start as int, inverse.period as int),
            apart(inverse.ranges@),
            forall|t: int|
                #[trigger] covers(inverse.ranges@, inverse.period as int, t) <==> !covers(
                    self.spec_ranges(),
                    self.spec_period() as int,
                    t,
                ),
    {
        let start = self.start();
        let period = self.period();
        let ranges = inverse_ranges(self.ranges(), start, period);
        proof {
            lemma_gaps(self.spec_ranges(), start as int, start + period);
            lemma_inverse_covers(self.spec_ranges(), start as int, period as int);
        }
        UnnamedTimeSegment { ranges, start, period }
    }

    /// Generates all the time ranges that the time segment covers between the
    /// given start and end time.
    fn generate_ranges(&self, start: i64, end: i64) -> (all: Vec<TimeRange>)
        requires
            segment_wf(self.spec_ranges(), self.spec_start() as int, self.spec_period() as int),
            start < end ==> start + self.spec_period() <= i64::MAX,
        ensures
            shows(
                all@,
                self.spec_ranges(),
                self.spec_period() as int,
                start as int,
                end as int,
            ),
            all@ == covered_ranges(
                self.spec_ranges(),
                self.spec_period() as int,
                start as int,
                end as int,
            ),
    {
        if start < end {
            generated_ranges(self.ranges(), self.start(), self.period(), start, end)
        } else {
            let all: Vec<TimeRange> = Vec::new();
            proof {
                assert forall|t: int| !#[trigger] within(all@, t) by {}
                lemma_covered_ranges(
                    all@,
                    self.spec_ranges(),
                    self.spec_period() as int,
                    start as int,
                    end as int,
                );
            }
            all
        }
    }

    /// Returns a new time segment with its start and ranges shifted towards the
    /// given start time.
    fn with_start(&self, start: i64) -> (moved: UnnamedTimeSegment)
        requires
            segment_wf(self.spec_ranges(), self.spec_start() as int, self.spec_period() as int),
            start + self.spec_period() <= i64::MAX,
        ensures
            moved.start == start,
            moved.period == self.spec_period(),
            moved.ranges@ == moved_ranges(
                self.spec_ranges(),
                start as int,
                self.spec_period() as int,
            ),
            segment_wf(moved.ranges@, moved.start as int, moved.period as int),
            forall|t: int|
                #[trigger] covers(moved.ranges@, moved.period as int, t) <==> covers(
                    self.spec_ranges(),
                    self.spec_period() as int,
                    t,
                ),
    {
        let period = self.period();
        proof {
            let ranges = self.spec_ranges();
            assert forall|i: int| 0 <= i < ranges.len() implies (#[trigger] ranges[i]).start
                < ranges[i].end <= ranges[i].start + period by {}
            lemma_moved_ranges(ranges, self.spec_start() as int, start as int, period as int);
        }
        let ranges = ranges_with_start(self.ranges(), period, start);
        UnnamedTimeSegment { ranges, start, period }
    }
}

/// The period of the segment is not empty, and its windows follow each
/// other within the period that begins at its start.
pub open spec fn valid<S: TimeSegment>(segment: &S) -> bool {
    segment_wf(segment.spec_ranges(), segment.spec_start() as int, segment.spec_period() as int)
}

/// A time segment as the store keeps it.
#[derive(Debug, Clone, PartialEq)]
pub struct NamedTimeSegment {
    pub id: u32,
    pub name: String,
    // ranges is assumed to be in order
    pub ranges: Vec<TimeRange>,
    pub start: i64,
    pub period: i64,
    pub hue: u16,
}

/// A time segment that the store has yet to take up.
#[derive(Debug, Clone)]
pub struct NewNamedTimeSegment {
    pub name: String,
    // ranges is assumed to be in order
    pub ranges: Vec<TimeRange>,
    pub start: i64,
    pub period: i64,
    pub hue: u16,
}

/// A time segment and nothing more.
#[derive(Debug, Clone, PartialEq)]
pub struct UnnamedTimeSegment {
    // ranges is assumed to be in order
    pub ranges: Vec<TimeRange>,
    pub start: i64,
    pub period: i64,
}

impl TimeSegment for NamedTimeSegment {
    open spec fn spec_ranges(&self) -> Seq<TimeRange> {
        self.ranges@
    }

    open spec fn spec_start(&self) -> i64 {
        self.start
    }

    open spec fn spec_period(&self) -> i64 {
        self.period
    }

    fn ranges(&self) -> (ranges: &Vec<TimeRange>) {
        &self.ranges
    }

    fn start(&self) -> (start: i64) {
        self.start
    }

    fn period(&self) -> (period: i64) {
        self.period
    }
}

impl TimeSegment for UnnamedTimeSegment {
    open spec fn spec_ranges(&self) -> Seq<TimeRange> {
        self.ranges@
    }

    open spec fn spec_start(&self) -> i64 {
        self.start
    }

    open spec fn spec_period(&self) -> i64 {
        self.period
    }

    fn ranges(&self) -> (ranges: &Vec<TimeRange>) {
        &self.ranges
    }

    fn start(&self) -> (start: i64) {
        self.start
    }

    fn period(&self) -> (period: i64) {
        self.period
    }
}

/// Whether the period of the segment is not empty and its windows follow
/// each other within the period that begins at its start.
pub fn is_valid<S: TimeSegment>(segment: &S) -> (ok: bool)
    ensures
        ok == valid(segment),
{
    let ranges = segment.ranges();
    let start = segment.start();
    let period = segment.period();
    if period <= 0 || start as i128 + period as i128 > i64::MAX as i128 {
        return false;
    }
    let end = start + period;
    let mut floor = start;
    let mut i: usize = 0;
    while i < ranges.len()
        invariant
            0 <= i <= ranges.len(),
            ranges@ == segment.spec_ranges(),
            start == segment.spec_start(),
            period == segment.spec_period(),
            period > 0,
            end == start + period,
            start <= floor <= end,
            in_window(ranges@.subrange(0, i as int), start as int, end as int),
            forall|k: int| 0 <= k < i ==> (#[trigger] ranges[k]).end <= floor,
            floor == if i == 0 {
                start
            } else {
                ranges[i - 1].end
            },
        decreases ranges.len() - i,
    {
        let range = ranges[i];
        if !(floor <= range.start && range.start < range.end && range.end <= end) {
            proof {
                if in_window(ranges@, start as int, end as int) {
                    if i > 0 {
                        assert(ranges@[i - 1].end <= ranges@[i as int].start);
                    }
                    assert(start <= ranges@[i as int].start);
                }
            }
            return false;
        }
        proof {
            let before = ranges@.subrange(0, i as int);
            let after = ranges@.subrange(0, i + 1);
            assert forall|k: int| 0 <= k < after.len() implies start <= (#[trigger] after[k]).start
                < after[k].end <= end by {
                if k < i {
                    assert(after[k] == before[k]);
                }
            }
            assert forall|k: int, l: int| 0 <= k < l < after.len() implies (
            #[trigger] after[k]).end <= (#[trigger] after[l]).start by {
                assert(after[k] == ranges@[k]);
                if l < i {
                    assert(after[k] == before[k] && after[l] == before[l]);
                }
            }
        }
        floor = range.end;
        i += 1;
    }
    proof {
        assert(ranges@.subrange(0, i as int) =~= ranges@);
    }
    true
}

} // verus!
