use eva::spans::TimeRange;
use eva::time_segment::{TimeSegment, UnnamedTimeSegment};

const NOW: i64 = 1_500_000_000;

fn hours(n: i64) -> i64 {
    n * 3600
}

fn days(n: i64) -> i64 {
    n * 24 * 3600
}

fn weeks(n: i64) -> i64 {
    n * 7 * 24 * 3600
}

fn range(start: i64, end: i64) -> TimeRange {
    TimeRange { start, end }
}

#[test]
fn inverse_base_cases() {
    let start = NOW;
    let period = weeks(1);
    let anytime = UnnamedTimeSegment {
        ranges: vec![range(start, start + period)],
        start,
        period,
    };
    let never = UnnamedTimeSegment {
        ranges: vec![],
        start,
        period,
    };
    assert_eq!(anytime.inverse(), never);
    assert_eq!(never.inverse(), anytime);
}

#[test]
fn inverse_normal_segment() {
    let start = NOW;
    let period = weeks(1);
    let segment = UnnamedTimeSegment {
        ranges: vec![
            range(start + hours(24 + 10), start + hours(24 + 15)),
            range(start + hours(3 * 24 + 16), start + hours(3 * 24 + 18)),
            range(start + hours(3 * 24 + 19), start + hours(3 * 24 + 21)),
        ],
        start,
        period,
    };
    let inverse = UnnamedTimeSegment {
        ranges: vec![
            range(start, start + hours(24 + 10)),
            range(start + hours(24 + 15), start + hours(3 * 24 + 16)),
            range(start + hours(3 * 24 + 18), start + hours(3 * 24 + 19)),
            range(start + hours(3 * 24 + 21), start + period),
        ],
        start,
        period,
    };
    assert_eq!(segment.inverse(), inverse);
    assert_eq!(inverse.inverse(), segment);
}

#[test]
fn inverse_drops_the_gap_between_ranges_that_touch() {
    let segment = UnnamedTimeSegment {
        ranges: vec![range(10, 20), range(20, 30)],
        start: 0,
        period: 100,
    };
    let inverse = segment.inverse();
    assert_eq!(inverse.ranges, vec![range(0, 10), range(30, 100)]);
    // The inverse of the inverse covers the same time, in one range.
    assert_eq!(inverse.inverse().ranges, vec![range(10, 30)]);
}

#[test]
fn generate_ranges_normal_cases() {
    let time0 = NOW;
    let time1 = time0 + days(10);
    let time2 = time0 + days(20);
    let time3 = time0 + days(30);

    // The segment starts at time1 and we'll check whether we can generate ranges in the past
    // and in the future using time0, time2 and time3.
    let segment = UnnamedTimeSegment {
        ranges: vec![
            range(time1 + hours(24 + 10), time1 + hours(24 + 15)),
            range(time1 + hours(3 * 24 + 16), time1 + hours(3 * 24 + 18)),
            range(time1 + hours(3 * 24 + 19), time1 + hours(3 * 24 + 21)),
        ],
        start: time1,
        period: weeks(1),
    };

    // Trivial cases: nothing to generate
    assert_eq!(segment.generate_ranges(time0, time0), vec![]);
    assert_eq!(segment.generate_ranges(time1, time0), vec![]);
    assert_eq!(segment.generate_ranges(time1, time1), vec![]);
    assert_eq!(segment.generate_ranges(time2, time0), vec![]);
    assert_eq!(segment.generate_ranges(time2, time1), vec![]);
    assert_eq!(segment.generate_ranges(time2, time2), vec![]);
    assert_eq!(segment.generate_ranges(time3, time0), vec![]);
    assert_eq!(segment.generate_ranges(time3, time1), vec![]);
    assert_eq!(segment.generate_ranges(time3, time2), vec![]);
    assert_eq!(segment.generate_ranges(time3, time3), vec![]);

    // Easy cases: the start of the generation is the same as the segment start
    assert_eq!(
        segment.generate_ranges(time1, time2),
        vec![
            range(time1 + hours(24 + 10), time1 + hours(24 + 15)),
            range(time1 + hours(3 * 24 + 16), time1 + hours(3 * 24 + 18)),
            range(time1 + hours(3 * 24 + 19), time1 + hours(3 * 24 + 21)),
            range(time1 + hours((7 + 1) * 24 + 10), time1 + hours((7 + 1) * 24 + 15)),
        ]
    );
    assert_eq!(
        segment.generate_ranges(time1, time3),
        vec![
            range(time1 + hours(24 + 10), time1 + hours(24 + 15)),
            range(time1 + hours(3 * 24 + 16), time1 + hours(3 * 24 + 18)),
            range(time1 + hours(3 * 24 + 19), time1 + hours(3 * 24 + 21)),
            range(time1 + hours((7 + 1) * 24 + 10), time1 + hours((7 + 1) * 24 + 15)),
            range(time1 + hours((7 + 3) * 24 + 16), time1 + hours((7 + 3) * 24 + 18)),
            range(time1 + hours((7 + 3) * 24 + 19), time1 + hours((7 + 3) * 24 + 21)),
            range(time1 + hours((14 + 1) * 24 + 10), time1 + hours((14 + 1) * 24 + 15)),
            range(time1 + hours((14 + 3) * 24 + 16), time1 + hours((14 + 3) * 24 + 18)),
            range(time1 + hours((14 + 3) * 24 + 19), time1 + hours((14 + 3) * 24 + 21)),
        ]
    );

    // Interesting cases: the start of the generation is before the start of the segment
    assert_eq!(
        segment.generate_ranges(time0, time1),
        vec![
            range(time0 + hours(4 * 24 + 10), time0 + hours(4 * 24 + 15)),
            range(time0 + hours(6 * 24 + 16), time0 + hours(6 * 24 + 18)),
            range(time0 + hours(6 * 24 + 19), time0 + hours(6 * 24 + 21)),
        ]
    );
    assert_eq!(
        segment.generate_ranges(time0, time2),
        vec![
            range(time0 + hours(4 * 24 + 10), time0 + hours(4 * 24 + 15)),
            range(time0 + hours(6 * 24 + 16), time0 + hours(6 * 24 + 18)),
            range(time0 + hours(6 * 24 + 19), time0 + hours(6 * 24 + 21)),
            range(time0 + hours((7 + 4) * 24 + 10), time0 + hours((7 + 4) * 24 + 15)),
            range(time0 + hours((7 + 6) * 24 + 16), time0 + hours((7 + 6) * 24 + 18)),
            range(time0 + hours((7 + 6) * 24 + 19), time0 + hours((7 + 6) * 24 + 21)),
            range(time0 + hours((14 + 4) * 24 + 10), time0 + hours((14 + 4) * 24 + 15)),
        ]
    );
    // Testing 0->3 as well seems a bit overkill

    // Interesting cases: the start of the generation is after the start of the segment
    assert_eq!(
        segment.generate_ranges(time2, time3),
        vec![
            range(time2 + hours(16), time2 + hours(18)),
            range(time2 + hours(19), time2 + hours(21)),
            range(time2 + hours(5 * 24 + 10), time2 + hours(5 * 24 + 15)),
            range(time2 + hours(7 * 24 + 16), time2 + hours(7 * 24 + 18)),
            range(time2 + hours(7 * 24 + 19), time2 + hours(7 * 24 + 21)),
        ]
    );

    // Tricky case: the start of the generation is inside of the segment
    let time4 = time1 + hours(24 + 12);
    assert_eq!(
        segment.generate_ranges(time4, time4 + days(10)),
        vec![
            range(time4, time4 + hours(3)),
            range(time4 + hours(2 * 24 + 4), time4 + hours(2 * 24 + 6)),
            range(time4 + hours(2 * 24 + 7), time4 + hours(2 * 24 + 9)),
            range(time4 + hours(7 * 24 + -2), time4 + hours(7 * 24 + 3)),
            range(time4 + hours(9 * 24 + 4), time4 + hours(9 * 24 + 6)),
            range(time4 + hours(9 * 24 + 7), time4 + hours(9 * 24 + 9)),
        ]
    );

    // Tricky case: the end of the generation is inside of the segment
    assert_eq!(
        segment.generate_ranges(time1, time1 + hours(3 * 24 + 17)),
        vec![
            range(time1 + hours(24 + 10), time1 + hours(24 + 15)),
            range(time1 + hours(3 * 24 + 16), time1 + hours(3 * 24 + 17)),
        ]
    );
}

#[test]
fn generate_ranges_ends_a_joined_range_at_the_end() {
    // Two ranges that touch are one range, which ends where the generation ends.
    let segment = UnnamedTimeSegment {
        ranges: vec![range(0, 5), range(5, 10)],
        start: 0,
        period: 10,
    };
    assert_eq!(segment.generate_ranges(0, 7), vec![range(0, 7)]);
    assert_eq!(segment.generate_ranges(3, 25), vec![range(3, 25)]);
}

#[test]
fn generate_ranges_leaves_out_a_range_that_begins_at_the_end() {
    let segment = UnnamedTimeSegment {
        ranges: vec![range(10, 12)],
        start: 0,
        period: 24,
    };
    assert_eq!(segment.generate_ranges(0, 10), vec![]);
    assert_eq!(segment.generate_ranges(0, 11), vec![range(10, 11)]);
    assert_eq!(segment.generate_ranges(-30, 0), vec![range(-14, -12)]);
}

#[test]
fn with_start() {
    let start = NOW;
    let period = weeks(1);
    let segment = UnnamedTimeSegment {
        ranges: vec![
            range(start + hours(24 + 10), start + hours(24 + 15)),
            range(start + hours(3 * 24 + 16), start + hours(3 * 24 + 18)),
            range(start + hours(3 * 24 + 19), start + hours(3 * 24 + 21)),
        ],
        start,
        period,
    };
    // If we shift it back a day, the ranges should stay the same, since they're still in the
    // same period.
    assert_eq!(
        segment.with_start(start - days(1)),
        UnnamedTimeSegment {
            ranges: vec![
                range(start + hours(24 + 10), start + hours(24 + 15)),
                range(start + hours(3 * 24 + 16), start + hours(3 * 24 + 18)),
                range(start + hours(3 * 24 + 19), start + hours(3 * 24 + 21)),
            ],
            start: start - days(1),
            period,
        }
    );
    // If we shift it back a week, the ranges should shift a week, since they're the previous
    // period.
    assert_eq!(
        segment.with_start(start - weeks(1)),
        UnnamedTimeSegment {
            ranges: vec![
                range(start + hours((-7 + 1) * 24 + 10), start + hours((-7 + 1) * 24 + 15)),
                range(start + hours((-7 + 3) * 24 + 16), start + hours((-7 + 3) * 24 + 18)),
                range(start + hours((-7 + 3) * 24 + 19), start + hours((-7 + 3) * 24 + 21)),
            ],
            start: start - weeks(1),
            period,
        }
    );
    // It gets a bit trickier here: if we shift backwards to a time between two ranges, the
    // ranges should reshuffle since we expect that the ranges are chronological.
    assert_eq!(
        segment.with_start(start - days(4)),
        UnnamedTimeSegment {
            ranges: vec![
                range(start + hours((-7 + 3) * 24 + 16), start + hours((-7 + 3) * 24 + 18)),
                range(start + hours((-7 + 3) * 24 + 19), start + hours((-7 + 3) * 24 + 21)),
                range(start + hours(24 + 10), start + hours(24 + 15)),
            ],
            start: start - days(4),
            period,
        }
    );

    // We expect three similar cases if shift forwards
    assert_eq!(
        segment.with_start(start + days(1)),
        UnnamedTimeSegment {
            ranges: vec![
                range(start + hours(24 + 10), start + hours(24 + 15)),
                range(start + hours(3 * 24 + 16), start + hours(3 * 24 + 18)),
                range(start + hours(3 * 24 + 19), start + hours(3 * 24 + 21)),
            ],
            start: start + days(1),
            period,
        }
    );
    assert_eq!(
        segment.with_start(start + weeks(1)),
        UnnamedTimeSegment {
            ranges: vec![
                range(start + hours((7 + 1) * 24 + 10), start + hours((7 + 1) * 24 + 15)),
                range(start + hours((7 + 3) * 24 + 16), start + hours((7 + 3) * 24 + 18)),
                range(start + hours((7 + 3) * 24 + 19), start + hours((7 + 3) * 24 + 21)),
            ],
            start: start + weeks(1),
            period,
        }
    );
    assert_eq!(
        segment.with_start(start + days(2)),
        UnnamedTimeSegment {
            ranges: vec![
                range(start + hours(3 * 24 + 16), start + hours(3 * 24 + 18)),
                range(start + hours(3 * 24 + 19), start + hours(3 * 24 + 21)),
                range(start + hours((7 + 1) * 24 + 10), start + hours((7 + 1) * 24 + 15)),
            ],
            start: start + days(2),
            period,
        }
    );

    // More tricky cases: if the new start is within segment, we expect it to be split up
    assert_eq!(
        segment.with_start(start + hours(24 + 12)),
        UnnamedTimeSegment {
            ranges: vec![
                range(start + hours(24 + 12), start + hours(24 + 15)),
                range(start + hours(3 * 24 + 16), start + hours(3 * 24 + 18)),
                range(start + hours(3 * 24 + 19), start + hours(3 * 24 + 21)),
                range(start + hours(8 * 24 + 10), start + hours(8 * 24 + 12)),
            ],
            start: start + hours(24 + 12),
            period,
        }
    );
}

#[test]
fn with_start_a_whole_number_of_periods_before_a_range() {
    // A range that begins a whole number of periods after the new start
    // begins at the new start.
    let segment = UnnamedTimeSegment {
        ranges: vec![range(100, 130)],
        start: 100,
        period: 50,
    };
    let moved = segment.with_start(0);
    assert_eq!(moved.ranges, vec![range(0, 30)]);
    let moved = segment.with_start(200);
    assert_eq!(moved.ranges, vec![range(200, 230)]);
}

#[test]
fn with_start_and_back_covers_the_same_time() {
    let segment = UnnamedTimeSegment {
        ranges: vec![range(3, 5), range(8, 10)],
        start: 0,
        period: 10,
    };
    let moved = segment.with_start(4);
    assert_eq!(moved.ranges, vec![range(4, 5), range(8, 10), range(13, 14)]);
    let back = moved.with_start(0);
    assert_eq!(back.start, 0);
    assert_eq!(back.period, 10);
    // The range that was cut comes back in two pieces that touch.
    assert_eq!(back.ranges, vec![range(3, 4), range(4, 5), range(8, 10)]);
    assert_eq!(back.generate_ranges(0, 20), segment.generate_ranges(0, 20));
}
