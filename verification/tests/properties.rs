use eva::configuration::SchedulingStrategy;
use eva::item::Item;
use eva::schedule_tree::ScheduleTree;
use eva::scheduling::{is_schedulable, Error, Schedule, Task};
use eva::spans::TimeRange;
use eva::time_segment::{is_valid, TimeSegment, UnnamedTimeSegment};

/// A small generator of numbers that look random and are the same on every run.
struct Numbers(u64);

impl Numbers {
    fn next(&mut self) -> u64 {
        self.0 = self.0.wrapping_mul(6364136223846793005).wrapping_add(1442695040888963407);
        self.0 >> 33
    }

    fn below(&mut self, bound: i64) -> i64 {
        (self.next() % bound as u64) as i64
    }
}

fn random_segment(numbers: &mut Numbers) -> UnnamedTimeSegment {
    let start = numbers.below(200) - 100;
    let period = 1 + numbers.below(40);
    let mut ranges = vec![];
    let mut at = start;
    loop {
        at += numbers.below(6);
        let end = at + 1 + numbers.below(8);
        if end > start + period {
            break;
        }
        ranges.push(TimeRange { start: at, end });
        at = end;
    }
    UnnamedTimeSegment { ranges, start, period }
}

fn covered(segment: &UnnamedTimeSegment, t: i64) -> bool {
    let home = segment.start + (t - segment.start).rem_euclid(segment.period);
    segment
        .ranges
        .iter()
        .any(|range| range.start <= home && home < range.end)
}

fn within(ranges: &[TimeRange], t: i64) -> bool {
    ranges.iter().any(|range| range.start <= t && t < range.end)
}

#[test]
fn inverse_covers_what_the_segment_leaves_open() {
    let mut numbers = Numbers(1);
    for _ in 0..300 {
        let segment = random_segment(&mut numbers);
        assert!(is_valid(&segment));
        let inverse = segment.inverse();
        assert!(is_valid(&inverse));
        for t in -300..300 {
            assert_eq!(covered(&inverse, t), !covered(&segment, t));
        }
        for pair in inverse.ranges.windows(2) {
            assert!(pair[0].end < pair[1].start);
        }
        let touching = segment.ranges.windows(2).any(|pair| pair[0].end == pair[1].start);
        if !touching {
            assert_eq!(inverse.inverse(), segment);
        }
    }
}

#[test]
fn with_start_covers_the_same_time() {
    let mut numbers = Numbers(2);
    for _ in 0..300 {
        let segment = random_segment(&mut numbers);
        let start = numbers.below(400) - 200;
        let moved = segment.with_start(start);
        assert!(is_valid(&moved));
        assert_eq!(moved.start, start);
        assert_eq!(moved.period, segment.period);
        let back = moved.with_start(segment.start);
        assert!(is_valid(&back));
        for t in -300..300 {
            assert_eq!(covered(&moved, t), covered(&segment, t));
            assert_eq!(covered(&back, t), covered(&segment, t));
        }
    }
}

#[test]
fn generate_ranges_shows_what_the_segment_covers() {
    let mut numbers = Numbers(3);
    for _ in 0..300 {
        let segment = random_segment(&mut numbers);
        let start = numbers.below(300) - 150;
        let end = start + numbers.below(200) - 20;
        let ranges = segment.generate_ranges(start, end);
        for range in &ranges {
            assert!(start <= range.start && range.start < range.end && range.end <= end);
        }
        for pair in ranges.windows(2) {
            assert!(pair[0].end < pair[1].start);
        }
        for t in -400..400 {
            assert_eq!(within(&ranges, t), start <= t && t < end && covered(&segment, t));
        }
    }
}

fn random_tasks(numbers: &mut Numbers, start: i64) -> Vec<Task> {
    let count = numbers.below(7);
    (0..count)
        .map(|id| Task {
            id: id as u32,
            content: format!("task {}", id),
            deadline: start + numbers.below(120) - 5,
            duration: 1 + numbers.below(9),
            importance: numbers.below(4) as u32,
            time_segment_id: 0,
        })
        .collect()
}

#[test]
fn schedules_keep_their_promises() {
    let mut numbers = Numbers(4);
    let mut made = 0;
    let mut failed = 0;
    for round in 0..600 {
        let segment = random_segment(&mut numbers);
        let start = numbers.below(100) - 50;
        let tasks = random_tasks(&mut numbers, start);
        let strategy = if round % 2 == 0 {
            SchedulingStrategy::Importance
        } else {
            SchedulingStrategy::Urgency
        };
        assert!(is_schedulable(start, &segment, &tasks));
        let horizon = tasks.iter().map(|task| task.deadline).max();
        match Schedule::schedule_within_segment(start, tasks.clone(), segment.clone(), strategy) {
            Ok(schedule) => {
                made += 1;
                // Every task is scheduled, none twice.
                assert_eq!(schedule.0.len(), tasks.len());
                let mut ids: Vec<u32> = schedule.0.iter().map(|s| s.task.id).collect();
                ids.sort();
                assert_eq!(ids, (0..tasks.len() as u32).collect::<Vec<u32>>());
                for scheduled in &schedule.0 {
                    assert_eq!(scheduled.task, tasks[scheduled.task.id as usize]);
                    // On time,
                    assert!(scheduled.when >= start);
                    assert!(scheduled.when + scheduled.task.duration <= scheduled.task.deadline);
                    // and within what the segment covers before the last deadline.
                    let covered_there = segment.generate_ranges(start, horizon.unwrap());
                    assert!(covered_there.iter().any(|range| range.start <= scheduled.when
                        && scheduled.when + scheduled.task.duration <= range.end));
                }
                // One at a time, in the order of the clock.
                for pair in schedule.0.windows(2) {
                    assert!(pair[0].when + pair[0].task.duration <= pair[1].when);
                    assert!(pair[0].when < pair[1].when);
                }
            }
            Err(Error::DeadlineMissed { task, tense }) => {
                failed += 1;
                assert_eq!(task, tasks[task.id as usize]);
                assert!(task.deadline < start + task.duration);
                assert_eq!(tense, if task.deadline < start { "missed" } else { "will miss" });
            }
            Err(Error::NotEnoughTime { task }) => {
                failed += 1;
                assert_eq!(task, tasks[task.id as usize]);
                assert!(task.deadline >= start + task.duration);
                assert!(tasks.iter().all(|task| task.deadline >= start + task.duration)
                    || tasks.len() > 1);
            }
            Err(Error::Internal(message)) => panic!("an internal error: {}", message),
        }
        if tasks.iter().any(|task| task.deadline < start + task.duration) {
            assert!(Schedule::schedule_within_segment(start, tasks, segment, strategy).is_err());
        }
    }
    assert!(made > 50);
    assert!(failed > 50);
}

/// The latest start at which a span fits before `end`, found by trying them all.
fn latest_fit(taken: &[(i64, i64)], end: i64, duration: i64, min_start: i64) -> Option<i64> {
    (min_start..=end - duration)
        .rev()
        .find(|start| taken.iter().all(|(from, to)| *to <= *start || start + duration <= *from))
}

/// The earliest start at which a span fits after `start`, found by trying them all.
fn earliest_fit(taken: &[(i64, i64)], start: i64, duration: i64, max_end: i64) -> Option<i64> {
    (start..=max_end - duration)
        .find(|at| taken.iter().all(|(from, to)| *to <= *at || at + duration <= *from))
}

#[test]
fn the_tree_places_leaves_where_trying_every_start_does() {
    let mut numbers = Numbers(5);
    for _ in 0..200 {
        let mut tree = ScheduleTree::new();
        let mut taken: Vec<(i64, i64)> = vec![];
        let mut live: Vec<(u64, i64, i64)> = vec![];
        for key in 0..40u64 {
            let duration = 1 + numbers.below(6);
            match numbers.below(4) {
                0 => {
                    let start = numbers.below(60);
                    let fits = taken
                        .iter()
                        .all(|(from, to)| *to <= start || start + duration <= *from);
                    assert_eq!(tree.schedule_exact(start, duration, Item::Task(key)), fits);
                    if fits {
                        taken.push((start, start + duration));
                        live.push((key, start, start + duration));
                    }
                }
                1 => {
                    let min_start = numbers.below(30);
                    let end = min_start + duration + numbers.below(30);
                    let expected = latest_fit(&taken, end, duration, min_start);
                    let scheduled =
                        tree.schedule_close_before(end, duration, Some(min_start), Item::Task(key));
                    assert_eq!(scheduled, expected.is_some());
                    assert_eq!(tree.when_scheduled(&Item::Task(key)).copied(), expected);
                    if let Some(start) = expected {
                        taken.push((start, start + duration));
                        live.push((key, start, start + duration));
                    }
                }
                2 => {
                    let start = numbers.below(30);
                    let max_end = start + duration + numbers.below(30);
                    let expected = earliest_fit(&taken, start, duration, max_end);
                    let scheduled =
                        tree.schedule_close_after(start, duration, Some(max_end), Item::Task(key));
                    assert_eq!(scheduled, expected.is_some());
                    assert_eq!(tree.when_scheduled(&Item::Task(key)).copied(), expected);
                    if let Some(at) = expected {
                        taken.push((at, at + duration));
                        live.push((key, at, at + duration));
                    }
                }
                _ => {
                    if !live.is_empty() {
                        let which = numbers.below(live.len() as i64) as usize;
                        let (gone, start, end) = live.remove(which);
                        let entry = tree.unschedule(&Item::Task(gone)).unwrap();
                        assert_eq!((entry.start, entry.end), (start, end));
                        assert_eq!(entry.data, Item::Task(gone));
                        taken.retain(|span| *span != (start, end));
                        assert_eq!(tree.unschedule(&Item::Task(gone)), None);
                    }
                }
            }
            taken.sort();
            let mut iter = tree.iter();
            let mut spans = vec![];
            while let Some(entry) = iter.next() {
                spans.push((entry.start, entry.end));
            }
            assert_eq!(spans, taken);
            assert_eq!(tree.scheduled_tasks(), live.len());
            assert_eq!(
                tree.scope().map(|scope| (scope.start, scope.end)),
                taken.first().map(|first| (first.0, taken.last().unwrap().1))
            );
        }
    }
}
