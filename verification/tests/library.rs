use eva::configuration::SchedulingStrategy;
use eva::schedule_tree::ScheduleTree;
use eva::scheduling::strategies::{
    schedule_according_to_importance, schedule_according_to_myrjam,
};
use eva::scheduling::{is_schedulable, Error, Schedule, Task, START_DELAY};
use eva::item::Item;
use eva::spans::TimeRange;
use eva::time_segment::{is_valid, NamedTimeSegment, TimeSegment, UnnamedTimeSegment};
use eva::util::WithSideEffects;

fn task(content: &str, deadline: i64, duration: i64, importance: u32) -> Task {
    Task {
        id: 0,
        content: content.to_string(),
        deadline,
        duration,
        importance,
        time_segment_id: 0,
    }
}

fn range(start: i64, end: i64) -> TimeRange {
    TimeRange { start, end }
}

fn segment(ranges: Vec<TimeRange>, start: i64, period: i64) -> UnnamedTimeSegment {
    UnnamedTimeSegment { ranges, start, period }
}

#[test]
fn strategies_are_known_by_name() {
    assert_eq!(
        SchedulingStrategy::from_name("importance"),
        Some(SchedulingStrategy::Importance)
    );
    assert_eq!(
        SchedulingStrategy::from_name("urgency"),
        Some(SchedulingStrategy::Urgency)
    );
    assert_eq!(SchedulingStrategy::from_name("Urgency"), None);
    assert_eq!(SchedulingStrategy::from_name("importance "), None);
    assert_eq!(SchedulingStrategy::from_name(""), None);
    for strategy in [SchedulingStrategy::Importance, SchedulingStrategy::Urgency] {
        assert_eq!(SchedulingStrategy::from_name(strategy.as_str()), Some(strategy));
    }
}

#[test]
fn a_schedule_begins_a_minute_from_now() {
    assert_eq!(START_DELAY, 60);
    let anytime = segment(vec![range(0, 1000)], 0, 1000);
    let pairs = vec![(anytime, vec![task("soon", 5000, 100, 1)])];
    let schedule = eva::schedule(1000, pairs, "urgency").unwrap();
    assert_eq!(schedule.0.len(), 1);
    assert_eq!(schedule.0[0].when, 1060);

    // What could be done now but not in a minute cannot be scheduled.
    let anytime = segment(vec![range(0, 1000)], 0, 1000);
    let pairs = vec![(anytime, vec![task("at once", 1100, 100, 1)])];
    match eva::schedule(1000, pairs, "importance") {
        Err(Error::DeadlineMissed { tense, .. }) => assert_eq!(tense, "will miss"),
        other => panic!("expected a deadline that will be missed, got {:?}", other),
    }
}

#[test]
fn valid_segments() {
    assert!(is_valid(&segment(vec![], 0, 10)));
    assert!(is_valid(&segment(vec![range(0, 10)], 0, 10)));
    assert!(is_valid(&segment(vec![range(2, 3), range(3, 5), range(7, 10)], 0, 10)));
    // The period is empty.
    assert!(!is_valid(&segment(vec![], 0, 0)));
    assert!(!is_valid(&segment(vec![], 0, -5)));
    // The period ends beyond the range of the clock.
    assert!(!is_valid(&segment(vec![], i64::MAX - 5, 10)));
    // A range is empty, out of the period, or out of order.
    assert!(!is_valid(&segment(vec![range(3, 3)], 0, 10)));
    assert!(!is_valid(&segment(vec![range(5, 3)], 0, 10)));
    assert!(!is_valid(&segment(vec![range(-1, 3)], 0, 10)));
    assert!(!is_valid(&segment(vec![range(8, 11)], 0, 10)));
    assert!(!is_valid(&segment(vec![range(5, 7), range(2, 3)], 0, 10)));
    assert!(!is_valid(&segment(vec![range(2, 5), range(4, 7)], 0, 10)));
}

#[test]
fn what_can_be_scheduled() {
    let daily = segment(vec![range(10, 12)], 0, 24);
    assert!(is_schedulable(0, &daily, &vec![]));
    assert!(is_schedulable(0, &daily, &vec![task("fine", 100, 1, 1)]));
    // A task that takes no time.
    assert!(!is_schedulable(0, &daily, &vec![task("idle", 100, 0, 1)]));
    assert!(!is_schedulable(0, &daily, &vec![task("fine", 100, 1, 1), task("idle", 100, -1, 1)]));
    // A segment that is not valid.
    assert!(!is_schedulable(0, &segment(vec![range(12, 10)], 0, 24), &vec![]));
    // A start so late that the period after it ends beyond the range of the clock.
    assert!(!is_schedulable(i64::MAX - 10, &daily, &vec![task("fine", i64::MAX, 1, 1)]));
    assert!(is_schedulable(i64::MAX - 10, &daily, &vec![]));
    // A deadline too far from the start.
    assert!(!is_schedulable(-10, &daily, &vec![task("far", i64::MAX, 1, 1)]));
}

#[test]
fn named_time_segments_are_time_segments() {
    let named = NamedTimeSegment {
        id: 3,
        name: "evenings".to_string(),
        ranges: vec![range(18, 22)],
        start: 0,
        period: 24,
        hue: 120,
    };
    assert_eq!(named.ranges(), &vec![range(18, 22)]);
    assert_eq!(named.start(), 0);
    assert_eq!(named.period(), 24);
    assert_eq!(named.inverse(), segment(vec![range(0, 18), range(22, 24)], 0, 24));
    assert_eq!(named.with_start(20), segment(vec![range(20, 22), range(42, 44)], 20, 24));
    assert_eq!(
        named.generate_ranges(20, 70),
        vec![range(20, 22), range(42, 46), range(66, 70)]
    );
    let pairs = vec![(named, vec![task("read", 100, 3, 1)])];
    let schedule = Schedule::schedule(0, pairs, SchedulingStrategy::Urgency).unwrap();
    assert_eq!(schedule.0[0].when, 18);
}

#[test]
fn importance_strategy_on_a_tree_with_blocks() {
    let mut tree = ScheduleTree::new();
    assert!(tree.schedule_exact(0, 10, Item::Nothing));
    assert!(tree.schedule_exact(15, 5, Item::Nothing));
    let mut tasks = vec![
        task("important", 40, 4, 9),
        task("urgent", 15, 3, 1),
        task("long", 40, 6, 5),
    ];
    schedule_according_to_importance(&mut tree, 0, &mut tasks).unwrap();
    // The tasks are left in the order in which they were taken up.
    let order: Vec<&str> = tasks.iter().map(|task| task.content.as_str()).collect();
    assert_eq!(order, vec!["urgent", "long", "important"]);
    assert_eq!(tree.when_scheduled(&Item::Task(0)), Some(&10));
    assert_eq!(tree.when_scheduled(&Item::Task(2)), Some(&20));
    assert_eq!(tree.when_scheduled(&Item::Task(1)), Some(&24));
    let schedule = Schedule::from_tree(tree, &tasks);
    let shown: Vec<(&str, i64)> = schedule
        .0
        .iter()
        .map(|scheduled| (scheduled.task.content.as_str(), scheduled.when))
        .collect();
    assert_eq!(shown, vec![("urgent", 10), ("important", 20), ("long", 24)]);
}

#[test]
fn urgency_strategy_on_a_tree_with_blocks() {
    let mut tree = ScheduleTree::new();
    assert!(tree.schedule_exact(0, 10, Item::Nothing));
    assert!(tree.schedule_exact(15, 5, Item::Nothing));
    let mut tasks = vec![
        task("important", 40, 4, 9),
        task("urgent", 15, 3, 1),
        task("long", 40, 6, 5),
    ];
    schedule_according_to_myrjam(&mut tree, 0, &mut tasks).unwrap();
    let order: Vec<&str> = tasks.iter().map(|task| task.content.as_str()).collect();
    assert_eq!(order, vec!["urgent", "long", "important"]);
    let schedule = Schedule::from_tree(tree, &tasks);
    let shown: Vec<(&str, i64)> = schedule
        .0
        .iter()
        .map(|scheduled| (scheduled.task.content.as_str(), scheduled.when))
        .collect();
    assert_eq!(shown, vec![("urgent", 10), ("important", 20), ("long", 24)]);
}

#[test]
fn strategies_tell_which_task_found_no_room() {
    let mut tree = ScheduleTree::new();
    let mut tasks = vec![task("second", 10, 6, 2), task("first", 10, 6, 1)];
    match schedule_according_to_myrjam(&mut tree, 0, &mut tasks) {
        Err(Error::NotEnoughTime { task }) => assert_eq!(task.content, "second"),
        other => panic!("expected that there is not enough time, got {:?}", other),
    }
    let mut tree = ScheduleTree::new();
    let mut tasks = vec![task("late", 5, 6, 2), task("fine", 10, 6, 1)];
    match schedule_according_to_importance(&mut tree, 0, &mut tasks) {
        Err(Error::DeadlineMissed { task, tense }) => {
            assert_eq!(task.content, "late");
            assert_eq!(tense, "will miss");
        }
        other => panic!("expected a deadline that will be missed, got {:?}", other),
    }
}

#[test]
fn side_effects_come_in_passing() {
    let mut seen = vec![];
    let same = Some(3).with_side_effects(|value| seen.push(value));
    assert_eq!(same, Some(3));
    let none: Option<i32> = None;
    let same = none.with_side_effects(|value| seen.push(value));
    assert_eq!(same, None);
    assert_eq!(seen, vec![3]);
}
