use eva::node::Node;
use eva::schedule_tree::ScheduleTree;
use eva::item::Item;
use eva::spans::{Entry, TimeRange};

fn generate_data(n: u64) -> Vec<Item> {
    (0..n).map(Item::Task).collect()
}

fn range(start: i64, end: i64) -> TimeRange {
    TimeRange { start, end }
}

/// The spans of the leaves, as the walk over the tree yields them.
fn spans(tree: &ScheduleTree) -> Vec<(i64, i64)> {
    let mut iter = tree.iter();
    let mut spans = vec![];
    loop {
        match iter.next() {
            Some(entry) => spans.push((entry.start, entry.end)),
            None => break,
        }
    }
    spans
}

/// The leaves, as the walk that takes the tree apart yields them.
fn drain(tree: ScheduleTree) -> Vec<Entry> {
    let mut iter = tree.into_iter();
    let mut entries = vec![];
    loop {
        match iter.next() {
            Some(entry) => entries.push(entry),
            None => break,
        }
    }
    entries
}

#[test]
fn schedule_tree_test_schedule_exact() {
    let data = generate_data(10);

    let mut tree = ScheduleTree::new();
    assert!(tree.is_empty());
    assert_eq!(spans(&tree), vec![]);

    let scheduled = tree.schedule_exact(5, 4, data[0]);
    assert!(scheduled);
    assert!(!tree.is_empty());
    assert!(tree.scope() == Some(range(5, 9)));
    assert_eq!(spans(&tree), vec![(5, 9)]);
    assert_eq!(tree.when_scheduled(&data[0]), Some(&5));

    let scheduled = tree.schedule_exact(13, 5, data[1]);
    assert!(scheduled);
    assert!(tree.scope() == Some(range(5, 18)));
    assert_eq!(spans(&tree), vec![(5, 9), (13, 18)]);

    let scheduled = tree.schedule_exact(10, 2, data[2]);
    assert!(scheduled);
    assert!(tree.scope() == Some(range(5, 18)));
    assert_eq!(spans(&tree), vec![(5, 9), (10, 12), (13, 18)]);

    let scheduled = tree.schedule_exact(14, 2, data[3]);
    assert!(!scheduled);
    assert_eq!(tree.when_scheduled(&data[3]), None);

    let scheduled = tree.schedule_exact(12, 0, data[4]);
    assert!(!scheduled);

    let scheduled = tree.schedule_exact(9, 2, data[5]);
    assert!(!scheduled);
    assert_eq!(spans(&tree), vec![(5, 9), (10, 12), (13, 18)]);

    let scheduled = tree.schedule_exact(9, 1, data[6]);
    assert!(scheduled);
    assert!(tree.scope() == Some(range(5, 18)));
    assert_eq!(spans(&tree), vec![(5, 9), (9, 10), (10, 12), (13, 18)]);
    assert_eq!(tree.when_scheduled(&data[6]), Some(&9));
    assert_eq!(tree.scheduled_tasks(), 4);

    assert_eq!(
        drain(tree),
        vec![
            Entry { start: 5, end: 9, data: data[0] },
            Entry { start: 9, end: 10, data: data[6] },
            Entry { start: 10, end: 12, data: data[2] },
            Entry { start: 13, end: 18, data: data[1] },
        ]
    );
}

#[test]
fn schedule_tree_test_schedule_close_before() {
    let data = generate_data(10);

    let mut tree = ScheduleTree::new();

    let scheduled = tree.schedule_close_before(18, 5, None, data[0]);
    assert!(scheduled);
    assert!(tree.scope() == Some(range(13, 18)));
    assert_eq!(spans(&tree), vec![(13, 18)]);

    let scheduled = tree.schedule_close_before(10, 5, None, data[1]);
    assert!(scheduled);
    assert!(tree.scope() == Some(range(5, 18)));
    assert_eq!(spans(&tree), vec![(5, 10), (13, 18)]);

    let scheduled = tree.schedule_close_before(17, 2, Some(12), data[2]);
    assert!(!scheduled);
    assert!(tree.scope() == Some(range(5, 18)));
    assert_eq!(spans(&tree), vec![(5, 10), (13, 18)]);

    let scheduled = tree.schedule_close_before(17, 2, Some(11), data[3]);
    assert!(scheduled);
    assert!(tree.scope() == Some(range(5, 18)));
    assert_eq!(spans(&tree), vec![(5, 10), (11, 13), (13, 18)]);
    assert_eq!(tree.when_scheduled(&data[3]), Some(&11));

    let scheduled = tree.schedule_close_before(19, 2, Some(4), data[4]);
    assert!(!scheduled);

    let scheduled = tree.schedule_close_before(19, 2, Some(3), data[5]);
    assert!(scheduled);
    assert!(tree.scope() == Some(range(3, 18)));
    assert_eq!(spans(&tree), vec![(3, 5), (5, 10), (11, 13), (13, 18)]);

    let scheduled = tree.schedule_close_before(30, 5, Some(19), data[6]);
    assert!(scheduled);
    assert!(tree.scope() == Some(range(3, 30)));

    let scheduled = tree.schedule_close_before(24, 3, None, data[7]);
    assert!(scheduled);
    assert!(tree.scope() == Some(range(3, 30)));
    assert_eq!(
        spans(&tree),
        vec![(3, 5), (5, 10), (11, 13), (13, 18), (21, 24), (25, 30)]
    );
    assert_eq!(tree.when_scheduled(&data[7]), Some(&21));
}

#[test]
fn schedule_tree_test_schedule_close_after() {
    let data = generate_data(10);

    let mut tree = ScheduleTree::new();

    let scheduled = tree.schedule_close_after(13, 5, None, data[0]);
    assert!(scheduled);
    assert!(tree.scope() == Some(range(13, 18)));
    assert_eq!(spans(&tree), vec![(13, 18)]);

    let scheduled = tree.schedule_close_after(5, 5, Some(10), data[1]);
    assert!(scheduled);
    assert!(tree.scope() == Some(range(5, 18)));
    assert_eq!(spans(&tree), vec![(5, 10), (13, 18)]);

    let scheduled = tree.schedule_close_after(4, 2, Some(11), data[2]);
    assert!(!scheduled);
    assert!(tree.scope() == Some(range(5, 18)));
    assert_eq!(spans(&tree), vec![(5, 10), (13, 18)]);

    let scheduled = tree.schedule_close_after(4, 3, Some(13), data[3]);
    assert!(scheduled);
    assert!(tree.scope() == Some(range(5, 18)));
    assert_eq!(spans(&tree), vec![(5, 10), (10, 13), (13, 18)]);

    let scheduled = tree.schedule_close_after(4, 2, Some(19), data[4]);
    assert!(!scheduled);

    let scheduled = tree.schedule_close_after(4, 2, Some(20), data[5]);
    assert!(scheduled);
    assert!(tree.scope() == Some(range(5, 20)));
    assert_eq!(spans(&tree), vec![(5, 10), (10, 13), (13, 18), (18, 20)]);

    let scheduled = tree.schedule_close_after(25, 5, None, data[6]);
    assert!(scheduled);
    assert!(tree.scope() == Some(range(5, 30)));

    let scheduled = tree.schedule_close_after(21, 2, None, data[7]);
    assert!(scheduled);
    assert!(tree.scope() == Some(range(5, 30)));
    assert_eq!(
        spans(&tree),
        vec![(5, 10), (10, 13), (13, 18), (18, 20), (21, 23), (25, 30)]
    );
    assert_eq!(tree.when_scheduled(&data[7]), Some(&21));
}

#[test]
fn schedule_tree_test_unschedule() {
    let data = generate_data(10);

    let mut tree = ScheduleTree::new();

    tree.schedule_exact(5, 4, data[0]);
    let entry = tree.unschedule(&data[0]);
    assert_eq!(entry, Some(Entry { start: 5, end: 9, data: data[0] }));
    assert!(tree.root().is_none());
    assert!(tree.scope().is_none());
    assert!(tree.scheduled_tasks() == 0);
    assert_eq!(tree.when_scheduled(&data[0]), None);

    tree.schedule_exact(5, 4, data[0]);
    tree.schedule_exact(13, 5, data[1]);
    let entry = tree.unschedule(&data[1]);
    assert_eq!(entry, Some(Entry { start: 13, end: 18, data: data[1] }));
    assert_eq!(tree.scope(), Some(range(5, 9)));
    assert_eq!(spans(&tree), vec![(5, 9)]);

    tree.schedule_exact(5, 4, data[0]);
    tree.schedule_exact(13, 5, data[1]);
    let entry = tree.unschedule(&data[0]);
    assert_eq!(entry, Some(Entry { start: 5, end: 9, data: data[0] }));
    assert_eq!(tree.scope(), Some(range(13, 18)));
    assert_eq!(spans(&tree), vec![(13, 18)]);

    tree.schedule_close_before(9, 4, None, data[0]);
    tree.schedule_close_after(10, 2, None, data[2]);
    assert_eq!(spans(&tree), vec![(5, 9), (10, 12), (13, 18)]);

    let entry = tree.unschedule(&data[0]);
    assert_eq!(entry, Some(Entry { start: 5, end: 9, data: data[0] }));
    assert_eq!(tree.scope(), Some(range(10, 18)));
    assert_eq!(spans(&tree), vec![(10, 12), (13, 18)]);

    let entry = tree.unschedule(&data[2]);
    assert_eq!(entry, Some(Entry { start: 10, end: 12, data: data[2] }));
    assert_eq!(tree.scope(), Some(range(13, 18)));
    assert_eq!(spans(&tree), vec![(13, 18)]);

    assert_eq!(tree.scope(), Some(range(13, 18)));
    tree.schedule_close_after(10, 2, None, data[0]);
    assert_eq!(tree.scope(), Some(range(10, 18)));
    tree.schedule_close_before(9, 4, None, data[2]);
    assert_eq!(tree.scope(), Some(range(5, 18)));

    let entry = tree.unschedule(&data[0]);
    assert_eq!(entry, Some(Entry { start: 10, end: 12, data: data[0] }));
    assert_eq!(tree.scope(), Some(range(5, 18)));
    assert_eq!(spans(&tree), vec![(5, 9), (13, 18)]);

    let entry = tree.unschedule(&data[2]);
    assert_eq!(entry, Some(Entry { start: 5, end: 9, data: data[2] }));
    assert_eq!(tree.scope(), Some(range(13, 18)));

    let entry = tree.unschedule(&data[1]);
    assert_eq!(entry, Some(Entry { start: 13, end: 18, data: data[1] }));
    assert!(tree.root().is_none());
    assert!(tree.scope().is_none());
    assert!(tree.scheduled_tasks() == 0);
}

#[test]
fn unschedule_of_what_is_not_scheduled_changes_nothing() {
    let mut tree = ScheduleTree::new();
    assert_eq!(tree.unschedule(&Item::Task(1)), None);
    tree.schedule_exact(5, 4, Item::Task(0));
    tree.schedule_exact(13, 5, Item::Task(1));
    tree.schedule_exact(20, 5, Item::Nothing);
    assert_eq!(tree.unschedule(&Item::Task(7)), None);
    assert_eq!(tree.unschedule(&Item::Nothing), None);
    assert_eq!(tree.when_scheduled(&Item::Nothing), None);
    assert_eq!(spans(&tree), vec![(5, 9), (13, 18), (20, 25)]);
    assert_eq!(tree.scope(), Some(range(5, 25)));
    assert_eq!(tree.scheduled_tasks(), 2);
    assert_eq!(tree.when_scheduled(&Item::Task(1)), Some(&13));
}

#[test]
fn blocks_take_time_and_have_no_place_in_the_index() {
    let mut tree = ScheduleTree::new();
    assert!(tree.schedule_exact(0, 10, Item::Nothing));
    assert!(tree.schedule_exact(20, 10, Item::Nothing));
    assert_eq!(tree.scheduled_tasks(), 0);
    assert!(!tree.schedule_exact(5, 10, Item::Task(0)));
    assert!(tree.schedule_close_before(25, 10, Some(0), Item::Task(0)));
    assert_eq!(spans(&tree), vec![(0, 10), (10, 20), (20, 30)]);
    let entries = drain(tree);
    assert_eq!(entries.len(), 3);
    assert!(matches!(entries[0], Entry { start: 0, end: 10, data: Item::Nothing }));
    assert_eq!(entries[1], Entry { start: 10, end: 20, data: Item::Task(0) });
    assert!(matches!(entries[2], Entry { start: 20, end: 30, data: Item::Nothing }));
}

#[test]
fn what_holds_nothing_is_the_same_as_nothing_else() {
    assert!(Item::Task(3) == Item::Task(3));
    assert!(Item::Task(3) != Item::Task(4));
    assert!(Item::Task(3) != Item::Nothing);
    assert!(Item::Nothing != Item::Task(3));
    assert!(Item::Nothing != Item::Nothing);
}

#[test]
fn spans_that_take_no_time_are_not_scheduled() {
    let mut tree = ScheduleTree::new();
    assert!(!tree.schedule_exact(5, 0, Item::Task(0)));
    assert!(!tree.schedule_exact(5, -3, Item::Task(0)));
    assert!(!tree.schedule_close_before(5, 0, None, Item::Task(0)));
    assert!(!tree.schedule_close_after(5, 0, None, Item::Task(0)));
    assert!(tree.is_empty());
    assert_eq!(tree.scope(), None);
}

#[test]
fn spans_beyond_the_range_of_the_clock_are_not_scheduled() {
    let mut tree = ScheduleTree::new();
    assert!(!tree.schedule_exact(i64::MAX - 1, 2, Item::Task(0)));
    assert!(!tree.schedule_close_after(i64::MAX - 1, 2, None, Item::Task(0)));
    assert!(!tree.schedule_close_before(i64::MIN + 1, 2, None, Item::Task(0)));
    assert!(tree.schedule_exact(i64::MAX - 2, 2, Item::Task(0)));
    // After the last leaf there is no room left, before it there is.
    assert!(!tree.schedule_close_after(i64::MAX - 1, 1, None, Item::Task(1)));
    assert!(tree.schedule_close_after(i64::MAX - 10, 1, None, Item::Task(1)));
    assert_eq!(tree.when_scheduled(&Item::Task(1)), Some(&(i64::MAX - 10)));
}

#[test]
fn close_before_without_a_lower_bound_takes_the_latest_gap() {
    let mut tree = ScheduleTree::new();
    tree.schedule_exact(0, 2, Item::Task(0));
    tree.schedule_exact(10, 2, Item::Task(1));
    tree.schedule_exact(20, 5, Item::Task(2));
    // The gap before the last leaf is too small, the one before it is not.
    assert!(tree.schedule_close_before(19, 8, None, Item::Task(3)));
    assert_eq!(tree.when_scheduled(&Item::Task(3)), Some(&2));
    assert_eq!(spans(&tree), vec![(0, 2), (2, 10), (10, 12), (20, 25)]);
    // With no gap left that is large enough, the leaf goes before all others.
    assert!(tree.schedule_close_before(19, 8, None, Item::Task(4)));
    assert_eq!(tree.when_scheduled(&Item::Task(4)), Some(&-8));
    assert_eq!(tree.scope(), Some(range(-8, 25)));
}

#[test]
fn close_after_without_an_upper_bound_takes_the_earliest_gap() {
    let mut tree = ScheduleTree::new();
    tree.schedule_exact(20, 5, Item::Task(0));
    tree.schedule_exact(10, 2, Item::Task(1));
    tree.schedule_exact(0, 2, Item::Task(2));
    // The gap after the first leaf is large enough.
    assert!(tree.schedule_close_after(1, 8, None, Item::Task(3)));
    assert_eq!(tree.when_scheduled(&Item::Task(3)), Some(&2));
    // Now only the gap after the second leaf is.
    assert!(tree.schedule_close_after(1, 8, None, Item::Task(4)));
    assert_eq!(tree.when_scheduled(&Item::Task(4)), Some(&12));
    // And then none: the leaf goes after all others.
    assert!(tree.schedule_close_after(1, 8, None, Item::Task(5)));
    assert_eq!(tree.when_scheduled(&Item::Task(5)), Some(&25));
    assert_eq!(tree.scope(), Some(range(0, 33)));
}

#[test]
fn the_root_shows_the_gaps() {
    let mut tree = ScheduleTree::new();
    tree.schedule_exact(5, 4, Item::Task(0));
    tree.schedule_exact(13, 5, Item::Task(1));
    match tree.root() {
        Some(Node::Intermediate { free, left, right }) => {
            assert_eq!(*free, range(9, 13));
            assert_eq!(left.find_scope(), range(5, 9));
            assert_eq!(right.find_scope(), range(13, 18));
            assert_eq!(left.entry(), Some(Entry { start: 5, end: 9, data: Item::Task(0) }));
        }
        other => panic!("expected an intermediate node, got {:?}", other),
    }
}
