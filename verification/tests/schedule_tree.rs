use eva::node::Node;
use eva::schedule_tree::ScheduleTree;
use eva::item::Item;
use eva::spans::{Entry, TimeRange};

fn generate_data(n: u64) -> Vec<Item> {
    (0..n).map(Item::Task).collect()
}

fn range(start: i64, end: i64) -> TimeRange {
    TimeRange { start, end }
}

fn is_leaf(node: &Node, from: i64, to: i64) -> bool {
    matches!(node, Node::Leaf { start, end, .. } if *start == from && *end == to)
}

/// The children of an intermediate node with the given free span.
fn children(node: &Node, from: i64, to: i64) -> (&Node, &Node) {
    match node {
        Node::Intermediate { free, left, right } if *free == range(from, to) => (left, right),
        other => panic!("expected an intermediate node with free {}..{}, got {:?}", from, to, other),
    }
}

fn root(tree: &ScheduleTree) -> &Node {
    tree.root().expect("the tree is empty")
}

fn spans(entry: Option<Entry>, from: i64, to: i64) -> bool {
    matches!(entry, Some(Entry { start, end, .. }) if start == from && end == to)
}

#[test]
fn test_schedule_exact() {
    let data = generate_data(10);

    let mut tree = ScheduleTree::new();

    // 5..9
    let scheduled = tree.schedule_exact(5, 4, data[0]);
    assert!(scheduled);
    assert!(tree.scope() == Some(range(5, 9)));
    assert!(is_leaf(root(&tree), 5, 9));

    //   free:9..13
    //    /        \
    // 5..9       13..18
    let scheduled = tree.schedule_exact(13, 5, data[1]);
    assert!(scheduled);
    assert!(tree.scope() == Some(range(5, 18)));
    let (_, right) = children(root(&tree), 9, 13);
    assert!(is_leaf(right, 13, 18));

    //   free:9..10
    //    /        \
    // 5..9      free:12..13
    //             /     \
    //          10..12  13..18
    let scheduled = tree.schedule_exact(10, 2, data[2]);
    assert!(scheduled);
    assert!(tree.scope() == Some(range(5, 18)));
    let (_, right) = children(root(&tree), 9, 10);
    let (left, _) = children(right, 12, 13);
    assert!(is_leaf(left, 10, 12));

    let scheduled = tree.schedule_exact(14, 2, data[3]);
    assert!(!scheduled);

    let scheduled = tree.schedule_exact(12, 0, data[4]);
    assert!(!scheduled);

    let scheduled = tree.schedule_exact(9, 2, data[5]);
    assert!(!scheduled);

    //     free:9..9
    //    /         \
    // 5..9      free:10..10
    //            /       \
    //         9..10   free:12..13
    //                   /     \
    //               10..12   13..18
    let scheduled = tree.schedule_exact(9, 1, data[6]);
    assert!(scheduled);
    assert!(tree.scope() == Some(range(5, 18)));
    let (left, right) = children(root(&tree), 9, 9);
    assert!(is_leaf(left, 5, 9));
    let (left, right) = children(right, 10, 10);
    assert!(is_leaf(left, 9, 10));
    let (left, right) = children(right, 12, 13);
    assert!(is_leaf(left, 10, 12));
    assert!(is_leaf(right, 13, 18));
}

#[test]
fn test_schedule_close_before() {
    let data = generate_data(10);

    let mut tree = ScheduleTree::new();

    // 13..18
    let scheduled = tree.schedule_close_before(18, 5, None, data[0]);
    assert!(scheduled);
    assert!(tree.scope() == Some(range(13, 18)));
    assert!(is_leaf(root(&tree), 13, 18));

    //   free:10..13
    //    /        \
    // 5..10      13..18
    let scheduled = tree.schedule_close_before(10, 5, None, data[1]);
    assert!(scheduled);
    assert!(tree.scope() == Some(range(5, 18)));
    let (left, right) = children(root(&tree), 10, 13);
    assert!(is_leaf(left, 5, 10));
    assert!(is_leaf(right, 13, 18));

    let scheduled = tree.schedule_close_before(17, 2, Some(12), data[2]);
    assert!(!scheduled);
    assert!(tree.scope() == Some(range(5, 18)));
    let (left, right) = children(root(&tree), 10, 13);
    assert!(is_leaf(left, 5, 10));
    assert!(is_leaf(right, 13, 18));

    //   free:10..11
    //    /        \
    // 5..10     free:13..13
    //             /     \
    //          11..13  13..18
    let scheduled = tree.schedule_close_before(17, 2, Some(11), data[3]);
    assert!(scheduled);
    assert!(tree.scope() == Some(range(5, 18)));
    let (left, right) = children(root(&tree), 10, 11);
    assert!(is_leaf(left, 5, 10));
    let (left, right) = children(right, 13, 13);
    assert!(is_leaf(left, 11, 13));
    assert!(is_leaf(right, 13, 18));

    let scheduled = tree.schedule_close_before(19, 2, Some(4), data[4]);
    assert!(!scheduled);

    //     free:5..5
    //     /       \
    //  3..5    free:10..11
    //           /        \
    //        5..10     free:13..13
    //                    /     \
    //                 11..13  13..18
    let scheduled = tree.schedule_close_before(19, 2, Some(3), data[5]);
    assert!(scheduled);
    assert!(tree.scope() == Some(range(3, 18)));
    let (left, right) = children(root(&tree), 5, 5);
    assert!(is_leaf(left, 3, 5));
    let (left, right) = children(right, 10, 11);
    assert!(is_leaf(left, 5, 10));
    let (left, right) = children(right, 13, 13);
    assert!(is_leaf(left, 11, 13));
    assert!(is_leaf(right, 13, 18));

    //           free:18..30
    //          /           \
    //     free:5..5       25..30
    //     /       \
    //  3..5    free:10..11
    //           /        \
    //        5..10     free:13..13
    //                    /     \
    //                 11..13  13..18
    let scheduled = tree.schedule_close_before(30, 5, Some(19), data[6]);
    assert!(scheduled);
    assert!(tree.scope() == Some(range(3, 30)));

    //                free:18..21
    //              /             \
    //     free:5..5               free:24..25
    //     /       \                /        \
    //  3..5    free:10..11      21..24     25..30
    //           /        \
    //        5..10     free:13..13
    //                    /     \
    //                 11..13  13..18
    let scheduled = tree.schedule_close_before(24, 3, None, data[7]);
    assert!(scheduled);
    assert!(tree.scope() == Some(range(3, 30)));

    let (before, after) = children(root(&tree), 18, 21);
    let (left, right) = children(before, 5, 5);
    assert!(is_leaf(left, 3, 5));
    let (left, right) = children(right, 10, 11);
    assert!(is_leaf(left, 5, 10));
    let (left, right) = children(right, 13, 13);
    assert!(is_leaf(left, 11, 13));
    assert!(is_leaf(right, 13, 18));
    let (left, right) = children(after, 24, 25);
    assert!(is_leaf(left, 21, 24));
    assert!(is_leaf(right, 25, 30));
}

#[test]
fn test_schedule_close_after() {
    let data = generate_data(10);

    let mut tree = ScheduleTree::new();

    // 13..18
    let scheduled = tree.schedule_close_after(13, 5, None, data[0]);
    assert!(scheduled);
    assert!(tree.scope() == Some(range(13, 18)));
    assert!(is_leaf(root(&tree), 13, 18));

    //   free:10..13
    //    /        \
    // 5..10      13..18
    let scheduled = tree.schedule_close_after(5, 5, Some(10), data[1]);
    assert!(scheduled);
    assert!(tree.scope() == Some(range(5, 18)));
    let (left, right) = children(root(&tree), 10, 13);
    assert!(is_leaf(left, 5, 10));
    assert!(is_leaf(right, 13, 18));

    let scheduled = tree.schedule_close_after(4, 2, Some(11), data[2]);
    assert!(!scheduled);
    assert!(tree.scope() == Some(range(5, 18)));
    let (left, right) = children(root(&tree), 10, 13);
    assert!(is_leaf(left, 5, 10));
    assert!(is_leaf(right, 13, 18));

    //   free:10..10
    //    /        \
    // 5..10     free:13..13
    //             /     \
    //          10..13  13..18
    let scheduled = tree.schedule_close_after(4, 3, Some(13), data[3]);
    assert!(scheduled);
    assert!(tree.scope() == Some(range(5, 18)));
    let (left, right) = children(root(&tree), 10, 10);
    assert!(is_leaf(left, 5, 10));
    let (left, right) = children(right, 13, 13);
    assert!(is_leaf(left, 10, 13));
    assert!(is_leaf(right, 13, 18));

    let scheduled = tree.schedule_close_after(4, 2, Some(19), data[4]);
    assert!(!scheduled);

    //         free:18..18
    //         /          \
    //   free:10..10     18..20
    //    /        \
    // 5..10     free:13..13
    //             /     \
    //          10..13  13..18
    let scheduled = tree.schedule_close_after(4, 2, Some(20), data[5]);
    assert!(scheduled);
    assert!(tree.scope() == Some(range(5, 20)));
    let (before, after) = children(root(&tree), 18, 18);
    let (left, right) = children(before, 10, 10);
    assert!(is_leaf(left, 5, 10));
    let (left, right) = children(right, 13, 13);
    assert!(is_leaf(left, 10, 13));
    assert!(is_leaf(right, 13, 18));
    assert!(is_leaf(after, 18, 20));

    //                free:20..25
    //              /             \
    //         free:18..18       25..30
    //         /          \
    //   free:10..10     18..20
    //    /        \
    // 5..10     free:13..13
    //             /     \
    //          10..13  13..18
    let scheduled = tree.schedule_close_after(25, 5, None, data[6]);
    assert!(scheduled);
    assert!(tree.scope() == Some(range(5, 30)));

    //                      free:20..21
    //                    /             \
    //         free:18..18               free:23..25
    //         /          \              /         \
    //   free:10..10     18..20      21..23       25..30
    //    /        \
    // 5..10     free:13..13
    //             /     \
    //          10..13  13..18
    let scheduled = tree.schedule_close_after(21, 2, None, data[7]);
    assert!(scheduled);
    assert!(tree.scope() == Some(range(5, 30)));
    let (before, after) = children(root(&tree), 20, 21);
    let (inner, right) = children(before, 18, 18);
    assert!(is_leaf(right, 18, 20));
    let (left, right) = children(inner, 10, 10);
    assert!(is_leaf(left, 5, 10));
    let (left, right) = children(right, 13, 13);
    assert!(is_leaf(left, 10, 13));
    assert!(is_leaf(right, 13, 18));
    let (left, right) = children(after, 23, 25);
    assert!(is_leaf(left, 21, 23));
    assert!(is_leaf(right, 25, 30));
}

#[test]
fn test_unschedule() {
    let data = generate_data(10);

    let mut tree = ScheduleTree::new();

    // 5..9
    // =>
    // <empty>
    tree.schedule_exact(5, 4, data[0]);
    let entry = tree.unschedule(&data[0]);
    assert!(spans(entry, 5, 9));
    assert!(tree.root().is_none());
    assert!(tree.scope().is_none());
    assert!(tree.scheduled_tasks() == 0);

    //   free:9..13
    //    /        \
    // 5..9       13..18
    // =>
    // 5..9
    tree.schedule_exact(5, 4, data[0]);
    tree.schedule_exact(13, 5, data[1]);
    let entry = tree.unschedule(&data[1]);
    assert!(spans(entry, 13, 18));
    assert_eq!(tree.scope(), Some(range(5, 9)));
    assert!(is_leaf(root(&tree), 5, 9));

    //   free:9..13
    //    /        \
    // 5..9       13..18
    // =>
    // 13..18
    tree.schedule_exact(5, 4, data[0]);
    tree.schedule_exact(13, 5, data[1]);
    let entry = tree.unschedule(&data[0]);
    assert!(spans(entry, 5, 9));
    assert_eq!(tree.scope(), Some(range(13, 18)));
    assert!(is_leaf(root(&tree), 13, 18));

    // 13..18
    // =>
    //   free:9..10
    //    /        \
    // 5..9      free:12..13
    //             /     \
    //          10..12  13..18
    // =>
    // free:12..13
    //    /     \
    // 10..12  13..18
    // =>
    // 13..18
    tree.schedule_close_before(9, 4, None, data[0]);
    tree.schedule_close_after(10, 2, None, data[2]);

    let entry = tree.unschedule(&data[0]);
    assert!(spans(entry, 5, 9));
    assert_eq!(tree.scope(), Some(range(10, 18)));
    let (left, right) = children(root(&tree), 12, 13);
    assert!(is_leaf(left, 10, 12));
    assert!(is_leaf(right, 13, 18));

    let entry = tree.unschedule(&data[2]);
    assert!(spans(entry, 10, 12));
    assert_eq!(tree.scope(), Some(range(13, 18)));
    assert!(is_leaf(root(&tree), 13, 18));

    // 13..18
    // =>
    //   free:9..10
    //    /        \
    // 5..9      free:12..13
    //             /     \
    //          10..12  13..18
    // =>
    //   free:9..13
    //    /     \
    // 5..9    13..18
    // =>
    // 13..18
    // =>
    // <empty>
    assert_eq!(tree.scope(), Some(range(13, 18)));
    tree.schedule_close_after(10, 2, None, data[0]);
    assert_eq!(tree.scope(), Some(range(10, 18)));
    tree.schedule_close_before(9, 4, None, data[2]);
    assert_eq!(tree.scope(), Some(range(5, 18)));

    let entry = tree.unschedule(&data[0]);
    assert!(spans(entry, 10, 12));
    assert_eq!(tree.scope(), Some(range(5, 18)));
    let (left, right) = children(root(&tree), 9, 13);
    assert!(is_leaf(left, 5, 9));
    assert!(is_leaf(right, 13, 18));

    let entry = tree.unschedule(&data[2]);
    assert!(spans(entry, 5, 9));
    assert_eq!(tree.scope(), Some(range(13, 18)));
    assert!(is_leaf(root(&tree), 13, 18));

    let entry = tree.unschedule(&data[1]);
    assert!(spans(entry, 13, 18));
    assert!(tree.root().is_none());
    assert!(tree.scope().is_none());
    assert!(tree.scheduled_tasks() == 0);
}
