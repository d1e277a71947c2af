//! The schedule tree: a binary tree of occupied spans and of the idle spans
//! between them, with an index from each task to the start of its leaf.

use crate::fits::{
    earliest_fit, fits_after, fits_before, is_earliest_fit, is_latest_fit, latest_fit,
    lemma_earliest_fit, lemma_fits_outside, lemma_latest_fit,
};
use crate::item::Item;
use crate::node::Node;
use crate::scheduling::Task;
use crate::spans::{
    clear, index_with, index_without, indexed, inside, lemma_clear_outside, lemma_indexed_insert,
    lemma_indexed_remove, lemma_insert_outside, lemma_ordered_bounds, lemma_rank_bounds, ordered,
    rank, Entry, TimeRange,
};
use std::collections::HashMap;
use vstd::prelude::*;

verus! {

broadcast use vstd::std_specs::hash::group_hash_axioms;

/// The occupied spans of one schedule, kept as a binary tree, with the span
/// that they cover and an index from each task to the start of its leaf.
#[derive(Debug)]
pub struct ScheduleTree {
    root: Option<Node>,
    scope: Option<TimeRange>,
    data_map: HashMap<u64, i64>,
}

impl ScheduleTree {
    /// The tree itself.
    pub closed spec fn spec_root(&self) -> Option<Node> {
        self.root
    }

    /// The span from the first leaf to the last.
    pub closed spec fn spec_scope(&self) -> Option<TimeRange> {
        self.scope
    }

    /// The start of each task that has a leaf.
    pub closed spec fn index(&self) -> Map<u64, i64> {
        self.data_map@
    }

    /// The leaves in the order of the clock.
    pub open spec fn entries(&self) -> Seq<Entry> {
        match self.spec_root() {
            Some(root) => root.leaves(),
            None => Seq::empty(),
        }
    }

    /// The tree is well-formed and the scope is the span that its leaves cover.
    pub open spec fn shaped(&self) -> bool {
        match self.spec_root() {
            Some(root) => root.wf() && self.spec_scope() == Some(
                TimeRange { start: root.first_start(), end: root.last_end() },
            ),
            None => self.spec_scope() is None,
        }
    }

    /// The tree is shaped and the index names exactly the leaves that hold a task.
    pub open spec fn wf(&self) -> bool {
        self.shaped() && indexed(self.entries(), self.index())
    }

    /// Both trees have the same nodes, scope and index.
    pub open spec fn same_as(&self, other: &ScheduleTree) -> bool {
        &&& self.spec_root() == other.spec_root()
        &&& self.spec_scope() == other.spec_scope()
        &&& self.index() == other.index()
    }

    /// `data` is a task that has a leaf.
    pub open spec fn is_scheduled(&self, data: Item) -> bool {
        data matches Item::Task(key) && self.index().contains_key(key)
    }

    /// The tree with a leaf over `[start, end)`: the leaf alone where the
    /// tree is empty; beside the tree, under a new root with the gap
    /// between the two, where the leaf lies before or after all others; and
    /// else within the tree, in the gap that holds the span.
    pub open spec fn grown(root: Option<Node>, start: i64, end: i64, data: Item) -> Node {
        let leaf = Node::Leaf { start, end, data };
        match root {
            None => leaf,
            Some(root) => {
                if end <= root.first_start() {
                    Node::spec_join(TimeRange { start: end, end: root.first_start() }, leaf, root)
                } else if root.last_end() <= start {
                    Node::spec_join(TimeRange { start: root.last_end(), end: start }, root, leaf)
                } else {
                    root.with_leaf(start, end, data)
                }
            },
        }
    }

    /// The tree without the leaf that begins at `start`.
    pub open spec fn shrunk(root: Option<Node>, start: i64) -> Option<Node> {
        match root {
            None => None,
            Some(Node::Leaf { .. }) => None,
            Some(root) => Some(root.without(start)),
        }
    }

    /// `data` is a task whose leaf begins at `start`.
    pub open spec fn scheduled_from(&self, data: Item, start: i64) -> bool {
        data matches Item::Task(key) && self.index().contains_key(key) && self.index()[key]
            == start
    }

    /// `after` is this tree with the leaf `e` added.
    pub open spec fn with_entry(&self, after: &ScheduleTree, e: Entry) -> bool {
        &&& after.spec_root() == Some(
            ScheduleTree::grown(self.spec_root(), e.start, e.end, e.data),
        )
        &&& after.entries() == self.entries().insert(rank(self.entries(), e.start as int), e)
        &&& after.index() == index_with(self.index(), e)
    }

    /// The leaves of a shaped tree are ordered, and its scope runs from the
    /// first of them to the last.
    pub proof fn lemma_entries(&self)
        requires
            self.shaped(),
        ensures
            ordered(self.entries()),
            self.spec_root() is Some <==> self.entries().len() > 0,
            self.spec_scope() is Some <==> self.entries().len() > 0,
            self.spec_scope() matches Some(scope) ==> scope.start == self.entries().first().start
                && scope.end == self.entries().last().end && scope.start < scope.end,
    {
        if let Some(root) = self.spec_root() {
            root.lemma_leaves();
        }
    }

    /// Returns an empty schedule tree.
    pub fn new() -> (tree: Self)
        ensures
            tree.wf(),
            tree.entries() == Seq::<Entry>::empty(),
            tree.index() == Map::<u64, i64>::empty(),
            tree.spec_root() is None,
            tree.spec_scope() is None,
    {
        ScheduleTree { root: None, scope: None, data_map: HashMap::new() }
    }

    /// Whether the tree has no leaf.
    pub fn is_empty(&self) -> (empty: bool)
        ensures
            empty == (self.spec_root() is None),
            self.shaped() ==> empty == (self.entries().len() == 0),
    {
        proof {
            if self.shaped() {
                self.lemma_entries();
            }
        }
        self.root.is_none()
    }

    /// The number of tasks that have a leaf.
    pub fn scheduled_tasks(&self) -> (count: usize)
        ensures
            count == self.index().len(),
    {
        self.data_map.len()
    }

    /// The root of the tree.
    pub fn root(&self) -> (root: Option<&Node>)
        ensures
            match root {
                Some(node) => self.spec_root() == Some(*node),
                None => self.spec_root() is None,
            },
    {
        self.root.as_ref()
    }

    /// The span from the start of the first leaf to the end of the last one.
    pub fn scope(&self) -> (scope: Option<TimeRange>)
        ensures
            scope == self.spec_scope(),
    {
        self.scope
    }

    /// Tries to schedule `data` at the exact `start` with the given `duration`.
    ///
    /// Returns whether the scheduling succeeded: whether the span is not
    /// empty, ends within the range of the clock and meets no leaf.
    pub fn schedule_exact(&mut self, start: i64, duration: i64, data: Item) -> (scheduled: bool)
        requires
            old(self).wf(),
            !old(self).is_scheduled(data),
        ensures
            final(self).wf(),
            scheduled <==> duration > 0 && start + duration <= i64::MAX && clear(
                old(self).entries(),
                start as int,
                start + duration,
            ),
            scheduled ==> old(self).with_entry(
                final(self),
                Entry { start, end: (start + duration) as i64, data },
            ),
            !scheduled ==> final(self).same_as(old(self)),
    {
        proof {
            old(self).lemma_entries();
        }
        match self.schedule_exact_(start, duration, data) {
            Some(start) => {
                proof {
                    lemma_indexed_insert(
                        old(self).entries(),
                        old(self).index(),
                        Entry { start, end: (start + duration) as i64, data },
                    );
                }
                self.update_map(start, data);
                true
            },
            None => false,
        }
    }

    /// See `schedule_exact` for details.
    ///
    /// Returns the start of the scheduling if it succeeded, otherwise None
    fn schedule_exact_(&mut self, start: i64, duration: i64, data: Item) -> (placed: Option<i64>)
        requires
            old(self).shaped(),
        ensures
            final(self).index() == old(self).index(),
            placed.is_some() <==> duration > 0 && start + duration <= i64::MAX && clear(
                old(self).entries(),
                start as int,
                start + duration,
            ),
            placed matches Some(s) ==> {
                &&& s == start
                &&& final(self).shaped()
                &&& final(self).spec_root() == Some(
                    ScheduleTree::grown(
                        old(self).spec_root(),
                        start,
                        (start + duration) as i64,
                        data,
                    ),
                )
                &&& final(self).entries() == old(self).entries().insert(
                    rank(old(self).entries(), start as int),
                    Entry { start, end: (start + duration) as i64, data },
                )
            },
            placed is None ==> final(self).same_as(old(self)),
    {
        if duration <= 0 || start as i128 + duration as i128 > i64::MAX as i128 {
            return None;
        }
        let end = start + duration;
        proof {
            old(self).lemma_entries();
            if !inside(old(self).entries(), start as int, end as int) {
                lemma_clear_outside(old(self).entries(), start as int, end as int);
            }
        }
        if let Some(start) = self.try_schedule_trivial_cases(start, end, data) {
            return Some(start);
        }
        match &mut self.root {
            Some(root) => root.insert(start, end, data),
            None => None,
        }
    }

    /// Tries to schedule `data` as close as possible before `end` with the given `duration`. It
    /// must be scheduled after `min_start` when given.
    ///
    /// Returns whether the scheduling succeeded: whether a span of that
    /// length fits anywhere before `end`. It is then placed at the latest fit.
    pub fn schedule_close_before(
        &mut self,
        end: i64,
        duration: i64,
        min_start: Option<i64>,
        data: Item,
    ) -> (scheduled: bool)
        requires
            old(self).wf(),
            !old(self).is_scheduled(data),
            min_start matches Some(m) ==> m + duration <= end,
        ensures
            final(self).wf(),
            scheduled <==> duration > 0 && latest_fit(
                old(self).entries(),
                duration as int,
                end as int,
                min_start,
            ) is Some,
            scheduled ==> {
                let start = latest_fit(
                    old(self).entries(),
                    duration as int,
                    end as int,
                    min_start,
                ).unwrap();
                &&& is_latest_fit(
                    old(self).entries(),
                    start,
                    duration as int,
                    end as int,
                    min_start,
                )
                &&& old(self).with_entry(
                    final(self),
                    Entry { start: start as i64, end: (start + duration) as i64, data },
                )
            },
            !scheduled ==> final(self).same_as(old(self)),
    {
        proof {
            old(self).lemma_entries();
        }
        match self.schedule_close_before_(end, duration, min_start, data) {
            Some(start) => {
                proof {
                    lemma_latest_fit(
                        old(self).entries(),
                        start as int,
                        duration as int,
                        end as int,
                        min_start,
                    );
                    lemma_indexed_insert(
                        old(self).entries(),
                        old(self).index(),
                        Entry { start, end: (start + duration) as i64, data },
                    );
                }
                self.update_map(start, data);
                true
            },
            None => false,
        }
    }

    /// See `schedule_close_before` for details.
    ///
    /// Returns the start of the scheduling if it succeeded, otherwise None
    #[verifier::rlimit(40)]
    fn schedule_close_before_(
        &mut self,
        end: i64,
        duration: i64,
        min_start: Option<i64>,
        data: Item,
    ) -> (placed: Option<i64>)
        requires
            old(self).shaped(),
            min_start matches Some(m) ==> m + duration <= end,
        ensures
            final(self).index() == old(self).index(),
            placed matches Some(s) ==> {
                &&& duration > 0
                &&& is_latest_fit(
                    old(self).entries(),
                    s as int,
                    duration as int,
                    end as int,
                    min_start,
                )
                &&& final(self).shaped()
                &&& final(self).spec_root() == Some(
                    ScheduleTree::grown(old(self).spec_root(), s, (s + duration) as i64, data),
                )
                &&& final(self).entries() == old(self).entries().insert(
                    rank(old(self).entries(), s as int),
                    Entry { start: s, end: (s + duration) as i64, data },
                )
            },
            placed is None ==> {
                &&& final(self).same_as(old(self))
                &&& duration <= 0 || latest_fit(
                    old(self).entries(),
                    duration as int,
                    end as int,
                    min_start,
                ) is None
            },
    {
        if duration <= 0 || (end as i128 - duration as i128) < i64::MIN as i128 {
            return None;
        }
        let ghost before = old(self).entries();
        let optimal_start = end - duration;
        proof {
            old(self).lemma_entries();
            if !inside(before, optimal_start as int, end as int) {
                lemma_clear_outside(before, optimal_start as int, end as int);
            }
        }
        if let Some(start) = self.try_schedule_trivial_cases(optimal_start, end, data) {
            return Some(start);
        }
        let placed = match &mut self.root {
            Some(root) => root.insert_before(end, duration, min_start, data),
            None => None,
        };
        if let Some(start) = placed {
            proof {
                assert forall|other: int| #[trigger]
                    fits_before(
                        before,
                        other,
                        duration as int,
                        end as int,
                        min_start,
                    ) implies other <= start by {
                    if !inside(before, other, other + duration) {
                        lemma_fits_outside(before, other, other + duration);
                        lemma_ordered_bounds(before, 0);
                        assert(before[0].end <= start || start + duration <= before[0].start);
                    }
                }
            }
            return placed;
        }
        // As last resort, try to schedule before current scope if min_start allows
        match self.scope {
            Some(scope) => {
                let late_enough = match min_start {
                    Some(min_start) => min_start as i128 + duration as i128 <= scope.start as i128,
                    None => scope.start as i128 - duration as i128 >= i64::MIN as i128,
                };
                proof {
                    assert forall|other: int| #[trigger]
                        fits_before(
                            before,
                            other,
                            duration as int,
                            end as int,
                            min_start,
                        ) implies other + duration <= scope.start by {
                        lemma_fits_outside(before, other, other + duration);
                    }
                }
                if late_enough {
                    // Schedule on [scope.start - duration, scope.start]
                    let start = scope.start - duration;
                    let new_node = Node::Leaf { start, end: scope.start, data };
                    let ghost entry = Entry { start, end: scope.start, data };
                    proof {
                        lemma_clear_outside(before, start as int, scope.start as int);
                        lemma_insert_outside(before, entry);
                        assert(new_node.leaves() == seq![entry]);
                        assert(new_node.wf());
                        assert(new_node.first_start() == start);
                        assert(new_node.last_end() == scope.start);
                    }
                    match self.root.take() {
                        Some(root) => {
                            self.root = Some(
                                Node::join(
                                    TimeRange { start: scope.start, end: scope.start },
                                    new_node,
                                    root,
                                ),
                            );
                            self.scope = Some(TimeRange { start, end: scope.end });
                            Some(start)
                        },
                        None => None,
                    }
                } else {
                    None
                }
            },
            None => None,
        }
    }

    /// Tries to schedule `data` as close as possible after `start` with the given `duration`. It
    /// must be scheduled before `max_end` when given.
    ///
    /// Returns whether the scheduling succeeded: whether a span of that
    /// length fits anywhere after `start`. It is then placed at the earliest fit.
    pub fn schedule_close_after(
        &mut self,
        start: i64,
        duration: i64,
        max_end: Option<i64>,
        data: Item,
    ) -> (scheduled: bool)
        requires
            old(self).wf(),
            !old(self).is_scheduled(data),
            max_end matches Some(m) ==> start + duration <= m,
        ensures
            final(self).wf(),
            scheduled <==> duration > 0 && earliest_fit(
                old(self).entries(),
                duration as int,
                start as int,
                max_end,
            ) is Some,
            scheduled ==> {
                let at = earliest_fit(
                    old(self).entries(),
                    duration as int,
                    start as int,
                    max_end,
                ).unwrap();
                &&& is_earliest_fit(
                    old(self).entries(),
                    at,
                    duration as int,
                    start as int,
                    max_end,
                )
                &&& old(self).with_entry(
                    final(self),
                    Entry { start: at as i64, end: (at + duration) as i64, data },
                )
            },
            !scheduled ==> final(self).same_as(old(self)),
    {
        proof {
            old(self).lemma_entries();
        }
        match self.schedule_close_after_(start, duration, max_end, data) {
            Some(at) => {
                proof {
                    lemma_earliest_fit(
                        old(self).entries(),
                        at as int,
                        duration as int,
                        start as int,
                        max_end,
                    );
                    lemma_indexed_insert(
                        old(self).entries(),
                        old(self).index(),
                        Entry { start: at, end: (at + duration) as i64, data },
                    );
                }
                self.update_map(at, data);
                true
            },
            None => false,
        }
    }

    /// See `schedule_close_after` for details.
    ///
    /// Returns the start of the scheduling if it succeeded, otherwise None
    #[verifier::rlimit(40)]
    fn schedule_close_after_(
        &mut self,
        start: i64,
        duration: i64,
        max_end: Option<i64>,
        data: Item,
    ) -> (placed: Option<i64>)
        requires
            old(self).shaped(),
            max_end matches Some(m) ==> start + duration <= m,
        ensures
            final(self).index() == old(self).index(),
            placed matches Some(at) ==> {
                &&& duration > 0
                &&& is_earliest_fit(
                    old(self).entries(),
                    at as int,
                    duration as int,
                    start as int,
                    max_end,
                )
                &&& final(self).shaped()
                &&& final(self).spec_root() == Some(
                    ScheduleTree::grown(old(self).spec_root(), at, (at + duration) as i64, data),
                )
                &&& final(self).entries() == old(self).entries().insert(
                    rank(old(self).entries(), at as int),
                    Entry { start: at, end: (at + duration) as i64, data },
                )
            },
            placed is None ==> {
                &&& final(self).same_as(old(self))
                &&& duration <= 0 || earliest_fit(
                    old(self).entries(),
                    duration as int,
                    start as int,
                    max_end,
                ) is None
            },
    {
        if duration <= 0 || start as i128 + duration as i128 > i64::MAX as i128 {
            return None;
        }
        let ghost before = old(self).entries();
        let optimal_end = start + duration;
        proof {
            old(self).lemma_entries();
            if !inside(before, start as int, optimal_end as int) {
                lemma_clear_outside(before, start as int, optimal_end as int);
            }
        }
        if let Some(at) = self.try_schedule_trivial_cases(start, optimal_end, data) {
            return Some(at);
        }
        let placed = match &mut self.root {
            Some(root) => root.insert_after(start, duration, max_end, data),
            None => None,
        };
        if let Some(at) = placed {
            proof {
                assert forall|other: int| #[trigger]
                    fits_after(
                        before,
                        other,
                        duration as int,
                        start as int,
                        max_end,
                    ) implies at <= other by {
                    if !inside(before, other, other + duration) {
                        lemma_fits_outside(before, other, other + duration);
                        lemma_ordered_bounds(before, before.len() - 1);
                        assert(before[before.len() - 1].end <= at || at + duration
                            <= before[before.len() - 1].start);
                    }
                }
            }
            return placed;
        }
        // As last resort, try to schedule after current scope if max_end allows
        match self.scope {
            Some(scope) => {
                let early_enough = match max_end {
                    Some(max_end) => scope.end as i128 + duration as i128 <= max_end as i128,
                    None => scope.end as i128 + duration as i128 <= i64::MAX as i128,
                };
                proof {
                    assert forall|other: int| #[trigger]
                        fits_after(
                            before,
                            other,
                            duration as int,
                            start as int,
                            max_end,
                        ) implies scope.end <= other by {
                        lemma_fits_outside(before, other, other + duration);
                    }
                }
                if early_enough {
                    // Schedule on [scope.end, scope.end + duration]
                    let end = scope.end + duration;
                    let new_node = Node::Leaf { start: scope.end, end, data };
                    let ghost entry = Entry { start: scope.end, end, data };
                    proof {
                        lemma_clear_outside(before, scope.end as int, end as int);
                        lemma_insert_outside(before, entry);
                        assert(new_node.leaves() == seq![entry]);
                        assert(new_node.wf());
                        assert(new_node.first_start() == scope.end);
                        assert(new_node.last_end() == end);
                    }
                    match self.root.take() {
                        Some(root) => {
                            self.root = Some(
                                Node::join(
                                    TimeRange { start: scope.end, end: scope.end },
                                    root,
                                    new_node,
                                ),
                            );
                            self.scope = Some(TimeRange { start: scope.start, end });
                            Some(scope.end)
                        },
                        None => None,
                    }
                } else {
                    None
                }
            },
            None => None,
        }
    }

    /// Common scheduling cases between all scheduling strategies. It handles the cases where
    /// (a) the schedule tree is empty;
    /// (b) the most optimal start and end fall completely before the left-most child in the tree
    /// (c) the most optimal start and end fall completely after the right-most child in the tree
    ///
    /// Returns the start of the scheduling if it succeeded, otherwise None
    fn try_schedule_trivial_cases(&mut self, start: i64, end: i64, data: Item) -> (placed: Option<
        i64,
    >)
        requires
            old(self).shaped(),
            start < end,
        ensures
            final(self).index() == old(self).index(),
            placed.is_some() <==> !inside(old(self).entries(), start as int, end as int),
            placed matches Some(s) ==> {
                &&& s == start
                &&& final(self).shaped()
                &&& final(self).spec_root() == Some(
                    ScheduleTree::grown(old(self).spec_root(), start, end, data),
                )
                &&& final(self).entries() == old(self).entries().insert(
                    rank(old(self).entries(), start as int),
                    Entry { start, end, data },
                )
            },
            placed is None ==> final(self).same_as(old(self)),
    {
        let new_node = Node::Leaf { start, end, data };
        let ghost entry = Entry { start, end, data };
        let ghost before = old(self).entries();
        proof {
            old(self).lemma_entries();
            assert(new_node.leaves() == seq![entry]);
            assert(new_node.wf());
            assert(new_node.first_start() == start);
            assert(new_node.last_end() == end);
        }
        match (self.root.take(), self.scope.take()) {
            (None, None) => {
                proof {
                    assert(before.insert(0, entry) =~= seq![entry]);
                }
                self.root = Some(new_node);
                self.scope = Some(TimeRange { start, end });
                Some(start)
            },
            (Some(root), Some(scope)) => {
                if end <= scope.start {
                    proof {
                        lemma_insert_outside(before, entry);
                    }
                    self.root = Some(
                        Node::join(TimeRange { start: end, end: scope.start }, new_node, root),
                    );
                    self.scope = Some(TimeRange { start, end: scope.end });
                    Some(start)
                } else if scope.end <= start {
                    proof {
                        lemma_insert_outside(before, entry);
                    }
                    self.root = Some(
                        Node::join(TimeRange { start: scope.end, end: start }, root, new_node),
                    );
                    self.scope = Some(TimeRange { start: scope.start, end });
                    Some(start)
                } else {
                    self.root = Some(root);
                    self.scope = Some(scope);
                    None
                }
            },
            (root, scope) => {
                self.root = root;
                self.scope = scope;
                None
            },
        }
    }

    /// Removes the given data from the schedule tree.
    ///
    /// Returns the related entry from the tree if the tree contained it, otherwise None.
    #[verifier::rlimit(40)]
    pub fn unschedule(&mut self, data: &Item) -> (removed: Option<Entry>)
        requires
            old(self).wf(),
        ensures
            final(self).wf(),
            removed is Some <==> old(self).is_scheduled(*data),
            removed matches Some(entry) ==> {
                let place = rank(old(self).entries(), entry.start as int);
                &&& entry.data == *data
                &&& old(self).scheduled_from(*data, entry.start)
                &&& 0 <= place < old(self).entries().len()
                &&& old(self).entries()[place] == entry
                &&& final(self).spec_root() == ScheduleTree::shrunk(
                    old(self).spec_root(),
                    entry.start,
                )
                &&& final(self).entries() == old(self).entries().remove(place)
                &&& final(self).index() == index_without(old(self).index(), entry)
            },
            removed is None ==> final(self).same_as(old(self)),
    {
        let ghost before = old(self).entries();
        proof {
            old(self).lemma_entries();
        }
        let when = self.remove_from_map(data);
        match when {
            Some(when) => {
                proof {
                    lemma_rank_bounds(before, when as int);
                    lemma_indexed_remove(before, old(self).index(), rank(before, when as int));
                }
                match self.root.take() {
                    Some(root) => {
                        match root.entry() {
                            Some(entry) => {
                                proof {
                                    assert(before.remove(0) =~= Seq::<Entry>::empty());
                                }
                                self.root = None;
                                self.scope = None;
                                Some(entry)
                            },
                            None => {
                                let mut root = root;
                                let removed = root.unschedule(when, *data);
                                self.root = Some(root);
                                match removed {
                                    Some((entry, scope)) => {
                                        self.scope = Some(scope);
                                        Some(entry)
                                    },
                                    None => None,
                                }
                            },
                        }
                    },
                    None => None,
                }
            },
            None => None,
        }
    }

    /// When `data` is scheduled, if it is.
    pub fn when_scheduled(&self, data: &Item) -> (when: Option<&i64>)
        ensures
            match when {
                Some(start) => self.scheduled_from(*data, *start),
                None => !self.is_scheduled(*data),
            },
    {
        match data {
            Item::Task(key) => self.data_map.get(key),
            Item::Nothing => None,
        }
    }

    /// Takes a task out of the index; gives the start that the index named.
    fn remove_from_map(&mut self, data: &Item) -> (when: Option<i64>)
        ensures
            final(self).spec_root() == old(self).spec_root(),
            final(self).spec_scope() == old(self).spec_scope(),
            match when {
                Some(start) => old(self).scheduled_from(*data, start) && final(self).index()
                    == index_without(old(self).index(), Entry { start, end: start, data: *data }),
                None => !old(self).is_scheduled(*data) && final(self).index() == old(self).index(),
            },
    {
        match data {
            Item::Task(key) => {
                let when = self.data_map.remove(key);
                proof {
                    if when is None {
                        assert(old(self).index().remove(*key) =~= old(self).index());
                    }
                }
                when
            },
            Item::Nothing => None,
        }
    }

    /// Names the start of a task in the index.
    fn update_map(&mut self, start: i64, data: Item)
        requires
            !old(self).is_scheduled(data),
        ensures
            final(self).spec_root() == old(self).spec_root(),
            final(self).spec_scope() == old(self).spec_scope(),
            final(self).index() == index_with(old(self).index(), Entry { start, end: start, data }),
    {
        match data {
            Item::Task(key) => {
                let _ = self.data_map.insert(key, start);
            },
            Item::Nothing => {},
        }
    }
}

/// The leaves below the nodes of a stack, from the node on top downwards.
pub open spec fn stacked(path: Seq<Node>) -> Seq<Entry>
    decreases path.len(),
{
    if path.len() == 0 {
        Seq::empty()
    } else {
        path.last().leaves() + stacked(path.drop_last())
    }
}

/// The nodes that the references of a stack lead to.
pub open spec fn referred(path: Seq<&Node>) -> Seq<Node> {
    Seq::new(path.len(), |i: int| *path[i])
}

/// A node that goes on top of the stack comes first in the walk.
proof fn lemma_stacked_push(path: Seq<Node>, node: Node)
    ensures
        stacked(path.push(node)) == node.leaves() + stacked(path),
{
    assert(path.push(node).drop_last() =~= path);
}

/// A chronological walk over the leaves of a schedule tree.
#[derive(Debug)]
pub struct Iter<'a> {
    path: Vec<&'a Node>,
}

/// A chronological walk over the leaves of a schedule tree that takes the
/// tree apart.
#[derive(Debug)]
pub struct IntoIter {
    path: Vec<Node>,
    data_map: HashMap<u64, i64>,
}

impl ScheduleTree {
    /// Returns a chronological iterator of the schedule tree.
    pub fn iter(&self) -> (iter: Iter<'_>)
        ensures
            iter.remaining() == self.entries(),
    {
        let mut path: Vec<&Node> = Vec::new();
        match &self.root {
            Some(root) => {
                path.push(root);
                proof {
                    assert(referred(path@) =~= seq![*root]);
                    lemma_stacked_push(Seq::empty(), *root);
                    assert(Seq::<Node>::empty().push(*root) =~= seq![*root]);
                }
            },
            None => {
                proof {
                    assert(referred(path@) =~= Seq::<Node>::empty());
                }
            },
        }
        Iter { path }
    }

    /// Returns a chronological iterator that takes the schedule tree apart.
    pub fn into_iter(self) -> (iter: IntoIter)
        ensures
            iter.remaining() == self.entries(),
            iter.index() == self.index(),
    {
        let mut path: Vec<Node> = Vec::new();
        let ScheduleTree { root, scope, data_map } = self;
        match root {
            Some(root) => {
                proof {
                    lemma_stacked_push(Seq::empty(), root);
                    assert(Seq::<Node>::empty().push(root) =~= path@.push(root));
                }
                path.push(root);
            },
            None => {},
        }
        IntoIter { path, data_map }
    }
}

impl<'a> Iter<'a> {
    /// The leaves that are still to come.
    pub closed spec fn remaining(&self) -> Seq<Entry> {
        stacked(referred(self.path@))
    }

    /// The next leaf in the order of the clock.
    pub fn next(&mut self) -> (entry: Option<Entry>)
        ensures
            match entry {
                Some(e) => old(self).remaining().len() > 0 && e == old(self).remaining().first()
                    && final(self).remaining() == old(self).remaining().drop_first(),
                None => old(self).remaining().len() == 0 && final(self).remaining().len() == 0,
            },
    {
        let ghost before = self.remaining();
        match self.path.pop() {
            None => None,
            Some(top) => {
                proof {
                    assert(referred(old(self).path@).drop_last() =~= referred(self.path@));
                }
                let mut current: &Node = top;
                loop
                    invariant
                        current.leaves() + stacked(referred(self.path@)) == before,
                        before == old(self).remaining(),
                    decreases current,
                {
                    match current {
                        Node::Intermediate { left, right, .. } => {
                            proof {
                                lemma_stacked_push(referred(self.path@), **right);
                                assert(referred(self.path@.push(&**right)) =~= referred(
                                    self.path@,
                                ).push(**right));
                                assert(left.leaves() + (right.leaves() + stacked(
                                    referred(self.path@),
                                )) =~= current.leaves() + stacked(referred(self.path@)));
                            }
                            self.path.push(&**right);
                            current = &**left;
                        },
                        Node::Leaf { start, end, data } => {
                            let entry = Entry { start: *start, end: *end, data: *data };
                            proof {
                                assert(current.leaves() == seq![entry]);
                                assert(before.drop_first() =~= stacked(referred(self.path@)));
                            }
                            return Some(entry);
                        },
                    }
                }
            },
        }
    }
}

impl IntoIter {
    /// The leaves that are still to come.
    pub closed spec fn remaining(&self) -> Seq<Entry> {
        stacked(self.path@)
    }

    /// The start of each task that the walk still names.
    pub closed spec fn index(&self) -> Map<u64, i64> {
        self.data_map@
    }

    /// The next leaf in the order of the clock. A task that has come no
    /// longer has a place in the index.
    pub fn next(&mut self) -> (entry: Option<Entry>)
        ensures
            match entry {
                Some(e) => {
                    &&& old(self).remaining().len() > 0
                    &&& e == old(self).remaining().first()
                    &&& final(self).remaining() == old(self).remaining().drop_first()
                    &&& final(self).index() == index_without(old(self).index(), e)
                },
                None => old(self).remaining().len() == 0 && final(self).remaining().len() == 0
                    && final(self).index() == old(self).index(),
            },
    {
        let ghost before = self.remaining();
        match self.path.pop() {
            None => None,
            Some(top) => {
                proof {
                    assert(old(self).path@.drop_last() =~= self.path@);
                }
                let mut current: Node = top;
                loop
                    invariant
                        current.leaves() + stacked(self.path@) == before,
                        before == old(self).remaining(),
                        self.data_map == old(self).data_map,
                    decreases current,
                {
                    match current {
                        Node::Intermediate { left, right, .. } => {
                            proof {
                                lemma_stacked_push(self.path@, *right);
                                assert(left.leaves() + (right.leaves() + stacked(self.path@))
                                    =~= (left.leaves() + right.leaves()) + stacked(self.path@));
                            }
                            self.path.push(*right);
                            current = *left;
                        },
                        Node::Leaf { start, end, data } => {
                            let entry = Entry { start, end, data };
                            proof {
                                assert(current.leaves() == seq![entry]);
                                assert(before.drop_first() =~= stacked(self.path@));
                            }
                            match data {
                                Item::Task(key) => {
                                    let _ = self.data_map.remove(&key);
                                },
                                Item::Nothing => {},
                            }
                            return Some(entry);
                        },
                    }
                }
            },
        }
    }
}

} // verus!
