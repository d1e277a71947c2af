//! The nodes of the schedule tree: leaves for occupied spans, intermediate
//! nodes for the idle span between two subtrees.

use crate::fits::{
    earliest_between, latest_between, lemma_after_in_gap, lemma_after_in_left, lemma_after_in_right,
    lemma_before_in_gap, lemma_before_in_left, lemma_before_in_right, none_between_after,
    none_between_before,
};
use crate::item::Item;
use crate::spans::{
    clear, inside, lemma_find_gap, lemma_find_left, lemma_find_right, lemma_ordered_bounds,
    lemma_place_between, lemma_place_left, lemma_place_nowhere, lemma_place_right,
    lemma_remove_ordered, ordered, rank, scheduled_at, Entry, TimeRange,
};
use vstd::prelude::*;

verus! {

/// A leaf is an occupied span; an intermediate node holds the idle span
/// between the last leaf of its left subtree and the first of its right one.
#[derive(Debug, PartialEq, Eq)]
pub enum Node {
    Leaf { start: i64, end: i64, data: Item },
    Intermediate { free: TimeRange, left: Box<Node>, right: Box<Node> },
}

/// `take_mut::take` hands the value behind the reference to the closure and
/// stores what the closure returns; it returns only if the closure does.
pub assume_specification<T, F>[ take_mut::take::<T, F> ](mut_ref: &mut T, closure: F) where
    F: FnOnce(T) -> T,

    requires
        closure.requires((*old(mut_ref),)),
    ensures
        closure.ensures((*old(mut_ref),), *final(mut_ref)),
;

impl Node {
    /// An intermediate node over two subtrees and the gap between them.
    pub open spec fn spec_join(free: TimeRange, left: Node, right: Node) -> Node {
        Node::Intermediate { free, left: Box::new(left), right: Box::new(right) }
    }

    /// The leaves from left to right.
    pub open spec fn leaves(self) -> Seq<Entry>
        decreases self,
    {
        match self {
            Node::Leaf { start, end, data } => seq![Entry { start, end, data }],
            Node::Intermediate { free, left, right } => left.leaves() + right.leaves(),
        }
    }

    /// Where the leftmost leaf begins.
    pub open spec fn first_start(self) -> i64
        decreases self,
    {
        match self {
            Node::Leaf { start, end, data } => start,
            Node::Intermediate { free, left, right } => left.first_start(),
        }
    }

    /// Where the rightmost leaf ends.
    pub open spec fn last_end(self) -> i64
        decreases self,
    {
        match self {
            Node::Leaf { start, end, data } => end,
            Node::Intermediate { free, left, right } => right.last_end(),
        }
    }

    /// Leaves are non-empty spans, and the free span of an intermediate node
    /// is exactly the gap between its two subtrees.
    pub open spec fn wf(self) -> bool
        decreases self,
    {
        match self {
            Node::Leaf { start, end, data } => start < end,
            Node::Intermediate { free, left, right } => {
                &&& left.wf()
                &&& right.wf()
                &&& free.start == left.last_end()
                &&& free.end == right.first_start()
                &&& free.start <= free.end
            },
        }
    }

    /// The tree with a leaf over `[start, end)` put into the gap that holds
    /// that span: the leaf goes in front of what stands to the right of
    /// the gap, under a new intermediate node with what is left of the gap
    /// behind the leaf, and the gap shrinks to what is left of it before
    /// the leaf. A tree without such a gap stays as it is.
    pub open spec fn with_leaf(self, start: i64, end: i64, data: Item) -> Node
        decreases self,
    {
        match self {
            Node::Leaf { .. } => self,
            Node::Intermediate { free, left, right } => {
                if end <= free.start {
                    Node::Intermediate {
                        free,
                        left: Box::new(left.with_leaf(start, end, data)),
                        right,
                    }
                } else if free.end <= start {
                    Node::Intermediate {
                        free,
                        left,
                        right: Box::new(right.with_leaf(start, end, data)),
                    }
                } else if free.start <= start && end <= free.end {
                    Node::Intermediate {
                        free: TimeRange { start: free.start, end: start },
                        left,
                        right: Box::new(
                            Node::spec_join(
                                TimeRange { start: end, end: free.end },
                                Node::Leaf { start, end, data },
                                *right,
                            ),
                        ),
                    }
                } else {
                    self
                }
            },
        }
    }

    /// The tree without the leaf that begins at `start`: the sibling of
    /// the leaf takes the place of their parent, and on the way up each gap
    /// beside the subtree that held the leaf grows to reach what is left
    /// of that subtree.
    pub open spec fn without(self, start: i64) -> Node
        decreases self,
    {
        match self {
            Node::Leaf { .. } => self,
            Node::Intermediate { free, left, right } => {
                if start < free.start {
                    match *left {
                        Node::Leaf { .. } => *right,
                        Node::Intermediate { .. } => {
                            let rest = left.without(start);
                            Node::Intermediate {
                                free: TimeRange { start: rest.last_end(), end: free.end },
                                left: Box::new(rest),
                                right,
                            }
                        },
                    }
                } else if free.end <= start {
                    match *right {
                        Node::Leaf { .. } => *left,
                        Node::Intermediate { .. } => {
                            let rest = right.without(start);
                            Node::Intermediate {
                                free: TimeRange { start: free.start, end: rest.first_start() },
                                left,
                                right: Box::new(rest),
                            }
                        },
                    }
                } else {
                    self
                }
            },
        }
    }

    /// The leaves of a well-formed tree are ordered, and the tree's span runs
    /// from the first of them to the last.
    pub proof fn lemma_leaves(self)
        requires
            self.wf(),
        ensures
            self.leaves().len() > 0,
            self is Intermediate ==> self.leaves().len() >= 2,
            self.leaves().first().start == self.first_start(),
            self.leaves().last().end == self.last_end(),
            ordered(self.leaves()),
            self.first_start() < self.last_end(),
        decreases self,
    {
        match self {
            Node::Leaf { start, end, data } => {},
            Node::Intermediate { free, left, right } => {
                left.lemma_leaves();
                right.lemma_leaves();
                let l = left.leaves();
                let r = right.leaves();
                let all = self.leaves();
                assert(all == l + r);
                assert forall|i: int| 0 <= i < all.len() implies (#[trigger] all[i]).start
                    < all[i].end by {
                    if i < l.len() {
                        assert(all[i] == l[i]);
                    } else {
                        assert(all[i] == r[i - l.len()]);
                    }
                }
                assert forall|i: int, j: int| 0 <= i < j < all.len() implies (
                #[trigger] all[i]).end <= (#[trigger] all[j]).start by {
                    if j < l.len() {
                        assert(all[i] == l[i]);
                        assert(all[j] == l[j]);
                    } else if i >= l.len() {
                        assert(all[i] == r[i - l.len()]);
                        assert(all[j] == r[j - l.len()]);
                    } else {
                        assert(all[i] == l[i]);
                        assert(all[j] == r[j - l.len()]);
                    }
                }
            },
        }
    }

    /// An intermediate node over two subtrees and the gap between them.
    pub fn join(free: TimeRange, left: Node, right: Node) -> (node: Node)
        ensures
            node == Node::spec_join(free, left, right),
    {
        Node::Intermediate { free, left: Box::new(left), right: Box::new(right) }
    }

    /// Calculates the span that the leaves of this node cover.
    pub fn find_scope(&self) -> (scope: TimeRange)
        ensures
            scope.start == self.first_start(),
            scope.end == self.last_end(),
        decreases self,
    {
        match self {
            Node::Leaf { start, end, .. } => TimeRange { start: *start, end: *end },
            Node::Intermediate { left, right, .. } => {
                let start = left.find_scope().start;
                let end = right.find_scope().end;
                TimeRange { start, end }
            },
        }
    }
}

impl Node {
    /// Tries to insert a leaf over exactly `[start, end)` below this node.
    ///
    /// Returns the start of the new leaf, or `None` where the span does not
    /// lie within one gap between the leaves.
    pub fn insert(&mut self, start: i64, end: i64, data: Item) -> (placed: Option<i64>)
        requires
            old(self).wf(),
            start < end,
        ensures
            placed.is_some() <==> clear(old(self).leaves(), start as int, end as int) && inside(
                old(self).leaves(),
                start as int,
                end as int,
            ),
            placed matches Some(s) ==> {
                &&& s == start
                &&& *final(self) == old(self).with_leaf(start, end, data)
                &&& final(self).wf()
                &&& final(self).leaves() == old(self).leaves().insert(
                    rank(old(self).leaves(), start as int),
                    Entry { start, end, data },
                )
                &&& final(self).first_start() == old(self).first_start()
                &&& final(self).last_end() == old(self).last_end()
            },
            placed is None ==> *final(self) == *old(self),
        decreases *old(self),
    {
        match self {
            Node::Leaf { .. } => None,
            Node::Intermediate { left, right, free } => {
                let ghost l = left.leaves();
                let ghost r = right.leaves();
                let ghost entry = Entry { start, end, data };
                proof {
                    left.lemma_leaves();
                    right.lemma_leaves();
                }
                if end <= free.start {
                    proof {
                        lemma_place_left(l, r, entry);
                    }
                    left.insert(start, end, data)
                } else if free.end <= start {
                    proof {
                        lemma_place_right(l, r, entry);
                    }
                    right.insert(start, end, data)
                } else if free.start <= start && end <= free.end {
                    proof {
                        lemma_place_between(l, r, entry);
                    }
                    unchecked_insert(start, end, data, right, free);
                    Some(start)
                } else {
                    proof {
                        lemma_place_nowhere(l, r, start as int, end as int);
                    }
                    None
                }
            },
        }
    }
}

impl Node {
    /// Tries to insert a leaf of the given `duration` below this node, as
    /// close before `end` as the leaves allow and no sooner than `min_start`.
    ///
    /// Returns the start of the new leaf, or `None` where no gap between the
    /// leaves takes it.
    #[verifier::rlimit(40)]
    pub fn insert_before(
        &mut self,
        end: i64,
        duration: i64,
        min_start: Option<i64>,
        data: Item,
    ) -> (placed: Option<i64>)
        requires
            old(self).wf(),
            duration > 0,
        ensures
            placed matches Some(s) ==> {
                &&& latest_between(
                    old(self).leaves(),
                    s as int,
                    duration as int,
                    end as int,
                    min_start,
                )
                &&& *final(self) == old(self).with_leaf(s, (s + duration) as i64, data)
                &&& final(self).wf()
                &&& final(self).leaves() == old(self).leaves().insert(
                    rank(old(self).leaves(), s as int),
                    Entry { start: s, end: (s + duration) as i64, data },
                )
                &&& final(self).first_start() == old(self).first_start()
                &&& final(self).last_end() == old(self).last_end()
            },
            placed is None ==> *final(self) == *old(self) && none_between_before(
                old(self).leaves(),
                duration as int,
                end as int,
                min_start,
            ),
        decreases *old(self),
    {
        match self {
            Node::Leaf { .. } => None,
            Node::Intermediate { left, right, free } => {
                let ghost l = left.leaves();
                let ghost r = right.leaves();
                proof {
                    left.lemma_leaves();
                    right.lemma_leaves();
                }
                // If the end is inside the right child, try that first
                if free.end < end {
                    let placed = right.insert_before(end, duration, min_start, data);
                    if let Some(start) = placed {
                        proof {
                            let entry = Entry { start, end: (start + duration) as i64, data };
                            lemma_before_in_right(
                                l,
                                r,
                                start as int,
                                duration as int,
                                end as int,
                                min_start,
                            );
                            lemma_place_right(l, r, entry);
                        }
                        return placed;
                    }
                }
                // Second, try to insert it in the free range of the current node
                let end_here = if end < free.end {
                    end
                } else {
                    free.end
                };
                let late_enough = match min_start {
                    Some(min_start) => min_start as i128 + duration as i128 <= end_here as i128,
                    None => true,
                };
                if free.start as i128 + duration as i128 <= end_here as i128 && late_enough {
                    let start = end_here - duration;
                    proof {
                        let entry = Entry { start, end: end_here, data };
                        lemma_before_in_gap(
                            l,
                            r,
                            start as int,
                            duration as int,
                            end as int,
                            min_start,
                        );
                        lemma_place_between(l, r, entry);
                    }
                    unchecked_insert(start, end_here, data, right, free);
                    return Some(start);
                }
                // If min_start is contained in free, don't bother checking the left child
                let stop = match min_start {
                    Some(min_start) => free.start <= min_start,
                    None => false,
                };
                if stop {
                    proof {
                        lemma_before_in_left(l, r, None, duration as int, end as int, min_start);
                    }
                    return None;
                }
                // Last, try to insert it in the left child
                let placed = left.insert_before(end, duration, min_start, data);
                proof {
                    match placed {
                        Some(start) => {
                            let entry = Entry { start, end: (start + duration) as i64, data };
                            lemma_before_in_left(
                                l,
                                r,
                                Some(start as int),
                                duration as int,
                                end as int,
                                min_start,
                            );
                            lemma_ordered_bounds(l, l.len() - 1);
                            assert(l[l.len() - 1].end <= start || start + duration <= l[l.len()
                                - 1].start);
                            lemma_place_left(l, r, entry);
                        },
                        None => {
                            lemma_before_in_left(
                                l,
                                r,
                                None,
                                duration as int,
                                end as int,
                                min_start,
                            );
                        },
                    }
                }
                placed
            },
        }
    }

    /// Tries to insert a leaf of the given `duration` below this node, as
    /// close after `start` as the leaves allow and ending by `max_end`.
    ///
    /// Returns the start of the new leaf, or `None` where no gap between the
    /// leaves takes it.
    #[verifier::rlimit(40)]
    pub fn insert_after(
        &mut self,
        start: i64,
        duration: i64,
        max_end: Option<i64>,
        data: Item,
    ) -> (placed: Option<i64>)
        requires
            old(self).wf(),
            duration > 0,
        ensures
            placed matches Some(s) ==> {
                &&& earliest_between(
                    old(self).leaves(),
                    s as int,
                    duration as int,
                    start as int,
                    max_end,
                )
                &&& *final(self) == old(self).with_leaf(s, (s + duration) as i64, data)
                &&& final(self).wf()
                &&& final(self).leaves() == old(self).leaves().insert(
                    rank(old(self).leaves(), s as int),
                    Entry { start: s, end: (s + duration) as i64, data },
                )
                &&& final(self).first_start() == old(self).first_start()
                &&& final(self).last_end() == old(self).last_end()
            },
            placed is None ==> *final(self) == *old(self) && none_between_after(
                old(self).leaves(),
                duration as int,
                start as int,
                max_end,
            ),
        decreases *old(self),
    {
        match self {
            Node::Leaf { .. } => None,
            Node::Intermediate { left, right, free } => {
                let ghost l = left.leaves();
                let ghost r = right.leaves();
                proof {
                    left.lemma_leaves();
                    right.lemma_leaves();
                }
                // If the start is inside the left child, try that first
                if start < free.start {
                    let placed = left.insert_after(start, duration, max_end, data);
                    if let Some(at) = placed {
                        proof {
                            let entry = Entry { start: at, end: (at + duration) as i64, data };
                            lemma_after_in_left(
                                l,
                                r,
                                at as int,
                                duration as int,
                                start as int,
                                max_end,
                            );
                            lemma_place_left(l, r, entry);
                        }
                        return placed;
                    }
                }
                // Second, try to insert it in the free range of the current node
                let start_here = if start > free.start {
                    start
                } else {
                    free.start
                };
                let early_enough = match max_end {
                    Some(max_end) => start_here as i128 + duration as i128 <= max_end as i128,
                    None => true,
                };
                if start_here as i128 + duration as i128 <= free.end as i128 && early_enough {
                    let end_here = start_here + duration;
                    proof {
                        let entry = Entry { start: start_here, end: end_here, data };
                        lemma_after_in_gap(
                            l,
                            r,
                            start_here as int,
                            duration as int,
                            start as int,
                            max_end,
                        );
                        lemma_place_between(l, r, entry);
                    }
                    unchecked_insert(start_here, end_here, data, right, free);
                    return Some(start_here);
                }
                // If max_end is contained in free, don't bother checking the right child
                let stop = match max_end {
                    Some(max_end) => max_end <= free.end,
                    None => false,
                };
                if stop {
                    proof {
                        lemma_after_in_right(l, r, None, duration as int, start as int, max_end);
                    }
                    return None;
                }
                // Last, try to insert it in the right child
                let placed = right.insert_after(start, duration, max_end, data);
                proof {
                    match placed {
                        Some(at) => {
                            let entry = Entry { start: at, end: (at + duration) as i64, data };
                            lemma_after_in_right(
                                l,
                                r,
                                Some(at as int),
                                duration as int,
                                start as int,
                                max_end,
                            );
                            lemma_place_right(l, r, entry);
                        },
                        None => {
                            lemma_after_in_right(
                                l,
                                r,
                                None,
                                duration as int,
                                start as int,
                                max_end,
                            );
                        },
                    }
                }
                placed
            },
        }
    }
}

impl Node {
    /// The left child of an intermediate node.
    pub open spec fn spec_left(self) -> Node {
        match self {
            Node::Leaf { .. } => self,
            Node::Intermediate { left, .. } => *left,
        }
    }

    /// The right child of an intermediate node.
    pub open spec fn spec_right(self) -> Node {
        match self {
            Node::Leaf { .. } => self,
            Node::Intermediate { right, .. } => *right,
        }
    }

    /// The free span of an intermediate node.
    pub open spec fn spec_free(self) -> TimeRange {
        match self {
            Node::Leaf { start, end, .. } => TimeRange { start, end },
            Node::Intermediate { free, .. } => free,
        }
    }

    /// The span of a leaf, with what it holds.
    pub open spec fn spec_entry(self) -> Option<Entry> {
        match self {
            Node::Leaf { start, end, data } => Some(Entry { start, end, data }),
            Node::Intermediate { .. } => None,
        }
    }

    /// The left child of an intermediate node.
    pub fn unchecked_left(self) -> (left: Node)
        requires
            self is Intermediate,
        ensures
            left == self.spec_left(),
    {
        match self {
            Node::Leaf { start, end, data } => Node::Leaf { start, end, data },
            Node::Intermediate { left, .. } => *left,
        }
    }

    /// The right child of an intermediate node.
    pub fn unchecked_right(self) -> (right: Node)
        requires
            self is Intermediate,
        ensures
            right == self.spec_right(),
    {
        match self {
            Node::Leaf { start, end, data } => Node::Leaf { start, end, data },
            Node::Intermediate { right, .. } => *right,
        }
    }

    /// The free span of an intermediate node.
    pub fn unchecked_free_ref(&self) -> (free: &TimeRange)
        requires
            self is Intermediate,
        ensures
            *free == self.spec_free(),
    {
        match self {
            Node::Leaf { .. } => &TimeRange { start: 0, end: 0 },
            Node::Intermediate { free, .. } => free,
        }
    }

    /// The span of this node where it is a leaf.
    pub fn entry(&self) -> (entry: Option<Entry>)
        ensures
            entry == self.spec_entry(),
    {
        match self {
            Node::Leaf { start, end, data } => Some(
                Entry { start: *start, end: *end, data: *data },
            ),
            Node::Intermediate { .. } => None,
        }
    }

    /// The span of the left child where that is a leaf.
    pub fn left_entry(&self) -> (entry: Option<Entry>)
        requires
            self is Intermediate,
        ensures
            entry == self.spec_left().spec_entry(),
    {
        match self {
            Node::Leaf { .. } => None,
            Node::Intermediate { left, .. } => left.entry(),
        }
    }

    /// The span of the right child where that is a leaf.
    pub fn right_entry(&self) -> (entry: Option<Entry>)
        requires
            self is Intermediate,
        ensures
            entry == self.spec_right().spec_entry(),
    {
        match self {
            Node::Leaf { .. } => None,
            Node::Intermediate { right, .. } => right.entry(),
        }
    }

    /// Removes the leaf that begins at `start` and holds the task `data`
    /// from below this node. A leaf that holds nothing is not removed.
    ///
    /// Returns `None` where there is no such leaf, and else the leaf with the
    /// span that the remaining leaves cover.
    #[verifier::rlimit(40)]
    pub fn unschedule(&mut self, start: i64, data: Item) -> (removed: Option<(Entry, TimeRange)>)
        requires
            old(self).wf(),
            *old(self) is Intermediate,
        ensures
            removed.is_some() <==> data is Task && scheduled_at(
                old(self).leaves(),
                start as int,
                data,
            ),
            removed matches Some((entry, scope)) ==> {
                &&& entry == old(self).leaves()[rank(old(self).leaves(), start as int)]
                &&& *final(self) == old(self).without(start)
                &&& final(self).wf()
                &&& final(self).leaves() == old(self).leaves().remove(
                    rank(old(self).leaves(), start as int),
                )
                &&& scope.start == final(self).first_start()
                &&& scope.end == final(self).last_end()
            },
            removed is None ==> *final(self) == *old(self),
        decreases *old(self),
    {
        let ghost l = self.spec_left().leaves();
        let ghost r = self.spec_right().leaves();
        proof {
            self.spec_left().lemma_leaves();
            self.spec_right().lemma_leaves();
        }
        let free = *self.unchecked_free_ref();
        if start < free.start {
            proof {
                lemma_find_left(l, r, start as int, data);
            }
            match self.left_entry() {
                Some(entry) => {
                    proof {
                        assert(l == seq![entry]);
                        assert(l.drop_last() =~= Seq::<Entry>::empty());
                        assert(rank(l.drop_last(), start as int) == 0);
                    }
                    if start == entry.start && data == entry.data {
                        let promote = |node: Node| -> (right: Node)
                            requires
                                node is Intermediate,
                            ensures
                                right == node.spec_right(),
                            { node.unchecked_right() };
                        take_mut::take(self, promote);
                        proof {
                            assert((l + r).remove(0) =~= r);
                        }
                        Some((entry, self.find_scope()))
                    } else {
                        None
                    }
                },
                None => match self {
                    Node::Leaf { .. } => None,
                    Node::Intermediate { left, right, free } => {
                        match left.unschedule(start, data) {
                            Some((entry, scope)) => {
                                proof {
                                    left.lemma_leaves();
                                    lemma_remove_ordered(l, rank(l, start as int));
                                    lemma_ordered_bounds(l, l.len() - 1);
                                }
                                free.start = scope.end;
                                let end = right.find_scope().end;
                                Some((entry, TimeRange { start: scope.start, end }))
                            },
                            None => None,
                        }
                    },
                },
            }
        } else if free.end <= start {
            proof {
                lemma_find_right(l, r, start as int, data);
            }
            match self.right_entry() {
                Some(entry) => {
                    proof {
                        assert(r == seq![entry]);
                        assert(r.drop_last() =~= Seq::<Entry>::empty());
                        assert(rank(r.drop_last(), start as int) == 0);
                    }
                    if start == entry.start && data == entry.data {
                        let promote = |node: Node| -> (left: Node)
                            requires
                                node is Intermediate,
                            ensures
                                left == node.spec_left(),
                            { node.unchecked_left() };
                        take_mut::take(self, promote);
                        proof {
                            assert((l + r).remove(l.len() as int) =~= l);
                        }
                        Some((entry, self.find_scope()))
                    } else {
                        None
                    }
                },
                None => match self {
                    Node::Leaf { .. } => None,
                    Node::Intermediate { left, right, free } => {
                        match right.unschedule(start, data) {
                            Some((entry, scope)) => {
                                proof {
                                    right.lemma_leaves();
                                    lemma_remove_ordered(r, rank(r, start as int));
                                    lemma_ordered_bounds(r, 0);
                                }
                                free.end = scope.start;
                                let start = left.find_scope().start;
                                Some((entry, TimeRange { start, end: scope.end }))
                            },
                            None => None,
                        }
                    },
                },
            }
        } else {
            proof {
                lemma_find_gap(l, r, start as int, data);
            }
            None
        }
    }
}

/// Puts a new leaf in front of the right child of some node: the child makes
/// room under a new intermediate node, and the node's free span shrinks to
/// what is left before the new leaf.
fn unchecked_insert(start: i64, end: i64, data: Item, right: &mut Node, free: &mut TimeRange)
    requires
        old(free).start <= start,
        end <= old(free).end,
    ensures
        *final(free) == (TimeRange { start: old(free).start, end: start }),
        *final(right) == Node::spec_join(
            TimeRange { start: end, end: old(free).end },
            Node::Leaf { start, end, data },
            *old(right),
        ),
        final(right).leaves() == seq![Entry { start, end, data }] + old(right).leaves(),
        final(right).first_start() == start,
        final(right).last_end() == old(right).last_end(),
        start < end && old(right).wf() && old(free).end == old(right).first_start()
            ==> final(right).wf(),
{
    let new_node = Node::Leaf { start, end, data };
    let gap = TimeRange { start: end, end: free.end };
    let ghost below = *right;
    let nest = |right_value: Node| -> (joined: Node)
        ensures
            joined == Node::spec_join(gap, new_node, right_value),
        { Node::join(gap, new_node, right_value) };
    take_mut::take(right, nest);
    *free = TimeRange { start: free.start, end: start };
    proof {
        assert(new_node.leaves() == seq![Entry { start, end, data }]);
        assert(new_node.first_start() == start);
        assert(new_node.last_end() == end);
        assert(right.leaves() == new_node.leaves() + below.leaves());
        assert(right.first_start() == start);
        assert(right.last_end() == below.last_end());
        if start < end && below.wf() && gap.end == below.first_start() {
            assert(new_node.wf());
            assert(right.wf());
        }
    }
}

} // verus!
