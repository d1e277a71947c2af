//! What a leaf of the schedule tree holds.

use vstd::prelude::*;
use vstd::std_specs::cmp::PartialEqSpecImpl;

verus! {

/// What a leaf of the tree holds: a task, named by its key, or nothing at
/// all, which marks time that no task may take.
#[derive(Debug, Clone, Copy, Eq)]
pub enum Item {
    Task(u64),
    Nothing,
}

/// A task is the same as itself only: what holds nothing is the same as
/// nothing else, not even as another leaf that holds nothing, so that no
/// leaf that blocks time is ever taken for another.
impl PartialEq for Item {
    fn eq(&self, other: &Item) -> (same: bool) {
        match (self, other) {
            (Item::Task(task), Item::Task(other)) => *task == *other,
            _ => false,
        }
    }
}

impl PartialEqSpecImpl for Item {
    open spec fn obeys_eq_spec() -> bool {
        true
    }

    open spec fn eq_spec(&self, other: &Item) -> bool {
        match (self, other) {
            (Item::Task(task), Item::Task(other)) => task == other,
            _ => false,
        }
    }
}

} // verus!
