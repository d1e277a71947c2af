//! Eva's scheduling engine: recurring time segments, the schedule tree that
//! tracks free and busy time, and the strategies that place tasks before
//! their deadlines.

pub mod configuration;
pub mod fits;
pub mod item;
pub mod node;
pub mod schedule_tree;
pub mod scheduling;
pub mod sorting;
pub mod spans;
pub mod time_segment;
pub mod util;

pub use crate::scheduling::{schedule, Schedule, Scheduled};
