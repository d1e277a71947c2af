use vstd::prelude::*;

verus! {

/// How tasks compete for the time before their deadlines.
#[derive(Debug, Clone, Copy, PartialEq, Eq, Structural)]
pub enum SchedulingStrategy {
    /// The most important tasks are pulled towards the present first.
    Importance,
    /// Tasks keep the order their deadlines force and are packed towards the present.
    Urgency,
}

/// `str::eq` tells whether two strings hold the same characters.
#[verifier::external_body]
fn same_text(a: &str, b: &str) -> (same: bool)
    ensures
        same == (a@ == b@),
{
    a == b
}

impl SchedulingStrategy {
    /// The name under which the strategy is selected.
    pub open spec fn name(self) -> Seq<char> {
        match self {
            SchedulingStrategy::Importance => "importance"@,
            SchedulingStrategy::Urgency => "urgency"@,
        }
    }

    /// The strategy of the given name. The names are `importance` and
    /// `urgency`, in lower case.
    pub fn from_name(name: &str) -> (strategy: Option<SchedulingStrategy>)
        ensures
            match strategy {
                Some(strategy) => name@ == strategy.name(),
                None => name@ != SchedulingStrategy::Importance.name() && name@
                    != SchedulingStrategy::Urgency.name(),
            },
    {
        if same_text(name, "importance") {
            Some(SchedulingStrategy::Importance)
        } else if same_text(name, "urgency") {
            Some(SchedulingStrategy::Urgency)
        } else {
            None
        }
    }

    /// The name of the strategy.
    pub fn as_str(&self) -> (name: &'static str)
        ensures
            name@ == self.name(),
    {
        match self {
            SchedulingStrategy::Importance => "importance",
            SchedulingStrategy::Urgency => "urgency",
        }
    }
}

} // verus!
