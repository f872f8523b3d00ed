use vstd::prelude::*;

verus! {

/// What a receiver answers after taking one value.
#[derive(Clone, Copy, Debug, PartialEq, Eq, Structural)]
pub enum ValueResult {
    /// Hand over no further value in this run.
    Stop,
    /// Go on with the next value.
    MoreValues,
}

/// How a run ended.
#[derive(Clone, Copy, Debug, PartialEq, Eq, Structural)]
pub enum GeneratorResult {
    /// The run ended early; a later run resumes where this one left off.
    Stopped,
    /// The generator has nothing left to deliver.
    Complete,
}

impl ValueResult {
    /// Reads a boolean as a signal: `true` asks for more, `false` stops.
    pub fn from_bool(more: bool) -> (res: ValueResult)
        ensures
            res == (if more {
                ValueResult::MoreValues
            } else {
                ValueResult::Stop
            }),
    {
        if more {
            ValueResult::MoreValues
        } else {
            ValueResult::Stop
        }
    }

    /// Whether the signal asks for the run to end.
    pub fn is_stop(&self) -> (res: bool)
        ensures
            res == (*self == ValueResult::Stop),
    {
        match self {
            ValueResult::Stop => true,
            ValueResult::MoreValues => false,
        }
    }
}

impl GeneratorResult {
    /// Whether the run ended early.
    pub fn is_stopped(&self) -> (res: bool)
        ensures
            res == (*self == GeneratorResult::Stopped),
    {
        match self {
            GeneratorResult::Stopped => true,
            GeneratorResult::Complete => false,
        }
    }
}

} // verus!
