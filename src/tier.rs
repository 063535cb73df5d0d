//! The three tiers of the managed region.
use vstd::prelude::*;

verus! {

/// One of the three fixed partitions of the managed region.
#[derive(Clone, Copy, PartialEq, Eq, Debug, Structural)]
pub enum Tier {
    /// High churn, 128-byte alignment, half of the region.
    Top,
    /// Medium lifetime, 64-byte alignment, three tenths of the region.
    Middle,
    /// Short lived, 8-byte alignment, the remaining fifth.
    Bottom,
}

impl Tier {
    /// Index of the tier: `Top` is 0, `Middle` 1, `Bottom` 2.
    pub open spec fn spec_index(self) -> nat {
        match self {
            Tier::Top => 0,
            Tier::Middle => 1,
            Tier::Bottom => 2,
        }
    }

    pub open spec fn spec_alignment(self) -> usize {
        match self {
            Tier::Top => 128,
            Tier::Middle => 64,
            Tier::Bottom => 8,
        }
    }

    pub open spec fn spec_memory_percentage(self) -> usize {
        match self {
            Tier::Top => 50,
            Tier::Middle => 30,
            Tier::Bottom => 20,
        }
    }

    /// The tier whose index is `value`, if there is one.
    pub fn from_u8(value: u8) -> (r: Option<Tier>)
        ensures
            value < 3 <==> r.is_some(),
            r matches Some(t) ==> t.spec_index() == value,
    {
        match value {
            0 => Some(Tier::Top),
            1 => Some(Tier::Middle),
            2 => Some(Tier::Bottom),
            _ => None,
        }
    }

    pub fn index(&self) -> (r: usize)
        ensures
            r == self.spec_index(),
    {
        match self {
            Tier::Top => 0,
            Tier::Middle => 1,
            Tier::Bottom => 2,
        }
    }

    pub fn alignment(&self) -> (r: usize)
        ensures
            r == self.spec_alignment(),
    {
        match self {
            Tier::Top => 128,
            Tier::Middle => 64,
            Tier::Bottom => 8,
        }
    }

    pub fn memory_percentage(&self) -> (r: usize)
        ensures
            r == self.spec_memory_percentage(),
    {
        match self {
            Tier::Top => 50,
            Tier::Middle => 30,
            Tier::Bottom => 20,
        }
    }
}

} // verus!
