use vstd::prelude::*;

verus! {

/// How a range is committed: by a change of its protection, or, where the
/// kernel refuses that, by a new mapping at the same address.
#[derive(PartialOrd, Ord, PartialEq, Eq, Clone, Copy, Debug, Structural)]
pub enum CommitStrategy {
    MprotectRw,
    MmapFixedProtRw,
}

/// How the contents of a range are given up while the range stays mapped.
#[derive(PartialOrd, Ord, PartialEq, Eq, Clone, Copy, Debug, Structural)]
pub enum SoftDecommitStrategy {
    MadviseFree,
    MadviseDontNeed,
    MmapFixedRemap,
}

/// How access to a range is taken away while the range stays reserved.
#[derive(PartialOrd, Ord, PartialEq, Eq, Clone, Copy, Debug, Structural)]
pub enum HardDecommitStrategy {
    MprotectNone,
    MmapFixedProtNone,
}

impl CommitStrategy {
    /// The place of the strategy in the order of preference, the most
    /// preferred one being first.
    pub open spec fn rank(self) -> int {
        match self {
            CommitStrategy::MprotectRw => 0,
            CommitStrategy::MmapFixedProtRw => 1,
        }
    }

    /// The strategy to go on with where this one failed: the next one in the
    /// order of preference, or none where this is the last one.
    pub fn fallback(self) -> (next: Option<Self>)
        ensures
            match next {
                Some(next) => next.rank() == self.rank() + 1,
                None => self.rank() == 1,
            },
    {
        match self {
            CommitStrategy::MprotectRw => Some(CommitStrategy::MmapFixedProtRw),
            CommitStrategy::MmapFixedProtRw => None,
        }
    }
}

impl SoftDecommitStrategy {
    /// The place of the strategy in the order of preference, the most
    /// preferred one being first.
    pub open spec fn rank(self) -> int {
        match self {
            SoftDecommitStrategy::MadviseFree => 0,
            SoftDecommitStrategy::MadviseDontNeed => 1,
            SoftDecommitStrategy::MmapFixedRemap => 2,
        }
    }

    /// The strategy to go on with where this one failed: the next one in the
    /// order of preference, or none where this is the last one.
    pub fn fallback(self) -> (next: Option<Self>)
        ensures
            match next {
                Some(next) => next.rank() == self.rank() + 1,
                None => self.rank() == 2,
            },
    {
        match self {
            SoftDecommitStrategy::MadviseFree => Some(SoftDecommitStrategy::MadviseDontNeed),
            SoftDecommitStrategy::MadviseDontNeed => Some(SoftDecommitStrategy::MmapFixedRemap),
            SoftDecommitStrategy::MmapFixedRemap => None,
        }
    }
}

impl HardDecommitStrategy {
    /// The place of the strategy in the order of preference, the most
    /// preferred one being first.
    pub open spec fn rank(self) -> int {
        match self {
            HardDecommitStrategy::MprotectNone => 0,
            HardDecommitStrategy::MmapFixedProtNone => 1,
        }
    }

    /// The strategy to go on with where this one failed: the next one in the
    /// order of preference, or none where this is the last one.
    pub fn fallback(self) -> (next: Option<Self>)
        ensures
            match next {
                Some(next) => next.rank() == self.rank() + 1,
                None => self.rank() == 1,
            },
    {
        match self {
            HardDecommitStrategy::MprotectNone => Some(HardDecommitStrategy::MmapFixedProtNone),
            HardDecommitStrategy::MmapFixedProtNone => None,
        }
    }
}

} // verus!
