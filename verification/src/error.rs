use crate::sys::EnvError;
use vstd::prelude::*;

verus! {

/// What a caller or the environment did that an arena cannot work with.
#[derive(Debug, Clone, Copy, PartialEq, Eq, Structural)]
pub enum Violation {
    /// The heap sizes of the configuration leave no room for an arena.
    HeapSizes,
    /// The page size of the environment does not divide the segment size, or
    /// is not a multiple of the size of a compact header.
    PageSize,
    /// The environment answered with a range that is null, misaligned, runs
    /// past the end of the address space, or lies over a range in use.
    UnusableRange,
    /// The pointer is not that of a block that is handed out.
    UnownedPointer,
}

/// Why an operation of the allocator failed.
#[derive(Debug, Clone, Copy, PartialEq, Eq, Structural)]
pub enum AllocError {
    /// The budget or the reserved range is used up.
    OutOfHeap,
    /// The environment refused a request.
    EnvFailure(EnvError),
    PreconditionViolated(Violation),
}

/// The cause where the error is a refusal of the environment, and none
/// else.
pub open spec fn spec_env_refusal<T>(answer: Result<T, AllocError>) -> Option<EnvError> {
    match answer {
        Err(AllocError::EnvFailure(e)) => Some(e),
        _ => None,
    }
}

impl Violation {
    /// The violation in words.
    pub open spec fn spec_message(&self) -> &'static str {
        match self {
            Violation::HeapSizes => "the heap sizes leave no room for an arena",
            Violation::PageSize => "the page size does not fit the segment size",
            Violation::UnusableRange => "the environment answered with an unusable range",
            Violation::UnownedPointer => "the pointer is not that of a block handed out",
        }
    }

    /// The violation in words.
    pub fn message(&self) -> (text: &'static str)
        ensures
            text == self.spec_message(),
    {
        match self {
            Violation::HeapSizes => "the heap sizes leave no room for an arena",
            Violation::PageSize => "the page size does not fit the segment size",
            Violation::UnusableRange => "the environment answered with an unusable range",
            Violation::UnownedPointer => "the pointer is not that of a block handed out",
        }
    }
}

} // verus!
