use crate::internal::layout::constants::ALIGNMENT_SIZE;
use crate::util::bits::{max_aligned_size, spec_max_aligned_size};
use vstd::prelude::*;

verus! {

/// The two regimes that a block belongs to, told apart by its address alone.
#[derive(Debug, Clone, Copy, PartialEq, Eq, Structural)]
pub enum Type {
    FreeSize,
    OnSubHeap,
}

/// The bytes that the header of a large block takes at the start of its mapping.
pub const BLOCK_FREE_SIZE_HEADER_SIZE: usize = 8;

/// The header that precedes the payload of a large block.  The low bits of
/// the word, below the alignment, are left for flags.
#[derive(Debug, Clone, Copy, PartialEq, Eq, Structural)]
pub struct HeaderForFreeSize {
    pub block_size_with_flags: usize,
}

impl HeaderForFreeSize {
    /// The bytes of the block, without the flags.
    pub open spec fn spec_block_size(&self) -> int {
        spec_max_aligned_size(self.block_size_with_flags as int, ALIGNMENT_SIZE as int)
    }

    /// The header of a block of `block_size` bytes, with no flag set.
    pub fn init(block_size: usize) -> (header: Self)
        requires
            block_size % ALIGNMENT_SIZE == 0,
        ensures
            header.block_size_with_flags == block_size,
            header.spec_block_size() == block_size,
    {
        HeaderForFreeSize { block_size_with_flags: block_size }
    }

    /// The bytes of the block, without the flags.
    pub fn block_size(&self) -> (size: usize)
        ensures
            size == self.spec_block_size(),
    {
        max_aligned_size(self.block_size_with_flags, ALIGNMENT_SIZE)
    }
}

} // verus!
