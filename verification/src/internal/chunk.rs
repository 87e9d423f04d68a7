use vstd::prelude::*;

verus! {

/// The bits of the word of a chunk that are flags.
pub const CHUNK_FLAGS_MASK: usize = 0xf;

/// The header of a chunk: its size, with flags in the four low bits.
#[derive(Debug, Clone, Copy, PartialEq, Eq, Structural)]
pub struct Header {
    pub chunk_size_with_flags: usize,
}

impl Header {
    /// The size of the chunk, without the flags.
    pub open spec fn spec_chunk_size(&self) -> int {
        self.chunk_size_with_flags - self.chunk_size_with_flags % 16
    }

    /// The size of the chunk, without the flags.
    pub fn chunk_size(&self) -> (size: usize)
        ensures
            size == self.spec_chunk_size(),
    {
        let word = self.chunk_size_with_flags;
        let flags = word & CHUNK_FLAGS_MASK;
        assert(word & 0xf == word % 16) by (bit_vector);
        word - flags
    }
}

} // verus!
