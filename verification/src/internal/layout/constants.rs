use vstd::prelude::*;

verus! {

/// Every block size and every block address is a multiple of this.
pub const ALIGNMENT_SIZE: usize = 8;

pub const BYTE_BIT_SIZE: usize = 8;

} // verus!
