use vstd::prelude::*;

verus! {

/// An address that stands for a pointer into memory that the environment
/// handed out.  It is never dereferenced here.
#[derive(Debug, Clone, Copy, PartialEq, Eq, Structural, PartialOrd, Ord)]
pub struct AnyNonNullPtr {
    pub raw: usize,
}

impl AnyNonNullPtr {
    /// A pointer is well formed when it is not null.
    pub open spec fn wf(&self) -> bool {
        self.raw != 0
    }

    #[inline]
    pub fn new(raw: usize) -> (ptr: Self)
        requires
            raw != 0,
        ensures
            ptr.raw == raw,
            ptr.wf(),
    {
        Self { raw }
    }

    #[inline]
    pub fn as_addr(&self) -> (addr: usize)
        ensures
            addr == self.raw,
    {
        self.raw
    }

    #[inline]
    pub fn add(&self, size_bytes: usize) -> (ptr: Self)
        requires
            self.raw + size_bytes <= usize::MAX,
        ensures
            ptr.raw == self.raw + size_bytes,
    {
        Self { raw: self.raw + size_bytes }
    }

    #[inline]
    pub fn sub(&self, size_bytes: usize) -> (ptr: Self)
        requires
            size_bytes < self.raw,
        ensures
            ptr.raw == self.raw - size_bytes,
            ptr.wf(),
    {
        Self { raw: self.raw - size_bytes }
    }

    /// The signed distance in bytes from `another` to `self`.
    #[inline]
    pub fn offset_bytes_from(&self, another: Self) -> (offset: isize)
        requires
            isize::MIN <= self.raw - another.raw <= isize::MAX,
        ensures
            offset == self.raw - another.raw,
    {
        if self.raw >= another.raw {
            (self.raw - another.raw) as isize
        } else {
            let distance: usize = another.raw - self.raw;
            if distance - 1 == isize::MAX as usize {
                isize::MIN
            } else {
                -(distance as isize)
            }
        }
    }
}

} // verus!
