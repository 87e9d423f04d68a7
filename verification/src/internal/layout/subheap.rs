use crate::internal::layout::constants::ALIGNMENT_SIZE;
use crate::sys::ptr::AnyNonNullPtr;
use vstd::prelude::*;

verus! {

/// The number of size classes.
pub const CLASS_COUNT: usize = 32;

/// The segments of one class that have a free block: the two ends of their
/// list.  A null end says that the list is empty.
pub struct SubHeap {
    pub free_segments_begin: usize,
    pub free_segments_end: usize,
    /// The indices of the segments of the list, in the order of their links.
    pub list: Ghost<Seq<int>>,
}

impl SubHeap {
    /// A list that holds nothing.
    pub fn init() -> (subheap: Self)
        ensures
            subheap.free_segments_begin == 0,
            subheap.free_segments_end == 0,
            subheap.list@ == Seq::<int>::empty(),
    {
        Self { free_segments_begin: 0, free_segments_end: 0, list: Ghost(Seq::empty()) }
    }

    /// The first segment of the list, or none where the list is empty.
    pub fn next_free_segment(&self) -> (next: Option<AnyNonNullPtr>)
        ensures
            match next {
                Some(seg_ptr) => seg_ptr.raw == self.free_segments_begin && seg_ptr.raw != 0,
                None => self.free_segments_begin == 0,
            },
    {
        if self.free_segments_begin == 0 {
            None
        } else {
            Some(AnyNonNullPtr::new(self.free_segments_begin))
        }
    }
}

/// The block size of each class, in bytes.
pub const SUBHEAP_SIZE_OF_CLASS: [usize; 32] = [
    // 0-3
    0x0001 * ALIGNMENT_SIZE,
    0x0002 * ALIGNMENT_SIZE,
    0x0003 * ALIGNMENT_SIZE,
    0x0004 * ALIGNMENT_SIZE,
    // 4-9
    0x0006 * ALIGNMENT_SIZE,
    0x0008 * ALIGNMENT_SIZE,
    0x000a * ALIGNMENT_SIZE,
    0x000c * ALIGNMENT_SIZE,
    0x000e * ALIGNMENT_SIZE,
    0x0010 * ALIGNMENT_SIZE,
    // 10-24
    0x0020 * ALIGNMENT_SIZE,
    0x0030 * ALIGNMENT_SIZE,
    0x0040 * ALIGNMENT_SIZE,
    0x0050 * ALIGNMENT_SIZE,
    0x0060 * ALIGNMENT_SIZE,
    0x0070 * ALIGNMENT_SIZE,
    0x0080 * ALIGNMENT_SIZE,
    0x0090 * ALIGNMENT_SIZE,
    0x00a0 * ALIGNMENT_SIZE,
    0x00b0 * ALIGNMENT_SIZE,
    0x00c0 * ALIGNMENT_SIZE,
    0x00d0 * ALIGNMENT_SIZE,
    0x00e0 * ALIGNMENT_SIZE,
    0x00f0 * ALIGNMENT_SIZE,
    0x0100 * ALIGNMENT_SIZE,
    // 25-31
    0x0200 * ALIGNMENT_SIZE,
    0x0300 * ALIGNMENT_SIZE,
    0x0400 * ALIGNMENT_SIZE,
    0x0500 * ALIGNMENT_SIZE,
    0x0600 * ALIGNMENT_SIZE,
    0x0700 * ALIGNMENT_SIZE,
    0x0800 * ALIGNMENT_SIZE,
];

/// The block size of a class, in units of the alignment.
pub open spec fn spec_units_of_class(class: int) -> int {
    if class < 4 {
        class + 1
    } else if class < 10 {
        2 * class - 2
    } else if class < 25 {
        0x10 * class - 0x80
    } else {
        0x100 * class - 0x1700
    }
}

/// The block size of a class, in bytes.
pub fn size_of_class(class: usize) -> (size: usize)
    requires
        class < CLASS_COUNT,
    ensures
        size == spec_units_of_class(class as int) * ALIGNMENT_SIZE,
{
    SUBHEAP_SIZE_OF_CLASS[class]
}

/// The largest size, in bytes, that a class serves.
pub const MAX_SIZE_OF_CLASS: usize = 0x0800 * ALIGNMENT_SIZE;

/// Whether `class` is the least class whose blocks are not smaller than `size`.
pub open spec fn class_serves(class: int, size: int) -> bool {
    &&& 0 <= class < CLASS_COUNT
    &&& size <= spec_units_of_class(class) * ALIGNMENT_SIZE
    &&& class > 0 ==> spec_units_of_class(class - 1) * ALIGNMENT_SIZE < size
}

/// The class that serves a size, or none where the size is above the largest
/// class.
pub open spec fn spec_class_of_size(size: int) -> Option<int> {
    if size > MAX_SIZE_OF_CLASS {
        None
    } else {
        Some(choose|class: int| class_serves(class, size))
    }
}

/// At most one class serves a size.
pub proof fn lemma_class_serves_unique(first: int, second: int, size: int)
    requires
        class_serves(first, size),
        class_serves(second, size),
    ensures
        first == second,
{
    if first < second {
        if first < second - 1 {
            lemma_units_of_class_increase(first, second - 1);
        }
    } else if second < first {
        if second < first - 1 {
            lemma_units_of_class_increase(second, first - 1);
        }
    }
}

/// Each class has larger blocks than the one before it.
pub proof fn lemma_units_of_class_increase(lower: int, upper: int)
    requires
        0 <= lower < upper < CLASS_COUNT,
    ensures
        0 < spec_units_of_class(lower) < spec_units_of_class(upper) <= 0x800,
{
}

/// The class that serves a size, which has to be a multiple of the
/// alignment: the least class whose blocks are not smaller than the size,
/// or none where the size is above the largest class.
pub fn class_of_size(size: usize) -> (class: Option<usize>)
    requires
        size % ALIGNMENT_SIZE == 0,
    ensures
        match class {
            Some(class) => class_serves(class as int, size as int),
            None => size > MAX_SIZE_OF_CLASS,
        },
        spec_class_of_size(size as int) == match class {
            Some(class) => Some(class as int),
            None => None,
        },
{
    let align_size = size / ALIGNMENT_SIZE;

    let class = if align_size > 0x800 {
        None
    } else if align_size > 0x100 {
        let i = (align_size - 1) / 0x100;
        Some(24 + i)
    } else if align_size > 0x10 {
        let i = (align_size - 1) / 0x10;
        Some(9 + i)
    } else if align_size > 0x4 {
        let i = (align_size - 1) / 0x2;
        Some(2 + i)
    } else if align_size > 0 {
        Some(align_size - 1)
    } else {
        Some(0)
    };
    proof {
        if let Some(found) = class {
            assert(class_serves(found as int, size as int));
            lemma_class_serves_unique(
                found as int,
                spec_class_of_size(size as int).unwrap(),
                size as int,
            );
        }
    }
    class
}

/// A size that is exactly the block size of a class is served by that class,
/// not by the next one.
pub proof fn lemma_class_boundary(class: int)
    requires
        0 <= class < CLASS_COUNT,
    ensures
        spec_class_of_size(spec_units_of_class(class) * ALIGNMENT_SIZE) == Some(class),
{
    let size = spec_units_of_class(class) * ALIGNMENT_SIZE;
    assert(class_serves(class, size));
    lemma_class_serves_unique(class, spec_class_of_size(size).unwrap(), size);
}

/// One alignment step above the block size of a class is served by the next
/// class, and above the largest class by none.
pub proof fn lemma_class_above_boundary(class: int)
    requires
        0 <= class < CLASS_COUNT,
    ensures
        spec_class_of_size((spec_units_of_class(class) + 1) * ALIGNMENT_SIZE) == if class + 1
            < CLASS_COUNT {
            Some(class + 1)
        } else {
            None
        },
{
    let size = (spec_units_of_class(class) + 1) * ALIGNMENT_SIZE;
    if class + 1 < CLASS_COUNT {
        assert(class_serves(class + 1, size));
        lemma_class_serves_unique(class + 1, spec_class_of_size(size).unwrap(), size);
    }
}

/// A request is served by a class exactly where it is not above the block
/// size of the largest class, whatever the alignment adds to it.
pub proof fn lemma_class_of_request(size: int)
    requires
        0 <= size,
    ensures
        spec_class_of_size(
            crate::util::bits::spec_min_aligned_size(size, ALIGNMENT_SIZE as int),
        ) is Some <==> size <= MAX_SIZE_OF_CLASS,
{
    crate::util::bits::lemma_min_aligned_size(size, ALIGNMENT_SIZE as int);
}

} // verus!
