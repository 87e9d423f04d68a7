use sample_alloc::internal::layout::segment::{block_count_of_class, Segment};
use sample_alloc::internal::layout::segment_space::SegmentSpace;
use sample_alloc::internal::layout::subheap::class_of_size;
use sample_alloc::sys::ptr::AnyNonNullPtr;
use sample_alloc::sys::{EnvError, SysMemEnv, TracedEnv};
use sample_alloc::util::bits::{is_aligned, is_power_of_2, max_aligned_size, min_aligned_size};

/// An environment that hands out addresses from a counter and records what
/// it was asked.
struct CountingEnv {
    next: usize,
    commits: Vec<(usize, usize)>,
}

impl SysMemEnv for CountingEnv {
    fn get_pagesize(&mut self) -> Result<usize, EnvError> {
        Ok(4096)
    }

    fn reserve(&mut self, len: usize) -> Result<AnyNonNullPtr, EnvError> {
        let at = self.next;
        self.next += len;
        Ok(AnyNonNullPtr::new(at))
    }

    fn alloc_space(&mut self, len: usize) -> Result<AnyNonNullPtr, EnvError> {
        self.reserve(len)
    }

    fn commit(&mut self, addr: AnyNonNullPtr, len: usize) -> Result<(), EnvError> {
        self.commits.push((addr.as_addr(), len));
        Ok(())
    }

    fn force_commit(&mut self, _addr: AnyNonNullPtr, _len: usize) -> Result<(), EnvError> {
        Ok(())
    }

    fn soft_decommit(&mut self, _addr: AnyNonNullPtr, _len: usize) -> Result<(), EnvError> {
        Ok(())
    }

    fn hard_decommit(&mut self, _addr: AnyNonNullPtr, _len: usize) -> Result<(), EnvError> {
        Ok(())
    }

    fn release(&mut self, _addr: AnyNonNullPtr, _len: usize) -> Result<(), EnvError> {
        Ok(())
    }
}

#[test]
fn bits_round_to_multiples() {
    assert!(is_aligned(64, 8));
    assert!(!is_aligned(65, 8));
    assert_eq!(min_aligned_size(17, 8), 24);
    assert_eq!(min_aligned_size(16, 8), 16);
    assert_eq!(max_aligned_size(17, 8), 16);
    assert!(is_power_of_2(4096));
    assert!(!is_power_of_2(0));
    assert!(!is_power_of_2(12));
}

#[test]
fn class_of_size_follows_the_table() {
    assert_eq!(class_of_size(0), Some(0));
    assert_eq!(class_of_size(8), Some(0));
    assert_eq!(class_of_size(16), Some(1));
    assert_eq!(class_of_size(24), Some(2));
    assert_eq!(class_of_size(0x800 * 8), Some(31));
    assert_eq!(class_of_size(0x800 * 8 + 8), None);
}

#[test]
fn segment_fills_and_empties() {
    let mut seg = Segment::new(AnyNonNullPtr::new(0x1000), AnyNonNullPtr::new(0x10000));
    seg.init_single(0);
    let count = block_count_of_class(0);
    assert_eq!(count, 8000);
    for expected in 0..count {
        assert_eq!(seg.find_free_block(), Some(expected));
        let full = seg.mark_block_and_check_full(expected);
        assert_eq!(full, expected + 1 == count);
    }
    assert_eq!(seg.find_free_block(), None);
    assert!(!seg.free_block_and_check_empty(4000));
    assert_eq!(seg.find_free_block(), Some(4000));
    assert_eq!(seg.block_ptr(1).as_addr() - seg.block_ptr(0).as_addr(), 8);
}

#[test]
fn segment_space_commits_headers_then_bodies() {
    let mut env = TracedEnv::new(CountingEnv { next: 0x1000_0000, commits: Vec::new() });
    let mut space = SegmentSpace::new(
        4096,
        AnyNonNullPtr::new(0x10000),
        AnyNonNullPtr::new(0x100000),
        AnyNonNullPtr::new(0x100000 + 4 * 0x10000),
        1 << 20,
        0,
        0,
    );
    let first = space.alloc_new_segment(&mut env).unwrap().unwrap();
    assert_eq!(first.as_addr(), 0x10000);
    assert_eq!(env.env().commits, vec![(0x10000, 4096), (0x100000, 0x10000)]);
    assert_eq!(space.available_size, (1 << 20) - 4096 - 0x10000);
    let second = space.alloc_new_segment(&mut env).unwrap().unwrap();
    assert_eq!(second.as_addr(), 0x10010);
    assert_eq!(env.env().commits.len(), 3);
}
