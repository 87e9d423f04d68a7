use sample_alloc::allocator::{init, Allocator, Config, SampleAllocWithEnv};
use sample_alloc::error::{AllocError, Violation};
use sample_alloc::internal::allocator::SampleAlloc;
use sample_alloc::internal::layout::arena::{plan_arena, Config as ArenaConfig};
use sample_alloc::internal::layout::block::Type;
use sample_alloc::internal::layout::segment::{block_count_of_class, SEGMENT_SIZE};
use sample_alloc::sys::ptr::AnyNonNullPtr;
use sample_alloc::sys::{EnvError, SysMemEnv, TracedEnv};

/// An environment that hands out page-aligned addresses from a counter and
/// keeps what it was asked.
struct FakeEnv {
    next: usize,
    page_size: usize,
    soft_decommits: Vec<usize>,
    force_commits: Vec<usize>,
    releases: Vec<(usize, usize)>,
    fail_commit: bool,
}

impl FakeEnv {
    fn new() -> Self {
        FakeEnv {
            next: 0x1000_0000,
            page_size: 4096,
            soft_decommits: Vec::new(),
            force_commits: Vec::new(),
            releases: Vec::new(),
            fail_commit: false,
        }
    }

    fn take(&mut self, len: usize) -> usize {
        let at = self.next;
        let pages = (len + self.page_size - 1) / self.page_size;
        self.next += (pages + 1) * self.page_size;
        at
    }
}

impl SysMemEnv for FakeEnv {
    fn get_pagesize(&mut self) -> Result<usize, EnvError> {
        Ok(self.page_size)
    }

    fn reserve(&mut self, len: usize) -> Result<AnyNonNullPtr, EnvError> {
        Ok(AnyNonNullPtr::new(self.take(len)))
    }

    fn alloc_space(&mut self, len: usize) -> Result<AnyNonNullPtr, EnvError> {
        Ok(AnyNonNullPtr::new(self.take(len)))
    }

    fn commit(&mut self, _addr: AnyNonNullPtr, _len: usize) -> Result<(), EnvError> {
        if self.fail_commit {
            Err(EnvError { code: 12 })
        } else {
            Ok(())
        }
    }

    fn force_commit(&mut self, addr: AnyNonNullPtr, _len: usize) -> Result<(), EnvError> {
        self.force_commits.push(addr.as_addr());
        Ok(())
    }

    fn soft_decommit(&mut self, addr: AnyNonNullPtr, _len: usize) -> Result<(), EnvError> {
        self.soft_decommits.push(addr.as_addr());
        Ok(())
    }

    fn hard_decommit(&mut self, _addr: AnyNonNullPtr, _len: usize) -> Result<(), EnvError> {
        Ok(())
    }

    fn release(&mut self, addr: AnyNonNullPtr, len: usize) -> Result<(), EnvError> {
        self.releases.push((addr.as_addr(), len));
        Ok(())
    }
}

/// The allocator that `init` makes, or the error alone.
fn make(env: FakeEnv, config: Config) -> Result<SampleAllocWithEnv<FakeEnv>, AllocError> {
    init(env, config).map_err(|failure| failure.error)
}

const MIN_HEAP: usize = 1 << 18;
const MAX_HEAP: usize = 500 << 20;

fn header_addr_of(manager: &SampleAlloc, block: AnyNonNullPtr) -> usize {
    let space = &manager.arena.header.segment_space;
    let index = (block.as_addr() - space.segment_space_begin.as_addr()) / SEGMENT_SIZE;
    space.segment_compact_header_space.as_addr() + 16 * index
}

fn keep_list_len(manager: &SampleAlloc) -> usize {
    let keep = &manager.arena.header.keep_segments;
    keep.keep_segments_count - keep.should_keep_count
}

#[test]
fn tiny_churn() {
    let mut allocator = make(FakeEnv::new(), Config { min_heap_size: MIN_HEAP, max_heap_size: MAX_HEAP })
        .unwrap();
    assert_eq!(keep_list_len(allocator.as_internal()), 4);
    let p1 = allocator.alloc_block(8).unwrap();
    let p2 = allocator.alloc_block(8).unwrap();
    assert_eq!(p2.as_addr() - p1.as_addr(), 8);
    allocator.free(p1).unwrap();
    let p3 = allocator.alloc_block(8).unwrap();
    assert_eq!(p3, p1);
    let seg = header_addr_of(allocator.as_internal(), p1);
    assert_eq!(keep_list_len(allocator.as_internal()), 3);
    allocator.free(p2).unwrap();
    allocator.free(p3).unwrap();
    let manager = allocator.as_internal();
    assert_eq!(keep_list_len(manager), 4);
    assert_eq!(manager.arena.header.keep_segments.begin, seg);
    assert!(!manager.arena.segment(AnyNonNullPtr::new(seg)).is_soft_decommitted());
    assert!(allocator.env().soft_decommits.is_empty());
}

#[test]
fn class_boundary() {
    let mut allocator = make(FakeEnv::new(), Config { min_heap_size: MIN_HEAP, max_heap_size: MAX_HEAP })
        .unwrap();
    let p16 = allocator.alloc_block(16).unwrap();
    let p17 = allocator.alloc_block(17).unwrap();
    let manager = allocator.as_internal();
    let seg16 = header_addr_of(manager, p16);
    let seg17 = header_addr_of(manager, p17);
    assert_ne!(seg16, seg17);
    assert_eq!(manager.arena.segment(AnyNonNullPtr::new(seg16)).subheap_class(), 1);
    assert_eq!(manager.arena.segment(AnyNonNullPtr::new(seg16)).block_size(), 16);
    assert_eq!(manager.arena.segment(AnyNonNullPtr::new(seg17)).subheap_class(), 2);
    assert_eq!(manager.arena.segment(AnyNonNullPtr::new(seg17)).block_size(), 24);
    assert_eq!(manager.arena.subheap(1).next_free_segment(), Some(AnyNonNullPtr::new(seg16)));
    assert_eq!(manager.arena.subheap(2).next_free_segment(), Some(AnyNonNullPtr::new(seg17)));
    assert_eq!(manager.arena.subheap(0).next_free_segment(), None);
}

#[test]
fn segment_fill() {
    let mut allocator = make(FakeEnv::new(), Config { min_heap_size: MIN_HEAP, max_heap_size: MAX_HEAP })
        .unwrap();
    let count = block_count_of_class(0);
    let mut blocks = Vec::new();
    for _ in 0..count {
        blocks.push(allocator.alloc_block(8).unwrap());
    }
    for at in 1..count {
        assert_eq!(blocks[at].as_addr() - blocks[at - 1].as_addr(), 8);
    }
    let seg = header_addr_of(allocator.as_internal(), blocks[0]);
    assert_eq!(header_addr_of(allocator.as_internal(), blocks[count - 1]), seg);
    assert_eq!(allocator.as_internal().arena.subheap(0).next_free_segment(), None);
    assert!(allocator.as_internal().arena.segment(AnyNonNullPtr::new(seg)).is_floated());
    allocator.free(blocks[100]).unwrap();
    assert_eq!(
        allocator.as_internal().arena.subheap(0).next_free_segment(),
        Some(AnyNonNullPtr::new(seg))
    );
    assert_eq!(allocator.alloc_block(8).unwrap(), blocks[100]);
}

#[test]
fn large_block_fallback() {
    let mut allocator = make(FakeEnv::new(), Config { min_heap_size: MIN_HEAP, max_heap_size: MAX_HEAP })
        .unwrap();
    let before = allocator.as_internal().arena.header.segment_space.available_size;
    let p = allocator.alloc_block(1 << 18).unwrap();
    assert_eq!(allocator.as_internal().arena.block_type(p), Type::FreeSize);
    assert_eq!(
        allocator.as_internal().arena.header.segment_space.available_size,
        before - ((1 << 18) + 4096)
    );
    allocator.free(p).unwrap();
    assert_eq!(allocator.as_internal().arena.header.segment_space.available_size, before);
    assert_eq!(allocator.env().releases.last(), Some(&(p.as_addr() - 8, (1 << 18) + 4096)));
    assert_eq!(
        allocator.free(p),
        Err(AllocError::PreconditionViolated(Violation::UnownedPointer))
    );
}

#[test]
fn one_above_the_largest_class_is_a_large_block() {
    let mut allocator = make(FakeEnv::new(), Config { min_heap_size: MIN_HEAP, max_heap_size: MAX_HEAP })
        .unwrap();
    let inside = allocator.alloc_block(0x800 * 8).unwrap();
    let above = allocator.alloc_block(0x800 * 8 + 1).unwrap();
    assert_eq!(allocator.as_internal().arena.block_type(inside), Type::OnSubHeap);
    assert_eq!(allocator.as_internal().arena.block_type(above), Type::FreeSize);
    let seg = header_addr_of(allocator.as_internal(), inside);
    assert_eq!(allocator.as_internal().arena.segment(AnyNonNullPtr::new(seg)).subheap_class(), 31);
}

#[test]
fn keep_list_overflow() {
    let mut env = TracedEnv::new(FakeEnv::new());
    let mut manager = SampleAlloc::init(
        &mut env,
        ArenaConfig { min_heap_size: 1, max_heap_size: MAX_HEAP, keep_segments_count: 2 },
    )
    .unwrap();
    let count = block_count_of_class(0);
    let mut blocks = Vec::new();
    for _ in 0..3 * count {
        blocks.push(manager.alloc_with_env(&mut env, 8).unwrap());
    }
    assert_eq!(manager.arena.header.segment_space.segments.len(), 3);
    let highest = header_addr_of(&manager, blocks[3 * count - 1]);
    let highest_body = manager.arena.segment(AnyNonNullPtr::new(highest)).seg_ptr().as_addr();
    for block in &blocks {
        manager.free_with_env(&mut env, *block).unwrap();
    }
    assert_eq!(env.env().soft_decommits, vec![highest_body]);
    assert_eq!(keep_list_len(&manager), 2);
    assert_eq!(manager.arena.header.keep_segments.should_keep_count, 0);
    assert!(manager.arena.segment(AnyNonNullPtr::new(highest)).is_soft_decommitted());
    assert_eq!(manager.arena.header.free_segments_begin, highest);
    assert_eq!(manager.arena.header.keep_segments.begin, header_addr_of(&manager, blocks[0]));
    assert_eq!(manager.arena.header.keep_segments.end, header_addr_of(&manager, blocks[count]));
    // the two kept segments serve first, then the decommitted one comes back
    for _ in 0..2 * count {
        manager.alloc_with_env(&mut env, 8).unwrap();
    }
    assert!(env.env().force_commits.is_empty());
    let again = manager.alloc_with_env(&mut env, 8).unwrap();
    assert_eq!(again, blocks[2 * count]);
    assert_eq!(env.env().force_commits, vec![highest_body]);
    assert_eq!(manager.arena.header.segment_space.segments.len(), 3);
}

#[test]
fn out_of_heap() {
    let mut allocator = make(
        FakeEnv::new(),
        Config { min_heap_size: MIN_HEAP, max_heap_size: MIN_HEAP + SEGMENT_SIZE },
    )
    .unwrap();
    let count = block_count_of_class(0);
    let mut blocks = Vec::new();
    loop {
        match allocator.alloc_block(8) {
            Ok(p) => blocks.push(p),
            Err(e) => {
                assert_eq!(e, AllocError::OutOfHeap);
                break;
            }
        }
    }
    assert_eq!(blocks.len(), 4 * count);
    assert_eq!(allocator.alloc_block(1 << 18), Err(AllocError::OutOfHeap));
    allocator.free(blocks[17]).unwrap();
    assert_eq!(allocator.alloc_block(8), Ok(blocks[17]));
    assert_eq!(allocator.alloc_block(8), Err(AllocError::OutOfHeap));
}

#[test]
fn balanced_pairs_restore_the_budget() {
    let mut allocator = make(FakeEnv::new(), Config { min_heap_size: MIN_HEAP, max_heap_size: MAX_HEAP })
        .unwrap();
    let before = allocator.as_internal().arena.header.segment_space.available_size;
    for size in [8usize, 24, 100, 4000, 16384, 16385, 1 << 20] {
        let p = allocator.alloc_block(size).unwrap();
        let q = allocator.alloc_block(size).unwrap();
        assert_ne!(p, q);
        allocator.free(p).unwrap();
        allocator.free(q).unwrap();
    }
    assert_eq!(allocator.as_internal().arena.header.segment_space.available_size, before);
    assert_eq!(keep_list_len(allocator.as_internal()), 4);
}

#[test]
fn budget_is_what_is_not_committed() {
    let mut allocator = make(FakeEnv::new(), Config { min_heap_size: MIN_HEAP, max_heap_size: MAX_HEAP })
        .unwrap();
    let header = &allocator.as_internal().arena.header;
    assert_eq!(header.segment_space.available_size, MAX_HEAP - 4096 - 4 * SEGMENT_SIZE);
    let p = allocator.alloc_block(100_000).unwrap();
    let header = &allocator.as_internal().arena.header;
    assert_eq!(
        header.segment_space.available_size,
        MAX_HEAP - 4096 - 4 * SEGMENT_SIZE - 102_400
    );
    allocator.free(p).unwrap();
}

#[test]
fn rejected_requests() {
    let mut allocator = make(FakeEnv::new(), Config { min_heap_size: MIN_HEAP, max_heap_size: MAX_HEAP })
        .unwrap();
    let empty = allocator.alloc_block(0).unwrap();
    assert_eq!(allocator.as_internal().arena.block_type(empty), Type::OnSubHeap);
    allocator.free(empty).unwrap();
    assert_eq!(allocator.alloc_block(usize::MAX), Err(AllocError::OutOfHeap));
    let p = allocator.alloc_block(8).unwrap();
    assert_eq!(
        allocator.free(AnyNonNullPtr::new(p.as_addr() + 8)),
        Err(AllocError::PreconditionViolated(Violation::UnownedPointer))
    );
    assert_eq!(
        allocator.free(AnyNonNullPtr::new(p.as_addr() + 4)),
        Err(AllocError::PreconditionViolated(Violation::UnownedPointer))
    );
    assert_eq!(
        allocator.free(AnyNonNullPtr::new(64)),
        Err(AllocError::PreconditionViolated(Violation::UnownedPointer))
    );
    allocator.free(p).unwrap();
    assert_eq!(
        allocator.free(p),
        Err(AllocError::PreconditionViolated(Violation::UnownedPointer))
    );
}

#[test]
fn init_rejects_what_cannot_work() {
    let bad_sizes = make(FakeEnv::new(), Config { min_heap_size: 10, max_heap_size: 10 });
    assert!(matches!(bad_sizes, Err(AllocError::PreconditionViolated(Violation::HeapSizes))));
    let mut env = FakeEnv::new();
    env.page_size = 3000;
    let bad_page = make(env, Config { min_heap_size: MIN_HEAP, max_heap_size: MAX_HEAP });
    assert!(matches!(bad_page, Err(AllocError::PreconditionViolated(Violation::PageSize))));
    let mut env = FakeEnv::new();
    env.fail_commit = true;
    let refused = make(env, Config { min_heap_size: MIN_HEAP, max_heap_size: MAX_HEAP });
    assert!(matches!(refused, Err(AllocError::EnvFailure(EnvError { code: 12 }))));
    let too_small = make(FakeEnv::new(), Config { min_heap_size: MIN_HEAP, max_heap_size: MIN_HEAP + 1 });
    assert!(matches!(too_small, Err(AllocError::OutOfHeap)));
}

#[test]
fn plan_arena_on_four_kilobyte_pages() {
    let config = ArenaConfig { min_heap_size: MIN_HEAP, max_heap_size: MAX_HEAP, keep_segments_count: 16 };
    let layout = plan_arena(&config, 4096).unwrap();
    assert_eq!(layout.committed_context_space_size, 4096);
    assert_eq!(layout.init_available_size, MAX_HEAP - 4096);
    assert_eq!(layout.max_segment_count, 7999);
    assert_eq!(layout.segment_space_size, 7999 * SEGMENT_SIZE);
    assert_eq!(layout.context_space_size, 32 * 4096);
    assert_eq!(layout.committed_segment_compact_header_count, 218);
    assert_eq!(plan_arena(&config, 0), Err(Violation::PageSize));
    assert_eq!(plan_arena(&config, 24), Err(Violation::PageSize));
}

#[test]
fn blocks_stand_on_block_boundaries() {
    let mut allocator = make(FakeEnv::new(), Config { min_heap_size: MIN_HEAP, max_heap_size: MAX_HEAP })
        .unwrap();
    for size in [1usize, 8, 9, 24, 129, 1024, 1153, 4097, 16384] {
        let first = allocator.alloc_block(size).unwrap();
        let second = allocator.alloc_block(size).unwrap();
        let manager = allocator.as_internal();
        let space = &manager.arena.header.segment_space;
        for block in [first, second] {
            assert_eq!(manager.arena.block_type(block), Type::OnSubHeap);
            let (seg_ptr, index) = space.find_used_block(block).unwrap();
            let seg = manager.arena.segment(seg_ptr);
            assert!(seg.block_size() >= size);
            let begin = seg.block_space_begin().as_addr();
            assert!(begin > seg.seg_ptr().as_addr());
            assert_eq!(block.as_addr(), begin + index * seg.block_size());
            assert!(block.as_addr() + seg.block_size() <= seg.seg_ptr().as_addr() + SEGMENT_SIZE);
            assert_eq!(seg.seg_ptr().as_addr() % SEGMENT_SIZE, 0);
        }
        assert_eq!(second.as_addr() - first.as_addr(), allocator.as_internal().arena.segment(
            space_header(allocator.as_internal(), first)).block_size());
    }
    let large = allocator.alloc_block(16385).unwrap();
    assert_eq!(allocator.as_internal().arena.block_type(large), Type::FreeSize);
    assert_eq!(allocator.as_internal().arena.header.segment_space.find_used_block(large), None);
}

fn space_header(manager: &SampleAlloc, block: AnyNonNullPtr) -> AnyNonNullPtr {
    AnyNonNullPtr::new(header_addr_of(manager, block))
}

#[test]
fn init_hands_the_environment_back() {
    let mut env = FakeEnv::new();
    env.fail_commit = true;
    match init(env, Config { min_heap_size: MIN_HEAP, max_heap_size: MAX_HEAP }) {
        Ok(_) => panic!("the commit of the context space was refused"),
        Err(failure) => {
            assert_eq!(failure.error, AllocError::EnvFailure(EnvError { code: 12 }));
            assert!(failure.env.into_inner().fail_commit);
        }
    }
}
