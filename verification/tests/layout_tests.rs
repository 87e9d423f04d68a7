use sample_alloc::error::{AllocError, Violation};
use sample_alloc::internal::allocator::SampleAlloc;
use sample_alloc::internal::layout::arena::keep_segments_list::KeepSegmentsList;
use sample_alloc::internal::chunk;
use sample_alloc::internal::layout::arena::{
    new_header, plan_arena, precommit, usable_context_space, Arena, Config,
};
use sample_alloc::internal::layout::bitmap::{
    low_bits, lowest_clear_bit, lowest_set_bit, padding_word, test_bit, with_bit_cleared,
    with_bit_set, FULL_WORD,
};
use sample_alloc::internal::layout::block::{HeaderForFreeSize, Type};
use sample_alloc::internal::layout::segment::{
    block_count_of_class, sub_bitmap_size_of_class, Segment, SEGMENT_SIZE,
};
use sample_alloc::internal::layout::segment_space::SegmentSpace;
use sample_alloc::internal::layout::subheap::{class_of_size, size_of_class, SubHeap, CLASS_COUNT};
use sample_alloc::sys::linux::{CommitStrategy, HardDecommitStrategy, SoftDecommitStrategy};
use sample_alloc::sys::ptr::AnyNonNullPtr;
use sample_alloc::sys::{
    align_reservation, new_env, EnvError, ReserveError, SysMemEnv, TracedEnv,
};

/// An environment that answers from a script: addresses in order, and a
/// failure for the requests that are switched off.
struct ScriptedEnv {
    next: usize,
    step: usize,
    fail_commit_after: Option<usize>,
    commits: usize,
    fail_force_commit: bool,
    fail_soft_decommit: bool,
    fail_release: bool,
    fail_alloc_space: bool,
    alloc_space_at: Option<usize>,
    releases: Vec<(usize, usize)>,
    soft_decommits: Vec<usize>,
}

impl ScriptedEnv {
    fn new(next: usize) -> Self {
        ScriptedEnv {
            next,
            step: 0x100_0000,
            fail_commit_after: None,
            commits: 0,
            fail_force_commit: false,
            fail_soft_decommit: false,
            fail_release: false,
            fail_alloc_space: false,
            alloc_space_at: None,
            releases: Vec::new(),
            soft_decommits: Vec::new(),
        }
    }

    fn take(&mut self, len: usize) -> usize {
        let at = self.next;
        self.next += ((len + self.step) / self.step) * self.step;
        at
    }
}

impl SysMemEnv for ScriptedEnv {
    fn get_pagesize(&mut self) -> Result<usize, EnvError> {
        Ok(4096)
    }

    fn reserve(&mut self, len: usize) -> Result<AnyNonNullPtr, EnvError> {
        Ok(AnyNonNullPtr::new(self.take(len)))
    }

    fn alloc_space(&mut self, len: usize) -> Result<AnyNonNullPtr, EnvError> {
        if self.fail_alloc_space {
            return Err(EnvError { code: 12 });
        }
        match self.alloc_space_at {
            Some(at) => Ok(AnyNonNullPtr { raw: at }),
            None => Ok(AnyNonNullPtr::new(self.take(len))),
        }
    }

    fn commit(&mut self, _addr: AnyNonNullPtr, _len: usize) -> Result<(), EnvError> {
        self.commits += 1;
        match self.fail_commit_after {
            Some(limit) if self.commits > limit => Err(EnvError { code: 12 }),
            _ => Ok(()),
        }
    }

    fn force_commit(&mut self, _addr: AnyNonNullPtr, _len: usize) -> Result<(), EnvError> {
        if self.fail_force_commit {
            Err(EnvError { code: 13 })
        } else {
            Ok(())
        }
    }

    fn soft_decommit(&mut self, addr: AnyNonNullPtr, _len: usize) -> Result<(), EnvError> {
        self.soft_decommits.push(addr.as_addr());
        if self.fail_soft_decommit {
            Err(EnvError { code: 22 })
        } else {
            Ok(())
        }
    }

    fn hard_decommit(&mut self, _addr: AnyNonNullPtr, _len: usize) -> Result<(), EnvError> {
        Ok(())
    }

    fn release(&mut self, addr: AnyNonNullPtr, len: usize) -> Result<(), EnvError> {
        self.releases.push((addr.as_addr(), len));
        if self.fail_release {
            Err(EnvError { code: 22 })
        } else {
            Ok(())
        }
    }
}

fn arena_config(keep_segments_count: usize) -> Config {
    Config { min_heap_size: 1, max_heap_size: 64 << 20, keep_segments_count }
}

/// Walks every list of the arena and holds it against what the headers of
/// the segments say.
fn check_invariants(manager: &SampleAlloc) {
    let header = &manager.arena.header;
    let space = &header.segment_space;
    let mut owned = vec![0usize; space.segments.len()];
    for class in 0..CLASS_COUNT {
        let subheap = manager.arena.subheap(class);
        let mut at = subheap.free_segments_begin;
        let mut before = 0;
        let mut first = true;
        while at != 0 {
            let seg = space.segment(AnyNonNullPtr::new(at));
            assert_eq!(seg.subheap_class(), class);
            assert!(seg.used_block_count() < block_count_of_class(class));
            if first {
                assert!(seg.find_free_block().is_some());
                first = false;
            }
            assert!(!seg.is_soft_decommitted());
            assert!(seg.is_committed());
            assert_eq!(seg.prev(), before);
            owned[space.segment_index(AnyNonNullPtr::new(at))] += 1;
            before = at;
            at = seg.next();
        }
        assert_eq!(subheap.free_segments_end, before);
    }
    let keep = &header.keep_segments;
    let mut kept = 0;
    let mut at = keep.begin;
    let mut before = 0;
    while at != 0 {
        let seg = space.segment(AnyNonNullPtr::new(at));
        assert!(before < at);
        assert_eq!(seg.used_block_count(), 0);
        assert!(!seg.is_soft_decommitted());
        assert_eq!(seg.prev(), before);
        owned[space.segment_index(AnyNonNullPtr::new(at))] += 1;
        kept += 1;
        before = at;
        at = seg.next();
    }
    assert_eq!(keep.end, before);
    assert_eq!(kept + keep.should_keep_count, keep.keep_segments_count);
    let mut at = header.free_segments_begin;
    while at != 0 {
        let seg = space.segment(AnyNonNullPtr::new(at));
        assert!(seg.is_soft_decommitted());
        owned[space.segment_index(AnyNonNullPtr::new(at))] += 1;
        at = seg.next();
    }
    for (index, seg) in space.segments.iter().enumerate() {
        assert!(owned[index] <= 1);
        if owned[index] == 0 {
            assert_eq!(seg.used_block_count(), block_count_of_class(seg.subheap_class()));
            assert!(seg.is_floated());
        }
    }
    let large: usize = header.free_size_blocks.iter().map(|block| 8 + block.header.block_size()).sum();
    let table = 16 * (space.next_alloc_segment_compact_header_index - header.first_compact_header_count);
    let bodies = SEGMENT_SIZE * space.next_alloc_segment_index;
    assert_eq!(
        space.available_size,
        header.max_heap_size - (header.committed_context_space_size + table + bodies + large)
    );
    assert!(space.next_alloc_segment_index <= space.next_alloc_segment_compact_header_index);
}

#[test]
fn pointer_arithmetic() {
    let p = AnyNonNullPtr::new(0x1000);
    assert_eq!(p.as_addr(), 0x1000);
    assert_eq!(p.add(24).as_addr(), 0x1018);
    assert_eq!(p.sub(0x10).as_addr(), 0xff0);
    assert_eq!(p.add(24).offset_bytes_from(p), 24);
    assert_eq!(p.offset_bytes_from(p.add(24)), -24);
    assert!(AnyNonNullPtr::new(8) < AnyNonNullPtr::new(16));
}

#[test]
fn large_block_header_masks_the_flags() {
    assert_eq!(HeaderForFreeSize::init(4088).block_size(), 4088);
    assert_eq!(HeaderForFreeSize { block_size_with_flags: 4091 }.block_size(), 4088);
}

#[test]
fn bitmap_words() {
    assert!(test_bit(0b100, 2));
    assert!(!test_bit(0b100, 1));
    assert_eq!(with_bit_set(0b100, 0), 0b101);
    assert_eq!(with_bit_cleared(0b101, 2), 0b001);
    assert_eq!(lowest_clear_bit(0b1011), Some(2));
    assert_eq!(lowest_clear_bit(FULL_WORD), None);
    assert_eq!(lowest_set_bit(0b1000), Some(3));
    assert_eq!(lowest_set_bit(0), None);
    assert_eq!(low_bits(3), 0b111);
    assert_eq!(low_bits(0), 0);
    assert_eq!(padding_word(63), 1);
    assert_eq!(padding_word(0), FULL_WORD);
    assert_eq!(padding_word(2), FULL_WORD & !0b110);
}

#[test]
fn class_table_round_trips() {
    let units = [
        1usize, 2, 3, 4, 6, 8, 10, 12, 14, 16, 0x20, 0x30, 0x40, 0x50, 0x60, 0x70, 0x80, 0x90, 0xa0,
        0xb0, 0xc0, 0xd0, 0xe0, 0xf0, 0x100, 0x200, 0x300, 0x400, 0x500, 0x600, 0x700, 0x800,
    ];
    for class in 0..CLASS_COUNT {
        assert_eq!(size_of_class(class), units[class] * 8);
        assert_eq!(class_of_size(size_of_class(class)), Some(class));
        if class + 1 < CLASS_COUNT {
            assert_eq!(class_of_size(size_of_class(class) + 8), Some(class + 1));
        } else {
            assert_eq!(class_of_size(size_of_class(class) + 8), None);
        }
    }
}

#[test]
fn layout_of_classes() {
    assert_eq!(sub_bitmap_size_of_class(0), 3);
    assert_eq!(block_count_of_class(0), 8000);
    assert_eq!(sub_bitmap_size_of_class(1), 2);
    assert_eq!(block_count_of_class(1), 4031);
    assert_eq!(sub_bitmap_size_of_class(16), 1);
    assert_eq!(block_count_of_class(16), 63);
    assert_eq!(sub_bitmap_size_of_class(17), 0);
    assert_eq!(block_count_of_class(17), 56);
    assert_eq!(block_count_of_class(31), 3);
}

#[test]
fn links_keep_the_flags() {
    let mut seg = Segment::new(AnyNonNullPtr::new(0x1000), AnyNonNullPtr::new(0x10000));
    assert!(seg.is_floated());
    assert!(!seg.is_committed());
    seg.set_committed();
    seg.set_next(0x2000);
    assert_eq!(seg.next(), 0x2000);
    assert!(seg.is_committed());
    assert!(!seg.is_soft_decommitted());
    assert!(!seg.is_floated());
    seg.set_soft_decommitted();
    assert_eq!(seg.next(), 0x2000);
    assert!(seg.is_soft_decommitted());
    seg.set_force_committed();
    assert!(!seg.is_soft_decommitted());
    assert!(seg.is_committed());
    seg.set_next(0);
    seg.set_prev(0x3000);
    assert_eq!(seg.prev(), 0x3000);
    assert!(!seg.is_floated());
    seg.set_prev(0);
    assert!(seg.is_floated());
    let mut after = Segment::new(AnyNonNullPtr::new(0x1010), AnyNonNullPtr::new(0x20000));
    seg.append(&mut after);
    assert_eq!(seg.next(), 0x1010);
    assert_eq!(after.prev(), 0x1000);
    assert!(seg.is_committed());
}

#[test]
fn segment_without_sub_bitmap() {
    let mut seg = Segment::new(AnyNonNullPtr::new(0x1000), AnyNonNullPtr::new(0x10000));
    seg.init_single(17);
    assert_eq!(seg.subheap_class(), 17);
    assert_eq!(seg.block_size(), 1152);
    assert_eq!(seg.block_ptr(0).as_addr(), 0x10000 + 24);
    assert_eq!(seg.block_ptr(2).as_addr(), 0x10000 + 24 + 2 * 1152);
    for expected in 0..56 {
        assert_eq!(seg.find_free_block(), Some(expected));
        assert_eq!(seg.mark_block_and_check_full(expected), expected == 55);
    }
    assert_eq!(seg.find_free_block(), None);
    assert!(!seg.free_block_and_check_empty(55));
    assert!(!seg.free_block_and_check_empty(3));
    assert_eq!(seg.find_free_block(), Some(3));
    assert!(seg.is_block_used(4));
    assert!(!seg.is_block_used(55));
    for index in 0..55 {
        if index != 3 {
            assert_eq!(seg.free_block_and_check_empty(index), index == 54);
        }
    }
    assert_eq!(seg.used_block_count(), 0);
}

#[test]
fn segment_with_one_sub_bitmap() {
    let mut seg = Segment::new(AnyNonNullPtr::new(0x1000), AnyNonNullPtr::new(0x10000));
    seg.init_single(2);
    assert_eq!(seg.block_ptr(0).as_addr(), 0x10000 + 24 + 504);
    let count = block_count_of_class(2);
    for index in (0..count).rev() {
        assert_eq!(seg.find_free_block(), Some(0));
        if index != 0 {
            assert!(!seg.mark_block_and_check_full(index));
        }
    }
    assert!(seg.mark_block_and_check_full(0));
    assert_eq!(seg.find_free_block(), None);
    assert!(!seg.free_block_and_check_empty(2000));
    assert!(!seg.free_block_and_check_empty(70));
    assert_eq!(seg.find_free_block(), Some(70));
    assert!(!seg.mark_block_and_check_full(70));
    assert_eq!(seg.find_free_block(), Some(2000));
    seg.init_single(2);
    assert_eq!(seg.used_block_count(), 0);
    assert_eq!(seg.find_free_block(), Some(0));
}

#[test]
fn reserve_aligned_space_trims_both_ends() {
    let mut env = TracedEnv::new(ScriptedEnv::new(0x1000_3000));
    let p = env.reserve_aligned_space(4 * SEGMENT_SIZE, SEGMENT_SIZE).unwrap();
    assert_eq!(p.as_addr(), 0x1001_0000);
    assert_eq!(
        env.env().releases,
        vec![(0x1000_3000, 0xd000), (0x1001_0000 + 4 * SEGMENT_SIZE, 0x3000)]
    );
    let mut env = TracedEnv::new(ScriptedEnv::new(0x2000_0000));
    let p = env.reserve_aligned_space(SEGMENT_SIZE, SEGMENT_SIZE).unwrap();
    assert_eq!(p.as_addr(), 0x2000_0000);
    assert_eq!(env.env().releases, vec![(0x2000_0000 + SEGMENT_SIZE, SEGMENT_SIZE)]);
    let mut failing = ScriptedEnv::new(0x2000_0000);
    failing.fail_release = true;
    let mut env = TracedEnv::new(failing);
    assert_eq!(
        env.reserve_aligned_space(SEGMENT_SIZE, SEGMENT_SIZE),
        Err(ReserveError::Env(EnvError { code: 22 }))
    );
    let mut env = TracedEnv::new(ScriptedEnv::new(usize::MAX - 0x1000));
    assert_eq!(
        env.reserve_aligned_space(SEGMENT_SIZE, SEGMENT_SIZE),
        Err(ReserveError::OutOfRange)
    );
    assert_eq!(env.into_inner().releases, vec![]);
}

#[test]
fn strategies_fall_back_in_order() {
    assert_eq!(CommitStrategy::MprotectRw.fallback(), Some(CommitStrategy::MmapFixedProtRw));
    assert_eq!(CommitStrategy::MmapFixedProtRw.fallback(), None);
    assert_eq!(
        SoftDecommitStrategy::MadviseFree.fallback(),
        Some(SoftDecommitStrategy::MadviseDontNeed)
    );
    assert_eq!(
        SoftDecommitStrategy::MadviseDontNeed.fallback(),
        Some(SoftDecommitStrategy::MmapFixedRemap)
    );
    assert_eq!(SoftDecommitStrategy::MmapFixedRemap.fallback(), None);
    assert_eq!(
        HardDecommitStrategy::MprotectNone.fallback(),
        Some(HardDecommitStrategy::MmapFixedProtNone)
    );
    assert_eq!(HardDecommitStrategy::MmapFixedProtNone.fallback(), None);
    let env = new_env();
    assert_eq!(env.prefer_commit_strategy, CommitStrategy::MprotectRw);
    assert_eq!(env.prefer_soft_decommit_strategy, SoftDecommitStrategy::MadviseFree);
    assert_eq!(env.prefer_hard_decommit_strategy, HardDecommitStrategy::MprotectNone);
}

fn space_of(env: &mut TracedEnv<ScriptedEnv>, count: usize) -> (SegmentSpace, Vec<AnyNonNullPtr>) {
    let mut space = SegmentSpace::new(
        4096,
        AnyNonNullPtr::new(0x10000),
        AnyNonNullPtr::new(0x100000),
        AnyNonNullPtr::new(0x100000 + 16 * SEGMENT_SIZE),
        64 << 20,
        0,
        0,
    );
    let mut segs = Vec::new();
    for _ in 0..count {
        segs.push(space.alloc_new_segment(env).unwrap().unwrap());
    }
    (space, segs)
}

fn keep_list_of(space: &SegmentSpace, keep: &KeepSegmentsList) -> Vec<usize> {
    let mut list = Vec::new();
    let mut at = keep.begin;
    while at != 0 {
        list.push(space.segment_index(AnyNonNullPtr::new(at)));
        at = space.segment(AnyNonNullPtr::new(at)).next();
    }
    list
}

#[test]
fn keep_list_is_ordered_and_bounded() {
    let mut env = TracedEnv::new(ScriptedEnv::new(0x1000_0000));
    let (mut space, segs) = space_of(&mut env, 6);
    let mut keep = KeepSegmentsList::new(4);
    assert_eq!(keep.pop(&mut space), None);
    assert_eq!(keep.insert_and_return_flooded(&mut space, segs[2]), None);
    assert_eq!(keep.insert_and_return_flooded(&mut space, segs[4]), None);
    assert_eq!(keep.insert_and_return_flooded(&mut space, segs[3]), None);
    assert_eq!(keep.insert_and_return_flooded(&mut space, segs[0]), None);
    assert_eq!(keep_list_of(&space, &keep), vec![0, 2, 3, 4]);
    assert_eq!(keep.should_keep_count, 0);
    // the list is full: the highest address leaves
    assert_eq!(keep.insert_and_return_flooded(&mut space, segs[1]), Some(segs[4]));
    assert_eq!(keep_list_of(&space, &keep), vec![0, 1, 2, 3]);
    assert!(space.segment(segs[4]).is_floated());
    // the new segment is the highest itself: it comes back unchanged
    assert_eq!(keep.insert_and_return_flooded(&mut space, segs[5]), Some(segs[5]));
    assert_eq!(keep_list_of(&space, &keep), vec![0, 1, 2, 3]);
    assert_eq!(keep.end, segs[3].as_addr());
    assert_eq!(keep.pop(&mut space), Some(segs[0]));
    assert_eq!(keep.should_keep_count, 1);
    assert_eq!(keep.pop(&mut space), Some(segs[1]));
    assert_eq!(keep_list_of(&space, &keep), vec![2, 3]);
    assert_eq!(keep.begin, segs[2].as_addr());
    assert_eq!(space.segment(segs[2]).prev(), 0);
    let mut none = KeepSegmentsList::new(0);
    assert_eq!(none.insert_and_return_flooded(&mut space, segs[0]), Some(segs[0]));
    assert_eq!(none.begin, 0);
}

#[test]
fn segment_space_finds_blocks() {
    let mut env = TracedEnv::new(ScriptedEnv::new(0x1000_0000));
    let (mut space, segs) = space_of(&mut env, 2);
    assert!(space.ptr_in_space(AnyNonNullPtr::new(0x100000)));
    assert!(!space.ptr_in_space(AnyNonNullPtr::new(0x100000 + 16 * SEGMENT_SIZE)));
    assert!(!space.ptr_in_space(AnyNonNullPtr::new(0xfffff)));
    assert!(space.is_last_segment(segs[1]));
    assert!(!space.is_last_segment(segs[0]));
    assert_eq!(space.max_segment_count(), 16);
    space.segments[1].init_single(3);
    space.segments[1].mark_block_and_check_full(5);
    let block = space.segments[1].block_ptr(5);
    assert_eq!(block.as_addr(), 0x100000 + SEGMENT_SIZE + 24 + 504 + 5 * 32);
    assert_eq!(Segment::from_block_ptr(&space, block), (segs[1], 5));
    assert_eq!(Segment::from_block_ptr(&space, block.add(31)), (segs[1], 5));
    assert_eq!(Segment::from_block_ptr(&space, block.add(32)), (segs[1], 6));
    assert_eq!(space.find_used_block(block), Some((segs[1], 5)));
    assert_eq!(space.find_used_block(block.add(32)), None);
    assert_eq!(space.find_used_block(block.add(8)), None);
    assert_eq!(space.find_used_block(AnyNonNullPtr::new(0x100000 + 600)), None);
    assert_eq!(space.find_used_block(AnyNonNullPtr::new(0x100000 + SEGMENT_SIZE + 8)), None);
    assert_eq!(space.find_used_block(AnyNonNullPtr::new(0x100000 + 5 * SEGMENT_SIZE + 600)), None);
}

#[test]
fn segment_space_budget_and_range() {
    let mut env = TracedEnv::new(ScriptedEnv::new(0x1000_0000));
    let mut space = SegmentSpace::new(
        4096,
        AnyNonNullPtr::new(0x10000),
        AnyNonNullPtr::new(0x100000),
        AnyNonNullPtr::new(0x100000 + 2 * SEGMENT_SIZE),
        SEGMENT_SIZE + 4096 + SEGMENT_SIZE - 1,
        0,
        0,
    );
    assert!(space.alloc_new_segment(&mut env).unwrap().is_some());
    assert_eq!(space.available_size, SEGMENT_SIZE - 1);
    // the budget does not cover one more body
    assert_eq!(space.alloc_new_segment(&mut env), Ok(None));
    space.available_size = 4 * SEGMENT_SIZE;
    assert!(space.alloc_new_segment(&mut env).unwrap().is_some());
    // the reserved range is used up
    assert_eq!(space.alloc_new_segment(&mut env), Ok(None));
    assert_eq!(space.available_size, 3 * SEGMENT_SIZE);
    let mut failing = ScriptedEnv::new(0x1000_0000);
    failing.fail_commit_after = Some(1);
    let mut env = TracedEnv::new(failing);
    let mut space = SegmentSpace::new(
        4096,
        AnyNonNullPtr::new(0x10000),
        AnyNonNullPtr::new(0x100000),
        AnyNonNullPtr::new(0x100000 + 2 * SEGMENT_SIZE),
        1 << 20,
        0,
        0,
    );
    // the page of compact headers is committed, the body is not
    assert_eq!(space.alloc_new_segment(&mut env), Err(EnvError { code: 12 }));
    assert_eq!(space.available_size, (1 << 20) - 4096);
    assert_eq!(space.next_alloc_segment_compact_header_index, 256);
    assert_eq!(space.next_alloc_segment_index, 0);
}

#[test]
fn subheap_takes_lower_addresses_first() {
    let mut env = TracedEnv::new(ScriptedEnv::new(0x1000_0000));
    let mut manager = SampleAlloc::init(&mut env, arena_config(1)).unwrap();
    assert_eq!(SubHeap::init().next_free_segment(), None);
    let count = block_count_of_class(31);
    assert_eq!(count, 3);
    let mut blocks = Vec::new();
    for _ in 0..3 * count {
        blocks.push(manager.alloc_with_env(&mut env, 16384).unwrap());
    }
    check_invariants(&manager);
    assert_eq!(manager.arena.subheap(31).next_free_segment(), None);
    let seg = |block: AnyNonNullPtr| {
        let space = &manager.arena.header.segment_space;
        space.segment_compact_header_space.as_addr()
            + 16 * ((block.as_addr() - space.segment_space_begin.as_addr()) / SEGMENT_SIZE)
    };
    let (first, second, third) = (seg(blocks[0]), seg(blocks[3]), seg(blocks[6]));
    assert!(first < second && second < third);
    // the middle segment comes back first, then the lower one before it,
    // then the higher one behind the last
    manager.free_with_env(&mut env, blocks[3]).unwrap();
    manager.free_with_env(&mut env, blocks[0]).unwrap();
    manager.free_with_env(&mut env, blocks[6]).unwrap();
    check_invariants(&manager);
    let subheap = manager.arena.subheap(31);
    assert_eq!(subheap.free_segments_begin, first);
    assert_eq!(subheap.free_segments_end, third);
    assert_eq!(manager.arena.segment(AnyNonNullPtr::new(first)).next(), second);
    assert_eq!(manager.arena.segment(AnyNonNullPtr::new(second)).next(), third);
    assert_eq!(manager.alloc_with_env(&mut env, 16384), Ok(blocks[0]));
    assert_eq!(manager.arena.subheap(31).free_segments_begin, second);
    check_invariants(&manager);
}

#[test]
fn invariants_hold_through_churn() {
    let mut env = TracedEnv::new(ScriptedEnv::new(0x1000_0000));
    let mut manager = SampleAlloc::init(
        &mut env,
        Config { min_heap_size: 3 * SEGMENT_SIZE, max_heap_size: 64 << 20, keep_segments_count: 2 },
    )
    .unwrap();
    check_invariants(&manager);
    // three segments were committed, and the keep-list has room for two
    assert_eq!(env.env().soft_decommits.len(), 1);
    let mut live: Vec<AnyNonNullPtr> = Vec::new();
    let mut seed: usize = 12345;
    for round in 0..4000 {
        seed = seed.wrapping_mul(6364136223846793005).wrapping_add(1442695040888963407);
        let pick = (seed >> 33) % 100;
        if pick < 60 || live.is_empty() {
            let size = match pick % 7 {
                0 => 8,
                1 => 40,
                2 => 1000,
                3 => 9000,
                4 => 16384,
                5 => 20000,
                _ => 1 + (seed >> 40) % 3000,
            };
            let p = manager.alloc_with_env(&mut env, size).unwrap();
            assert!(!live.contains(&p));
            assert_eq!(p.as_addr() % 8, 0);
            assert_eq!(manager.arena.block_type(p) == Type::FreeSize, size > 16384);
            live.push(p);
        } else {
            let at = (seed >> 20) % live.len();
            let p = live.swap_remove(at);
            manager.free_with_env(&mut env, p).unwrap();
        }
        if round % 97 == 0 {
            check_invariants(&manager);
        }
    }
    for p in live {
        manager.free_with_env(&mut env, p).unwrap();
    }
    check_invariants(&manager);
    assert_eq!(manager.arena.header.free_size_blocks.len(), 0);
    for class in 0..CLASS_COUNT {
        assert_eq!(manager.arena.subheap(class).next_free_segment(), None);
    }
}

#[test]
fn environment_failures_leave_the_arena_usable() {
    let mut env = TracedEnv::new(ScriptedEnv::new(0x1000_0000));
    let mut manager = SampleAlloc::init(&mut env, arena_config(0)).unwrap();
    let before = manager.arena.header.segment_space.available_size;
    // the body of a new segment cannot be committed
    let commits = env.env().commits;
    let mut failing = env.into_inner();
    failing.fail_commit_after = Some(commits);
    let mut env = TracedEnv::new(failing);
    assert_eq!(
        manager.alloc_with_env(&mut env, 8),
        Err(AllocError::EnvFailure(EnvError { code: 12 }))
    );
    assert_eq!(manager.arena.header.segment_space.available_size, before);
    check_invariants(&manager);
    let mut working = env.into_inner();
    working.fail_commit_after = None;
    let mut env = TracedEnv::new(working);
    let p = manager.alloc_with_env(&mut env, 8).unwrap();
    // nothing is kept: the emptied segment is soft-decommitted first, and
    // where that is refused the block stays handed out
    let mut failing = env.into_inner();
    failing.fail_soft_decommit = true;
    let mut env = TracedEnv::new(failing);
    assert_eq!(
        manager.free_with_env(&mut env, p),
        Err(AllocError::EnvFailure(EnvError { code: 22 }))
    );
    check_invariants(&manager);
    assert_eq!(manager.arena.header.free_segments_begin, 0);
    assert_eq!(manager.arena.header.segment_space.find_used_block(p).map(|found| found.1), Some(0));
    assert_eq!(manager.arena.subheap(0).next_free_segment().is_some(), true);
    let mut working = env.into_inner();
    working.fail_soft_decommit = false;
    let mut env = TracedEnv::new(working);
    assert_eq!(manager.free_with_env(&mut env, p), Ok(()));
    check_invariants(&manager);
    assert_ne!(manager.arena.header.free_segments_begin, 0);
    assert_eq!(
        manager.free_with_env(&mut env, p),
        Err(AllocError::PreconditionViolated(Violation::UnownedPointer))
    );
    // the segment cannot be committed anew: it stays on the free-segment list
    let mut failing = env.into_inner();
    failing.fail_force_commit = true;
    let mut env = TracedEnv::new(failing);
    assert_eq!(
        manager.alloc_with_env(&mut env, 8),
        Err(AllocError::EnvFailure(EnvError { code: 13 }))
    );
    check_invariants(&manager);
    assert_ne!(manager.arena.header.free_segments_begin, 0);
    let mut working = env.into_inner();
    working.fail_force_commit = false;
    let mut env = TracedEnv::new(working);
    assert_eq!(manager.alloc_with_env(&mut env, 8), Ok(p));
    check_invariants(&manager);
}

#[test]
fn large_block_failures() {
    let mut env = TracedEnv::new(ScriptedEnv::new(0x1000_0000));
    let mut manager = SampleAlloc::init(&mut env, arena_config(1)).unwrap();
    let before = manager.arena.header.segment_space.available_size;
    let mut failing = env.into_inner();
    failing.fail_alloc_space = true;
    let mut env = TracedEnv::new(failing);
    assert_eq!(
        manager.alloc_with_env(&mut env, 1 << 20),
        Err(AllocError::EnvFailure(EnvError { code: 12 }))
    );
    // a mapping within the range of the segments cannot be used
    let inside = manager.arena.header.segment_space.segment_space_begin.as_addr() + 4096;
    let mut lying = env.into_inner();
    lying.fail_alloc_space = false;
    lying.alloc_space_at = Some(inside);
    let mut env = TracedEnv::new(lying);
    assert_eq!(
        manager.alloc_with_env(&mut env, 1 << 20),
        Err(AllocError::PreconditionViolated(Violation::UnusableRange))
    );
    assert_eq!(env.env().releases.last(), Some(&(inside, (1 << 20) + 4096)));
    // where the environment does not take the mapping back, that is handed on
    let mut lying = env.into_inner();
    lying.fail_release = true;
    let mut env = TracedEnv::new(lying);
    assert_eq!(
        manager.alloc_with_env(&mut env, 1 << 20),
        Err(AllocError::EnvFailure(EnvError { code: 22 }))
    );
    assert_eq!(manager.arena.header.segment_space.available_size, before);
    let mut lying = env.into_inner();
    lying.fail_release = false;
    let mut env = TracedEnv::new(lying);
    // nor can a mapping that is not aligned
    let mut lying = env.into_inner();
    lying.alloc_space_at = Some(0x7000_0004);
    let mut env = TracedEnv::new(lying);
    assert_eq!(
        manager.alloc_with_env(&mut env, 1 << 20),
        Err(AllocError::PreconditionViolated(Violation::UnusableRange))
    );
    // nor can a null mapping, nor one that is handed out already
    let mut lying = env.into_inner();
    lying.alloc_space_at = Some(0);
    let mut env = TracedEnv::new(lying);
    assert_eq!(
        manager.alloc_with_env(&mut env, 1 << 20),
        Err(AllocError::PreconditionViolated(Violation::UnusableRange))
    );
    let mut lying = env.into_inner();
    lying.alloc_space_at = Some(0x7000_0000);
    let mut env = TracedEnv::new(lying);
    let p = manager.alloc_with_env(&mut env, 1 << 20).unwrap();
    assert_eq!(p.as_addr(), 0x7000_0008);
    assert_eq!(
        manager.alloc_with_env(&mut env, 1 << 20),
        Err(AllocError::PreconditionViolated(Violation::UnusableRange))
    );
    assert_eq!(manager.arena.header.segment_space.available_size, before - (1 << 20) - 4096);
    // a mapping that the environment does not release stays handed out
    let mut failing = env.into_inner();
    failing.fail_release = true;
    let mut env = TracedEnv::new(failing);
    assert_eq!(
        manager.free_with_env(&mut env, p),
        Err(AllocError::EnvFailure(EnvError { code: 22 }))
    );
    assert_eq!(manager.arena.header.free_size_blocks.len(), 1);
    let mut working = env.into_inner();
    working.fail_release = false;
    let mut env = TracedEnv::new(working);
    assert_eq!(manager.free_with_env(&mut env, p), Ok(()));
    assert_eq!(manager.arena.header.segment_space.available_size, before);
    check_invariants(&manager);
    // what the budget does not cover is not asked of the environment
    assert_eq!(manager.alloc_with_env(&mut env, 64 << 20), Err(AllocError::OutOfHeap));
}

#[test]
fn arena_operations_one_by_one() {
    let mut env = TracedEnv::new(ScriptedEnv::new(0x1000_0000));
    let mut arena = Arena::init(&mut env, arena_config(1)).unwrap();
    assert_eq!(arena.pop_free_segment(&mut env), Ok(None));
    let first = arena.alloc_new_segment(&mut env).unwrap().unwrap();
    let second = arena.alloc_new_segment(&mut env).unwrap().unwrap();
    assert_eq!(arena.free_unused_segment(&mut env, second), Ok(()));
    assert_eq!(arena.header.keep_segments.begin, second.as_addr());
    // the keep-list is full: the higher of the two is soft-decommitted
    assert_eq!(arena.free_unused_segment(&mut env, first), Ok(()));
    assert_eq!(arena.header.keep_segments.begin, first.as_addr());
    assert_eq!(arena.header.free_segments_begin, second.as_addr());
    assert_eq!(env.env().soft_decommits, vec![arena.segment(second).seg_ptr().as_addr()]);
    assert_eq!(arena.pop_free_segment(&mut env), Ok(Some(first)));
    assert_eq!(arena.pop_free_segment(&mut env), Ok(Some(second)));
    assert!(!arena.segment(second).is_soft_decommitted());
    assert_eq!(arena.pop_free_segment(&mut env), Ok(None));
    assert_eq!(arena.block_type(arena.segment(first).seg_ptr()), Type::OnSubHeap);
    assert_eq!(arena.block_type(AnyNonNullPtr::new(16)), Type::FreeSize);
}

#[test]
fn violations_in_words() {
    assert_eq!(
        Violation::UnownedPointer.message(),
        "the pointer is not that of a block handed out"
    );
    assert_eq!(Violation::HeapSizes.message(), "the heap sizes leave no room for an arena");
    assert_eq!(Violation::PageSize.message(), "the page size does not fit the segment size");
    assert_eq!(
        Violation::UnusableRange.message(),
        "the environment answered with an unusable range"
    );
}

#[test]
fn align_reservation_picks_the_aligned_base() {
    let at = |raw: usize| AnyNonNullPtr { raw };
    assert_eq!(align_reservation(at(0x1000_3000), 0x40000, 0x10000), Ok(at(0x1001_0000)));
    assert_eq!(align_reservation(at(0x2000_0000), 0x40000, 0x10000), Ok(at(0x2000_0000)));
    assert_eq!(align_reservation(at(1), 0x40000, 0x10000), Ok(at(0x10000)));
    assert_eq!(align_reservation(at(0), 0x40000, 0x10000), Err(ReserveError::OutOfRange));
    assert_eq!(
        align_reservation(at(usize::MAX - 0x4ffff), 0x40000, 0x10000),
        Err(ReserveError::OutOfRange)
    );
    assert_eq!(
        align_reservation(at(usize::MAX - 0x50000), 0x40000, 0x10000),
        Ok(at(usize::MAX - 0x4ffff))
    );
}

#[test]
fn context_space_is_tested() {
    let layout = plan_arena(&arena_config(1), 4096).unwrap();
    assert!(usable_context_space(&layout, AnyNonNullPtr::new(0x1000_0000)));
    assert!(!usable_context_space(&layout, AnyNonNullPtr { raw: 0 }));
    assert!(!usable_context_space(&layout, AnyNonNullPtr::new(0x1000_0008)));
    let last = usize::MAX - layout.context_space_size - 2 * SEGMENT_SIZE;
    assert!(usable_context_space(&layout, AnyNonNullPtr::new(last - last % 16)));
    assert!(!usable_context_space(&layout, AnyNonNullPtr::new(last - last % 16 + 16)));
}

#[test]
fn precommit_reaches_the_minimum_or_runs_out() {
    let config = Config { min_heap_size: 1, max_heap_size: 4096 + 3 * SEGMENT_SIZE, keep_segments_count: 1 };
    let layout = plan_arena(&config, 4096).unwrap();
    assert_eq!(layout.max_segment_count, 3);
    let fresh = || {
        new_header(&config, &layout, AnyNonNullPtr::new(0x1000_0000), AnyNonNullPtr::new(0x2000_0000))
    };
    let header = fresh();
    assert_eq!(header.segment_space.available_size, 3 * SEGMENT_SIZE);
    assert_eq!(header.segment_space.segment_compact_header_space.as_addr(), 0x1000_0000 + 608);
    assert_eq!(header.segment_space.segment_space_end.as_addr(), 0x2000_0000 + 3 * SEGMENT_SIZE);
    assert_eq!(header.subheaps.len(), CLASS_COUNT);
    // the minimum is committed already
    let mut env = TracedEnv::new(ScriptedEnv::new(0x3000_0000));
    let mut header = fresh();
    assert_eq!(precommit(&mut header, &mut env, 4096), Ok(()));
    assert_eq!(header.segment_space.segments.len(), 0);
    assert_eq!(env.env().commits, 0);
    // two segments reach it: one is kept, one is soft-decommitted
    let mut header = fresh();
    assert_eq!(precommit(&mut header, &mut env, 4097 + SEGMENT_SIZE), Ok(()));
    assert_eq!(header.segment_space.segments.len(), 2);
    assert_eq!(header.segment_space.available_size, SEGMENT_SIZE);
    assert_eq!(header.keep_segments.should_keep_count, 0);
    assert_eq!(header.free_segments_begin, 0x1000_0000 + 608 + 16);
    assert_eq!(env.env().soft_decommits, vec![0x2000_0000 + SEGMENT_SIZE]);
    // three segments are all there is
    let mut header = fresh();
    assert_eq!(precommit(&mut header, &mut env, 4096 + 3 * SEGMENT_SIZE), Ok(()));
    assert_eq!(header.segment_space.available_size, 0);
    let mut header = fresh();
    assert_eq!(
        precommit(&mut header, &mut env, 4097 + 3 * SEGMENT_SIZE),
        Err(AllocError::OutOfHeap)
    );
    assert_eq!(header.segment_space.segments.len(), 3);
    // a refusal of the environment ends it
    let mut failing = ScriptedEnv::new(0x3000_0000);
    failing.fail_commit_after = Some(1);
    let mut env = TracedEnv::new(failing);
    let mut header = fresh();
    assert_eq!(
        precommit(&mut header, &mut env, 4096 + 3 * SEGMENT_SIZE),
        Err(AllocError::EnvFailure(EnvError { code: 12 }))
    );
    assert_eq!(header.segment_space.segments.len(), 1);
}

#[test]
fn init_refuses_an_unusable_context_space() {
    let mut env = TracedEnv::new(ScriptedEnv::new(0x1000_0008));
    assert!(matches!(
        Arena::init(&mut env, arena_config(1)),
        Err(AllocError::PreconditionViolated(Violation::UnusableRange))
    ));
    assert_eq!(env.env().commits, 0);
}

#[test]
fn chunk_size_masks_the_flags() {
    assert_eq!(chunk::Header { chunk_size_with_flags: 0x1230 }.chunk_size(), 0x1230);
    assert_eq!(chunk::Header { chunk_size_with_flags: 0x123f }.chunk_size(), 0x1230);
    assert_eq!(chunk::Header { chunk_size_with_flags: 7 }.chunk_size(), 0);
}
