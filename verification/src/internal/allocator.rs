use crate::error::{spec_env_refusal, AllocError, Violation};
use crate::internal::layout::arena::{
    free_block_by_header, init_single_by_header, is_free_size_block_at, is_settled_segment,
    lemma_live_blocks_insert, lemma_live_blocks_kept, lemma_live_blocks_remove,
    flood_candidate, lemma_others_settled, lemma_settled_after_free_unused_segment,
    mark_block_by_header, settle_unused_segment,
    owner_agrees, same_segments, same_subheaps, spec_alloc_block_of_free_size,
    spec_allocate_size, spec_body_ptr, spec_flooded_index, spec_free_block_of_free_size,
    spec_init_outcome, spec_subheap_with, Arena, Config, Header,
};
use crate::internal::layout::block::{Type, BLOCK_FREE_SIZE_HEADER_SIZE};
use crate::internal::layout::constants::ALIGNMENT_SIZE;
use crate::internal::layout::segment::{
    block_count_of_class, lemma_layout_of_class, spec_block_count_of_class, Owner, Segment,
    SEGMENT_SIZE,
};
use crate::internal::layout::segment_space::{
    spec_can_alloc_new_segment, spec_new_segment_calls, spec_new_segment_cost,
};
use crate::internal::layout::subheap::{class_of_size, spec_class_of_size, CLASS_COUNT};
use crate::sys::ptr::AnyNonNullPtr;
use crate::sys::{lemma_calls_added, spec_refusal, SysCall, SysMemEnv, TracedEnv};
use crate::util::bits::{lemma_min_aligned_size, min_aligned_size, spec_min_aligned_size};
use vstd::prelude::*;

verus! {

/// The allocator: an arena, which hands out blocks of the size classes from
/// its segments and larger blocks from mappings of their own.
pub struct SampleAlloc {
    pub arena: Arena,
}

/// Whether the header is what it was: the segments, the lists, the budget
/// and the large blocks.
pub open spec fn spec_unchanged(before: Header, after: Header) -> bool {
    &&& same_segments(before, after)
    &&& after.segment_space.available_size == before.segment_space.available_size
    &&& after.free_size_blocks@ == before.free_size_blocks@
}

/// Where a block of a class is taken from: the first segment of the class
/// that has a free block, or else the first segment of the keep-list, or
/// else the first one of the free-segment list, or else a segment that is
/// committed for it; none where no segment can be committed.
pub open spec fn spec_serving_segment(header: Header, class: int) -> Option<int> {
    if header.subheaps@[class].list@.len() > 0 {
        Some(header.subheaps@[class].list@[0])
    } else if header.keep_segments.list@.len() > 0 {
        Some(header.keep_segments.list@[0])
    } else if header.free_segments@.len() > 0 {
        Some(header.free_segments@[0])
    } else if spec_can_alloc_new_segment(header.segment_space) {
        Some(header.segment_space.segments@.len() as int)
    } else {
        None
    }
}

/// Whether `index` is the lowest block of `seg` that is free.
pub open spec fn is_lowest_free_block(seg: Segment, index: int) -> bool {
    &&& 0 <= index < seg.spec_block_count()
    &&& !seg.block_used(index)
    &&& forall|lower: int| 0 <= lower < index ==> seg.block_used(lower)
}

/// The requests that taking a segment for a class makes.
pub open spec fn spec_serving_calls(header: Header, class: int) -> Seq<SysCall> {
    if header.subheaps@[class].list@.len() > 0 || header.keep_segments.list@.len() > 0 {
        Seq::empty()
    } else if header.free_segments@.len() > 0 {
        seq![
            SysCall::ForceCommit {
                addr: spec_body_ptr(header.segment_space, header.free_segments@[0]),
                len: SEGMENT_SIZE,
            },
        ]
    } else {
        spec_new_segment_calls(header.segment_space)
    }
}

/// What every segment but segment `seg_index` keeps while a block of that
/// segment is handed out or taken back: its blocks, its owner and whether
/// its body is soft-decommitted.
pub open spec fn spec_others_kept(before: Header, after: Header, seg_index: int) -> bool {
    forall|other: int|
        0 <= other < before.segment_space.segments@.len() && other != seg_index ==> (
        #[trigger] after.segment_space.segments@[other]).same_blocks(
            &before.segment_space.segments@[other],
        ) && after.segment_space.segments@[other].owner@
            == before.segment_space.segments@[other].owner@
            && after.segment_space.segments@[other].spec_is_soft_decommitted()
            == before.segment_space.segments@[other].spec_is_soft_decommitted()
}

/// The lists of all classes but `class` are what they were.
pub open spec fn spec_other_subheaps_kept(before: Header, after: Header, class: int) -> bool {
    forall|other: int|
        0 <= other < CLASS_COUNT && other != class ==> #[trigger] after.subheaps@[other]
            == before.subheaps@[other]
}

/// The list of a class without segment `seg_index` where the segment is full
/// now, and the list as it is else.
pub open spec fn spec_subheap_without_full(list: Seq<int>, seg_index: int, full: bool) -> Seq<int> {
    if full {
        list.remove(list.index_of(seg_index))
    } else {
        list
    }
}

/// Block `ptr` of segment `seg_index` was handed out: the lowest free block
/// where the segment was on the list of its class, and the first block where
/// the segment was taken for the class.
pub open spec fn spec_block_taken(
    before: Header,
    after: Header,
    seg_index: int,
    ptr: AnyNonNullPtr,
    from_subheap: bool,
) -> bool {
    exists|index: int|
        {
            &&& if from_subheap {
                is_lowest_free_block(before.segment_space.segments@[seg_index], index)
            } else {
                index == 0
            }
            &&& #[trigger] after.segment_space.is_used_block_addr(ptr.raw as int, seg_index, index)
            &&& after.segment_space.segments@[seg_index].used_blocks() == (if from_subheap {
                before.segment_space.segments@[seg_index].used_blocks()
            } else {
                Set::<int>::empty()
            }).insert(index)
        }
}

/// What handing out a block of a class does.
pub open spec fn spec_alloc_on_subheap(
    before: Header,
    class: int,
    after: Header,
    allocated: Result<AnyNonNullPtr, AllocError>,
    calls_before: Seq<SysCall>,
    calls_after: Seq<SysCall>,
) -> bool {
    let list = before.subheaps@[class].list@;
    let from_subheap = list.len() > 0;
    let committed = !from_subheap && before.keep_segments.list@.len() == 0
        && before.free_segments@.len() == 0;
    &&& after.free_size_blocks@ == before.free_size_blocks@
    &&& after.max_heap_size == before.max_heap_size
    &&& after.keep_segments.keep_segments_count == before.keep_segments.keep_segments_count
    &&& after.segment_space.same_layout(&before.segment_space)
    &&& before.segment_space.segments@.len() <= after.segment_space.segments@.len()
    &&& match allocated {
        Ok(ptr) => {
            &&& spec_serving_segment(before, class) matches Some(seg_index)
            &&& seg_index < after.segment_space.segments@.len()
            &&& after.segment_space.segments@.len() == before.segment_space.segments@.len() + (
            if committed {
                1int
            } else {
                0int
            })
            &&& after.segment_space.available_size == before.segment_space.available_size - (
            if committed {
                spec_new_segment_cost(before.segment_space)
            } else {
                0
            })
            &&& calls_after == calls_before + spec_serving_calls(before, class)
            &&& spec_block_taken(before, after, seg_index, ptr, from_subheap)
            &&& after.segment_space.segments@[seg_index].class() == class
            &&& after.segment_space.segments@[seg_index].owner@ == (
            if after.segment_space.segments@[seg_index].additional_header.used_block_count
                == after.segment_space.segments@[seg_index].spec_block_count() {
                Owner::Nobody
            } else {
                Owner::SubHeap(class)
            })
            &&& after.segment_space.segments@[seg_index].owner@ is Nobody
                ==> after.segment_space.segments@[seg_index].spec_is_floated()
            &&& spec_others_kept(before, after, seg_index)
            &&& spec_other_subheaps_kept(before, after, class)
            &&& after.subheaps@[class].list@ == spec_subheap_without_full(
                if from_subheap {
                    list
                } else {
                    seq![seg_index]
                },
                seg_index,
                after.segment_space.segments@[seg_index].additional_header.used_block_count
                    == after.segment_space.segments@[seg_index].spec_block_count(),
            )
            &&& after.keep_segments.list@ == (if !from_subheap
                && before.keep_segments.list@.len() > 0 {
                before.keep_segments.list@.drop_first()
            } else {
                before.keep_segments.list@
            })
            &&& after.free_segments@ == (if !from_subheap && before.keep_segments.list@.len() == 0
                && before.free_segments@.len() > 0 {
                before.free_segments@.drop_first()
            } else {
                before.free_segments@
            })
        },
        Err(AllocError::OutOfHeap) => {
            &&& spec_serving_segment(before, class) is None
            &&& calls_after == calls_before
            &&& spec_unchanged(before, after)
        },
        Err(AllocError::EnvFailure(_)) => {
            &&& !from_subheap
            &&& before.keep_segments.list@.len() == 0
            &&& spec_serving_segment(before, class) is Some
            &&& calls_before.is_prefix_of(calls_after)
            &&& calls_before.len() < calls_after.len()
            &&& calls_after.is_prefix_of(calls_before + spec_serving_calls(before, class))
            &&& after.segment_space.segments@ == before.segment_space.segments@
            &&& same_subheaps(before, after)
            &&& after.keep_segments == before.keep_segments
            &&& after.free_segments@ == before.free_segments@
        },
        Err(AllocError::PreconditionViolated(_)) => false,
    }
}

/// The largest size that can be asked for: what is above it cannot be
/// rounded up and mapped within the address space.
pub open spec fn spec_max_request_size() -> int {
    usize::MAX - 2 * SEGMENT_SIZE
}

/// What `alloc_with_env` does: the size is rounded up to the alignment; a
/// size that a class serves gets a block of the least such class, and a
/// larger one a mapping of its own.
pub open spec fn spec_alloc(
    before: Header,
    size: usize,
    after: Header,
    allocated: Result<AnyNonNullPtr, AllocError>,
    calls_before: Seq<SysCall>,
    calls_after: Seq<SysCall>,
) -> bool {
    let aligned = spec_min_aligned_size(size as int, ALIGNMENT_SIZE as int);
    if size > spec_max_request_size() {
        &&& allocated == Err::<AnyNonNullPtr, AllocError>(AllocError::OutOfHeap)
        &&& calls_after == calls_before
        &&& spec_unchanged(before, after)
    } else {
        match spec_class_of_size(aligned) {
            Some(class) => spec_alloc_on_subheap(
                before,
                class,
                after,
                allocated,
                calls_before,
                calls_after,
            ),
            None => spec_alloc_block_of_free_size(
                before,
                aligned as usize,
                after,
                match allocated {
                    Ok(ptr) => Ok(Some(ptr)),
                    Err(AllocError::OutOfHeap) => Ok(None),
                    Err(e) => Err(e),
                },
                calls_before,
                calls_after,
            ),
        }
    }
}

/// What `free_with_env` does.  The address alone says where the block
/// belongs: within the range of the segments it is a block of a class, and
/// else a large block.
pub open spec fn spec_free(
    before: Header,
    ptr: AnyNonNullPtr,
    after: Header,
    freed: Result<(), AllocError>,
    calls_before: Seq<SysCall>,
    calls_after: Seq<SysCall>,
) -> bool {
    if !before.segment_space.spec_ptr_in_space(ptr.raw as int) {
        spec_free_block_of_free_size(before, ptr, after, freed, calls_before, calls_after)
    } else if exists|seg_index: int, index: int| #[trigger]
        before.segment_space.is_used_block_addr(ptr.raw as int, seg_index, index) {
        let (seg_index, index) = choose|seg_index: int, index: int| #[trigger]
            before.segment_space.is_used_block_addr(ptr.raw as int, seg_index, index);
        spec_free_on_subheap(before, seg_index, index, after, freed, calls_before, calls_after)
    } else {
        &&& freed == Err::<(), AllocError>(
            AllocError::PreconditionViolated(Violation::UnownedPointer),
        )
        &&& calls_after == calls_before
        &&& spec_unchanged(before, after)
    }
}

impl SampleAlloc {
    /// The arena is well formed, and each of its segments is where its
    /// blocks put it.
    pub open spec fn wf(&self) -> bool {
        &&& self.arena.wf()
        &&& self.arena.header.is_settled()
    }

    /// Makes an allocator with a new arena.
    pub fn init<Env: SysMemEnv>(env: &mut TracedEnv<Env>, arena_config: Config) -> (created:
        Result<Self, AllocError>)
        ensures
            spec_refusal(*old(env), *final(env), spec_env_refusal(created)),
            spec_init_outcome(
                arena_config,
                match created {
                    Ok(manager) => Ok(manager.arena),
                    Err(e) => Err(e),
                },
                final(env).last_pagesize(),
                final(env).last_range(),
                old(env).calls(),
                final(env).calls(),
            ),
            created matches Ok(manager) ==> manager.wf(),
            created matches Err(AllocError::EnvFailure(e)) ==> final(env).last_failed() == Some(e),
            !(created matches Err(AllocError::EnvFailure(_))) ==> final(env).last_failed() is None,
    {
        match Arena::init(env, arena_config) {
            Ok(arena) => Ok(Self { arena }),
            Err(e) => Err(e),
        }
    }

    /// Hands out a block of at least `size` bytes.
    pub fn alloc_with_env<Env: SysMemEnv>(
        &mut self,
        env: &mut TracedEnv<Env>,
        size: usize,
    ) -> (allocated: Result<AnyNonNullPtr, AllocError>)
        requires
            old(self).wf(),
        ensures
            spec_refusal(*old(env), *final(env), spec_env_refusal(allocated)),
            final(self).wf(),
            final(self).arena.context_space == old(self).arena.context_space,
            spec_alloc(
                old(self).arena.header,
                size,
                final(self).arena.header,
                allocated,
                old(env).calls(),
                final(env).calls(),
            ),
            allocated matches Err(AllocError::EnvFailure(e)) ==> final(env).last_failed()
                == Some(e),
    {
        if size > usize::MAX - 2 * SEGMENT_SIZE {
            return Err(self.heap_overflow());
        }
        proof {
            lemma_min_aligned_size(size as int, ALIGNMENT_SIZE as int);
        }
        let aligned = min_aligned_size(size, ALIGNMENT_SIZE);
        match class_of_size(aligned) {
            None => match self.arena.alloc_block_of_free_size(env, aligned) {
                Ok(Some(block_ptr)) => Ok(block_ptr),
                Ok(None) => Err(self.heap_overflow()),
                Err(e) => Err(e),
            },
            Some(cls) => alloc_on_subheap_with_env(self, env, cls),
        }
    }

    /// Takes the block at `ptr` back.
    pub fn free_with_env<Env: SysMemEnv>(
        &mut self,
        env: &mut TracedEnv<Env>,
        ptr: AnyNonNullPtr,
    ) -> (freed: Result<(), AllocError>)
        requires
            old(self).wf(),
        ensures
            spec_refusal(*old(env), *final(env), spec_env_refusal(freed)),
            final(self).wf(),
            final(self).arena.context_space == old(self).arena.context_space,
            spec_free(
                old(self).arena.header,
                ptr,
                final(self).arena.header,
                freed,
                old(env).calls(),
                final(env).calls(),
            ),
            freed matches Err(AllocError::EnvFailure(e)) ==> final(env).last_failed() == Some(e),
    {
        match self.arena.block_type(ptr) {
            Type::FreeSize => self.arena.free_block_of_free_size(env, ptr),
            Type::OnSubHeap => {
                let (seg_ptr, block_index) = match self.arena.header.segment_space.find_used_block(
                    ptr,
                ) {
                    None => {
                        return Err(AllocError::PreconditionViolated(Violation::UnownedPointer));
                    },
                    Some(found) => found,
                };
                proof {
                    let space = self.arena.header.segment_space;
                    let (seg_index, index) = choose|seg_index: int, index: int| #[trigger]
                        space.is_used_block_addr(ptr.raw as int, seg_index, index);
                    space.lemma_block_addr_unique(
                        ptr.raw as int,
                        seg_index,
                        index,
                        space.spec_index_of_header(seg_ptr.raw as int),
                        block_index as int,
                    );
                }
                free_on_subheap(self, env, seg_ptr, block_index)
            },
        }
    }

    /// The error of a request that the budget or the reserved range does
    /// not cover.
    fn heap_overflow(&self) -> (error: AllocError)
        ensures
            error == AllocError::OutOfHeap,
    {
        AllocError::OutOfHeap
    }
}

/// What finding the segment that serves a class does: the segment is on the
/// list of the class, and block `index` of it is free.
pub open spec fn spec_taken_for_class(
    before: Header,
    class: int,
    after: Header,
    taken: Result<(AnyNonNullPtr, usize), AllocError>,
    calls_before: Seq<SysCall>,
    calls_after: Seq<SysCall>,
) -> bool {
    let list = before.subheaps@[class].list@;
    let from_subheap = list.len() > 0;
    let committed = !from_subheap && before.keep_segments.list@.len() == 0
        && before.free_segments@.len() == 0;
    &&& after.free_size_blocks@ == before.free_size_blocks@
    &&& after.max_heap_size == before.max_heap_size
    &&& after.keep_segments.keep_segments_count == before.keep_segments.keep_segments_count
    &&& after.segment_space.same_layout(&before.segment_space)
    &&& before.segment_space.segments@.len() <= after.segment_space.segments@.len()
    &&& match taken {
        Ok((seg_ptr, index)) => {
            &&& spec_serving_segment(before, class) matches Some(seg_index)
            &&& after.segment_space.is_header_addr(seg_ptr.raw as int)
            &&& after.segment_space.spec_index_of_header(seg_ptr.raw as int) == seg_index
            &&& seg_index < after.segment_space.segments@.len()
            &&& after.segment_space.segments@.len() == before.segment_space.segments@.len() + (
            if committed {
                1int
            } else {
                0int
            })
            &&& after.segment_space.available_size == before.segment_space.available_size - (
            if committed {
                spec_new_segment_cost(before.segment_space)
            } else {
                0
            })
            &&& calls_after == calls_before + spec_serving_calls(before, class)
            &&& after.segment_space.segments@[seg_index].owner@ == Owner::SubHeap(class)
            &&& after.is_settled_but(seg_index)
            &&& spec_others_kept(before, after, seg_index)
            &&& spec_other_subheaps_kept(before, after, class)
            &&& after.subheaps@[class].list@ == (if from_subheap {
                list
            } else {
                seq![seg_index]
            })
            &&& after.keep_segments.list@ == (if !from_subheap
                && before.keep_segments.list@.len() > 0 {
                before.keep_segments.list@.drop_first()
            } else {
                before.keep_segments.list@
            })
            &&& after.free_segments@ == (if !from_subheap && before.keep_segments.list@.len() == 0
                && before.free_segments@.len() > 0 {
                before.free_segments@.drop_first()
            } else {
                before.free_segments@
            })
            &&& if from_subheap {
                &&& is_lowest_free_block(before.segment_space.segments@[seg_index], index as int)
                &&& after.segment_space.segments@[seg_index].used_blocks()
                    == before.segment_space.segments@[seg_index].used_blocks()
                &&& after.segment_space.segments@[seg_index].additional_header.used_block_count
                    > 0
            } else {
                &&& index == 0
                &&& after.segment_space.segments@[seg_index].used_blocks() == Set::<int>::empty()
            }
        },
        Err(AllocError::OutOfHeap) => {
            &&& spec_serving_segment(before, class) is None
            &&& calls_after == calls_before
            &&& spec_unchanged(before, after)
        },
        Err(AllocError::EnvFailure(_)) => {
            &&& !from_subheap
            &&& before.keep_segments.list@.len() == 0
            &&& spec_serving_segment(before, class) is Some
            &&& calls_before.is_prefix_of(calls_after)
            &&& calls_before.len() < calls_after.len()
            &&& calls_after.is_prefix_of(calls_before + spec_serving_calls(before, class))
            &&& after.segment_space.segments@ == before.segment_space.segments@
            &&& same_subheaps(before, after)
            &&& after.keep_segments == before.keep_segments
            &&& after.free_segments@ == before.free_segments@
        },
        Err(AllocError::PreconditionViolated(_)) => false,
    }
}

/// Finds the segment that serves a class and a free block of it.  Where the
/// list of the class is empty, a segment is taken for it and put on the list.
pub fn take_segment_for_class<Env: SysMemEnv>(
    manager: &mut SampleAlloc,
    env: &mut TracedEnv<Env>,
    class_of_size: usize,
) -> (taken: Result<(AnyNonNullPtr, usize), AllocError>)
    requires
        old(manager).wf(),
        class_of_size < CLASS_COUNT,
    ensures
        spec_refusal(*old(env), *final(env), spec_env_refusal(taken)),
        final(manager).arena.wf(),
        taken is Err ==> final(manager).wf(),
        final(manager).arena.context_space == old(manager).arena.context_space,
        spec_taken_for_class(
            old(manager).arena.header,
            class_of_size as int,
            final(manager).arena.header,
            taken,
            old(env).calls(),
            final(env).calls(),
        ),
        taken matches Err(AllocError::EnvFailure(e)) ==> final(env).last_failed() == Some(e),
{
    let ghost before = manager.arena.header;
    let ghost calls = env.calls();
    let ghost list = before.subheaps@[class_of_size as int].list@;
    proof {
        before.segment_space.lemma_link_to(
            list,
            before.subheaps@[class_of_size as int].free_segments_begin,
            Owner::SubHeap(class_of_size as int),
            0,
        );
        lemma_layout_of_class(class_of_size as int);
        lemma_calls_added(calls, Seq::empty());
        assert(calls + Seq::<SysCall>::empty() =~= calls);
    }
    match manager.arena.subheap(class_of_size).next_free_segment() {
        Some(next_seg_ptr) => {
            proof {
                assert(owner_agrees(before.segment_space.segments@[list[0]]));
                assert(is_settled_segment(before.segment_space.segments@[list[0]]));
                assert(before.segment_space.segments@[list[0]].owner@ == Owner::SubHeap(
                    class_of_size as int,
                ));
            }
            let seg = manager.arena.segment(next_seg_ptr);
            match seg.find_free_block() {
                Some(index) => Ok((next_seg_ptr, index)),
                None => Err(manager.heap_overflow()),
            }
        },
        None => {
            let popped = manager.arena.pop_free_segment(env);
            let free_seg = match popped {
                Ok(Some(free_seg)) => free_seg,
                Ok(None) => {
                    let committed = manager.arena.alloc_new_segment(env);
                    proof {
                        lemma_calls_added(calls, spec_new_segment_calls(before.segment_space));
                        if !(committed matches Ok(Some(_))) {
                            assert(manager.arena.header.segment_space.segments@
                                =~= before.segment_space.segments@);
                        }
                        assert(manager.arena.header.subheaps@ =~= before.subheaps@);
                    }
                    match committed {
                        Ok(Some(free_seg)) => free_seg,
                        Ok(None) => {
                            return Err(manager.heap_overflow());
                        },
                        Err(e) => {
                            return Err(AllocError::EnvFailure(e));
                        },
                    }
                },
                Err(e) => {
                    proof {
                        assert(env.calls() =~= calls + spec_serving_calls(
                            before,
                            class_of_size as int,
                        ));
                        lemma_calls_added(env.calls(), Seq::empty());
                        assert(manager.arena.header.segment_space.segments@
                            =~= before.segment_space.segments@);
                    }
                    return Err(AllocError::EnvFailure(e));
                },
            };
            let ghost popped_header = manager.arena.header;
            let ghost seg_index = popped_header.segment_space.spec_index_of_header(
                free_seg.raw as int,
            );
            proof {
                assert(env.calls() =~= calls + spec_serving_calls(before, class_of_size as int));
                assert(spec_serving_segment(before, class_of_size as int) == Some(seg_index));
                lemma_others_settled(before, before, popped_header, seg_index);
            }
            init_single_by_header(&mut manager.arena.header, free_seg, class_of_size);
            let ghost laid_out = manager.arena.header;
            manager.arena.insert_free_segment_to_subheap(class_of_size, free_seg);
            proof {
                let after = manager.arena.header;
                after.segment_space.lemma_header_addr(seg_index);
                after.segment_space.segments@[seg_index].lemma_same_blocks(
                    &laid_out.segment_space.segments@[seg_index],
                );
                lemma_others_settled(popped_header, laid_out, after, seg_index);
            }
            Ok((free_seg, 0))
        },
    }
}

/// What handing block `index` of the segment at `seg_ptr` out does.
pub open spec fn spec_handed_out(
    before: Header,
    class: int,
    seg_index: int,
    index: int,
    after: Header,
    ptr: AnyNonNullPtr,
) -> bool {
    &&& spec_others_kept(before, after, seg_index)
    &&& after.same_accounts(&before)
    &&& after.segment_space.same_extent(&before.segment_space)
    &&& after.keep_segments.keep_segments_count == before.keep_segments.keep_segments_count
    &&& after.segment_space.is_used_block_addr(ptr.raw as int, seg_index, index)
    &&& after.segment_space.segments@[seg_index].used_blocks()
        == before.segment_space.segments@[seg_index].used_blocks().insert(index)
    &&& after.segment_space.segments@[seg_index].class() == class
    &&& after.segment_space.segments@[seg_index].owner@ == (
    if after.segment_space.segments@[seg_index].additional_header.used_block_count
        == after.segment_space.segments@[seg_index].spec_block_count() {
        Owner::Nobody
    } else {
        Owner::SubHeap(class)
    })
    &&& after.segment_space.segments@[seg_index].owner@ is Nobody
        ==> after.segment_space.segments@[seg_index].spec_is_floated()
    &&& spec_other_subheaps_kept(before, after, class)
    &&& after.subheaps@[class].list@ == spec_subheap_without_full(
        before.subheaps@[class].list@,
        seg_index,
        after.segment_space.segments@[seg_index].additional_header.used_block_count
            == after.segment_space.segments@[seg_index].spec_block_count(),
    )
    &&& after.keep_segments.list@ == before.keep_segments.list@
    &&& after.free_segments@ == before.free_segments@
}

/// Hands block `index` of a segment of the list of a class out.  A segment
/// that this fills leaves the list.
pub fn hand_out_block(
    manager: &mut SampleAlloc,
    class_of_size: usize,
    seg_ptr: AnyNonNullPtr,
    index: usize,
) -> (ptr: AnyNonNullPtr)
    requires
        old(manager).arena.wf(),
        class_of_size < CLASS_COUNT,
        old(manager).arena.header.segment_space.is_header_addr(seg_ptr.raw as int),
        ({
            let header = old(manager).arena.header;
            let seg_index = header.segment_space.spec_index_of_header(seg_ptr.raw as int);
            let seg = header.segment_space.segments@[seg_index];
            &&& header.is_settled_but(seg_index)
            &&& seg.owner@ == Owner::SubHeap(class_of_size as int)
            &&& index < seg.spec_block_count()
            &&& !seg.block_used(index as int)
        }),
    ensures
        final(manager).wf(),
        final(manager).arena.context_space == old(manager).arena.context_space,
        spec_handed_out(
            old(manager).arena.header,
            class_of_size as int,
            old(manager).arena.header.segment_space.spec_index_of_header(seg_ptr.raw as int),
            index as int,
            final(manager).arena.header,
            ptr,
        ),
{
    let ghost before = manager.arena.header;
    let ghost seg_index = before.segment_space.spec_index_of_header(seg_ptr.raw as int);
    proof {
        assert(owner_agrees(before.segment_space.segments@[seg_index]));
        before.segment_space.segments@[seg_index].lemma_used_blocks_bound();
        lemma_layout_of_class(class_of_size as int);
        let witness = choose|at: int|
            0 <= at < before.segment_space.segments@.len() && seg_ptr.raw
                == #[trigger] before.segment_space.spec_header_addr(at);
        before.segment_space.lemma_header_addr(witness);
    }
    let seg = manager.arena.segment(seg_ptr);
    if seg.used_block_count() + 1 == block_count_of_class(class_of_size) {
        manager.arena.remove_segment_from_subheap(class_of_size, seg_ptr);
    }
    let ghost unlinked = manager.arena.header;
    proof {
        unlinked.segment_space.segments@[seg_index].lemma_same_blocks(
            &before.segment_space.segments@[seg_index],
        );
    }
    let _ = mark_block_by_header(&mut manager.arena.header, seg_ptr, index);
    proof {
        let after = manager.arena.header;
        after.segment_space.lemma_header_addr(seg_index);
        lemma_others_settled(before, unlinked, after, seg_index);
        assert(after.segment_space.segments@[seg_index].used_blocks().contains(index as int));
        assert(after.segment_space.is_used_block_addr(
            after.segment_space.segments@[seg_index].spec_block_addr(index as int),
            seg_index,
            index as int,
        ));
    }
    let seg = manager.arena.segment(seg_ptr);
    seg.block_ptr(index)
}

/// Hands out a block of a class: the lowest free block of the first
/// segment of the class, or the first block of a segment that is taken for
/// the class.
pub fn alloc_on_subheap_with_env<Env: SysMemEnv>(
    manager: &mut SampleAlloc,
    env: &mut TracedEnv<Env>,
    class_of_size: usize,
) -> (allocated: Result<AnyNonNullPtr, AllocError>)
    requires
        old(manager).wf(),
        class_of_size < CLASS_COUNT,
    ensures
        spec_refusal(*old(env), *final(env), spec_env_refusal(allocated)),
        final(manager).wf(),
        final(manager).arena.context_space == old(manager).arena.context_space,
        spec_alloc_on_subheap(
            old(manager).arena.header,
            class_of_size as int,
            final(manager).arena.header,
            allocated,
            old(env).calls(),
            final(env).calls(),
        ),
        allocated matches Err(AllocError::EnvFailure(e)) ==> final(env).last_failed() == Some(e),
{
    let ghost before = manager.arena.header;
    let (seg_ptr, block_index) = match take_segment_for_class(manager, env, class_of_size) {
        Ok(taken) => taken,
        Err(e) => {
            return Err(e);
        },
    };
    let ghost taken = manager.arena.header;
    let ghost seg_index = taken.segment_space.spec_index_of_header(seg_ptr.raw as int);
    proof {
        assert(owner_agrees(taken.segment_space.segments@[seg_index]));
        if before.subheaps@[class_of_size as int].list@.len() > 0 {
            taken.segment_space.segments@[seg_index].lemma_same_used_blocks(
                &before.segment_space.segments@[seg_index],
                block_index as int,
            );
        } else {
            assert(!taken.segment_space.segments@[seg_index].used_blocks().contains(0));
            lemma_layout_of_class(class_of_size as int);
        }
    }
    let ptr = hand_out_block(manager, class_of_size, seg_ptr, block_index);
    proof {
        let after = manager.arena.header;
        assert(spec_others_kept(before, after, seg_index)) by {
            assert forall|other: int|
                0 <= other < before.segment_space.segments@.len() && other != seg_index implies (
            #[trigger] after.segment_space.segments@[other]).same_blocks(
                &before.segment_space.segments@[other],
            ) && after.segment_space.segments@[other].owner@
                == before.segment_space.segments@[other].owner@
                && after.segment_space.segments@[other].spec_is_soft_decommitted()
                == before.segment_space.segments@[other].spec_is_soft_decommitted() by {
                assert(taken.segment_space.segments@[other].same_blocks(
                    &before.segment_space.segments@[other],
                ));
            }
        }
        let from_subheap = before.subheaps@[class_of_size as int].list@.len() > 0;
        let index = block_index as int;
        assert(after.segment_space.is_used_block_addr(ptr.raw as int, seg_index, index));
        assert(after.segment_space.segments@[seg_index].used_blocks() == (if from_subheap {
            before.segment_space.segments@[seg_index].used_blocks()
        } else {
            Set::<int>::empty()
        }).insert(index));
        if from_subheap {
            assert(is_lowest_free_block(before.segment_space.segments@[seg_index], index));
        }
        assert(spec_serving_segment(before, class_of_size as int) == Some(seg_index));
        assert(spec_block_taken(before, after, seg_index, ptr, from_subheap));
        assert(spec_alloc_on_subheap(
            before,
            class_of_size as int,
            after,
            Ok(ptr),
            old(env).calls(),
            env.calls(),
        ));
    }
    Ok(ptr)
}

/// What taking block `index` of segment `seg_index` back does.  A segment
/// that was full comes back to the list of its class, and one that this
/// empties goes to the keep-list; what the keep-list has no room for goes to
/// the free-segment list and is soft-decommitted.
pub open spec fn spec_free_on_subheap(
    before: Header,
    seg_index: int,
    index: int,
    after: Header,
    freed: Result<(), AllocError>,
    calls_before: Seq<SysCall>,
    calls_after: Seq<SysCall>,
) -> bool {
    let seg = before.segment_space.segments@[seg_index];
    let flooded = spec_flooded_index(before, seg_index);
    &&& after.same_accounts(&before)
    &&& after.segment_space.same_extent(&before.segment_space)
    &&& after.keep_segments.keep_segments_count == before.keep_segments.keep_segments_count
    &&& freed matches Err(e) ==> {
        &&& e is EnvFailure
        &&& seg.additional_header.used_block_count == 1
        &&& before.keep_segments.should_keep_count == 0
        &&& after == before
        &&& calls_after == calls_before.push(
            SysCall::SoftDecommit {
                addr: spec_body_ptr(before.segment_space, flooded),
                len: SEGMENT_SIZE,
            },
        )
    }
    &&& freed is Ok ==> if seg.additional_header.used_block_count != 1 {
        &&& calls_after == calls_before
        &&& spec_others_kept(before, after, seg_index)
        &&& after.segment_space.segments@[seg_index].is_initialized()
        &&& after.segment_space.segments@[seg_index].class() == seg.class()
        &&& !after.segment_space.segments@[seg_index].spec_is_soft_decommitted()
        &&& after.segment_space.segments@[seg_index].additional_header_ptr
            == seg.additional_header_ptr
        &&& after.segment_space.segments@[seg_index].used_blocks() == seg.used_blocks().remove(
            index,
        )
        &&& after.segment_space.segments@[seg_index].owner@ == Owner::SubHeap(seg.class())
        &&& after.keep_segments.list@ == before.keep_segments.list@
        &&& after.free_segments@ == before.free_segments@
        &&& spec_other_subheaps_kept(before, after, seg.class())
        &&& after.subheaps@[seg.class()].list@ == (if seg.additional_header.used_block_count
            == seg.spec_block_count() {
            spec_subheap_with(before.subheaps@[seg.class()].list@, seg_index)
        } else {
            before.subheaps@[seg.class()].list@
        })
    } else {
        &&& spec_other_subheaps_kept(before, after, seg.class())
        &&& after.subheaps@[seg.class()].list@ == before.subheaps@[seg.class()].list@.remove(
            before.subheaps@[seg.class()].list@.index_of(seg_index),
        )
        &&& forall|kept: int|
            after.keep_segments.list@.contains(kept) <==> ((before.keep_segments.list@.contains(
                kept,
            ) || kept == seg_index) && (before.keep_segments.should_keep_count > 0 || kept
                != flooded))
        &&& forall|other: int|
            0 <= other < before.segment_space.segments@.len() && other != seg_index && other
                != flooded ==> (#[trigger] after.segment_space.segments@[other]).same_blocks(
                &before.segment_space.segments@[other],
            ) && after.segment_space.segments@[other].owner@
                == before.segment_space.segments@[other].owner@
                && after.segment_space.segments@[other].spec_is_soft_decommitted()
                == before.segment_space.segments@[other].spec_is_soft_decommitted()
        &&& after.segment_space.segments@[seg_index].additional_header.used_block_count == 0
        &&& if before.keep_segments.should_keep_count > 0 {
            &&& calls_after == calls_before
            &&& after.segment_space.segments@[seg_index].owner@ == Owner::KeepList
            &&& after.keep_segments.list@.len() == before.keep_segments.list@.len() + 1
            &&& after.free_segments@ == before.free_segments@
            &&& flooded != seg_index ==> after.segment_space.segments@[flooded].same_blocks(
                &before.segment_space.segments@[flooded],
            ) && after.segment_space.segments@[flooded].owner@
                == before.segment_space.segments@[flooded].owner@
        } else {
            &&& calls_after == calls_before.push(
                SysCall::SoftDecommit {
                    addr: spec_body_ptr(before.segment_space, flooded),
                    len: SEGMENT_SIZE,
                },
            )
            &&& after.keep_segments.list@.len() == before.keep_segments.list@.len()
            &&& after.free_segments@ == seq![flooded] + before.free_segments@
            &&& after.segment_space.segments@[flooded].owner@ == Owner::FreeList
            &&& after.segment_space.segments@[flooded].spec_is_soft_decommitted()
            &&& flooded != seg_index ==> after.segment_space.segments@[seg_index].owner@
                == Owner::KeepList
        }
    }
}

/// Takes block `index` of the segment at `seg_ptr` back.
pub fn free_on_subheap<Env: SysMemEnv>(
    manager: &mut SampleAlloc,
    env: &mut TracedEnv<Env>,
    seg_ptr: AnyNonNullPtr,
    index: usize,
) -> (freed: Result<(), AllocError>)
    requires
        old(manager).wf(),
        old(manager).arena.header.segment_space.is_header_addr(seg_ptr.raw as int),
        ({
            let header = old(manager).arena.header;
            let seg = header.segment_space.spec_segment(seg_ptr);
            &&& seg.is_initialized()
            &&& !seg.spec_is_soft_decommitted()
            &&& index < seg.spec_block_count()
            &&& seg.block_used(index as int)
        }),
    ensures
        spec_refusal(*old(env), *final(env), spec_env_refusal(freed)),
        final(manager).wf(),
        final(manager).arena.context_space == old(manager).arena.context_space,
        spec_free_on_subheap(
            old(manager).arena.header,
            old(manager).arena.header.segment_space.spec_index_of_header(seg_ptr.raw as int),
            index as int,
            final(manager).arena.header,
            freed,
            old(env).calls(),
            final(env).calls(),
        ),
        freed matches Err(AllocError::EnvFailure(e)) ==> final(env).last_failed() == Some(e),
{
    let ghost before = manager.arena.header;
    let ghost seg_index = before.segment_space.spec_index_of_header(seg_ptr.raw as int);
    proof {
        let seg = before.segment_space.segments@[seg_index];
        assert(owner_agrees(seg));
        assert(is_settled_segment(seg));
        seg.lemma_used_blocks_bound();
        assert(seg.used_blocks().contains(index as int));
        assert(seg.used_blocks().len() != 0) by {
            if seg.used_blocks().len() == 0 {
                assert(seg.used_blocks() =~= Set::<int>::empty());
            }
        }
        lemma_layout_of_class(seg.class());
        let witness = choose|at: int|
            0 <= at < before.segment_space.segments@.len() && seg_ptr.raw
                == #[trigger] before.segment_space.spec_header_addr(at);
        before.segment_space.lemma_header_addr(witness);
    }
    let seg = manager.arena.segment(seg_ptr);
    let cls = seg.subheap_class();
    let used = seg.used_block_count();
    let count = block_count_of_class(cls);
    if used == 1 {
        proof {
            assert(is_settled_segment(before.segment_space.segments@[seg_index]));
            assert(owner_agrees(before.segment_space.segments@[seg_index]));
        }
        // what the keep-list has no room for is decommitted before anything
        // changes, so that a refusal leaves everything as it is
        match flood_candidate(&manager.arena.header, seg_ptr) {
            None => {},
            Some(flooded) => {
                let body_ptr = manager.arena.segment(flooded).seg_ptr();
                proof {
                    before.segment_space.lemma_header_addr(
                        before.segment_space.spec_index_of_header(flooded.raw as int),
                    );
                }
                match env.soft_decommit(body_ptr, SEGMENT_SIZE) {
                    Ok(()) => {},
                    Err(e) => {
                        return Err(AllocError::EnvFailure(e));
                    },
                }
            },
        }
        manager.arena.remove_segment_from_subheap(cls, seg_ptr);
        let ghost unlinked = manager.arena.header;
        proof {
            unlinked.segment_space.segments@[seg_index].lemma_same_blocks(
                &before.segment_space.segments@[seg_index],
            );
            unlinked.segment_space.segments@[seg_index].lemma_same_used_blocks(
                &before.segment_space.segments@[seg_index],
                index as int,
            );
        }
        let _ = free_block_by_header(&mut manager.arena.header, seg_ptr, index);
        let ghost emptied = manager.arena.header;
        proof {
            emptied.segment_space.lemma_header_addr(seg_index);
            lemma_others_settled(before, unlinked, emptied, seg_index);
        }
        settle_unused_segment(&mut manager.arena.header, seg_ptr);
        proof {
            lemma_settled_after_free_unused_segment(emptied, seg_ptr, manager.arena.header);
            let after = manager.arena.header;
            let flooded = spec_flooded_index(before, seg_index);
            assert(spec_flooded_index(emptied, seg_index) == flooded);
            if flooded != seg_index || before.keep_segments.should_keep_count > 0 {
                after.segment_space.segments@[seg_index].lemma_same_blocks(
                    &emptied.segment_space.segments@[seg_index],
                );
            } else {
                assert(owner_agrees(after.segment_space.segments@[seg_index]));
            }
        }
        Ok(())
    } else if used == count {
        let _ = free_block_by_header(&mut manager.arena.header, seg_ptr, index);
        let ghost freed_header = manager.arena.header;
        manager.arena.insert_free_segment_to_subheap(cls, seg_ptr);
        proof {
            let after = manager.arena.header;
            after.segment_space.segments@[seg_index].lemma_same_blocks(
                &freed_header.segment_space.segments@[seg_index],
            );
            lemma_others_settled(before, freed_header, after, seg_index);
        }
        Ok(())
    } else {
        let _ = free_block_by_header(&mut manager.arena.header, seg_ptr, index);
        proof {
            let after = manager.arena.header;
            assert(after.subheaps@ =~= before.subheaps@);
            assert forall|other: int|
                0 <= other < after.segment_space.segments@.len() implies is_settled_segment(
                #[trigger] after.segment_space.segments@[other],
            ) by {}
        }
        Ok(())
    }
}

/// A block of a class that was handed out was not handed out before, lies
/// within the range of the segments, and is the one block that is handed out
/// in addition.
pub proof fn lemma_alloc_on_subheap_live(
    before: Header,
    class: int,
    after: Header,
    ptr: AnyNonNullPtr,
    calls_before: Seq<SysCall>,
    calls_after: Seq<SysCall>,
)
    requires
        before.wf(),
        after.wf(),
        0 <= class < CLASS_COUNT,
        spec_alloc_on_subheap(before, class, after, Ok(ptr), calls_before, calls_after),
    ensures
        !before.is_live_block(ptr.raw as int),
        after.live_blocks() == before.live_blocks().insert(ptr.raw as int),
        after.segment_space.spec_ptr_in_space(ptr.raw as int),
{
    let seg_index = spec_serving_segment(before, class).unwrap();
    let list = before.subheaps@[class].list@;
    let from_subheap = list.len() > 0;
    let addr = ptr.raw as int;
    let index = choose|index: int|
        {
            &&& if from_subheap {
                is_lowest_free_block(before.segment_space.segments@[seg_index], index)
            } else {
                index == 0
            }
            &&& #[trigger] after.segment_space.is_used_block_addr(addr, seg_index, index)
            &&& after.segment_space.segments@[seg_index].used_blocks() == (if from_subheap {
                before.segment_space.segments@[seg_index].used_blocks()
            } else {
                Set::<int>::empty()
            }).insert(index)
        };
    let seg = after.segment_space.segments@[seg_index];
    after.segment_space.lemma_block_addr(addr, seg_index, index);
    assert forall|other: int| other != seg_index implies #[trigger]
        after.segment_space.used_block_addrs(other) == before.segment_space.used_block_addrs(
        other,
    ) by {
        after.segment_space.lemma_used_block_addrs_kept(&before.segment_space, other);
    }
    if from_subheap {
        assert(before.segment_space.segments@[list[0]].owner@ == Owner::SubHeap(class));
        assert(owner_agrees(before.segment_space.segments@[seg_index]));
        after.segment_space.lemma_header_addr(seg_index);
        before.segment_space.lemma_header_addr(seg_index);
        let old_seg = before.segment_space.segments@[seg_index];
        assert(!old_seg.used_blocks().contains(index));
        after.segment_space.lemma_used_block_addrs_changed(&before.segment_space, seg_index, index);
    } else {
        if before.keep_segments.list@.len() > 0 {
            assert(before.segment_space.segments@[before.keep_segments.list@[0]].owner@
                == Owner::KeepList);
            assert(owner_agrees(before.segment_space.segments@[seg_index]));
        } else if before.free_segments@.len() > 0 {
            assert(before.segment_space.segments@[before.free_segments@[0]].owner@
                == Owner::FreeList);
            assert(owner_agrees(before.segment_space.segments@[seg_index]));
        }
        before.segment_space.lemma_used_block_addrs_none(seg_index);
        assert forall|other: int, at: int| #[trigger]
            after.segment_space.is_used_block_addr(other, seg_index, at) implies other
            == addr by {
            assert(seg.used_blocks().contains(at));
        }
        assert(after.segment_space.used_block_addrs(seg_index) =~= Set::<int>::empty().insert(
            addr,
        ));
    }
    lemma_live_blocks_insert(before, after, seg_index, addr);
    if before.is_live_block(addr) {
        before.lemma_live_block_regime(addr);
        let other = choose|other: int| #[trigger]
            before.segment_space.used_block_addrs(other).contains(addr);
        if other != seg_index {
            assert(after.segment_space.used_block_addrs(other).contains(addr));
            let at = choose|at: int| #[trigger]
                after.segment_space.is_used_block_addr(addr, other, at);
            after.segment_space.lemma_block_addr_unique(addr, seg_index, index, other, at);
        }
    }
}

/// A large block that was handed out was not handed out before, lies outside
/// of the range of the segments, and is the one block that is handed out in
/// addition.  Its mapping is what the budget fell by.
pub proof fn lemma_alloc_block_of_free_size_live(
    before: Header,
    block_size: usize,
    after: Header,
    ptr: AnyNonNullPtr,
    calls_before: Seq<SysCall>,
    calls_after: Seq<SysCall>,
)
    requires
        before.wf(),
        after.wf(),
        spec_alloc_block_of_free_size(
            before,
            block_size,
            after,
            Ok(Some(ptr)),
            calls_before,
            calls_after,
        ),
    ensures
        !before.is_live_block(ptr.raw as int),
        after.live_blocks() == before.live_blocks().insert(ptr.raw as int),
        !after.segment_space.spec_ptr_in_space(ptr.raw as int),
        after.segment_space.available_size + spec_allocate_size(
            block_size as int,
            before.segment_space.page_size as int,
        ) == before.segment_space.available_size,
{
    let addr = ptr.raw as int;
    let at = before.free_size_blocks@.len() as int;
    assert(is_free_size_block_at(after, addr, at));
    assert forall|other: int| #[trigger]
        after.segment_space.used_block_addrs(other) =~= before.segment_space.used_block_addrs(
        other,
    ) by {
        after.segment_space.lemma_used_block_addrs_kept(&before.segment_space, other);
    }
    assert forall|other: int|
        after.is_live_block(other) == (other == addr || before.is_live_block(other)) by {
        if after.is_live_block(other) && other != addr {
            if exists|at: int| is_free_size_block_at(after, other, at) {
                let found = choose|at: int| is_free_size_block_at(after, other, at);
                assert(is_free_size_block_at(before, other, found));
            } else {
                let s = choose|s: int| #[trigger]
                    after.segment_space.used_block_addrs(s).contains(other);
                assert(before.segment_space.used_block_addrs(s).contains(other));
            }
        }
        if before.is_live_block(other) {
            if exists|at: int| is_free_size_block_at(before, other, at) {
                let found = choose|at: int| is_free_size_block_at(before, other, at);
                assert(is_free_size_block_at(after, other, found));
            } else {
                let s = choose|s: int| #[trigger]
                    before.segment_space.used_block_addrs(s).contains(other);
                assert(after.segment_space.used_block_addrs(s).contains(other));
            }
        }
    }
    assert(after.live_blocks() =~= before.live_blocks().insert(addr));
    if before.is_live_block(addr) {
        before.lemma_live_block_regime(addr);
        let found = choose|at: int| is_free_size_block_at(before, addr, at);
        assert(before.free_size_blocks@[found].block_ptr.raw == ptr.raw
            - BLOCK_FREE_SIZE_HEADER_SIZE);
    }
}

/// A block of a class that was taken back is the one block that is not
/// handed out any more.  Where the environment refused, the same blocks are
/// handed out as before.
pub proof fn lemma_free_on_subheap_live(
    before: Header,
    seg_index: int,
    index: int,
    addr: int,
    after: Header,
    freed: Result<(), AllocError>,
    calls_before: Seq<SysCall>,
    calls_after: Seq<SysCall>,
)
    requires
        before.wf(),
        after.wf(),
        before.segment_space.is_used_block_addr(addr, seg_index, index),
        spec_free_on_subheap(before, seg_index, index, after, freed, calls_before, calls_after),
    ensures
        after.live_blocks() == (if freed is Ok {
            before.live_blocks().remove(addr)
        } else {
            before.live_blocks()
        }),
{
    if freed is Ok {
        lemma_freed_on_subheap_live(
            before,
            seg_index,
            index,
            addr,
            after,
            calls_before,
            calls_after,
        );
    }
}

/// A block of a class that was taken back is the one block that is not
/// handed out any more.
proof fn lemma_freed_on_subheap_live(
    before: Header,
    seg_index: int,
    index: int,
    addr: int,
    after: Header,
    calls_before: Seq<SysCall>,
    calls_after: Seq<SysCall>,
)
    requires
        before.wf(),
        after.wf(),
        before.segment_space.is_used_block_addr(addr, seg_index, index),
        spec_free_on_subheap(before, seg_index, index, after, Ok(()), calls_before, calls_after),
    ensures
        after.live_blocks() == before.live_blocks().remove(addr),
{
    let seg = before.segment_space.segments@[seg_index];
    let flooded = spec_flooded_index(before, seg_index);
    assert(before.segment_space.used_block_addrs(seg_index).contains(addr));
    assert(seg.used_blocks().contains(index));
    before.segment_space.lemma_header_addr(seg_index);
    after.segment_space.lemma_header_addr(seg_index);
    if seg.additional_header.used_block_count != 1 {
        assert forall|other: int| other != seg_index implies #[trigger]
            after.segment_space.used_block_addrs(other) == before.segment_space.used_block_addrs(
            other,
        ) by {
            after.segment_space.lemma_used_block_addrs_kept(&before.segment_space, other);
        }
        assert(seg.used_blocks() =~= after.segment_space.segments@[seg_index].used_blocks().insert(
            index,
        ));
        before.segment_space.lemma_used_block_addrs_changed(&after.segment_space, seg_index, index);
    } else {
        if flooded != seg_index {
            assert(before.segment_space.segments@[before.keep_segments.list@[before.keep_segments.list@.len()
                - 1]].owner@ == Owner::KeepList);
            assert(owner_agrees(before.segment_space.segments@[flooded]));
            before.segment_space.lemma_used_block_addrs_none(flooded);
        }
        assert forall|other: int| other != seg_index implies #[trigger]
            after.segment_space.used_block_addrs(other) == before.segment_space.used_block_addrs(
            other,
        ) by {
            if other == flooded {
                if before.keep_segments.should_keep_count > 0 {
                    after.segment_space.lemma_used_block_addrs_kept(&before.segment_space, other);
                } else {
                    after.segment_space.lemma_used_block_addrs_none(other);
                }
            } else {
                after.segment_space.lemma_used_block_addrs_kept(&before.segment_space, other);
            }
        }
        after.segment_space.lemma_used_block_addrs_none(seg_index);
        assert forall|other: int, at: int| #[trigger]
            before.segment_space.is_used_block_addr(other, seg_index, at) implies other
            == addr by {
            assert(seg.used_blocks().contains(at));
            if at != index {
                assert(seg.used_blocks().remove(index).contains(at));
                assert(seg.used_blocks().remove(index).len() == 0);
                assert(seg.used_blocks().remove(index) =~= Set::<int>::empty());
            }
        }
        assert(after.segment_space.used_block_addrs(seg_index)
            =~= before.segment_space.used_block_addrs(seg_index).remove(addr));
    }
    lemma_live_blocks_remove(before, after, seg_index, addr);
}

/// A large block that was taken back is the one block that is not handed
/// out any more, and its mapping is what the budget rose by.  Where the
/// environment did not release the mapping, the block is handed out still.
pub proof fn lemma_free_block_of_free_size_live(
    before: Header,
    ptr: AnyNonNullPtr,
    after: Header,
    freed: Result<(), AllocError>,
    calls_before: Seq<SysCall>,
    calls_after: Seq<SysCall>,
)
    requires
        before.wf(),
        after.wf(),
        !before.segment_space.spec_ptr_in_space(ptr.raw as int),
        spec_free_block_of_free_size(before, ptr, after, freed, calls_before, calls_after),
    ensures
        before.is_live_block(ptr.raw as int) <==> freed != Err::<(), AllocError>(
            AllocError::PreconditionViolated(Violation::UnownedPointer),
        ),
        after.live_blocks() == (if freed is Ok {
            before.live_blocks().remove(ptr.raw as int)
        } else {
            before.live_blocks()
        }),
        freed is Ok ==> exists|at: int|
            is_free_size_block_at(before, ptr.raw as int, at) && after.segment_space.available_size
                == before.segment_space.available_size
                + #[trigger] before.free_size_blocks@[at].spec_whole_size(),
{
    let addr = ptr.raw as int;
    assert forall|other: int| #[trigger]
        after.segment_space.used_block_addrs(other) =~= before.segment_space.used_block_addrs(
        other,
    ) by {
        after.segment_space.lemma_used_block_addrs_kept(&before.segment_space, other);
    }
    if before.is_live_block(addr) {
        before.lemma_live_block_regime(addr);
    }
    if exists|at: int| is_free_size_block_at(before, addr, at) {
        let at = choose|at: int| is_free_size_block_at(before, addr, at);
        if freed is Ok {
            let blocks = before.free_size_blocks@;
            let shrunk = blocks.remove(at);
            assert forall|index: int| 0 <= index < shrunk.len() implies #[trigger] shrunk[index]
                == (if index < at {
                blocks[index]
            } else {
                blocks[index + 1]
            }) by {}
            assert forall|other: int|
                after.is_live_block(other) == (other != addr && before.is_live_block(
                    other,
                )) by {
                if after.is_live_block(other) {
                    if exists|found: int| is_free_size_block_at(after, other, found) {
                        let found = choose|found: int| is_free_size_block_at(after, other, found);
                        let origin = if found < at {
                            found
                        } else {
                            found + 1
                        };
                        assert(is_free_size_block_at(before, other, origin));
                        if other == addr {
                            if origin < at {
                                assert(blocks[origin].block_ptr != blocks[at].block_ptr);
                            } else {
                                assert(blocks[at].block_ptr != blocks[origin].block_ptr);
                            }
                        }
                    } else {
                        let s = choose|s: int| #[trigger]
                            after.segment_space.used_block_addrs(s).contains(other);
                        assert(before.segment_space.used_block_addrs(s).contains(other));
                        if other == addr {
                            before.lemma_live_block_regime(addr);
                        }
                    }
                }
                if before.is_live_block(other) && other != addr {
                    if exists|found: int| is_free_size_block_at(before, other, found) {
                        let found = choose|found: int| is_free_size_block_at(before, other, found);
                        let target = if found < at {
                            found
                        } else {
                            found - 1
                        };
                        assert(is_free_size_block_at(after, other, target));
                    } else {
                        let s = choose|s: int| #[trigger]
                            before.segment_space.used_block_addrs(s).contains(other);
                        assert(after.segment_space.used_block_addrs(s).contains(other));
                    }
                }
            }
            assert(after.live_blocks() =~= before.live_blocks().remove(addr));
        } else {
            lemma_live_blocks_kept(before, after);
        }
    } else {
        lemma_live_blocks_kept(before, after);
    }
}

/// What `alloc_with_env` hands out was not handed out before and is the one
/// block that is handed out in addition; where it hands nothing out, the
/// same blocks are handed out as before.  A block of a class lies within the
/// range of the segments, and a large block outside of it.
pub proof fn lemma_alloc_live(
    before: Header,
    size: usize,
    after: Header,
    allocated: Result<AnyNonNullPtr, AllocError>,
    calls_before: Seq<SysCall>,
    calls_after: Seq<SysCall>,
)
    requires
        before.wf(),
        after.wf(),
        spec_alloc(before, size, after, allocated, calls_before, calls_after),
    ensures
        match allocated {
            Ok(ptr) => {
                &&& !before.is_live_block(ptr.raw as int)
                &&& after.live_blocks() == before.live_blocks().insert(ptr.raw as int)
                &&& after.segment_space.spec_ptr_in_space(ptr.raw as int) == (spec_class_of_size(
                    spec_min_aligned_size(size as int, ALIGNMENT_SIZE as int),
                ) is Some)
            },
            Err(_) => after.live_blocks() == before.live_blocks(),
        },
{
    let aligned = spec_min_aligned_size(size as int, ALIGNMENT_SIZE as int);
    if size > spec_max_request_size() {
        assert forall|other: int| #[trigger]
            after.segment_space.used_block_addrs(other)
                =~= before.segment_space.used_block_addrs(other) by {
            after.segment_space.lemma_used_block_addrs_kept(&before.segment_space, other);
        }
        lemma_live_blocks_kept(before, after);
    } else {
        match spec_class_of_size(aligned) {
            Some(class) => {
                match allocated {
                    Ok(ptr) => {
                        lemma_alloc_on_subheap_live(
                            before,
                            class,
                            after,
                            ptr,
                            calls_before,
                            calls_after,
                        );
                    },
                    Err(_) => {
                        assert forall|other: int| #[trigger]
                            after.segment_space.used_block_addrs(other)
                                =~= before.segment_space.used_block_addrs(other) by {
                            after.segment_space.lemma_used_block_addrs_kept(
                                &before.segment_space,
                                other,
                            );
                        }
                        lemma_live_blocks_kept(before, after);
                    },
                }
            },
            None => {
                match allocated {
                    Ok(ptr) => {
                        lemma_alloc_block_of_free_size_live(
                            before,
                            aligned as usize,
                            after,
                            ptr,
                            calls_before,
                            calls_after,
                        );
                    },
                    Err(_) => {
                        assert forall|other: int| #[trigger]
                            after.segment_space.used_block_addrs(other)
                                =~= before.segment_space.used_block_addrs(other) by {
                            after.segment_space.lemma_used_block_addrs_kept(
                                &before.segment_space,
                                other,
                            );
                        }
                        lemma_live_blocks_kept(before, after);
                    },
                }
            },
        }
    }
}

/// `free_with_env` refuses exactly the pointers at which no block is handed
/// out.  A block is taken back where the call succeeds; where the
/// environment refuses, the same blocks are handed out as before.
pub proof fn lemma_free_live(
    before: Header,
    ptr: AnyNonNullPtr,
    after: Header,
    freed: Result<(), AllocError>,
    calls_before: Seq<SysCall>,
    calls_after: Seq<SysCall>,
)
    requires
        before.wf(),
        after.wf(),
        spec_free(before, ptr, after, freed, calls_before, calls_after),
    ensures
        before.is_live_block(ptr.raw as int) <==> freed != Err::<(), AllocError>(
            AllocError::PreconditionViolated(Violation::UnownedPointer),
        ),
        after.live_blocks() == (if freed is Ok {
            before.live_blocks().remove(ptr.raw as int)
        } else {
            before.live_blocks()
        }),
        freed is Ok ==> before.is_live_block(ptr.raw as int),
{
    let addr = ptr.raw as int;
    if before.is_live_block(addr) {
        before.lemma_live_block_regime(addr);
    }
    if !before.segment_space.spec_ptr_in_space(addr) {
        lemma_free_block_of_free_size_live(before, ptr, after, freed, calls_before, calls_after);
    } else if exists|seg_index: int, index: int| #[trigger]
        before.segment_space.is_used_block_addr(addr, seg_index, index) {
        let (seg_index, index) = choose|seg_index: int, index: int| #[trigger]
            before.segment_space.is_used_block_addr(addr, seg_index, index);
        assert(before.segment_space.used_block_addrs(seg_index).contains(addr));
        lemma_free_on_subheap_live(
            before,
            seg_index,
            index,
            addr,
            after,
            freed,
            calls_before,
            calls_after,
        );
    } else {
        assert forall|other: int| #[trigger]
            after.segment_space.used_block_addrs(other)
                =~= before.segment_space.used_block_addrs(other) by {
            after.segment_space.lemma_used_block_addrs_kept(&before.segment_space, other);
        }
        lemma_live_blocks_kept(before, after);
        if before.is_live_block(addr) {
            let s = choose|s: int| #[trigger]
                before.segment_space.used_block_addrs(s).contains(addr);
            let at = choose|at: int| #[trigger]
                before.segment_space.is_used_block_addr(addr, s, at);
        }
    }
}

/// Handing a block out and taking it back leaves the blocks that are handed
/// out as they were.  Where no segment was committed for the block, the
/// budget is as it was too.
pub proof fn lemma_alloc_then_free(
    before: Header,
    size: usize,
    allocated: Header,
    ptr: AnyNonNullPtr,
    after: Header,
    freed: Result<(), AllocError>,
    calls_before: Seq<SysCall>,
    calls_allocated: Seq<SysCall>,
    calls_after: Seq<SysCall>,
)
    requires
        before.wf(),
        allocated.wf(),
        after.wf(),
        spec_alloc(before, size, allocated, Ok(ptr), calls_before, calls_allocated),
        spec_free(allocated, ptr, after, freed, calls_allocated, calls_after),
    ensures
        freed != Err::<(), AllocError>(
            AllocError::PreconditionViolated(Violation::UnownedPointer),
        ),
        freed is Ok ==> after.live_blocks() == before.live_blocks(),
        freed is Ok && allocated.segment_space.segments@.len()
            == before.segment_space.segments@.len() ==> after.segment_space.available_size
            == before.segment_space.available_size,
{
    let addr = ptr.raw as int;
    lemma_alloc_live(before, size, allocated, Ok(ptr), calls_before, calls_allocated);
    lemma_free_live(allocated, ptr, after, freed, calls_allocated, calls_after);
    assert(allocated.live_blocks().contains(addr));
    assert(allocated.is_live_block(addr));
    assert(before.live_blocks().insert(addr).remove(addr) =~= before.live_blocks());
    let aligned = spec_min_aligned_size(size as int, ALIGNMENT_SIZE as int);
    if freed is Ok {
        if !allocated.segment_space.spec_ptr_in_space(addr) {
            lemma_free_block_of_free_size_live(
                allocated,
                ptr,
                after,
                freed,
                calls_allocated,
                calls_after,
            );
            lemma_alloc_block_of_free_size_live(
                before,
                aligned as usize,
                allocated,
                ptr,
                calls_before,
                calls_allocated,
            );
            let at = choose|at: int|
                is_free_size_block_at(allocated, addr, at) && after.segment_space.available_size
                    == allocated.segment_space.available_size
                    + #[trigger] allocated.free_size_blocks@[at].spec_whole_size();
            let last = before.free_size_blocks@.len() as int;
            assert(is_free_size_block_at(allocated, addr, last));
            if at < last {
                assert(allocated.free_size_blocks@[at].block_ptr
                    != allocated.free_size_blocks@[last].block_ptr);
            } else if last < at {
                assert(allocated.free_size_blocks@[last].block_ptr
                    != allocated.free_size_blocks@[at].block_ptr);
            }
            lemma_min_aligned_size(
                BLOCK_FREE_SIZE_HEADER_SIZE + aligned,
                before.segment_space.page_size as int,
            );
            let flags = allocated.free_size_blocks@[last].header.block_size_with_flags;
            assert(flags % ALIGNMENT_SIZE == 0);
            assert(allocated.free_size_blocks@[last].header.spec_block_size() == flags);
        } else {
            allocated.lemma_live_block_regime(addr);
            let s = choose|s: int| #[trigger]
                allocated.segment_space.used_block_addrs(s).contains(addr);
            let at = choose|at: int| #[trigger]
                allocated.segment_space.is_used_block_addr(addr, s, at);
            assert(spec_class_of_size(aligned) is Some);
        }
    }
}

/// A segment that the block handed out fills leaves the list of its class.
pub proof fn lemma_full_segment_leaves_subheap(
    before: Header,
    class: int,
    after: Header,
    ptr: AnyNonNullPtr,
    calls_before: Seq<SysCall>,
    calls_after: Seq<SysCall>,
)
    requires
        before.wf(),
        after.wf(),
        0 <= class < CLASS_COUNT,
        spec_alloc_on_subheap(before, class, after, Ok(ptr), calls_before, calls_after),
    ensures
        ({
            let seg_index = spec_serving_segment(before, class).unwrap();
            let seg = after.segment_space.segments@[seg_index];
            after.subheaps@[class].list@.contains(seg_index)
                <==> seg.additional_header.used_block_count
                < seg.spec_block_count()
        }),
{
    let seg_index = spec_serving_segment(before, class).unwrap();
    let list = after.subheaps@[class].list@;
    let index = choose|index: int| #[trigger]
        after.segment_space.is_used_block_addr(ptr.raw as int, seg_index, index);
    after.segment_space.segments@[seg_index].lemma_used_blocks_bound();
    if list.contains(seg_index) {
        let at = choose|at: int| 0 <= at < list.len() && list[at] == seg_index;
        assert(after.segment_space.segments@[list[at]].owner@ == Owner::SubHeap(class));
    }
}

/// A full segment of which a block is taken back comes back to the list of
/// its class.
pub proof fn lemma_freed_segment_joins_subheap(
    before: Header,
    seg_index: int,
    index: int,
    after: Header,
    freed: Result<(), AllocError>,
    calls_before: Seq<SysCall>,
    calls_after: Seq<SysCall>,
)
    requires
        before.wf(),
        after.wf(),
        before.segment_space.is_used_block_addr(
            before.segment_space.segments@[seg_index].spec_block_addr(index),
            seg_index,
            index,
        ),
        before.segment_space.segments@[seg_index].additional_header.used_block_count
            == before.segment_space.segments@[seg_index].spec_block_count(),
        spec_free_on_subheap(before, seg_index, index, after, freed, calls_before, calls_after),
    ensures
        freed is Ok,
        after.subheaps@[before.segment_space.segments@[seg_index].class()].list@.contains(
            seg_index,
        ),
        forall|class: int|
            0 <= class < CLASS_COUNT ==> !(#[trigger] before.subheaps@[class]).list@.contains(
                seg_index,
            ),
{
    let seg = before.segment_space.segments@[seg_index];
    lemma_layout_of_class(seg.class());
    assert forall|class: int| 0 <= class < CLASS_COUNT implies !(
    #[trigger] before.subheaps@[class]).list@.contains(seg_index) by {
        let list = before.subheaps@[class].list@;
        if list.contains(seg_index) {
            let at = choose|at: int| 0 <= at < list.len() && list[at] == seg_index;
            assert(before.segment_space.segments@[list[at]].owner@ == Owner::SubHeap(class));
            assert(owner_agrees(before.segment_space.segments@[seg_index]));
        }
    }
}

/// Taking the last block of a segment back while the keep-list is full asks
/// the environment exactly once: to soft-decommit the body of the segment
/// with the highest address among those of the keep-list and the emptied
/// one.  Where the environment refuses, nothing changes.  In every other
/// case taking a block of a class back asks the environment nothing.
pub proof fn lemma_keep_list_overflow(
    before: Header,
    seg_index: int,
    index: int,
    after: Header,
    freed: Result<(), AllocError>,
    calls_before: Seq<SysCall>,
    calls_after: Seq<SysCall>,
)
    requires
        before.wf(),
        after.wf(),
        spec_free_on_subheap(before, seg_index, index, after, freed, calls_before, calls_after),
    ensures
        ({
            let flooded = spec_flooded_index(before, seg_index);
            if before.segment_space.segments@[seg_index].additional_header.used_block_count == 1
                && before.keep_segments.should_keep_count == 0 {
                &&& calls_after == calls_before.push(
                    SysCall::SoftDecommit {
                        addr: spec_body_ptr(before.segment_space, flooded),
                        len: SEGMENT_SIZE,
                    },
                )
                &&& flooded == seg_index || before.keep_segments.list@.contains(flooded)
                &&& seg_index <= flooded
                &&& forall|kept: int| before.keep_segments.list@.contains(kept) ==> kept <= flooded
                &&& freed is Ok ==> {
                    &&& after.segment_space.segments@[flooded].spec_is_soft_decommitted()
                    &&& after.free_segments@.contains(flooded)
                    &&& !after.keep_segments.list@.contains(flooded)
                }
                &&& freed is Err ==> after == before
            } else {
                calls_after == calls_before
            }
        }),
{
    let flooded = spec_flooded_index(before, seg_index);
    let keep = before.keep_segments.list@;
    if before.segment_space.segments@[seg_index].additional_header.used_block_count == 1
        && before.keep_segments.should_keep_count == 0 {
        if flooded != seg_index {
            assert(keep[keep.len() - 1] == flooded);
        }
        assert forall|kept: int| keep.contains(kept) implies kept <= flooded by {
            let at = choose|at: int| 0 <= at < keep.len() && keep[at] == kept;
            if at < keep.len() - 1 {
                assert(keep[at] < keep[keep.len() - 1]);
            }
        }
        if freed is Ok {
            assert(after.free_segments@[0] == flooded);
        }
        if freed is Ok && after.keep_segments.list@.contains(flooded) {
            let list = after.keep_segments.list@;
            let at = choose|at: int| 0 <= at < list.len() && list[at] == flooded;
            assert(after.segment_space.segments@[list[at]].owner@ == Owner::KeepList);
        }
    }
}

/// Step `step` of a run of pairs: a block is handed out from state
/// `2 * step` and taken back in the state after it.
pub open spec fn is_balanced_pair(
    states: Seq<Header>,
    sizes: Seq<usize>,
    ptrs: Seq<AnyNonNullPtr>,
    calls: Seq<Seq<SysCall>>,
    step: int,
) -> bool {
    &&& states[2 * step].wf()
    &&& states[2 * step + 1].wf()
    &&& states[2 * step + 2].wf()
    &&& spec_alloc(
        states[2 * step],
        sizes[step],
        states[2 * step + 1],
        Ok(ptrs[step]),
        calls[2 * step],
        calls[2 * step + 1],
    )
    &&& spec_free(
        states[2 * step + 1],
        ptrs[step],
        states[2 * step + 2],
        Ok(()),
        calls[2 * step + 1],
        calls[2 * step + 2],
    )
}

/// A run of pairs, in each of which a block is handed out and taken back,
/// leaves the blocks that are handed out as they were, and commits no
/// segment less than before.  Where it commits no segment, the budget is as
/// it was too.
pub proof fn lemma_balanced_pairs(
    states: Seq<Header>,
    sizes: Seq<usize>,
    ptrs: Seq<AnyNonNullPtr>,
    calls: Seq<Seq<SysCall>>,
)
    requires
        states.len() == 2 * sizes.len() + 1,
        ptrs.len() == sizes.len(),
        calls.len() == states.len(),
        forall|step: int|
            0 <= step < sizes.len() ==> #[trigger] is_balanced_pair(
                states,
                sizes,
                ptrs,
                calls,
                step,
            ),
    ensures
        states.last().live_blocks() == states[0].live_blocks(),
        states[0].segment_space.segments@.len() <= states.last().segment_space.segments@.len(),
        states.last().segment_space.segments@.len() == states[0].segment_space.segments@.len()
            ==> states.last().segment_space.available_size
            == states[0].segment_space.available_size,
    decreases sizes.len(),
{
    if sizes.len() > 0 {
        let last = sizes.len() - 1;
        let earlier = states.subrange(0, states.len() - 2);
        let earlier_calls = calls.subrange(0, calls.len() - 2);
        assert forall|step: int|
            0 <= step < sizes.drop_last().len() implies #[trigger] is_balanced_pair(
            earlier,
            sizes.drop_last(),
            ptrs.drop_last(),
            earlier_calls,
            step,
        ) by {
            assert(is_balanced_pair(states, sizes, ptrs, calls, step));
        }
        lemma_balanced_pairs(earlier, sizes.drop_last(), ptrs.drop_last(), earlier_calls);
        assert(is_balanced_pair(states, sizes, ptrs, calls, last));
        let before = states[2 * last];
        let allocated = states[2 * last + 1];
        let after = states[2 * last + 2];
        assert(states.subrange(0, states.len() - 2).last() == before);
        assert(states.subrange(0, states.len() - 2)[0] == states[0]);
        lemma_alloc_then_free(
            before,
            sizes[last],
            allocated,
            ptrs[last],
            after,
            Ok(()),
            calls[2 * last],
            calls[2 * last + 1],
            calls[2 * last + 2],
        );
        lemma_pair_keeps_segments(
            before,
            sizes[last],
            allocated,
            ptrs[last],
            after,
            calls[2 * last],
            calls[2 * last + 1],
            calls[2 * last + 2],
        );
    }
}

/// Handing a block out and taking it back commits segments at most: none
/// is given up.
pub proof fn lemma_pair_keeps_segments(
    before: Header,
    size: usize,
    allocated: Header,
    ptr: AnyNonNullPtr,
    after: Header,
    calls_before: Seq<SysCall>,
    calls_allocated: Seq<SysCall>,
    calls_after: Seq<SysCall>,
)
    requires
        before.wf(),
        allocated.wf(),
        after.wf(),
        spec_alloc(before, size, allocated, Ok(ptr), calls_before, calls_allocated),
        spec_free(allocated, ptr, after, Ok(()), calls_allocated, calls_after),
    ensures
        before.segment_space.segments@.len() <= allocated.segment_space.segments@.len(),
        after.segment_space.segments@.len() == allocated.segment_space.segments@.len(),
{
    lemma_alloc_live(before, size, allocated, Ok(ptr), calls_before, calls_allocated);
    let addr = ptr.raw as int;
    assert(allocated.live_blocks().contains(addr));
    assert(allocated.is_live_block(addr));
    allocated.lemma_live_block_regime(addr);
    if allocated.segment_space.spec_ptr_in_space(addr) {
        let s = choose|s: int| #[trigger]
            allocated.segment_space.used_block_addrs(s).contains(addr);
        let at = choose|at: int| #[trigger]
            allocated.segment_space.is_used_block_addr(addr, s, at);
    }
}

/// A size above the largest class gets a mapping of its own: the
/// environment is asked once, for the mapping, the segments and their lists
/// stay as they are, and the block lies outside of the range of the segments.
pub proof fn lemma_alloc_large(
    before: Header,
    size: usize,
    after: Header,
    ptr: AnyNonNullPtr,
    calls_before: Seq<SysCall>,
    calls_after: Seq<SysCall>,
)
    requires
        before.wf(),
        after.wf(),
        crate::internal::layout::subheap::MAX_SIZE_OF_CLASS < size <= spec_max_request_size(),
        spec_alloc(before, size, after, Ok(ptr), calls_before, calls_after),
    ensures
        calls_after == calls_before.push(
            SysCall::Alloc {
                len: spec_allocate_size(
                    spec_min_aligned_size(size as int, ALIGNMENT_SIZE as int),
                    before.segment_space.page_size as int,
                ) as usize,
            },
        ),
        same_segments(before, after),
        !after.segment_space.spec_ptr_in_space(ptr.raw as int),
        ptr.raw % ALIGNMENT_SIZE == 0,
{
    crate::internal::layout::subheap::lemma_class_of_request(size as int);
    lemma_min_aligned_size(size as int, ALIGNMENT_SIZE as int);
    lemma_alloc_live(before, size, after, Ok(ptr), calls_before, calls_after);
}

/// A request that ran out of heap leaves everything as it was: what is
/// handed out can be taken back as before.
pub proof fn lemma_out_of_heap_keeps(
    before: Header,
    size: usize,
    after: Header,
    calls_before: Seq<SysCall>,
    calls_after: Seq<SysCall>,
)
    requires
        before.wf(),
        after.wf(),
        spec_alloc(before, size, after, Err(AllocError::OutOfHeap), calls_before, calls_after),
    ensures
        calls_after == calls_before,
        spec_unchanged(before, after),
        after.live_blocks() == before.live_blocks(),
{
    lemma_alloc_live(before, size, after, Err(AllocError::OutOfHeap), calls_before, calls_after);
    lemma_min_aligned_size(size as int, ALIGNMENT_SIZE as int);
}

/// Handing a block of a class out of the first segment of its list and
/// taking it back, where the segment neither was empty nor is filled by it,
/// leaves every list as it was and every segment with the blocks handed out
/// and the owner that it had, and asks the environment nothing.
pub proof fn lemma_alloc_then_free_restores(
    before: Header,
    class: int,
    allocated: Header,
    ptr: AnyNonNullPtr,
    after: Header,
    freed: Result<(), AllocError>,
    calls_before: Seq<SysCall>,
    calls_allocated: Seq<SysCall>,
    calls_after: Seq<SysCall>,
)
    requires
        before.wf(),
        before.is_settled(),
        allocated.wf(),
        after.wf(),
        0 <= class < CLASS_COUNT,
        before.subheaps@[class].list@.len() > 0,
        before.segment_space.segments@[before.subheaps@[class].list@[0]].additional_header.used_block_count
            + 1 < spec_block_count_of_class(class),
        spec_alloc_on_subheap(before, class, allocated, Ok(ptr), calls_before, calls_allocated),
        spec_free(allocated, ptr, after, freed, calls_allocated, calls_after),
    ensures
        freed is Ok,
        calls_after == calls_before,
        after.segment_space.available_size == before.segment_space.available_size,
        after.keep_segments.list@ == before.keep_segments.list@,
        after.free_segments@ == before.free_segments@,
        forall|other: int|
            0 <= other < CLASS_COUNT ==> (#[trigger] after.subheaps@[other]).list@
                == before.subheaps@[other].list@,
        after.segment_space.segments@.len() == before.segment_space.segments@.len(),
        forall|index: int|
            0 <= index < before.segment_space.segments@.len() ==> {
                &&& (#[trigger] after.segment_space.segments@[index]).used_blocks()
                    == before.segment_space.segments@[index].used_blocks()
                &&& after.segment_space.segments@[index].additional_header.used_block_count
                    == before.segment_space.segments@[index].additional_header.used_block_count
                &&& after.segment_space.segments@[index].owner@
                    == before.segment_space.segments@[index].owner@
            },
{
    let list = before.subheaps@[class].list@;
    let seg_index = list[0];
    let addr = ptr.raw as int;
    let seg = before.segment_space.segments@[seg_index];
    assert(seg.owner@ == Owner::SubHeap(class));
    assert(owner_agrees(seg));
    assert(is_settled_segment(seg));
    assert(spec_serving_segment(before, class) == Some(seg_index));
    let index = choose|index: int|
        {
            &&& is_lowest_free_block(before.segment_space.segments@[seg_index], index)
            &&& #[trigger] allocated.segment_space.is_used_block_addr(addr, seg_index, index)
            &&& allocated.segment_space.segments@[seg_index].used_blocks()
                == before.segment_space.segments@[seg_index].used_blocks().insert(index)
        };
    let mid = allocated.segment_space.segments@[seg_index];
    seg.lemma_used_blocks_bound();
    mid.lemma_used_blocks_bound();
    assert(!seg.used_blocks().contains(index));
    allocated.segment_space.lemma_block_addr(addr, seg_index, index);
    let (found_seg, found) = choose|found_seg: int, found: int| #[trigger]
        allocated.segment_space.is_used_block_addr(addr, found_seg, found);
    allocated.segment_space.lemma_block_addr_unique(addr, seg_index, index, found_seg, found);
    assert(seg.used_blocks().insert(index).remove(index) =~= seg.used_blocks());
    assert(calls_allocated =~= calls_before) by {
        assert(calls_before + Seq::<SysCall>::empty() =~= calls_before);
    }
    assert forall|index: int| 0 <= index < before.segment_space.segments@.len() implies {
        &&& (#[trigger] after.segment_space.segments@[index]).used_blocks()
            == before.segment_space.segments@[index].used_blocks()
        &&& after.segment_space.segments@[index].additional_header.used_block_count
            == before.segment_space.segments@[index].additional_header.used_block_count
        &&& after.segment_space.segments@[index].owner@
            == before.segment_space.segments@[index].owner@
    } by {
        if index != seg_index {
            after.segment_space.segments@[index].lemma_same_blocks(
                &allocated.segment_space.segments@[index],
            );
            allocated.segment_space.segments@[index].lemma_same_blocks(
                &before.segment_space.segments@[index],
            );
        } else {
            after.segment_space.segments@[index].lemma_used_blocks_bound();
        }
    }
    assert forall|other: int| 0 <= other < CLASS_COUNT implies (
    #[trigger] after.subheaps@[other]).list@ == before.subheaps@[other].list@ by {
        if other != class {
            assert(after.subheaps@[other] == allocated.subheaps@[other]);
            assert(allocated.subheaps@[other] == before.subheaps@[other]);
        }
    }
}

} // verus!
