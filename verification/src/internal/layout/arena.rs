pub mod keep_segments_list;

use crate::error::{spec_env_refusal, AllocError, Violation};
use crate::internal::layout::arena::keep_segments_list::KeepSegmentsList;
use crate::internal::layout::block::{HeaderForFreeSize, Type, BLOCK_FREE_SIZE_HEADER_SIZE};
use crate::internal::layout::constants::ALIGNMENT_SIZE;
use crate::internal::layout::segment::{
    spec_block_count_of_class, spec_block_space_offset, Owner, Segment, COMPACT_HEADER_SIZE,
    SEGMENT_SIZE,
};
use crate::internal::layout::segment_space::{
    spec_can_alloc_new_segment, spec_new_segment_calls, spec_new_segment_cost, SegmentSpace,
};
use crate::internal::layout::subheap::{SubHeap, CLASS_COUNT};
use crate::sys::ptr::AnyNonNullPtr;
use crate::sys::{
    calls_begin_with, lemma_calls_added, lemma_calls_extend, spec_failure, spec_refusal,
    EnvError, ReserveError, SysCall, SysMemEnv, TracedEnv,
};
use crate::util::bits::{
    lemma_max_aligned_size, lemma_min_aligned_size, max_aligned_size, min_aligned_size,
    spec_max_aligned_size, spec_min_aligned_size,
};
use vstd::prelude::*;

verus! {

/// What an arena is made with.
pub struct Config {
    /// The bytes that are committed when the arena is made.
    pub min_heap_size: usize,
    /// The most bytes that the arena ever has committed.
    pub max_heap_size: usize,
    /// The most emptied segments that stay committed.
    pub keep_segments_count: usize,
}

/// The bytes that the header of the arena takes at the start of its context
/// space.
pub const ARENA_HEADER_SIZE: usize = 600;

/// The header of the arena, rounded up to a multiple of the size of a compact
/// header: the offset of the table of compact headers in the context space.
pub const ARENA_HEADER_SIZE_ALIGNED: usize = 608;

/// One large block that is handed out: where its mapping begins, and its
/// header.
#[derive(Debug, Clone, Copy, PartialEq, Eq, Structural)]
pub struct FreeSizeBlock {
    pub block_ptr: AnyNonNullPtr,
    pub header: HeaderForFreeSize,
}

impl FreeSizeBlock {
    /// The bytes of the mapping: the header and the payload.
    pub open spec fn spec_whole_size(&self) -> int {
        BLOCK_FREE_SIZE_HEADER_SIZE + self.header.spec_block_size()
    }

    /// The address that the caller holds.
    pub open spec fn spec_payload_addr(&self) -> int {
        self.block_ptr.raw + BLOCK_FREE_SIZE_HEADER_SIZE
    }
}

/// The bytes of the mappings of `blocks`.
pub open spec fn spec_total_size(blocks: Seq<FreeSizeBlock>) -> int
    decreases blocks.len(),
{
    if blocks.len() == 0 {
        0
    } else {
        spec_total_size(blocks.drop_last()) + blocks.last().spec_whole_size()
    }
}

/// Taking one block out of the list takes its mapping from the total.
pub proof fn lemma_total_size_remove(blocks: Seq<FreeSizeBlock>, at: int)
    requires
        0 <= at < blocks.len(),
    ensures
        spec_total_size(blocks.remove(at)) == spec_total_size(blocks)
            - blocks[at].spec_whole_size(),
    decreases blocks.len(),
{
    if at == blocks.len() - 1 {
        assert(blocks.remove(at) =~= blocks.drop_last());
    } else {
        lemma_total_size_remove(blocks.drop_last(), at);
        assert(blocks.remove(at).drop_last() =~= blocks.drop_last().remove(at));
        assert(blocks.remove(at).last() == blocks.last());
    }
}

/// Adding one block to the list adds its mapping to the total.
pub proof fn lemma_total_size_push(blocks: Seq<FreeSizeBlock>, block: FreeSizeBlock)
    ensures
        spec_total_size(blocks.push(block)) == spec_total_size(blocks) + block.spec_whole_size(),
{
    assert(blocks.push(block).drop_last() =~= blocks);
}

/// What the arena keeps in its header.
pub struct Header {
    pub segment_space: SegmentSpace,
    pub keep_segments: KeepSegmentsList,
    pub free_segments_begin: usize,
    pub subheaps: Vec<SubHeap>,
    /// The indices of the segments of the free-segment list, in the order of
    /// their links.
    pub free_segments: Ghost<Seq<int>>,
    pub max_heap_size: usize,
    pub committed_context_space_size: usize,
    /// The compact headers that the committed start of the context space
    /// holds.
    pub first_compact_header_count: usize,
    /// The large blocks that are handed out.
    pub free_size_blocks: Vec<FreeSizeBlock>,
}

/// What the list that owns a segment says of the segment.
pub open spec fn owner_agrees(seg: Segment) -> bool {
    match seg.owner@ {
        Owner::SubHeap(class) => {
            &&& 0 <= class < CLASS_COUNT
            &&& seg.is_initialized()
            &&& seg.class() == class
            &&& !seg.spec_is_soft_decommitted()
            &&& seg.additional_header.used_block_count < seg.spec_block_count()
        },
        Owner::KeepList => {
            &&& !seg.spec_is_soft_decommitted()
            &&& seg.additional_header.used_block_count == 0
        },
        Owner::FreeList => seg.spec_is_soft_decommitted() && seg.is_blank(),
        Owner::Nobody => !seg.spec_is_soft_decommitted() && seg.spec_is_floated(),
    }
}

/// Whether a segment is where its blocks put it: one that nobody owns is
/// full, and one that a subheap owns has a used block.
pub open spec fn is_settled_segment(seg: Segment) -> bool {
    match seg.owner@ {
        Owner::Nobody => {
            &&& seg.is_initialized()
            &&& seg.additional_header.used_block_count == seg.spec_block_count()
        },
        Owner::SubHeap(_) => seg.additional_header.used_block_count > 0,
        _ => true,
    }
}

impl Header {
    pub open spec fn spec_committed_context_bytes(&self) -> int {
        self.committed_context_space_size as int
    }

    pub open spec fn spec_committed_header_table_bytes(&self) -> int {
        COMPACT_HEADER_SIZE * (self.segment_space.next_alloc_segment_compact_header_index
            - self.first_compact_header_count)
    }

    pub open spec fn spec_committed_segment_bodies_bytes(&self) -> int {
        SEGMENT_SIZE * self.segment_space.next_alloc_segment_index
    }

    pub open spec fn spec_outstanding_large_block_bytes(&self) -> int {
        spec_total_size(self.free_size_blocks@)
    }

    /// The bytes that are committed and not released.
    pub open spec fn spec_committed_bytes(&self) -> int {
        self.spec_committed_context_bytes() + self.spec_committed_header_table_bytes()
            + self.spec_committed_segment_bodies_bytes()
            + self.spec_outstanding_large_block_bytes()
    }

    /// The lists hold what their owners own, linked in order.
    pub open spec fn lists_wf(&self) -> bool {
        &&& self.subheaps@.len() == CLASS_COUNT
        &&& forall|class: int|
            0 <= class < CLASS_COUNT ==> self.segment_space.is_chain(
                (#[trigger] self.subheaps@[class]).list@,
                self.subheaps@[class].free_segments_begin,
                self.subheaps@[class].free_segments_end,
                Owner::SubHeap(class),
            )
        &&& self.keep_segments.wf(&self.segment_space)
        &&& self.segment_space.is_stack(
            self.free_segments@,
            self.free_segments_begin,
            Owner::FreeList,
        )
    }

    /// The large blocks stand apart from the segments and from each other.
    pub open spec fn free_size_blocks_wf(&self) -> bool {
        &&& forall|at: int|
            0 <= at < self.free_size_blocks@.len() ==> {
                &&& (#[trigger] self.free_size_blocks@[at]).block_ptr.raw != 0
                &&& self.free_size_blocks@[at].block_ptr.raw % ALIGNMENT_SIZE == 0
                &&& self.free_size_blocks@[at].header.block_size_with_flags % ALIGNMENT_SIZE == 0
                &&& self.free_size_blocks@[at].block_ptr.raw
                    + self.free_size_blocks@[at].spec_whole_size() <= usize::MAX
                &&& !self.segment_space.spec_ptr_in_space(
                    self.free_size_blocks@[at].spec_payload_addr(),
                )
            }
        &&& forall|first: int, second: int|
            0 <= first < second < self.free_size_blocks@.len() ==> (
            #[trigger] self.free_size_blocks@[first]).block_ptr != (
            #[trigger] self.free_size_blocks@[second]).block_ptr
    }

    pub open spec fn wf(&self) -> bool {
        &&& self.segment_space.wf()
        &&& self.lists_wf()
        &&& forall|index: int|
            0 <= index < self.segment_space.segments@.len() ==> owner_agrees(
                #[trigger] self.segment_space.segments@[index],
            )
        &&& self.free_size_blocks_wf()
        &&& self.first_compact_header_count
            <= self.segment_space.next_alloc_segment_compact_header_index
        &&& self.segment_space.available_size + self.spec_committed_bytes() == self.max_heap_size
    }

    /// No segment is between two lists: one that nobody owns is full, and
    /// one that a subheap owns has a used block.
    pub open spec fn is_settled(&self) -> bool {
        forall|index: int|
            0 <= index < self.segment_space.segments@.len() ==> is_settled_segment(
                #[trigger] self.segment_space.segments@[index],
            )
    }

    /// Every segment but segment `seg_index` is settled.
    pub open spec fn is_settled_but(&self, seg_index: int) -> bool {
        forall|index: int|
            0 <= index < self.segment_space.segments@.len() && index != seg_index
                ==> is_settled_segment(#[trigger] self.segment_space.segments@[index])
    }

    /// Whether a block is handed out at `addr`: a block of a segment, or a
    /// large block.
    pub open spec fn is_live_block(&self, addr: int) -> bool {
        ||| exists|seg_index: int| #[trigger]
            self.segment_space.used_block_addrs(seg_index).contains(addr)
        ||| exists|at: int| is_free_size_block_at(*self, addr, at)
    }

    /// The addresses of the blocks that are handed out.
    pub open spec fn live_blocks(&self) -> Set<int> {
        Set::new(|addr: int| self.is_live_block(addr))
    }

    /// A block of a segment lies within the range of the segments, and a
    /// large block outside of it.
    pub proof fn lemma_live_block_regime(&self, addr: int)
        requires
            self.wf(),
            self.is_live_block(addr),
        ensures
            self.segment_space.spec_ptr_in_space(addr) <==> exists|seg_index: int| #[trigger]
                self.segment_space.used_block_addrs(seg_index).contains(addr),
            !self.segment_space.spec_ptr_in_space(addr) <==> exists|at: int|
                is_free_size_block_at(*self, addr, at),
    {
        if exists|seg_index: int| #[trigger]
            self.segment_space.used_block_addrs(seg_index).contains(addr) {
            let seg_index = choose|seg_index: int| #[trigger]
                self.segment_space.used_block_addrs(seg_index).contains(addr);
            let index = choose|index: int| #[trigger]
                self.segment_space.is_used_block_addr(addr, seg_index, index);
            self.segment_space.lemma_block_addr(addr, seg_index, index);
        }
        if exists|at: int| is_free_size_block_at(*self, addr, at) {
            let at = choose|at: int| is_free_size_block_at(*self, addr, at);
            assert(!self.segment_space.spec_ptr_in_space(
                self.free_size_blocks@[at].spec_payload_addr(),
            ));
        }
    }

    /// What an operation on the segments leaves alone: the budget and the
    /// large blocks.
    pub open spec fn same_accounts(&self, other: &Header) -> bool {
        &&& self.max_heap_size == other.max_heap_size
        &&& self.committed_context_space_size == other.committed_context_space_size
        &&& self.first_compact_header_count == other.first_compact_header_count
        &&& self.free_size_blocks@ == other.free_size_blocks@
    }

    /// The lists of all owners but `touched` stay what they are while the
    /// segments of those owners keep their links.
    pub proof fn lemma_other_lists(&self, other: &Header, touched: Owner)
        requires
            other.lists_wf(),
            self.segment_space.same_layout(&other.segment_space),
            other.segment_space.segments@.len() <= self.segment_space.segments@.len(),
            self.subheaps@.len() == CLASS_COUNT,
            forall|index: int|
                0 <= index < self.segment_space.segments@.len() && ((index
                    < other.segment_space.segments@.len()
                    && other.segment_space.segments@[index].owner@ != touched
                    && other.segment_space.segments@[index].owner@ != Owner::Nobody) || (
                self.segment_space.segments@[index].owner@ != touched
                    && self.segment_space.segments@[index].owner@ != Owner::Nobody))
                    ==> #[trigger] self.segment_space.same_links_at(&other.segment_space, index),
            forall|class: int|
                0 <= class < CLASS_COUNT && touched != Owner::SubHeap(class)
                    ==> #[trigger] self.subheaps@[class] == other.subheaps@[class],
            touched != Owner::KeepList ==> self.keep_segments == other.keep_segments,
            touched != Owner::FreeList ==> {
                &&& self.free_segments@ == other.free_segments@
                &&& self.free_segments_begin == other.free_segments_begin
            },
        ensures
            forall|class: int|
                0 <= class < CLASS_COUNT && touched != Owner::SubHeap(class)
                    ==> self.segment_space.is_chain(
                    (#[trigger] self.subheaps@[class]).list@,
                    self.subheaps@[class].free_segments_begin,
                    self.subheaps@[class].free_segments_end,
                    Owner::SubHeap(class),
                ),
            touched != Owner::KeepList ==> self.keep_segments.wf(&self.segment_space),
            touched != Owner::FreeList ==> self.segment_space.is_stack(
                self.free_segments@,
                self.free_segments_begin,
                Owner::FreeList,
            ),
    {
        assert forall|class: int|
            0 <= class < CLASS_COUNT && touched != Owner::SubHeap(
                class,
            ) implies self.segment_space.is_chain(
            (#[trigger] self.subheaps@[class]).list@,
            self.subheaps@[class].free_segments_begin,
            self.subheaps@[class].free_segments_end,
            Owner::SubHeap(class),
        ) by {
            assert(self.subheaps@[class] == other.subheaps@[class]);
            self.segment_space.lemma_chain_frame(
                &other.segment_space,
                other.subheaps@[class].list@,
                other.subheaps@[class].free_segments_begin,
                other.subheaps@[class].free_segments_end,
                Owner::SubHeap(class),
            );
        }
        if touched != Owner::KeepList {
            self.segment_space.lemma_chain_frame(
                &other.segment_space,
                other.keep_segments.list@,
                other.keep_segments.begin,
                other.keep_segments.end,
                Owner::KeepList,
            );
        }
        if touched != Owner::FreeList {
            self.segment_space.lemma_chain_frame(
                &other.segment_space,
                other.free_segments@,
                other.free_segments_begin,
                0,
                Owner::FreeList,
            );
        }
    }

    /// A segment that kept its blocks, its flags and its owner still agrees
    /// with its owner.
    pub proof fn lemma_owner_agrees(seg: Segment, other: Segment)
        requires
            owner_agrees(other),
            seg.same_blocks(&other),
            seg.spec_is_soft_decommitted() == other.spec_is_soft_decommitted(),
            seg.owner@ == other.owner@,
            seg.owner@ is Nobody ==> seg.spec_is_floated(),
        ensures
            owner_agrees(seg),
    {
        seg.lemma_same_blocks(&other);
    }
}

/// Where `insert_free_segment_to_subheap` puts a segment: before the first
/// one where its address is lower, and behind the last one else.
pub open spec fn spec_subheap_with(list: Seq<int>, seg_index: int) -> Seq<int> {
    if list.len() == 0 || seg_index < list[0] {
        seq![seg_index] + list
    } else {
        list.push(seg_index)
    }
}

/// What linking and unlinking a segment leave alone in the header: the
/// budget, the large blocks, and what every segment holds but its links.
pub open spec fn spec_relinked(before: Header, after: Header, seg_index: int) -> bool {
    &&& after.same_accounts(&before)
    &&& after.segment_space.same_segments_but_links(&before.segment_space)
    &&& forall|index: int|
        0 <= index < before.segment_space.segments@.len() && index != seg_index ==> (
        #[trigger] after.segment_space.segments@[index]).owner@
            == before.segment_space.segments@[index].owner@ && (
        before.segment_space.segments@[index].owner@ is Nobody
            ==> after.segment_space.segments@[index]
            == before.segment_space.segments@[index])
}

/// What `insert_free_segment_to_subheap` does.
pub open spec fn spec_insert_free_segment_to_subheap(
    before: Header,
    class_of_size: usize,
    floated_seg: AnyNonNullPtr,
    after: Header,
) -> bool {
    let seg_index = before.segment_space.spec_index_of_header(floated_seg.raw as int);
    &&& spec_relinked(before, after, seg_index)
    &&& after.subheaps@[class_of_size as int].list@ == spec_subheap_with(
        before.subheaps@[class_of_size as int].list@,
        seg_index,
    )
    &&& forall|class: int|
        0 <= class < CLASS_COUNT && class != class_of_size ==> #[trigger] after.subheaps@[class]
            == before.subheaps@[class]
    &&& after.keep_segments == before.keep_segments
    &&& after.free_segments@ == before.free_segments@
    &&& after.free_segments_begin == before.free_segments_begin
    &&& after.segment_space.segments@[seg_index].owner@ == Owner::SubHeap(class_of_size as int)
}

/// What `remove_segment_from_subheap` does.
pub open spec fn spec_remove_segment_from_subheap(
    before: Header,
    class_of_size: usize,
    seg: AnyNonNullPtr,
    after: Header,
) -> bool {
    let seg_index = before.segment_space.spec_index_of_header(seg.raw as int);
    let list = before.subheaps@[class_of_size as int].list@;
    &&& spec_relinked(before, after, seg_index)
    &&& list.contains(seg_index)
    &&& after.subheaps@[class_of_size as int].list@ == list.remove(list.index_of(seg_index))
    &&& forall|class: int|
        0 <= class < CLASS_COUNT && class != class_of_size ==> #[trigger] after.subheaps@[class]
            == before.subheaps@[class]
    &&& after.keep_segments == before.keep_segments
    &&& after.free_segments@ == before.free_segments@
    &&& after.free_segments_begin == before.free_segments_begin
    &&& after.segment_space.segments@[seg_index].owner@ == Owner::Nobody
    &&& after.segment_space.segments@[seg_index].spec_is_floated()
}

/// The segments of `after` agree with their owners where those of `before`
/// did and segment `seg_index` does.
proof fn lemma_relinked_agrees(before: Header, after: Header, seg_index: int)
    requires
        before.wf(),
        spec_relinked(before, after, seg_index),
        0 <= seg_index < before.segment_space.segments@.len(),
        owner_agrees(after.segment_space.segments@[seg_index]),
    ensures
        forall|index: int|
            0 <= index < after.segment_space.segments@.len() ==> owner_agrees(
                #[trigger] after.segment_space.segments@[index],
            ),
{
    assert forall|index: int| 0 <= index < after.segment_space.segments@.len() implies owner_agrees(
        #[trigger] after.segment_space.segments@[index],
    ) by {
        if index != seg_index {
            Header::lemma_owner_agrees(
                after.segment_space.segments@[index],
                before.segment_space.segments@[index],
            );
        }
    }
}

/// Links a segment that nobody owns and that has a free block into the list
/// of its class: before the first segment where its address is lower, and
/// behind the last one else.
pub fn insert_free_segment_to_subheap_by_header(
    header: &mut Header,
    class_of_size: usize,
    floated_seg: AnyNonNullPtr,
)
    requires
        old(header).wf(),
        class_of_size < CLASS_COUNT,
        old(header).segment_space.is_header_addr(floated_seg.raw as int),
        ({
            let seg = old(header).segment_space.spec_segment(floated_seg);
            &&& seg.owner@ == Owner::Nobody
            &&& seg.is_initialized()
            &&& seg.class() == class_of_size
            &&& seg.additional_header.used_block_count < seg.spec_block_count()
        }),
    ensures
        final(header).wf(),
        spec_insert_free_segment_to_subheap(*old(header), class_of_size, floated_seg,
            *final(header)),
{
    let ghost list = header.subheaps@[class_of_size as int].list@;
    let ghost seg_index = header.segment_space.spec_index_of_header(floated_seg.raw as int);
    let ghost owner = Owner::SubHeap(class_of_size as int);
    let begin = header.subheaps[class_of_size].free_segments_begin;
    let end = header.subheaps[class_of_size].free_segments_end;
    proof {
        header.segment_space.lemma_link_to(list, begin, owner, 0);
        header.segment_space.lemma_link_to(list, begin, owner, list.len() as int);
        let witness = choose|index: int|
            0 <= index < header.segment_space.segments@.len() && floated_seg.raw
                == #[trigger] header.segment_space.spec_header_addr(index);
        header.segment_space.lemma_header_addr(witness);
        if list.len() > 0 {
            header.segment_space.lemma_header_addr(list[0]);
        }
    }
    let at_front = begin == 0 || floated_seg.as_addr() < begin;
    let next_ptr = if at_front {
        begin
    } else {
        0
    };
    let ghost position = if at_front {
        0
    } else {
        list.len() as int
    };
    let ends = header.segment_space.chain_insert(
        begin,
        end,
        floated_seg,
        next_ptr,
        Ghost(list),
        Ghost(owner),
        Ghost(position),
    );
    header.subheaps[class_of_size].free_segments_begin = ends.0;
    header.subheaps[class_of_size].free_segments_end = ends.1;
    header.subheaps[class_of_size].list = Ghost(list.insert(position, seg_index));
    proof {
        assert(list.insert(position, seg_index) =~= spec_subheap_with(list, seg_index));
        header.lemma_other_lists(old(header), owner);
        header.segment_space.segments@[seg_index].lemma_same_blocks(
            &old(header).segment_space.segments@[seg_index],
        );
        lemma_relinked_agrees(*old(header), *header, seg_index);
    }
}

/// Takes a segment out of the list of its class.
pub fn remove_segment_from_subheap_by_header(
    header: &mut Header,
    class_of_size: usize,
    seg: AnyNonNullPtr,
)
    requires
        old(header).wf(),
        class_of_size < CLASS_COUNT,
        old(header).segment_space.is_header_addr(seg.raw as int),
        old(header).segment_space.spec_segment(seg).owner@ == Owner::SubHeap(class_of_size as int),
    ensures
        final(header).wf(),
        spec_remove_segment_from_subheap(*old(header), class_of_size, seg, *final(header)),
{
    let ghost list = header.subheaps@[class_of_size as int].list@;
    let ghost seg_index = header.segment_space.spec_index_of_header(seg.raw as int);
    let ghost owner = Owner::SubHeap(class_of_size as int);
    let begin = header.subheaps[class_of_size].free_segments_begin;
    let end = header.subheaps[class_of_size].free_segments_end;
    proof {
        let witness = choose|index: int|
            0 <= index < header.segment_space.segments@.len() && seg.raw
                == #[trigger] header.segment_space.spec_header_addr(index);
        header.segment_space.lemma_header_addr(witness);
    }
    let ends = header.segment_space.chain_remove(begin, end, seg, Ghost(list), Ghost(owner));
    header.subheaps[class_of_size].free_segments_begin = ends.0;
    header.subheaps[class_of_size].free_segments_end = ends.1;
    header.subheaps[class_of_size].list = Ghost(list.remove(list.index_of(seg_index)));
    proof {
        header.lemma_other_lists(old(header), owner);
        lemma_relinked_agrees(*old(header), *header, seg_index);
    }
}

/// The address of the body of segment `index`, as a pointer.
pub open spec fn spec_body_ptr(space: SegmentSpace, index: int) -> AnyNonNullPtr {
    AnyNonNullPtr { raw: space.spec_segment_addr(index) as usize }
}

/// The lists of the subheaps of `after` are those of `before`.
pub open spec fn same_subheaps(before: Header, after: Header) -> bool {
    forall|class: int|
        0 <= class < CLASS_COUNT ==> #[trigger] after.subheaps@[class] == before.subheaps@[class]
}

/// What `pop_free_segment` does: it takes the first segment of the keep-list,
/// or else the first one of the free-segment list, whose body it commits
/// anew, or else nothing.
pub open spec fn spec_pop_free_segment(
    before: Header,
    after: Header,
    popped: Result<Option<AnyNonNullPtr>, EnvError>,
    calls_before: Seq<SysCall>,
    calls_after: Seq<SysCall>,
) -> bool {
    if before.keep_segments.list@.len() > 0 {
        let seg_index = before.keep_segments.list@[0];
        &&& popped matches Ok(Some(seg_ptr))
        &&& seg_ptr.raw == before.segment_space.spec_header_addr(seg_index)
        &&& after.segment_space.is_header_addr(seg_ptr.raw as int)
        &&& calls_after == calls_before
        &&& spec_relinked(before, after, seg_index)
        &&& after.keep_segments.list@ == before.keep_segments.list@.drop_first()
        &&& after.keep_segments.should_keep_count == before.keep_segments.should_keep_count + 1
        &&& after.keep_segments.keep_segments_count == before.keep_segments.keep_segments_count
        &&& same_subheaps(before, after)
        &&& after.free_segments@ == before.free_segments@
        &&& after.free_segments_begin == before.free_segments_begin
        &&& after.segment_space.segments@[seg_index].owner@ == Owner::Nobody
        &&& after.segment_space.segments@[seg_index].spec_is_floated()
        &&& after.segment_space.segments@[seg_index].additional_header.used_block_count == 0
    } else if before.free_segments@.len() > 0 {
        let seg_index = before.free_segments@[0];
        &&& calls_after == calls_before.push(
            SysCall::ForceCommit {
                addr: spec_body_ptr(before.segment_space, seg_index),
                len: SEGMENT_SIZE,
            },
        )
        &&& match popped {
            Ok(Some(seg_ptr)) => {
                &&& seg_ptr.raw == before.segment_space.spec_header_addr(seg_index)
                &&& after.segment_space.is_header_addr(seg_ptr.raw as int)
                &&& after.same_accounts(&before)
                &&& after.segment_space.same_extent(&before.segment_space)
                &&& forall|index: int|
                    0 <= index < before.segment_space.segments@.len() && index != seg_index
                        ==> after.segment_space.segments@[index]
                        == before.segment_space.segments@[index]
                &&& after.keep_segments == before.keep_segments
                &&& same_subheaps(before, after)
                &&& after.free_segments@ == before.free_segments@.drop_first()
                &&& after.segment_space.segments@[seg_index].owner@ == Owner::Nobody
                &&& after.segment_space.segments@[seg_index].spec_is_floated()
                &&& after.segment_space.segments@[seg_index].is_blank()
                &&& !after.segment_space.segments@[seg_index].spec_is_soft_decommitted()
            },
            Ok(None) => false,
            Err(_) => after == before,
        }
    } else {
        &&& popped == Ok::<Option<AnyNonNullPtr>, EnvError>(None)
        &&& calls_after == calls_before
        &&& after == before
    }
}

/// Takes a segment that is committed and empty from the keep-list, or else
/// from the free-segment list, whose body is committed anew.
pub fn pop_free_segment_by_header<Env: SysMemEnv>(
    header: &mut Header,
    env: &mut TracedEnv<Env>,
) -> (popped: Result<Option<AnyNonNullPtr>, EnvError>)
    requires
        old(header).wf(),
    ensures
        spec_refusal(*old(env), *final(env), spec_failure(popped)),
        final(header).wf(),
        spec_pop_free_segment(
            *old(header),
            *final(header),
            popped,
            old(env).calls(),
            final(env).calls(),
        ),
        popped matches Err(e) ==> final(env).last_failed() == Some(e),
{
    let ghost keep_list = header.keep_segments.list@;
    if header.keep_segments.begin != 0 {
        proof {
            header.segment_space.lemma_link_to(
                keep_list,
                header.keep_segments.begin,
                Owner::KeepList,
                0,
            );
            assert(owner_agrees(header.segment_space.segments@[keep_list[0]]));
        }
        match header.keep_segments.pop(&mut header.segment_space) {
            None => {
                // a list that begins somewhere holds a segment
            },
            Some(free_seg_header_ptr) => {
                proof {
                    header.lemma_other_lists(old(header), Owner::KeepList);
                    header.segment_space.segments@[keep_list[0]].lemma_same_blocks(
                        &old(header).segment_space.segments@[keep_list[0]],
                    );
                    lemma_relinked_agrees(*old(header), *header, keep_list[0]);
                }
                return Ok(Some(free_seg_header_ptr));
            },
        }
    }
    proof {
        header.segment_space.lemma_link_to(
            keep_list,
            header.keep_segments.begin,
            Owner::KeepList,
            0,
        );
    }
    let ghost free_list = header.free_segments@;
    proof {
        header.segment_space.lemma_link_to(
            free_list,
            header.free_segments_begin,
            Owner::FreeList,
            0,
        );
        header.segment_space.lemma_link_to(
            free_list,
            header.free_segments_begin,
            Owner::FreeList,
            1,
        );
    }
    if header.free_segments_begin == 0 {
        return Ok(None);
    }
    let free_seg_header_ptr = AnyNonNullPtr::new(header.free_segments_begin);
    let seg_index = header.segment_space.segment_index(free_seg_header_ptr);
    proof {
        header.segment_space.lemma_header_addr(seg_index as int);
        assert(header.segment_space.segments@[free_list[0]].owner@ == Owner::FreeList);
        assert(header.segment_space.segments@[free_list[0]].spec_next()
            == header.segment_space.link_to(free_list, 1));
    }
    let body_ptr = header.segment_space.segments[seg_index].seg_ptr();
    match env.force_commit(body_ptr, SEGMENT_SIZE) {
        Ok(()) => {},
        Err(e) => {
            return Err(e);
        },
    }
    header.free_segments_begin = header.segment_space.segments[seg_index].next();
    header.segment_space.segments[seg_index].set_force_committed();
    header.segment_space.segments[seg_index].set_next(0);
    header.segment_space.segments[seg_index].set_prev(0);
    header.segment_space.segments[seg_index].owner = Ghost(Owner::Nobody);
    header.free_segments = Ghost(free_list.drop_first());
    proof {
        let shrunk = free_list.drop_first();
        header.lemma_other_lists(old(header), Owner::FreeList);
        assert forall|at: int| 0 <= at < shrunk.len() implies shrunk[at] == free_list[at + 1]
            && shrunk[at] != seg_index by {}
        assert forall|to: int|
            #![auto]
            header.segment_space.link_to(shrunk, to) == (if to < 0 {
                0
            } else {
                old(header).segment_space.link_to(free_list, to + 1)
            }) by {}
        assert forall|index: int|
            0 <= index < header.segment_space.segments@.len() && (
            #[trigger] header.segment_space.segments@[index]).owner@
                == Owner::FreeList implies shrunk.contains(index) by {
            assert(old(header).segment_space.segments@[index].owner@ == Owner::FreeList);
            let at = choose|at: int| 0 <= at < free_list.len() && free_list[at] == index;
            assert(shrunk[at - 1] == index);
        }
        assert forall|position: int| 0 <= position < shrunk.len() implies (
        #[trigger] header.segment_space.segments@[shrunk[position]]).spec_next()
            == header.segment_space.link_to(shrunk, position + 1) by {
            assert(old(header).segment_space.segments@[free_list[position + 1]].spec_next()
                == old(header).segment_space.link_to(free_list, position + 2));
        }
        assert forall|position: int| 0 <= position < shrunk.len() implies (
        #[trigger] header.segment_space.segments@[shrunk[position]]).owner@
            == Owner::FreeList by {
            assert(old(header).segment_space.segments@[free_list[position + 1]].owner@
                == Owner::FreeList);
        }
    }
    Ok(Some(free_seg_header_ptr))
}

/// The segment that leaves the keep-list where `seg_index` comes to a full
/// one: the one with the highest address among those of the list and the
/// new one.
pub open spec fn spec_flooded_index(before: Header, seg_index: int) -> int {
    if before.keep_segments.list@.len() > 0 && before.keep_segments.list@.last() > seg_index {
        before.keep_segments.list@.last()
    } else {
        seg_index
    }
}

/// What `settle_unused_segment` does: the segment goes to the keep-list.
/// Where the list was full, the segment with the highest address leaves it
/// for the free-segment list, flagged as soft-decommitted.
pub open spec fn spec_settled_unused_segment(
    before: Header,
    floated_seg: AnyNonNullPtr,
    after: Header,
) -> bool {
    let seg_index = before.segment_space.spec_index_of_header(floated_seg.raw as int);
    let flooded = spec_flooded_index(before, seg_index);
    &&& after.same_accounts(&before)
    &&& after.segment_space.same_extent(&before.segment_space)
    &&& same_subheaps(before, after)
    &&& after.keep_segments.keep_segments_count == before.keep_segments.keep_segments_count
    &&& forall|index: int|
        0 <= index < before.segment_space.segments@.len() && index != seg_index && index != flooded
            ==> (#[trigger] after.segment_space.segments@[index]).owner@
            == before.segment_space.segments@[index].owner@
    &&& forall|index: int|
        0 <= index < before.segment_space.segments@.len() && index != flooded ==> (
        #[trigger] after.segment_space.segments@[index]).same_blocks(
            &before.segment_space.segments@[index],
        )
    &&& if before.keep_segments.should_keep_count > 0 {
        &&& after.keep_segments.should_keep_count == before.keep_segments.should_keep_count - 1
        &&& after.keep_segments.list@.len() == before.keep_segments.list@.len() + 1
        &&& forall|index: int|
            after.keep_segments.list@.contains(index) <==> (before.keep_segments.list@.contains(
                index,
            ) || index == seg_index)
        &&& after.free_segments@ == before.free_segments@
        &&& after.segment_space.segments@[seg_index].owner@ == Owner::KeepList
        &&& after.segment_space.segments@[flooded].same_blocks(
            &before.segment_space.segments@[flooded],
        )
        &&& flooded != seg_index ==> after.segment_space.segments@[flooded].owner@
            == before.segment_space.segments@[flooded].owner@
    } else {
        &&& after.keep_segments.should_keep_count == 0
        &&& after.keep_segments.list@.len() == before.keep_segments.list@.len()
        &&& forall|index: int|
            after.keep_segments.list@.contains(index) <==> ((before.keep_segments.list@.contains(
                index,
            ) || index == seg_index) && index != flooded)
        &&& after.free_segments@ == seq![flooded] + before.free_segments@
        &&& after.segment_space.segments@[flooded].owner@ == Owner::FreeList
        &&& after.segment_space.segments@[flooded].spec_is_soft_decommitted()
        &&& seg_index != flooded ==> after.segment_space.segments@[seg_index].owner@
            == Owner::KeepList
    }
}

/// The requests that `free_unused_segment` makes: none where the keep-list
/// has room, and else one, to soft-decommit the body of the segment that
/// leaves the keep-list.
pub open spec fn spec_free_unused_segment_calls(before: Header, seg_index: int) -> Seq<SysCall> {
    if before.keep_segments.should_keep_count > 0 {
        Seq::empty()
    } else {
        seq![
            SysCall::SoftDecommit {
                addr: spec_body_ptr(before.segment_space, spec_flooded_index(before, seg_index)),
                len: SEGMENT_SIZE,
            },
        ]
    }
}

/// What `free_unused_segment` does.  Where the keep-list is full, the
/// environment is asked first to soft-decommit the body of the segment with
/// the highest address among those of the list and the new one; where it
/// refuses, nothing changes.  Then the segment is settled.
pub open spec fn spec_free_unused_segment(
    before: Header,
    floated_seg: AnyNonNullPtr,
    after: Header,
    freed: Result<(), EnvError>,
    calls_before: Seq<SysCall>,
    calls_after: Seq<SysCall>,
) -> bool {
    let seg_index = before.segment_space.spec_index_of_header(floated_seg.raw as int);
    &&& calls_after == calls_before + spec_free_unused_segment_calls(before, seg_index)
    &&& match freed {
        Ok(()) => spec_settled_unused_segment(before, floated_seg, after),
        Err(_) => before.keep_segments.should_keep_count == 0 && after == before,
    }
}

/// The segment that leaves the keep-list where the segment at `seg` comes
/// to it, or none where the keep-list has room.
pub fn flood_candidate(header: &Header, seg: AnyNonNullPtr) -> (candidate: Option<AnyNonNullPtr>)
    requires
        header.wf(),
        header.segment_space.is_header_addr(seg.raw as int),
        header.segment_space.spec_segment(seg).owner@ != Owner::KeepList,
    ensures
        match candidate {
            None => header.keep_segments.should_keep_count > 0,
            Some(flooded) => {
                &&& header.keep_segments.should_keep_count == 0
                &&& header.segment_space.is_header_addr(flooded.raw as int)
                &&& header.segment_space.spec_index_of_header(flooded.raw as int)
                    == spec_flooded_index(
                    *header,
                    header.segment_space.spec_index_of_header(seg.raw as int),
                )
            },
        },
{
    let ghost list = header.keep_segments.list@;
    let ghost seg_index = header.segment_space.spec_index_of_header(seg.raw as int);
    proof {
        header.segment_space.lemma_link_to(
            list,
            header.keep_segments.begin,
            Owner::KeepList,
            list.len() - 1,
        );
        let witness = choose|index: int|
            0 <= index < header.segment_space.segments@.len() && seg.raw
                == #[trigger] header.segment_space.spec_header_addr(index);
        header.segment_space.lemma_header_addr(witness);
        if list.len() > 0 {
            header.segment_space.lemma_header_addr(list.last());
            assert(header.segment_space.segments@[list[list.len() - 1]].owner@
                == Owner::KeepList);
        }
    }
    if header.keep_segments.should_keep_count > 0 {
        None
    } else if header.keep_segments.end == 0 || header.keep_segments.end < seg.as_addr() {
        Some(seg)
    } else {
        Some(AnyNonNullPtr::new(header.keep_segments.end))
    }
}

/// Gives an empty segment that nobody owns to the keep-list; what the
/// keep-list has no room for goes to the free-segment list, flagged as
/// soft-decommitted.
pub fn settle_unused_segment(header: &mut Header, floated_seg: AnyNonNullPtr)
    requires
        old(header).wf(),
        old(header).segment_space.is_header_addr(floated_seg.raw as int),
        ({
            let seg = old(header).segment_space.spec_segment(floated_seg);
            &&& seg.owner@ == Owner::Nobody
            &&& seg.spec_is_floated()
            &&& seg.additional_header.used_block_count == 0
        }),
    ensures
        final(header).wf(),
        spec_settled_unused_segment(*old(header), floated_seg, *final(header)),
{
    let ghost seg_index = header.segment_space.spec_index_of_header(floated_seg.raw as int);
    let ghost flooded_index = spec_flooded_index(*header, seg_index);
    proof {
        let witness = choose|index: int|
            0 <= index < header.segment_space.segments@.len() && floated_seg.raw
                == #[trigger] header.segment_space.spec_header_addr(index);
        header.segment_space.lemma_header_addr(witness);
        assert(owner_agrees(header.segment_space.segments@[seg_index]));
    }
    let flooded_seg = match header.keep_segments.insert_and_return_flooded(
        &mut header.segment_space,
        floated_seg,
    ) {
        None => {
            proof {
                header.lemma_other_lists(old(header), Owner::KeepList);
                assert forall|index: int|
                    0 <= index < header.segment_space.segments@.len() implies owner_agrees(
                    #[trigger] header.segment_space.segments@[index],
                ) by {
                    header.segment_space.segments@[index].lemma_same_blocks(
                        &old(header).segment_space.segments@[index],
                    );
                    assert(owner_agrees(old(header).segment_space.segments@[index]));
                }
            }
            return;
        },
        Some(flooded_seg) => flooded_seg,
    };
    let ghost kept = *header;
    proof {
        header.lemma_other_lists(old(header), Owner::KeepList);
        old(header).segment_space.lemma_header_addr(flooded_index);
        header.segment_space.lemma_header_addr(flooded_index);
        header.segment_space.lemma_link_to(
            header.free_segments@,
            header.free_segments_begin,
            Owner::FreeList,
            0,
        );
    }
    let flooded = header.segment_space.segment_index(flooded_seg);
    header.segment_space.segments[flooded].set_soft_decommitted();
    header.segment_space.segments[flooded].set_next(header.free_segments_begin);
    header.segment_space.segments[flooded].owner = Ghost(Owner::FreeList);
    header.free_segments_begin = flooded_seg.as_addr();
    let ghost free_list = header.free_segments@;
    header.free_segments = Ghost(seq![flooded as int] + free_list);
    proof {
        let grown = header.free_segments@;
        header.lemma_other_lists(&kept, Owner::FreeList);
        assert forall|at: int| 0 <= at < grown.len() implies #[trigger] grown[at] == (if at == 0 {
            flooded as int
        } else {
            free_list[at - 1]
        }) by {}
        assert forall|at: int| 0 <= at < free_list.len() implies free_list[at] != flooded by {
            assert(kept.segment_space.segments@[free_list[at]].owner@ == Owner::FreeList);
        }
        assert(grown.no_duplicates());
        assert forall|to: int|
            #![auto]
            header.segment_space.link_to(grown, to) == (if to == 0 {
                header.segment_space.spec_header_addr(flooded as int)
            } else {
                kept.segment_space.link_to(free_list, to - 1)
            }) by {}
        assert forall|index: int|
            0 <= index < header.segment_space.segments@.len() && (
            #[trigger] header.segment_space.segments@[index]).owner@
                == Owner::FreeList implies grown.contains(index) by {
            if index == flooded {
                assert(grown[0] == index);
            } else {
                assert(kept.segment_space.segments@[index].owner@ == Owner::FreeList);
                let at = choose|at: int| 0 <= at < free_list.len() && free_list[at] == index;
                assert(grown[at + 1] == index);
            }
        }
        assert forall|position: int| 0 <= position < grown.len() implies (
        #[trigger] header.segment_space.segments@[grown[position]]).spec_next()
            == header.segment_space.link_to(grown, position + 1)
                && header.segment_space.segments@[grown[position]].owner@
            == Owner::FreeList by {
            if position > 0 {
                assert(kept.segment_space.segments@[free_list[position - 1]].spec_next()
                    == kept.segment_space.link_to(free_list, position));
                assert(kept.segment_space.segments@[free_list[position - 1]].owner@
                    == Owner::FreeList);
            }
        }
        assert forall|index: int|
            0 <= index < header.segment_space.segments@.len() implies owner_agrees(
            #[trigger] header.segment_space.segments@[index],
        ) && header.segment_space.segments@[index].wf() by {
            if index != flooded {
                header.segment_space.segments@[index].lemma_same_blocks(
                    &old(header).segment_space.segments@[index],
                );
                assert(owner_agrees(old(header).segment_space.segments@[index]));
            }
        }
    }
}

/// Gives an empty segment that nobody owns to the keep-list; what the
/// keep-list has no room for is soft-decommitted and goes to the
/// free-segment list.
pub fn free_unused_segment_by_header<Env: SysMemEnv>(
    header: &mut Header,
    env: &mut TracedEnv<Env>,
    floated_seg: AnyNonNullPtr,
) -> (freed: Result<(), EnvError>)
    requires
        old(header).wf(),
        old(header).segment_space.is_header_addr(floated_seg.raw as int),
        ({
            let seg = old(header).segment_space.spec_segment(floated_seg);
            &&& seg.owner@ == Owner::Nobody
            &&& seg.spec_is_floated()
            &&& seg.additional_header.used_block_count == 0
        }),
    ensures
        spec_refusal(*old(env), *final(env), spec_failure(freed)),
        final(header).wf(),
        spec_free_unused_segment(
            *old(header),
            floated_seg,
            *final(header),
            freed,
            old(env).calls(),
            final(env).calls(),
        ),
        final(env).last_failed() == (match freed {
            Err(e) => Some(e),
            Ok(()) => if old(header).keep_segments.should_keep_count > 0 {
                old(env).last_failed()
            } else {
                None
            },
        }),        final(env).last_pagesize() == old(env).last_pagesize(),
{
    proof {
        assert(old(env).calls() + Seq::<SysCall>::empty() =~= old(env).calls());
    }
    match flood_candidate(header, floated_seg) {
        None => {},
        Some(flooded) => {
            let body_ptr = header.segment_space.segment(flooded).seg_ptr();
            proof {
                header.segment_space.lemma_header_addr(
                    header.segment_space.spec_index_of_header(flooded.raw as int),
                );
                assert(old(env).calls() + spec_free_unused_segment_calls(
                    *header,
                    header.segment_space.spec_index_of_header(floated_seg.raw as int),
                ) =~= old(env).calls().push(
                    SysCall::SoftDecommit { addr: body_ptr, len: SEGMENT_SIZE },
                ));
            }
            match env.soft_decommit(body_ptr, SEGMENT_SIZE) {
                Ok(()) => {},
                Err(e) => {
                    return Err(e);
                },
            }
        },
    }
    settle_unused_segment(header, floated_seg);
    Ok(())
}

/// What `alloc_new_segment` does: where the reserved range and the budget
/// allow it, it commits one more segment, which nobody owns.
pub open spec fn spec_alloc_new_segment(
    before: Header,
    after: Header,
    allocated: Result<Option<AnyNonNullPtr>, EnvError>,
    calls_before: Seq<SysCall>,
    calls_after: Seq<SysCall>,
) -> bool {
    &&& after.segment_space.same_layout(&before.segment_space)
    &&& after.max_heap_size == before.max_heap_size
    &&& after.committed_context_space_size == before.committed_context_space_size
    &&& after.first_compact_header_count == before.first_compact_header_count
    &&& after.free_size_blocks@ == before.free_size_blocks@
    &&& after.keep_segments == before.keep_segments
    &&& same_subheaps(before, after)
    &&& after.free_segments@ == before.free_segments@
    &&& after.free_segments_begin == before.free_segments_begin
    &&& forall|index: int|
        0 <= index < before.segment_space.segments@.len() ==> after.segment_space.segments@[index]
            == before.segment_space.segments@[index]
    &&& match allocated {
        Ok(None) => {
            &&& !spec_can_alloc_new_segment(before.segment_space)
            &&& after.segment_space.same_extent(&before.segment_space)
            &&& calls_after == calls_before
        },
        Ok(Some(seg_ptr)) => {
            let seg_index = before.segment_space.segments@.len() as int;
            &&& spec_can_alloc_new_segment(before.segment_space)
            &&& after.segment_space.available_size == before.segment_space.available_size
                - spec_new_segment_cost(before.segment_space)
            &&& after.segment_space.segments@.len() == seg_index + 1
            &&& seg_ptr.raw == before.segment_space.spec_header_addr(seg_index)
            &&& after.segment_space.is_header_addr(seg_ptr.raw as int)
            &&& after.segment_space.spec_index_of_header(seg_ptr.raw as int) == seg_index
            &&& after.segment_space.segments@[seg_index].is_blank()
            &&& after.segment_space.segments@[seg_index].spec_is_floated()
            &&& after.segment_space.segments@[seg_index].owner@ == Owner::Nobody
            &&& calls_after == calls_before + spec_new_segment_calls(before.segment_space)
        },
        Err(_) => {
            &&& spec_can_alloc_new_segment(before.segment_space)
            &&& after.segment_space.segments@.len() == before.segment_space.segments@.len()
            &&& if calls_after.len() == calls_before.len() + 2 {
                &&& after.segment_space.available_size == before.segment_space.available_size
                    - before.segment_space.page_size
                &&& after.segment_space.next_alloc_segment_compact_header_index
                    == before.segment_space.next_alloc_segment_compact_header_index
                    + before.segment_space.page_size / COMPACT_HEADER_SIZE
            } else {
                &&& after.segment_space.available_size == before.segment_space.available_size
                &&& after.segment_space.next_alloc_segment_compact_header_index
                    == before.segment_space.next_alloc_segment_compact_header_index
            }
            &&& calls_before.is_prefix_of(calls_after)
            &&& calls_after.is_prefix_of(
                calls_before + spec_new_segment_calls(before.segment_space),
            )
            &&& calls_after.len() > calls_before.len()
        },
    }
}

/// Commits one more segment, which nobody owns.
pub fn alloc_new_segment_by_header<Env: SysMemEnv>(
    header: &mut Header,
    env: &mut TracedEnv<Env>,
) -> (allocated: Result<Option<AnyNonNullPtr>, EnvError>)
    requires
        old(header).wf(),
    ensures
        spec_refusal(*old(env), *final(env), spec_failure(allocated)),
        final(header).wf(),
        spec_alloc_new_segment(
            *old(header),
            *final(header),
            allocated,
            old(env).calls(),
            final(env).calls(),
        ),
        final(env).last_failed() == (match allocated {
            Err(e) => Some(e),
            Ok(Some(_)) => None,
            Ok(None) => old(env).last_failed(),
        }),
        final(env).last_pagesize() == old(env).last_pagesize(),
{
    let allocated = header.segment_space.alloc_new_segment(env);
    proof {
        assert forall|index: int|
            0 <= index < header.segment_space.segments@.len() && ((index
                < old(header).segment_space.segments@.len()
                    && old(header).segment_space.segments@[index].owner@
                != Owner::Nobody) || header.segment_space.segments@[index].owner@
                != Owner::Nobody) implies #[trigger] header.segment_space.same_links_at(
            &old(header).segment_space,
            index,
        ) by {
            if index >= old(header).segment_space.segments@.len() {
                assert(allocated is Ok);
            }
        }
        header.lemma_other_lists(old(header), Owner::Nobody);
        if let Ok(Some(seg_ptr)) = allocated {
            header.segment_space.lemma_header_addr(
                old(header).segment_space.segments@.len() as int,
            );
        }
    }
    allocated
}

/// The bytes of the mapping of a large block of `block_size` bytes: the
/// header and the block, rounded up to whole pages.
pub open spec fn spec_allocate_size(block_size: int, page_size: int) -> int {
    crate::util::bits::spec_min_aligned_size(BLOCK_FREE_SIZE_HEADER_SIZE + block_size, page_size)
}

/// Whether the mapping that the environment answered with can be used: it is
/// not null, it is aligned, it ends within the address space, it lies apart
/// from the range that segments are taken from, and it is not one of the
/// mappings in use.
pub open spec fn spec_usable_mapping(header: Header, block_ptr: AnyNonNullPtr, len: int) -> bool {
    &&& block_ptr.raw != 0
    &&& block_ptr.raw % ALIGNMENT_SIZE == 0
    &&& block_ptr.raw + len <= usize::MAX
    &&& (block_ptr.raw + len <= header.segment_space.segment_space_begin.raw || block_ptr.raw
        >= header.segment_space.segment_space_end.raw)
    &&& forall|at: int|
        0 <= at < header.free_size_blocks@.len()
            ==> (#[trigger] header.free_size_blocks@[at]).block_ptr
            != block_ptr
}

/// What `alloc_block_of_free_size` does once the environment has answered
/// its request for a mapping of `len` bytes with `mapped`.
pub open spec fn spec_allocated_block_of_free_size(
    before: Header,
    len: usize,
    mapped: AnyNonNullPtr,
    after: Header,
    allocated: Result<Option<AnyNonNullPtr>, AllocError>,
) -> bool {
    if spec_usable_mapping(before, mapped, len as int) {
        &&& allocated matches Ok(Some(ptr))
        &&& ptr.raw == mapped.raw + BLOCK_FREE_SIZE_HEADER_SIZE
        &&& after.segment_space.available_size == before.segment_space.available_size - len
        &&& after.free_size_blocks@ == before.free_size_blocks@.push(
            FreeSizeBlock {
                block_ptr: mapped,
                header: HeaderForFreeSize {
                    block_size_with_flags: (len - BLOCK_FREE_SIZE_HEADER_SIZE) as usize,
                },
            },
        )
    } else {
        &&& allocated == Err::<Option<AnyNonNullPtr>, AllocError>(
            AllocError::PreconditionViolated(Violation::UnusableRange),
        )
        &&& after.segment_space.available_size == before.segment_space.available_size
        &&& after.free_size_blocks@ == before.free_size_blocks@
    }
}

/// What the large-block operations leave alone: the segments and their lists.
pub open spec fn same_segments(before: Header, after: Header) -> bool {
    &&& after.segment_space.same_layout(&before.segment_space)
    &&& after.segment_space.next_alloc_segment_compact_header_index
        == before.segment_space.next_alloc_segment_compact_header_index
    &&& after.segment_space.next_alloc_segment_index
        == before.segment_space.next_alloc_segment_index
    &&& after.segment_space.segments@ == before.segment_space.segments@
    &&& after.keep_segments == before.keep_segments
    &&& after.subheaps@ == before.subheaps@
    &&& after.free_segments@ == before.free_segments@
    &&& after.free_segments_begin == before.free_segments_begin
    &&& after.max_heap_size == before.max_heap_size
    &&& after.committed_context_space_size == before.committed_context_space_size
    &&& after.first_compact_header_count == before.first_compact_header_count
}

/// What `alloc_block_of_free_size` does.  The block gets a mapping of its
/// own, which takes whole pages from the budget.
pub open spec fn spec_alloc_block_of_free_size(
    before: Header,
    block_size: usize,
    after: Header,
    allocated: Result<Option<AnyNonNullPtr>, AllocError>,
    calls_before: Seq<SysCall>,
    calls_after: Seq<SysCall>,
) -> bool {
    let len = spec_allocate_size(block_size as int, before.segment_space.page_size as int);
    &&& same_segments(before, after)
    &&& if before.segment_space.available_size < len {
        &&& allocated == Ok::<Option<AnyNonNullPtr>, AllocError>(None)
        &&& calls_after == calls_before
        &&& after.segment_space.available_size == before.segment_space.available_size
        &&& after.free_size_blocks@ == before.free_size_blocks@
    } else {
        &&& calls_before.is_prefix_of(calls_after)
        &&& calls_after.len() > calls_before.len()
        &&& calls_after[calls_before.len() as int] == (SysCall::Alloc { len: len as usize })
        &&& match allocated {
            Ok(Some(ptr)) => {
                let mapped = AnyNonNullPtr {
                    raw: (ptr.raw - BLOCK_FREE_SIZE_HEADER_SIZE) as usize,
                };
                &&& ptr.raw > BLOCK_FREE_SIZE_HEADER_SIZE
                &&& calls_after == calls_before.push(SysCall::Alloc { len: len as usize })
                &&& spec_usable_mapping(before, mapped, len)
                &&& spec_allocated_block_of_free_size(
                    before,
                    len as usize,
                    mapped,
                    after,
                    allocated,
                )
            },
            Ok(None) => false,
            Err(e) => {
                &&& e is EnvFailure || e == AllocError::PreconditionViolated(
                    Violation::UnusableRange,
                )
                &&& after.segment_space.available_size == before.segment_space.available_size
                &&& after.free_size_blocks@ == before.free_size_blocks@
            },
        }
    }
}

/// Books the mapping that the environment answered with: where it can be
/// used, the block is handed out and its mapping taken from the budget.
pub fn allocated_block_of_free_size(
    header: &mut Header,
    len: usize,
    mapped: AnyNonNullPtr,
) -> (allocated: Result<Option<AnyNonNullPtr>, AllocError>)
    requires
        old(header).wf(),
        BLOCK_FREE_SIZE_HEADER_SIZE < len <= old(header).segment_space.available_size,
        len % ALIGNMENT_SIZE == 0,
    ensures
        final(header).wf(),
        same_segments(*old(header), *final(header)),
        spec_allocated_block_of_free_size(*old(header), len, mapped, *final(header), allocated),
{
    let raw = mapped.as_addr();
    if raw == 0 || raw % ALIGNMENT_SIZE != 0 || raw > usize::MAX - len {
        return Err(AllocError::PreconditionViolated(Violation::UnusableRange));
    }
    if !(raw + len <= header.segment_space.segment_space_begin.as_addr() || raw
        >= header.segment_space.segment_space_end.as_addr()) {
        return Err(AllocError::PreconditionViolated(Violation::UnusableRange));
    }
    let mut at: usize = 0;
    while at < header.free_size_blocks.len()
        invariant
            *header == *old(header),
            header.wf(),
            raw == mapped.raw,
            raw != 0,
            raw % ALIGNMENT_SIZE == 0,
            raw + len <= usize::MAX,
            raw + len <= header.segment_space.segment_space_begin.raw || raw
                >= header.segment_space.segment_space_end.raw,
            at <= header.free_size_blocks@.len(),
            forall|before: int|
                0 <= before < at ==> (#[trigger] header.free_size_blocks@[before]).block_ptr
                    != mapped,
        decreases header.free_size_blocks@.len() - at,
    {
        if header.free_size_blocks[at].block_ptr.as_addr() == raw {
            return Err(AllocError::PreconditionViolated(Violation::UnusableRange));
        }
        at += 1;
    }
    header.segment_space.available_size -= len;
    let block = FreeSizeBlock {
        block_ptr: mapped,
        header: HeaderForFreeSize::init(len - BLOCK_FREE_SIZE_HEADER_SIZE),
    };
    header.free_size_blocks.push(block);
    proof {
        lemma_total_size_push(old(header).free_size_blocks@, block);
        crate::util::bits::lemma_max_aligned_size(
            (len - BLOCK_FREE_SIZE_HEADER_SIZE) as int,
            ALIGNMENT_SIZE as int,
        );
        header.lemma_other_lists(old(header), Owner::Nobody);
    }
    Ok(Some(mapped.add(BLOCK_FREE_SIZE_HEADER_SIZE)))
}

/// Hands out a large block, in a mapping of its own.
pub fn alloc_block_free_size_by_header<Env: SysMemEnv>(
    header: &mut Header,
    env: &mut TracedEnv<Env>,
    block_size: usize,
) -> (allocated: Result<Option<AnyNonNullPtr>, AllocError>)
    requires
        old(header).wf(),
        block_size % ALIGNMENT_SIZE == 0,
        BLOCK_FREE_SIZE_HEADER_SIZE + block_size + SEGMENT_SIZE <= usize::MAX,
    ensures
        spec_refusal(*old(env), *final(env), spec_env_refusal(allocated)),
        final(header).wf(),
        spec_alloc_block_of_free_size(
            *old(header),
            block_size,
            *final(header),
            allocated,
            old(env).calls(),
            final(env).calls(),
        ),
        allocated matches Err(AllocError::EnvFailure(e)) ==> final(env).last_failed() == Some(e),
        old(header).segment_space.available_size >= spec_allocate_size(
            block_size as int,
            old(header).segment_space.page_size as int,
        ) && !(allocated matches Err(AllocError::EnvFailure(_))) ==> {
            &&& final(env).last_range() matches Some(mapped)
            &&& spec_allocated_block_of_free_size(
                *old(header),
                spec_allocate_size(
                    block_size as int,
                    old(header).segment_space.page_size as int,
                ) as usize,
                mapped,
                *final(header),
                allocated,
            )
        },
{
    proof {
        crate::util::bits::lemma_min_aligned_size(
            (BLOCK_FREE_SIZE_HEADER_SIZE + block_size) as int,
            header.segment_space.page_size as int,
        );
    }
    let allocate_size = crate::util::bits::min_aligned_size(
        BLOCK_FREE_SIZE_HEADER_SIZE + block_size,
        header.segment_space.page_size,
    );

    if header.segment_space.available_size < allocate_size {
        return Ok(None);
    }
    let block_ptr = match env.alloc_space(allocate_size) {
        Ok(block_ptr) => block_ptr,
        Err(e) => {
            return Err(AllocError::EnvFailure(e));
        },
    };
    proof {
        let page_size = header.segment_space.page_size as int;
        lemma_multiple_of_page(allocate_size as int, page_size);
        vstd::arithmetic::div_mod::lemma_fundamental_div_mod(allocate_size as int, page_size);
        vstd::arithmetic::div_mod::lemma_fundamental_div_mod(
            page_size,
            COMPACT_HEADER_SIZE as int,
        );
        assert(allocate_size >= page_size) by (nonlinear_arith)
            requires
                allocate_size == page_size * (allocate_size as int / page_size),
                allocate_size > 0,
                page_size > 0,
        ;
    }
    match allocated_block_of_free_size(header, allocate_size, block_ptr) {
        Ok(allocated) => Ok(allocated),
        Err(e) => match env.release(block_ptr, allocate_size) {
            Ok(()) => Err(e),
            Err(refused) => Err(AllocError::EnvFailure(refused)),
        },
    }
}

/// A multiple of a page is a multiple of the alignment.
proof fn lemma_multiple_of_page(size: int, page_size: int)
    requires
        0 <= size,
        0 < page_size,
        page_size % (COMPACT_HEADER_SIZE as int) == 0,
        size % page_size == 0,
    ensures
        size % (ALIGNMENT_SIZE as int) == 0,
{
    let pages = size / page_size;
    let headers = page_size / (COMPACT_HEADER_SIZE as int);
    vstd::arithmetic::div_mod::lemma_fundamental_div_mod(size, page_size);
    vstd::arithmetic::div_mod::lemma_fundamental_div_mod(page_size, COMPACT_HEADER_SIZE as int);
    assert(size == 8 * (2 * headers * pages)) by (nonlinear_arith)
        requires
            size == page_size * pages,
            page_size == 16 * headers,
    ;
}

/// Whether entry `at` of the large blocks is the one whose payload begins at
/// `addr`.
pub open spec fn is_free_size_block_at(header: Header, addr: int, at: int) -> bool {
    0 <= at < header.free_size_blocks@.len() && header.free_size_blocks@[at].spec_payload_addr()
        == addr
}

/// What `free_block_of_free_size` does: where `ptr` is the payload of a
/// large block that is handed out, the environment is asked to release the
/// mapping of the block, and where it does, the mapping is given back to the
/// budget.
pub open spec fn spec_free_block_of_free_size(
    before: Header,
    ptr: AnyNonNullPtr,
    after: Header,
    freed: Result<(), AllocError>,
    calls_before: Seq<SysCall>,
    calls_after: Seq<SysCall>,
) -> bool {
    &&& same_segments(before, after)
    &&& if exists|at: int| is_free_size_block_at(before, ptr.raw as int, at) {
        let at = choose|at: int| is_free_size_block_at(before, ptr.raw as int, at);
        let block = before.free_size_blocks@[at];
        &&& calls_after == calls_before.push(
            SysCall::Release { addr: block.block_ptr, len: block.spec_whole_size() as usize },
        )
        &&& match freed {
            Ok(()) => {
                &&& after.segment_space.available_size == before.segment_space.available_size
                    + block.spec_whole_size()
                &&& after.free_size_blocks@ == before.free_size_blocks@.remove(at)
            },
            Err(AllocError::EnvFailure(_)) => {
                &&& after.segment_space.available_size == before.segment_space.available_size
                &&& after.free_size_blocks@ == before.free_size_blocks@
            },
            Err(_) => false,
        }
    } else {
        &&& freed == Err::<(), AllocError>(
            AllocError::PreconditionViolated(Violation::UnownedPointer),
        )
        &&& calls_after == calls_before
        &&& after.segment_space.available_size == before.segment_space.available_size
        &&& after.free_size_blocks@ == before.free_size_blocks@
    }
}

/// The entry of the large block whose payload begins at `ptr`, or none.
pub fn find_free_size_block(header: &Header, ptr: AnyNonNullPtr) -> (found: Option<usize>)
    requires
        header.wf(),
    ensures
        match found {
            Some(at) => is_free_size_block_at(*header, ptr.raw as int, at as int),
            None => forall|at: int| !is_free_size_block_at(*header, ptr.raw as int, at),
        },
{
    let mut at: usize = 0;
    while at < header.free_size_blocks.len()
        invariant
            header.wf(),
            at <= header.free_size_blocks@.len(),
            forall|before: int| 0 <= before < at ==> !is_free_size_block_at(
                *header,
                ptr.raw as int,
                before,
            ),
        decreases header.free_size_blocks@.len() - at,
    {
        let block = &header.free_size_blocks[at];
        proof {
            crate::util::bits::lemma_max_aligned_size(
                block.header.block_size_with_flags as int,
                ALIGNMENT_SIZE as int,
            );
        }
        if block.block_ptr.as_addr() + BLOCK_FREE_SIZE_HEADER_SIZE == ptr.as_addr() {
            return Some(at);
        }
        at += 1;
    }
    None
}

/// Takes a large block back and releases its mapping.
pub fn free_block_free_size_by_header<Env: SysMemEnv>(
    header: &mut Header,
    env: &mut TracedEnv<Env>,
    ptr: AnyNonNullPtr,
) -> (freed: Result<(), AllocError>)
    requires
        old(header).wf(),
    ensures
        spec_refusal(*old(env), *final(env), spec_env_refusal(freed)),
        final(header).wf(),
        spec_free_block_of_free_size(
            *old(header),
            ptr,
            *final(header),
            freed,
            old(env).calls(),
            final(env).calls(),
        ),
        freed matches Err(AllocError::EnvFailure(e)) ==> final(env).last_failed() == Some(e),
{
    let at = match find_free_size_block(header, ptr) {
        None => {
            return Err(AllocError::PreconditionViolated(Violation::UnownedPointer));
        },
        Some(at) => at,
    };
    proof {
        let chosen = choose|chosen: int| is_free_size_block_at(*header, ptr.raw as int, chosen);
        if chosen < at {
            assert(header.free_size_blocks@[chosen].block_ptr
                != header.free_size_blocks@[at as int].block_ptr);
        } else if at < chosen {
            assert(header.free_size_blocks@[at as int].block_ptr
                != header.free_size_blocks@[chosen].block_ptr);
        }
        crate::util::bits::lemma_max_aligned_size(
            header.free_size_blocks@[at as int].header.block_size_with_flags as int,
            ALIGNMENT_SIZE as int,
        );
    }
    let block_ptr = header.free_size_blocks[at].block_ptr;
    let block_whole_size = BLOCK_FREE_SIZE_HEADER_SIZE
        + header.free_size_blocks[at].header.block_size();

    match env.release(block_ptr, block_whole_size) {
        Ok(()) => {},
        Err(e) => {
            return Err(AllocError::EnvFailure(e));
        },
    }
    proof {
        lemma_total_size_remove(header.free_size_blocks@, at as int);
        lemma_total_size_bounds(header.free_size_blocks@, at as int);
    }
    header.segment_space.available_size += block_whole_size;
    let _ = header.free_size_blocks.remove(at);
    proof {
        header.lemma_other_lists(old(header), Owner::Nobody);
        let blocks = old(header).free_size_blocks@;
        assert forall|index: int| 0 <= index < blocks.remove(at as int).len()
            implies #[trigger] blocks.remove(
            at as int,
        )[index] == (if index < at {
            blocks[index]
        } else {
            blocks[index + 1]
        }) by {}
    }
    Ok(())
}

/// The mapping of each block is within the total, and no mapping is of
/// negative size.
pub proof fn lemma_total_size_bounds(blocks: Seq<FreeSizeBlock>, at: int)
    requires
        0 <= at < blocks.len(),
    ensures
        0 <= blocks[at].spec_whole_size() <= spec_total_size(blocks),
    decreases blocks.len(),
{
    lemma_total_size_nonnegative(blocks.drop_last());
    crate::util::bits::lemma_max_aligned_size(
        blocks.last().header.block_size_with_flags as int,
        ALIGNMENT_SIZE as int,
    );
    if at < blocks.len() - 1 {
        lemma_total_size_bounds(blocks.drop_last(), at);
    }
}

/// The total of the mappings is not negative.
pub proof fn lemma_total_size_nonnegative(blocks: Seq<FreeSizeBlock>)
    ensures
        0 <= spec_total_size(blocks),
    decreases blocks.len(),
{
    if blocks.len() > 0 {
        lemma_total_size_nonnegative(blocks.drop_last());
        crate::util::bits::lemma_max_aligned_size(
            blocks.last().header.block_size_with_flags as int,
            ALIGNMENT_SIZE as int,
        );
    }
}

/// The sizes that an arena is laid out with.
#[derive(Debug, Clone, Copy, PartialEq, Eq, Structural)]
pub struct ArenaLayout {
    pub page_size: usize,
    /// The bytes at the start of the context space that are committed when
    /// the arena is made: the header of the arena, in whole pages.
    pub committed_context_space_size: usize,
    /// The budget that is left when the context space is committed.
    pub init_available_size: usize,
    /// The number of segments that the reserved range has room for.
    pub max_segment_count: usize,
    /// The bytes that are reserved for the header of the arena and the table
    /// of compact headers.
    pub context_space_size: usize,
    /// The bytes that are reserved for segments.
    pub segment_space_size: usize,
    /// The compact headers that the committed start of the context space
    /// holds.
    pub committed_segment_compact_header_count: usize,
}

/// Whether an arena can work with pages of `page_size` bytes.
pub open spec fn spec_page_size_fits(page_size: int) -> bool {
    &&& 0 < page_size
    &&& SEGMENT_SIZE as int % page_size == 0
    &&& page_size % (ALIGNMENT_SIZE as int) == 0
    &&& page_size % (COMPACT_HEADER_SIZE as int) == 0
}

/// The layout of an arena of the given configuration on pages of
/// `page_size` bytes, or what keeps it from having one.
pub open spec fn spec_plan_arena(config: Config, page_size: usize) -> Result<
    ArenaLayout,
    Violation,
> {
    let committed = spec_min_aligned_size(ARENA_HEADER_SIZE as int, page_size as int);
    let available = config.max_heap_size - committed;
    let reserved = spec_max_aligned_size(available, SEGMENT_SIZE as int);
    let count = reserved / (SEGMENT_SIZE as int);
    if !spec_page_size_fits(page_size as int) {
        Err(Violation::PageSize)
    } else if config.min_heap_size >= config.max_heap_size || config.max_heap_size <= committed
        || reserved + 2 * SEGMENT_SIZE > usize::MAX {
        Err(Violation::HeapSizes)
    } else {
        Ok(
            ArenaLayout {
                page_size,
                committed_context_space_size: committed as usize,
                init_available_size: available as usize,
                max_segment_count: count as usize,
                context_space_size: spec_min_aligned_size(
                    ARENA_HEADER_SIZE_ALIGNED + count * COMPACT_HEADER_SIZE,
                    page_size as int,
                ) as usize,
                segment_space_size: reserved as usize,
                committed_segment_compact_header_count: ((committed - ARENA_HEADER_SIZE_ALIGNED)
                    / (COMPACT_HEADER_SIZE as int)) as usize,
            },
        )
    }
}

/// What the sizes of a layout have to do with each other.
pub proof fn lemma_plan_arena(config: Config, page_size: usize)
    requires
        spec_plan_arena(config, page_size) is Ok,
    ensures
        ({
            let layout = spec_plan_arena(config, page_size).unwrap();
            &&& ARENA_HEADER_SIZE_ALIGNED <= layout.committed_context_space_size
                <= ARENA_HEADER_SIZE + page_size
            &&& layout.committed_context_space_size % page_size == 0
            &&& layout.committed_context_space_size == ARENA_HEADER_SIZE_ALIGNED
                + COMPACT_HEADER_SIZE * layout.committed_segment_compact_header_count
            &&& layout.init_available_size + layout.committed_context_space_size
                == config.max_heap_size
            &&& layout.segment_space_size == SEGMENT_SIZE * layout.max_segment_count
            &&& layout.segment_space_size <= layout.init_available_size
            &&& layout.segment_space_size % SEGMENT_SIZE == 0
            &&& layout.segment_space_size / SEGMENT_SIZE == layout.max_segment_count
            &&& layout.max_segment_count * COMPACT_HEADER_SIZE <= layout.segment_space_size
            &&& ARENA_HEADER_SIZE_ALIGNED + layout.max_segment_count * COMPACT_HEADER_SIZE
                <= layout.context_space_size <= ARENA_HEADER_SIZE_ALIGNED
                + layout.max_segment_count * COMPACT_HEADER_SIZE + page_size
            &&& layout.committed_context_space_size <= layout.context_space_size
            &&& page_size <= SEGMENT_SIZE
            &&& 16 <= page_size
        }),
{
    let page = page_size as int;
    let committed = spec_min_aligned_size(ARENA_HEADER_SIZE as int, page);
    let available = config.max_heap_size - committed;
    let reserved = spec_max_aligned_size(available, SEGMENT_SIZE as int);
    let count = reserved / (SEGMENT_SIZE as int);
    lemma_min_aligned_size(ARENA_HEADER_SIZE as int, page);
    lemma_max_aligned_size(available, SEGMENT_SIZE as int);
    lemma_min_aligned_size(ARENA_HEADER_SIZE_ALIGNED + count * COMPACT_HEADER_SIZE, page);
    vstd::arithmetic::div_mod::lemma_fundamental_div_mod(SEGMENT_SIZE as int, page);
    vstd::arithmetic::div_mod::lemma_fundamental_div_mod(page, COMPACT_HEADER_SIZE as int);
    vstd::arithmetic::div_mod::lemma_fundamental_div_mod(committed, page);
    vstd::arithmetic::div_mod::lemma_fundamental_div_mod(reserved, SEGMENT_SIZE as int);
    let pages_of_segment = SEGMENT_SIZE as int / page;
    let headers_of_page = page / (COMPACT_HEADER_SIZE as int);
    let pages = committed / page;
    assert(page <= SEGMENT_SIZE) by (nonlinear_arith)
        requires
            SEGMENT_SIZE == page * pages_of_segment,
            0 < page,
    ;
    assert(committed == 16 * (headers_of_page * pages)) by (nonlinear_arith)
        requires
            committed == page * pages,
            page == 16 * headers_of_page,
    ;
    assert(0 <= count) by {
        vstd::arithmetic::div_mod::lemma_div_pos_is_pos(reserved, SEGMENT_SIZE as int);
    }
    assert(reserved == SEGMENT_SIZE * count);
    assert(ARENA_HEADER_SIZE_ALIGNED + count * COMPACT_HEADER_SIZE + page <= reserved + 2
        * SEGMENT_SIZE);
    assert(committed >= ARENA_HEADER_SIZE_ALIGNED);
    assert((committed - ARENA_HEADER_SIZE_ALIGNED) % 16 == 0);
    crate::util::bits::lemma_min_aligned_size_increases(
        ARENA_HEADER_SIZE as int,
        ARENA_HEADER_SIZE_ALIGNED + count * COMPACT_HEADER_SIZE,
        page,
    );
}

/// Lays an arena of the given configuration out on pages of `page_size`
/// bytes.
pub fn plan_arena(config: &Config, page_size: usize) -> (plan: Result<ArenaLayout, Violation>)
    ensures
        plan == spec_plan_arena(*config, page_size),
{
    if page_size == 0 || SEGMENT_SIZE % page_size != 0 || page_size % ALIGNMENT_SIZE != 0
        || page_size % COMPACT_HEADER_SIZE != 0 {
        return Err(Violation::PageSize);
    }
    proof {
        let pages_of_segment = SEGMENT_SIZE as int / (page_size as int);
        vstd::arithmetic::div_mod::lemma_fundamental_div_mod(SEGMENT_SIZE as int, page_size as int);
        assert(page_size <= SEGMENT_SIZE) by (nonlinear_arith)
            requires
                SEGMENT_SIZE == page_size * pages_of_segment,
                0 < page_size,
        ;
        lemma_min_aligned_size(ARENA_HEADER_SIZE as int, page_size as int);
    }
    let committed_context_space_size = min_aligned_size(ARENA_HEADER_SIZE, page_size);
    if config.min_heap_size >= config.max_heap_size || config.max_heap_size
        <= committed_context_space_size {
        return Err(Violation::HeapSizes);
    }
    let init_available_size = config.max_heap_size - committed_context_space_size;
    let reserved_size_for_segments = max_aligned_size(init_available_size, SEGMENT_SIZE);
    if reserved_size_for_segments > usize::MAX - 2 * SEGMENT_SIZE {
        return Err(Violation::HeapSizes);
    }
    let max_segment_count = reserved_size_for_segments / SEGMENT_SIZE;
    proof {
        lemma_plan_arena(*config, page_size);
        lemma_min_aligned_size(
            ARENA_HEADER_SIZE_ALIGNED + max_segment_count * COMPACT_HEADER_SIZE,
            page_size as int,
        );
    }
    let segment_compact_header_space_size = max_segment_count * COMPACT_HEADER_SIZE;

    let context_space_size = min_aligned_size(
        ARENA_HEADER_SIZE_ALIGNED + segment_compact_header_space_size,
        page_size,
    );
    let committed_segment_compact_header_count = (committed_context_space_size
        - ARENA_HEADER_SIZE_ALIGNED) / COMPACT_HEADER_SIZE;
    Ok(
        ArenaLayout {
            page_size,
            committed_context_space_size,
            init_available_size,
            max_segment_count,
            context_space_size,
            segment_space_size: reserved_size_for_segments,
            committed_segment_compact_header_count,
        },
    )
}

/// A segment that kept its blocks and its owner stays settled.
pub proof fn lemma_settled_segment(seg: Segment, other: Segment)
    requires
        is_settled_segment(other),
        seg.same_blocks(&other),
        seg.owner@ == other.owner@,
    ensures
        is_settled_segment(seg),
{
    seg.lemma_same_blocks(&other);
}

/// The segments that kept their blocks and their owner through two steps
/// are settled as they were.
pub proof fn lemma_others_settled(before: Header, middle: Header, after: Header, seg_index: int)
    requires
        before.is_settled_but(seg_index),
        forall|other: int|
            0 <= other < after.segment_space.segments@.len() && other != seg_index ==> {
                &&& other < before.segment_space.segments@.len()
                &&& other < middle.segment_space.segments@.len()
                &&& (#[trigger] after.segment_space.segments@[other]).same_blocks(
                    &middle.segment_space.segments@[other],
                )
                &&& middle.segment_space.segments@[other].same_blocks(
                    &before.segment_space.segments@[other],
                )
                &&& after.segment_space.segments@[other].owner@
                    == before.segment_space.segments@[other].owner@
            },
    ensures
        after.is_settled_but(seg_index),
        forall|other: int|
            0 <= other < after.segment_space.segments@.len() && other != seg_index ==> (
            #[trigger] after.segment_space.segments@[other]).same_blocks(
                &before.segment_space.segments@[other],
            ),
{
    assert forall|other: int|
        0 <= other < after.segment_space.segments@.len() && other
            != seg_index implies is_settled_segment(
        #[trigger] after.segment_space.segments@[other],
    ) && after.segment_space.segments@[other].same_blocks(
        &before.segment_space.segments@[other],
    ) by {
        lemma_settled_segment(
            after.segment_space.segments@[other],
            before.segment_space.segments@[other],
        );
    }
}

/// Giving an empty segment to the keep-list settles it, and what leaves the
/// keep-list for the free-segment list is settled too.
pub proof fn lemma_settled_after_free_unused_segment(
    before: Header,
    floated_seg: AnyNonNullPtr,
    after: Header,
)
    requires
        before.wf(),
        before.segment_space.is_header_addr(floated_seg.raw as int),
        before.is_settled_but(before.segment_space.spec_index_of_header(floated_seg.raw as int)),
        spec_settled_unused_segment(before, floated_seg, after),
    ensures
        after.is_settled(),
{
    let seg_index = before.segment_space.spec_index_of_header(floated_seg.raw as int);
    let flooded = spec_flooded_index(before, seg_index);
    assert forall|index: int|
        0 <= index < after.segment_space.segments@.len() implies is_settled_segment(
        #[trigger] after.segment_space.segments@[index],
    ) by {
        if index != seg_index && (index != flooded || before.keep_segments.should_keep_count
            > 0) {
            lemma_settled_segment(
                after.segment_space.segments@[index],
                before.segment_space.segments@[index],
            );
        }
    }
}

/// The arena: where its context space begins, and its header.
pub struct Arena {
    pub context_space: AnyNonNullPtr,
    pub header: Header,
}

/// The first requests that `init` makes: for the page size, for the context
/// space, for the committed start of the context space, and for the range
/// of the segments with one segment more, of which the unaligned ends are
/// given back.
pub open spec fn spec_init_calls(layout: ArenaLayout, context_space: AnyNonNullPtr) -> Seq<
    SysCall,
> {
    seq![
        SysCall::GetPagesize,
        SysCall::Reserve { len: layout.context_space_size },
        SysCall::Commit { addr: context_space, len: layout.committed_context_space_size },
        SysCall::Reserve { len: (layout.segment_space_size + SEGMENT_SIZE) as usize },
    ]
}

/// What an arena that `init` made of a configuration is like.
pub open spec fn spec_init(config: Config, arena: Arena) -> bool {
    let header = arena.header;
    let page_size = header.segment_space.page_size;
    &&& header.wf()
    &&& header.is_settled()
    &&& spec_plan_arena(config, page_size) matches Ok(layout)
    &&& header.max_heap_size == config.max_heap_size
    &&& header.committed_context_space_size == layout.committed_context_space_size
    &&& header.first_compact_header_count == layout.committed_segment_compact_header_count
    &&& header.keep_segments.keep_segments_count == config.keep_segments_count
    &&& header.segment_space.segment_compact_header_space.raw == arena.context_space.raw
        + ARENA_HEADER_SIZE_ALIGNED
    &&& header.segment_space.segment_space_end.raw - header.segment_space.segment_space_begin.raw
        == layout.segment_space_size
    &&& forall|class: int|
        0 <= class < CLASS_COUNT ==> (#[trigger] header.subheaps@[class]).list@.len() == 0
    &&& header.free_size_blocks@.len() == 0
    &&& header.keep_segments.list@.len() == (if header.segment_space.segments@.len()
        <= config.keep_segments_count {
        header.segment_space.segments@.len()
    } else {
        config.keep_segments_count as nat
    })
    &&& header.keep_segments.list@.len() + header.free_segments@.len()
        == header.segment_space.segments@.len()
    &&& config.min_heap_size <= header.spec_committed_bytes()
    &&& header.segment_space.segments@.len() > 0 ==> header.spec_committed_bytes() - SEGMENT_SIZE
        - page_size < config.min_heap_size
    &&& spec_precommit_reaches(
        layout.init_available_size as int,
        layout.committed_segment_compact_header_count as int,
        0,
        layout.max_segment_count as int,
        page_size as int,
        config.max_heap_size as int,
        config.min_heap_size as int,
    )
}

impl Arena {
    pub open spec fn wf(&self) -> bool {
        self.header.wf()
    }

    /// Reserves the address space of an arena, commits its header, and
    /// commits segments until `min_heap_size` bytes are committed.
    pub fn init<Env: SysMemEnv>(env: &mut TracedEnv<Env>, config: Config) -> (created: Result<
        Self,
        AllocError,
    >)
        ensures
            spec_refusal(*old(env), *final(env), spec_env_refusal(created)),
            spec_init_outcome(
            config,
            created,
            final(env).last_pagesize(),
            final(env).last_range(),
            old(env).calls(),
            final(env).calls(),
        ),
            created matches Err(AllocError::EnvFailure(e)) ==> final(env).last_failed() == Some(e),
            !(created matches Err(AllocError::EnvFailure(_))) ==> final(env).last_failed() is None,
    {
        init_arena(env, config)
    }

    /// The list of the segments of a class that have a free block.
    #[inline]
    pub fn subheap(&self, class_of_size: usize) -> (subheap: &SubHeap)
        requires
            self.wf(),
            class_of_size < CLASS_COUNT,
        ensures
            *subheap == self.header.subheaps@[class_of_size as int],
    {
        &self.header.subheaps[class_of_size]
    }

    /// The segment whose compact header stands at `seg_ptr`.
    #[inline]
    pub fn segment(&self, seg_ptr: AnyNonNullPtr) -> (seg: &Segment)
        requires
            self.wf(),
            self.header.segment_space.is_header_addr(seg_ptr.raw as int),
        ensures
            *seg == self.header.segment_space.spec_segment(seg_ptr),
            seg.compact_header_ptr == seg_ptr,
    {
        self.header.segment_space.segment(seg_ptr)
    }

    /// The regime of the block at `ptr`: a block within the range that
    /// segments are taken from is a block of a subheap, and any other block
    /// is a large block.
    #[inline]
    pub fn block_type(&self, ptr: AnyNonNullPtr) -> (block_type: Type)
        ensures
            block_type == (if self.header.segment_space.spec_ptr_in_space(ptr.raw as int) {
                Type::OnSubHeap
            } else {
                Type::FreeSize
            }),
    {
        if self.header.segment_space.ptr_in_space(ptr) {
            Type::OnSubHeap
        } else {
            Type::FreeSize
        }
    }

    /// Gives an empty segment that nobody owns to the keep-list; what the
    /// keep-list has no room for goes to the free-segment list and is
    /// soft-decommitted.
    #[inline]
    pub fn free_unused_segment<Env: SysMemEnv>(
        &mut self,
        env: &mut TracedEnv<Env>,
        floated_seg: AnyNonNullPtr,
    ) -> (freed: Result<(), EnvError>)
        requires
            old(self).wf(),
            old(self).header.segment_space.is_header_addr(floated_seg.raw as int),
            ({
                let seg = old(self).header.segment_space.spec_segment(floated_seg);
                &&& seg.owner@ == Owner::Nobody
                &&& seg.spec_is_floated()
                &&& seg.additional_header.used_block_count == 0
            }),
        ensures
            spec_refusal(*old(env), *final(env), spec_failure(freed)),
            final(self).wf(),
            final(self).context_space == old(self).context_space,
            spec_free_unused_segment(
                old(self).header,
                floated_seg,
                final(self).header,
                freed,
                old(env).calls(),
                final(env).calls(),
            ),
            final(env).last_failed() == (match freed {
                Err(e) => Some(e),
                Ok(()) => if old(self).header.keep_segments.should_keep_count > 0 {
                    old(env).last_failed()
                } else {
                    None
                },
            }),
    {
        free_unused_segment_by_header(&mut self.header, env, floated_seg)
    }

    /// Takes a segment that is committed and empty from the keep-list, or
    /// else from the free-segment list.
    #[inline]
    pub fn pop_free_segment<Env: SysMemEnv>(&mut self, env: &mut TracedEnv<Env>) -> (popped:
        Result<Option<AnyNonNullPtr>, EnvError>)
        requires
            old(self).wf(),
        ensures
            spec_refusal(*old(env), *final(env), spec_failure(popped)),
            final(self).wf(),
            final(self).context_space == old(self).context_space,
            spec_pop_free_segment(
                old(self).header,
                final(self).header,
                popped,
                old(env).calls(),
                final(env).calls(),
            ),
            popped matches Err(e) ==> final(env).last_failed() == Some(e),
    {
        pop_free_segment_by_header(&mut self.header, env)
    }

    /// Links a segment that nobody owns and that has a free block into the
    /// list of its class.
    #[inline]
    pub fn insert_free_segment_to_subheap(
        &mut self,
        class_of_size: usize,
        floated_seg: AnyNonNullPtr,
    )
        requires
            old(self).wf(),
            class_of_size < CLASS_COUNT,
            old(self).header.segment_space.is_header_addr(floated_seg.raw as int),
            ({
                let seg = old(self).header.segment_space.spec_segment(floated_seg);
                &&& seg.owner@ == Owner::Nobody
                &&& seg.is_initialized()
                &&& seg.class() == class_of_size
                &&& seg.additional_header.used_block_count < seg.spec_block_count()
            }),
        ensures
            final(self).wf(),
            final(self).context_space == old(self).context_space,
            spec_insert_free_segment_to_subheap(
                old(self).header,
                class_of_size,
                floated_seg,
                final(self).header,
            ),
    {
        insert_free_segment_to_subheap_by_header(&mut self.header, class_of_size, floated_seg)
    }

    /// Takes a segment out of the list of its class.
    #[inline]
    pub fn remove_segment_from_subheap(&mut self, class_of_size: usize, seg: AnyNonNullPtr)
        requires
            old(self).wf(),
            class_of_size < CLASS_COUNT,
            old(self).header.segment_space.is_header_addr(seg.raw as int),
            old(self).header.segment_space.spec_segment(seg).owner@ == Owner::SubHeap(
                class_of_size as int,
            ),
        ensures
            final(self).wf(),
            final(self).context_space == old(self).context_space,
            spec_remove_segment_from_subheap(
                old(self).header,
                class_of_size,
                seg,
                final(self).header,
            ),
    {
        remove_segment_from_subheap_by_header(&mut self.header, class_of_size, seg)
    }

    /// Hands out a large block, in a mapping of its own.
    #[inline]
    pub fn alloc_block_of_free_size<Env: SysMemEnv>(
        &mut self,
        env: &mut TracedEnv<Env>,
        block_size: usize,
    ) -> (allocated: Result<Option<AnyNonNullPtr>, AllocError>)
        requires
            old(self).wf(),
            block_size % ALIGNMENT_SIZE == 0,
            BLOCK_FREE_SIZE_HEADER_SIZE + block_size + SEGMENT_SIZE <= usize::MAX,
        ensures
            spec_refusal(*old(env), *final(env), spec_env_refusal(allocated)),
            final(self).wf(),
            final(self).context_space == old(self).context_space,
            spec_alloc_block_of_free_size(
                old(self).header,
                block_size,
                final(self).header,
                allocated,
                old(env).calls(),
                final(env).calls(),
            ),
            allocated matches Err(AllocError::EnvFailure(e)) ==> final(env).last_failed()
                == Some(e),
    {
        alloc_block_free_size_by_header(&mut self.header, env, block_size)
    }

    /// Takes a large block back and releases its mapping.
    #[inline]
    pub fn free_block_of_free_size<Env: SysMemEnv>(
        &mut self,
        env: &mut TracedEnv<Env>,
        ptr: AnyNonNullPtr,
    ) -> (freed: Result<(), AllocError>)
        requires
            old(self).wf(),
        ensures
            spec_refusal(*old(env), *final(env), spec_env_refusal(freed)),
            final(self).wf(),
            final(self).context_space == old(self).context_space,
            spec_free_block_of_free_size(
                old(self).header,
                ptr,
                final(self).header,
                freed,
                old(env).calls(),
                final(env).calls(),
            ),
            freed matches Err(AllocError::EnvFailure(e)) ==> final(env).last_failed() == Some(e),
    {
        free_block_free_size_by_header(&mut self.header, env, ptr)
    }

    /// Commits one more segment, which nobody owns.
    pub fn alloc_new_segment<Env: SysMemEnv>(&mut self, env: &mut TracedEnv<Env>) -> (allocated:
        Result<Option<AnyNonNullPtr>, EnvError>)
        requires
            old(self).wf(),
        ensures
            spec_refusal(*old(env), *final(env), spec_failure(allocated)),
            final(self).wf(),
            final(self).context_space == old(self).context_space,
            spec_alloc_new_segment(
                old(self).header,
                final(self).header,
                allocated,
                old(env).calls(),
                final(env).calls(),
            ),
            final(env).last_failed() == (match allocated {
                Err(e) => Some(e),
                Ok(Some(_)) => None,
                Ok(None) => old(env).last_failed(),
            }),
    {
        alloc_new_segment_by_header(&mut self.header, env)
    }
}

/// The lists of the classes, all of them empty.
fn init_subheaps() -> (subheaps: Vec<SubHeap>)
    ensures
        subheaps@.len() == CLASS_COUNT,
        forall|class: int|
            0 <= class < CLASS_COUNT ==> {
                &&& (#[trigger] subheaps@[class]).list@ == Seq::<int>::empty()
                &&& subheaps@[class].free_segments_begin == 0
                &&& subheaps@[class].free_segments_end == 0
            },
{
    let mut subheaps: Vec<SubHeap> = Vec::new();
    let mut class: usize = 0;
    while class < CLASS_COUNT
        invariant
            class <= CLASS_COUNT,
            subheaps@.len() == class,
            forall|other: int|
                0 <= other < class ==> {
                    &&& (#[trigger] subheaps@[other]).list@ == Seq::<int>::empty()
                    &&& subheaps@[other].free_segments_begin == 0
                    &&& subheaps@[other].free_segments_end == 0
                },
        decreases CLASS_COUNT - class,
    {
        subheaps.push(SubHeap::init());
        class += 1;
    }
    subheaps
}

/// Whether the range that the environment answered with can hold the
/// context space: it is not null, it is aligned for compact headers, and it
/// and two segments more end within the address space.
pub open spec fn spec_usable_context_space(
    layout: ArenaLayout,
    context_space: AnyNonNullPtr,
) -> bool {
    &&& context_space.raw != 0
    &&& context_space.raw % COMPACT_HEADER_SIZE == 0
    &&& context_space.raw + layout.context_space_size + 2 * SEGMENT_SIZE <= usize::MAX
}

/// Whether the range that the environment answered with can hold the
/// context space.
pub fn usable_context_space(layout: &ArenaLayout, context_space: AnyNonNullPtr) -> (usable: bool)
    ensures
        usable == spec_usable_context_space(*layout, context_space),
{
    let raw = context_space.as_addr();
    raw != 0 && raw % COMPACT_HEADER_SIZE == 0 && raw <= usize::MAX - layout.context_space_size
        && usize::MAX - layout.context_space_size - raw >= 2 * SEGMENT_SIZE
}

/// Whether the range that the environment answered with can hold the
/// segments: it is not null, it is aligned for segments, and it ends within
/// the address space.
pub open spec fn spec_usable_segment_space(
    layout: ArenaLayout,
    segment_space: AnyNonNullPtr,
) -> bool {
    &&& segment_space.raw != 0
    &&& segment_space.raw % SEGMENT_SIZE == 0
    &&& segment_space.raw + layout.segment_space_size <= usize::MAX
}

/// The header of an arena in which nothing is committed but the start of
/// the context space: no segment, every list empty, no large block.
pub open spec fn spec_fresh_header(
    config: Config,
    layout: ArenaLayout,
    context_space: AnyNonNullPtr,
    segment_space: AnyNonNullPtr,
    header: Header,
) -> bool {
    &&& header.segment_space.page_size == layout.page_size
    &&& header.segment_space.segment_compact_header_space.raw == context_space.raw
        + ARENA_HEADER_SIZE_ALIGNED
    &&& header.segment_space.segment_space_begin == segment_space
    &&& header.segment_space.segment_space_end.raw == segment_space.raw
        + layout.segment_space_size
    &&& header.segment_space.available_size == layout.init_available_size
    &&& header.segment_space.next_alloc_segment_compact_header_index
        == layout.committed_segment_compact_header_count
    &&& header.segment_space.next_alloc_segment_index == 0
    &&& header.segment_space.segments@.len() == 0
    &&& header.keep_segments.list@.len() == 0
    &&& header.keep_segments.should_keep_count == config.keep_segments_count
    &&& header.keep_segments.keep_segments_count == config.keep_segments_count
    &&& header.free_segments@.len() == 0
    &&& header.free_segments_begin == 0
    &&& forall|class: int|
        0 <= class < CLASS_COUNT ==> (#[trigger] header.subheaps@[class]).list@.len() == 0
    &&& header.max_heap_size == config.max_heap_size
    &&& header.committed_context_space_size == layout.committed_context_space_size
    &&& header.first_compact_header_count == layout.committed_segment_compact_header_count
    &&& header.free_size_blocks@.len() == 0
}

/// The header of an arena of the given layout in the two ranges that the
/// environment answered with.
pub fn new_header(
    config: &Config,
    layout: &ArenaLayout,
    context_space: AnyNonNullPtr,
    segment_space: AnyNonNullPtr,
) -> (header: Header)
    requires
        spec_plan_arena(*config, layout.page_size) == Ok::<ArenaLayout, Violation>(*layout),
        spec_usable_context_space(*layout, context_space),
        spec_usable_segment_space(*layout, segment_space),
    ensures
        header.wf(),
        header.is_settled(),
        spec_fresh_header(*config, *layout, context_space, segment_space, header),
{
    proof {
        lemma_plan_arena(*config, layout.page_size);
    }
    let segment_compact_header_space = context_space.add(ARENA_HEADER_SIZE_ALIGNED);
    let segment_space_begin = segment_space;
    let segment_space_end = segment_space_begin.add(layout.segment_space_size);
    let header = Header {
        segment_space: SegmentSpace::new(
            layout.page_size,
            segment_compact_header_space,
            segment_space_begin,
            segment_space_end,
            layout.init_available_size,
            layout.committed_segment_compact_header_count,
            0,
        ),
        keep_segments: KeepSegmentsList::new(config.keep_segments_count),
        free_segments_begin: 0,
        subheaps: init_subheaps(),
        free_segments: Ghost(Seq::empty()),
        max_heap_size: config.max_heap_size,
        committed_context_space_size: layout.committed_context_space_size,
        first_compact_header_count: layout.committed_segment_compact_header_count,
        free_size_blocks: Vec::new(),
    };
    proof {
        assert(header.segment_space.wf());
        assert(header.wf());
    }
    header
}

/// Whether committing one segment after the other reaches `min_heap_size`
/// committed bytes before the reserved range or the budget is used up, in a
/// space with the given budget, committed compact headers and committed
/// segments.
pub open spec fn spec_precommit_reaches(
    available: int,
    headers: int,
    segments: int,
    max_segments: int,
    page_size: int,
    max_heap_size: int,
    min_heap_size: int,
) -> bool
    decreases available,
{
    let cost = if headers == segments {
        page_size + SEGMENT_SIZE
    } else {
        SEGMENT_SIZE as int
    };
    if max_heap_size - available >= min_heap_size {
        true
    } else if !(segments < max_segments && available >= cost && page_size >= 0) {
        false
    } else {
        spec_precommit_reaches(
            available - cost,
            if headers == segments {
                headers + page_size / (COMPACT_HEADER_SIZE as int)
            } else {
                headers
            },
            segments + 1,
            max_segments,
            page_size,
            max_heap_size,
            min_heap_size,
        )
    }
}

/// Whether `precommit` reaches `min_heap_size` committed bytes in the arena
/// of `header` where the environment refuses nothing.
pub open spec fn spec_header_reaches(header: Header, min_heap_size: usize) -> bool {
    spec_precommit_reaches(
        header.segment_space.available_size as int,
        header.segment_space.next_alloc_segment_compact_header_index as int,
        header.segment_space.next_alloc_segment_index as int,
        header.segment_space.spec_max_segment_count(),
        header.segment_space.page_size as int,
        header.max_heap_size as int,
        min_heap_size as int,
    )
}

/// What `precommit` leaves alone.
pub open spec fn spec_precommitted(before: Header, after: Header) -> bool {
    let added = after.segment_space.segments@.len() - before.segment_space.segments@.len();
    &&& after.segment_space.same_layout(&before.segment_space)
    &&& after.max_heap_size == before.max_heap_size
    &&& after.committed_context_space_size == before.committed_context_space_size
    &&& after.first_compact_header_count == before.first_compact_header_count
    &&& after.free_size_blocks@ == before.free_size_blocks@
    &&& after.keep_segments.keep_segments_count == before.keep_segments.keep_segments_count
    &&& same_subheaps(before, after)
    &&& 0 <= added
}

/// How the keep-list and the free-segment list grow by the segments that
/// `precommit` commits: the keep-list until it is full, the free-segment
/// list by the rest.
pub open spec fn spec_precommitted_lists(before: Header, after: Header) -> bool {
    let added = after.segment_space.segments@.len() - before.segment_space.segments@.len();
    &&& after.keep_segments.list@.len() as int == (if added
        <= before.keep_segments.should_keep_count {
        before.keep_segments.list@.len() as int + added
    } else {
        before.keep_segments.keep_segments_count as int
    })
    &&& after.keep_segments.list@.len() as int + after.free_segments@.len() as int
        == before.keep_segments.list@.len() as int + before.free_segments@.len() as int + added
}

/// Commits segments until `min_heap_size` bytes are committed, and gives
/// each of them to the keep-list.
pub fn precommit<Env: SysMemEnv>(
    header: &mut Header,
    env: &mut TracedEnv<Env>,
    min_heap_size: usize,
) -> (r: Result<(), AllocError>)
    requires
        old(header).wf(),
        old(header).is_settled(),
    ensures
        spec_refusal(*old(env), *final(env), spec_env_refusal(r)),
        final(header).wf(),
        spec_precommitted(*old(header), *final(header)),
        old(env).calls().is_prefix_of(final(env).calls()),
        final(env).last_pagesize() == old(env).last_pagesize(),
        r matches Err(AllocError::EnvFailure(_)) ==> old(env).calls().len()
            < final(env).calls().len(),
        match r {
            Ok(()) => {
                &&& spec_header_reaches(*old(header), min_heap_size)
                &&& spec_precommitted_lists(*old(header), *final(header))
                &&& final(header).is_settled()
                &&& min_heap_size <= final(header).spec_committed_bytes()
                &&& final(header).segment_space.segments@.len() > old(
                    header,
                ).segment_space.segments@.len() ==> final(header).spec_committed_bytes()
                    - SEGMENT_SIZE - final(header).segment_space.page_size < min_heap_size
                &&& old(env).last_failed() is None ==> final(env).last_failed() is None
            },
            Err(AllocError::OutOfHeap) => {
                &&& !spec_header_reaches(*old(header), min_heap_size)
                &&& spec_precommitted_lists(*old(header), *final(header))
                &&& final(header).is_settled()
                &&& final(header).spec_committed_bytes() < min_heap_size
                &&& !spec_can_alloc_new_segment(final(header).segment_space)
                &&& old(env).last_failed() is None ==> final(env).last_failed() is None
            },
            Err(AllocError::EnvFailure(e)) => final(env).last_failed() == Some(e),
            Err(AllocError::PreconditionViolated(_)) => false,
        },
{
    let ghost calls = env.calls();
    proof {
        lemma_calls_added(calls, Seq::empty());
        lemma_total_size_nonnegative(header.free_size_blocks@);
    }
    while header.max_heap_size - header.segment_space.available_size < min_heap_size
        invariant
            old(header).wf(),
            header.wf(),
            header.segment_space.available_size <= header.max_heap_size,
            header.is_settled(),
            spec_precommitted(*old(header), *header),
            spec_precommitted_lists(*old(header), *header),
            spec_header_reaches(*old(header), min_heap_size) == spec_header_reaches(
                *header,
                min_heap_size,
            ),
            header.segment_space.segments@.len() > old(header).segment_space.segments@.len()
                ==> header.spec_committed_bytes() - SEGMENT_SIZE - header.segment_space.page_size
                < min_heap_size,
            calls == old(env).calls(),
            calls.is_prefix_of(env.calls()),
            env.last_pagesize() == old(env).last_pagesize(),
            spec_refusal(*old(env), *env, None),
            old(env).last_failed() is None ==> env.last_failed() is None,
        decreases header.segment_space.available_size,
    {
        let ghost before = *header;
        let ghost calls_before = env.calls();
        let allocated = alloc_new_segment_by_header(header, env);
        proof {
            lemma_calls_added(calls_before, spec_new_segment_calls(before.segment_space));
            lemma_calls_extend(calls, calls_before, env.calls());
        }
        let seg = match allocated {
            Ok(Some(seg)) => seg,
            Ok(None) => {
                proof {
                    assert(header.subheaps@ =~= before.subheaps@);
                    assert forall|index: int|
                        0 <= index < header.segment_space.segments@.len()
                            implies is_settled_segment(
                        #[trigger] header.segment_space.segments@[index],
                    ) by {}
                }
                return Err(AllocError::OutOfHeap);
            },
            Err(e) => {
                return Err(AllocError::EnvFailure(e));
            },
        };
        let ghost allocated_header = *header;
        let ghost calls_allocated = env.calls();
        proof {
            assert(allocated_header.is_settled_but(before.segment_space.segments@.len() as int));
            let page_size = before.segment_space.page_size as int;
            vstd::arithmetic::div_mod::lemma_fundamental_div_mod(page_size, 16);
        }
        let freed = free_unused_segment_by_header(header, env, seg);
        proof {
            lemma_calls_added(
                calls_allocated,
                spec_free_unused_segment_calls(
                    allocated_header,
                    allocated_header.segment_space.spec_index_of_header(seg.raw as int),
                ),
            );
            lemma_calls_extend(calls, calls_allocated, env.calls());
            if freed is Ok {
                lemma_settled_after_free_unused_segment(allocated_header, seg, *header);
            }
        }
        match freed {
            Ok(()) => {},
            Err(e) => {
                return Err(AllocError::EnvFailure(e));
            },
        }
        proof {
            lemma_total_size_nonnegative(header.free_size_blocks@);
            assert(spec_header_reaches(before, min_heap_size) == spec_header_reaches(
                *header,
                min_heap_size,
            ));
        }
    }
    Ok(())
}

/// `init` refused a range: the one for the context space, or the one for
/// the segments, of an arena that is laid out for pages of `page_size`
/// bytes.  `range` is the last range that the environment answered with.
pub open spec fn spec_init_refused_range(
    config: Config,
    page_size: usize,
    context_space: AnyNonNullPtr,
    range: Option<AnyNonNullPtr>,
    calls_before: Seq<SysCall>,
    calls_after: Seq<SysCall>,
) -> bool {
    &&& spec_plan_arena(config, page_size) matches Ok(layout)
    &&& if spec_usable_context_space(layout, context_space) {
        &&& calls_after == calls_before + spec_init_calls(layout, context_space)
        &&& range matches Some(attempt)
        &&& crate::sys::spec_align_reservation(attempt, layout.segment_space_size, SEGMENT_SIZE)
            is Err
    } else {
        &&& range == Some(context_space)
        &&& calls_after == calls_before.push(SysCall::GetPagesize).push(
            SysCall::Reserve { len: layout.context_space_size },
        )
    }
}

/// `init` ran out of heap: an arena that is laid out for pages of
/// `page_size` bytes cannot have `min_heap_size` bytes committed.
pub open spec fn spec_init_out_of_heap(
    config: Config,
    page_size: usize,
    context_space: AnyNonNullPtr,
    calls_before: Seq<SysCall>,
    calls_after: Seq<SysCall>,
) -> bool {
    &&& spec_plan_arena(config, page_size) matches Ok(layout)
    &&& spec_usable_context_space(layout, context_space)
    &&& (calls_before + spec_init_calls(layout, context_space)).is_prefix_of(calls_after)
    &&& !spec_precommit_reaches(
        layout.init_available_size as int,
        layout.committed_segment_compact_header_count as int,
        0,
        layout.max_segment_count as int,
        page_size as int,
        config.max_heap_size as int,
        config.min_heap_size as int,
    )
}

/// What `init` answers with, by what the environment answered: `page_size`
/// is the page size and `range` the last range that it answered with.
pub open spec fn spec_init_outcome(
    config: Config,
    created: Result<Arena, AllocError>,
    page_size: Option<usize>,
    range: Option<AnyNonNullPtr>,
    calls_before: Seq<SysCall>,
    calls_after: Seq<SysCall>,
) -> bool {
    &&& calls_begin_with(calls_before, calls_after, SysCall::GetPagesize)
    &&& match created {
        Ok(arena) => {
            &&& page_size == Some(arena.header.segment_space.page_size)
            &&& spec_init(config, arena)
            &&& (calls_before + spec_init_calls(
                spec_plan_arena(config, arena.header.segment_space.page_size).unwrap(),
                arena.context_space,
            )).is_prefix_of(calls_after)
        },
        Err(AllocError::PreconditionViolated(violation)) => {
            &&& page_size is Some
            &&& if violation == Violation::UnusableRange {
                exists|context_space: AnyNonNullPtr| #[trigger]
                    spec_init_refused_range(
                        config,
                        page_size.unwrap(),
                        context_space,
                        range,
                        calls_before,
                        calls_after,
                    )
            } else {
                &&& calls_after == calls_before.push(SysCall::GetPagesize)
                &&& spec_plan_arena(config, page_size.unwrap()) == Err::<ArenaLayout, Violation>(
                    violation,
                )
            }
        },
        Err(AllocError::OutOfHeap) => {
            &&& page_size is Some
            &&& exists|context_space: AnyNonNullPtr| #[trigger]
                spec_init_out_of_heap(
                    config,
                    page_size.unwrap(),
                    context_space,
                    calls_before,
                    calls_after,
                )
        },
        Err(AllocError::EnvFailure(_)) => true,
    }
}

/// Reserves the address space of an arena, commits its header, and commits
/// segments until `min_heap_size` bytes are committed.
pub fn init_arena<Env: SysMemEnv>(env: &mut TracedEnv<Env>, config: Config) -> (created: Result<
    Arena,
    AllocError,
>)
    ensures
        spec_refusal(*old(env), *final(env), spec_env_refusal(created)),
        spec_init_outcome(
            config,
            created,
            final(env).last_pagesize(),
            final(env).last_range(),
            old(env).calls(),
            final(env).calls(),
        ),
        created matches Err(AllocError::EnvFailure(e)) ==> final(env).last_failed() == Some(e),
        !(created matches Err(AllocError::EnvFailure(_))) ==> final(env).last_failed() is None,
{
    let ghost calls = env.calls();
    let page_size = match env.get_pagesize() {
        Ok(page_size) => page_size,
        Err(e) => {
            proof {
                lemma_calls_added(calls, Seq::empty());
            }
            return Err(AllocError::EnvFailure(e));
        },
    };
    let ghost asked = env.calls();
    proof {
        lemma_calls_added(calls, Seq::empty());
    }
    let layout = match plan_arena(&config, page_size) {
        Ok(layout) => layout,
        Err(violation) => {
            return Err(AllocError::PreconditionViolated(violation));
        },
    };
    proof {
        lemma_plan_arena(config, page_size);
    }
    let reserved = env.reserve(layout.context_space_size);
    proof {
        lemma_calls_added(asked, Seq::empty());
        lemma_calls_extend(calls, asked, env.calls());
    }
    let context_space = match reserved {
        Ok(context_space) => context_space,
        Err(e) => {
            return Err(AllocError::EnvFailure(e));
        },
    };
    if !usable_context_space(&layout, context_space) {
        proof {
            assert(spec_init_refused_range(
                config,
                page_size,
                context_space,
                env.last_range(),
                calls,
                env.calls(),
            ));
        }
        return Err(AllocError::PreconditionViolated(Violation::UnusableRange));
    }
    let ghost reserved_calls = env.calls();
    let committed = env.commit(context_space, layout.committed_context_space_size);
    proof {
        lemma_calls_added(reserved_calls, Seq::empty());
        lemma_calls_extend(calls, reserved_calls, env.calls());
    }
    match committed {
        Ok(()) => {},
        Err(e) => {
            return Err(AllocError::EnvFailure(e));
        },
    }
    let ghost committed_calls = env.calls();
    let aligned = env.reserve_aligned_space(layout.segment_space_size, SEGMENT_SIZE);
    let ghost begun = calls + spec_init_calls(layout, context_space);
    proof {
        lemma_calls_extend(calls, committed_calls, env.calls());
        assert(begun.len() == calls.len() + 4);
        assert(begun =~= env.calls().subrange(0, begun.len() as int));
    }
    let segment_space = match aligned {
        Ok(segment_space) => segment_space,
        Err(ReserveError::Env(e)) => {
            return Err(AllocError::EnvFailure(e));
        },
        Err(ReserveError::OutOfRange) => {
            proof {
                assert(env.calls() =~= begun);
                assert(spec_init_refused_range(
                    config,
                    page_size,
                    context_space,
                    env.last_range(),
                    calls,
                    env.calls(),
                ));
            }
            return Err(AllocError::PreconditionViolated(Violation::UnusableRange));
        },
    };
    let mut header = new_header(&config, &layout, context_space, segment_space);
    let ghost fresh = header;
    let ghost aligned_calls = env.calls();
    let precommitted = precommit(&mut header, env, config.min_heap_size);
    proof {
        lemma_calls_extend(calls, aligned_calls, env.calls());
        lemma_calls_extend(begun, aligned_calls, env.calls());
        assert(fresh.segment_space.spec_max_segment_count() == layout.max_segment_count);
    }
    match precommitted {
        Ok(()) => Ok(Arena { context_space, header }),
        Err(e) => {
            proof {
                if e is OutOfHeap {
                    assert(spec_init_out_of_heap(
                        config,
                        page_size,
                        context_space,
                        calls,
                        env.calls(),
                    ));
                }
            }
            Err(e)
        },
    }
}

/// What an operation on the blocks of segment `seg_index` leaves alone:
/// every other segment, the lists, the budget and the large blocks.
pub open spec fn spec_same_but_blocks_of(before: Header, after: Header, seg_index: int) -> bool {
    &&& after.same_accounts(&before)
    &&& after.segment_space.same_extent(&before.segment_space)
    &&& forall|index: int|
        0 <= index < before.segment_space.segments@.len() && index != seg_index
            ==> after.segment_space.segments@[index] == before.segment_space.segments@[index]
    &&& after.keep_segments == before.keep_segments
    &&& after.subheaps@ == before.subheaps@
    &&& after.free_segments@ == before.free_segments@
    &&& after.free_segments_begin == before.free_segments_begin
    &&& after.segment_space.segments@[seg_index].owner@
        == before.segment_space.segments@[seg_index].owner@
    &&& after.segment_space.segments@[seg_index].spec_next()
        == before.segment_space.segments@[seg_index].spec_next()
    &&& after.segment_space.segments@[seg_index].spec_prev()
        == before.segment_space.segments@[seg_index].spec_prev()
    &&& after.segment_space.segments@[seg_index].spec_is_soft_decommitted()
        == before.segment_space.segments@[seg_index].spec_is_soft_decommitted()
}

/// The header stays well formed where the blocks of one segment change and
/// the segment still agrees with its owner.
pub proof fn lemma_same_but_blocks_of(before: Header, after: Header, seg_index: int)
    requires
        before.wf(),
        0 <= seg_index < before.segment_space.segments@.len(),
        spec_same_but_blocks_of(before, after, seg_index),
        after.segment_space.segments@[seg_index].wf(),
        after.segment_space.segments@[seg_index].spec_is_committed(),
        after.segment_space.segments@[seg_index].compact_header_ptr
            == before.segment_space.segments@[seg_index].compact_header_ptr,
        after.segment_space.segments@[seg_index].additional_header_ptr
            == before.segment_space.segments@[seg_index].additional_header_ptr,
        owner_agrees(after.segment_space.segments@[seg_index]),
    ensures
        after.wf(),
{
    after.lemma_other_lists(&before, Owner::Nobody);
    let owner = before.segment_space.segments@[seg_index].owner@;
    if owner == Owner::Nobody {
        assert(after.segment_space.same_links_at(&before.segment_space, seg_index));
    }
    assert forall|class: int| 0 <= class < CLASS_COUNT implies after.segment_space.is_chain(
        (#[trigger] after.subheaps@[class]).list@,
        after.subheaps@[class].free_segments_begin,
        after.subheaps@[class].free_segments_end,
        Owner::SubHeap(class),
    ) by {
        after.segment_space.lemma_chain_frame(
            &before.segment_space,
            before.subheaps@[class].list@,
            before.subheaps@[class].free_segments_begin,
            before.subheaps@[class].free_segments_end,
            Owner::SubHeap(class),
        );
    }
    after.segment_space.lemma_chain_frame(
        &before.segment_space,
        before.keep_segments.list@,
        before.keep_segments.begin,
        before.keep_segments.end,
        Owner::KeepList,
    );
    after.segment_space.lemma_chain_frame(
        &before.segment_space,
        before.free_segments@,
        before.free_segments_begin,
        0,
        Owner::FreeList,
    );
}

/// Lays a segment that nobody owns out for a class.
pub fn init_single_by_header(header: &mut Header, seg: AnyNonNullPtr, class_of_size: usize)
    requires
        old(header).wf(),
        class_of_size < CLASS_COUNT,
        old(header).segment_space.is_header_addr(seg.raw as int),
        old(header).segment_space.spec_segment(seg).owner@ == Owner::Nobody,
        old(header).segment_space.spec_segment(seg).spec_is_floated(),
    ensures
        final(header).wf(),
        spec_same_but_blocks_of(
            *old(header),
            *final(header),
            old(header).segment_space.spec_index_of_header(seg.raw as int),
        ),
        ({
            let after = final(header).segment_space.segments@[old(
                header).segment_space.spec_index_of_header(seg.raw as int)];
            &&& after.is_initialized()
            &&& after.class() == class_of_size
            &&& after.used_blocks() == Set::<int>::empty()
            &&& after.additional_header.used_block_count == 0
            &&& after.spec_is_floated()
        }),
{
    let seg_index = header.segment_space.segment_index(seg);
    proof {
        assert(owner_agrees(header.segment_space.segments@[seg_index as int]));
        assert(header.segment_space.segments@[seg_index as int].spec_is_committed());
    }
    header.segment_space.segments[seg_index].init_single(class_of_size);
    proof {
        lemma_same_but_blocks_of(*old(header), *header, seg_index as int);
    }
}

/// Hands block `index` of a segment out, and says whether the segment is
/// full now.  A segment that a subheap owns has to keep a free block.
pub fn mark_block_by_header(header: &mut Header, seg: AnyNonNullPtr, index: usize) -> (full: bool)
    requires
        old(header).wf(),
        old(header).segment_space.is_header_addr(seg.raw as int),
        ({
            let before = old(header).segment_space.spec_segment(seg);
            &&& before.is_initialized()
            &&& index < before.spec_block_count()
            &&& !before.block_used(index as int)
            &&& before.owner@ is Nobody || (before.owner@ is SubHeap
                && before.additional_header.used_block_count + 1 < before.spec_block_count())
        }),
    ensures
        final(header).wf(),
        spec_same_but_blocks_of(
            *old(header),
            *final(header),
            old(header).segment_space.spec_index_of_header(seg.raw as int),
        ),
        ({
            let before = old(header).segment_space.spec_segment(seg);
            let after = final(header).segment_space.segments@[old(
                header).segment_space.spec_index_of_header(seg.raw as int)];
            &&& after.is_initialized()
            &&& after.same_frame(&before)
            &&& after.used_blocks() == before.used_blocks().insert(index as int)
            &&& after.additional_header.used_block_count
                == before.additional_header.used_block_count + 1
            &&& full == (after.additional_header.used_block_count == after.spec_block_count())
        }),
{
    let seg_index = header.segment_space.segment_index(seg);
    proof {
        assert(owner_agrees(header.segment_space.segments@[seg_index as int]));
        assert(header.segment_space.segments@[seg_index as int].spec_is_committed());
    }
    let full = header.segment_space.segments[seg_index].mark_block_and_check_full(index);
    proof {
        lemma_same_but_blocks_of(*old(header), *header, seg_index as int);
    }
    full
}

/// Takes block `index` of a segment back, and says whether the segment is
/// empty now.
pub fn free_block_by_header(header: &mut Header, seg: AnyNonNullPtr, index: usize) -> (empty: bool)
    requires
        old(header).wf(),
        old(header).segment_space.is_header_addr(seg.raw as int),
        ({
            let before = old(header).segment_space.spec_segment(seg);
            &&& before.is_initialized()
            &&& index < before.spec_block_count()
            &&& before.block_used(index as int)
            &&& before.owner@ is Nobody || before.owner@ is SubHeap
        }),
    ensures
        final(header).wf(),
        spec_same_but_blocks_of(
            *old(header),
            *final(header),
            old(header).segment_space.spec_index_of_header(seg.raw as int),
        ),
        ({
            let before = old(header).segment_space.spec_segment(seg);
            let after = final(header).segment_space.segments@[old(
                header).segment_space.spec_index_of_header(seg.raw as int)];
            &&& after.is_initialized()
            &&& after.same_frame(&before)
            &&& after.used_blocks() == before.used_blocks().remove(index as int)
            &&& after.additional_header.used_block_count
                == before.additional_header.used_block_count - 1
            &&& empty == (after.additional_header.used_block_count == 0)
        }),
{
    let seg_index = header.segment_space.segment_index(seg);
    proof {
        assert(owner_agrees(header.segment_space.segments@[seg_index as int]));
        assert(header.segment_space.segments@[seg_index as int].spec_is_committed());
        header.segment_space.segments@[seg_index as int].lemma_used_blocks_bound();
    }
    let empty = header.segment_space.segments[seg_index].free_block_and_check_empty(index);
    proof {
        lemma_same_but_blocks_of(*old(header), *header, seg_index as int);
    }
    empty
}

/// Where one segment has one more block handed out and nothing else
/// changed, the blocks that are handed out are those of before and the new
/// one.
pub proof fn lemma_live_blocks_insert(before: Header, after: Header, seg_index: int, addr: int)
    requires
        after.free_size_blocks@ == before.free_size_blocks@,
        forall|other: int|
            other != seg_index ==> #[trigger] after.segment_space.used_block_addrs(other)
                == before.segment_space.used_block_addrs(other),
        after.segment_space.used_block_addrs(seg_index)
            == before.segment_space.used_block_addrs(seg_index).insert(addr),
    ensures
        after.live_blocks() == before.live_blocks().insert(addr),
{
    assert forall|other: int|
        after.is_live_block(other) == (other == addr || before.is_live_block(other)) by {
        if after.is_live_block(other) && other != addr {
            if exists|at: int| is_free_size_block_at(after, other, at) {
                let at = choose|at: int| is_free_size_block_at(after, other, at);
                assert(is_free_size_block_at(before, other, at));
            } else {
                let s = choose|s: int| #[trigger]
                    after.segment_space.used_block_addrs(s).contains(other);
                assert(before.segment_space.used_block_addrs(s).contains(other));
            }
        }
        if before.is_live_block(other) {
            if exists|at: int| is_free_size_block_at(before, other, at) {
                let at = choose|at: int| is_free_size_block_at(before, other, at);
                assert(is_free_size_block_at(after, other, at));
            } else {
                let s = choose|s: int| #[trigger]
                    before.segment_space.used_block_addrs(s).contains(other);
                assert(after.segment_space.used_block_addrs(s).contains(other));
            }
        }
        if other == addr {
            assert(after.segment_space.used_block_addrs(seg_index).contains(addr));
        }
    }
    assert(after.live_blocks() =~= before.live_blocks().insert(addr));
}

/// Where one segment has one block less handed out and nothing else
/// changed, the blocks that are handed out are those of before without that
/// one.
pub proof fn lemma_live_blocks_remove(before: Header, after: Header, seg_index: int, addr: int)
    requires
        before.wf(),
        before.segment_space.used_block_addrs(seg_index).contains(addr),
        after.free_size_blocks@ == before.free_size_blocks@,
        forall|other: int|
            other != seg_index ==> #[trigger] after.segment_space.used_block_addrs(other)
                == before.segment_space.used_block_addrs(other),
        after.segment_space.used_block_addrs(seg_index)
            == before.segment_space.used_block_addrs(seg_index).remove(addr),
    ensures
        after.live_blocks() == before.live_blocks().remove(addr),
{
    let index = choose|index: int| #[trigger]
        before.segment_space.is_used_block_addr(addr, seg_index, index);
    before.segment_space.lemma_block_addr(addr, seg_index, index);
    assert forall|other: int|
        after.is_live_block(other) == (other != addr && before.is_live_block(other)) by {
        if after.is_live_block(other) {
            if exists|at: int| is_free_size_block_at(after, other, at) {
                let at = choose|at: int| is_free_size_block_at(after, other, at);
                assert(is_free_size_block_at(before, other, at));
                assert(!before.segment_space.spec_ptr_in_space(
                    before.free_size_blocks@[at].spec_payload_addr(),
                ));
            } else {
                let s = choose|s: int| #[trigger]
                    after.segment_space.used_block_addrs(s).contains(other);
                assert(before.segment_space.used_block_addrs(s).contains(other));
                if other == addr {
                    let at = choose|at: int| #[trigger]
                        before.segment_space.is_used_block_addr(other, s, at);
                    before.segment_space.lemma_block_addr_unique(addr, seg_index, index, s, at);
                }
            }
        }
        if before.is_live_block(other) && other != addr {
            if exists|at: int| is_free_size_block_at(before, other, at) {
                let at = choose|at: int| is_free_size_block_at(before, other, at);
                assert(is_free_size_block_at(after, other, at));
            } else {
                let s = choose|s: int| #[trigger]
                    before.segment_space.used_block_addrs(s).contains(other);
                assert(after.segment_space.used_block_addrs(s).contains(other));
            }
        }
    }
    assert(after.live_blocks() =~= before.live_blocks().remove(addr));
}

/// Where the segments have the same blocks handed out and the large blocks
/// are the same, the same blocks are handed out.
pub proof fn lemma_live_blocks_kept(before: Header, after: Header)
    requires
        after.free_size_blocks@ == before.free_size_blocks@,
        forall|other: int| #[trigger]
            after.segment_space.used_block_addrs(other) == before.segment_space.used_block_addrs(
                other,
            ),
    ensures
        after.live_blocks() == before.live_blocks(),
{
    assert forall|other: int| after.is_live_block(other) == before.is_live_block(other) by {
        if after.is_live_block(other) {
            if exists|at: int| is_free_size_block_at(after, other, at) {
                let at = choose|at: int| is_free_size_block_at(after, other, at);
                assert(is_free_size_block_at(before, other, at));
            } else {
                let s = choose|s: int| #[trigger]
                    after.segment_space.used_block_addrs(s).contains(other);
                assert(before.segment_space.used_block_addrs(s).contains(other));
            }
        }
        if before.is_live_block(other) {
            if exists|at: int| is_free_size_block_at(before, other, at) {
                let at = choose|at: int| is_free_size_block_at(before, other, at);
                assert(is_free_size_block_at(after, other, at));
            } else {
                let s = choose|s: int| #[trigger]
                    before.segment_space.used_block_addrs(s).contains(other);
                assert(after.segment_space.used_block_addrs(s).contains(other));
            }
        }
    }
    assert(after.live_blocks() =~= before.live_blocks());
}

/// Every segment on the list of a class, and so the first one, has a free
/// block.
pub proof fn lemma_subheap_segment_has_free_block(header: Header, class: int, position: int)
    requires
        header.wf(),
        0 <= class < CLASS_COUNT,
        0 <= position < header.subheaps@[class].list@.len(),
    ensures
        header.segment_space.segments@[header.subheaps@[class].list@[position]].additional_header.used_block_count
            < spec_block_count_of_class(class),
{
    let list = header.subheaps@[class].list@;
    assert(header.segment_space.segments@[list[position]].owner@ == Owner::SubHeap(class));
    assert(owner_agrees(header.segment_space.segments@[list[position]]));
}

/// A segment on the list of a class is of that class, and is neither on the
/// keep-list nor on the free-segment list nor on the list of another class.
pub proof fn lemma_subheap_segment_is_of_class(header: Header, class: int, position: int)
    requires
        header.wf(),
        0 <= class < CLASS_COUNT,
        0 <= position < header.subheaps@[class].list@.len(),
    ensures
        header.segment_space.segments@[header.subheaps@[class].list@[position]].class() == class,
        !header.keep_segments.list@.contains(header.subheaps@[class].list@[position]),
        !header.free_segments@.contains(header.subheaps@[class].list@[position]),
        forall|other: int|
            0 <= other < CLASS_COUNT && other != class ==> !(
            #[trigger] header.subheaps@[other]).list@.contains(
                header.subheaps@[class].list@[position],
            ),
{
    let list = header.subheaps@[class].list@;
    let seg_index = list[position];
    assert(header.segment_space.segments@[list[position]].owner@ == Owner::SubHeap(class));
    assert(owner_agrees(header.segment_space.segments@[seg_index]));
    if header.keep_segments.list@.contains(seg_index) {
        let keep = header.keep_segments.list@;
        let at = choose|at: int| 0 <= at < keep.len() && keep[at] == seg_index;
        assert(header.segment_space.segments@[keep[at]].owner@ == Owner::KeepList);
    }
    if header.free_segments@.contains(seg_index) {
        let free = header.free_segments@;
        let at = choose|at: int| 0 <= at < free.len() && free[at] == seg_index;
        assert(header.segment_space.segments@[free[at]].owner@ == Owner::FreeList);
    }
    assert forall|other: int| 0 <= other < CLASS_COUNT && other != class implies !(
    #[trigger] header.subheaps@[other]).list@.contains(seg_index) by {
        let others = header.subheaps@[other].list@;
        if others.contains(seg_index) {
            let at = choose|at: int| 0 <= at < others.len() && others[at] == seg_index;
            assert(header.segment_space.segments@[others[at]].owner@ == Owner::SubHeap(other));
        }
    }
}

/// The budget is what the most bytes allowed leave when the committed
/// context space, the committed pages of the table of compact headers, the
/// committed bodies of segments and the mappings of the large blocks are
/// taken from them.
pub proof fn lemma_budget(header: Header)
    requires
        header.wf(),
    ensures
        header.segment_space.available_size == header.max_heap_size - (
        header.spec_committed_context_bytes() + header.spec_committed_header_table_bytes()
            + header.spec_committed_segment_bodies_bytes()
            + header.spec_outstanding_large_block_bytes()),
{
}

/// Two states of an arena in which the same is committed and the mappings
/// of the large blocks take as much have the same budget.
pub proof fn lemma_budget_of_same_commitment(first: Header, second: Header)
    requires
        first.wf(),
        second.wf(),
        first.max_heap_size == second.max_heap_size,
        first.committed_context_space_size == second.committed_context_space_size,
        first.first_compact_header_count == second.first_compact_header_count,
        first.segment_space.next_alloc_segment_compact_header_index
            == second.segment_space.next_alloc_segment_compact_header_index,
        first.segment_space.next_alloc_segment_index
            == second.segment_space.next_alloc_segment_index,
        first.spec_outstanding_large_block_bytes() == second.spec_outstanding_large_block_bytes(),
    ensures
        first.segment_space.available_size == second.segment_space.available_size,
{
}

/// The keep-list holds as many segments as its configured count allows and
/// it does not take any more.
pub proof fn lemma_keep_list_count(header: Header)
    requires
        header.wf(),
    ensures
        header.keep_segments.list@.len() + header.keep_segments.should_keep_count
            == header.keep_segments.keep_segments_count,
        forall|lower: int, upper: int|
            0 <= lower < upper < header.keep_segments.list@.len()
                ==> #[trigger] header.keep_segments.list@[lower]
                < #[trigger] header.keep_segments.list@[upper],
{
}

/// A block that is handed out is aligned.  It lies outside of the range of
/// the segments, or else is a block of exactly one segment: it begins a whole number of
/// blocks behind the first block of the segment and ends within the segment.
pub proof fn lemma_live_block_position(header: Header, addr: int)
    requires
        header.wf(),
        header.is_live_block(addr),
    ensures
        addr % (ALIGNMENT_SIZE as int) == 0,
        !header.segment_space.spec_ptr_in_space(addr) || exists|seg_index: int, index: int|
            {
                &&& #[trigger] header.segment_space.is_used_block_addr(addr, seg_index, index)
                &&& header.segment_space.spec_segment_addr(seg_index) + spec_block_space_offset(
                    header.segment_space.segments@[seg_index].class(),
                ) <= addr
                &&& addr + header.segment_space.segments@[seg_index].spec_block_size()
                    <= header.segment_space.spec_segment_addr(seg_index) + SEGMENT_SIZE
                &&& forall|other_seg_index: int, other_index: int| #[trigger]
                    header.segment_space.is_block_addr(addr, other_seg_index, other_index)
                        ==> other_seg_index == seg_index && other_index == index
            },
{
    header.lemma_live_block_regime(addr);
    if !header.segment_space.spec_ptr_in_space(addr) {
        let at = choose|at: int| is_free_size_block_at(header, addr, at);
        assert(header.free_size_blocks@[at].block_ptr.raw % ALIGNMENT_SIZE == 0);
    }
    if header.segment_space.spec_ptr_in_space(addr) {
        let seg_index = choose|seg_index: int| #[trigger]
            header.segment_space.used_block_addrs(seg_index).contains(addr);
        let index = choose|index: int| #[trigger]
            header.segment_space.is_used_block_addr(addr, seg_index, index);
        header.segment_space.lemma_block_addr(addr, seg_index, index);
        assert forall|other_seg_index: int, other_index: int| #[trigger]
            header.segment_space.is_block_addr(
                addr,
                other_seg_index,
                other_index,
            ) implies other_seg_index == seg_index && other_index == index by {
            header.segment_space.lemma_block_addr_unique(
                addr,
                seg_index,
                index,
                other_seg_index,
                other_index,
            );
        }
    }
}

} // verus!
