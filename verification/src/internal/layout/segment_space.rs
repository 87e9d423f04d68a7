use crate::internal::layout::constants::ALIGNMENT_SIZE;
use crate::internal::layout::segment::{
    block_count_of_class, lemma_layout_of_class, spec_block_space_offset, sub_bitmap_size_of_class,
    Owner, Segment, ADDITIONAL_HEADER_SIZE, COMPACT_HEADER_SIZE, SEGMENT_SIZE,
    SUB_BITMAP_UNIT_SIZE,
};
use crate::internal::layout::subheap::{size_of_class, spec_units_of_class};
use crate::sys::ptr::AnyNonNullPtr;
use crate::sys::{spec_failure, spec_refusal, EnvError, SysCall, SysMemEnv, TracedEnv};
use vstd::prelude::*;

verus! {

/// The most compact headers that one page can hold.
pub const MAX_HEADERS_PER_PAGE: usize = 4096;

/// The reserved range that segments are taken from, the table of their
/// compact headers, and the segments that were committed so far.
pub struct SegmentSpace {
    // immutable
    pub page_size: usize,
    pub segment_compact_header_space: AnyNonNullPtr,
    pub segment_space_begin: AnyNonNullPtr,
    pub segment_space_end: AnyNonNullPtr,
    // mutable
    pub available_size: usize,
    pub next_alloc_segment_compact_header_index: usize,
    pub next_alloc_segment_index: usize,
    /// What the two headers of each committed segment hold, by the index of
    /// the segment.
    pub segments: Vec<Segment>,
}

/// What `alloc_new_segment` has to commit, and so takes from the budget.
pub open spec fn spec_new_segment_cost(space: SegmentSpace) -> int {
    if space.next_alloc_segment_compact_header_index == space.next_alloc_segment_index {
        space.page_size + SEGMENT_SIZE
    } else {
        SEGMENT_SIZE as int
    }
}

/// The request that commits one more page of compact headers.
pub open spec fn spec_header_commit(space: SegmentSpace) -> SysCall {
    SysCall::Commit {
        addr: AnyNonNullPtr {
            raw: space.spec_header_addr(
                space.next_alloc_segment_compact_header_index as int,
            ) as usize,
        },
        len: space.page_size,
    }
}

/// The request that commits the body of the next segment.
pub open spec fn spec_body_commit(space: SegmentSpace) -> SysCall {
    SysCall::Commit {
        addr: AnyNonNullPtr {
            raw: space.spec_segment_addr(space.next_alloc_segment_index as int) as usize,
        },
        len: SEGMENT_SIZE,
    }
}

/// The requests that `alloc_new_segment` makes where none of them fails.
pub open spec fn spec_new_segment_calls(space: SegmentSpace) -> Seq<SysCall> {
    if space.next_alloc_segment_compact_header_index == space.next_alloc_segment_index {
        seq![spec_header_commit(space), spec_body_commit(space)]
    } else {
        seq![spec_body_commit(space)]
    }
}

/// Whether `alloc_new_segment` can take one more segment: the reserved range
/// has room for it, and the budget covers what has to be committed.
pub open spec fn spec_can_alloc_new_segment(space: SegmentSpace) -> bool {
    &&& space.next_alloc_segment_index < space.spec_max_segment_count()
    &&& space.available_size >= spec_new_segment_cost(space)
}

/// The arithmetic of the two parallel tables: the address of the compact
/// header and of the body of segment `index`.
proof fn lemma_header_arithmetic(base: int, begin: int, end: int, index: int)
    requires
        0 < base,
        base % 16 == 0,
        0 < begin <= end,
        begin % 0x10000 == 0,
        (end - begin) % 0x10000 == 0,
        0 <= index < (end - begin) / 0x10000,
    ensures
        (base + 16 * index - base) / 16 == index,
        0 < base + 16 * index,
        (base + 16 * index) % 4 == 0,
        begin + 0x10000 * index + 0x10000 <= end,
        0 < begin + 0x10000 * index,
{
    let extent = end - begin;
    vstd::arithmetic::div_mod::lemma_fundamental_div_mod(extent, 0x10000);
}

impl SegmentSpace {
    /// The number of segments that the reserved range has room for.
    pub open spec fn spec_max_segment_count(&self) -> int {
        (self.segment_space_end.raw - self.segment_space_begin.raw) / (SEGMENT_SIZE as int)
    }

    /// The address of the compact header of segment `index`.
    pub open spec fn spec_header_addr(&self, index: int) -> int {
        self.segment_compact_header_space.raw + COMPACT_HEADER_SIZE * index
    }

    /// The address of the body of segment `index`.
    pub open spec fn spec_segment_addr(&self, index: int) -> int {
        self.segment_space_begin.raw + SEGMENT_SIZE * index
    }

    /// The index of the segment whose compact header stands at `addr`.
    pub open spec fn spec_index_of_header(&self, addr: int) -> int {
        (addr - self.segment_compact_header_space.raw) / (COMPACT_HEADER_SIZE as int)
    }

    /// The segment whose compact header stands at `seg_ptr`.
    pub open spec fn spec_segment(&self, seg_ptr: AnyNonNullPtr) -> Segment {
        self.segments@[self.spec_index_of_header(seg_ptr.raw as int)]
    }

    /// Whether `addr` is the address of the compact header of a committed
    /// segment.
    pub open spec fn is_header_addr(&self, addr: int) -> bool {
        exists|index: int|
            0 <= index < self.segments@.len() && addr == #[trigger] self.spec_header_addr(index)
    }

    pub open spec fn spec_ptr_in_space(&self, addr: int) -> bool {
        self.segment_space_begin.raw <= addr < self.segment_space_end.raw
    }

    /// What stays as `new` was given it.
    pub open spec fn same_layout(&self, other: &SegmentSpace) -> bool {
        &&& self.page_size == other.page_size
        &&& self.segment_compact_header_space == other.segment_compact_header_space
        &&& self.segment_space_begin == other.segment_space_begin
        &&& self.segment_space_end == other.segment_space_end
    }

    /// What an operation on the links and the blocks of segments leaves alone.
    pub open spec fn same_extent(&self, other: &SegmentSpace) -> bool {
        &&& self.same_layout(other)
        &&& self.available_size == other.available_size
        &&& self.next_alloc_segment_compact_header_index
            == other.next_alloc_segment_compact_header_index
        &&& self.next_alloc_segment_index == other.next_alloc_segment_index
        &&& self.segments@.len() == other.segments@.len()
    }

    /// The ranges are aligned and in order, the table of compact headers has
    /// room for the headers of all segments, and the committed segments stand
    /// where their index puts them.
    pub open spec fn wf(&self) -> bool {
        &&& 0 < self.page_size <= SEGMENT_SIZE
        &&& SEGMENT_SIZE % self.page_size == 0
        &&& self.page_size % COMPACT_HEADER_SIZE == 0
        &&& self.segment_compact_header_space.raw != 0
        &&& self.segment_compact_header_space.raw % COMPACT_HEADER_SIZE == 0
        &&& self.segment_space_begin.raw != 0
        &&& self.segment_space_begin.raw % SEGMENT_SIZE == 0
        &&& self.segment_space_begin.raw <= self.segment_space_end.raw
        &&& (self.segment_space_end.raw - self.segment_space_begin.raw) % (SEGMENT_SIZE as int)
            == 0
        &&& self.segment_compact_header_space.raw + COMPACT_HEADER_SIZE * (
        self.spec_max_segment_count() + MAX_HEADERS_PER_PAGE) <= usize::MAX
        &&& self.segments@.len() == self.next_alloc_segment_index
        &&& self.next_alloc_segment_index <= self.spec_max_segment_count()
        &&& self.next_alloc_segment_index <= self.next_alloc_segment_compact_header_index
            <= self.spec_max_segment_count() + MAX_HEADERS_PER_PAGE
        &&& forall|index: int|
            0 <= index < self.segments@.len() ==> {
                &&& (#[trigger] self.segments@[index]).compact_header_ptr.raw
                    == self.spec_header_addr(index)
                &&& self.segments@[index].additional_header_ptr.raw == self.spec_segment_addr(
                    index,
                )
                &&& self.segments@[index].wf()
                &&& self.segments@[index].spec_is_committed()
            }
    }

    /// The compact headers stand apart: an address is that of one segment at
    /// most, is a multiple of the header size and is not null.
    pub proof fn lemma_header_addr(&self, index: int)
        requires
            self.wf(),
            0 <= index < self.segments@.len(),
        ensures
            self.is_header_addr(self.spec_header_addr(index)),
            self.spec_index_of_header(self.spec_header_addr(index)) == index,
            0 < self.spec_header_addr(index) <= usize::MAX,
            self.spec_header_addr(index) % 4 == 0,
            self.spec_segment_addr(index) + SEGMENT_SIZE <= self.segment_space_end.raw,
            0 < self.spec_segment_addr(index),
    {
        lemma_header_arithmetic(
            self.segment_compact_header_space.raw as int,
            self.segment_space_begin.raw as int,
            self.segment_space_end.raw as int,
            index,
        );
        assert(self.spec_header_addr(index) == self.spec_header_addr(index));
    }

    /// The address of the compact header of entry `position` of `list`, or
    /// zero where the list has no such entry.
    pub open spec fn link_to(&self, list: Seq<int>, position: int) -> int {
        if 0 <= position < list.len() {
            self.spec_header_addr(list[position])
        } else {
            0
        }
    }

    /// `list` holds, in the order of their links, the indices of the
    /// segments that `owner` owns: a doubly linked list from `begin` to `end`.
    pub open spec fn is_chain(
        &self,
        list: Seq<int>,
        begin: usize,
        end: usize,
        owner: Owner,
    ) -> bool {
        &&& self.is_stack(list, begin, owner)
        &&& end == self.link_to(list, list.len() - 1)
        &&& forall|position: int|
            0 <= position < list.len() ==> (#[trigger] self.segments@[list[position]]).spec_prev()
                == self.link_to(list, position - 1)
    }

    /// `list` holds, in the order of their links, the indices of the
    /// segments that `owner` owns: a singly linked list from `begin`.
    pub open spec fn is_stack(&self, list: Seq<int>, begin: usize, owner: Owner) -> bool {
        &&& forall|position: int|
            0 <= position < list.len() ==> 0 <= #[trigger] list[position] < self.segments@.len()
        &&& forall|position: int|
            0 <= position < list.len() ==> (#[trigger] self.segments@[list[position]]).owner@
                == owner
        &&& forall|index: int|
            0 <= index < self.segments@.len() && (#[trigger] self.segments@[index]).owner@ == owner
                ==> list.contains(index)
        &&& list.no_duplicates()
        &&& begin == self.link_to(list, 0)
        &&& forall|position: int|
            0 <= position < list.len() ==> (#[trigger] self.segments@[list[position]]).spec_next()
                == self.link_to(list, position + 1)
    }

    /// What an operation on one list leaves alone in a segment of another.
    pub open spec fn same_links_at(&self, other: &SegmentSpace, index: int) -> bool {
        &&& index < other.segments@.len()
        &&& self.segments@[index].spec_next() == other.segments@[index].spec_next()
        &&& self.segments@[index].spec_prev() == other.segments@[index].spec_prev()
        &&& self.segments@[index].owner@ == other.segments@[index].owner@
    }

    /// A list stays what it is while its segments keep their links and no
    /// other segment comes to its owner, also where more segments are
    /// committed.
    pub proof fn lemma_chain_frame(
        &self,
        other: &SegmentSpace,
        list: Seq<int>,
        begin: usize,
        end: usize,
        owner: Owner,
    )
        requires
            other.is_stack(list, begin, owner),
            self.same_layout(other),
            other.segments@.len() <= self.segments@.len(),
            forall|index: int|
                0 <= index < self.segments@.len() && ((index < other.segments@.len()
                    && other.segments@[index].owner@ == owner) || self.segments@[index].owner@
                    == owner) ==> #[trigger] self.same_links_at(other, index),
        ensures
            self.is_stack(list, begin, owner),
            other.is_chain(list, begin, end, owner) ==> self.is_chain(list, begin, end, owner),
    {
        assert forall|position: int| 0 <= position < list.len() implies (
        #[trigger] self.segments@[list[position]]).owner@ == owner
            && self.segments@[list[position]].spec_next()
            == self.link_to(list, position + 1) by {
            assert(other.segments@[list[position]].owner@ == owner);
            assert(self.same_links_at(other, list[position]));
        }
        assert forall|index: int|
            0 <= index < self.segments@.len() && (#[trigger] self.segments@[index]).owner@
                == owner implies list.contains(index) by {
            assert(self.same_links_at(other, index));
        }
        if other.is_chain(list, begin, end, owner) {
            assert forall|position: int| 0 <= position < list.len() implies (
            #[trigger] self.segments@[list[position]]).spec_prev() == self.link_to(
                list,
                position - 1,
            ) by {
                assert(other.segments@[list[position]].owner@ == owner);
                assert(self.same_links_at(other, list[position]));
            }
        }
    }

    /// Where a segment stands in the list of its owner.
    pub proof fn lemma_chain_position(
        &self,
        list: Seq<int>,
        begin: usize,
        owner: Owner,
        index: int,
    ) -> (position: int)
        requires
            self.wf(),
            self.is_stack(list, begin, owner),
            0 <= index < self.segments@.len(),
            self.segments@[index].owner@ == owner,
        ensures
            0 <= position < list.len(),
            list[position] == index,
            self.link_to(list, position) == self.spec_header_addr(index),
    {
        assert(list.contains(index));
        choose|position: int| 0 <= position < list.len() && list[position] == index
    }

    /// A link of a list is null exactly where the list ends, and else the
    /// address of the compact header of a committed segment.
    pub proof fn lemma_link_to(&self, list: Seq<int>, begin: usize, owner: Owner, position: int)
        requires
            self.wf(),
            self.is_stack(list, begin, owner),
        ensures
            0 <= self.link_to(list, position) <= usize::MAX,
            self.link_to(list, position) % 4 == 0,
            self.link_to(list, position) != 0 <==> 0 <= position < list.len(),
            0 <= position < list.len() ==> {
                &&& self.is_header_addr(self.link_to(list, position))
                &&& self.spec_index_of_header(self.link_to(list, position)) == list[position]
            },
    {
        if 0 <= position < list.len() {
            self.lemma_header_addr(list[position]);
        }
    }

    /// The space as it is laid out, with no segment committed yet.
    pub fn new(
        page_size: usize,
        segment_compact_header_space: AnyNonNullPtr,
        segment_space_begin: AnyNonNullPtr,
        segment_space_end: AnyNonNullPtr,
        available_size: usize,
        next_alloc_segment_compact_header_index: usize,
        next_alloc_segment_index: usize,
    ) -> (space: Self)
        ensures
            space.page_size == page_size,
            space.segment_compact_header_space == segment_compact_header_space,
            space.segment_space_begin == segment_space_begin,
            space.segment_space_end == segment_space_end,
            space.available_size == available_size,
            space.next_alloc_segment_compact_header_index
                == next_alloc_segment_compact_header_index,
            space.next_alloc_segment_index == next_alloc_segment_index,
            space.segments@.len() == 0,
    {
        Self {
            page_size,
            segment_compact_header_space,
            segment_space_begin,
            segment_space_end,
            available_size,
            next_alloc_segment_compact_header_index,
            next_alloc_segment_index,
            segments: Vec::new(),
        }
    }

    /// Whether `ptr` lies in the range that segments are taken from.
    pub fn ptr_in_space(&self, ptr: AnyNonNullPtr) -> (inside: bool)
        ensures
            inside == self.spec_ptr_in_space(ptr.raw as int),
    {
        self.segment_space_begin.as_addr() <= ptr.as_addr() && ptr.as_addr()
            < self.segment_space_end.as_addr()
    }

    /// The index of the segment whose compact header stands at `seg_ptr`.
    pub fn segment_index(&self, seg_ptr: AnyNonNullPtr) -> (index: usize)
        requires
            self.wf(),
            self.is_header_addr(seg_ptr.raw as int),
        ensures
            index == self.spec_index_of_header(seg_ptr.raw as int),
            index < self.segments@.len(),
            seg_ptr.raw == self.spec_header_addr(index as int),
    {
        proof {
            let witness = choose|index: int|
                0 <= index < self.segments@.len() && seg_ptr.raw
                    == #[trigger] self.spec_header_addr(
                    index,
                );
            self.lemma_header_addr(witness);
        }
        (seg_ptr.as_addr() - self.segment_compact_header_space.as_addr()) / COMPACT_HEADER_SIZE
    }

    /// The segment whose compact header stands at `seg_ptr`.
    pub fn segment(&self, seg_ptr: AnyNonNullPtr) -> (seg: &Segment)
        requires
            self.wf(),
            self.is_header_addr(seg_ptr.raw as int),
        ensures
            *seg == self.spec_segment(seg_ptr),
            seg.compact_header_ptr == seg_ptr,
    {
        let seg_index = self.segment_index(seg_ptr);
        &self.segments[seg_index]
    }

    /// The number of segments that the reserved range has room for.
    pub fn max_segment_count(&self) -> (count: usize)
        requires
            self.wf(),
        ensures
            count == self.spec_max_segment_count(),
    {
        (self.segment_space_end.as_addr() - self.segment_space_begin.as_addr()) / SEGMENT_SIZE
    }

    /// Commits one more page of the table of compact headers, where the
    /// budget covers it.
    fn alloc_new_segment_compact_headers<Env: SysMemEnv>(
        &mut self,
        env: &mut TracedEnv<Env>,
    ) -> (r: Result<bool, EnvError>)
        requires
            old(self).wf(),
            old(self).next_alloc_segment_compact_header_index <= old(self).spec_max_segment_count(),
        ensures
            spec_refusal(*old(env), *final(env), spec_failure(r)),
            final(self).wf(),
            final(self).same_layout(old(self)),
            final(self).segments@ == old(self).segments@,
            final(self).next_alloc_segment_index == old(self).next_alloc_segment_index,
            final(env).last_pagesize() == old(env).last_pagesize(),
            final(env).last_failed() == (if r == Ok::<bool, EnvError>(false) {
                old(env).last_failed()
            } else {
                spec_failure(r)
            }),
            match r {
                Ok(true) => {
                    &&& old(self).available_size >= old(self).page_size
                    &&& final(self).available_size == old(self).available_size - old(self).page_size
                    &&& final(self).next_alloc_segment_compact_header_index
                        == old(self).next_alloc_segment_compact_header_index + old(self).page_size
                        / COMPACT_HEADER_SIZE
                    &&& final(env).calls() == old(env).calls().push(spec_header_commit(*old(self)))
                },
                Ok(false) => {
                    &&& old(self).available_size < old(self).page_size
                    &&& final(self).available_size == old(self).available_size
                    &&& final(self).next_alloc_segment_compact_header_index
                        == old(self).next_alloc_segment_compact_header_index
                    &&& final(env).calls() == old(env).calls()
                },
                Err(_) => {
                    &&& old(self).available_size >= old(self).page_size
                    &&& final(self).available_size == old(self).available_size
                    &&& final(self).next_alloc_segment_compact_header_index
                        == old(self).next_alloc_segment_compact_header_index
                    &&& final(env).calls() == old(env).calls().push(spec_header_commit(*old(self)))
                },
            },
    {
        if self.available_size < self.page_size {
            return Ok(false);
        }
        let new_segment_compact_header_space_begin = self.segment_compact_header_space.add(
            self.next_alloc_segment_compact_header_index * COMPACT_HEADER_SIZE,
        );
        let new_segment_compact_headers_count = self.page_size / COMPACT_HEADER_SIZE;
        match env.commit(new_segment_compact_header_space_begin, self.page_size) {
            Ok(()) => {},
            Err(e) => {
                return Err(e);
            },
        }
        self.available_size -= self.page_size;

        self.next_alloc_segment_compact_header_index += new_segment_compact_headers_count;

        Ok(true)
    }

    /// Commits the body of one more segment, and before it one more page of
    /// compact headers where the table is used up.  Answers with the address
    /// of the compact header of the new segment, or with none where the
    /// reserved range or the budget is used up.
    pub fn alloc_new_segment<Env: SysMemEnv>(&mut self, env: &mut TracedEnv<Env>) -> (r: Result<
        Option<AnyNonNullPtr>,
        EnvError,
    >)
        requires
            old(self).wf(),
        ensures
            spec_refusal(*old(env), *final(env), spec_failure(r)),
            final(self).wf(),
            final(self).same_layout(old(self)),
            forall|index: int|
                0 <= index < old(self).segments@.len() ==> final(self).segments@[index]
                    == old(self).segments@[index],
            final(env).last_pagesize() == old(env).last_pagesize(),
            old(self).next_alloc_segment_compact_header_index <= final(
                self
            ).next_alloc_segment_compact_header_index,
            final(self).available_size + (final(self).next_alloc_segment_compact_header_index
                - old(self).next_alloc_segment_compact_header_index) * COMPACT_HEADER_SIZE + (
            final(self).next_alloc_segment_index - old(self).next_alloc_segment_index)
                * SEGMENT_SIZE == old(self).available_size,
            match r {
                Ok(None) => {
                    &&& !spec_can_alloc_new_segment(*old(self))
                    &&& final(self).same_extent(old(self))
                    &&& final(env).calls() == old(env).calls()
                    &&& final(env).last_failed() == old(env).last_failed()
                },
                Ok(Some(seg_ptr)) => {
                    &&& spec_can_alloc_new_segment(*old(self))
                    &&& final(env).last_failed() is None
                    &&& final(self).available_size == old(self).available_size
                        - spec_new_segment_cost(*old(self))
                    &&& final(self).next_alloc_segment_compact_header_index
                        == old(self).next_alloc_segment_compact_header_index
                            + (if old(self).next_alloc_segment_compact_header_index
                                == old(self).next_alloc_segment_index {
                        old(self).page_size / COMPACT_HEADER_SIZE
                    } else {
                        0
                    })
                    &&& final(self).segments@.len() == old(self).segments@.len() + 1
                    &&& seg_ptr.raw == old(self).spec_header_addr(old(self).segments@.len() as int)
                    &&& final(self).is_header_addr(seg_ptr.raw as int)
                    &&& final(self).segments@[old(self).segments@.len() as int].is_blank()
                    &&& final(self).segments@[old(self).segments@.len() as int].spec_is_floated()
                    &&& !final(self).segments@[old(self).segments@.len(
                        ) as int].spec_is_soft_decommitted()
                    &&& final(self).segments@[old(self).segments@.len() as int].owner@
                        == Owner::Nobody
                    &&& final(env).calls() == old(env).calls() + spec_new_segment_calls(
                        *old(self),
                    )
                },
                Err(e) => {
                    &&& spec_can_alloc_new_segment(*old(self))
                    &&& final(env).last_failed() == Some(e)
                    &&& final(self).segments@.len() == old(self).segments@.len()
                    &&& if final(env).calls().len() == old(env).calls().len() + 2 {
                        &&& final(self).available_size == old(self).available_size
                            - old(self).page_size
                        &&& final(self).next_alloc_segment_compact_header_index
                            == old(self).next_alloc_segment_compact_header_index
                                + old(self).page_size
                            / COMPACT_HEADER_SIZE
                    } else {
                        &&& final(self).available_size == old(self).available_size
                        &&& final(self).next_alloc_segment_compact_header_index
                            == old(self).next_alloc_segment_compact_header_index
                    }
                    &&& old(env).calls().is_prefix_of(final(env).calls())
                    &&& final(env).calls().is_prefix_of(
                        old(env).calls() + spec_new_segment_calls(*old(self)),
                    )
                    &&& final(env).calls().len() > old(env).calls().len()
                },
            },
    {
        let ghost calls = env.calls();
        if self.next_alloc_segment_index >= self.max_segment_count() {
            return Ok(None);
        }
        let needs_headers = self.next_alloc_segment_compact_header_index
            == self.next_alloc_segment_index;
        let cost = if needs_headers {
            self.page_size + SEGMENT_SIZE
        } else {
            SEGMENT_SIZE
        };
        if self.available_size < cost {
            return Ok(None);
        }
        if needs_headers {
            match self.alloc_new_segment_compact_headers(env) {
                Ok(_) => {},
                Err(e) => {
                    proof {
                        assert(env.calls() =~= (calls + spec_new_segment_calls(*old(self))).take(
                            calls.len() as int + 1,
                        ));
                    }
                    return Err(e);
                },
            }
            proof {
                let page = self.page_size as int;
                assert(page / 16 * 16 == page) by {
                    vstd::arithmetic::div_mod::lemma_fundamental_div_mod(page, 16);
                }
            }
        }
        let ghost committed = *self;
        let ghost mid_calls = env.calls();

        let next_alloc_segment_index = self.next_alloc_segment_index;
        proof {
            let extent = self.segment_space_end.raw - self.segment_space_begin.raw;
            assert(extent == SEGMENT_SIZE * self.spec_max_segment_count()) by {
                vstd::arithmetic::div_mod::lemma_fundamental_div_mod(extent, SEGMENT_SIZE as int);
            }
        }
        let new_segment_compact_header_space_begin = self.segment_compact_header_space.add(
            next_alloc_segment_index * COMPACT_HEADER_SIZE,
        );
        let new_segment_space_begin = self.segment_space_begin.add(
            next_alloc_segment_index * SEGMENT_SIZE,
        );
        match env.commit(new_segment_space_begin, SEGMENT_SIZE) {
            Ok(()) => {},
            Err(e) => {
                proof {
                    assert(env.calls() =~= calls + spec_new_segment_calls(*old(self)));
                }
                return Err(e);
            },
        }
        self.available_size -= SEGMENT_SIZE;

        self.next_alloc_segment_index += 1;

        let mut seg = Segment::new(new_segment_compact_header_space_begin, new_segment_space_begin);
        seg.set_committed();
        self.segments.push(seg);
        proof {
            assert(env.calls() =~= calls + spec_new_segment_calls(*old(self)));
            assert(self.spec_header_addr(next_alloc_segment_index as int)
                == new_segment_compact_header_space_begin.raw);
        }
        Ok(Some(new_segment_compact_header_space_begin))
    }

    /// What linking and unlinking leave alone in every segment: the blocks
    /// and the flags.
    pub open spec fn same_segments_but_links(&self, other: &SegmentSpace) -> bool {
        &&& self.same_extent(other)
        &&& forall|index: int|
            0 <= index < self.segments@.len() ==> {
                &&& (#[trigger] self.segments@[index]).same_blocks(&other.segments@[index])
                &&& self.segments@[index].spec_is_committed()
                    == other.segments@[index].spec_is_committed()
                &&& self.segments@[index].spec_is_soft_decommitted()
                    == other.segments@[index].spec_is_soft_decommitted()
            }
    }

    /// Linking and unlinking keep the space well formed.
    pub proof fn lemma_same_segments_but_links(&self, other: &SegmentSpace)
        requires
            other.wf(),
            self.same_segments_but_links(other),
        ensures
            self.wf(),
    {
        assert forall|index: int| 0 <= index < self.segments@.len() implies (
        #[trigger] self.segments@[index]).wf() by {
            self.segments@[index].lemma_same_blocks(&other.segments@[index]);
        }
    }

    /// What `chain_insert` does to the links makes the list one longer.
    proof fn lemma_chain_insert(
        &self,
        other: &SegmentSpace,
        list: Seq<int>,
        begin: usize,
        end: usize,
        owner: Owner,
        position: int,
        seg_index: int,
    )
        requires
            other.wf(),
            other.is_chain(list, begin, end, owner),
            owner != Owner::Nobody,
            self.same_extent(other),
            0 <= seg_index < other.segments@.len(),
            other.segments@[seg_index].owner@ == Owner::Nobody,
            0 <= position <= list.len(),
            forall|index: int|
                0 <= index < self.segments@.len() && index != seg_index && (position > 0
                    ==> index != list[position - 1]) && (position < list.len() ==> index
                    != list[position]) ==> #[trigger] self.same_links_at(other, index),
            self.segments@[seg_index].owner@ == owner,
            self.segments@[seg_index].spec_next() == other.link_to(list, position),
            self.segments@[seg_index].spec_prev() == other.link_to(list, position - 1),
            position > 0 ==> {
                &&& self.segments@[list[position - 1]].owner@ == owner
                &&& self.segments@[list[position - 1]].spec_next() == other.spec_header_addr(
                    seg_index,
                )
                &&& self.segments@[list[position - 1]].spec_prev() == other.segments@[list[position
                    - 1]].spec_prev()
            },
            position < list.len() ==> {
                &&& self.segments@[list[position]].owner@ == owner
                &&& self.segments@[list[position]].spec_prev() == other.spec_header_addr(seg_index)
                &&& self.segments@[list[position]].spec_next()
                    == other.segments@[list[position]].spec_next()
            },
        ensures
            self.is_chain(
                list.insert(position, seg_index),
                if position == 0 {
                    other.spec_header_addr(seg_index) as usize
                } else {
                    begin
                },
                if position == list.len() {
                    other.spec_header_addr(seg_index) as usize
                } else {
                    end
                },
                owner,
            ),
    {
        let grown = list.insert(position, seg_index);
        other.lemma_header_addr(seg_index);
        if list.contains(seg_index) {
            let at = choose|at: int| 0 <= at < list.len() && list[at] == seg_index;
            assert(other.segments@[list[at]].owner@ == owner);
        }
        assert forall|at: int| 0 <= at < grown.len() implies grown[at] == (if at < position {
            list[at]
        } else if at == position {
            seg_index
        } else {
            list[at - 1]
        }) by {}
        assert(grown.no_duplicates());
        assert forall|index: int|
            0 <= index < self.segments@.len() && (#[trigger] self.segments@[index]).owner@
                == owner implies grown.contains(index) by {
            if index == seg_index {
                assert(grown[position] == index);
            } else {
                if position > 0 && index == list[position - 1] {
                    assert(grown[position - 1] == index);
                } else if position < list.len() && index == list[position] {
                    assert(grown[position + 1] == index);
                } else {
                    assert(self.same_links_at(other, index));
                    assert(other.segments@[index].owner@ == owner);
                    let at = choose|at: int| 0 <= at < list.len() && list[at] == index;
                    if at < position {
                        assert(grown[at] == index);
                    } else {
                        assert(grown[at + 1] == index);
                    }
                }
            }
        }
        assert forall|to: int|
            #![auto]
            self.link_to(grown, to) == (if to < position {
            other.link_to(list, to)
        } else if to == position {
            other.spec_header_addr(seg_index)
        } else {
            other.link_to(list, to - 1)
        }) by {}
        assert forall|at: int| 0 <= at < grown.len() implies {
            &&& (#[trigger] self.segments@[grown[at]]).spec_next() == self.link_to(grown, at + 1)
            &&& self.segments@[grown[at]].spec_prev() == self.link_to(grown, at - 1)
            &&& self.segments@[grown[at]].owner@ == owner
        } by {
            if at < position {
                let index = list[at];
                assert(other.segments@[list[at]].owner@ == owner);
                assert(other.segments@[list[at]].spec_next() == other.link_to(list, at + 1));
                assert(other.segments@[list[at]].spec_prev() == other.link_to(list, at - 1));
                if at + 1 < position {
                    assert(list[at] != list[position - 1]);
                    if position < list.len() {
                        assert(list[at] != list[position]);
                    }
                    assert(self.same_links_at(other, index));
                } else {
                    assert(self.link_to(grown, at + 1) == other.spec_header_addr(seg_index));
                }
            } else if at > position {
                let index = list[at - 1];
                assert(other.segments@[list[at - 1]].owner@ == owner);
                assert(other.segments@[list[at - 1]].spec_next() == other.link_to(list, at));
                assert(other.segments@[list[at - 1]].spec_prev() == other.link_to(list, at - 2));
                if at - 1 > position {
                    assert(list[at - 1] != list[position]);
                    if position > 0 {
                        assert(list[at - 1] != list[position - 1]);
                    }
                    assert(self.same_links_at(other, index));
                } else {
                    assert(self.link_to(grown, at - 1) == other.spec_header_addr(seg_index));
                }
            } else {
            }
        }
        assert forall|at: int| 0 <= at < grown.len() implies 0 <= #[trigger] grown[at]
            < self.segments@.len() by {}
    }

    /// Links the floated segment at `seg_ptr` into a list before the segment
    /// at `next_ptr`, or behind the last one where `next_ptr` is null, and
    /// gives it to the owner of the list.  Answers with the new ends of the
    /// list.
    pub(crate) fn chain_insert(
        &mut self,
        begin: usize,
        end: usize,
        seg_ptr: AnyNonNullPtr,
        next_ptr: usize,
        Ghost(list): Ghost<Seq<int>>,
        Ghost(owner): Ghost<Owner>,
        Ghost(position): Ghost<int>,
    ) -> (ends: (usize, usize))
        requires
            old(self).wf(),
            old(self).is_chain(list, begin, end, owner),
            owner != Owner::Nobody,
            old(self).is_header_addr(seg_ptr.raw as int),
            old(self).spec_segment(seg_ptr).owner@
                == Owner::Nobody,
            0 <= position <= list.len(),
            next_ptr == old(self).link_to(list, position),
        ensures
            final(self).wf(),
            final(self).same_segments_but_links(old(self)),
            final(self).is_chain(
                list.insert(position, old(self).spec_index_of_header(seg_ptr.raw as int)),
                ends.0,
                ends.1,
                owner,
            ),
            forall|index: int|
                0 <= index < old(self).segments@.len() && old(self).segments@[index].owner@
                    != owner && index != old(self).spec_index_of_header(seg_ptr.raw as int)
                    ==> final(self).segments@[index] == old(self).segments@[index],
            forall|index: int|
                0 <= index < old(self).segments@.len() && index
                    != old(self).spec_index_of_header(seg_ptr.raw as int) ==> (
                #[trigger] final(self).segments@[index]).owner@
                    == old(self).segments@[index].owner@,
            final(self).segments@[old(self).spec_index_of_header(seg_ptr.raw as int)].owner@
                == owner,
    {
        let seg_index = self.segment_index(seg_ptr);
        proof {
            self.lemma_link_to(list, begin, owner, position);
            self.lemma_link_to(list, begin, owner, position - 1);
            self.lemma_link_to(list, begin, owner, list.len() - 1);
            self.lemma_header_addr(seg_index as int);
            if position < list.len() {
                assert(self.segments@[list[position]].spec_prev() == self.link_to(
                    list,
                    position - 1,
                ));
            }
            if list.contains(seg_index as int) {
                let at = choose|at: int| 0 <= at < list.len() && list[at] == seg_index;
                assert(self.segments@[list[at]].owner@ == owner);
            }
        }
        let prev_ptr = if next_ptr == 0 {
            end
        } else {
            let next_index = self.segment_index(AnyNonNullPtr { raw: next_ptr });
            self.segments[next_index].prev()
        };
        self.segments[seg_index].set_prev(prev_ptr);
        self.segments[seg_index].set_next(next_ptr);
        self.segments[seg_index].owner = Ghost(owner);
        let ghost linked = *self;
        if prev_ptr != 0 {
            let prev_index = (prev_ptr - self.segment_compact_header_space.as_addr())
                / COMPACT_HEADER_SIZE;
            assert(prev_index == list[position - 1]);
            self.segments[prev_index].set_next(seg_ptr.as_addr());
        }
        if next_ptr != 0 {
            let next_index = (next_ptr - self.segment_compact_header_space.as_addr())
                / COMPACT_HEADER_SIZE;
            assert(next_index == list[position]);
            self.segments[next_index].set_prev(seg_ptr.as_addr());
        }
        let ends = (
            if prev_ptr == 0 {
                seg_ptr.as_addr()
            } else {
                begin
            },
            if next_ptr == 0 {
                seg_ptr.as_addr()
            } else {
                end
            },
        );
        proof {
            self.lemma_same_segments_but_links(old(self));
            assert forall|index: int|
                0 <= index < self.segments@.len() && index != seg_index && (position > 0
                    ==> index != list[position - 1]) && (position < list.len() ==> index
                    != list[position]) implies #[trigger] self.same_links_at(old(self), index) by {}
            self.lemma_chain_insert(old(self), list, begin, end, owner, position, seg_index as int);
        }
        ends
    }

    /// What `chain_remove` does to the links makes the list one shorter.
    proof fn lemma_chain_remove(
        &self,
        other: &SegmentSpace,
        list: Seq<int>,
        begin: usize,
        end: usize,
        owner: Owner,
        position: int,
    )
        requires
            other.wf(),
            other.is_chain(list, begin, end, owner),
            owner != Owner::Nobody,
            self.same_extent(other),
            0 <= position < list.len(),
            forall|index: int|
                0 <= index < self.segments@.len() && index != list[position] && (position > 0
                    ==> index != list[position - 1]) && (position + 1 < list.len() ==> index
                    != list[position + 1]) ==> #[trigger] self.same_links_at(other, index),
            self.segments@[list[position]].owner@ == Owner::Nobody,
            position > 0 ==> {
                &&& self.segments@[list[position - 1]].owner@ == owner
                &&& self.segments@[list[position - 1]].spec_next() == other.link_to(
                    list,
                    position + 1,
                )
                &&& self.segments@[list[position - 1]].spec_prev() == other.segments@[list[position
                    - 1]].spec_prev()
            },
            position + 1 < list.len() ==> {
                &&& self.segments@[list[position + 1]].owner@ == owner
                &&& self.segments@[list[position + 1]].spec_prev() == other.link_to(
                    list,
                    position - 1,
                )
                &&& self.segments@[list[position + 1]].spec_next() == other.segments@[list[position
                    + 1]].spec_next()
            },
        ensures
            self.is_chain(
                list.remove(position),
                if position == 0 {
                    other.link_to(list, 1) as usize
                } else {
                    begin
                },
                if position == list.len() - 1 {
                    other.link_to(list, position - 1) as usize
                } else {
                    end
                },
                owner,
            ),
    {
        let shrunk = list.remove(position);
        assert forall|at: int| 0 <= at < shrunk.len() implies #[trigger] shrunk[at] == (if at
            < position {
            list[at]
        } else {
            list[at + 1]
        }) by {}
        assert(shrunk.no_duplicates());
        assert forall|index: int|
            0 <= index < self.segments@.len() && (#[trigger] self.segments@[index]).owner@
                == owner implies shrunk.contains(index) by {
            if position > 0 && index == list[position - 1] {
                assert(shrunk[position - 1] == index);
            } else if position + 1 < list.len() && index == list[position + 1] {
                assert(shrunk[position] == index);
            } else {
                assert(self.same_links_at(other, index));
                assert(other.segments@[index].owner@ == owner);
                let at = choose|at: int| 0 <= at < list.len() && list[at] == index;
                if at < position {
                    assert(shrunk[at] == index);
                } else {
                    assert(shrunk[at - 1] == index);
                }
            }
        }
        assert forall|to: int|
            #![auto]
            self.link_to(shrunk, to) == (if to < position {
                other.link_to(list, to)
            } else {
                other.link_to(list, to + 1)
            }) by {}
        assert forall|at: int| 0 <= at < shrunk.len() implies {
            &&& (#[trigger] self.segments@[shrunk[at]]).spec_next() == self.link_to(shrunk, at + 1)
            &&& self.segments@[shrunk[at]].spec_prev() == self.link_to(shrunk, at - 1)
            &&& self.segments@[shrunk[at]].owner@ == owner
        } by {
            if at < position {
                let index = list[at];
                assert(other.segments@[list[at]].owner@ == owner);
                assert(other.segments@[list[at]].spec_next() == other.link_to(list, at + 1));
                assert(other.segments@[list[at]].spec_prev() == other.link_to(list, at - 1));
                assert(list[at] != list[position]);
                if at + 1 < position {
                    assert(list[at] != list[position - 1]);
                    if position + 1 < list.len() {
                        assert(list[at] != list[position + 1]);
                    }
                    assert(self.same_links_at(other, index));
                }
            } else {
                let index = list[at + 1];
                assert(other.segments@[list[at + 1]].owner@ == owner);
                assert(other.segments@[list[at + 1]].spec_next() == other.link_to(list, at + 2));
                assert(other.segments@[list[at + 1]].spec_prev() == other.link_to(list, at));
                assert(list[at + 1] != list[position]);
                if at > position {
                    assert(list[at + 1] != list[position + 1]);
                    if position > 0 {
                        assert(list[at + 1] != list[position - 1]);
                    }
                    assert(self.same_links_at(other, index));
                }
            }
        }
        assert forall|at: int| 0 <= at < shrunk.len() implies 0 <= #[trigger] shrunk[at]
            < self.segments@.len() by {}
    }

    /// Takes the segment at `seg_ptr` out of the list that holds it: the
    /// segment is linked to nothing and owned by nobody from now on.
    /// Answers with the new ends of the list.
    pub(crate) fn chain_remove(
        &mut self,
        begin: usize,
        end: usize,
        seg_ptr: AnyNonNullPtr,
        Ghost(list): Ghost<Seq<int>>,
        Ghost(owner): Ghost<Owner>,
    ) -> (ends: (usize, usize))
        requires
            old(self).wf(),
            old(self).is_chain(list, begin, end, owner),
            owner != Owner::Nobody,
            old(self).is_header_addr(seg_ptr.raw as int),
            old(self).spec_segment(seg_ptr).owner@
                == owner,
        ensures
            final(self).wf(),
            final(self).same_segments_but_links(old(self)),
            final(self).is_chain(
                list.remove(list.index_of(old(self).spec_index_of_header(seg_ptr.raw as int))),
                ends.0,
                ends.1,
                owner,
            ),
            list.contains(old(self).spec_index_of_header(seg_ptr.raw as int)),
            forall|index: int|
                0 <= index < old(self).segments@.len() && old(self).segments@[index].owner@
                    != owner ==> final(self).segments@[index] == old(self).segments@[index],
            forall|index: int|
                0 <= index < old(self).segments@.len() && index
                    != old(self).spec_index_of_header(seg_ptr.raw as int) ==> (
                #[trigger] final(self).segments@[index]).owner@
                    == old(self).segments@[index].owner@,
            final(self).segments@[old(self).spec_index_of_header(seg_ptr.raw as int)].owner@
                == Owner::Nobody,
            final(self).segments@[old(self).spec_index_of_header(
                seg_ptr.raw as int)].spec_is_floated(),
    {
        let seg_index = self.segment_index(seg_ptr);
        let ghost position = self.lemma_chain_position(list, begin, owner, seg_index as int);
        proof {
            assert(list.index_of(seg_index as int) == position) by {
                list.index_of_first_ensures(seg_index as int);
                let first = list.index_of(seg_index as int);
                assert(list[first] == list[position]);
            }
            self.lemma_link_to(list, begin, owner, position + 1);
            self.lemma_link_to(list, begin, owner, position - 1);
            self.lemma_link_to(list, begin, owner, position);
            self.lemma_link_to(list, begin, owner, 0);
            self.lemma_link_to(list, begin, owner, list.len() - 1);
            assert(self.segments@[list[position]].spec_prev() == self.link_to(list, position - 1));
            assert(self.segments@[list[position]].spec_next() == self.link_to(list, position + 1));
        }
        let prev_ptr = self.segments[seg_index].prev();
        let next_ptr = self.segments[seg_index].next();
        if next_ptr != 0 {
            let next_index = (next_ptr - self.segment_compact_header_space.as_addr())
                / COMPACT_HEADER_SIZE;
            assert(next_index == list[position + 1]);
            self.segments[next_index].set_prev(prev_ptr);
        }
        if prev_ptr != 0 {
            let prev_index = (prev_ptr - self.segment_compact_header_space.as_addr())
                / COMPACT_HEADER_SIZE;
            assert(prev_index == list[position - 1]);
            self.segments[prev_index].set_next(next_ptr);
        }
        self.segments[seg_index].set_prev(0);
        self.segments[seg_index].set_next(0);
        self.segments[seg_index].owner = Ghost(Owner::Nobody);
        let ends = (
            if begin == seg_ptr.as_addr() {
                next_ptr
            } else {
                begin
            },
            if end == seg_ptr.as_addr() {
                prev_ptr
            } else {
                end
            },
        );
        proof {
            self.lemma_same_segments_but_links(old(self));
            assert forall|index: int|
                0 <= index < self.segments@.len() && index != seg_index && (position > 0
                    ==> index != list[position - 1]) && (position + 1 < list.len() ==> index
                    != list[position + 1]) implies #[trigger] self.same_links_at(old(self),
                        index) by {}
            self.lemma_chain_remove(old(self), list, begin, end, owner, position);
        }
        ends
    }

    /// Whether `addr` is the address of block `index` of segment
    /// `seg_index`, a segment that is laid out for a class and whose body is
    /// not soft-decommitted.
    pub open spec fn is_block_addr(&self, addr: int, seg_index: int, index: int) -> bool {
        &&& 0 <= seg_index < self.segments@.len()
        &&& self.segments@[seg_index].is_initialized()
        &&& !self.segments@[seg_index].spec_is_soft_decommitted()
        &&& 0 <= index < self.segments@[seg_index].spec_block_count()
        &&& addr == self.segments@[seg_index].spec_block_addr(index)
    }

    /// Whether `addr` lies within the blocks of segment `seg_index`, a
    /// segment that is laid out for a class.
    pub open spec fn is_in_block_space(&self, addr: int, seg_index: int) -> bool {
        &&& 0 <= seg_index < self.segments@.len()
        &&& self.segments@[seg_index].is_initialized()
        &&& self.segments@[seg_index].spec_block_addr(0) <= addr
            < self.segments@[seg_index].spec_block_addr(
            self.segments@[seg_index].spec_block_count(),
        )
    }

    /// Whether `addr` is the address of a block that is handed out: block
    /// `index` of segment `seg_index`.
    pub open spec fn is_used_block_addr(&self, addr: int, seg_index: int, index: int) -> bool {
        &&& self.is_block_addr(addr, seg_index, index)
        &&& self.segments@[seg_index].block_used(index)
    }

    /// A block lies within the body of its segment, behind the additional
    /// header and the sub-bitmaps, and so within the range of the segments.
    pub proof fn lemma_block_addr(&self, addr: int, seg_index: int, index: int)
        requires
            self.wf(),
            self.is_block_addr(addr, seg_index, index),
        ensures
            self.spec_segment_addr(seg_index) + spec_block_space_offset(
                self.segments@[seg_index].class(),
            ) <= addr,
            addr + self.segments@[seg_index].spec_block_size() <= self.spec_segment_addr(seg_index)
                + SEGMENT_SIZE,
            self.spec_ptr_in_space(addr),
            (addr - self.segment_space_begin.raw) / (SEGMENT_SIZE as int) == seg_index,
            (addr - self.segment_space_begin.raw) % (SEGMENT_SIZE as int)
                == spec_block_space_offset(self.segments@[seg_index].class())
                + self.segments@[seg_index].spec_block_size() * index,
            addr % (ALIGNMENT_SIZE as int) == 0,
    {
        let seg = self.segments@[seg_index];
        let size = seg.spec_block_size();
        let count = seg.spec_block_count();
        let offset = spec_block_space_offset(seg.class());
        lemma_layout_of_class(seg.class());
        self.lemma_header_addr(seg_index);
        assert(size * index + size <= count * size) by (nonlinear_arith)
            requires
                0 <= index < count,
                0 < size,
        ;
        assert(0 <= size * index) by (nonlinear_arith)
            requires
                0 <= index,
                0 < size,
        ;
        let within = offset + size * index;
        vstd::arithmetic::div_mod::lemma_fundamental_div_mod_converse(
            addr - self.segment_space_begin.raw,
            SEGMENT_SIZE as int,
            seg_index,
            within,
        );
        assert(size * index == 8 * (spec_units_of_class(seg.class()) * index)) by (nonlinear_arith)
            requires
                size == spec_units_of_class(seg.class()) * 8,
        ;
    }

    /// An address is that of one block at most.
    pub proof fn lemma_block_addr_unique(
        &self,
        addr: int,
        seg_index: int,
        index: int,
        other_seg_index: int,
        other_index: int,
    )
        requires
            self.wf(),
            self.is_block_addr(addr, seg_index, index),
            self.is_block_addr(addr, other_seg_index, other_index),
        ensures
            seg_index == other_seg_index,
            index == other_index,
    {
        self.lemma_block_addr(addr, seg_index, index);
        self.lemma_block_addr(addr, other_seg_index, other_index);
        let size = self.segments@[seg_index].spec_block_size();
        lemma_layout_of_class(self.segments@[seg_index].class());
        assert(index == other_index) by (nonlinear_arith)
            requires
                size * index == size * other_index,
                0 < size,
        ;
    }

    /// The addresses of the blocks of segment `seg_index` that are handed out.
    pub open spec fn used_block_addrs(&self, seg_index: int) -> Set<int> {
        Set::new(
            |addr: int|
                exists|index: int| #[trigger] self.is_used_block_addr(addr, seg_index, index),
        )
    }

    /// A segment that kept its blocks has the same blocks handed out.
    pub proof fn lemma_used_block_addrs_kept(&self, other: &SegmentSpace, seg_index: int)
        requires
            0 <= seg_index < self.segments@.len() <==> 0 <= seg_index < other.segments@.len(),
            0 <= seg_index < self.segments@.len() ==> {
                &&& self.segments@[seg_index].same_blocks(&other.segments@[seg_index])
                &&& self.segments@[seg_index].spec_is_soft_decommitted()
                    == other.segments@[seg_index].spec_is_soft_decommitted()
            },
        ensures
            self.used_block_addrs(seg_index) == other.used_block_addrs(seg_index),
    {
        if 0 <= seg_index < self.segments@.len() {
            self.segments@[seg_index].lemma_same_blocks(&other.segments@[seg_index]);
            assert forall|addr: int, index: int|
                self.is_used_block_addr(addr, seg_index, index) == other.is_used_block_addr(
                    addr,
                    seg_index,
                    index,
                ) by {
                if 0 <= index < self.segments@[seg_index].spec_block_count() {
                    self.segments@[seg_index].lemma_same_used_blocks(
                        &other.segments@[seg_index],
                        index,
                    );
                }
            }
        }
        assert(self.used_block_addrs(seg_index) =~= other.used_block_addrs(seg_index));
    }

    /// No block is handed out of a segment that is not committed yet, whose
    /// body is soft-decommitted, that is not laid out, or whose used count
    /// is zero.
    pub proof fn lemma_used_block_addrs_none(&self, seg_index: int)
        requires
            self.wf(),
            !(0 <= seg_index < self.segments@.len())
                || self.segments@[seg_index].spec_is_soft_decommitted()
                || !self.segments@[seg_index].is_initialized()
                || self.segments@[seg_index].additional_header.used_block_count == 0,
        ensures
            self.used_block_addrs(seg_index) == Set::<int>::empty(),
    {
        assert forall|addr: int, index: int| !self.is_used_block_addr(addr, seg_index, index) by {
            if self.is_used_block_addr(addr, seg_index, index) {
                let seg = self.segments@[seg_index];
                assert(seg.used_blocks().contains(index));
                assert(seg.used_blocks().len() != 0) by {
                    if seg.used_blocks().len() == 0 {
                        assert(seg.used_blocks() =~= Set::<int>::empty());
                    }
                }
            }
        }
        assert(self.used_block_addrs(seg_index) =~= Set::<int>::empty());
    }

    /// Handing one block of a segment out adds its address to the addresses
    /// that are handed out, and taking one back takes its address from them.
    pub proof fn lemma_used_block_addrs_changed(
        &self,
        other: &SegmentSpace,
        seg_index: int,
        index: int,
    )
        requires
            self.wf(),
            other.wf(),
            0 <= seg_index < self.segments@.len(),
            seg_index < other.segments@.len(),
            self.segments@[seg_index].is_initialized(),
            other.segments@[seg_index].is_initialized(),
            !self.segments@[seg_index].spec_is_soft_decommitted(),
            !other.segments@[seg_index].spec_is_soft_decommitted(),
            self.segments@[seg_index].class() == other.segments@[seg_index].class(),
            self.segments@[seg_index].additional_header_ptr
                == other.segments@[seg_index].additional_header_ptr,
            0 <= index < self.segments@[seg_index].spec_block_count(),
            !other.segments@[seg_index].used_blocks().contains(index),
            self.segments@[seg_index].used_blocks()
                == other.segments@[seg_index].used_blocks().insert(
                index,
            ),
        ensures
            !other.used_block_addrs(seg_index).contains(
                self.segments@[seg_index].spec_block_addr(index),
            ),
            self.used_block_addrs(seg_index) == other.used_block_addrs(seg_index).insert(
                self.segments@[seg_index].spec_block_addr(index),
            ),
            other.used_block_addrs(seg_index) == self.used_block_addrs(seg_index).remove(
                self.segments@[seg_index].spec_block_addr(index),
            ),
    {
        let seg = self.segments@[seg_index];
        let old_seg = other.segments@[seg_index];
        let target = seg.spec_block_addr(index);
        assert forall|at: int|
            0 <= at < seg.spec_block_count() implies seg.block_used(at) == (at == index
            || old_seg.block_used(at)) by {
            assert(seg.used_blocks().contains(at) == seg.block_used(at));
            assert(old_seg.used_blocks().contains(at) == old_seg.block_used(at));
        }
        assert(self.is_used_block_addr(target, seg_index, index));
        assert forall|addr: int, at: int| #[trigger]
            other.is_used_block_addr(addr, seg_index, at) implies addr != target
            && self.is_used_block_addr(addr, seg_index, at) by {
            if addr == target {
                self.lemma_block_addr_unique(addr, seg_index, index, seg_index, at);
            }
        }
        assert forall|addr: int, at: int| #[trigger]
            self.is_used_block_addr(addr, seg_index, at) && addr
                != target implies other.is_used_block_addr(addr, seg_index, at) by {}
        assert(self.used_block_addrs(seg_index) =~= other.used_block_addrs(seg_index).insert(
            target,
        ));
        assert(other.used_block_addrs(seg_index) =~= self.used_block_addrs(seg_index).remove(
            target,
        ));
    }

    /// The block that is handed out at `ptr`: the compact header of its
    /// segment and its index, or none where no block is handed out there.
    pub fn find_used_block(&self, ptr: AnyNonNullPtr) -> (found: Option<(AnyNonNullPtr, usize)>)
        requires
            self.wf(),
        ensures
            match found {
                Some((seg_ptr, index)) => {
                    &&& self.is_header_addr(seg_ptr.raw as int)
                    &&& self.is_used_block_addr(
                        ptr.raw as int,
                        self.spec_index_of_header(seg_ptr.raw as int),
                        index as int,
                    )
                },
                None => forall|seg_index: int, index: int|
                    !#[trigger] self.is_used_block_addr(ptr.raw as int, seg_index, index),
            },
    {
        proof {
            assert forall|seg_index: int, index: int| #[trigger]
                self.is_used_block_addr(ptr.raw as int, seg_index, index)
                    implies self.is_block_addr(
                ptr.raw as int,
                seg_index,
                index,
            ) by {}
        }
        if !self.ptr_in_space(ptr) {
            proof {
                assert forall|seg_index: int, index: int|
                    !#[trigger] self.is_used_block_addr(ptr.raw as int, seg_index, index) by {
                    if self.is_block_addr(ptr.raw as int, seg_index, index) {
                        self.lemma_block_addr(ptr.raw as int, seg_index, index);
                    }
                }
            }
            return None;
        }
        let offset = ptr.as_addr() - self.segment_space_begin.as_addr();
        let seg_index = offset / SEGMENT_SIZE;
        let within = offset % SEGMENT_SIZE;
        proof {
            assert forall|other: int, index: int| #[trigger]
                self.is_used_block_addr(ptr.raw as int, other, index) implies other == seg_index
                && within == spec_block_space_offset(self.segments@[other].class())
                + self.segments@[other].spec_block_size() * index by {
                self.lemma_block_addr(ptr.raw as int, other, index);
            }
        }
        if seg_index >= self.segments.len() {
            return None;
        }
        let seg = &self.segments[seg_index];
        if seg.is_soft_decommitted() || !seg.is_laid_out() {
            return None;
        }
        proof {
            lemma_layout_of_class(seg.class());
            self.lemma_header_addr(seg_index as int);
        }
        let class = seg.subheap_class();
        let first = ADDITIONAL_HEADER_SIZE + SUB_BITMAP_UNIT_SIZE * sub_bitmap_size_of_class(class);
        if within < first {
            proof {
                assert forall|other: int, index: int|
                    !#[trigger] self.is_used_block_addr(ptr.raw as int, other, index) by {
                    if self.is_used_block_addr(ptr.raw as int, other, index) {
                        assert(0 <= seg.spec_block_size() * index) by (nonlinear_arith)
                            requires
                                0 <= index,
                                0 < seg.spec_block_size(),
                        ;
                    }
                }
            }
            return None;
        }
        let size = size_of_class(class);
        let behind = within - first;
        let index = behind / size;
        proof {
            vstd::arithmetic::div_mod::lemma_fundamental_div_mod(behind as int, size as int);
            assert forall|other: int, other_index: int| #[trigger]
                self.is_used_block_addr(ptr.raw as int, other, other_index) implies other_index
                == index && behind % size == 0 by {
                assert(other == seg_index);
                assert(behind == seg.spec_block_size() * other_index);
                assert(behind == other_index * size) by (nonlinear_arith)
                    requires
                        behind == size * other_index,
                ;
                vstd::arithmetic::div_mod::lemma_fundamental_div_mod_converse(
                    behind as int,
                    size as int,
                    other_index,
                    0,
                );
            }
        }
        if behind % size != 0 || index >= block_count_of_class(class) {
            return None;
        }
        if !seg.is_block_used(index) {
            return None;
        }
        proof {
            assert(size * (behind as int / size as int) == behind);
            assert(self.is_block_addr(ptr.raw as int, seg_index as int, index as int));
        }
        Some((seg.compact_header_ptr(), index))
    }

    /// Whether the segment at `seg_ptr` is the one that was committed last.
    pub fn is_last_segment(&self, seg_ptr: AnyNonNullPtr) -> (last: bool)
        requires
            self.wf(),
            self.is_header_addr(seg_ptr.raw as int),
        ensures
            last == (self.spec_index_of_header(seg_ptr.raw as int) == self.segments@.len() - 1),
    {
        let seg_index = self.segment_index(seg_ptr);
        seg_index == self.next_alloc_segment_index - 1
    }
}

} // verus!
