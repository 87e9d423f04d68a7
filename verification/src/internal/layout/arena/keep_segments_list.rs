use crate::internal::layout::segment::Owner;
use crate::internal::layout::segment_space::SegmentSpace;
use crate::sys::ptr::AnyNonNullPtr;
use vstd::prelude::*;

verus! {

/// The emptied segments that stay committed: a list in ascending order of
/// address, of at most `keep_segments_count` segments.
pub struct KeepSegmentsList {
    /// How many more segments the list takes.
    pub should_keep_count: usize,
    pub begin: usize,
    pub end: usize,
    /// How many segments the list holds at most.
    pub keep_segments_count: usize,
    /// The indices of the segments of the list, in the order of their links.
    pub list: Ghost<Seq<int>>,
}

/// Whether each entry of `list` is below the next one.
pub open spec fn is_ascending(list: Seq<int>) -> bool {
    forall|lower: int, upper: int|
        0 <= lower < upper < list.len() ==> #[trigger] list[lower] < #[trigger] list[upper]
}

impl KeepSegmentsList {
    pub open spec fn wf(&self, segment_space: &SegmentSpace) -> bool {
        &&& segment_space.is_chain(self.list@, self.begin, self.end, Owner::KeepList)
        &&& is_ascending(self.list@)
        &&& self.list@.len() + self.should_keep_count == self.keep_segments_count
    }

    /// A list that holds nothing and takes `should_keep_count` segments.
    pub fn new(should_keep_count: usize) -> (keep_segments_list: Self)
        ensures
            keep_segments_list.should_keep_count == should_keep_count,
            keep_segments_list.keep_segments_count == should_keep_count,
            keep_segments_list.begin == 0,
            keep_segments_list.end == 0,
            keep_segments_list.list@ == Seq::<int>::empty(),
    {
        Self {
            should_keep_count,
            begin: 0,
            end: 0,
            keep_segments_count: should_keep_count,
            list: Ghost(Seq::empty()),
        }
    }

    /// Takes the floated segment at `floated_seg` into the list.  Where the
    /// list was full, the segment with the highest address among those of the
    /// list and the new one leaves the list and is the answer.
    pub fn insert_and_return_flooded(
        &mut self,
        segment_space: &mut SegmentSpace,
        floated_seg: AnyNonNullPtr,
    ) -> (flooded: Option<AnyNonNullPtr>)
        requires
            old(segment_space).wf(),
            old(self).wf(old(segment_space)),
            old(segment_space).is_header_addr(floated_seg.raw as int),
            old(segment_space).spec_segment(floated_seg).owner@ == Owner::Nobody,
            old(segment_space).spec_segment(floated_seg).spec_is_floated(),
        ensures
            final(segment_space).wf(),
            final(self).wf(final(segment_space)),
            final(segment_space).same_segments_but_links(old(segment_space)),
            final(self).keep_segments_count == old(self).keep_segments_count,
            forall|index: int|
                0 <= index < old(segment_space).segments@.len()
                    && old(segment_space).segments@[index].owner@ != Owner::KeepList && index
                        != old(segment_space).spec_index_of_header(floated_seg.raw as int)
                            ==> final(segment_space).segments@[index]
                                == old(segment_space).segments@[index],
            spec_insert_and_return_flooded(
                *old(self),
                *old(segment_space),
                floated_seg,
                *final(self),
                *final(segment_space),
                flooded,
            ),
    {
        insert_and_return_flooded(self, segment_space, floated_seg)
    }

    /// Takes the segment with the lowest address out of the list.
    pub fn pop(&mut self, segment_space: &mut SegmentSpace) -> (popped: Option<AnyNonNullPtr>)
        requires
            old(segment_space).wf(),
            old(self).wf(old(segment_space)),
        ensures
            final(segment_space).wf(),
            final(self).wf(final(segment_space)),
            final(segment_space).same_segments_but_links(old(segment_space)),
            final(self).keep_segments_count == old(self).keep_segments_count,
            forall|index: int|
                0 <= index < old(segment_space).segments@.len()
                    && old(segment_space).segments@[index].owner@ != Owner::KeepList
                        ==> final(segment_space).segments@[index]
                            == old(segment_space).segments@[index],
            spec_pop(*old(self), *old(segment_space), *final(self), *final(segment_space), popped),
    {
        pop(self, segment_space)
    }
}

/// What `insert_and_return_flooded` does to the list and answers with.
pub open spec fn spec_insert_and_return_flooded(
    before: KeepSegmentsList,
    space_before: SegmentSpace,
    floated_seg: AnyNonNullPtr,
    after: KeepSegmentsList,
    space_after: SegmentSpace,
    flooded: Option<AnyNonNullPtr>,
) -> bool {
    let seg_index = space_before.spec_index_of_header(floated_seg.raw as int);
    let highest = if before.list@.len() > 0 && before.list@.last() > seg_index {
        before.list@.last()
    } else {
        seg_index
    };
    &&& is_ascending(after.list@)
    &&& forall|index: int|
        0 <= index < space_after.segments@.len() && index != highest ==> (
        #[trigger] space_after.segments@[index]).owner@ == (if index == seg_index {
            Owner::KeepList
        } else {
            space_before.segments@[index].owner@
        })
    &&& if before.should_keep_count > 0 {
        &&& flooded.is_none()
        &&& after.should_keep_count == before.should_keep_count - 1
        &&& after.list@.len() == before.list@.len() + 1
        &&& forall|index: int|
            after.list@.contains(index) <==> (before.list@.contains(index) || index == seg_index)
        &&& space_after.segments@[highest].owner@ == (if highest == seg_index {
            Owner::KeepList
        } else {
            space_before.segments@[highest].owner@
        })
    } else {
        &&& flooded.is_some()
        &&& flooded.unwrap().raw == space_before.spec_header_addr(highest)
        &&& after.should_keep_count == 0
        &&& after.list@.len() == before.list@.len()
        &&& forall|index: int|
            after.list@.contains(index) <==> ((before.list@.contains(index) || index == seg_index)
                && index != highest)
        &&& space_after.segments@[highest].owner@ == Owner::Nobody
        &&& space_after.segments@[highest].spec_is_floated()
    }
}

/// What `pop` does to the list and answers with.
pub open spec fn spec_pop(
    before: KeepSegmentsList,
    space_before: SegmentSpace,
    after: KeepSegmentsList,
    space_after: SegmentSpace,
    popped: Option<AnyNonNullPtr>,
) -> bool {
    if before.list@.len() == 0 {
        &&& popped.is_none()
        &&& after.list@ == before.list@
        &&& after.should_keep_count == before.should_keep_count
        &&& forall|index: int|
            0 <= index < space_after.segments@.len() ==> space_after.segments@[index]
                == space_before.segments@[index]
    } else {
        &&& popped.is_some()
        &&& popped.unwrap().raw == space_before.spec_header_addr(before.list@[0])
        &&& space_after.is_header_addr(popped.unwrap().raw as int)
        &&& after.list@ == before.list@.drop_first()
        &&& after.should_keep_count == before.should_keep_count + 1
        &&& space_after.segments@[before.list@[0]].owner@ == Owner::Nobody
        &&& space_after.segments@[before.list@[0]].spec_is_floated()
        &&& forall|index: int|
            0 <= index < space_after.segments@.len() && index != before.list@[0] ==> (
            #[trigger] space_after.segments@[index]).owner@
                == space_before.segments@[index].owner@
    }
}

/// The address of the compact header before which the segment at `seg_ptr`
/// belongs in the list, or null where it belongs behind the last one.
fn find_successor(
    keep_segments_list: &KeepSegmentsList,
    segment_space: &SegmentSpace,
    seg_ptr: AnyNonNullPtr,
) -> (found: (usize, Ghost<int>))
    requires
        segment_space.wf(),
        keep_segments_list.wf(segment_space),
        segment_space.is_header_addr(seg_ptr.raw as int),
        segment_space.spec_segment(seg_ptr).owner@
            == Owner::Nobody,
    ensures
        0 <= found.1@ <= keep_segments_list.list@.len(),
        found.0 == segment_space.link_to(keep_segments_list.list@, found.1@),
        forall|at: int|
            0 <= at < found.1@ ==> keep_segments_list.list@[at]
                < segment_space.spec_index_of_header(
                seg_ptr.raw as int,
            ),
        forall|at: int|
            found.1@ <= at < keep_segments_list.list@.len() ==> keep_segments_list.list@[at]
                > segment_space.spec_index_of_header(seg_ptr.raw as int),
{
    let ghost list = keep_segments_list.list@;
    let ghost seg_index = segment_space.spec_index_of_header(seg_ptr.raw as int);
    let begin = keep_segments_list.begin;
    proof {
        segment_space.lemma_link_to(list, begin, Owner::KeepList, 0);
        segment_space.lemma_link_to(list, begin, Owner::KeepList, list.len() - 1);
        assert forall|at: int| 0 <= at < list.len() implies list[at] != seg_index by {
            assert(segment_space.segments@[list[at]].owner@ == Owner::KeepList);
        }
        let witness = choose|index: int|
            0 <= index < segment_space.segments@.len() && seg_ptr.raw
                == #[trigger] segment_space.spec_header_addr(index);
        segment_space.lemma_header_addr(witness);
    }
    if begin == 0 || seg_ptr.as_addr() < begin {
        return (begin, Ghost(0));
    }
    if keep_segments_list.end < seg_ptr.as_addr() {
        return (0, Ghost(list.len() as int));
    }
    let mut current = begin;
    let ghost mut at: int = 0;
    loop
        invariant
            segment_space.wf(),
            keep_segments_list.wf(segment_space),
            list == keep_segments_list.list@,
            begin == keep_segments_list.begin,
            seg_index == segment_space.spec_index_of_header(seg_ptr.raw as int),
            0 <= seg_index < segment_space.segments@.len(),
            seg_ptr.raw == segment_space.spec_header_addr(seg_index),
            forall|at: int| 0 <= at < list.len() ==> list[at] != seg_index,
            0 <= at < list.len(),
            current == segment_space.link_to(list, at),
            list[at] < seg_index,
        decreases list.len() - at,
    {
        proof {
            segment_space.lemma_link_to(list, begin, Owner::KeepList, at);
            segment_space.lemma_link_to(list, begin, Owner::KeepList, at + 1);
            assert(segment_space.segments@[list[at]].spec_next() == segment_space.link_to(
                list,
                at + 1,
            ));
        }
        let current_index = segment_space.segment_index(AnyNonNullPtr { raw: current });
        let next = segment_space.segments[current_index].next();
        if next == 0 || seg_ptr.as_addr() < next {
            return (next, Ghost(at + 1));
        }
        current = next;
        proof {
            at = at + 1;
        }
    }
}

/// Links the segment at `seg_ptr` into the list where its address puts it.
fn insert_in_order(
    keep_segments_list: &mut KeepSegmentsList,
    segment_space: &mut SegmentSpace,
    seg_ptr: AnyNonNullPtr,
)
    requires
        old(segment_space).wf(),
        old(keep_segments_list).wf(old(segment_space)),
        old(segment_space).is_header_addr(seg_ptr.raw as int),
        old(segment_space).spec_segment(seg_ptr).owner@ == Owner::Nobody,
    ensures
        final(segment_space).wf(),
        final(segment_space).is_chain(
            final(keep_segments_list).list@,
            final(keep_segments_list).begin,
            final(keep_segments_list).end,
            Owner::KeepList,
        ),
        is_ascending(final(keep_segments_list).list@),
        final(keep_segments_list).list@.len() == old(keep_segments_list).list@.len() + 1,
        forall|index: int|
            final(keep_segments_list).list@.contains(index)
                <==> (old(keep_segments_list).list@.contains(index) || index
                    == old(segment_space).spec_index_of_header(
                seg_ptr.raw as int,
            )),
        final(keep_segments_list).list@.last() == (if old(keep_segments_list).list@.len() > 0
            && old(keep_segments_list).list@.last() > old(segment_space).spec_index_of_header(
            seg_ptr.raw as int,
        ) {
            old(keep_segments_list).list@.last()
        } else {
            old(segment_space).spec_index_of_header(seg_ptr.raw as int)
        }),
        final(keep_segments_list).should_keep_count == old(keep_segments_list).should_keep_count,
        final(keep_segments_list).keep_segments_count
            == old(keep_segments_list).keep_segments_count,
        final(segment_space).same_segments_but_links(old(segment_space)),
        forall|index: int|
            0 <= index < old(segment_space).segments@.len()
                && old(segment_space).segments@[index].owner@ != Owner::KeepList && index
                    != old(segment_space).spec_index_of_header(seg_ptr.raw as int)
                        ==> final(segment_space).segments@[index]
                == old(segment_space).segments@[index],
        forall|index: int|
            0 <= index < old(segment_space).segments@.len() && index
                != old(segment_space).spec_index_of_header(seg_ptr.raw as int) ==> (
            #[trigger] final(segment_space).segments@[index]).owner@
                == old(segment_space).segments@[index].owner@,
        final(segment_space).segments@[old(segment_space).spec_index_of_header(
            seg_ptr.raw as int,
        )].owner@ == Owner::KeepList,
{
    let ghost list = keep_segments_list.list@;
    let ghost seg_index = segment_space.spec_index_of_header(seg_ptr.raw as int);
    let (next_ptr, Ghost(position)) = find_successor(keep_segments_list, segment_space, seg_ptr);
    let ends = segment_space.chain_insert(
        keep_segments_list.begin,
        keep_segments_list.end,
        seg_ptr,
        next_ptr,
        Ghost(list),
        Ghost(Owner::KeepList),
        Ghost(position),
    );
    keep_segments_list.begin = ends.0;
    keep_segments_list.end = ends.1;
    keep_segments_list.list = Ghost(list.insert(position, seg_index));
    proof {
        lemma_insert_in_order(list, position, seg_index);
    }
}

/// Putting an entry where it belongs keeps a list ascending, and adds the
/// entry to what the list holds and nothing else.
proof fn lemma_insert_in_order(list: Seq<int>, position: int, entry: int)
    requires
        is_ascending(list),
        0 <= position <= list.len(),
        forall|at: int| 0 <= at < position ==> list[at] < entry,
        forall|at: int| position <= at < list.len() ==> list[at] > entry,
    ensures
        is_ascending(list.insert(position, entry)),
        list.insert(position, entry).len() == list.len() + 1,
        forall|other: int|
            list.insert(position, entry).contains(other) <==> (list.contains(other) || other
                == entry),
        list.insert(position, entry).last() == (if list.len() > 0 && list.last() > entry {
            list.last()
        } else {
            entry
        }),
{
    let grown = list.insert(position, entry);
    assert forall|at: int| 0 <= at < grown.len() implies #[trigger] grown[at] == (if at
        < position {
        list[at]
    } else if at == position {
        entry
    } else {
        list[at - 1]
    }) by {}
    assert forall|lower: int, upper: int| 0 <= lower < upper < grown.len()
        implies #[trigger] grown[lower]
        < #[trigger] grown[upper] by {
        let low = if lower < position {
            lower
        } else {
            lower - 1
        };
        let up = if upper < position {
            upper
        } else {
            upper - 1
        };
        if lower != position && upper != position {
            assert(list[low] < list[up]);
        }
    }
    assert forall|other: int|
        grown.contains(other) <==> (list.contains(other) || other == entry) by {
        if grown.contains(other) {
            let at = choose|at: int| 0 <= at < grown.len() && grown[at] == other;
            if at < position {
                assert(list[at] == other);
            } else if at > position {
                assert(list[at - 1] == other);
            }
        }
        if list.contains(other) {
            let at = choose|at: int| 0 <= at < list.len() && list[at] == other;
            if at < position {
                assert(grown[at] == other);
            } else {
                assert(grown[at + 1] == other);
            }
        }
        if other == entry {
            assert(grown[position] == other);
        }
    }
}

/// Leaving the last entry out keeps a list ascending, and takes the entry
/// from what the list holds and nothing else.
proof fn lemma_drop_last(list: Seq<int>)
    requires
        is_ascending(list),
        list.len() > 0,
    ensures
        is_ascending(list.drop_last()),
        forall|other: int|
            list.drop_last().contains(other) <==> (list.contains(other) && other != list.last()),
{
    let shrunk = list.drop_last();
    assert forall|lower: int, upper: int| 0 <= lower < upper < shrunk.len()
        implies #[trigger] shrunk[lower]
        < #[trigger] shrunk[upper] by {
        assert(list[lower] < list[upper]);
    }
    assert forall|other: int|
        shrunk.contains(other) <==> (list.contains(other) && other != list.last()) by {
        if shrunk.contains(other) {
            let at = choose|at: int| 0 <= at < shrunk.len() && shrunk[at] == other;
            assert(list[at] == other);
            assert(list[at] < list[list.len() - 1]);
        }
        if list.contains(other) && other != list.last() {
            let at = choose|at: int| 0 <= at < list.len() && list[at] == other;
            assert(shrunk[at] == other);
        }
    }
}

/// Takes a floated segment into the list, and answers with the segment that
/// leaves the list for it where the list was full.
fn insert_and_return_flooded(
    keep_segments_list: &mut KeepSegmentsList,
    segment_space: &mut SegmentSpace,
    floated_seg: AnyNonNullPtr,
) -> (flooded: Option<AnyNonNullPtr>)
    requires
        old(segment_space).wf(),
        old(keep_segments_list).wf(old(segment_space)),
        old(segment_space).is_header_addr(floated_seg.raw as int),
        old(segment_space).spec_segment(floated_seg).owner@ == Owner::Nobody,
        old(segment_space).spec_segment(floated_seg).spec_is_floated(),
    ensures
        final(segment_space).wf(),
        final(keep_segments_list).wf(final(segment_space)),
        final(segment_space).same_segments_but_links(old(segment_space)),
        final(keep_segments_list).keep_segments_count
            == old(keep_segments_list).keep_segments_count,
        forall|index: int|
            0 <= index < old(segment_space).segments@.len()
                && old(segment_space).segments@[index].owner@ != Owner::KeepList && index
                    != old(segment_space).spec_index_of_header(floated_seg.raw as int)
                        ==> final(segment_space).segments@[index]
                == old(segment_space).segments@[index],
        spec_insert_and_return_flooded(
            *old(keep_segments_list),
            *old(segment_space),
            floated_seg,
            *final(keep_segments_list),
            *final(segment_space),
            flooded,
        ),
{
    let ghost list = keep_segments_list.list@;
    let ghost seg_index = segment_space.spec_index_of_header(floated_seg.raw as int);
    proof {
        segment_space.lemma_link_to(
            list,
            keep_segments_list.begin,
            Owner::KeepList,
            list.len() - 1,
        );
        let witness = choose|index: int|
            0 <= index < segment_space.segments@.len() && floated_seg.raw
                == #[trigger] segment_space.spec_header_addr(index);
        segment_space.lemma_header_addr(witness);
        if list.len() > 0 {
            segment_space.lemma_header_addr(list.last());
        }
    }
    if keep_segments_list.should_keep_count == 0 {
        if keep_segments_list.end == 0 || keep_segments_list.end < floated_seg.as_addr() {
            proof {
                assert forall|index: int|
                    list.contains(index) <==> ((list.contains(index) || index == seg_index)
                        && index != seg_index) by {
                    if list.contains(seg_index) {
                        let at = choose|at: int| 0 <= at < list.len() && list[at] == seg_index;
                        assert(segment_space.segments@[list[at]].owner@ == Owner::KeepList);
                    }
                }
            }
            return Some(floated_seg);
        }
        insert_in_order(keep_segments_list, segment_space, floated_seg);
        let ghost grown = keep_segments_list.list@;
        let ghost linked = *segment_space;
        proof {
            lemma_drop_last(grown);
            assert(grown.last() == list.last());
        }
        let flooded = force_pop_end_without_updating_count(keep_segments_list, segment_space);
        proof {
            assert forall|index: int|
                0 <= index < old(segment_space).segments@.len()
                    && old(segment_space).segments@[index].owner@ != Owner::KeepList && index
                        != seg_index implies segment_space.segments@[index]
                    == old(segment_space).segments@[index] by {
                assert(linked.segments@[index] == old(segment_space).segments@[index]);
            }
            assert forall|index: int|
                0 <= index < segment_space.segments@.len() implies (
            #[trigger] segment_space.segments@[index]).same_blocks(
                &old(segment_space).segments@[index],
            ) by {
                assert(linked.segments@[index].same_blocks(&old(segment_space).segments@[index]));
            }
        }
        Some(flooded)
    } else {
        insert_in_order(keep_segments_list, segment_space, floated_seg);
        keep_segments_list.should_keep_count -= 1;
        None
    }
}

/// Takes the segment with the lowest address out of the list.
fn pop(keep_segments_list: &mut KeepSegmentsList, segment_space: &mut SegmentSpace) -> (popped:
    Option<AnyNonNullPtr>)
    requires
        old(segment_space).wf(),
        old(keep_segments_list).wf(old(segment_space)),
    ensures
        final(segment_space).wf(),
        final(keep_segments_list).wf(final(segment_space)),
        final(segment_space).same_segments_but_links(old(segment_space)),
        final(keep_segments_list).keep_segments_count
            == old(keep_segments_list).keep_segments_count,
        forall|index: int|
            0 <= index < old(segment_space).segments@.len()
                && old(segment_space).segments@[index].owner@ != Owner::KeepList
                    ==> final(segment_space).segments@[index]
                == old(segment_space).segments@[index],
        spec_pop(
            *old(keep_segments_list),
            *old(segment_space),
            *final(keep_segments_list),
            *final(segment_space),
            popped,
        ),
{
    let ghost list = keep_segments_list.list@;
    proof {
        segment_space.lemma_link_to(list, keep_segments_list.begin, Owner::KeepList, 0);
    }
    if keep_segments_list.begin == 0 {
        return None;
    }
    let begin_ptr = AnyNonNullPtr::new(keep_segments_list.begin);
    proof {
        assert(segment_space.segments@[list[0]].owner@ == Owner::KeepList);
    }
    let ends = segment_space.chain_remove(
        keep_segments_list.begin,
        keep_segments_list.end,
        begin_ptr,
        Ghost(list),
        Ghost(Owner::KeepList),
    );
    proof {
        list.index_of_first_ensures(list[0]);
        assert(list.index_of(list[0]) == 0) by {
            let first = list.index_of(list[0]);
            if first != 0 {
                assert(list[first] == list[0]);
            }
        }
        assert(list.remove(0) =~= list.drop_first());
    }
    keep_segments_list.begin = ends.0;
    keep_segments_list.end = ends.1;
    keep_segments_list.list = Ghost(list.drop_first());
    keep_segments_list.should_keep_count += 1;
    proof {
        old(segment_space).lemma_header_addr(list[0]);
        segment_space.lemma_header_addr(list[0]);
    }
    Some(begin_ptr)
}

/// Takes the segment with the highest address out of the list.  The count of
/// segments that the list still takes stays as it is.
fn force_pop_end_without_updating_count(
    keep_segments_list: &mut KeepSegmentsList,
    segment_space: &mut SegmentSpace,
) -> (popped: AnyNonNullPtr)
    requires
        old(segment_space).wf(),
        old(segment_space).is_chain(
            old(keep_segments_list).list@,
            old(keep_segments_list).begin,
            old(keep_segments_list).end,
            Owner::KeepList,
        ),
        is_ascending(old(keep_segments_list).list@),
        old(keep_segments_list).list@.len() > 0,
    ensures
        final(segment_space).wf(),
        final(segment_space).is_chain(
            final(keep_segments_list).list@,
            final(keep_segments_list).begin,
            final(keep_segments_list).end,
            Owner::KeepList,
        ),
        final(keep_segments_list).list@ == old(keep_segments_list).list@.drop_last(),
        is_ascending(final(keep_segments_list).list@),
        final(keep_segments_list).should_keep_count == old(keep_segments_list).should_keep_count,
        final(keep_segments_list).keep_segments_count
            == old(keep_segments_list).keep_segments_count,
        final(segment_space).same_segments_but_links(old(segment_space)),
        popped.raw == old(segment_space).spec_header_addr(old(keep_segments_list).list@.last()),
        final(segment_space).segments@[old(keep_segments_list).list@.last()].owner@
            == Owner::Nobody,
        final(segment_space).segments@[old(keep_segments_list).list@.last()].spec_is_floated(),
        forall|index: int|
            0 <= index < old(segment_space).segments@.len()
                && old(segment_space).segments@[index].owner@ != Owner::KeepList
                    ==> final(segment_space).segments@[index]
                == old(segment_space).segments@[index],
        forall|index: int|
            0 <= index < old(segment_space).segments@.len() && index
                != old(keep_segments_list).list@.last()
                    ==> (#[trigger] final(segment_space).segments@[index]).owner@
                        == old(segment_space).segments@[index].owner@,
{
    let ghost list = keep_segments_list.list@;
    proof {
        segment_space.lemma_link_to(
            list,
            keep_segments_list.begin,
            Owner::KeepList,
            list.len() - 1,
        );
        assert(segment_space.segments@[list[list.len() - 1]].owner@ == Owner::KeepList);
    }
    let end_ptr = AnyNonNullPtr::new(keep_segments_list.end);
    let ends = segment_space.chain_remove(
        keep_segments_list.begin,
        keep_segments_list.end,
        end_ptr,
        Ghost(list),
        Ghost(Owner::KeepList),
    );
    proof {
        list.index_of_first_ensures(list.last());
        assert(list.index_of(list.last()) == list.len() - 1) by {
            let first = list.index_of(list.last());
            if first != list.len() - 1 {
                assert(list[first] == list[list.len() - 1]);
            }
        }
        assert(list.remove(list.len() - 1) =~= list.drop_last());
    }
    keep_segments_list.begin = ends.0;
    keep_segments_list.end = ends.1;
    keep_segments_list.list = Ghost(list.drop_last());
    end_ptr
}

} // verus!
