use crate::internal::layout::bitmap::{
    bit_is_set, lemma_full_word_bits, low_bits, lowest_clear_bit, lowest_set_bit, padding_word,
    test_bit, with_bit_cleared, with_bit_set, FULL_WORD,
};
use crate::internal::layout::constants::ALIGNMENT_SIZE;
use crate::internal::layout::segment_space::SegmentSpace;
use crate::util::bits::max_aligned_size;
use crate::internal::layout::subheap::{size_of_class, spec_units_of_class, CLASS_COUNT};
use crate::sys::ptr::AnyNonNullPtr;
use vstd::prelude::*;
use vstd::set_lib::{lemma_int_range, lemma_len_subset, set_int_range};

verus! {

/// The bytes of a segment, and what the address of each segment is a
/// multiple of.
pub const SEGMENT_SIZE: usize = 0x10000;

/// The bytes of a compact header.
pub const COMPACT_HEADER_SIZE: usize = 16;

/// The bytes of the header at the start of the body of a segment.
pub const ADDITIONAL_HEADER_SIZE: usize = 24;

/// The bytes of a word of a bitmap.
pub const BITMAP_ITEM_SIZE: usize = 8;

pub const BITMAP_ITEM_BIT_SIZE: usize = 64;

/// The bits of a word of a bitmap that stand for no block.
pub const BITMAP_ITEM_SP_BIT_SIZE: usize = 1;

/// The bits of a word of a bitmap that stand for blocks.
pub const BITMAP_ITEM_EFF_BIT_SIZE: usize = 63;

/// The bytes of one sub-bitmap: as many words as a word has effective bits.
pub const SUB_BITMAP_UNIT_SIZE: usize = 504;

/// Set in the low bits of a `next` link while the pages of the segment are
/// committed.
pub const COMMITTED_FLAG: usize = 1;

/// Set in the low bits of a `next` link while the contents of the body may
/// have been discarded.
pub const SOFT_DECOMMITTED_FLAG: usize = 2;

pub const LINK_FLAGS_MASK: usize = 3;

/// The list that a segment is linked into.
pub enum Owner {
    Nobody,
    SubHeap(int),
    KeepList,
    FreeList,
}

/// The header of a segment that stands in the dense table beside the arena.
#[derive(Debug, Clone, Copy, PartialEq, Eq, Structural)]
pub struct CompactHeader {
    /// The address of the next compact header of the list, with
    /// `COMMITTED_FLAG` and `SOFT_DECOMMITTED_FLAG` in its two low bits.
    pub next: usize,
    /// Bit `u` says that sub-bitmap `u` has a free block.  Where the class
    /// has no sub-bitmap, bits 1 to 63 say which blocks are used.
    pub bitmap: u64,
}

/// The header of a segment that stands at the start of its body.
#[derive(Debug, Clone, Copy, PartialEq, Eq, Structural)]
pub struct AdditionalHeader {
    pub prev: usize,
    pub subheap_class: usize,
    pub used_block_count: usize,
}

/// The number of sub-bitmaps that precede the blocks of a class.
pub open spec fn spec_sub_bitmap_size_of_class(class: int) -> int {
    let block_size = spec_units_of_class(class) * ALIGNMENT_SIZE;
    let block_space_size = SEGMENT_SIZE - ADDITIONAL_HEADER_SIZE;
    if block_space_size <= block_size * BITMAP_ITEM_EFF_BIT_SIZE {
        0
    } else {
        (block_space_size - 1) / ((block_size * BITMAP_ITEM_EFF_BIT_SIZE + BITMAP_ITEM_SIZE)
            * BITMAP_ITEM_EFF_BIT_SIZE) + 1
    }
}

/// The number of blocks that a segment of a class holds.
pub open spec fn spec_block_count_of_class(class: int) -> int {
    let block_size = spec_units_of_class(class) * ALIGNMENT_SIZE;
    let block_space_size = SEGMENT_SIZE - ADDITIONAL_HEADER_SIZE - SUB_BITMAP_UNIT_SIZE
        * spec_sub_bitmap_size_of_class(class);
    block_space_size / block_size
}

/// The offset of the first block from the start of the segment.
pub open spec fn spec_block_space_offset(class: int) -> int {
    ADDITIONAL_HEADER_SIZE + SUB_BITMAP_UNIT_SIZE * spec_sub_bitmap_size_of_class(class)
}

/// The number of words that hold the used bits of a class: the words of its
/// sub-bitmaps, or the one word of the compact header where it has none.
pub open spec fn spec_word_count_of_class(class: int) -> int {
    if spec_sub_bitmap_size_of_class(class) == 0 {
        1
    } else {
        BITMAP_ITEM_EFF_BIT_SIZE * spec_sub_bitmap_size_of_class(class)
    }
}

/// A row of the table of layouts: the block size, the number of sub-bitmaps
/// and the number of blocks of a class.
proof fn lemma_layout_row(class: int, block_size: int, sub_bitmaps: int, block_count: int)
    requires
        0 <= class < CLASS_COUNT,
        block_size == spec_units_of_class(class) * ALIGNMENT_SIZE,
        0 <= sub_bitmaps <= 3,
        sub_bitmaps == 0 ==> 65512 <= block_size * 63,
        sub_bitmaps > 0 ==> {
            &&& 65512 > block_size * 63
            &&& (sub_bitmaps - 1) * ((block_size * 63 + 8) * 63) <= 65511 < sub_bitmaps * ((
            block_size * 63 + 8) * 63)
        },
        3 <= block_count,
        block_count * block_size <= 65512 - 504 * sub_bitmaps < (block_count + 1) * block_size,
        3969 * (sub_bitmaps - 1) < block_count <= 63 * (if sub_bitmaps == 0 {
            1
        } else {
            63 * sub_bitmaps
        }),
    ensures
        spec_sub_bitmap_size_of_class(class) == sub_bitmaps,
        spec_block_count_of_class(class) == block_count,
        spec_block_space_offset(class) + spec_block_count_of_class(class) * (spec_units_of_class(
            class,
        ) * ALIGNMENT_SIZE) <= SEGMENT_SIZE,
        spec_block_count_of_class(class) <= BITMAP_ITEM_EFF_BIT_SIZE * spec_word_count_of_class(
            class,
        ),
{
    let unit = (block_size * 63 + 8) * 63;
    assert(unit == (block_size * BITMAP_ITEM_EFF_BIT_SIZE + BITMAP_ITEM_SIZE)
        * BITMAP_ITEM_EFF_BIT_SIZE);
    if sub_bitmaps > 0 {
        assert(0 < unit) by (nonlinear_arith)
            requires
                unit == (block_size * 63 + 8) * 63,
                0 < block_size,
        ;
        assert(sub_bitmaps * unit == (sub_bitmaps - 1) * unit + unit) by (nonlinear_arith);
        vstd::arithmetic::div_mod::lemma_fundamental_div_mod_converse(
            65511,
            unit,
            sub_bitmaps - 1,
            65511 - (sub_bitmaps - 1) * unit,
        );
    }
    assert(spec_sub_bitmap_size_of_class(class) == sub_bitmaps);
    assert((block_count + 1) * block_size == block_count * block_size + block_size)
        by (nonlinear_arith);
    vstd::arithmetic::div_mod::lemma_fundamental_div_mod_converse(
        65512 - 504 * sub_bitmaps,
        block_size,
        block_count,
        65512 - 504 * sub_bitmaps - block_count * block_size,
    );
}

/// The layout of every class fits its segment: the header, the sub-bitmaps
/// and the blocks end within the segment, each block has a bit, and there
/// are at least three blocks.
pub proof fn lemma_layout_of_class(class: int)
    requires
        0 <= class < CLASS_COUNT,
    ensures
        0 <= spec_sub_bitmap_size_of_class(class) <= 3,
        3969 * (spec_sub_bitmap_size_of_class(class) - 1) < spec_block_count_of_class(class),
        3 <= spec_block_count_of_class(class),
        spec_block_space_offset(class) + spec_block_count_of_class(class) * (spec_units_of_class(
            class,
        ) * ALIGNMENT_SIZE) <= SEGMENT_SIZE,
        spec_block_count_of_class(class) <= BITMAP_ITEM_EFF_BIT_SIZE * spec_word_count_of_class(
            class,
        ),
{
    if class == 0 {
        lemma_layout_row(0, 8, 3, 8000);
    } else if class == 1 {
        lemma_layout_row(1, 16, 2, 4031);
    } else if class == 2 {
        lemma_layout_row(2, 24, 1, 2708);
    } else if class == 3 {
        lemma_layout_row(3, 32, 1, 2031);
    } else if class == 4 {
        lemma_layout_row(4, 48, 1, 1354);
    } else if class == 5 {
        lemma_layout_row(5, 64, 1, 1015);
    } else if class == 6 {
        lemma_layout_row(6, 80, 1, 812);
    } else if class == 7 {
        lemma_layout_row(7, 96, 1, 677);
    } else if class == 8 {
        lemma_layout_row(8, 112, 1, 580);
    } else if class == 9 {
        lemma_layout_row(9, 128, 1, 507);
    } else if class == 10 {
        lemma_layout_row(10, 256, 1, 253);
    } else if class == 11 {
        lemma_layout_row(11, 384, 1, 169);
    } else if class == 12 {
        lemma_layout_row(12, 512, 1, 126);
    } else if class == 13 {
        lemma_layout_row(13, 640, 1, 101);
    } else if class == 14 {
        lemma_layout_row(14, 768, 1, 84);
    } else if class == 15 {
        lemma_layout_row(15, 896, 1, 72);
    } else if class == 16 {
        lemma_layout_row(16, 1024, 1, 63);
    } else if class == 17 {
        lemma_layout_row(17, 1152, 0, 56);
    } else if class == 18 {
        lemma_layout_row(18, 1280, 0, 51);
    } else if class == 19 {
        lemma_layout_row(19, 1408, 0, 46);
    } else if class == 20 {
        lemma_layout_row(20, 1536, 0, 42);
    } else if class == 21 {
        lemma_layout_row(21, 1664, 0, 39);
    } else if class == 22 {
        lemma_layout_row(22, 1792, 0, 36);
    } else if class == 23 {
        lemma_layout_row(23, 1920, 0, 34);
    } else if class == 24 {
        lemma_layout_row(24, 2048, 0, 31);
    } else if class == 25 {
        lemma_layout_row(25, 4096, 0, 15);
    } else if class == 26 {
        lemma_layout_row(26, 6144, 0, 10);
    } else if class == 27 {
        lemma_layout_row(27, 8192, 0, 7);
    } else if class == 28 {
        lemma_layout_row(28, 10240, 0, 6);
    } else if class == 29 {
        lemma_layout_row(29, 12288, 0, 5);
    } else if class == 30 {
        lemma_layout_row(30, 14336, 0, 4);
    } else {
        lemma_layout_row(31, 16384, 0, 3);
    }
}

/// The number of sub-bitmaps that precede the blocks of a class.
pub fn sub_bitmap_size_of_class(class_of_size: usize) -> (size: usize)
    requires
        class_of_size < CLASS_COUNT,
    ensures
        size == spec_sub_bitmap_size_of_class(class_of_size as int),
{
    let block_size = size_of_class(class_of_size);
    let block_space_size = SEGMENT_SIZE - ADDITIONAL_HEADER_SIZE;

    if block_space_size <= block_size * BITMAP_ITEM_EFF_BIT_SIZE {
        0
    } else {
        proof {
            lemma_layout_of_class(class_of_size as int);
        }
        ((block_space_size - 1) / ((block_size * BITMAP_ITEM_EFF_BIT_SIZE + BITMAP_ITEM_SIZE)
            * BITMAP_ITEM_EFF_BIT_SIZE)) + 1
    }
}

/// The number of blocks that a segment of a class holds.
pub fn block_count_of_class(class_of_size: usize) -> (count: usize)
    requires
        class_of_size < CLASS_COUNT,
    ensures
        count == spec_block_count_of_class(class_of_size as int),
{
    proof {
        lemma_layout_of_class(class_of_size as int);
    }
    let block_size = size_of_class(class_of_size);
    let sub_bitmap_size = sub_bitmap_size_of_class(class_of_size);
    let segment_available_size = SEGMENT_SIZE - ADDITIONAL_HEADER_SIZE;
    let block_space_size = segment_available_size - SUB_BITMAP_UNIT_SIZE * sub_bitmap_size;

    block_space_size / block_size
}

proof fn lemma_link_with_flags(link: usize, flags: usize)
    by (bit_vector)
    requires
        link & 3 == 0,
    ensures
        (link | (flags & 3)) & !3usize == link,
        (link | (flags & 3)) & 3 == flags & 3,
        (link | (flags & 3)) & 1 == flags & 1,
        (link | (flags & 3)) & 2 == flags & 2,
{
}

proof fn lemma_link_flag_bits(link: usize)
    by (bit_vector)
    ensures
        (link | 1) & !3usize == link & !3usize,
        (link | 1) & 1 == 1,
        (link | 1) & 2 == link & 2,
        (link | 2) & !3usize == link & !3usize,
        (link | 2) & 2 == 2,
        (link | 2) & 1 == link & 1,
        (link & !2usize) & !3usize == link & !3usize,
        (link & !2usize) & 2 == 0,
        (link & !2usize) & 1 == link & 1,
        (link & !3usize) & 3 == 0,
        link & 3 == 0 <==> link % 4 == 0,
        0usize & !3usize == 0,
        0usize & 1 == 0,
        0usize & 2 == 0,
        link & !3usize <= link,
{
}

/// One segment: where its two headers stand, and what they hold.
pub struct Segment {
    pub compact_header_ptr: AnyNonNullPtr,
    pub additional_header_ptr: AnyNonNullPtr,
    pub compact_header: CompactHeader,
    pub additional_header: AdditionalHeader,
    /// The words of the sub-bitmaps that stand between the additional header
    /// and the blocks.  Bit 0 of each word is its special bit; bits 1 to 63
    /// say which blocks are used.
    pub sub_bitmaps: Vec<u64>,
    pub owner: Ghost<Owner>,
}

impl Segment {
    /// The address of the compact header that follows this one in its list,
    /// or zero.
    pub open spec fn spec_next(&self) -> usize {
        self.compact_header.next & !LINK_FLAGS_MASK
    }

    /// The address of the compact header that precedes this one in its list,
    /// or zero.
    pub open spec fn spec_prev(&self) -> usize {
        self.additional_header.prev
    }

    pub open spec fn spec_is_committed(&self) -> bool {
        self.compact_header.next & COMMITTED_FLAG == COMMITTED_FLAG
    }

    pub open spec fn spec_is_soft_decommitted(&self) -> bool {
        self.compact_header.next & SOFT_DECOMMITTED_FLAG == SOFT_DECOMMITTED_FLAG
    }

    pub open spec fn spec_is_floated(&self) -> bool {
        self.spec_next() == 0 && self.spec_prev() == 0
    }

    pub open spec fn class(&self) -> int {
        self.additional_header.subheap_class as int
    }

    pub open spec fn spec_block_size(&self) -> int {
        spec_units_of_class(self.class()) * ALIGNMENT_SIZE
    }

    pub open spec fn spec_block_count(&self) -> int {
        spec_block_count_of_class(self.class())
    }

    /// The address of block `index`.
    pub open spec fn spec_block_addr(&self, index: int) -> int {
        self.additional_header_ptr.raw + spec_block_space_offset(self.class())
            + self.spec_block_size() * index
    }

    pub open spec fn spec_sub_bitmap_size(&self) -> int {
        spec_sub_bitmap_size_of_class(self.class())
    }

    /// Word `index` of the words that hold the used bits.
    pub open spec fn word(&self, index: int) -> u64 {
        if self.spec_sub_bitmap_size() == 0 {
            self.compact_header.bitmap
        } else {
            self.sub_bitmaps@[index]
        }
    }

    /// Whether block `index` is handed out.
    pub open spec fn block_used(&self, index: int) -> bool {
        bit_is_set(self.word(index / 63), index % 63 + 1)
    }

    /// The blocks that are handed out.
    pub open spec fn used_blocks(&self) -> Set<int> {
        Set::new(|index: int| 0 <= index < self.spec_block_count() && self.block_used(index))
    }

    /// Whether one of the effective bits of word `index` is clear.
    pub open spec fn word_has_room(&self, index: int) -> bool {
        exists|bit: int| 1 <= bit < 64 && !#[trigger] bit_is_set(self.word(index), bit)
    }

    /// Whether one of the words of sub-bitmap `unit` has room.
    pub open spec fn unit_has_room(&self, unit: int) -> bool {
        exists|index: int| 63 * unit <= index < 63 * unit + 63
            && #[trigger] self.word_has_room(index)
    }

    /// The segment is laid out for its class: the bitmaps have the size of
    /// the class, the bits that stand for no block are set, the summary bits
    /// of the compact header say which sub-bitmaps have room, and the used
    /// count is the number of used blocks.
    pub open spec fn is_initialized(&self) -> bool {
        &&& 0 <= self.class() < CLASS_COUNT
        &&& self.sub_bitmaps@.len() == 63 * self.spec_sub_bitmap_size()
        &&& self.used_blocks().finite()
        &&& self.used_blocks().len() == self.additional_header.used_block_count
        &&& forall|index: int|
            self.spec_block_count() <= index < 63 * spec_word_count_of_class(self.class())
                ==> #[trigger] self.block_used(index)
        &&& if self.spec_sub_bitmap_size() == 0 {
            bit_is_set(self.compact_header.bitmap, 0) == self.word_has_room(0)
        } else {
            &&& forall|index: int|
                0 <= index < self.sub_bitmaps@.len() ==> bit_is_set(
                    #[trigger] self.sub_bitmaps@[index],
                    0,
                )
            &&& forall|unit: int| #[trigger]
                bit_is_set(self.compact_header.bitmap, unit) == (0 <= unit
                    < self.spec_sub_bitmap_size() && self.unit_has_room(unit))
        }
    }

    /// A segment is well formed when it is blank or laid out for a class.
    pub open spec fn wf(&self) -> bool {
        self.is_blank() || self.is_initialized()
    }

    /// Well-formedness does not look at the links, the flags or the owner.
    pub proof fn lemma_same_blocks(&self, other: &Segment)
        requires
            self.same_blocks(other),
        ensures
            self.is_blank() == other.is_blank(),
            self.is_initialized() == other.is_initialized(),
            self.wf() == other.wf(),
            self.used_blocks() == other.used_blocks(),
    {
        assert forall|index: int| self.word(index) == other.word(index) by {}
        assert forall|index: int| self.block_used(index) == other.block_used(index) by {}
        assert(self.used_blocks() =~= other.used_blocks());
        assert forall|index: int| self.word_has_room(index) == other.word_has_room(index) by {
            if self.word_has_room(index) {
                let b = choose|b: int| 1 <= b < 64 && !#[trigger] bit_is_set(self.word(index), b);
                assert(!bit_is_set(other.word(index), b));
            }
            if other.word_has_room(index) {
                let b = choose|b: int| 1 <= b < 64 && !#[trigger] bit_is_set(other.word(index), b);
                assert(!bit_is_set(self.word(index), b));
            }
        }
        assert forall|unit: int| self.unit_has_room(unit) == other.unit_has_room(unit) by {
            self.lemma_same_words_same_room(other, unit);
        }
    }

    /// Two segments of one class with the same used blocks agree on each
    /// block.
    pub proof fn lemma_same_used_blocks(&self, other: &Segment, index: int)
        requires
            self.class() == other.class(),
            self.used_blocks() == other.used_blocks(),
            0 <= index < self.spec_block_count(),
        ensures
            self.block_used(index) == other.block_used(index),
    {
        assert(self.used_blocks().contains(index) == self.block_used(index));
        assert(other.used_blocks().contains(index) == other.block_used(index));
    }

    /// The used blocks are among the blocks of the class.
    pub proof fn lemma_used_blocks_bound(&self)
        requires
            0 <= self.class() < CLASS_COUNT,
        ensures
            self.used_blocks().finite(),
            self.used_blocks().len() <= self.spec_block_count(),
            (forall|index: int| 0 <= index < self.spec_block_count() ==> self.block_used(index))
                ==> self.used_blocks().len() == self.spec_block_count(),
            (exists|index: int| 0 <= index < self.spec_block_count() && !self.block_used(index))
                ==> self.used_blocks().len() < self.spec_block_count(),
    {
        lemma_layout_of_class(self.class());
        let count = self.spec_block_count();
        let all = set_int_range(0, count);
        lemma_int_range(0, count);
        assert(self.used_blocks().subset_of(all));
        lemma_len_subset(self.used_blocks(), all);
        if forall|index: int| 0 <= index < count ==> self.block_used(index) {
            assert(self.used_blocks() =~= all);
        }
        if exists|index: int| 0 <= index < count && !self.block_used(index) {
            let free = choose|index: int| 0 <= index < count && !self.block_used(index);
            assert(self.used_blocks().subset_of(all.remove(free)));
            lemma_len_subset(self.used_blocks(), all.remove(free));
        }
    }

    /// A free block makes the used count fall short of the block count, and
    /// its word has room.
    pub proof fn lemma_free_block_is_room(&self, block: int)
        requires
            self.is_initialized(),
            0 <= block < self.spec_block_count(),
            !self.block_used(block),
        ensures
            self.word_has_room(block / 63),
            0 <= block / 63 < spec_word_count_of_class(self.class()),
            self.additional_header.used_block_count < self.spec_block_count(),
    {
        lemma_layout_of_class(self.class());
        self.lemma_used_blocks_bound();
        assert(!bit_is_set(self.word(block / 63), block % 63 + 1));
    }

    /// The segment that the block around `block_ptr` belongs to, by the
    /// address of its compact header, and the index of the block.
    #[inline]
    pub fn from_block_ptr(seg_space: &SegmentSpace, block_ptr: AnyNonNullPtr) -> (found: (
        AnyNonNullPtr,
        usize,
    ))
        requires
            seg_space.wf(),
            exists|seg_index: int| #[trigger]
                seg_space.is_in_block_space(block_ptr.raw as int, seg_index),
        ensures
            seg_space.is_header_addr(found.0.raw as int),
            seg_space.is_in_block_space(
                block_ptr.raw as int,
                seg_space.spec_index_of_header(found.0.raw as int),
            ),
            found.0.raw == seg_space.spec_header_addr(
                (block_ptr.raw - seg_space.segment_space_begin.raw) / (SEGMENT_SIZE as int),
            ),
            found.1 < seg_space.spec_segment(found.0).spec_block_count(),
            found.1 == (block_ptr.raw - seg_space.spec_segment(found.0).spec_block_addr(0))
                / seg_space.spec_segment(found.0).spec_block_size(),
            seg_space.spec_segment(found.0).spec_block_addr(found.1 as int) <= block_ptr.raw
                < seg_space.spec_segment(found.0).spec_block_addr(found.1 as int)
                + seg_space.spec_segment(found.0).spec_block_size(),
    {
        let ghost seg_index = choose|seg_index: int| #[trigger]
            seg_space.is_in_block_space(block_ptr.raw as int, seg_index);
        let ghost seg = seg_space.segments@[seg_index];
        proof {
            seg_space.lemma_header_addr(seg_index);
            lemma_layout_of_class(seg.class());
            assert(seg.spec_block_size() * 0 == 0);
            crate::util::bits::lemma_max_aligned_size(block_ptr.raw as int, SEGMENT_SIZE as int);
            let begin = seg_space.segment_space_begin.raw as int;
            vstd::arithmetic::div_mod::lemma_fundamental_div_mod(begin, SEGMENT_SIZE as int);
            vstd::arithmetic::div_mod::lemma_fundamental_div_mod_converse(
                block_ptr.raw as int,
                SEGMENT_SIZE as int,
                begin / (SEGMENT_SIZE as int) + seg_index,
                block_ptr.raw - seg_space.spec_segment_addr(seg_index),
            );
            vstd::arithmetic::div_mod::lemma_fundamental_div_mod_converse(
                block_ptr.raw - begin,
                SEGMENT_SIZE as int,
                seg_index,
                block_ptr.raw - seg_space.spec_segment_addr(seg_index),
            );
        }
        let seg_addr = max_aligned_size(block_ptr.as_addr(), SEGMENT_SIZE);
        let at = (seg_addr - seg_space.segment_space_begin.as_addr()) / SEGMENT_SIZE;
        assert(at == seg_index);
        let seg = &seg_space.segments[at];
        let block_space_begin = seg.block_space_begin();
        let size = seg.block_size();
        let behind = block_ptr.as_addr() - block_space_begin.as_addr();
        let block_index = behind / size;
        proof {
            let count = seg.spec_block_count();
            vstd::arithmetic::div_mod::lemma_fundamental_div_mod(behind as int, size as int);
            assert(block_index < count) by (nonlinear_arith)
                requires
                    behind == size * block_index + behind % size,
                    0 <= behind % size,
                    behind < size * count,
                    0 < size,
            ;
        }

        (seg.compact_header_ptr(), block_index)
    }

    /// Whether the segment is laid out for a class.
    pub fn is_laid_out(&self) -> (laid_out: bool)
        requires
            self.wf(),
        ensures
            laid_out == self.is_initialized(),
    {
        proof {
            lemma_layout_of_class(0);
        }
        self.additional_header.subheap_class < CLASS_COUNT && self.sub_bitmaps.len()
            == BITMAP_ITEM_EFF_BIT_SIZE * sub_bitmap_size_of_class(
            self.additional_header.subheap_class,
        )
    }

    /// Whether block `index` is handed out.
    pub fn is_block_used(&self, index: usize) -> (used: bool)
        requires
            self.is_initialized(),
            index < self.spec_block_count(),
        ensures
            used == self.block_used(index as int),
    {
        proof {
            lemma_layout_of_class(self.class());
        }
        let word_index = index / BITMAP_ITEM_EFF_BIT_SIZE;
        let bit = index % BITMAP_ITEM_EFF_BIT_SIZE + 1;
        if self.sub_bitmaps.len() == 0 {
            test_bit(self.compact_header.bitmap, bit)
        } else {
            test_bit(self.sub_bitmaps[word_index], bit)
        }
    }

    /// The lowest block that is free, or none where every block is used.
    pub fn find_free_block(&self) -> (found: Option<usize>)
        requires
            self.is_initialized(),
        ensures
            match found {
                Some(index) => {
                    &&& index < self.spec_block_count()
                    &&& !self.block_used(index as int)
                    &&& forall|lower: int| 0 <= lower < index ==> self.block_used(lower)
                },
                None => self.additional_header.used_block_count == self.spec_block_count(),
            },
            found.is_some() <==> self.additional_header.used_block_count < self.spec_block_count(),
    {
        proof {
            lemma_layout_of_class(self.class());
            self.lemma_used_blocks_bound();
        }
        if self.sub_bitmaps.len() == 0 {
            let word = with_bit_set(self.compact_header.bitmap, 0);
            match lowest_clear_bit(word) {
                None => {
                    proof {
                        assert forall|index: int| 0 <= index < self.spec_block_count()
                            implies self.block_used(
                            index,
                        ) by {
                            lemma_full_word_bits(index % 63 + 1);
                        }
                    }
                    None
                },
                Some(bit) => {
                    let index = bit - 1;
                    proof {
                        assert(!self.block_used(index as int));
                        assert forall|lower: int| 0 <= lower < index implies self.block_used(
                            lower,
                        ) by {
                            assert(bit_is_set(word, lower + 1));
                        }
                    }
                    Some(index)
                },
            }
        } else {
            let unit = match lowest_set_bit(self.compact_header.bitmap) {
                None => {
                    proof {
                        assert forall|index: int| 0 <= index < self.spec_block_count()
                            implies self.block_used(
                            index,
                        ) by {
                            if !self.block_used(index) {
                                self.lemma_free_block_is_room(index);
                                let unit = index / 63 / 63;
                                assert(63 * unit <= index / 63 < 63 * unit + 63);
                                assert(self.unit_has_room(unit));
                                assert(bit_is_set(self.compact_header.bitmap, unit));
                                crate::internal::layout::bitmap::lemma_zero_word_bits(unit);
                            }
                        }
                    }
                    return None;
                },
                Some(unit) => unit,
            };
            let first = unit * BITMAP_ITEM_EFF_BIT_SIZE;
            let mut offset: usize = 0;
            while offset < BITMAP_ITEM_EFF_BIT_SIZE
                invariant
                    self.is_initialized(),
                    self.spec_sub_bitmap_size() != 0,
                    0 <= unit < self.spec_sub_bitmap_size() <= 3,
                    first == 63 * unit,
                    offset <= 63,
                    forall|index: int|
                        first <= index < first + offset ==> !#[trigger] self.word_has_room(index),
                    forall|lower: int|
                        0 <= lower < unit ==> !#[trigger] bit_is_set(
                            self.compact_header.bitmap,
                            lower,
                        ),
                decreases 63 - offset,
            {
                let word_index = first + offset;
                let word = self.sub_bitmaps[word_index];
                match lowest_clear_bit(word) {
                    None => {
                        proof {
                            assert forall|bit: int| 1 <= bit < 64 implies bit_is_set(
                                self.word(word_index as int),
                                bit,
                            ) by {
                                lemma_full_word_bits(bit);
                            }
                        }
                    },
                    Some(bit) => {
                        assert(bit_is_set(self.sub_bitmaps@[word_index as int], 0));
                        let index = word_index * BITMAP_ITEM_EFF_BIT_SIZE + (bit - 1);
                        proof {
                            assert(index as int / 63 == word_index && index as int % 63 + 1 == bit);
                            assert(!self.block_used(index as int));
                            self.lemma_free_block_is_room(index as int);
                            assert forall|lower: int| 0 <= lower < index implies self.block_used(
                                lower,
                            ) by {
                                let lower_word = lower / 63;
                                let lower_bit = lower % 63 + 1;
                                if lower_word == word_index {
                                } else if lower_word >= first {
                                    assert(!self.word_has_room(lower_word));
                                } else {
                                    let lower_unit = lower_word / 63;
                                    assert(!bit_is_set(self.compact_header.bitmap, lower_unit));
                                    assert(!self.unit_has_room(lower_unit));
                                    assert(!self.word_has_room(lower_word));
                                }
                            }
                        }
                        return Some(index);
                    },
                }
                offset += 1;
            }
            proof {
                assert(self.unit_has_room(unit as int));
                assert(false);
            }
            None
        }
    }

    /// What marking and freeing a block leave alone: where the headers
    /// stand, the class, the links, the flags and the owner.
    pub open spec fn same_frame(&self, other: &Segment) -> bool {
        &&& self.compact_header_ptr == other.compact_header_ptr
        &&& self.additional_header_ptr == other.additional_header_ptr
        &&& self.compact_header.next == other.compact_header.next
        &&& self.additional_header.prev == other.additional_header.prev
        &&& self.additional_header.subheap_class == other.additional_header.subheap_class
        &&& self.owner@ == other.owner@
    }

    /// A word that is not full and whose special bit is set has room.
    proof fn lemma_word_not_full(&self, index: int)
        requires
            self.word(index) != FULL_WORD,
            bit_is_set(self.word(index), 0),
        ensures
            self.word_has_room(index),
    {
        if !self.word_has_room(index) {
            assert forall|bit: int| 0 <= bit < 64 implies bit_is_set(self.word(index), bit) by {
                if bit >= 1 {
                    assert(!(1 <= bit < 64 && !bit_is_set(self.word(index), bit)));
                }
            }
            crate::internal::layout::bitmap::lemma_all_bits_set(self.word(index));
        }
    }

    /// Whether every word of sub-bitmap `unit` is full.
    fn unit_is_full(&self, unit: usize) -> (full: bool)
        requires
            self.spec_sub_bitmap_size() != 0,
            self.sub_bitmaps@.len() == 63 * self.spec_sub_bitmap_size(),
            unit < self.spec_sub_bitmap_size() <= 3,
            forall|index: int|
                0 <= index < self.sub_bitmaps@.len() ==> bit_is_set(
                    #[trigger] self.sub_bitmaps@[index],
                    0,
                ),
        ensures
            full == !self.unit_has_room(unit as int),
    {
        let first = unit * BITMAP_ITEM_EFF_BIT_SIZE;
        let mut offset: usize = 0;
        while offset < BITMAP_ITEM_EFF_BIT_SIZE
            invariant
                self.spec_sub_bitmap_size() != 0,
                self.sub_bitmaps@.len() == 63 * self.spec_sub_bitmap_size(),
                unit < self.spec_sub_bitmap_size() <= 3,
                first == 63 * unit,
                offset <= 63,
                forall|index: int|
                    0 <= index < self.sub_bitmaps@.len() ==> bit_is_set(
                        #[trigger] self.sub_bitmaps@[index],
                        0,
                    ),
                forall|index: int|
                    first <= index < first + offset ==> !#[trigger] self.word_has_room(index),
            decreases 63 - offset,
        {
            let word_index = first + offset;
            if self.sub_bitmaps[word_index] != FULL_WORD {
                proof {
                    self.lemma_word_not_full(word_index as int);
                    assert(self.unit_has_room(unit as int));
                }
                return false;
            }
            proof {
                assert forall|bit: int| 1 <= bit < 64 implies bit_is_set(
                    self.word(word_index as int),
                    bit,
                ) by {
                    lemma_full_word_bits(bit);
                }
            }
            offset += 1;
        }
        true
    }

    /// Two segments whose words of sub-bitmap `unit` agree have room in it
    /// together.
    proof fn lemma_same_words_same_room(&self, other: &Segment, unit: int)
        requires
            forall|index: int|
                63 * unit <= index < 63 * unit + 63 ==> self.word(index) == other.word(index),
        ensures
            self.unit_has_room(unit) == other.unit_has_room(unit),
    {
        if self.unit_has_room(unit) {
            let w = choose|w: int|
                63 * unit <= w < 63 * unit + 63 && #[trigger] self.word_has_room(w);
            let b = choose|b: int| 1 <= b < 64 && !#[trigger] bit_is_set(self.word(w), b);
            assert(!bit_is_set(other.word(w), b));
            assert(other.word_has_room(w));
        }
        if other.unit_has_room(unit) {
            let w = choose|w: int|
                63 * unit <= w < 63 * unit + 63 && #[trigger] other.word_has_room(w);
            let b = choose|b: int| 1 <= b < 64 && !#[trigger] bit_is_set(other.word(w), b);
            assert(!bit_is_set(self.word(w), b));
            assert(self.word_has_room(w));
        }
    }

    /// Hands block `index` out, and says whether the segment is full now.
    pub fn mark_block_and_check_full(&mut self, index: usize) -> (full: bool)
        requires
            old(self).is_initialized(),
            index < old(self).spec_block_count(),
            !old(self).block_used(index as int),
        ensures
            final(self).is_initialized(),
            final(self).same_frame(old(self)),
            final(self).used_blocks() == old(self).used_blocks().insert(index as int),
            final(self).additional_header.used_block_count == old(
                self,
            ).additional_header.used_block_count + 1,
            full == (final(self).additional_header.used_block_count == final(
                self
            ).spec_block_count()),
    {
        proof {
            lemma_layout_of_class(self.class());
            self.lemma_free_block_is_room(index as int);
        }
        self.additional_header.used_block_count += 1;
        let word_index = index / BITMAP_ITEM_EFF_BIT_SIZE;
        let bit = index % BITMAP_ITEM_EFF_BIT_SIZE + 1;
        if self.sub_bitmaps.len() == 0 {
            let marked = with_bit_set(self.compact_header.bitmap, bit);
            let checked = with_bit_set(marked, 0);
            if checked == FULL_WORD {
                self.compact_header.bitmap = with_bit_cleared(marked, 0);
                proof {
                    assert forall|other: int| 1 <= other < 64 implies bit_is_set(
                        self.compact_header.bitmap,
                        other,
                    ) by {
                        lemma_full_word_bits(other);
                    }
                }
            } else {
                self.compact_header.bitmap = marked;
                proof {
                    if !self.word_has_room(0) {
                        assert forall|other: int| 0 <= other < 64 implies bit_is_set(
                            checked,
                            other,
                        ) by {
                            if other >= 1 {
                                assert(bit_is_set(self.word(0), other));
                            }
                        }
                        crate::internal::layout::bitmap::lemma_all_bits_set(checked);
                    }
                }
            }
        } else {
            let marked = with_bit_set(self.sub_bitmaps[word_index], bit);
            self.sub_bitmaps[word_index] = marked;
            let unit = word_index / BITMAP_ITEM_EFF_BIT_SIZE;
            let ghost filled = *self;
            let unit_full = marked == FULL_WORD && self.unit_is_full(unit);
            if unit_full {
                self.compact_header.bitmap = with_bit_cleared(self.compact_header.bitmap, unit);
            }
            proof {
                if marked != FULL_WORD {
                    filled.lemma_word_not_full(word_index as int);
                    assert(filled.unit_has_room(unit as int));
                }
                assert(old(self).unit_has_room(unit as int));
                assert forall|other: int| #[trigger]
                    bit_is_set(self.compact_header.bitmap, other) == (0 <= other
                        < self.spec_sub_bitmap_size() && self.unit_has_room(other)) by {
                    if 0 <= other < self.spec_sub_bitmap_size() {
                        self.lemma_same_words_same_room(&filled, other);
                        if other != unit {
                            filled.lemma_same_words_same_room(old(self), other);
                        }
                    }
                }
            }
        }
        proof {
            assert forall|other: int| 0 <= other < 63 * spec_word_count_of_class(self.class())
                implies (#[trigger] self.block_used(other)) == (other == index
                    || old(self).block_used(
                other,
            )) by {
                if other / 63 == word_index {
                    assert(other % 63 + 1 == bit <==> other == index);
                }
            }
            assert(self.used_blocks() =~= old(self).used_blocks().insert(index as int));
            old(self).lemma_used_blocks_bound();
        }
        self.additional_header.used_block_count == block_count_of_class(
            self.additional_header.subheap_class,
        )
    }

    /// Takes block `index` back, and says whether the segment is empty now.
    pub fn free_block_and_check_empty(&mut self, index: usize) -> (empty: bool)
        requires
            old(self).is_initialized(),
            index < old(self).spec_block_count(),
            old(self).block_used(index as int),
        ensures
            final(self).is_initialized(),
            final(self).same_frame(old(self)),
            final(self).used_blocks() == old(self).used_blocks().remove(index as int),
            final(self).additional_header.used_block_count == old(
                self,
            ).additional_header.used_block_count - 1,
            empty == (final(self).additional_header.used_block_count == 0),
    {
        proof {
            lemma_layout_of_class(self.class());
            old(self).lemma_used_blocks_bound();
            assert(self.used_blocks().contains(index as int));
            assert(self.used_blocks().len() != 0) by {
                if self.used_blocks().len() == 0 {
                    assert(self.used_blocks() =~= Set::empty());
                }
            }
        }
        self.additional_header.used_block_count -= 1;
        let word_index = index / BITMAP_ITEM_EFF_BIT_SIZE;
        let bit = index % BITMAP_ITEM_EFF_BIT_SIZE + 1;
        if self.sub_bitmaps.len() == 0 {
            let cleared = with_bit_cleared(self.compact_header.bitmap, bit);
            self.compact_header.bitmap = with_bit_set(cleared, 0);
            proof {
                assert(!bit_is_set(self.word(0), bit as int));
            }
        } else {
            let cleared = with_bit_cleared(self.sub_bitmaps[word_index], bit);
            self.sub_bitmaps[word_index] = cleared;
            let unit = word_index / BITMAP_ITEM_EFF_BIT_SIZE;
            let ghost emptied = *self;
            self.compact_header.bitmap = with_bit_set(self.compact_header.bitmap, unit);
            proof {
                assert(!bit_is_set(emptied.word(word_index as int), bit as int));
                assert(emptied.word_has_room(word_index as int));
                assert(emptied.unit_has_room(unit as int));
                assert forall|other: int| #[trigger]
                    bit_is_set(self.compact_header.bitmap, other) == (0 <= other
                        < self.spec_sub_bitmap_size() && self.unit_has_room(other)) by {
                    if 0 <= other < self.spec_sub_bitmap_size() {
                        self.lemma_same_words_same_room(&emptied, other);
                        if other != unit {
                            emptied.lemma_same_words_same_room(old(self), other);
                        }
                    }
                }
            }
        }
        proof {
            assert forall|other: int| 0 <= other < 63 * spec_word_count_of_class(self.class())
                implies (#[trigger] self.block_used(other)) == (other != index
                    && old(self).block_used(
                other,
            )) by {
                if other / 63 == word_index {
                    assert(other % 63 + 1 == bit <==> other == index);
                }
            }
            assert(self.used_blocks() =~= old(self).used_blocks().remove(index as int));
        }
        self.additional_header.used_block_count == 0
    }

    /// Lays the segment out for a class: no block is used and the segment is
    /// linked to nothing.  The flags of the link stay.
    pub fn init_single(&mut self, class_of_size: usize)
        requires
            class_of_size < CLASS_COUNT,
        ensures
            final(self).is_initialized(),
            final(self).class() == class_of_size,
            final(self).used_blocks() == Set::<int>::empty(),
            final(self).additional_header.used_block_count == 0,
            final(self).spec_is_floated(),
            final(self).spec_is_committed() == old(self).spec_is_committed(),
            final(self).spec_is_soft_decommitted() == old(self).spec_is_soft_decommitted(),
            final(self).owner@ == old(self).owner@,
            final(self).compact_header_ptr == old(self).compact_header_ptr,
            final(self).additional_header_ptr == old(self).additional_header_ptr,
    {
        proof {
            lemma_layout_of_class(class_of_size as int);
        }
        self.set_next(0);
        self.additional_header = AdditionalHeader {
            prev: 0,
            subheap_class: class_of_size,
            used_block_count: 0,
        };
        let block_count = block_count_of_class(class_of_size);
        let sub_bitmap_size = sub_bitmap_size_of_class(class_of_size);
        if sub_bitmap_size == 0 {
            self.compact_header.bitmap = padding_word(block_count);
            self.sub_bitmaps = Vec::new();
            proof {
                assert(!bit_is_set(self.word(0), 1));
                assert(self.word_has_room(0));
            }
        } else {
            let word_count = BITMAP_ITEM_EFF_BIT_SIZE * sub_bitmap_size;
            let mut words: Vec<u64> = Vec::new();
            let mut index: usize = 0;
            while index < word_count
                invariant
                    index <= word_count == 63 * sub_bitmap_size,
                    0 < sub_bitmap_size <= 3,
                    3 <= block_count <= 63 * word_count,
                    words@.len() == index,
                    forall|word: int, bit: int|
                        0 <= word < index ==> #[trigger] bit_is_set(words@[word], bit) == (0
                            <= bit < 64 && (bit == 0 || bit > block_count - 63 * word)),
                decreases word_count - index,
            {
                let first_block = index * BITMAP_ITEM_EFF_BIT_SIZE;
                let valid = if block_count <= first_block {
                    0
                } else if block_count - first_block >= BITMAP_ITEM_EFF_BIT_SIZE {
                    BITMAP_ITEM_EFF_BIT_SIZE
                } else {
                    block_count - first_block
                };
                words.push(padding_word(valid));
                index += 1;
            }
            self.sub_bitmaps = words;
            self.compact_header.bitmap = low_bits(sub_bitmap_size);
            proof {
                assert forall|unit: int| 0 <= unit < sub_bitmap_size implies self.unit_has_room(
                    unit,
                ) by {
                    assert(!bit_is_set(self.word(63 * unit), 1));
                    assert(self.word_has_room(63 * unit));
                }
            }
        }
        proof {
            assert forall|block: int| 0 <= block < 63 * spec_word_count_of_class(self.class())
                implies (#[trigger] self.block_used(block)) == (block >= block_count) by {
                let word = block / 63;
                let bit = block % 63 + 1;
                assert(block == 63 * word + bit - 1);
            }
            assert(self.used_blocks() =~= Set::<int>::empty());
        }
    }

    /// The address of the first sub-bitmap.
    #[inline]
    pub fn bitmap_space_begin(&self) -> (ptr: AnyNonNullPtr)
        requires
            self.additional_header_ptr.raw + SEGMENT_SIZE <= usize::MAX,
        ensures
            ptr.raw == self.additional_header_ptr.raw + ADDITIONAL_HEADER_SIZE,
    {
        self.seg_ptr().add(ADDITIONAL_HEADER_SIZE)
    }

    /// The address of the first block.
    #[inline]
    pub fn block_space_begin(&self) -> (ptr: AnyNonNullPtr)
        requires
            self.class() < CLASS_COUNT,
            self.additional_header_ptr.raw + SEGMENT_SIZE <= usize::MAX,
        ensures
            ptr.raw == self.additional_header_ptr.raw + spec_block_space_offset(self.class()),
            ptr.raw == self.spec_block_addr(0),
    {
        proof {
            lemma_layout_of_class(self.class());
        }
        let sub_bitmap_size = sub_bitmap_size_of_class(self.subheap_class());
        self.bitmap_space_begin().add(SUB_BITMAP_UNIT_SIZE * sub_bitmap_size)
    }

    /// The address of block `index`.
    #[inline]
    pub fn block_ptr(&self, index: usize) -> (ptr: AnyNonNullPtr)
        requires
            self.class() < CLASS_COUNT,
            index < self.spec_block_count(),
            self.additional_header_ptr.raw + SEGMENT_SIZE <= usize::MAX,
        ensures
            ptr.raw == self.spec_block_addr(index as int),
            self.additional_header_ptr.raw < ptr.raw,
            ptr.raw + self.spec_block_size() <= self.additional_header_ptr.raw
                + SEGMENT_SIZE,
    {
        proof {
            lemma_layout_of_class(self.class());
            let size = self.spec_block_size();
            let count = self.spec_block_count();
            assert(size * index + size <= count * size) by (nonlinear_arith)
                requires
                    0 <= index < count,
                    0 < size,
            ;
            assert(0 <= size * index) by (nonlinear_arith)
                requires
                    0 <= index,
                    0 < size,
            ;
        }
        self.block_space_begin().add(self.block_size() * index)
    }

    /// A segment as `new` makes it: headers of a body whose pages were just
    /// committed, and no sub-bitmap.
    pub open spec fn is_blank(&self) -> bool {
        &&& self.compact_header.bitmap == 0
        &&& self.additional_header.subheap_class == 0
        &&& self.additional_header.used_block_count == 0
        &&& self.sub_bitmaps@.len() == 0
    }

    /// Everything but the links and the flags.
    pub open spec fn same_blocks(&self, other: &Segment) -> bool {
        &&& self.compact_header_ptr == other.compact_header_ptr
        &&& self.additional_header_ptr == other.additional_header_ptr
        &&& self.compact_header.bitmap == other.compact_header.bitmap
        &&& self.additional_header.subheap_class == other.additional_header.subheap_class
        &&& self.additional_header.used_block_count == other.additional_header.used_block_count
        &&& self.sub_bitmaps@ == other.sub_bitmaps@
    }

    /// Everything but the links.
    pub open spec fn same_but_links(&self, other: &Segment) -> bool {
        &&& self.same_blocks(other)
        &&& self.spec_is_committed() == other.spec_is_committed()
        &&& self.spec_is_soft_decommitted() == other.spec_is_soft_decommitted()
        &&& self.owner@ == other.owner@
    }

    /// A segment whose headers stand at the given addresses: the body is
    /// blank, as pages that were just committed are.
    #[inline]
    pub fn new(compact_header: AnyNonNullPtr, segment: AnyNonNullPtr) -> (seg: Self)
        ensures
            seg.compact_header_ptr == compact_header,
            seg.additional_header_ptr == segment,
            seg.is_blank(),
            seg.spec_is_floated(),
            !seg.spec_is_committed(),
            !seg.spec_is_soft_decommitted(),
            seg.owner@ == Owner::Nobody,
    {
        proof {
            lemma_link_flag_bits(0);
        }
        Self {
            compact_header_ptr: compact_header,
            additional_header_ptr: segment,
            compact_header: CompactHeader { next: 0, bitmap: 0 },
            additional_header: AdditionalHeader { prev: 0, subheap_class: 0, used_block_count: 0 },
            sub_bitmaps: Vec::new(),
            owner: Ghost(Owner::Nobody),
        }
    }

    #[inline]
    pub fn seg_ptr(&self) -> (ptr: AnyNonNullPtr)
        ensures
            ptr == self.additional_header_ptr,
    {
        self.additional_header_ptr
    }

    #[inline]
    pub fn compact_header_ptr(&self) -> (ptr: AnyNonNullPtr)
        ensures
            ptr == self.compact_header_ptr,
    {
        self.compact_header_ptr
    }

    #[inline]
    pub fn subheap_class(&self) -> (class: usize)
        ensures
            class == self.class(),
    {
        self.additional_header.subheap_class
    }

    #[inline]
    pub fn used_block_count(&self) -> (count: usize)
        ensures
            count == self.additional_header.used_block_count,
    {
        self.additional_header.used_block_count
    }

    #[inline]
    pub fn block_size(&self) -> (size: usize)
        requires
            self.class() < CLASS_COUNT,
        ensures
            size == self.spec_block_size(),
    {
        size_of_class(self.subheap_class())
    }

    #[inline]
    pub fn next(&self) -> (ptr: usize)
        ensures
            ptr == self.spec_next(),
    {
        self.compact_header.next & !LINK_FLAGS_MASK
    }

    /// Links the segment to the compact header at `ptr`, or to none where
    /// `ptr` is zero.  The flags in the low bits of the link stay.
    #[inline]
    pub fn set_next(&mut self, ptr: usize)
        requires
            ptr % 4 == 0,
        ensures
            final(self).spec_next() == ptr,
            final(self).spec_prev() == old(self).spec_prev(),
            final(self).same_but_links(old(self)),
    {
        proof {
            lemma_link_flag_bits(ptr);
            lemma_link_with_flags(ptr, self.compact_header.next);
        }
        self.compact_header.next = ptr | (self.compact_header.next & LINK_FLAGS_MASK);
    }

    #[inline]
    pub fn prev(&self) -> (ptr: usize)
        ensures
            ptr == self.spec_prev(),
    {
        self.additional_header.prev
    }

    #[inline]
    pub fn set_prev(&mut self, ptr: usize)
        ensures
            final(self).spec_prev() == ptr,
            final(self).spec_next() == old(self).spec_next(),
            final(self).same_but_links(old(self)),
    {
        self.additional_header.prev = ptr;
    }

    #[inline]
    pub fn is_floated(&self) -> (floated: bool)
        ensures
            floated == self.spec_is_floated(),
    {
        self.additional_header.prev == 0 && self.next() == 0
    }

    #[inline]
    pub fn is_committed(&self) -> (committed: bool)
        ensures
            committed == self.spec_is_committed(),
    {
        self.compact_header.next & COMMITTED_FLAG == COMMITTED_FLAG
    }

    #[inline]
    pub fn is_soft_decommitted(&self) -> (decommitted: bool)
        ensures
            decommitted == self.spec_is_soft_decommitted(),
    {
        self.compact_header.next & SOFT_DECOMMITTED_FLAG == SOFT_DECOMMITTED_FLAG
    }

    /// Records that the pages of the segment are committed.
    pub fn set_committed(&mut self)
        ensures
            final(self).spec_is_committed(),
            final(self).spec_is_soft_decommitted() == old(self).spec_is_soft_decommitted(),
            final(self).spec_next() == old(self).spec_next(),
            final(self).spec_prev() == old(self).spec_prev(),
            final(self).same_blocks(old(self)),
            final(self).owner@ == old(self).owner@,
    {
        proof {
            lemma_link_flag_bits(self.compact_header.next);
        }
        self.compact_header.next = self.compact_header.next | COMMITTED_FLAG;
    }

    /// Records that the contents of the body may be discarded from now on:
    /// what the body held is forgotten.
    pub fn set_soft_decommitted(&mut self)
        ensures
            final(self).spec_is_soft_decommitted(),
            final(self).spec_is_committed() == old(self).spec_is_committed(),
            final(self).spec_next() == old(self).spec_next(),
            final(self).is_blank(),
            final(self).compact_header_ptr == old(self).compact_header_ptr,
            final(self).additional_header_ptr == old(self).additional_header_ptr,
            final(self).owner@ == old(self).owner@,
    {
        proof {
            lemma_link_flag_bits(self.compact_header.next);
        }
        self.compact_header.next = self.compact_header.next | SOFT_DECOMMITTED_FLAG;
        self.compact_header.bitmap = 0;
        self.additional_header = AdditionalHeader { prev: 0, subheap_class: 0,
            used_block_count: 0 };
        self.sub_bitmaps = Vec::new();
    }

    /// Records that the body was committed anew, with zeroed pages.
    pub fn set_force_committed(&mut self)
        ensures
            !final(self).spec_is_soft_decommitted(),
            final(self).spec_is_committed(),
            final(self).spec_next() == old(self).spec_next(),
            final(self).is_blank(),
            final(self).compact_header_ptr == old(self).compact_header_ptr,
            final(self).additional_header_ptr == old(self).additional_header_ptr,
            final(self).owner@ == old(self).owner@,
    {
        proof {
            lemma_link_flag_bits(self.compact_header.next);
            lemma_link_flag_bits(self.compact_header.next & !SOFT_DECOMMITTED_FLAG);
        }
        self.compact_header.next = (self.compact_header.next & !SOFT_DECOMMITTED_FLAG)
            | COMMITTED_FLAG;
        self.compact_header.bitmap = 0;
        self.additional_header = AdditionalHeader { prev: 0, subheap_class: 0,
            used_block_count: 0 };
        self.sub_bitmaps = Vec::new();
    }

    /// Links `after` behind this segment.
    #[inline]
    pub fn append(&mut self, after: &mut Self)
        requires
            old(self).spec_next() == 0,
            old(after).spec_prev() == 0,
            old(self).compact_header_ptr.raw % 4 == 0,
            old(after).compact_header_ptr.raw % 4 == 0,
        ensures
            final(self).spec_next() == old(after).compact_header_ptr.raw,
            final(self).spec_prev() == old(self).spec_prev(),
            final(self).same_but_links(old(self)),
            final(after).spec_prev() == old(self).compact_header_ptr.raw,
            final(after).spec_next() == old(after).spec_next(),
            final(after).same_but_links(old(after)),
    {
        self.set_next(after.compact_header_ptr.as_addr());
        after.set_prev(self.compact_header_ptr.as_addr());
    }
}

} // verus!
