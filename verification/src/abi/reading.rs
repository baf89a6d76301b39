//! What the bytes of an image say, and which images are refused.

use crate::abi::pex;
use crate::abi::pex::{PexError, PexView, Segment};
use crate::bytes;
use vstd::prelude::*;

verus! {

/// The number in the two bytes from `o` on, the low one first.
pub open spec fn two(b: Seq<u8>, o: int) -> int {
    b[o] + b[o + 1] * 0x100
}

/// The number in the four bytes from `o` on, the low one first.
pub open spec fn four(b: Seq<u8>, o: int) -> int {
    two(b, o) + two(b, o + 2) * 0x1_0000
}

/// The number in the eight bytes from `o` on, the low one first.
pub open spec fn eight(b: Seq<u8>, o: int) -> int {
    four(b, o) + four(b, o + 4) * 0x1_0000_0000
}

/// Numbers are little-endian.
pub proof fn law_numbers_are_little_endian(b: Seq<u8>, o: int)
    requires
        0 <= o,
    ensures
        o + 2 <= b.len() ==> bytes::le_at(b, o, 2) == two(b, o),
        o + 4 <= b.len() ==> bytes::le_at(b, o, 4) == four(b, o),
        o + 8 <= b.len() ==> bytes::le_at(b, o, 8) == eight(b, o),
{
    if o + 2 <= b.len() {
        lemma_le_step(b, o, 2);
        lemma_le_step(b, o + 1, 1);
        lemma_le_none(b, o + 2);
    }
    if o + 4 <= b.len() {
        lemma_le_step(b, o, 4);
        lemma_le_step(b, o + 1, 3);
        lemma_le_step(b, o + 2, 2);
        lemma_le_step(b, o + 3, 1);
        lemma_le_none(b, o + 4);
    }
    if o + 8 <= b.len() {
        lemma_le_step(b, o, 8);
        lemma_le_step(b, o + 1, 7);
        lemma_le_step(b, o + 2, 6);
        lemma_le_step(b, o + 3, 5);
        lemma_le_step(b, o + 4, 4);
        lemma_le_step(b, o + 5, 3);
        lemma_le_step(b, o + 6, 2);
        lemma_le_step(b, o + 7, 1);
        lemma_le_none(b, o + 8);
    }
}

proof fn lemma_le_step(b: Seq<u8>, o: int, n: int)
    requires
        0 <= o,
        0 < n,
        o + n <= b.len(),
    ensures
        bytes::le_at(b, o, n) == b[o] + 256 * bytes::le_at(b, o + 1, n - 1),
{
    let s = b.subrange(o, o + n);
    assert(s.drop_first() =~= b.subrange(o + 1, o + n));
    assert(s[0] == b[o]);
}

proof fn lemma_le_none(b: Seq<u8>, o: int)
    requires
        0 <= o <= b.len(),
    ensures
        bytes::le_at(b, o, 0) == 0,
{
    assert(b.subrange(o, o).len() == 0);
}

/// Where the header has the entry point, the number and place of the segments, and the number and
/// place of the manifest's entries.
pub proof fn law_headers_are_read_by_place(b: Seq<u8>)
    requires
        b.len() >= 48,
    ensures
        PexView::of(b).bytes == b,
        PexView::of(b).entry == eight(b, 8),
        PexView::of(b).seg_off == four(b, 20),
        PexView::of(b).seg_count == two(b, 24),
        PexView::of(b).man_count == two(b, 26),
        PexView::of(b).man_off == four(b, 28),
{
    law_numbers_are_little_endian(b, 8);
    law_numbers_are_little_endian(b, 20);
    law_numbers_are_little_endian(b, 24);
    law_numbers_are_little_endian(b, 26);
    law_numbers_are_little_endian(b, 28);
}

/// A segment takes 32 bytes: the place and the number of its file bytes, its address, the size of its
/// memory, and its permissions.
pub proof fn law_segments_are_read_by_place(p: PexView, i: int)
    requires
        0 <= p.seg_off,
        0 <= i,
        p.seg_off + i * 32 + 32 <= p.bytes.len(),
    ensures
        ({
            let o = p.seg_off + i * 32;
            &&& p.segment(i).file_off == four(p.bytes, o)
            &&& p.segment(i).file_size == four(p.bytes, o + 4)
            &&& p.segment(i).vaddr == eight(p.bytes, o + 8)
            &&& p.segment(i).mem_size == eight(p.bytes, o + 16)
            &&& p.segment(i).perm == p.bytes[o + 24]
        }),
{
    let o = p.seg_off + i * 32;
    law_numbers_are_little_endian(p.bytes, o);
    law_numbers_are_little_endian(p.bytes, o + 4);
    law_numbers_are_little_endian(p.bytes, o + 8);
    law_numbers_are_little_endian(p.bytes, o + 16);
}

/// An entry of the manifest takes 32 bytes: its type, its slot, its rights and its two parameters.
pub proof fn law_entries_are_read_by_place(p: PexView, i: int)
    requires
        0 <= p.man_off,
        0 <= i,
        p.man_off + i * 32 + 32 <= p.bytes.len(),
    ensures
        ({
            let o = p.man_off + i * 32;
            &&& p.manifest(i).cap_type == p.bytes[o]
            &&& p.manifest(i).dest_slot == two(p.bytes, o + 2)
            &&& p.manifest(i).rights == four(p.bytes, o + 4)
            &&& p.manifest(i).param0 == eight(p.bytes, o + 8)
            &&& p.manifest(i).param1 == eight(p.bytes, o + 16)
        }),
{
    let o = p.man_off + i * 32;
    law_numbers_are_little_endian(p.bytes, o + 2);
    law_numbers_are_little_endian(p.bytes, o + 4);
    law_numbers_are_little_endian(p.bytes, o + 8);
    law_numbers_are_little_endian(p.bytes, o + 16);
}

/// What is wrong with a segment, first things first: it is to be read, and besides that written or
/// executed but not both; it has whole pages, no more than 4096, and at least as much memory as file
/// bytes; those are in the image; and its addresses do not run over.
pub proof fn law_segments_are_refused_for_cause(s: Segment, len: nat)
    ensures
        pex::segment_error(s, len) == (if s.perm != 1 && s.perm != 3 && s.perm != 5 {
            Some(PexError::BadPermission)
        } else if s.vaddr % 4096 != 0 || s.mem_size % 4096 != 0 {
            Some(PexError::Unaligned)
        } else if s.file_size > s.mem_size {
            Some(PexError::BadMemSize)
        } else if s.mem_size > 4096 * 4096 {
            Some(PexError::SegmentTooLarge)
        } else if s.file_off + s.file_size > len {
            Some(PexError::SegmentOutOfBounds)
        } else if s.vaddr + s.mem_size > 0xffff_ffff_ffff_ffff {
            Some(PexError::Unaligned)
        } else {
            None
        }),
        s.executes() == (s.perm & 4 != 0),
        s.writes() == (s.perm & 2 != 0),
{
    assert(1u8 | 2u8 == 3u8 && 1u8 | 4u8 == 5u8) by (bit_vector);
}

/// What is wrong with the header of an image, first things first.
pub open spec fn header_fault(b: Seq<u8>, arch: u16) -> Option<PexError> {
    if b.len() < 48 {
        Some(PexError::TooShort)
    } else if !(b[0] == 0x50 && b[1] == 0x45 && b[2] == 0x58 && b[3] == 1) {
        Some(PexError::BadMagic)
    } else if two(b, 4) != 1 {
        Some(PexError::BadVersion)
    } else if two(b, 6) != arch {
        Some(PexError::ArchMismatch)
    } else if four(b, 16) != b.len() {
        Some(PexError::LenMismatch)
    } else if eight(b, 40) != 0 {
        Some(PexError::ReservedNonZero)
    } else if two(b, 24) > 16 || two(b, 26) > 32 {
        Some(PexError::TooManyRecords)
    } else if four(b, 20) + two(b, 24) * 32 > b.len() || four(b, 28) + two(b, 26) * 32 > b.len() || (
    four(b, 36) != 0 && four(b, 32) + four(b, 36) > b.len()) {
        Some(PexError::TableOutOfBounds)
    } else {
        None
    }
}

/// An image is accepted exactly if its header is in order, no segment is refused, and its entry point
/// is in a segment that is executed. What is wrong first is what is answered.
pub proof fn law_images_are_refused_for_cause(b: Seq<u8>, arch: u16)
    ensures
        header_fault(b, arch) is Some ==> pex::parse_error(b, arch) == header_fault(b, arch),
        header_fault(b, arch) is None ==> {
            let p = PexView::of(b);
            let n = two(b, 24);
            &&& pex::parse_error(b, arch) is None == ((forall|i: int|
                0 <= i < n ==> pex::segment_error(#[trigger] p.segment(i), b.len()) is None) && (
            exists|i: int|
                0 <= i < n && (#[trigger] p.segment(i)).perm & 4 != 0 && p.segment(i).vaddr <= eight(
                    b,
                    8,
                ) < p.segment(i).vaddr + p.segment(i).mem_size))
            &&& pex::parse_error(b, arch) is Some ==> pex::parse_error(b, arch) == Some(
                PexError::EntryNotExecutable,
            ) || exists|i: int|
                0 <= i < n && pex::parse_error(b, arch) == pex::segment_error(
                    #[trigger] p.segment(i),
                    b.len(),
                ) && forall|j: int|
                    0 <= j < i ==> pex::segment_error(#[trigger] p.segment(j), b.len()) is None
        },
{
    if b.len() >= 48 {
        law_headers_are_read_by_place(b);
        law_numbers_are_little_endian(b, 0);
        law_numbers_are_little_endian(b, 4);
        law_numbers_are_little_endian(b, 6);
        law_numbers_are_little_endian(b, 16);
        law_numbers_are_little_endian(b, 32);
        law_numbers_are_little_endian(b, 36);
        law_numbers_are_little_endian(b, 40);
        let p = PexView::of(b);
        if header_fault(b, arch) is None {
            lemma_first_bad_segment(p, 0);
            let n = p.seg_count;
            if p.segments_error(0) is Some {
                let i = choose|i: int|
                    0 <= i < n && p.segments_error(0) == pex::segment_error(
                        #[trigger] p.segment(i),
                        b.len(),
                    ) && forall|j: int|
                        0 <= j < i ==> pex::segment_error(#[trigger] p.segment(j), b.len()) is None;
                assert(pex::segment_error(p.segment(i), b.len()) is Some);
            }
            if p.entry_in(n) {
                let i = choose|i: int|
                    0 <= i < n && (#[trigger] p.segment(i)).executes() && p.segment(i).spans(
                        p.entry,
                    );
                assert(p.segment(i).perm & 4 != 0);
            }
            if exists|i: int|
                0 <= i < n && (#[trigger] p.segment(i)).perm & 4 != 0 && p.segment(i).vaddr <= eight(
                    b,
                    8,
                ) < p.segment(i).vaddr + p.segment(i).mem_size {
                let i = choose|i: int|
                    0 <= i < n && (#[trigger] p.segment(i)).perm & 4 != 0 && p.segment(i).vaddr
                        <= eight(b, 8) < p.segment(i).vaddr + p.segment(i).mem_size;
                assert(p.segment(i).executes() && p.segment(i).spans(p.entry));
            }
        }
    }
}

proof fn lemma_first_bad_segment(p: PexView, i: int)
    requires
        0 <= i,
    ensures
        p.segments_error(i) is None ==> forall|k: int|
            i <= k < p.seg_count ==> pex::segment_error(#[trigger] p.segment(k), p.bytes.len())
                is None,
        p.segments_error(i) is Some ==> exists|k: int|
            i <= k < p.seg_count && p.segments_error(i) == pex::segment_error(
                #[trigger] p.segment(k),
                p.bytes.len(),
            ) && forall|j: int|
                i <= j < k ==> pex::segment_error(#[trigger] p.segment(j), p.bytes.len()) is None,
    decreases p.seg_count - i,
{
    if i < p.seg_count {
        if pex::segment_error(p.segment(i), p.bytes.len()) is None {
            lemma_first_bad_segment(p, i + 1);
            if p.segments_error(i) is Some {
                let k = choose|k: int|
                    i + 1 <= k < p.seg_count && p.segments_error(i + 1) == pex::segment_error(
                        #[trigger] p.segment(k),
                        p.bytes.len(),
                    ) && forall|j: int|
                        i + 1 <= j < k ==> pex::segment_error(
                            #[trigger] p.segment(j),
                            p.bytes.len(),
                        ) is None;
                assert(p.segments_error(i) == pex::segment_error(p.segment(k), p.bytes.len()));
            }
        } else {
            assert(p.segments_error(i) == pex::segment_error(p.segment(i), p.bytes.len()));
        }
    }
}

/// The file bytes of a segment are those of the image from its place on, as many as it has.
pub proof fn law_file_bytes_are_the_images(p: PexView, i: int, k: int)
    requires
        p.segment(i).file_off + p.segment(i).file_size <= p.bytes.len(),
        0 <= k < p.segment(i).file_size,
    ensures
        p.segment_data(i).len() == p.segment(i).file_size,
        p.segment_data(i)[k] == p.bytes[p.segment(i).file_off + k],
{
}

} // verus!
