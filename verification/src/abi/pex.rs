//! The `.pex` executable format.
//!
//! A `.pex` is a flat little-endian image: a header, a table of loadable segments (none of them
//! both writable and executable), a manifest of the capabilities that the process is to start
//! with, and room for an integrity section. Every image is hostile input: [`Pex::parse`] reads no
//! field before it is known to be in range, and answers each malformed shape with a [`PexError`].

use crate::bytes;
use vstd::prelude::*;

verus! {

/// `"PEX\x01"`, little-endian.
pub const PEX_MAGIC: u32 = 0x0158_4550;

/// The format version.
pub const PEX_VERSION: u16 = 1;

/// The x86-64 architecture tag.
pub const ARCH_X86_64: u16 = 1;

/// The aarch64 architecture tag.
pub const ARCH_AARCH64: u16 = 2;

/// The size of the header.
pub const HEADER_LEN: usize = 48;

/// The size of a segment record.
pub const SEGMENT_LEN: usize = 32;

/// The size of a manifest record.
pub const MANIFEST_LEN: usize = 32;

/// The largest number of segments accepted.
pub const MAX_SEGMENTS: usize = 16;

/// The largest number of manifest entries accepted.
pub const MAX_MANIFEST: usize = 32;

/// The largest number of pages in one segment.
pub const MAX_SEGMENT_PAGES: u64 = 4096;

/// The segment is readable.
pub const PERM_R: u8 = 1;

/// The segment is writable.
pub const PERM_W: u8 = 2;

/// The segment is executable.
pub const PERM_X: u8 = 4;

/// A manifest entry for a `Sched` (`param0`: budget, `param1`: period).
pub const MANIFEST_SCHED: u8 = 1;

/// A manifest entry for an `Endpoint` (`param0`: badge).
pub const MANIFEST_ENDPOINT: u8 = 2;

/// A manifest entry for a `Frame` of one of the image's segments (`param0`: segment index).
pub const MANIFEST_FRAME: u8 = 3;

/// How a `.pex` is malformed.
#[derive(Clone, Copy, PartialEq, Eq, Structural, Debug)]
pub enum PexError {
    /// The buffer is shorter than the header.
    TooShort,
    /// The magic is not [`PEX_MAGIC`].
    BadMagic,
    /// The version is not one that is understood.
    BadVersion,
    /// The image is for another architecture.
    ArchMismatch,
    /// The length in the header is not that of the buffer.
    LenMismatch,
    /// A count exceeds [`MAX_SEGMENTS`] or [`MAX_MANIFEST`].
    TooManyRecords,
    /// A table runs past the buffer.
    TableOutOfBounds,
    /// A segment's file bytes run past the buffer.
    SegmentOutOfBounds,
    /// A segment has more file bytes than memory.
    BadMemSize,
    /// A segment has more than [`MAX_SEGMENT_PAGES`] pages.
    SegmentTooLarge,
    /// A segment is not readable, writable and executable, or has unknown permission bits.
    BadPermission,
    /// A segment is not page-aligned, or runs past the end of the address space.
    Unaligned,
    /// The entry point is in no executable segment.
    EntryNotExecutable,
    /// A reserved field is not zero.
    ReservedNonZero,
}

/// A loadable segment.
#[derive(Clone, Copy, Debug)]
pub struct Segment {
    /// The offset of its file bytes in the image.
    pub file_off: u32,
    /// The number of its file bytes; the rest of its memory is zero.
    pub file_size: u32,
    /// The address to map it at.
    pub vaddr: u64,
    /// The size of its memory.
    pub mem_size: u64,
    /// Its permission bits.
    pub perm: u8,
}

impl Segment {
    /// The segment is executable.
    pub open spec fn executes(self) -> bool {
        self.perm & PERM_X != 0
    }

    /// The segment is writable.
    pub open spec fn writes(self) -> bool {
        self.perm & PERM_W != 0
    }

    /// Address `a` is in the segment.
    pub open spec fn spans(self, a: u64) -> bool {
        self.vaddr <= a < self.vaddr + self.mem_size
    }

    /// Is the segment executable?
    #[must_use]
    pub fn is_exec(&self) -> (b: bool)
        ensures
            b == self.executes(),
    {
        self.perm & PERM_X != 0
    }

    /// Is the segment writable?
    #[must_use]
    pub fn is_write(&self) -> (b: bool)
        ensures
            b == self.writes(),
    {
        self.perm & PERM_W != 0
    }
}

/// A capability that the process is to start with.
#[derive(Clone, Copy, Debug)]
pub struct ManifestEntry {
    /// Its type (`MANIFEST_*`).
    pub cap_type: u8,
    /// The slot of the new process's CSpace that it goes to.
    pub dest_slot: u16,
    /// The rights asked for.
    pub rights: u32,
    /// The first parameter.
    pub param0: u64,
    /// The second parameter.
    pub param1: u64,
}

/// The permissions a segment may have: read, with write or execute but not both.
pub open spec fn perm_ok(perm: u8) -> bool {
    perm == PERM_R || perm == PERM_R | PERM_W || perm == PERM_R | PERM_X
}

/// The segment record at `base`.
pub open spec fn segment_at(b: Seq<u8>, base: int) -> Segment {
    Segment {
        file_off: bytes::le_at(b, base, 4) as u32,
        file_size: bytes::le_at(b, base + 4, 4) as u32,
        vaddr: bytes::le_at(b, base + 8, 8) as u64,
        mem_size: bytes::le_at(b, base + 16, 8) as u64,
        perm: b[base + 24],
    }
}

/// The manifest record at `base`.
pub open spec fn manifest_at(b: Seq<u8>, base: int) -> ManifestEntry {
    ManifestEntry {
        cap_type: b[base],
        dest_slot: bytes::le_at(b, base + 2, 2) as u16,
        rights: bytes::le_at(b, base + 4, 4) as u32,
        param0: bytes::le_at(b, base + 8, 8) as u64,
        param1: bytes::le_at(b, base + 16, 8) as u64,
    }
}

/// What is wrong with a segment of an image of `len` bytes.
pub open spec fn segment_error(s: Segment, len: nat) -> Option<PexError> {
    if !perm_ok(s.perm) {
        Some(PexError::BadPermission)
    } else if s.vaddr % 4096 != 0 || s.mem_size % 4096 != 0 {
        Some(PexError::Unaligned)
    } else if s.file_size > s.mem_size {
        Some(PexError::BadMemSize)
    } else if s.mem_size / 4096 > MAX_SEGMENT_PAGES {
        Some(PexError::SegmentTooLarge)
    } else if s.file_off + s.file_size > len {
        Some(PexError::SegmentOutOfBounds)
    } else if s.vaddr + s.mem_size > u64::MAX {
        Some(PexError::Unaligned)
    } else {
        None
    }
}

/// The image behind a [`Pex`].
#[verifier::ext_equal]
pub struct PexView {
    pub bytes: Seq<u8>,
    pub entry: u64,
    pub seg_off: int,
    pub seg_count: int,
    pub man_off: int,
    pub man_count: int,
}

impl PexView {
    /// What the header says.
    pub open spec fn of(b: Seq<u8>) -> PexView {
        PexView {
            bytes: b,
            entry: bytes::le_at(b, 8, 8) as u64,
            seg_off: bytes::le_at(b, 20, 4) as int,
            seg_count: bytes::le_at(b, 24, 2) as int,
            man_off: bytes::le_at(b, 28, 4) as int,
            man_count: bytes::le_at(b, 26, 2) as int,
        }
    }

    /// Segment `i`.
    pub open spec fn segment(self, i: int) -> Segment {
        segment_at(self.bytes, self.seg_off + i * SEGMENT_LEN)
    }

    /// Manifest entry `i`.
    pub open spec fn manifest(self, i: int) -> ManifestEntry {
        manifest_at(self.bytes, self.man_off + i * MANIFEST_LEN)
    }

    /// The file bytes of segment `i`.
    pub open spec fn segment_data(self, i: int) -> Seq<u8> {
        self.bytes.subrange(
            self.segment(i).file_off as int,
            self.segment(i).file_off + self.segment(i).file_size,
        )
    }

    /// Both tables lie in the image.
    pub open spec fn tables_fit(self) -> bool {
        &&& 0 <= self.seg_off
        &&& 0 <= self.seg_count
        &&& 0 <= self.man_off
        &&& 0 <= self.man_count
        &&& self.seg_off + self.seg_count * SEGMENT_LEN <= self.bytes.len()
        &&& self.man_off + self.man_count * MANIFEST_LEN <= self.bytes.len()
    }

    /// What is wrong with the first bad segment from segment `i` on.
    pub open spec fn segments_error(self, i: int) -> Option<PexError>
        decreases self.seg_count - i,
    {
        if i >= self.seg_count {
            None
        } else if segment_error(self.segment(i), self.bytes.len()) is Some {
            segment_error(self.segment(i), self.bytes.len())
        } else {
            self.segments_error(i + 1)
        }
    }

    /// The entry point is in one of the first `n` segments, an executable one.
    pub open spec fn entry_in(self, n: int) -> bool {
        exists|i: int|
            0 <= i < n && (#[trigger] self.segment(i)).executes() && self.segment(i).spans(
                self.entry,
            )
    }

    /// The image is sound: a loader can read all of it.
    pub open spec fn wf(self) -> bool {
        &&& self.tables_fit()
        &&& self.seg_count <= MAX_SEGMENTS
        &&& self.man_count <= MAX_MANIFEST
        &&& forall|i: int|
            0 <= i < self.seg_count ==> segment_error(#[trigger] self.segment(i), self.bytes.len())
                is None
        &&& self.entry_in(self.seg_count)
    }
}

/// What is wrong with an image, as seen by a loader for `arch`.
pub open spec fn parse_error(b: Seq<u8>, arch: u16) -> Option<PexError> {
    let p = PexView::of(b);
    if b.len() < HEADER_LEN {
        Some(PexError::TooShort)
    } else if bytes::le_at(b, 0, 4) != PEX_MAGIC {
        Some(PexError::BadMagic)
    } else if bytes::le_at(b, 4, 2) != PEX_VERSION {
        Some(PexError::BadVersion)
    } else if bytes::le_at(b, 6, 2) != arch {
        Some(PexError::ArchMismatch)
    } else if bytes::le_at(b, 16, 4) != b.len() {
        Some(PexError::LenMismatch)
    } else if bytes::le_at(b, 40, 8) != 0 {
        Some(PexError::ReservedNonZero)
    } else if p.seg_count > MAX_SEGMENTS || p.man_count > MAX_MANIFEST {
        Some(PexError::TooManyRecords)
    } else if !p.tables_fit() || (bytes::le_at(b, 36, 4) != 0 && bytes::le_at(b, 32, 4)
        + bytes::le_at(b, 36, 4) > b.len()) {
        Some(PexError::TableOutOfBounds)
    } else if p.segments_error(0) is Some {
        p.segments_error(0)
    } else if !p.entry_in(p.seg_count) {
        Some(PexError::EntryNotExecutable)
    } else {
        None
    }
}

/// A validated view of an image. It owns nothing.
#[derive(Clone, Copy, Debug, PartialEq, Eq)]
pub struct Pex<'a> {
    bytes: &'a [u8],
    entry: u64,
    seg_off: usize,
    seg_count: usize,
    man_off: usize,
    man_count: usize,
}

impl<'a> View for Pex<'a> {
    type V = PexView;

    closed spec fn view(&self) -> PexView {
        PexView {
            bytes: self.bytes@,
            entry: self.entry,
            seg_off: self.seg_off as int,
            seg_count: self.seg_count as int,
            man_off: self.man_off as int,
            man_count: self.man_count as int,
        }
    }
}

fn rd_u16(b: &[u8], off: usize) -> (v: u16)
    requires
        off + 2 <= b@.len(),
    ensures
        v == bytes::le_at(b@, off as int, 2),
{
    proof {
        bytes::lemma_radix_values();
    }
    bytes::get_le(b, off, 2) as u16
}

fn rd_u32(b: &[u8], off: usize) -> (v: u32)
    requires
        off + 4 <= b@.len(),
    ensures
        v == bytes::le_at(b@, off as int, 4),
{
    proof {
        bytes::lemma_radix_values();
    }
    bytes::get_le(b, off, 4) as u32
}

fn rd_u64(b: &[u8], off: usize) -> (v: u64)
    requires
        off + 8 <= b@.len(),
    ensures
        v == bytes::le_at(b@, off as int, 8),
{
    bytes::get_le(b, off, 8)
}

/// Does a table of `count` records of `rec_len` bytes from `off` on fit in `total` bytes?
fn table_fits(total: usize, off: usize, count: usize, rec_len: usize) -> (b: bool)
    ensures
        b == (off + count * rec_len <= total),
{
    match count.checked_mul(rec_len) {
        None => {
            false
        },
        Some(w) => match off.checked_add(w) {
            None => false,
            Some(end) => end <= total,
        },
    }
}

/// Check a permission byte.
fn validate_perm(perm: u8) -> (r: Result<(), PexError>)
    ensures
        r == (if perm_ok(perm) {
            Ok::<(), PexError>(())
        } else {
            Err(PexError::BadPermission)
        }),
{
    assert((perm & !(1u8 | 2u8 | 4u8) != 0 || perm & 1u8 == 0 || (perm & 2u8 != 0 && perm & 4u8
        != 0)) == !(perm == 1u8 || perm == 1u8 | 2u8 || perm == 1u8 | 4u8)) by (bit_vector);
    if perm & !(PERM_R | PERM_W | PERM_X) != 0 || perm & PERM_R == 0 || (perm & PERM_W != 0 && perm
        & PERM_X != 0) {
        return Err(PexError::BadPermission);
    }
    Ok(())
}

/// Check a segment of an image of `len` bytes.
fn validate_segment(s: &Segment, len: usize) -> (r: Result<(), PexError>)
    ensures
        match segment_error(*s, len as nat) {
            None => r is Ok,
            Some(e) => r == Err::<(), PexError>(e),
        },
{
    match validate_perm(s.perm) {
        Err(e) => {
            return Err(e);
        },
        Ok(()) => {},
    }
    if s.vaddr % 4096 != 0 || s.mem_size % 4096 != 0 {
        return Err(PexError::Unaligned);
    }
    if s.file_size as u64 > s.mem_size {
        return Err(PexError::BadMemSize);
    }
    if s.mem_size / 4096 > MAX_SEGMENT_PAGES {
        return Err(PexError::SegmentTooLarge);
    }
    match (s.file_off as usize).checked_add(s.file_size as usize) {
        None => {
            return Err(PexError::SegmentOutOfBounds);
        },
        Some(end) => {
            if end > len {
                return Err(PexError::SegmentOutOfBounds);
            }
        },
    }
    match s.vaddr.checked_add(s.mem_size) {
        None => Err(PexError::Unaligned),
        Some(_) => Ok(()),
    }
}

/// A record of a table that fits lies in the image.
proof fn lemma_record_fits(off: int, count: int, i: int, len: int)
    requires
        0 <= off,
        0 <= i < count,
        off + count * 32 <= len,
    ensures
        0 <= off + i * 32,
        off + i * 32 + 32 <= len,
{
}

/// No segment is bad where the search from the first finds none.
proof fn lemma_no_segment_is_bad(p: PexView, i: int, j: int)
    requires
        p.segments_error(i) is None,
        i <= j < p.seg_count,
    ensures
        segment_error(p.segment(j), p.bytes.len()) is None,
    decreases p.seg_count - i,
{
    if i < j {
        lemma_no_segment_is_bad(p, i + 1, j);
    }
}

/// An accepted image is sound.
pub proof fn law_accepted_images_are_sound(b: Seq<u8>, arch: u16)
    requires
        parse_error(b, arch) is None,
    ensures
        PexView::of(b).wf(),
{
    let p = PexView::of(b);
    assert forall|i: int| 0 <= i < p.seg_count implies segment_error(
        #[trigger] p.segment(i),
        p.bytes.len(),
    ) is None by {
        lemma_no_segment_is_bad(p, 0, i);
    }
}

impl<'a> Pex<'a> {
    /// The image was validated.
    pub open spec fn wf(&self) -> bool {
        self@.wf()
    }

    /// Parse and validate an image for `arch`.
    pub fn parse(bytes: &'a [u8], arch: u16) -> (r: Result<Pex<'a>, PexError>)
        ensures
            match parse_error(bytes@, arch) {
                None => r is Ok && r->Ok_0@ == PexView::of(bytes@) && r->Ok_0.wf(),
                Some(e) => r is Err && r->Err_0 == e,
            },
    {
        let len: usize = bytes.len();
        if len < HEADER_LEN {
            return Err(PexError::TooShort);
        }
        if rd_u32(bytes, 0) != PEX_MAGIC {
            return Err(PexError::BadMagic);
        }
        if rd_u16(bytes, 4) != PEX_VERSION {
            return Err(PexError::BadVersion);
        }
        if rd_u16(bytes, 6) != arch {
            return Err(PexError::ArchMismatch);
        }
        let entry: u64 = rd_u64(bytes, 8);
        let total_len: usize = rd_u32(bytes, 16) as usize;
        if total_len != len {
            return Err(PexError::LenMismatch);
        }
        let seg_off: usize = rd_u32(bytes, 20) as usize;
        let seg_count: usize = rd_u16(bytes, 24) as usize;
        let man_count: usize = rd_u16(bytes, 26) as usize;
        let man_off: usize = rd_u32(bytes, 28) as usize;
        let integ_off: usize = rd_u32(bytes, 32) as usize;
        let integ_len: usize = rd_u32(bytes, 36) as usize;
        if rd_u64(bytes, 40) != 0 {
            return Err(PexError::ReservedNonZero);
        }
        if seg_count > MAX_SEGMENTS || man_count > MAX_MANIFEST {
            return Err(PexError::TooManyRecords);
        }
        if !table_fits(len, seg_off, seg_count, SEGMENT_LEN) || !table_fits(
            len,
            man_off,
            man_count,
            MANIFEST_LEN,
        ) {
            return Err(PexError::TableOutOfBounds);
        }
        if integ_len != 0 {
            match integ_off.checked_add(integ_len) {
                None => {
                    return Err(PexError::TableOutOfBounds);
                },
                Some(end) => {
                    if end > len {
                        return Err(PexError::TableOutOfBounds);
                    }
                },
            }
        }
        let pex = Pex { bytes, entry, seg_off, seg_count, man_off, man_count };
        let ghost p = PexView::of(bytes@);
        assert(pex@ =~= p);
        let mut entry_ok = false;
        let mut i: usize = 0;
        while i < seg_count
            invariant
                i <= seg_count,
                seg_count == p.seg_count,
                len == bytes@.len(),
                entry == p.entry,
                p == PexView::of(bytes@),
                p == pex@,
                p.tables_fit(),
                parse_error(bytes@, arch) == (if p.segments_error(i as int) is Some {
                    p.segments_error(i as int)
                } else if !p.entry_in(p.seg_count) {
                    Some(PexError::EntryNotExecutable)
                } else {
                    None
                }),
                entry_ok == p.entry_in(i as int),
            decreases seg_count - i,
        {
            let s = pex.segment_raw(i);
            match validate_segment(&s, len) {
                Err(e) => {
                    return Err(e);
                },
                Ok(()) => {},
            }
            let ghost before = p.entry_in(i as int);
            if s.is_exec() && s.vaddr <= entry && entry < s.vaddr + s.mem_size {
                entry_ok = true;
                assert(p.segment(i as int).executes() && p.segment(i as int).spans(p.entry));
            }
            i = i + 1;
            proof {
                if before {
                    let k = choose|k: int|
                        0 <= k < i - 1 && (#[trigger] p.segment(k)).executes() && p.segment(
                            k,
                        ).spans(p.entry);
                    assert(p.segment(k).executes());
                }
            }
        }
        if !entry_ok {
            return Err(PexError::EntryNotExecutable);
        }
        proof {
            law_accepted_images_are_sound(bytes@, arch);
        }
        Ok(pex)
    }

    /// The entry point.
    #[must_use]
    pub fn entry(&self) -> (e: u64)
        ensures
            e == self@.entry,
    {
        self.entry
    }

    /// The number of segments.
    #[must_use]
    pub fn segment_count(&self) -> (n: usize)
        ensures
            n == self@.seg_count,
    {
        self.seg_count
    }

    /// The number of manifest entries.
    #[must_use]
    pub fn manifest_count(&self) -> (n: usize)
        ensures
            n == self@.man_count,
    {
        self.man_count
    }

    fn segment_raw(&self, i: usize) -> (s: Segment)
        requires
            self@.tables_fit(),
            i < self@.seg_count,
        ensures
            s == self@.segment(i as int),
    {
        proof {
            lemma_record_fits(
                self.seg_off as int,
                self.seg_count as int,
                i as int,
                self.bytes@.len() as int,
            );
        }
        let _len: usize = self.bytes.len();
        let base: usize = self.seg_off + i * SEGMENT_LEN;
        Segment {
            file_off: rd_u32(self.bytes, base),
            file_size: rd_u32(self.bytes, base + 4),
            vaddr: rd_u64(self.bytes, base + 8),
            mem_size: rd_u64(self.bytes, base + 16),
            perm: self.bytes[base + 24],
        }
    }

    /// Segment `i`.
    #[must_use]
    pub fn segment(&self, i: usize) -> (s: Segment)
        requires
            self.wf(),
            i < self@.seg_count,
        ensures
            s == self@.segment(i as int),
    {
        self.segment_raw(i)
    }

    /// The file bytes of segment `i`.
    #[must_use]
    pub fn segment_data(&self, i: usize) -> (d: &'a [u8])
        requires
            self.wf(),
            i < self@.seg_count,
        ensures
            d@ == self@.segment_data(i as int),
    {
        let s = self.segment(i);
        let _len: usize = self.bytes.len();
        assert(segment_error(s, self@.bytes.len()) is None);
        &self.bytes[s.file_off as usize..s.file_off as usize + s.file_size as usize]
    }

    fn manifest_raw(&self, i: usize) -> (m: ManifestEntry)
        requires
            self@.tables_fit(),
            i < self@.man_count,
        ensures
            m == self@.manifest(i as int),
    {
        proof {
            lemma_record_fits(
                self.man_off as int,
                self.man_count as int,
                i as int,
                self.bytes@.len() as int,
            );
        }
        let _len: usize = self.bytes.len();
        let base: usize = self.man_off + i * MANIFEST_LEN;
        ManifestEntry {
            cap_type: self.bytes[base],
            dest_slot: rd_u16(self.bytes, base + 2),
            rights: rd_u32(self.bytes, base + 4),
            param0: rd_u64(self.bytes, base + 8),
            param1: rd_u64(self.bytes, base + 16),
        }
    }

    /// Manifest entry `i`.
    #[must_use]
    pub fn manifest(&self, i: usize) -> (m: ManifestEntry)
        requires
            self.wf(),
            i < self@.man_count,
        ensures
            m == self@.manifest(i as int),
    {
        self.manifest_raw(i)
    }
}

} // verus!
