//! What the encoder writes, the parser reads.

use crate::abi::encode;
use crate::abi::encode::{ManifestSpec, SegmentSpec};
use crate::abi::pex;
use crate::abi::pex::{
    ManifestEntry, PexView, Segment, HEADER_LEN, MANIFEST_LEN, MAX_SEGMENT_PAGES, PEX_MAGIC,
    PEX_VERSION, SEGMENT_LEN,
};
use crate::bytes;
use vstd::prelude::*;

verus! {

/// The segment is one that the format allows.
pub open spec fn encodable(s: SegmentSpec) -> bool {
    &&& pex::perm_ok(s.perm)
    &&& s.vaddr % 4096 == 0
    &&& s.mem_size % 4096 == 0
    &&& s.data@.len() <= s.mem_size
    &&& s.mem_size / 4096 <= MAX_SEGMENT_PAGES
    &&& s.vaddr + s.mem_size <= u64::MAX
}

/// Address `entry` is in an executable segment.
pub open spec fn has_entry(segs: Seq<SegmentSpec>, entry: u64) -> bool {
    exists|i: int|
        0 <= i < segs.len() && (#[trigger] segs[i]).perm & pex::PERM_X != 0 && segs[i].vaddr
            <= entry < segs[i].vaddr + segs[i].mem_size
}

/// A number written in a byte string reads back.
proof fn lemma_field(b: Seq<u8>, at: int, v: nat, n: nat)
    requires
        0 <= at,
        at + n <= b.len(),
        v < bytes::radix(n),
        b.subrange(at, at + n) == bytes::le_bytes(v, n),
    ensures
        bytes::le_at(b, at, n as int) == v,
{
    bytes::law_le_round_trip(v, n);
}

proof fn lemma_header_fields(
    arch: u16,
    entry: u64,
    segs: Seq<SegmentSpec>,
    man: Seq<ManifestSpec>,
    rest: Seq<u8>,
)
    requires
        encode::counts_ok(segs, man),
        0 <= encode::image_len(segs, man) <= u32::MAX,
    ensures
        encode::header(arch, entry, segs, man).len() == HEADER_LEN,
        ({
            let b = encode::header(arch, entry, segs, man) + rest;
            &&& bytes::le_at(b, 0, 4) == PEX_MAGIC
            &&& bytes::le_at(b, 4, 2) == PEX_VERSION
            &&& bytes::le_at(b, 6, 2) == arch
            &&& bytes::le_at(b, 8, 8) == entry
            &&& bytes::le_at(b, 16, 4) == encode::image_len(segs, man)
            &&& bytes::le_at(b, 20, 4) == HEADER_LEN
            &&& bytes::le_at(b, 24, 2) == segs.len()
            &&& bytes::le_at(b, 26, 2) == man.len()
            &&& bytes::le_at(b, 28, 4) == encode::manifest_off(segs)
            &&& bytes::le_at(b, 32, 4) == 0
            &&& bytes::le_at(b, 36, 4) == 0
            &&& bytes::le_at(b, 40, 8) == 0
        }),
{
    let h = encode::header(arch, entry, segs, man);
    let b = h + rest;
    bytes::lemma_radix_values();
    bytes::lemma_le_bytes_len(PEX_MAGIC as nat, 4);
    bytes::lemma_le_bytes_len(PEX_VERSION as nat, 2);
    bytes::lemma_le_bytes_len(arch as nat, 2);
    bytes::lemma_le_bytes_len(entry as nat, 8);
    bytes::lemma_le_bytes_len(encode::image_len(segs, man) as nat, 4);
    bytes::lemma_le_bytes_len(HEADER_LEN as nat, 4);
    bytes::lemma_le_bytes_len(segs.len(), 2);
    bytes::lemma_le_bytes_len(man.len(), 2);
    bytes::lemma_le_bytes_len(encode::manifest_off(segs) as nat, 4);
    encode::lemma_le_bytes_of_zero(4);
    encode::lemma_le_bytes_of_zero(8);
    assert(b.subrange(0, 4) =~= bytes::le_bytes(PEX_MAGIC as nat, 4));
    lemma_field(b, 0, PEX_MAGIC as nat, 4);
    assert(b.subrange(4, 6) =~= bytes::le_bytes(PEX_VERSION as nat, 2));
    lemma_field(b, 4, PEX_VERSION as nat, 2);
    assert(b.subrange(6, 8) =~= bytes::le_bytes(arch as nat, 2));
    lemma_field(b, 6, arch as nat, 2);
    assert(b.subrange(8, 16) =~= bytes::le_bytes(entry as nat, 8));
    lemma_field(b, 8, entry as nat, 8);
    assert(b.subrange(16, 20) =~= bytes::le_bytes(encode::image_len(segs, man) as nat, 4));
    lemma_field(b, 16, encode::image_len(segs, man) as nat, 4);
    assert(b.subrange(20, 24) =~= bytes::le_bytes(HEADER_LEN as nat, 4));
    lemma_field(b, 20, HEADER_LEN as nat, 4);
    assert(b.subrange(24, 26) =~= bytes::le_bytes(segs.len(), 2));
    lemma_field(b, 24, segs.len(), 2);
    assert(b.subrange(26, 28) =~= bytes::le_bytes(man.len(), 2));
    lemma_field(b, 26, man.len(), 2);
    assert(b.subrange(28, 32) =~= bytes::le_bytes(encode::manifest_off(segs) as nat, 4));
    lemma_field(b, 28, encode::manifest_off(segs) as nat, 4);
    assert(b.subrange(32, 36) =~= encode::zeros(4));
    lemma_field(b, 32, 0, 4);
    assert(b.subrange(36, 40) =~= encode::zeros(4));
    lemma_field(b, 36, 0, 4);
    assert(b.subrange(40, 48) =~= encode::zeros(8));
    lemma_field(b, 40, 0, 8);
}

/// Record `i` of the segment table.
proof fn lemma_segment_table_entry(segs: Seq<SegmentSpec>, start: int, n: int, i: int)
    requires
        0 <= i < n,
    ensures
        encode::segment_table(segs, start, n).len() == n * SEGMENT_LEN,
        encode::segment_table(segs, start, n).subrange(i * SEGMENT_LEN, i * SEGMENT_LEN + 32)
            == encode::segment_record(segs, start, i),
    decreases n,
{
    encode::lemma_table_lens(segs, start, Seq::empty(), n - 1);
    encode::lemma_table_lens(segs, start, Seq::empty(), n);
    encode::lemma_record_lens(segs, start, Seq::empty(), n - 1);
    let t = encode::segment_table(segs, start, n);
    if i < n - 1 {
        lemma_segment_table_entry(segs, start, n - 1, i);
        assert(t.subrange(i * 32, i * 32 + 32) =~= encode::segment_table(
            segs,
            start,
            n - 1,
        ).subrange(i * 32, i * 32 + 32));
    } else {
        assert(t.subrange(i * 32, i * 32 + 32) =~= encode::segment_record(segs, start, i));
    }
}

/// Record `i` of the manifest.
proof fn lemma_manifest_table_entry(man: Seq<ManifestSpec>, n: int, i: int)
    requires
        0 <= i < n,
    ensures
        encode::manifest_table(man, n).len() == n * MANIFEST_LEN,
        encode::manifest_table(man, n).subrange(i * MANIFEST_LEN, i * MANIFEST_LEN + 32)
            == encode::manifest_record(man[i]),
    decreases n,
{
    encode::lemma_table_lens(Seq::empty(), 0, man, n - 1);
    encode::lemma_table_lens(Seq::empty(), 0, man, n);
    encode::lemma_record_lens(Seq::empty(), 0, man, n - 1);
    let t = encode::manifest_table(man, n);
    if i < n - 1 {
        lemma_manifest_table_entry(man, n - 1, i);
        assert(t.subrange(i * 32, i * 32 + 32) =~= encode::manifest_table(man, n - 1).subrange(
            i * 32,
            i * 32 + 32,
        ));
    } else {
        assert(t.subrange(i * 32, i * 32 + 32) =~= encode::manifest_record(man[i]));
    }
}

/// The file bytes of segment `i`.
proof fn lemma_segment_bytes_entry(segs: Seq<SegmentSpec>, n: int, i: int)
    requires
        0 <= i < n,
    ensures
        encode::segment_bytes(segs, n).len() == encode::data_len(segs, n),
        0 <= encode::data_len(segs, i),
        encode::data_len(segs, i) + segs[i].data@.len() <= encode::data_len(segs, n),
        encode::segment_bytes(segs, n).subrange(
            encode::data_len(segs, i),
            encode::data_len(segs, i) + segs[i].data@.len(),
        ) == segs[i].data@,
    decreases n,
{
    encode::lemma_table_lens(segs, 0, Seq::empty(), n - 1);
    encode::lemma_table_lens(segs, 0, Seq::empty(), n);
    encode::lemma_data_len_grows(segs, i, n - 1);
    let d = encode::segment_bytes(segs, n);
    let lo = encode::data_len(segs, i);
    let hi = lo + segs[i].data@.len();
    if i < n - 1 {
        lemma_segment_bytes_entry(segs, n - 1, i);
        assert(d.subrange(lo, hi) =~= encode::segment_bytes(segs, n - 1).subrange(lo, hi));
    } else {
        assert(d.subrange(lo, hi) =~= segs[i].data@);
    }
}

/// The fields of a segment record.
proof fn lemma_segment_record_fields(
    b: Seq<u8>,
    base: int,
    segs: Seq<SegmentSpec>,
    start: int,
    i: int,
)
    requires
        0 <= base,
        base + 32 <= b.len(),
        b.subrange(base, base + 32) == encode::segment_record(segs, start, i),
        0 <= start + encode::data_len(segs, i) <= u32::MAX,
        segs[i].data@.len() <= u32::MAX,
    ensures
        pex::segment_at(b, base) == (Segment {
            file_off: (start + encode::data_len(segs, i)) as u32,
            file_size: segs[i].data@.len() as u32,
            vaddr: segs[i].vaddr,
            mem_size: segs[i].mem_size,
            perm: segs[i].perm,
        }),
{
    let r = encode::segment_record(segs, start, i);
    let off = (start + encode::data_len(segs, i)) as nat;
    bytes::lemma_radix_values();
    bytes::lemma_le_bytes_len(off, 4);
    bytes::lemma_le_bytes_len(segs[i].data@.len(), 4);
    bytes::lemma_le_bytes_len(segs[i].vaddr as nat, 8);
    bytes::lemma_le_bytes_len(segs[i].mem_size as nat, 8);
    assert forall|k: int| 0 <= k < 32 implies b[base + k] == #[trigger] r[k] by {
        assert(b.subrange(base, base + 32)[k] == r[k]);
    }
    assert(b.subrange(base, base + 4) =~= bytes::le_bytes(off, 4)) by {
        assert(b.subrange(base, base + 4) =~= r.subrange(0, 4));
    }
    lemma_field(b, base, off, 4);
    assert(b.subrange(base + 4, base + 8) =~= bytes::le_bytes(segs[i].data@.len(), 4)) by {
        assert(b.subrange(base + 4, base + 8) =~= r.subrange(4, 8));
    }
    lemma_field(b, base + 4, segs[i].data@.len(), 4);
    assert(b.subrange(base + 8, base + 16) =~= bytes::le_bytes(segs[i].vaddr as nat, 8)) by {
        assert(b.subrange(base + 8, base + 16) =~= r.subrange(8, 16));
    }
    lemma_field(b, base + 8, segs[i].vaddr as nat, 8);
    assert(b.subrange(base + 16, base + 24) =~= bytes::le_bytes(segs[i].mem_size as nat, 8)) by {
        assert(b.subrange(base + 16, base + 24) =~= r.subrange(16, 24));
    }
    lemma_field(b, base + 16, segs[i].mem_size as nat, 8);
    assert(b[base + 24] == r[24]);
}

/// The fields of a manifest record.
proof fn lemma_manifest_record_fields(b: Seq<u8>, base: int, m: ManifestSpec)
    requires
        0 <= base,
        base + 32 <= b.len(),
        b.subrange(base, base + 32) == encode::manifest_record(m),
    ensures
        pex::manifest_at(b, base) == (ManifestEntry {
            cap_type: m.cap_type,
            dest_slot: m.dest_slot,
            rights: m.rights,
            param0: m.param0,
            param1: m.param1,
        }),
{
    let r = encode::manifest_record(m);
    bytes::lemma_radix_values();
    bytes::lemma_le_bytes_len(m.dest_slot as nat, 2);
    bytes::lemma_le_bytes_len(m.rights as nat, 4);
    bytes::lemma_le_bytes_len(m.param0 as nat, 8);
    bytes::lemma_le_bytes_len(m.param1 as nat, 8);
    assert forall|k: int| 0 <= k < 32 implies b[base + k] == #[trigger] r[k] by {
        assert(b.subrange(base, base + 32)[k] == r[k]);
    }
    assert(b[base + 0] == r[0]);
    assert(b.subrange(base + 2, base + 4) =~= bytes::le_bytes(m.dest_slot as nat, 2)) by {
        assert(b.subrange(base + 2, base + 4) =~= r.subrange(2, 4));
    }
    lemma_field(b, base + 2, m.dest_slot as nat, 2);
    assert(b.subrange(base + 4, base + 8) =~= bytes::le_bytes(m.rights as nat, 4)) by {
        assert(b.subrange(base + 4, base + 8) =~= r.subrange(4, 8));
    }
    lemma_field(b, base + 4, m.rights as nat, 4);
    assert(b.subrange(base + 8, base + 16) =~= bytes::le_bytes(m.param0 as nat, 8)) by {
        assert(b.subrange(base + 8, base + 16) =~= r.subrange(8, 16));
    }
    lemma_field(b, base + 8, m.param0 as nat, 8);
    assert(b.subrange(base + 16, base + 24) =~= bytes::le_bytes(m.param1 as nat, 8)) by {
        assert(b.subrange(base + 16, base + 24) =~= r.subrange(16, 24));
    }
    lemma_field(b, base + 16, m.param1 as nat, 8);
}

/// Segment `i` of an encoded image.
proof fn lemma_encoded_segment(
    arch: u16,
    entry: u64,
    segs: Seq<SegmentSpec>,
    man: Seq<ManifestSpec>,
    i: int,
)
    requires
        encode::counts_ok(segs, man),
        encode::image_len(segs, man) <= u32::MAX,
        0 <= i < segs.len(),
    ensures
        ({
            let p = PexView::of(encode::image(arch, entry, segs, man));
            &&& p.segment(i) == (Segment {
                file_off: (encode::data_off(segs, man) + encode::data_len(segs, i)) as u32,
                file_size: segs[i].data@.len() as u32,
                vaddr: segs[i].vaddr,
                mem_size: segs[i].mem_size,
                perm: segs[i].perm,
            })
            &&& p.segment_data(i) == segs[i].data@
            &&& p.segment(i).file_off + p.segment(i).file_size <= p.bytes.len()
        }),
{
    let n = segs.len() as int;
    let m = man.len() as int;
    let start = encode::data_off(segs, man);
    let h = encode::header(arch, entry, segs, man);
    let st = encode::segment_table(segs, start, n);
    let mt = encode::manifest_table(man, m);
    let d = encode::segment_bytes(segs, n);
    let b = encode::image(arch, entry, segs, man);
    let rest = st + mt + d;
    encode::lemma_data_len_grows(segs, 0, n);
    assert(b =~= h + rest);
    lemma_header_fields(arch, entry, segs, man, rest);
    encode::lemma_table_lens(segs, start, man, n);
    encode::lemma_table_lens(segs, start, man, m);
    lemma_segment_table_entry(segs, start, n, i);
    let base = HEADER_LEN + i * SEGMENT_LEN;
    assert(b.subrange(base, base + 32) =~= st.subrange(i * 32, i * 32 + 32));
    lemma_segment_bytes_entry(segs, n, i);
    lemma_segment_record_fields(b, base, segs, start, i);
    let lo = encode::data_len(segs, i);
    let hi = lo + segs[i].data@.len();
    assert(b.subrange(start + lo, start + hi) =~= d.subrange(lo, hi));
}

/// What the encoder writes, the parser accepts, and reads the same back: entry point, segments
/// with their file bytes, and manifest.
pub proof fn law_encoded_images_parse(
    arch: u16,
    entry: u64,
    segs: Seq<SegmentSpec>,
    man: Seq<ManifestSpec>,
)
    requires
        encode::counts_ok(segs, man),
        encode::image_len(segs, man) <= u32::MAX,
        forall|i: int| 0 <= i < segs.len() ==> encodable(#[trigger] segs[i]),
        has_entry(segs, entry),
    ensures
        pex::parse_error(encode::image(arch, entry, segs, man), arch) is None,
        ({
            let p = PexView::of(encode::image(arch, entry, segs, man));
            &&& p.entry == entry
            &&& p.seg_count == segs.len()
            &&& p.man_count == man.len()
            &&& forall|i: int|
                0 <= i < segs.len() ==> {
                    &&& (#[trigger] p.segment(i)).vaddr == segs[i].vaddr
                    &&& p.segment(i).mem_size == segs[i].mem_size
                    &&& p.segment(i).perm == segs[i].perm
                    &&& p.segment_data(i) == segs[i].data@
                }
            &&& forall|i: int|
                0 <= i < man.len() ==> #[trigger] p.manifest(i) == (ManifestEntry {
                    cap_type: man[i].cap_type,
                    dest_slot: man[i].dest_slot,
                    rights: man[i].rights,
                    param0: man[i].param0,
                    param1: man[i].param1,
                })
        }),
{
    let n = segs.len() as int;
    let m = man.len() as int;
    let start = encode::data_off(segs, man);
    let h = encode::header(arch, entry, segs, man);
    let st = encode::segment_table(segs, start, n);
    let mt = encode::manifest_table(man, m);
    let d = encode::segment_bytes(segs, n);
    let b = encode::image(arch, entry, segs, man);
    let rest = st + mt + d;
    encode::lemma_data_len_grows(segs, 0, n);
    assert(b =~= h + rest);
    lemma_header_fields(arch, entry, segs, man, rest);
    encode::lemma_table_lens(segs, start, man, n);
    encode::lemma_table_lens(segs, start, man, m);
    let p = PexView::of(b);
    assert(b.len() == encode::image_len(segs, man));
    assert forall|i: int| 0 <= i < segs.len() implies {
        &&& (#[trigger] p.segment(i)).vaddr == segs[i].vaddr
        &&& p.segment(i).mem_size == segs[i].mem_size
        &&& p.segment(i).perm == segs[i].perm
        &&& p.segment_data(i) == segs[i].data@
        &&& pex::segment_error(p.segment(i), b.len()) is None
    } by {
        lemma_encoded_segment(arch, entry, segs, man, i);
        assert(encodable(segs[i]));
    }
    assert forall|i: int| 0 <= i < man.len() implies #[trigger] p.manifest(i) == (ManifestEntry {
        cap_type: man[i].cap_type,
        dest_slot: man[i].dest_slot,
        rights: man[i].rights,
        param0: man[i].param0,
        param1: man[i].param1,
    }) by {
        lemma_manifest_table_entry(man, m, i);
        let base = encode::manifest_off(segs) + i * MANIFEST_LEN;
        assert(b.subrange(base, base + 32) =~= mt.subrange(i * 32, i * 32 + 32));
        lemma_manifest_record_fields(b, base, man[i]);
    }
    lemma_good_segments(p, 0);
    let e = choose|i: int|
        0 <= i < segs.len() && (#[trigger] segs[i]).perm & pex::PERM_X != 0 && segs[i].vaddr
            <= entry < segs[i].vaddr + segs[i].mem_size;
    assert(p.segment(e).executes() && p.segment(e).spans(p.entry));
}

proof fn lemma_good_segments(p: PexView, i: int)
    requires
        0 <= i,
        forall|k: int|
            0 <= k < p.seg_count ==> pex::segment_error(#[trigger] p.segment(k), p.bytes.len()) is None,
    ensures
        p.segments_error(i) is None,
    decreases p.seg_count - i,
{
    if i < p.seg_count {
        assert(pex::segment_error(p.segment(i), p.bytes.len()) is None);
        lemma_good_segments(p, i + 1);
    }
}

/// No accepted image has a segment that is both writable and executable, and its entry point is
/// in an executable segment.
pub proof fn law_accepted_images_keep_wx_apart(b: Seq<u8>, arch: u16, i: int)
    requires
        pex::parse_error(b, arch) is None,
        0 <= i < PexView::of(b).seg_count,
    ensures
        !(PexView::of(b).segment(i).writes() && PexView::of(b).segment(i).executes()),
        PexView::of(b).segment(i).file_size <= PexView::of(b).segment(i).mem_size,
        PexView::of(b).segment_data(i).len() == PexView::of(b).segment(i).file_size,
        PexView::of(b).entry_in(PexView::of(b).seg_count),
{
    pex::law_accepted_images_are_sound(b, arch);
    let p = PexView::of(b);
    let s = p.segment(i);
    assert(pex::segment_error(s, b.len()) is None);
    let perm = s.perm;
    assert(!(perm & 2u8 != 0 && perm & 4u8 != 0)) by (bit_vector)
        requires
            perm == 1u8 || perm == 1u8 | 2u8 || perm == 1u8 | 4u8,
    ;
}


/// An image has its header of 48 bytes first, then 32 bytes for each segment, 32 for each entry of the
/// manifest, and the file bytes of the segments one behind the other, with nothing left over. It is
/// within the limits of the format if it has no more than 16 segments and 32 entries.
pub proof fn law_images_have_no_gaps(
    arch: u16,
    entry: u64,
    segs: Seq<SegmentSpec>,
    man: Seq<ManifestSpec>,
    i: int,
)
    requires
        encode::counts_ok(segs, man),
        encode::image_len(segs, man) <= u32::MAX,
        0 <= i < segs.len(),
    ensures
        ({
            let b = encode::image(arch, entry, segs, man);
            let p = PexView::of(b);
            let n = segs.len() as int;
            let data = 48 + 32 * n + 32 * man.len();
            &&& n <= 16 && man.len() <= 32
            &&& p.seg_off == 48
            &&& p.man_off == 48 + 32 * n
            &&& p.segment(0).file_off == data
            &&& p.segment(i).file_size == segs[i].data@.len()
            &&& i + 1 < n ==> p.segment(i + 1).file_off == p.segment(i).file_off
                + p.segment(i).file_size
            &&& i + 1 == n ==> p.segment(i).file_off + p.segment(i).file_size == b.len()
        }),
{
    let n = segs.len() as int;
    let m = man.len() as int;
    let start = encode::data_off(segs, man);
    let h = encode::header(arch, entry, segs, man);
    let st = encode::segment_table(segs, start, n);
    let mt = encode::manifest_table(man, m);
    let d = encode::segment_bytes(segs, n);
    let b = encode::image(arch, entry, segs, man);
    let rest = st + mt + d;
    assert(b =~= h + rest);
    encode::lemma_data_len_grows(segs, 0, n);
    encode::lemma_data_len_grows(segs, 0, i);
    encode::lemma_data_len_grows(segs, i, n);
    encode::lemma_data_len_grows(segs, i + 1, n);
    lemma_header_fields(arch, entry, segs, man, rest);
    encode::lemma_table_lens(segs, start, man, n);
    encode::lemma_table_lens(segs, start, man, m);
    assert(encode::data_len(segs, 0) == 0);
    assert(encode::data_len(segs, i + 1) == encode::data_len(segs, i) + segs[i].data@.len());
    lemma_encoded_segment(arch, entry, segs, man, 0);
    lemma_encoded_segment(arch, entry, segs, man, i);
    if i + 1 < n {
        lemma_encoded_segment(arch, entry, segs, man, i + 1);
    }
}

} // verus!
