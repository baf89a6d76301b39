//! A `.pex` encoder: it writes an image that [`crate::abi::pex::Pex::parse`] accepts into a buffer
//! that the caller provides.

use crate::abi::pex::{
    HEADER_LEN, MANIFEST_LEN, MAX_MANIFEST, MAX_SEGMENTS, PEX_MAGIC, PEX_VERSION, SEGMENT_LEN,
};
use crate::bytes;
use vstd::prelude::*;

verus! {

/// A segment to encode.
pub struct SegmentSpec<'a> {
    /// The address to map it at.
    pub vaddr: u64,
    /// The size of its memory.
    pub mem_size: u64,
    /// Its permission bits.
    pub perm: u8,
    /// Its file bytes.
    pub data: &'a [u8],
}

/// A manifest entry to encode.
pub struct ManifestSpec {
    /// Its type (`MANIFEST_*`).
    pub cap_type: u8,
    /// The slot that the capability goes to.
    pub dest_slot: u16,
    /// The rights asked for.
    pub rights: u32,
    /// The first parameter.
    pub param0: u64,
    /// The second parameter.
    pub param1: u64,
}

/// `n` zero bytes.
pub open spec fn zeros(n: nat) -> Seq<u8> {
    Seq::new(n, |i: int| 0u8)
}

/// The number of file bytes in the first `n` segments.
pub open spec fn data_len(segs: Seq<SegmentSpec>, n: int) -> int
    decreases n,
{
    if n <= 0 {
        0
    } else {
        data_len(segs, n - 1) + segs[n - 1].data@.len()
    }
}

/// Where the manifest starts.
pub open spec fn manifest_off(segs: Seq<SegmentSpec>) -> int {
    HEADER_LEN + segs.len() * SEGMENT_LEN
}

/// Where the file bytes start.
pub open spec fn data_off(segs: Seq<SegmentSpec>, man: Seq<ManifestSpec>) -> int {
    manifest_off(segs) + man.len() * MANIFEST_LEN
}

/// The length of the image.
pub open spec fn image_len(segs: Seq<SegmentSpec>, man: Seq<ManifestSpec>) -> int {
    data_off(segs, man) + data_len(segs, segs.len() as int)
}

/// The header of the image.
pub open spec fn header(
    arch: u16,
    entry: u64,
    segs: Seq<SegmentSpec>,
    man: Seq<ManifestSpec>,
) -> Seq<u8> {
    bytes::le_bytes(PEX_MAGIC as nat, 4) + bytes::le_bytes(PEX_VERSION as nat, 2) + bytes::le_bytes(
        arch as nat,
        2,
    ) + bytes::le_bytes(entry as nat, 8) + bytes::le_bytes(image_len(segs, man) as nat, 4)
        + bytes::le_bytes(HEADER_LEN as nat, 4) + bytes::le_bytes(segs.len(), 2) + bytes::le_bytes(
        man.len(),
        2,
    ) + bytes::le_bytes(manifest_off(segs) as nat, 4) + zeros(16)
}

/// The record of segment `i`.
pub open spec fn segment_record(segs: Seq<SegmentSpec>, start: int, i: int) -> Seq<u8> {
    bytes::le_bytes((start + data_len(segs, i)) as nat, 4) + bytes::le_bytes(
        segs[i].data@.len(),
        4,
    ) + bytes::le_bytes(segs[i].vaddr as nat, 8) + bytes::le_bytes(segs[i].mem_size as nat, 8)
        + seq![segs[i].perm] + zeros(7)
}

/// The records of the first `n` segments.
pub open spec fn segment_table(segs: Seq<SegmentSpec>, start: int, n: int) -> Seq<u8>
    decreases n,
{
    if n <= 0 {
        Seq::empty()
    } else {
        segment_table(segs, start, n - 1) + segment_record(segs, start, n - 1)
    }
}

/// The record of a manifest entry.
pub open spec fn manifest_record(m: ManifestSpec) -> Seq<u8> {
    seq![m.cap_type, 0u8] + bytes::le_bytes(m.dest_slot as nat, 2) + bytes::le_bytes(
        m.rights as nat,
        4,
    ) + bytes::le_bytes(m.param0 as nat, 8) + bytes::le_bytes(m.param1 as nat, 8) + zeros(8)
}

/// The records of the first `n` manifest entries.
pub open spec fn manifest_table(man: Seq<ManifestSpec>, n: int) -> Seq<u8>
    decreases n,
{
    if n <= 0 {
        Seq::empty()
    } else {
        manifest_table(man, n - 1) + manifest_record(man[n - 1])
    }
}

/// The file bytes of the first `n` segments.
pub open spec fn segment_bytes(segs: Seq<SegmentSpec>, n: int) -> Seq<u8>
    decreases n,
{
    if n <= 0 {
        Seq::empty()
    } else {
        segment_bytes(segs, n - 1) + segs[n - 1].data@
    }
}

/// The image: header, segment table, manifest, file bytes.
pub open spec fn image(
    arch: u16,
    entry: u64,
    segs: Seq<SegmentSpec>,
    man: Seq<ManifestSpec>,
) -> Seq<u8> {
    header(arch, entry, segs, man) + segment_table(segs, data_off(segs, man), segs.len() as int)
        + manifest_table(man, man.len() as int) + segment_bytes(segs, segs.len() as int)
}

/// The counts are within the limits of the format.
pub open spec fn counts_ok(segs: Seq<SegmentSpec>, man: Seq<ManifestSpec>) -> bool {
    segs.len() <= MAX_SEGMENTS && man.len() <= MAX_MANIFEST
}

/// The length of the image with these segments and this manifest; `None` if there are too many of
/// them, or the length does not fit.
#[must_use]
pub fn encoded_len(segs: &[SegmentSpec], man: &[ManifestSpec]) -> (r: Option<usize>)
    ensures
        match r {
            Some(len) => counts_ok(segs@, man@) && len == image_len(segs@, man@),
            None => !counts_ok(segs@, man@) || image_len(segs@, man@) > usize::MAX,
        },
{
    if segs.len() > MAX_SEGMENTS || man.len() > MAX_MANIFEST {
        return None;
    }
    let start: usize = HEADER_LEN + segs.len() * SEGMENT_LEN + man.len() * MANIFEST_LEN;
    let mut len: usize = start;
    let mut i: usize = 0;
    while i < segs.len()
        invariant
            i <= segs@.len(),
            counts_ok(segs@, man@),
            start == data_off(segs@, man@),
            len == start + data_len(segs@, i as int),
        decreases segs@.len() - i,
    {
        match len.checked_add(segs[i].data.len()) {
            None => {
                proof {
                    lemma_data_len_grows(segs@, i + 1, segs@.len() as int);
                }
                return None;
            },
            Some(more) => {
                len = more;
            },
        }
        i = i + 1;
    }
    Some(len)
}

pub proof fn lemma_data_len_grows(segs: Seq<SegmentSpec>, i: int, j: int)
    requires
        0 <= i <= j,
    ensures
        0 <= data_len(segs, i) <= data_len(segs, j),
    decreases j,
{
    if i < j {
        lemma_data_len_grows(segs, i, j - 1);
    } else if 0 < i {
        lemma_data_len_grows(segs, i - 1, i - 1);
    }
}

/// Write `v` as `n` bytes after what is written.
fn append_le(out: &mut [u8], at: &mut usize, v: u64, n: usize)
    requires
        *old(at) + n <= old(out)@.len(),
    ensures
        *final(at) == *old(at) + n,
        final(out)@.len() == old(out)@.len(),
        final(out)@.take(*final(at) as int) == old(out)@.take(*old(at) as int) + bytes::le_bytes(
            v as nat,
            n as nat,
        ),
        forall|k: int|
            *final(at) <= k < old(out)@.len() ==> #[trigger] final(out)@[k] == old(out)@[k],
{
    let _len: usize = out.len();
    bytes::put_le(out, *at, v, n);
    proof {
        bytes::lemma_le_bytes_len(v as nat, n as nat);
        assert(out@.take(*at + n) =~= old(out)@.take(*at as int) + bytes::le_bytes(
            v as nat,
            n as nat,
        ));
    }
    *at = *at + n;
}

/// Write `data` after what is written.
fn append(out: &mut [u8], at: &mut usize, data: &[u8])
    requires
        *old(at) + data@.len() <= old(out)@.len(),
    ensures
        *final(at) == *old(at) + data@.len(),
        final(out)@.len() == old(out)@.len(),
        final(out)@.take(*final(at) as int) == old(out)@.take(*old(at) as int) + data@,
        forall|k: int|
            *final(at) <= k < old(out)@.len() ==> #[trigger] final(out)@[k] == old(out)@[k],
{
    let _len: usize = out.len();
    let n: usize = data.len();
    let base: usize = *at;
    let mut i: usize = 0;
    while i < n
        invariant
            i <= n,
            n == data@.len(),
            base + n <= out@.len(),
            out@.len() == old(out)@.len(),
            out@.len() <= usize::MAX,
            forall|k: int|
                0 <= k < out@.len() ==> #[trigger] out@[k] == (if base <= k < base + i {
                    data@[k - base]
                } else {
                    old(out)@[k]
                }),
        decreases n - i,
    {
        out[base + i] = data[i];
        i = i + 1;
    }
    *at = base + n;
    proof {
        assert(out@.take(base + n) =~= old(out)@.take(base as int) + data@);
    }
}

/// Write `n` zero bytes after what is written.
fn append_zeros(out: &mut [u8], at: &mut usize, n: usize)
    requires
        *old(at) + n <= old(out)@.len(),
        n <= 64,
    ensures
        *final(at) == *old(at) + n,
        final(out)@.len() == old(out)@.len(),
        final(out)@.take(*final(at) as int) == old(out)@.take(*old(at) as int) + zeros(n as nat),
        forall|k: int|
            *final(at) <= k < old(out)@.len() ==> #[trigger] final(out)@[k] == old(out)@[k],
{
    append_le(out, at, 0, n);
    proof {
        lemma_le_bytes_of_zero(n as nat);
    }
}

/// Write one byte after what is written.
fn append_byte(out: &mut [u8], at: &mut usize, v: u8)
    requires
        *old(at) < old(out)@.len(),
    ensures
        *final(at) == *old(at) + 1,
        final(out)@.len() == old(out)@.len(),
        final(out)@.take(*final(at) as int) == old(out)@.take(*old(at) as int) + seq![v],
        forall|k: int|
            *final(at) <= k < old(out)@.len() ==> #[trigger] final(out)@[k] == old(out)@[k],
{
    let _len: usize = out.len();
    out[*at] = v;
    assert(out@.take(*at + 1) =~= old(out)@.take(*at as int) + seq![v]);
    *at = *at + 1;
}

pub proof fn lemma_le_bytes_of_zero(n: nat)
    ensures
        bytes::le_bytes(0, n) == zeros(n),
    decreases n,
{
    if n > 0 {
        lemma_le_bytes_of_zero((n - 1) as nat);
    }
    assert(bytes::le_bytes(0, n) =~= zeros(n));
}

pub proof fn lemma_table_lens(segs: Seq<SegmentSpec>, start: int, man: Seq<ManifestSpec>, n: int)
    requires
        0 <= n,
    ensures
        segment_table(segs, start, n).len() == n * SEGMENT_LEN,
        manifest_table(man, n).len() == n * MANIFEST_LEN,
        segment_bytes(segs, n).len() == data_len(segs, n),
    decreases n,
{
    if n > 0 {
        lemma_table_lens(segs, start, man, n - 1);
        lemma_record_lens(segs, start, man, n - 1);
    }
}

pub proof fn lemma_record_lens(segs: Seq<SegmentSpec>, start: int, man: Seq<ManifestSpec>, i: int)
    ensures
        segment_record(segs, start, i).len() == SEGMENT_LEN,
        manifest_record(man[i]).len() == MANIFEST_LEN,
{
    bytes::lemma_le_bytes_len((start + data_len(segs, i)) as nat, 4);
    bytes::lemma_le_bytes_len(segs[i].data@.len(), 4);
    bytes::lemma_le_bytes_len(segs[i].vaddr as nat, 8);
    bytes::lemma_le_bytes_len(segs[i].mem_size as nat, 8);
    bytes::lemma_le_bytes_len(man[i].dest_slot as nat, 2);
    bytes::lemma_le_bytes_len(man[i].rights as nat, 4);
    bytes::lemma_le_bytes_len(man[i].param0 as nat, 8);
    bytes::lemma_le_bytes_len(man[i].param1 as nat, 8);
}

fn append_header(
    out: &mut [u8],
    at: &mut usize,
    arch: u16,
    entry: u64,
    segs: &[SegmentSpec],
    man: &[ManifestSpec],
    total: u32,
)
    requires
        *old(at) == 0,
        total == image_len(segs@, man@),
        total <= old(out)@.len(),
        counts_ok(segs@, man@),
    ensures
        *final(at) == HEADER_LEN,
        final(out)@.len() == old(out)@.len(),
        final(out)@.take(HEADER_LEN as int) == header(arch, entry, segs@, man@),
        forall|k: int|
            HEADER_LEN <= k < old(out)@.len() ==> #[trigger] final(out)@[k] == old(out)@[k],
{
    let nseg: usize = segs.len();
    let nman: usize = man.len();
    proof {
        lemma_data_len_grows(segs@, 0, segs@.len() as int);
        assert(out@.take(0) =~= Seq::empty());
        assert(Seq::<u8>::empty() + bytes::le_bytes(PEX_MAGIC as nat, 4) =~= bytes::le_bytes(
            PEX_MAGIC as nat,
            4,
        ));
    }
    append_le(out, at, PEX_MAGIC as u64, 4);
    append_le(out, at, PEX_VERSION as u64, 2);
    append_le(out, at, arch as u64, 2);
    append_le(out, at, entry, 8);
    append_le(out, at, total as u64, 4);
    append_le(out, at, HEADER_LEN as u64, 4);
    append_le(out, at, nseg as u64, 2);
    append_le(out, at, nman as u64, 2);
    append_le(out, at, (HEADER_LEN + nseg * SEGMENT_LEN) as u64, 4);
    append_zeros(out, at, 16);
}

/// Encode an image into `out` and return its length. `None`, with nothing written, if there are
/// too many segments or manifest entries, `out` is too small, or the length does not fit in the
/// header.
#[must_use]
pub fn encode(
    arch: u16,
    entry: u64,
    segs: &[SegmentSpec],
    man: &[ManifestSpec],
    out: &mut [u8],
) -> (r: Option<usize>)
    ensures
        match r {
            Some(total) => {
                &&& counts_ok(segs@, man@)
                &&& total == image_len(segs@, man@)
                &&& total <= u32::MAX
                &&& total <= old(out)@.len()
                &&& final(out)@ == image(arch, entry, segs@, man@) + old(out)@.skip(total as int)
            },
            None => {
                &&& {
                    ||| !counts_ok(segs@, man@)
                    ||| image_len(segs@, man@) > old(out)@.len()
                    ||| image_len(segs@, man@) > u32::MAX
                }
                &&& final(out)@ == old(out)@
            },
        },
{
    let total: usize = match encoded_len(segs, man) {
        None => {
            let _len: usize = out.len();
            return None;
        },
        Some(total) => total,
    };
    if out.len() < total || total as u64 > u32::MAX as u64 {
        return None;
    }
    let ghost before = out@;
    let nseg: usize = segs.len();
    let nman: usize = man.len();
    let start: usize = HEADER_LEN + nseg * SEGMENT_LEN + nman * MANIFEST_LEN;
    let mut at: usize = 0;
    append_header(out, &mut at, arch, entry, segs, man, total as u32);
    let ghost head = header(arch, entry, segs@, man@);
    proof {
        lemma_data_len_grows(segs@, 0, segs@.len() as int);
        assert(head + segment_table(segs@, start as int, 0) =~= head);
    }
    let mut cursor: usize = start;
    let mut i: usize = 0;
    while i < nseg
        invariant
            i <= nseg,
            nseg == segs@.len(),
            nman == man@.len(),
            start == data_off(segs@, man@),
            total == image_len(segs@, man@),
            total <= before.len(),
            out@.len() == before.len(),
            total <= u32::MAX,
            cursor == start + data_len(segs@, i as int),
            at == HEADER_LEN + i * SEGMENT_LEN,
            counts_ok(segs@, man@),
            out@.take(at as int) == head + segment_table(segs@, start as int, i as int),
            forall|k: int| at <= k < before.len() ==> #[trigger] out@[k] == before[k],
        decreases nseg - i,
    {
        proof {
            lemma_data_len_grows(segs@, i + 1, segs@.len() as int);
            lemma_data_len_grows(segs@, i as int, i as int);
        }
        let len: usize = segs[i].data.len();
        let ghost done = out@.take(at as int);
        append_le(out, &mut at, cursor as u64, 4);
        append_le(out, &mut at, len as u64, 4);
        append_le(out, &mut at, segs[i].vaddr, 8);
        append_le(out, &mut at, segs[i].mem_size, 8);
        append_byte(out, &mut at, segs[i].perm);
        append_zeros(out, &mut at, 7);
        assert(out@.take(at as int) =~= done + segment_record(segs@, start as int, i as int));
        cursor = cursor + len;
        i = i + 1;
        assert(out@.take(at as int) =~= head + segment_table(segs@, start as int, i as int));
    }
    let ghost table = head + segment_table(segs@, start as int, nseg as int);
    assert(table + manifest_table(man@, 0) =~= table);
    let mut j: usize = 0;
    while j < nman
        invariant
            j <= nman,
            nseg == segs@.len(),
            nman == man@.len(),
            start == data_off(segs@, man@),
            total == image_len(segs@, man@),
            total <= before.len(),
            out@.len() == before.len(),
            at == HEADER_LEN + nseg * SEGMENT_LEN + j * MANIFEST_LEN,
            start <= total,
            counts_ok(segs@, man@),
            out@.take(at as int) == table + manifest_table(man@, j as int),
            forall|k: int| at <= k < before.len() ==> #[trigger] out@[k] == before[k],
        decreases nman - j,
    {
        let ghost done = out@.take(at as int);
        append_byte(out, &mut at, man[j].cap_type);
        append_byte(out, &mut at, 0);
        append_le(out, &mut at, man[j].dest_slot as u64, 2);
        append_le(out, &mut at, man[j].rights as u64, 4);
        append_le(out, &mut at, man[j].param0, 8);
        append_le(out, &mut at, man[j].param1, 8);
        append_zeros(out, &mut at, 8);
        assert(out@.take(at as int) =~= done + manifest_record(man@[j as int]));
        j = j + 1;
        assert(out@.take(at as int) =~= table + manifest_table(man@, j as int));
    }
    let ghost tables = table + manifest_table(man@, nman as int);
    assert(tables + segment_bytes(segs@, 0) =~= tables);
    let mut i: usize = 0;
    while i < nseg
        invariant
            i <= nseg,
            nseg == segs@.len(),
            start == data_off(segs@, man@),
            total == image_len(segs@, man@),
            total <= before.len(),
            out@.len() == before.len(),
            at == start + data_len(segs@, i as int),
            out@.take(at as int) == tables + segment_bytes(segs@, i as int),
            forall|k: int| at <= k < before.len() ==> #[trigger] out@[k] == before[k],
        decreases nseg - i,
    {
        proof {
            lemma_data_len_grows(segs@, i + 1, segs@.len() as int);
        }
        append(out, &mut at, segs[i].data);
        i = i + 1;
        assert(out@.take(at as int) =~= tables + segment_bytes(segs@, i as int));
    }
    proof {
        assert(out@ =~= out@.take(total as int) + out@.skip(total as int));
        assert(out@.skip(total as int) =~= before.skip(total as int));
    }
    Some(total)
}

} // verus!
