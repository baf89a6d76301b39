//! What a loaded process gets, segment by segment and entry by entry.

use crate::abi::pex;
use crate::abi::pex::{ManifestEntry, PexView, Segment};
use crate::cap::cap::CapType;
use crate::cap::cspace::{Cptr, GrantMode};
use crate::cap::mdb;
use crate::cap::mdb::NIL;
use crate::cap::model;
use crate::cap::model::CSpaceView;
use crate::cap::outcomes;
use crate::cap::rights::Rights;
use crate::kernel::arch::range;
use crate::kernel::arch::tables;
use crate::kernel::arch::x86_64::paging;
use crate::kernel::arch::x86_64::paging::Pml4;
use crate::kernel::arch::Prot;
use crate::kernel::loader;
use crate::kernel::loader::layout;
use crate::kernel::loader::{LoadError, LoadState, SegmentMap};
use vstd::prelude::*;

verus! {

/// A segment is executed exactly if its permissions say so, and written to exactly if they say that
/// and do not say that it is executed.
pub proof fn law_permissions_become_protections(perm: u8)
    ensures
        (loader::prot_of(perm) == Prot::Rx) == (perm & 4 != 0),
        (loader::prot_of(perm) == Prot::Rw) == (perm & 4 == 0 && perm & 2 != 0),
        (loader::prot_of(perm) == Prot::Ro) == (perm & 4 == 0 && perm & 2 == 0),
{
}

/// A load that fails says why, and what it has done so far stays as it is.
pub proof fn law_failures_undo_nothing(st: LoadState, e: LoadError)
    ensures
        st.failed(e).error == Some(e),
        st.failed(e).loader == st.loader,
        st.failed(e).process == st.process,
        st.failed(e).maps == st.maps,
        st.failed(e).scratch == st.scratch,
        st.failed(e).first == st.first,
        st.failed(e).budget == st.budget,
{
}

/// A segment lies between 1 GiB and 2 GiB or is refused. It gets as many frames as it has pages, the
/// next of the loader's `Untyped`, which are cleared and which the loader keeps in the next scratch
/// slot; they are mapped at the segment's address with the protection of its permissions. The
/// process gets no capability by it.
pub proof fn law_a_segment_gets_its_frames(st: LoadState, s: Segment, i: int)
    requires
        st.loader.wf(),
        st.error is None,
        layout::untyped_in_reach(st.loader),
        0 <= st.scratch <= usize::MAX,
        0 <= i <= usize::MAX,
        s.mem_size <= 4096 * 4096,
        s.vaddr + s.mem_size <= u64::MAX,
    ensures
        ({
            let after = st.with_segment(s, i);
            let pages = (s.mem_size / 4096) as u32;
            let u = st.loader.slots[0].cap;
            let outside = s.vaddr < 0x4000_0000 || s.vaddr + s.mem_size > 0x8000_0000;
            let refused = st.loader.retype_error(
                0,
                CapType::Frame,
                pages,
                1,
                st.scratch as usize,
            );
            &&& outside ==> after == st.failed(LoadError::SegmentVaddrOutOfRange)
            &&& !outside && refused is Some ==> after == st.failed(LoadError::Cap(refused->0))
            &&& !outside && refused is None ==> {
                let map = after.maps[st.maps.len() as int];
                let frame = after.loader.slots[st.scratch].cap;
                let cleared = after.loader.zeroed[st.loader.zeroed.len() as int];
                &&& after.error is None
                &&& after.maps.len() == st.maps.len() + 1
                &&& forall|k: int|
                    0 <= k < st.maps.len() ==> #[trigger] after.maps[k] == st.maps[k]
                &&& map.index == i
                &&& map.vaddr == s.vaddr
                &&& map.pages == s.mem_size / 4096
                &&& map.pfn == u.objref + u.watermark
                &&& (map.prot == Prot::Rx) == (s.perm & 4 != 0)
                &&& (map.prot == Prot::Rw) == (s.perm & 4 == 0 && s.perm & 2 != 0)
                &&& frame.cap_type == CapType::Frame
                &&& frame.objref == map.pfn
                &&& frame.size == map.pages
                &&& after.loader.zeroed.len() == st.loader.zeroed.len() + 1
                &&& cleared == (map.pfn as u64, map.pages)
                &&& after.loader.slots[0].cap.watermark == u.watermark + map.pages
                &&& after.scratch == st.scratch + 1
                &&& after.first == st.first
                &&& after.process == st.process
                &&& after.budget == st.budget
            }
        }),
{
    let pages = (s.mem_size / 4096) as u32;
    let slot = st.scratch as usize;
    assert(pages == s.mem_size / 4096);
    if st.loader.retype_error(0, CapType::Frame, pages, 1, slot) is None {
        let u = st.loader.slots[0].cap;
        assert(mdb::live(st.loader.slots, 0));
        assert(!mdb::live(st.loader.slots, slot as int));
        assert(st.loader.retyped_frame(0, pages, 0) == u.objref + u.watermark);
        outcomes::law_retype_makes_what_was_asked_for(
            st.loader,
            0,
            CapType::Frame,
            pages,
            1,
            slot,
        );
        let after = st.loader.retyped(0, CapType::Frame, pages, 1, slot);
        assert(after.slots[slot + 0int].cap.objref == u.objref + u.watermark);
        assert(after.zeroed[st.loader.zeroed.len() + 0int].0 == u.objref + u.watermark);
    }
}

/// A grant gives the process what the loader has in a slot, with the rights and the badge that are
/// named, and takes it from the loader if it moves. Nothing else changes.
pub proof fn law_a_grant_gives_one_capability(
    st: LoadState,
    src: Cptr,
    dest: Cptr,
    rights: Rights,
    badge: u64,
    mode: GrantMode,
    i: int,
)
    requires
        st.error is None,
    ensures
        ({
            let after = st.with_grant(src, dest, rights, badge, mode);
            let refused = model::grant_error(st.loader, src, st.process, dest, rights, mode);
            let from = st.loader.slots[src as int].cap;
            let to = after.process.slots[dest as int].cap;
            &&& refused is Some ==> after == st.failed(LoadError::Cap(refused->0))
            &&& refused is None ==> {
                &&& after.error is None
                &&& to.cap_type == from.cap_type
                &&& to.objref == from.objref
                &&& to.size == from.size
                &&& to.watermark == from.watermark
                &&& to.aux == from.aux
                &&& to.rights == rights
                &&& to.badge == badge
                &&& from.rights.bits & rights.bits == rights.bits
                &&& after.process.slots[dest as int].parent == NIL
                &&& outcomes::same_but(st.process, after.process, dest as int)
                &&& mode == GrantMode::Mint ==> after.loader == st.loader
                &&& mode == GrantMode::Move ==> outcomes::cleared(after.loader, src as int)
                    && outcomes::same_but(st.loader, after.loader, src as int)
                &&& after.maps == st.maps
                &&& after.budget == st.budget
                &&& after.scratch == st.scratch
                &&& after.first == st.first
            }
        }),
{
}

/// An entry for a slot that a process does not have, for rights that do not exist, of a type that is
/// not known, or for a frame of a segment that is not there is refused, for that reason and in that
/// order, and changes nothing.
pub proof fn law_bad_entries_are_refused(st: LoadState, m: ManifestEntry, segments: int)
    requires
        segments >= 0,
    ensures
        ({
            let after = st.with_entry(m, segments);
            &&& m.dest_slot >= 16 ==> after == st.failed(LoadError::DestSlotOutOfRange)
            &&& m.dest_slot < 16 && m.rights & !0xfffu32 != 0 ==> after == st.failed(
                LoadError::BadRights,
            )
            &&& m.dest_slot < 16 && m.rights & !0xfffu32 == 0 && m.cap_type != 1 && m.cap_type != 2
                && m.cap_type != 3 ==> after == st.failed(
                LoadError::UnknownManifestType(m.cap_type),
            )
            &&& m.dest_slot < 16 && m.rights & !0xfffu32 == 0 && m.cap_type == 3
                && m.param0 as usize >= segments ==> after == st.failed(LoadError::BadSegmentRef)
        }),
{
}

/// An entry that is honoured fills its slot of the process, which was empty, and no other, with the
/// rights that it asks for: CPU time of the amount that it names, split off the loader's and no
/// longer with the loader; the loader's endpoint, with the badge that it names; or the frame of the
/// segment that it names.
pub proof fn law_an_entry_gives_what_it_names(st: LoadState, m: ManifestEntry, segments: int)
    requires
        st.error is None,
        st.loader.wf(),
        st.loader.next_obj < u64::MAX,
        2 < st.first,
        0 <= segments <= 16,
        st.first + segments <= st.scratch <= usize::MAX,
        st.with_entry(m, segments).error is None,
    ensures
        ({
            let after = st.with_entry(m, segments);
            let amount = m.param0 as u32;
            let got = after.process.slots[m.dest_slot as int].cap;
            let sched = st.loader.slots[1].cap;
            let endpoint = st.loader.slots[2].cap;
            let frame = st.loader.slots[st.first + (m.param0 as usize)].cap;
            &&& m.dest_slot < 16
            &&& m.cap_type == 1 || m.cap_type == 2 || m.cap_type == 3
            &&& m.dest_slot < st.process.slots.len()
            &&& st.process.slots[m.dest_slot as int].cap.cap_type == CapType::Null
            &&& got.rights.bits == m.rights
            &&& outcomes::same_but(st.process, after.process, m.dest_slot as int)
            &&& m.cap_type == 1 ==> {
                &&& got.cap_type == CapType::Sched
                &&& got.size == amount
                &&& got.watermark == 0
                &&& got.aux == sched.aux
                &&& got.badge == 0
                &&& got.objref == st.loader.next_obj
                &&& sched.rights.bits & m.rights == m.rights
                &&& after.loader.slots[1].cap.size == sched.size - amount
                &&& after.loader.slots[st.scratch].cap.cap_type == CapType::Null
                &&& after.budget == amount
                &&& after.scratch == st.scratch + 1
                &&& forall|i: int|
                    0 <= i < st.loader.slots.len() && i != 1 ==> (#[trigger] after.loader.slots[i]).cap
                        == st.loader.slots[i].cap || i == st.scratch
            }
            &&& m.cap_type == 2 ==> {
                &&& got.cap_type == endpoint.cap_type
                &&& got.objref == endpoint.objref
                &&& got.size == endpoint.size
                &&& got.badge == m.param0
                &&& endpoint.rights.bits & m.rights == m.rights
                &&& after.loader == st.loader
                &&& after.budget == st.budget
                &&& after.scratch == st.scratch
            }
            &&& m.cap_type == 3 ==> {
                &&& (m.param0 as usize) < segments
                &&& got.cap_type == frame.cap_type
                &&& got.objref == frame.objref
                &&& got.size == frame.size
                &&& got.badge == 0
                &&& frame.rights.bits & m.rights == m.rights
                &&& after.loader == st.loader
                &&& after.budget == st.budget
                &&& after.scratch == st.scratch
            }
            &&& after.maps == st.maps
            &&& after.first == st.first
        }),
{
    if m.cap_type == 1 {
        let slot = st.scratch as usize;
        let amount = m.param0 as u32;
        outcomes::law_split_moves_time_to_a_child(st.loader, 1, slot, amount);
    }
}

/// What the segments before the `n`th have become.
pub open spec fn segments_laid_out(st: LoadState, p: PexView, n: int) -> bool {
    &&& st.maps.len() == n
    &&& forall|k: int|
        0 <= k < n ==> {
            let map = #[trigger] st.maps[k];
            let s = p.segment(k);
            let frame = st.loader.slots[st.first + k].cap;
            &&& map.index == k
            &&& map.vaddr == s.vaddr
            &&& map.pages * 4096 == s.mem_size
            &&& (map.prot == Prot::Rx) == (s.perm & 4 != 0)
            &&& (map.prot == Prot::Rw) == (s.perm & 4 == 0 && s.perm & 2 != 0)
            &&& frame.cap_type == CapType::Frame
            &&& frame.objref == map.pfn
            &&& frame.size == map.pages
        }
}

proof fn lemma_segments_laid_out(st: LoadState, p: PexView, i: int)
    requires
        p.wf(),
        st.loader.wf(),
        layout::untyped_in_reach(st.loader),
        0 <= i <= p.seg_count <= 16,
        0 < st.first,
        st.scratch == st.first + i,
        st.first + 16 <= usize::MAX,
        segments_laid_out(st, p, i),
        load_clears(st, i),
        loader::load_segments(st, p, i).error is None,
    ensures
        segments_laid_out(loader::load_segments(st, p, i), p, p.seg_count),
        load_clears(loader::load_segments(st, p, i), p.seg_count),
        loader::load_segments(st, p, i).first == st.first,
        loader::load_segments(st, p, i).scratch == st.first + p.seg_count,
    decreases p.seg_count - i,
{
    if i < p.seg_count {
        let s = p.segment(i);
        let next = st.with_segment(s, i);
        assert(pex::segment_error(s, p.bytes.len()) is None);
        assert(st.error is None);
        assert(loader::load_segments(next, p, i + 1) == loader::load_segments(st, p, i));
        if next.error is Some {
            assert(loader::load_segments(next, p, i + 1) == next);
        }
        law_a_segment_gets_its_frames(st, s, i);
        let pages = (s.mem_size / 4096) as u32;
        let slot = st.scratch as usize;
        assert(next.loader == st.loader.retyped(0, CapType::Frame, pages, 1, slot));
        loader::lemma_retype_wf(st.loader, pages, slot);
        assert(s.mem_size % 4096 == 0);
        assert forall|k: int| 0 <= k < i + 1 implies {
            let map = #[trigger] next.maps[k];
            let t = p.segment(k);
            let frame = next.loader.slots[next.first + k].cap;
            &&& map.index == k
            &&& map.vaddr == t.vaddr
            &&& map.pages * 4096 == t.mem_size
            &&& (map.prot == Prot::Rx) == (t.perm & 4 != 0)
            &&& (map.prot == Prot::Rw) == (t.perm & 4 == 0 && t.perm & 2 != 0)
            &&& frame.cap_type == CapType::Frame
            &&& frame.objref == map.pfn
            &&& frame.size == map.pages
        } by {
            if k < i {
                assert(next.maps[k] == st.maps[k]);
                assert(next.loader.slots[st.first + k] == st.loader.slots[st.first + k]);
            }
        }
        assert(load_clears(next, i + 1)) by {
            assert forall|k: int| 0 <= k < i + 1 implies was_cleared(
                next.loader,
                #[trigger] next.maps[k],
            ) by {
                if k < i {
                    assert(next.maps[k] == st.maps[k]);
                    assert(was_cleared(st.loader, st.maps[k]));
                    let j = choose|j: int|
                        0 <= j < st.loader.zeroed.len() && #[trigger] st.loader.zeroed[j] == (
                            st.maps[k].pfn as u64,
                            st.maps[k].pages,
                        );
                    assert(next.loader.zeroed[j] == st.loader.zeroed[j]);
                } else {
                    let j = st.loader.zeroed.len() as int;
                    assert(next.loader.zeroed[j] == (next.maps[k].pfn as u64, next.maps[k].pages));
                }
            }
        }
        lemma_segments_laid_out(next, p, i + 1);
    }
}

/// The frames of `map` were cleared.
pub open spec fn was_cleared(v: CSpaceView, map: SegmentMap) -> bool {
    exists|j: int|
        0 <= j < v.zeroed.len() && #[trigger] v.zeroed[j] == (map.pfn as u64, map.pages)
}

/// The frames of the first `n` segments were cleared.
spec fn load_clears(st: LoadState, n: int) -> bool {
    forall|k: int| 0 <= k < n ==> was_cleared(st.loader, #[trigger] st.maps[k])
}

/// Every segment of an image that is loaded is mapped, in order: at its address, in as many pages as
/// it has, with the protection of its permissions, and to frames that were cleared.
pub proof fn law_every_segment_is_mapped(
    image: Seq<u8>,
    arch: u16,
    loader: CSpaceView,
    process: CSpaceView,
    first: Cptr,
    k: int,
)
    requires
        loader.wf(),
        layout::untyped_in_reach(loader),
        0 < first,
        first + 16 <= usize::MAX,
        loader::load_outcome(image, arch, loader, process, first).error is None,
        0 <= k < PexView::of(image).seg_count,
    ensures
        ({
            let end = loader::load_outcome(image, arch, loader, process, first);
            let map = end.maps[k];
            let s = PexView::of(image).segment(k);
            &&& end.maps.len() == PexView::of(image).seg_count
            &&& map.index == k
            &&& map.vaddr == s.vaddr
            &&& map.pages * 4096 == s.mem_size
            &&& (map.prot == Prot::Rx) == (s.perm & 4 != 0)
            &&& (map.prot == Prot::Rw) == (s.perm & 4 == 0 && s.perm & 2 != 0)
            &&& was_cleared(end.loader, map)
        }),
{
    let p = PexView::of(image);
    pex::law_accepted_images_are_sound(image, arch);
    let start = loader::load_start(loader, process, first);
    let mid = loader::load_segments(start, p, 0);
    if mid.error is Some {
        assert(loader::load_manifest(mid, p, 0) == mid);
    }
    lemma_segments_laid_out(start, p, 0);
    loader::lemma_manifest_keeps_maps(mid, p, 0);
    lemma_manifest_clears_nothing(mid, p, 0);
    assert(was_cleared(mid.loader, mid.maps[k]));
}

proof fn lemma_manifest_clears_nothing(st: LoadState, p: PexView, j: int)
    ensures
        loader::load_manifest(st, p, j).loader.zeroed == st.loader.zeroed,
    decreases p.man_count - j,
{
    if j < p.man_count && st.error is None {
        lemma_manifest_clears_nothing(st.with_entry(p.manifest(j), p.seg_count), p, j + 1);
    }
}

/// Where several segments have an address, the last of them counts; an address in none of them is
/// not touched.
pub proof fn law_later_segments_win(maps: Seq<SegmentMap>, va: u64)
    requires
        va < 0x1_0000_0000_0000,
    ensures
        match layout::segment_at(maps, va) {
            Some(s) => exists|i: int|
                {
                    &&& 0 <= i < maps.len()
                    &&& #[trigger] maps[i] == s
                    &&& s.vaddr <= va < s.vaddr + s.pages * 4096
                    &&& forall|j: int|
                        i < j < maps.len() ==> !((#[trigger] maps[j]).vaddr <= va < maps[j].vaddr
                            + maps[j].pages * 4096)
                },
            None => forall|j: int|
                0 <= j < maps.len() ==> !((#[trigger] maps[j]).vaddr <= va < maps[j].vaddr
                    + maps[j].pages * 4096),
        },
    decreases maps.len(),
{
    if maps.len() > 0 {
        let last = maps.last();
        let rest = maps.drop_last();
        law_later_segments_win(rest, va);
        if last.vaddr <= va < last.vaddr + last.pages * 4096 {
            assert(maps[maps.len() - 1] == last);
        } else {
            match layout::segment_at(rest, va) {
                Some(s) => {
                    let i = choose|i: int|
                        {
                            &&& 0 <= i < rest.len()
                            &&& #[trigger] rest[i] == s
                            &&& s.vaddr <= va < s.vaddr + s.pages * 4096
                            &&& forall|j: int|
                                i < j < rest.len() ==> !((#[trigger] rest[j]).vaddr <= va
                                    < rest[j].vaddr + rest[j].pages * 4096)
                        };
                    assert(maps[i] == s);
                    assert forall|j: int| i < j < maps.len() implies !((#[trigger] maps[j]).vaddr
                        <= va < maps[j].vaddr + maps[j].pages * 4096) by {
                        if j < rest.len() {
                            assert(rest[j] == maps[j]);
                        }
                    }
                },
                None => {
                    assert forall|j: int| 0 <= j < maps.len() implies !((#[trigger] maps[j]).vaddr
                        <= va < maps[j].vaddr + maps[j].pages * 4096) by {
                        if j < rest.len() {
                            assert(rest[j] == maps[j]);
                        }
                    }
                },
            }
        }
    }
}

/// Byte `va - vaddr` of a segment is at that offset in its frames.
pub proof fn law_segments_are_mapped_in_order<F: crate::kernel::arch::edit::UserFormat>(
    s: SegmentMap,
    va: u64,
    user: Option<u64>,
)
    requires
        va < 0x1_0000_0000_0000,
    ensures
        layout::segment_mapping::<F>(s, va, user).phys == s.pfn * 4096 + (va - s.vaddr),
        layout::segment_mapping::<F>(s, va, user).attrs == F::attrs_for(s.prot, user),
{
}


/// A process that is loaded into a space of its own is seen in no other space, nor in the one that its
/// space was made from, as long as that has no small pages where processes are: what `other` had
/// mapped before the space was made, it has mapped in the same way when the image is loaded.
pub proof fn law_a_process_is_seen_in_its_own_space_alone(
    m: Map<u64, Seq<u64>>,
    n: Map<u64, Seq<u64>>,
    x: Map<u64, Seq<u64>>,
    base: u64,
    root: u64,
    other: u64,
    maps: Seq<SegmentMap>,
)
    requires
        tables::sound::<Pml4>(m, other),
        tables::kept(m, n),
        forall|va: u64, k: int|
            paging::in_window(va) && 1 <= k <= 3 ==> match #[trigger] tables::below::<Pml4>(
                n,
                root,
                3,
                va,
                k,
            ) {
                Some(t) => !m.contains_key(t),
                None => false,
            },
        forall|va: u64| #[trigger]
            tables::below::<Pml4>(n, root, 3, va, 0) == tables::below::<Pml4>(m, base, 3, va, 0),
        forall|va: u64|
            paging::in_window(va) ==> (#[trigger] tables::below::<Pml4>(m, base, 3, va, 0)) is None,
        layout::in_window(maps),
        layout::off_segments_kept::<Pml4>(n, x, root, maps),
    ensures
        forall|va: u64| #[trigger]
            tables::mapping::<Pml4>(x, other, va) == tables::mapping::<Pml4>(m, other, va),
{
    assert forall|va: u64, k: int|
        0x4000_0000 <= range::walked(va) < 0x8000_0000 && 0 <= k <= 3 implies match #[trigger] tables::table_on_path::<
        Pml4,
    >(n, root, va, k) {
        Some(t) => !m.contains_key(t),
        None => true,
    } by {
        tables::law_pages_are_4096_bytes(va, va);
        assert(paging::in_window(va));
        if k == 0 {
            assert(tables::below::<Pml4>(n, root, 3, va, 0) == tables::below::<Pml4>(
                m,
                base,
                3,
                va,
                0,
            ));
        } else {
            assert(tables::below::<Pml4>(n, root, 3, va, k) is Some);
        }
    }
    layout::law_loading_leaves_other_spaces_alone::<Pml4>(m, n, x, root, other, maps);
}

} // verus!
