//! The `.pex` loader. It lays out an image's segments and fills the new process's CSpace with
//! exactly the capabilities that the manifest declares, each of them derived from the loader's own
//! authority.

pub mod demo;
pub mod laws;
pub mod layout;

use crate::abi::pex;
use crate::abi::pex::{
    ManifestEntry, Pex, PexError, PexView, Segment, MANIFEST_ENDPOINT, MANIFEST_FRAME,
    MANIFEST_SCHED, MAX_MANIFEST, PERM_W, PERM_X,
};
use crate::cap::cap::{CapType, RawCap};
use crate::cap::cspace::{CSpace, CapError, Cptr, GrantMode};
use crate::cap::cspace;
use crate::cap::mdb;
use crate::cap::mdb::NIL;
use crate::cap::model;
use crate::cap::model::CSpaceView;
use crate::cap::revoke;
use crate::cap::rights::Rights;
use crate::cap::rights::ALL_BITS;
use crate::cap::zero::ZeroFrames;
use crate::kernel::arch::Prot;
use vstd::prelude::*;

verus! {

/// The number of slots in the loader's CSpace.
pub const LOADER_SLOTS: usize = 32;

/// The number of slots in a process's CSpace.
pub const PROCESS_SLOTS: usize = 16;

/// The slot of the loader's `Untyped`.
pub const L_UNTYPED: Cptr = 0;

/// The slot of the loader's `Sched`.
pub const L_SCHED: Cptr = 1;

/// The slot of the loader's `Endpoint`.
pub const L_ENDPOINT: Cptr = 2;

/// The first slot for segment frames and split-off `Sched`s.
pub const L_SCRATCH: Cptr = 8;

/// The start of the window that segments must lie in; it is disjoint from all that the kernel
/// itself maps.
pub const PROC_VA_BASE: u64 = 0x4000_0000;

/// The end of that window.
pub const PROC_VA_END: u64 = 0x8000_0000;

/// Why an image is not loaded.
#[derive(Clone, Copy, PartialEq, Eq, Structural, Debug)]
pub enum LoadError {
    /// The image is malformed.
    Pex(PexError),
    /// A manifest entry is of a type that the loader does not know.
    UnknownManifestType(u8),
    /// A manifest entry asks for rights that do not exist.
    BadRights,
    /// A manifest entry refers to a segment that does not exist.
    BadSegmentRef,
    /// A segment lies outside the process window.
    SegmentVaddrOutOfRange,
    /// A manifest entry's slot is outside the process's CSpace.
    DestSlotOutOfRange,
    /// A capability operation was refused.
    Cap(CapError),
}

impl From<PexError> for LoadError {
    fn from(e: PexError) -> (r: LoadError) {
        LoadError::Pex(e)
    }
}

impl vstd::std_specs::convert::FromSpecImpl<PexError> for LoadError {
    open spec fn obeys_from_spec() -> bool {
        true
    }

    open spec fn from_spec(e: PexError) -> LoadError {
        LoadError::Pex(e)
    }
}

impl From<CapError> for LoadError {
    fn from(e: CapError) -> (r: LoadError) {
        LoadError::Cap(e)
    }
}

impl vstd::std_specs::convert::FromSpecImpl<CapError> for LoadError {
    open spec fn obeys_from_spec() -> bool {
        true
    }

    open spec fn from_spec(e: CapError) -> LoadError {
        LoadError::Cap(e)
    }
}

/// A process that is ready to run.
pub struct Loaded {
    /// Its entry point.
    pub entry: u64,
    /// Its CPU-time budget.
    pub budget: u32,
    /// Its isolation domain.
    pub domain_id: u64,
}

/// A segment to fill and map: the file bytes of segment `index` go to the frames from `pfn` on,
/// which are mapped at `vaddr`.
#[derive(Clone, Copy, PartialEq, Eq, Structural, Debug)]
pub struct SegmentMap {
    /// The segment's index in the image.
    pub index: usize,
    /// The address to map it at.
    pub vaddr: u64,
    /// Its first frame.
    pub pfn: u32,
    /// The number of its pages.
    pub pages: u32,
    /// Its protection.
    pub prot: Prot,
}

/// The protection for a permission byte.
pub open spec fn prot_of(perm: u8) -> Prot {
    if perm & PERM_X != 0 {
        Prot::Rx
    } else if perm & PERM_W != 0 {
        Prot::Rw
    } else {
        Prot::Ro
    }
}

/// The protection for a permission byte that the parser has accepted.
pub fn perm_to_prot(perm: u8) -> (p: Prot)
    ensures
        p == prot_of(perm),
{
    if perm & PERM_X != 0 {
        Prot::Rx
    } else if perm & PERM_W != 0 {
        Prot::Rw
    } else {
        Prot::Ro
    }
}

/// How far a load has come.
pub struct LoadState {
    pub loader: CSpaceView,
    pub process: CSpaceView,
    /// The first scratch slot: the segments' frames are in the slots from there on.
    pub first: int,
    /// The next scratch slot.
    pub scratch: int,
    /// The segments to fill and map.
    pub maps: Seq<SegmentMap>,
    pub budget: u32,
    pub error: Option<LoadError>,
}

impl LoadState {
    /// The load fails with `e`; what was done stays done.
    pub open spec fn failed(self, e: LoadError) -> LoadState {
        LoadState { error: Some(e), ..self }
    }

    /// Segment `i` laid out: frames for it are retyped out of the loader's `Untyped`.
    pub open spec fn with_segment(self, s: Segment, i: int) -> LoadState {
        let pages = (s.mem_size / 4096) as u32;
        let slot = self.scratch as usize;
        if s.vaddr < PROC_VA_BASE || s.vaddr + s.mem_size > PROC_VA_END {
            self.failed(LoadError::SegmentVaddrOutOfRange)
        } else {
            match self.loader.retype_error(L_UNTYPED, CapType::Frame, pages, 1, slot) {
                Some(e) => self.failed(LoadError::Cap(e)),
                None => {
                    let after = self.loader.retyped(L_UNTYPED, CapType::Frame, pages, 1, slot);
                    LoadState {
                        loader: after,
                        scratch: self.scratch + 1,
                        maps: self.maps.push(
                            SegmentMap {
                                index: i as usize,
                                vaddr: s.vaddr,
                                pfn: after.cap(slot as int).objref as u32,
                                pages,
                                prot: prot_of(s.perm),
                            },
                        ),
                        ..self
                    }
                },
            }
        }
    }

    /// The capability in the loader's slot `src` granted to the process.
    pub open spec fn with_grant(
        self,
        src: Cptr,
        dest: Cptr,
        rights: Rights,
        badge: u64,
        mode: GrantMode,
    ) -> LoadState {
        match model::grant_error(self.loader, src, self.process, dest, rights, mode) {
            Some(e) => self.failed(LoadError::Cap(e)),
            None => LoadState {
                process: self.process.placed(
                    dest as int,
                    RawCap { rights, badge, ..self.loader.cap(src as int) },
                    NIL,
                ),
                loader: if mode == GrantMode::Move {
                    self.loader.vacated(src as int)
                } else {
                    self.loader
                },
                ..self
            },
        }
    }

    /// A manifest entry honoured.
    pub open spec fn with_entry(self, m: ManifestEntry, segments: int) -> LoadState {
        let dest = m.dest_slot as Cptr;
        let rights = Rights { bits: m.rights };
        let amount = m.param0 as u32;
        let slot = self.scratch as usize;
        if dest >= PROCESS_SLOTS {
            self.failed(LoadError::DestSlotOutOfRange)
        } else if m.rights & !ALL_BITS != 0 {
            self.failed(LoadError::BadRights)
        } else if m.cap_type == MANIFEST_SCHED {
            match self.loader.split_error(L_SCHED, slot, amount) {
                Some(e) => self.failed(LoadError::Cap(e)),
                None => {
                    let after = LoadState {
                        loader: self.loader.splitted(L_SCHED, slot, amount),
                        scratch: self.scratch + 1,
                        ..self
                    }.with_grant(slot, dest, rights, 0, GrantMode::Move);
                    if after.error is Some {
                        after
                    } else {
                        LoadState { budget: amount, ..after }
                    }
                },
            }
        } else if m.cap_type == MANIFEST_ENDPOINT {
            self.with_grant(L_ENDPOINT, dest, rights, m.param0, GrantMode::Mint)
        } else if m.cap_type == MANIFEST_FRAME {
            if m.param0 as usize >= segments {
                self.failed(LoadError::BadSegmentRef)
            } else {
                self.with_grant(
                    (self.first + m.param0 as usize) as usize,
                    dest,
                    rights,
                    0,
                    GrantMode::Mint,
                )
            }
        } else {
            self.failed(LoadError::UnknownManifestType(m.cap_type))
        }
    }
}

/// The segments from `i` on laid out, up to the first that fails.
pub open spec fn load_segments(st: LoadState, p: PexView, i: int) -> LoadState
    decreases p.seg_count - i,
{
    if i >= p.seg_count || st.error is Some {
        st
    } else {
        load_segments(st.with_segment(p.segment(i), i), p, i + 1)
    }
}

/// The manifest entries from `i` on honoured, up to the first that fails.
pub open spec fn load_manifest(st: LoadState, p: PexView, i: int) -> LoadState
    decreases p.man_count - i,
{
    if i >= p.man_count || st.error is Some {
        st
    } else {
        load_manifest(st.with_entry(p.manifest(i), p.seg_count), p, i + 1)
    }
}

/// Where a load starts that has the loader's slots from `first` on as scratch slots.
pub open spec fn load_start(loader: CSpaceView, process: CSpaceView, first: Cptr) -> LoadState {
    LoadState {
        loader,
        process,
        first: first as int,
        scratch: first as int,
        maps: Seq::empty(),
        budget: 0,
        error: None,
    }
}

/// Where a load of `image` for `arch` ends that has the loader's slots from `first` on as scratch
/// slots.
pub open spec fn load_outcome(
    image: Seq<u8>,
    arch: u16,
    loader: CSpaceView,
    process: CSpaceView,
    first: Cptr,
) -> LoadState {
    let start = load_start(loader, process, first);
    match pex::parse_error(image, arch) {
        Some(e) => start.failed(LoadError::Pex(e)),
        None => {
            let p = PexView::of(image);
            load_manifest(load_segments(start, p, 0), p, 0)
        },
    }
}

/// The frames of the loader's `Untyped` have numbers.
pub open spec fn untyped_fits(v: CSpaceView) -> bool {
    v.cap(L_UNTYPED as int).cap_type == CapType::Untyped ==> v.cap(L_UNTYPED as int).objref
        + v.cap(L_UNTYPED as int).size <= u64::MAX
}

/// Retyping frames for a segment keeps to the numbers that the `Untyped` has.
proof fn lemma_segment_keeps(st: LoadState, s: Segment, i: int)
    requires
        st.loader.wf(),
        st.error is None,
        untyped_fits(st.loader),
    ensures
        untyped_fits(st.with_segment(s, i).loader),
        st.with_segment(s, i).loader.next_obj == st.loader.next_obj,
        st.with_segment(s, i).process == st.process,
        st.with_segment(s, i).budget == st.budget,
        st.with_segment(s, i).first == st.first,
        st.with_segment(s, i).error is None ==> {
            &&& st.with_segment(s, i).scratch == st.scratch + 1
            &&& (st.scratch as usize) < st.loader.slots.len()
        },
        st.with_segment(s, i).error is Some ==> st.with_segment(s, i).scratch == st.scratch,
{
}

/// So does honouring a manifest entry.
proof fn lemma_entry_keeps(st: LoadState, m: ManifestEntry, segments: int)
    requires
        st.loader.wf(),
        st.error is None,
        untyped_fits(st.loader),
    ensures
        untyped_fits(st.with_entry(m, segments).loader),
        st.with_entry(m, segments).first == st.first,
{
}

/// Lay out segment `i`.
fn load_segment<Z: ZeroFrames>(
    loader: &mut CSpace<LOADER_SLOTS, Z>,
    s: &Segment,
    i: usize,
    scratch: usize,
    maps: &mut Vec<SegmentMap>,
    st: Ghost<LoadState>,
) -> (r: Result<(), LoadError>)
    requires
        old(loader).wf(),
        untyped_fits(old(loader)@),
        s.mem_size <= 4096 * 4096,
        s.vaddr + s.mem_size <= u64::MAX,
        st@.error is None,
        st@.loader == old(loader)@,
        st@.scratch == scratch,
    ensures
        final(loader).wf(),
        ({
            let end = st@.with_segment(*s, i as int);
            &&& final(loader)@ == end.loader
            &&& exists|new: Seq<SegmentMap>|
                final(maps)@ == old(maps)@ + new && #[trigger] (st@.maps + new) == end.maps
            &&& r == match end.error {
                None => Ok::<(), LoadError>(()),
                Some(e) => Err(e),
            }
        }),
{
    let ghost none = Seq::<SegmentMap>::empty();
    assert(maps@ + none =~= maps@ && st@.maps + none =~= st@.maps);
    let seg_end: u64 = s.vaddr + s.mem_size;
    if s.vaddr < PROC_VA_BASE || seg_end > PROC_VA_END {
        return Err(LoadError::SegmentVaddrOutOfRange);
    }
    let pages: u32 = (s.mem_size / 4096) as u32;
    let ghost before = loader@;
    match loader.retype(L_UNTYPED, CapType::Frame, pages, 1, scratch) {
        Err(e) => {
            return Err(LoadError::from(e));
        },
        Ok(()) => {},
    }
    let frame = match loader.resolve(scratch) {
        Err(e) => {
            proof {
                // The slot was just filled.
                assert(!mdb::live(before.slots, scratch as int));
                assert(false);
            }
            return Err(LoadError::from(e));
        },
        Ok(frame) => frame,
    };
    let map = SegmentMap {
        index: i,
        vaddr: s.vaddr,
        pfn: frame.objref as u32,
        pages,
        prot: perm_to_prot(s.perm),
    };
    maps.push(map);
    proof {
        let new = seq![map];
        assert(maps@ =~= old(maps)@ + new);
        assert(st@.maps + new =~= st@.maps.push(map));
    }
    Ok(())
}

/// Honour a manifest entry: the budget that it brings, if it is a `Sched`.
fn load_entry<Z: ZeroFrames, Y: ZeroFrames>(
    loader: &mut CSpace<LOADER_SLOTS, Z>,
    process: &mut CSpace<PROCESS_SLOTS, Y>,
    m: &ManifestEntry,
    segments: usize,
    first: usize,
    scratch: &mut usize,
    st: Ghost<LoadState>,
) -> (r: Result<Option<u32>, LoadError>)
    requires
        old(loader).wf(),
        old(process).wf(),
        old(loader)@.next_obj < u64::MAX,
        segments > 0 ==> first + segments <= LOADER_SLOTS,
        st@.error is None,
        st@.first == first,
        st@.loader == old(loader)@,
        st@.process == old(process)@,
        st@.scratch == *old(scratch),
    ensures
        final(loader).wf(),
        final(process).wf(),
        ({
            let end = st@.with_entry(*m, segments as int);
            &&& final(loader)@ == end.loader
            &&& final(process)@ == end.process
            &&& *final(scratch) == end.scratch
            &&& end.maps == st@.maps
            &&& match end.error {
                None => match r {
                    Ok(Some(amount)) => end.budget == amount && end.loader.next_obj
                        == st@.loader.next_obj + 1,
                    Ok(None) => end.budget == st@.budget && end.loader.next_obj
                        == st@.loader.next_obj,
                    Err(_) => false,
                },
                Some(e) => r == Err::<Option<u32>, LoadError>(e),
            }
        }),
{
    let dest: usize = m.dest_slot as usize;
    if dest >= PROCESS_SLOTS {
        return Err(LoadError::DestSlotOutOfRange);
    }
    let rights = match Rights::from_bits(m.rights) {
        None => {
            return Err(LoadError::BadRights);
        },
        Some(rights) => rights,
    };
    match m.cap_type {
        MANIFEST_SCHED => {
            // The loader's budget shrinks by what the process gets.
            let amount: u32 = m.param0 as u32;
            let slot: usize = *scratch;
            match loader.split(L_SCHED, slot, amount) {
                Err(e) => {
                    return Err(LoadError::from(e));
                },
                Ok(()) => {},
            }
            *scratch = slot + 1;
            match cspace::grant(loader, slot, process, dest, rights, 0, GrantMode::Move) {
                Err(e) => Err(LoadError::from(e)),
                Ok(()) => Ok(Some(amount)),
            }
        },
        MANIFEST_ENDPOINT => {
            match cspace::grant(
                loader,
                L_ENDPOINT,
                process,
                dest,
                rights,
                m.param0,
                GrantMode::Mint,
            ) {
                Err(e) => Err(LoadError::from(e)),
                Ok(()) => Ok(None),
            }
        },
        MANIFEST_FRAME => {
            let index: usize = m.param0 as usize;
            if index >= segments {
                return Err(LoadError::BadSegmentRef);
            }
            match cspace::grant(
                loader,
                first + index,
                process,
                dest,
                rights,
                0,
                GrantMode::Mint,
            ) {
                Err(e) => Err(LoadError::from(e)),
                Ok(()) => Ok(None),
            }
        },
        other => Err(LoadError::UnknownManifestType(other)),
    }
}

/// Load `image` into the process whose CSpace is `process`. The segments to fill and map are added
/// to `maps` in the order of the image, also when the load fails later on.
pub fn load<Z: ZeroFrames, Y: ZeroFrames>(
    image: &[u8],
    arch: u16,
    loader: &mut CSpace<LOADER_SLOTS, Z>,
    process: &mut CSpace<PROCESS_SLOTS, Y>,
    domain_id: u64,
    maps: &mut Vec<SegmentMap>,
) -> (r: Result<Loaded, LoadError>)
    requires
        old(loader).wf(),
        old(process).wf(),
        untyped_fits(old(loader)@),
        old(loader)@.next_obj <= u64::MAX - MAX_MANIFEST,
    ensures
        final(loader).wf(),
        final(process).wf(),
        ({
            let end = load_outcome(image@, arch, old(loader)@, old(process)@, L_SCRATCH);
            &&& final(loader)@ == end.loader
            &&& final(process)@ == end.process
            &&& final(maps)@ == old(maps)@ + end.maps
            &&& match end.error {
                None => {
                    &&& r is Ok
                    &&& r->Ok_0.entry == PexView::of(image@).entry
                    &&& r->Ok_0.budget == end.budget
                    &&& r->Ok_0.domain_id == domain_id
                },
                Some(e) => r is Err && r->Err_0 == e,
            }
        }),
{
    let mut scratch: usize = L_SCRATCH;
    load_from(image, arch, loader, process, domain_id, maps, &mut scratch)
}

/// Load `image` as [`load`] does, with the loader's slots from `scratch` on as scratch slots, and
/// set `scratch` to the first slot that the load did not use. Further processes can then be loaded
/// with the same authority, so that they share its endpoint.
#[verifier::rlimit(50)]
pub fn load_from<Z: ZeroFrames, Y: ZeroFrames>(
    image: &[u8],
    arch: u16,
    loader: &mut CSpace<LOADER_SLOTS, Z>,
    process: &mut CSpace<PROCESS_SLOTS, Y>,
    domain_id: u64,
    maps: &mut Vec<SegmentMap>,
    scratch: &mut Cptr,
) -> (r: Result<Loaded, LoadError>)
    requires
        old(loader).wf(),
        old(process).wf(),
        untyped_fits(old(loader)@),
        old(loader)@.next_obj <= u64::MAX - MAX_MANIFEST,
    ensures
        final(loader).wf(),
        final(process).wf(),
        untyped_fits(final(loader)@),
        final(loader)@.next_obj <= old(loader)@.next_obj + MAX_MANIFEST,
        ({
            let end = load_outcome(image@, arch, old(loader)@, old(process)@, *old(scratch));
            &&& final(loader)@ == end.loader
            &&& final(process)@ == end.process
            &&& final(maps)@ == old(maps)@ + end.maps
            &&& *final(scratch) == end.scratch
            &&& match end.error {
                None => {
                    &&& r is Ok
                    &&& r->Ok_0.entry == PexView::of(image@).entry
                    &&& r->Ok_0.budget == end.budget
                    &&& r->Ok_0.domain_id == domain_id
                },
                Some(e) => r is Err && r->Err_0 == e,
            }
        }),
{
    let pex = match Pex::parse(image, arch) {
        Err(e) => {
            assert(maps@ + Seq::<SegmentMap>::empty() =~= maps@);
            return Err(LoadError::from(e));
        },
        Ok(pex) => pex,
    };
    let first: usize = *scratch;
    let ghost p = PexView::of(image@);
    let ghost start = load_start(loader@, process@, first);
    let ghost maps0 = maps@;
    let ghost obj0 = loader@.next_obj;
    let ghost mut st = start;
    let ghost end = load_manifest(load_segments(start, p, 0), p, 0);
    let segments: usize = pex.segment_count();
    let mut i: usize = 0;
    assert(maps@ =~= maps0 + st.maps);
    while i < segments
        invariant
            i <= segments,
            segments == p.seg_count,
            segments <= 16,
            p == pex@,
            pex.wf(),
            loader.wf(),
            process.wf(),
            untyped_fits(loader@),
            loader@.next_obj == obj0,
            obj0 == old(loader)@.next_obj,
            *scratch == first + i,
            i > 0 ==> *scratch <= LOADER_SLOTS,
            st.error is None,
            st.loader == loader@,
            st.process == process@,
            first == *old(scratch),
            st.first == first,
            st.scratch == *scratch,
            st.budget == 0,
            maps@ == maps0 + st.maps,
            end == load_manifest(load_segments(st, p, i as int), p, 0),
            end == load_outcome(image@, arch, old(loader)@, old(process)@, first),
            maps0 == old(maps)@,
        decreases segments - i,
    {
        let s = pex.segment(i);
        let ghost before = st;
        let ghost maps1 = maps@;
        proof {
            assert(pex::segment_error(p.segment(i as int), p.bytes.len()) is None);
            lemma_segment_keeps(before, s, i as int);
        }
        let r = load_segment(loader, &s, i, *scratch, maps, Ghost(before));
        proof {
            st = before.with_segment(s, i as int);
            let new = choose|new: Seq<SegmentMap>|
                maps@ == maps1 + new && #[trigger] (before.maps + new) == st.maps;
            assert(maps@ =~= maps0 + st.maps);
            assert(load_segments(before, p, i as int) == load_segments(st, p, i + 1));
        }
        match r {
            Err(e) => {
                proof {
                    assert(load_segments(st, p, i + 1) == st);
                    assert(load_manifest(st, p, 0) == st);
                }
                return Err(e);
            },
            Ok(()) => {},
        }
        *scratch = *scratch + 1;
        i = i + 1;
    }
    let entries: usize = pex.manifest_count();
    let mut budget: u32 = 0;
    let mut j: usize = 0;
    while j < entries
        invariant
            j <= entries,
            entries == p.man_count,
            entries <= MAX_MANIFEST,
            segments == p.seg_count,
            segments <= 16,
            segments > 0 ==> first + segments <= LOADER_SLOTS,
            p == pex@,
            pex.wf(),
            loader.wf(),
            process.wf(),
            untyped_fits(loader@),
            loader@.next_obj <= obj0 + j,
            obj0 == old(loader)@.next_obj,
            obj0 <= u64::MAX - MAX_MANIFEST,
            st.error is None,
            st.loader == loader@,
            st.process == process@,
            first == *old(scratch),
            st.first == first,
            st.scratch == *scratch,
            st.budget == budget,
            maps@ == maps0 + st.maps,
            end == load_manifest(st, p, j as int),
            end == load_outcome(image@, arch, old(loader)@, old(process)@, first),
            maps0 == old(maps)@,
        decreases entries - j,
    {
        let m = pex.manifest(j);
        let ghost before = st;
        proof {
            lemma_entry_keeps(before, m, segments as int);
        }
        let r = load_entry(loader, process, &m, segments, first, scratch, Ghost(before));
        proof {
            st = before.with_entry(m, segments as int);
            assert(load_manifest(before, p, j as int) == load_manifest(st, p, j + 1));
        }
        match r {
            Err(e) => {
                assert(load_manifest(st, p, j + 1) == st);
                return Err(e);
            },
            Ok(Some(amount)) => {
                budget = amount;
            },
            Ok(None) => {},
        }
        j = j + 1;
    }
    Ok(Loaded { entry: pex.entry(), budget, domain_id })
}

/// The rights that a manifest entry is served from: those of the loader's own capability.
pub open spec fn source_rights(loader: CSpaceView, m: ManifestEntry) -> Rights {
    if m.cap_type == MANIFEST_SCHED {
        loader.cap(L_SCHED as int).rights
    } else if m.cap_type == MANIFEST_ENDPOINT {
        loader.cap(L_ENDPOINT as int).rights
    } else {
        model::default_rights_spec(CapType::Frame)
    }
}

/// The loader's own capabilities are as they were, and `n` segments have their frames.
spec fn authority_kept(start: CSpaceView, v: CSpaceView, first: int, n: int) -> bool {
    &&& v.wf()
    &&& v.slots.len() == start.slots.len() == LOADER_SLOTS
    &&& v.cap(L_SCHED as int).rights == start.cap(L_SCHED as int).rights
    &&& v.cap(L_ENDPOINT as int) == start.cap(L_ENDPOINT as int)
    &&& forall|k: int|
        0 <= k < n ==> (#[trigger] v.cap(first + k)).rights == model::default_rights_spec(
            CapType::Frame,
        )
}

proof fn lemma_segments_keep_authority(start: CSpaceView, st: LoadState, p: PexView, i: int)
    requires
        0 <= i <= p.seg_count <= 16,
        L_ENDPOINT < st.first,
        st.scratch == st.first + i,
        st.scratch <= usize::MAX,
        authority_kept(start, st.loader, st.first, i),
        load_segments(st, p, i).error is None,
    ensures
        ({
            let end = load_segments(st, p, i);
            &&& authority_kept(start, end.loader, st.first, p.seg_count)
            &&& end.first == st.first
            &&& end.scratch == st.first + p.seg_count
            &&& end.scratch <= usize::MAX
            &&& end.process == st.process
        }),
    decreases p.seg_count - i,
{
    if i < p.seg_count {
        let s = p.segment(i);
        let next = st.with_segment(s, i);
        assert(st.error is None);
        assert(load_segments(next, p, i + 1) == load_segments(st, p, i));
        if next.error is Some {
            assert(load_segments(next, p, i + 1) == next);
        }
        let pages = (s.mem_size / 4096) as u32;
        let slot = st.scratch as usize;
        let u = st.loader;
        assert(next.loader == u.retyped(L_UNTYPED, CapType::Frame, pages, 1, slot));
        assert(!mdb::live(u.slots, slot as int));
        lemma_retype_wf(u, pages, slot);
        assert forall|k: int| 0 <= k < i + 1 implies (#[trigger] next.loader.cap(
            st.first + k,
        )).rights == model::default_rights_spec(CapType::Frame) by {
            if k < i {
                assert(u.cap(st.first + k).rights == model::default_rights_spec(CapType::Frame));
            }
        }
        lemma_segments_keep_authority(start, next, p, i + 1);
    }
}

/// One object retyped leaves a sound tree.
pub(crate) proof fn lemma_retype_wf(u: CSpaceView, pages: u32, slot: Cptr)
    requires
        u.wf(),
        u.retype_error(L_UNTYPED, CapType::Frame, pages, 1, slot) is None,
    ensures
        u.retyped(L_UNTYPED, CapType::Frame, pages, 1, slot).wf(),
{
    let cap = RawCap {
        watermark: (u.cap(0).watermark + pages) as u32,
        ..u.cap(0)
    };
    assert(!mdb::live(u.slots, slot as int));
    assert(u.cap(0).watermark <= u.cap(0).size);
    mdb::lemma_update_keeps_wf(u.slots, 0, cap);
    let charged = u.slots.update(0, mdb::Cte { cap, ..u.slots[0] });
    let after = u.retyped(L_UNTYPED, CapType::Frame, pages, 1, slot).slots;
    mdb::lemma_place_keeps_wf(charged, slot as int, after[slot as int]);
    assert(after =~= charged.update(slot as int, after[slot as int]));
}

proof fn lemma_manifest_fills(
    start: CSpaceView,
    process: CSpaceView,
    st: LoadState,
    p: PexView,
    j: int,
)
    requires
        0 <= j <= p.man_count,
        0 <= p.seg_count <= 16,
        L_ENDPOINT < st.first,
        st.first + p.seg_count <= st.scratch <= usize::MAX,
        authority_kept(start, st.loader, st.first, p.seg_count),
        process.slots.len() == PROCESS_SLOTS,
        st.process.slots.len() == PROCESS_SLOTS,
        load_manifest(st, p, j).error is None,
        manifest_held(start, process, st.process, p, j),
        st.loader.next_obj + (p.man_count - j) <= u64::MAX,
    ensures
        manifest_held(start, process, load_manifest(st, p, j).process, p, p.man_count),
        load_manifest(st, p, j).process.slots.len() == PROCESS_SLOTS,
        authority_kept(start, load_manifest(st, p, j).loader, st.first, p.seg_count),
    decreases p.man_count - j,
{
    if j < p.man_count {
        let m = p.manifest(j);
        let next = st.with_entry(m, p.seg_count);
        assert(st.error is None);
        assert(load_manifest(next, p, j + 1) == load_manifest(st, p, j));
        if next.error is Some {
            assert(load_manifest(next, p, j + 1) == next);
        }
        let dest = m.dest_slot as int;
        let slot = st.scratch as usize;
        let amount = m.param0 as u32;
        let before = st.process;
        let after = next.process;
        if m.cap_type == MANIFEST_SCHED {
            let mid = st.loader.splitted(L_SCHED, slot, amount);
            lemma_split_wf(st.loader, slot, amount);
            assert(!mdb::has_child(mid.slots, slot as int));
            mdb::lemma_remove_keeps_wf(mid.slots, slot as int);
            assert forall|k: int| 0 <= k < p.seg_count implies (#[trigger] next.loader.cap(
                st.first + k,
            )).rights == model::default_rights_spec(CapType::Frame) by {
                assert(st.loader.cap(st.first + k).rights == model::default_rights_spec(
                    CapType::Frame,
                ));
            }
        } else if m.cap_type == MANIFEST_FRAME {
            assert(st.loader.cap(st.first + m.param0 as usize).rights
                == model::default_rights_spec(CapType::Frame));
        }
        assert(before.place_error(dest as Cptr) is None);
        assert(after.slots == before.slots.update(dest, after.slots[dest]));
        assert forall|s: int| 0 <= s < PROCESS_SLOTS implies #[trigger] mdb::live(after.slots, s)
            == (mdb::live(process.slots, s) || declared(p, j + 1, s)) by {
            assert(mdb::live(before.slots, s) == (mdb::live(process.slots, s) || declared(
                p,
                j,
                s,
            )));
            if s == dest {
                assert(p.manifest(j).dest_slot == s);
            }
            if declared(p, j, s) {
                let i = choose|i: int| 0 <= i < j && (#[trigger] p.manifest(i)).dest_slot == s;
                assert(p.manifest(i).dest_slot == s);
            }
            if declared(p, j + 1, s) && s != dest {
                let i = choose|i: int| 0 <= i < j + 1 && (#[trigger] p.manifest(i)).dest_slot == s;
                assert(i < j);
            }
        }
        assert forall|i: int| 0 <= i < j + 1 implies {
            &&& (#[trigger] p.manifest(i)).dest_slot < PROCESS_SLOTS
            &&& after.cap(p.manifest(i).dest_slot as int).rights.bits == p.manifest(i).rights
            &&& source_rights(start, p.manifest(i)).includes(
                after.cap(p.manifest(i).dest_slot as int).rights,
            )
            &&& p.manifest(i).cap_type == MANIFEST_ENDPOINT ==> model::same_object(
                start.cap(L_ENDPOINT as int),
                after.cap(p.manifest(i).dest_slot as int),
            )
        } by {
            if i < j {
                let s = p.manifest(i).dest_slot as int;
                assert(declared(p, j, s));
                assert(mdb::live(before.slots, s));
                assert(s != dest);
            }
        }
        lemma_manifest_fills(start, process, next, p, j + 1);
    }
}

/// A `Sched` split off leaves a sound tree.
proof fn lemma_split_wf(u: CSpaceView, slot: Cptr, amount: u32)
    requires
        u.wf(),
        u.split_error(L_SCHED, slot, amount) is None,
    ensures
        u.splitted(L_SCHED, slot, amount).wf(),
{
    let after = u.splitted(L_SCHED, slot, amount).slots;
    mdb::lemma_place_keeps_wf(u.slots, slot as int, after[slot as int]);
    let placed = u.slots.update(slot as int, after[slot as int]);
    mdb::lemma_update_keeps_wf(placed, 1, after[1].cap);
    assert(after =~= placed.update(1, mdb::Cte { cap: after[1].cap, ..placed[1] }));
}

/// One of the first `n` manifest entries is for slot `s`.
pub open spec fn declared(p: PexView, n: int, s: int) -> bool {
    exists|i: int| 0 <= i < n && (#[trigger] p.manifest(i)).dest_slot == s
}

/// Besides what it had, the process holds a capability for each of the first `n` manifest entries
/// and nothing else, each with the rights that were asked for, which the loader has itself. Its
/// endpoints are the loader's endpoint.
pub open spec fn manifest_held(
    loader: CSpaceView,
    before: CSpaceView,
    after: CSpaceView,
    p: PexView,
    n: int,
) -> bool {
    &&& forall|s: int|
        0 <= s < PROCESS_SLOTS ==> #[trigger] mdb::live(after.slots, s) == (mdb::live(
            before.slots,
            s,
        ) || declared(p, n, s))
    &&& forall|i: int|
        0 <= i < n ==> {
            &&& (#[trigger] p.manifest(i)).dest_slot < PROCESS_SLOTS
            &&& after.cap(p.manifest(i).dest_slot as int).rights.bits == p.manifest(i).rights
            &&& source_rights(loader, p.manifest(i)).includes(
                after.cap(p.manifest(i).dest_slot as int).rights,
            )
            &&& p.manifest(i).cap_type == MANIFEST_ENDPOINT ==> model::same_object(
                loader.cap(L_ENDPOINT as int),
                after.cap(p.manifest(i).dest_slot as int),
            )
        }
}

/// A process starts with exactly the capabilities that its manifest declares, no more and no less,
/// and none of them carries a right that the loader does not have.
pub proof fn law_process_holds_exactly_its_manifest(
    image: Seq<u8>,
    arch: u16,
    loader: CSpaceView,
    process: CSpaceView,
    first: Cptr,
)
    requires
        loader.wf(),
        loader.slots.len() == LOADER_SLOTS,
        process.slots.len() == PROCESS_SLOTS,
        loader.next_obj <= u64::MAX - MAX_MANIFEST,
        L_ENDPOINT < first,
        load_outcome(image, arch, loader, process, first).error is None,
    ensures
        manifest_held(
            loader,
            process,
            load_outcome(image, arch, loader, process, first).process,
            PexView::of(image),
            PexView::of(image).man_count,
        ),
        ({
            let end = load_outcome(image, arch, loader, process, first).loader;
            &&& end.wf()
            &&& end.slots.len() == LOADER_SLOTS
            &&& end.cap(L_ENDPOINT as int) == loader.cap(L_ENDPOINT as int)
            &&& end.next_obj <= loader.next_obj + PexView::of(image).man_count
        }),
{
    let p = PexView::of(image);
    pex::law_accepted_images_are_sound(image, arch);
    let start = load_start(loader, process, first);
    let mid = load_segments(start, p, 0);
    if mid.error is Some {
        assert(load_manifest(mid, p, 0) == mid);
    }
    lemma_segments_keep_authority(loader, start, p, 0);
    lemma_segments_next_obj(start, p, 0);
    lemma_manifest_fills(loader, process, mid, p, 0);
    lemma_manifest_next_obj(mid, p, 0);
}

/// Every manifest entry takes one identity at most.
proof fn lemma_manifest_next_obj(st: LoadState, p: PexView, j: int)
    requires
        0 <= j <= p.man_count,
        st.loader.next_obj + (p.man_count - j) <= u64::MAX,
    ensures
        load_manifest(st, p, j).loader.next_obj <= st.loader.next_obj + (p.man_count - j),
    decreases p.man_count - j,
{
    if j < p.man_count && st.error is None {
        lemma_manifest_next_obj(st.with_entry(p.manifest(j), p.seg_count), p, j + 1);
    }
}

/// Processes that are loaded one after the other with one authority meet at one endpoint: every
/// endpoint that either of them holds by its manifest is the same object.
pub proof fn law_processes_share_the_endpoint(
    image1: Seq<u8>,
    image2: Seq<u8>,
    arch: u16,
    loader: CSpaceView,
    process1: CSpaceView,
    process2: CSpaceView,
    first: Cptr,
    second: Cptr,
    i: int,
    j: int,
)
    requires
        loader.wf(),
        loader.slots.len() == LOADER_SLOTS,
        process1.slots.len() == PROCESS_SLOTS,
        process2.slots.len() == PROCESS_SLOTS,
        loader.next_obj <= u64::MAX - 2 * MAX_MANIFEST,
        L_ENDPOINT < first,
        L_ENDPOINT < second,
        ({
            let end1 = load_outcome(image1, arch, loader, process1, first);
            &&& end1.error is None
            &&& load_outcome(image2, arch, end1.loader, process2, second).error is None
        }),
        0 <= i < PexView::of(image1).man_count,
        0 <= j < PexView::of(image2).man_count,
        PexView::of(image1).manifest(i).cap_type == MANIFEST_ENDPOINT,
        PexView::of(image2).manifest(j).cap_type == MANIFEST_ENDPOINT,
    ensures
        ({
            let end1 = load_outcome(image1, arch, loader, process1, first);
            let end2 = load_outcome(image2, arch, end1.loader, process2, second);
            model::same_object(
                end1.process.cap(PexView::of(image1).manifest(i).dest_slot as int),
                end2.process.cap(PexView::of(image2).manifest(j).dest_slot as int),
            )
        }),
{
    let end1 = load_outcome(image1, arch, loader, process1, first);
    pex::law_accepted_images_are_sound(image1, arch);
    law_process_holds_exactly_its_manifest(image1, arch, loader, process1, first);
    law_process_holds_exactly_its_manifest(image2, arch, end1.loader, process2, second);
}

proof fn lemma_segments_next_obj(st: LoadState, p: PexView, i: int)
    ensures
        load_segments(st, p, i).loader.next_obj == st.loader.next_obj,
    decreases p.seg_count - i,
{
    if i < p.seg_count && st.error is None {
        lemma_segments_next_obj(st.with_segment(p.segment(i), i), p, i + 1);
    }
}

/// Segments are mapped in whole pages, none outside the process window, and none both writable and
/// executable.
pub proof fn law_segments_stay_in_the_window(
    image: Seq<u8>,
    arch: u16,
    loader: CSpaceView,
    process: CSpaceView,
    first: Cptr,
    k: int,
)
    requires
        0 <= k < load_outcome(image, arch, loader, process, first).maps.len(),
    ensures
        ({
            let map = load_outcome(image, arch, loader, process, first).maps[k];
            &&& map.vaddr % 4096 == 0
            &&& PROC_VA_BASE <= map.vaddr
            &&& map.vaddr + map.pages * 4096 <= PROC_VA_END
            &&& !(map.prot.writes() && map.prot.executes())
        }),
{
    let p = PexView::of(image);
    let start = load_start(loader, process, first);
    if pex::parse_error(image, arch) is None {
        let mid = load_segments(start, p, 0);
        pex::law_accepted_images_are_sound(image, arch);
        lemma_segment_maps(start, p, 0);
        lemma_manifest_keeps_maps(mid, p, 0);
    }
}

/// A segment in whole pages of the process window.
spec fn is_in_window(map: SegmentMap) -> bool {
    &&& map.vaddr % 4096 == 0
    &&& PROC_VA_BASE <= map.vaddr
    &&& map.vaddr + map.pages * 4096 <= PROC_VA_END
}

proof fn lemma_segment_maps(st: LoadState, p: PexView, i: int)
    requires
        p.wf(),
        0 <= i,
        forall|k: int| 0 <= k < st.maps.len() ==> is_in_window(#[trigger] st.maps[k]),
    ensures
        forall|k: int|
            0 <= k < load_segments(st, p, i).maps.len() ==> is_in_window(
                #[trigger] load_segments(st, p, i).maps[k],
            ),
    decreases p.seg_count - i,
{
    if i < p.seg_count && st.error is None {
        assert(pex::segment_error(p.segment(i), p.bytes.len()) is None);
        lemma_segment_maps(st.with_segment(p.segment(i), i), p, i + 1);
    }
}

pub(crate) proof fn lemma_manifest_keeps_maps(st: LoadState, p: PexView, j: int)
    ensures
        load_manifest(st, p, j).maps == st.maps,
    decreases p.man_count - j,
{
    if j < p.man_count && st.error is None {
        lemma_manifest_keeps_maps(st.with_entry(p.manifest(j), p.seg_count), p, j + 1);
    }
}

/// The number of capabilities in a process's CSpace.
pub fn occupied_slots<Z: ZeroFrames>(process: &CSpace<PROCESS_SLOTS, Z>) -> (n: usize)
    requires
        process.wf(),
    ensures
        n == revoke::live_count(process@.slots),
{
    let mut n: usize = 0;
    let mut s: usize = 0;
    let ghost marks = revoke::live_marks(process@.slots);
    assert(marks.take(0) =~= Seq::empty());
    while s < PROCESS_SLOTS
        invariant
            s <= PROCESS_SLOTS,
            process.wf(),
            marks == revoke::live_marks(process@.slots),
            n == model::total(marks.take(s as int)),
            n <= s,
        decreases PROCESS_SLOTS - s,
    {
        assert(marks.take(s + 1).drop_last() =~= marks.take(s as int));
        if process.resolve(s).is_ok() {
            n = n + 1;
        }
        s = s + 1;
    }
    assert(marks.take(s as int) =~= marks);
    n
}

/// What the permissions of code and data say.
pub(crate) proof fn lemma_perm_bits()
    by (bit_vector)
    ensures
        (1u8 | 4u8) & 4u8 != 0,
        (1u8 | 2u8) & 4u8 == 0,
        (1u8 | 2u8) & 2u8 != 0,
{
}

} // verus!
