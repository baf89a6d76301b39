//! A check of the loader at boot: an image is written, loaded and looked into, and a damaged one is
//! refused.

use crate::abi::encode;
use crate::abi::encode::{encode, encoded_len, ManifestSpec, SegmentSpec};
use crate::abi::invoke::op;
use crate::abi::invoke::{Invocation, InvokeError};
use crate::abi::laws;
use crate::abi::pex;
use crate::abi::pex::{
    ManifestEntry, PexView, MANIFEST_ENDPOINT, MANIFEST_FRAME, MANIFEST_SCHED, PERM_R, PERM_W,
    PERM_X,
};
use crate::bytes;
use crate::cap::cap::{CapType, RawCap};
use crate::cap::cspace::{CSpace, CapError};
use crate::cap::mdb;
use crate::cap::model;
use crate::cap::model::CSpaceView;
use crate::cap::revoke;
use crate::cap::rights::Rights;
use crate::cap::zero::ZeroFrames;
use crate::kernel::loader;
use crate::kernel::loader::{
    load, occupied_slots, Loaded, LoadError, SegmentMap, LOADER_SLOTS, L_ENDPOINT, L_SCHED, L_SCRATCH,
    L_UNTYPED, PROCESS_SLOTS,
};
use crate::kernel::syscall::invoke;
use vstd::prelude::*;

verus! {

/// Where the code goes.
pub const CODE_VA: u64 = 0x4000_0000;

/// Where the data goes.
pub const DATA_VA: u64 = 0x4000_1000;

/// The badge of the process's endpoint.
pub const EP_BADGE: u64 = 0xBADD;

/// The image of the check: code that is executed and data that is written, a page each, and four
/// capabilities: CPU time, an endpoint to send on, the code's frame to read, and the data's frame
/// without any rights.
pub open spec fn is_demo_image(b: Seq<u8>, arch: u16) -> bool {
    let p = PexView::of(b);
    &&& pex::parse_error(b, arch) is None
    &&& p.entry == CODE_VA
    &&& p.seg_count == 2
    &&& p.segment(0).vaddr == CODE_VA
    &&& p.segment(0).mem_size == 0x1000
    &&& p.segment(0).perm == PERM_R | PERM_X
    &&& p.segment_data(0) == Seq::new(16, |i: int| 0x90u8)
    &&& p.segment(1).vaddr == DATA_VA
    &&& p.segment(1).mem_size == 0x1000
    &&& p.segment(1).perm == PERM_R | PERM_W
    &&& p.segment_data(1) == Seq::new(16, |i: int| 0xA5u8)
    &&& p.man_count == 4
    &&& p.manifest(0) == (ManifestEntry {
        cap_type: MANIFEST_SCHED,
        dest_slot: 1,
        rights: 0x200,
        param0: 100,
        param1: 1000,
    })
    &&& p.manifest(1) == (ManifestEntry {
        cap_type: MANIFEST_ENDPOINT,
        dest_slot: 2,
        rights: 0x40,
        param0: EP_BADGE,
        param1: 0,
    })
    &&& p.manifest(2) == (ManifestEntry {
        cap_type: MANIFEST_FRAME,
        dest_slot: 3,
        rights: 1,
        param0: 0,
        param1: 0,
    })
    &&& p.manifest(3) == (ManifestEntry {
        cap_type: MANIFEST_FRAME,
        dest_slot: 4,
        rights: 0,
        param0: 1,
        param1: 0,
    })
}

/// Write the image of the check.
pub fn build_pex(arch: u16) -> (r: Option<Vec<u8>>)
    ensures
        r is Some,
        r matches Some(b) ==> is_demo_image(b@, arch),
{
    let code: [u8; 16] = [0x90; 16];
    let data: [u8; 16] = [0xA5; 16];
    let segs: [SegmentSpec; 2] = [
        SegmentSpec { vaddr: CODE_VA, mem_size: 0x1000, perm: PERM_R | PERM_X, data: &code },
        SegmentSpec { vaddr: DATA_VA, mem_size: 0x1000, perm: PERM_R | PERM_W, data: &data },
    ];
    let man: [ManifestSpec; 4] = [
        ManifestSpec {
            cap_type: MANIFEST_SCHED,
            dest_slot: 1,
            rights: Rights::derive().bits(),
            param0: 100,
            param1: 1000,
        },
        ManifestSpec {
            cap_type: MANIFEST_ENDPOINT,
            dest_slot: 2,
            rights: Rights::send().bits(),
            param0: EP_BADGE,
            param1: 0,
        },
        ManifestSpec {
            cap_type: MANIFEST_FRAME,
            dest_slot: 3,
            rights: Rights::read().bits(),
            param0: 0,
            param1: 0,
        },
        ManifestSpec {
            cap_type: MANIFEST_FRAME,
            dest_slot: 4,
            rights: Rights::empty().bits(),
            param0: 1,
            param1: 0,
        },
    ];
    proof {
        assert(code@ =~= Seq::new(16, |i: int| 0x90u8));
        assert(data@ =~= Seq::new(16, |i: int| 0xA5u8));
        reveal_with_fuel(encode::data_len, 3);
        assert(encode::image_len(segs@, man@) <= 1000);
        loader::lemma_perm_bits();
        assert forall|i: int| 0 <= i < segs@.len() implies laws::encodable(#[trigger] segs@[i]) by {}
        assert(laws::has_entry(segs@, CODE_VA)) by {
            assert(segs@[0].perm & PERM_X != 0);
        }
        laws::law_encoded_images_parse(arch, CODE_VA, segs@, man@);
    }
    let len: usize = match encoded_len(&segs, &man) {
        None => {
            return None;
        },
        Some(len) => len,
    };
    let mut buf: Vec<u8> = vec![0u8; len];
    match encode(arch, CODE_VA, &segs, &man, buf.as_mut_slice()) {
        None => {
            return None;
        },
        Some(_) => {},
    }
    proof {
        let image = encode::image(arch, CODE_VA, segs@, man@);
        assert(buf@ =~= image);
        let p = PexView::of(image);
        assert(p.segment(0).vaddr == segs@[0].vaddr);
        assert(p.segment(1).vaddr == segs@[1].vaddr);
        assert(p.manifest(0).param0 == man@[0].param0);
        assert(p.manifest(1).param0 == man@[1].param0);
        assert(p.manifest(2).param0 == man@[2].param0);
        assert(p.manifest(3).param0 == man@[3].param0);
    }
    Some(buf)
}

/// The authority of the check: 64 frames, one of which has become the endpoint, and CPU time that can
/// be handed on.
pub open spec fn is_authority(v: CSpaceView, base: u64) -> bool {
    &&& v.slots.len() == LOADER_SLOTS
    &&& v.next_obj == 2
    &&& v.cap(L_UNTYPED as int) == (RawCap {
        cap_type: CapType::Untyped,
        rights: Rights { bits: 0x20 },
        objref: base,
        size: 64,
        watermark: 1,
        aux: 0,
        badge: 0,
    })
    &&& v.slots[L_UNTYPED as int].parent == mdb::NIL
    &&& v.slots[L_SCHED as int] == (mdb::Cte {
        cap: RawCap {
            cap_type: CapType::Sched,
            rights: Rights { bits: 0x10u32 | 0x200u32 },
            objref: 1,
            size: 1000,
            watermark: 0,
            aux: 1000,
            badge: 0,
        },
        parent: mdb::NIL,
    })
    &&& v.cap(L_ENDPOINT as int) == (RawCap {
        cap_type: CapType::Endpoint,
        rights: model::default_rights_spec(CapType::Endpoint),
        objref: base,
        size: 1,
        watermark: 0,
        aux: 0,
        badge: 0,
    })
    &&& v.slots[L_ENDPOINT as int].parent == L_UNTYPED
    &&& forall|i: int| 3 <= i < LOADER_SLOTS ==> v.vacant(i)
}

/// Make the authority of the check out of the frames from `base` on.
pub fn loader_authority<Z: ZeroFrames>(base: u64, zero: Z) -> (r: Result<
    CSpace<LOADER_SLOTS, Z>,
    CapError,
>)
    requires
        base + 64 <= u64::MAX,
    ensures
        r is Ok,
        r matches Ok(cs) ==> {
            &&& cs.wf()
            &&& is_authority(cs@, base)
            &&& cs@.zeroed == zero.zeroed().push((base, 1u32))
        },
{
    let mut cs: CSpace<LOADER_SLOTS, Z> = CSpace::new(zero);
    proof {
        model::lemma_default_rights();
        if mdb::has_child(cs@.slots, 0) {
            let i = choose|i: int| mdb::child_of(cs@.slots, i, 0);
            assert(!mdb::live(cs@.slots, i));
        }
    }
    cs.set_root_untyped(base, 64);
    cs.install_sched(L_SCHED, 1000, 1000, Rights::grant() | Rights::derive());
    match cs.retype(L_UNTYPED, CapType::Endpoint, 1, 1, L_ENDPOINT) {
        Err(e) => {
            return Err(e);
        },
        Ok(()) => {},
    }
    assert(cs@.zeroed =~= zero.zeroed().push((base, 1u32)));
    Ok(cs)
}

/// What loading the image of the check with this authority comes to.
proof fn lemma_demo_loads(b: Seq<u8>, arch: u16, auth: CSpaceView, process: CSpaceView, base: u64)
    requires
        is_demo_image(b, arch),
        is_authority(auth, base),
        base + 64 <= u32::MAX,
        process.slots.len() == PROCESS_SLOTS,
        forall|i: int| 0 <= i < PROCESS_SLOTS ==> process.vacant(i),
    ensures
        ({
            let end = loader::load_outcome(b, arch, auth, process, L_SCRATCH);
            &&& end.error is None
            &&& end.budget == 100
            &&& end.maps == demo_maps(base)
            &&& is_demo_process(end.process, base)
            &&& end.loader.zeroed == auth.zeroed + demo_cleared(base)
            &&& end.process.zeroed == process.zeroed
            &&& end.loader.next_obj == 3
            &&& end.loader.cap(L_UNTYPED as int).objref == base
            &&& end.loader.cap(L_UNTYPED as int).size == 64
        }),
{
    let p = PexView::of(b);
    lemma_demo_segments(p, auth, process, base);
    let st2 = loader::load_segments(loader::load_start(auth, process, L_SCRATCH), p, 0);
    lemma_demo_manifest(st2, p, auth, process, base);
}

/// What laying out the segments of the check comes to.
proof fn lemma_demo_segments(p: PexView, auth: CSpaceView, process: CSpaceView, base: u64)
    requires
        p.seg_count == 2,
        p.segment(0).vaddr == CODE_VA,
        p.segment(0).mem_size == 0x1000,
        p.segment(0).perm == PERM_R | PERM_X,
        p.segment(1).vaddr == DATA_VA,
        p.segment(1).mem_size == 0x1000,
        p.segment(1).perm == PERM_R | PERM_W,
        is_authority(auth, base),
        base + 64 <= u32::MAX,
    ensures
        ({
            let st2 = loader::load_segments(loader::load_start(auth, process, L_SCRATCH), p, 0);
            &&& st2.error is None
            &&& st2.process == process
            &&& st2.first == 8
            &&& st2.scratch == 10
            &&& st2.maps == demo_maps(base)
            &&& st2.loader.zeroed == auth.zeroed + demo_cleared(base)
            &&& st2.loader.slots.len() == LOADER_SLOTS
            &&& st2.loader.next_obj == 2
            &&& st2.loader.cap(0).objref == base
            &&& st2.loader.cap(0).size == 64
            &&& st2.loader.slots[0].parent == mdb::NIL
            &&& st2.loader.slots[1] == auth.slots[1]
            &&& st2.loader.slots[2] == auth.slots[2]
            &&& st2.loader.cap(8) == demo_frame(base, 1)
            &&& st2.loader.cap(9) == demo_frame(base, 2)
            &&& st2.loader.slots[8].parent == 0
            &&& st2.loader.slots[9].parent == 0
            &&& forall|i: int|
                3 <= i < LOADER_SLOTS && i != 8 && i != 9 ==> st2.loader.vacant(i)
        }),
{
    model::lemma_default_rights();
    loader::lemma_perm_bits();
    let st0 = loader::load_start(auth, process, L_SCRATCH);
    let st1 = st0.with_segment(p.segment(0), 0);
    assert(!mdb::live(auth.slots, 8)) by {
        assert(auth.vacant(8));
    }
    assert(st0.loader.retype_error(L_UNTYPED, CapType::Frame, 1, 1, 8) is None);
    assert(st1.error is None);
    assert(st1.loader.cap(8) == demo_frame(base, 1));
    let st2 = st1.with_segment(p.segment(1), 1);
    assert(!mdb::live(st1.loader.slots, 9)) by {
        assert(auth.vacant(9));
    }
    assert(st1.loader.retype_error(L_UNTYPED, CapType::Frame, 1, 1, 9) is None);
    assert(st2.error is None);
    assert(st2.maps =~= demo_maps(base));
    assert(st2.loader.zeroed =~= auth.zeroed + demo_cleared(base));
    assert(loader::load_segments(st0, p, 0) == st2) by {
        reveal_with_fuel(loader::load_segments, 3);
    }
    assert forall|i: int| 3 <= i < LOADER_SLOTS && i != 8 && i != 9 implies st2.loader.vacant(i) by {
        assert(auth.vacant(i));
    }
}

/// What the manifest of the check comes to once the segments are laid out.
proof fn lemma_demo_manifest(
    st2: loader::LoadState,
    p: PexView,
    auth: CSpaceView,
    process: CSpaceView,
    base: u64,
)
    requires
        p.man_count == 4,
        p.seg_count == 2,
        p.manifest(0) == (ManifestEntry {
            cap_type: MANIFEST_SCHED,
            dest_slot: 1,
            rights: 0x200,
            param0: 100,
            param1: 1000,
        }),
        p.manifest(1) == (ManifestEntry {
            cap_type: MANIFEST_ENDPOINT,
            dest_slot: 2,
            rights: 0x40,
            param0: EP_BADGE,
            param1: 0,
        }),
        p.manifest(2) == (ManifestEntry {
            cap_type: MANIFEST_FRAME,
            dest_slot: 3,
            rights: 1,
            param0: 0,
            param1: 0,
        }),
        p.manifest(3) == (ManifestEntry {
            cap_type: MANIFEST_FRAME,
            dest_slot: 4,
            rights: 0,
            param0: 1,
            param1: 0,
        }),
        is_authority(auth, base),
        process.slots.len() == PROCESS_SLOTS,
        forall|i: int| 0 <= i < PROCESS_SLOTS ==> process.vacant(i),
        st2.error is None,
        st2.process == process,
        st2.first == 8,
        st2.scratch == 10,
        st2.maps == demo_maps(base),
        st2.loader.slots.len() == LOADER_SLOTS,
        st2.loader.next_obj == 2,
        st2.loader.slots[1] == auth.slots[1],
        st2.loader.slots[2] == auth.slots[2],
        st2.loader.cap(8) == demo_frame(base, 1),
        st2.loader.cap(9) == demo_frame(base, 2),
        st2.loader.slots[8].parent == 0,
        st2.loader.slots[9].parent == 0,
        forall|i: int| 3 <= i < LOADER_SLOTS && i != 8 && i != 9 ==> st2.loader.vacant(i),
        st2.loader.slots[0].parent == mdb::NIL,
        base + 64 <= u32::MAX,
    ensures
        ({
            let end = loader::load_manifest(st2, p, 0);
            &&& end.loader.next_obj == 3
            &&& end.loader.cap(L_UNTYPED as int) == st2.loader.cap(L_UNTYPED as int)
            &&& end.loader.zeroed == st2.loader.zeroed
            &&& end.process.zeroed == process.zeroed
            &&& end.error is None
            &&& end.budget == 100
            &&& end.maps == demo_maps(base)
            &&& is_demo_process(end.process, base)
        }),
{
    model::lemma_default_rights();
    lemma_known_rights();
    let st3 = st2.with_entry(p.manifest(0), 2);
    assert(st2.loader.vacant(10));
    let split = st2.loader.splitted(L_SCHED, 10, 100);
    assert(!mdb::has_child(split.slots, 10)) by {
        if mdb::has_child(split.slots, 10) {
            let i = choose|i: int| mdb::child_of(split.slots, i, 10);
            assert(0 <= i < LOADER_SLOTS);
            if i >= 3 && i != 8 && i != 9 && i != 10 {
                assert(st2.loader.vacant(i));
            }
        }
    }
    assert(process.vacant(1) && process.vacant(2) && process.vacant(3) && process.vacant(4));
    assert(st2.loader.split_error(L_SCHED, 10, 100) is None);
    assert(st3.error is None);
    let st4 = st3.with_entry(p.manifest(1), 2);
    assert(st4.error is None);
    let st5 = st4.with_entry(p.manifest(2), 2);
    assert(st5.error is None);
    let st6 = st5.with_entry(p.manifest(3), 2);
    assert(st6.error is None);
    assert(loader::load_manifest(st2, p, 0) == st6) by {
        reveal_with_fuel(loader::load_manifest, 5);
    }
    assert(is_demo_process(st6.process, base)) by {
        assert forall|i: int| 0 <= i < PROCESS_SLOTS && !(1 <= i <= 4) implies st6.process.vacant(
            i,
        ) by {
            assert(process.vacant(i));
        }
    }
}

/// The `k`th frame from `base` on, as RETYPE makes it.
spec fn demo_frame(base: u64, k: int) -> RawCap {
    RawCap {
        cap_type: CapType::Frame,
        rights: model::default_rights_spec(CapType::Frame),
        objref: (base + k) as u64,
        size: 1,
        watermark: 0,
        aux: 0,
        badge: 0,
    }
}

/// The rights that the manifest of the check asks for exist.
proof fn lemma_known_rights()
    by (bit_vector)
    ensures
        0x200u32 & !0xfffu32 == 0,
        0x40u32 & !0xfffu32 == 0,
        1u32 & !0xfffu32 == 0,
        0u32 & !0xfffu32 == 0,
{
}

/// The frames that loading the image of the check clears: that of the code, and that of the data.
pub open spec fn demo_cleared(base: u64) -> Seq<(u64, u32)> {
    seq![((base + 1) as u64, 1u32), ((base + 2) as u64, 1u32)]
}

/// The pages of the image of the check.
pub open spec fn demo_maps(base: u64) -> Seq<SegmentMap> {
    seq![
        SegmentMap {
            index: 0,
            vaddr: CODE_VA,
            pfn: (base + 1) as u32,
            pages: 1,
            prot: crate::kernel::arch::Prot::Rx,
        },
        SegmentMap {
            index: 1,
            vaddr: DATA_VA,
            pfn: (base + 2) as u32,
            pages: 1,
            prot: crate::kernel::arch::Prot::Rw,
        },
    ]
}

/// The process of the check holds its four capabilities, and nothing else.
pub open spec fn is_demo_process(v: CSpaceView, base: u64) -> bool {
    &&& v.slots.len() == PROCESS_SLOTS
    &&& v.cap(1) == (RawCap {
        cap_type: CapType::Sched,
        rights: Rights { bits: 0x200 },
        objref: 2,
        size: 100,
        watermark: 0,
        aux: 1000,
        badge: 0,
    })
    &&& v.cap(2) == (RawCap {
        cap_type: CapType::Endpoint,
        rights: Rights { bits: 0x40 },
        objref: base,
        size: 1,
        watermark: 0,
        aux: 0,
        badge: EP_BADGE,
    })
    &&& v.cap(3) == (RawCap {
        cap_type: CapType::Frame,
        rights: Rights { bits: 1 },
        objref: (base + 1) as u64,
        size: 1,
        watermark: 0,
        aux: 0,
        badge: 0,
    })
    &&& v.cap(4) == (RawCap {
        cap_type: CapType::Frame,
        rights: Rights { bits: 0 },
        objref: (base + 2) as u64,
        size: 1,
        watermark: 0,
        aux: 0,
        badge: 0,
    })
    &&& forall|i: int| 0 <= i < PROCESS_SLOTS && !(1 <= i <= 4) ==> v.vacant(i)
}

/// What the check came to.
pub struct LoadReport {
    /// The process.
    pub loaded: Loaded,
    /// The pages to fill and map for it.
    pub maps: Vec<SegmentMap>,
    /// How many capabilities it holds.
    pub held: usize,
    /// What identifying its first frame came to.
    pub identified: Result<u64, InvokeError>,
    /// What looking at its first frame came to, which it may read.
    pub probed: Result<u64, InvokeError>,
    /// What looking at its second frame came to, which it may not.
    pub refused: Result<u64, InvokeError>,
    /// What sending on its endpoint came to.
    pub sent: Result<u64, InvokeError>,
    /// What sending on a frame came to.
    pub wrong_type: Result<u64, InvokeError>,
    /// What invoking an empty slot came to.
    pub empty_slot: Result<u64, InvokeError>,
    /// What invoking a slot that does not exist came to.
    pub bad_cptr: Result<u64, InvokeError>,
    /// Why a damaged image was not loaded.
    pub damaged: Option<LoadError>,
}

/// The CSpaces of the check.
pub struct LoadSpaces<Z: ZeroFrames> {
    /// The loader's.
    pub authority: CSpace<LOADER_SLOTS, Z>,
    /// The process's.
    pub process: CSpace<PROCESS_SLOTS, Z>,
    /// That of the process whose image is damaged.
    pub other: CSpace<PROCESS_SLOTS, Z>,
}

/// The domain of the check.
pub const DOMAIN: u64 = 0x50;

/// What identifying a `Frame` with READ alone is answered: the type in the upper half of the word,
/// the rights in the lower.
pub const FRAME_READ_ONLY: u64 = 0x2_0000_0001;

/// Run the check with the frames from `base` on. Whatever they are, the process has exactly the
/// capabilities of its manifest, they allow what they should and nothing else, and a damaged image
/// is refused. The frames of the endpoint, the code and the data are cleared, and no others.
pub fn run<Z: ZeroFrames>(arch: u16, base: u64, authority: Z, own: Z, other: Z) -> (r: Result<
    (LoadReport, LoadSpaces<Z>),
    LoadError,
>)
    requires
        base + 64 <= u32::MAX,
    ensures
        r is Ok,
        r matches Ok((rep, spaces)) ==> {
            &&& rep.loaded.entry == CODE_VA
            &&& rep.loaded.budget == 100
            &&& rep.loaded.domain_id == DOMAIN
            &&& rep.maps@ == demo_maps(base)
            &&& rep.held == 4
            &&& rep.identified == Ok::<u64, InvokeError>(FRAME_READ_ONLY)
            &&& rep.probed == Ok::<u64, InvokeError>((base + 1) as u64)
            &&& rep.refused == Err::<u64, InvokeError>(InvokeError::InsufficientRights)
            &&& rep.sent == Ok::<u64, InvokeError>(EP_BADGE)
            &&& rep.wrong_type == Err::<u64, InvokeError>(InvokeError::WrongType)
            &&& rep.empty_slot == Err::<u64, InvokeError>(InvokeError::EmptySlot)
            &&& rep.bad_cptr == Err::<u64, InvokeError>(InvokeError::BadCptr)
            &&& rep.damaged == Some(LoadError::Pex(pex::PexError::BadMagic))
            &&& spaces.authority@.zeroed == authority.zeroed().push((base, 1u32)) + demo_cleared(
                base,
            )
            &&& is_demo_process(spaces.process@, base)
            &&& spaces.process@.zeroed == own.zeroed()
            &&& forall|i: int| 0 <= i < PROCESS_SLOTS ==> spaces.other@.vacant(i)
            &&& spaces.other@.zeroed == other.zeroed()
        },
{
    let image: Vec<u8> = match build_pex(arch) {
        None => {
            return Err(LoadError::Pex(pex::PexError::TooShort));
        },
        Some(image) => image,
    };
    let mut loader_cs: CSpace<LOADER_SLOTS, Z> = match loader_authority(base, authority) {
        Err(e) => {
            return Err(LoadError::Cap(e));
        },
        Ok(cs) => cs,
    };
    let mut process: CSpace<PROCESS_SLOTS, Z> = CSpace::new(own);
    let mut maps: Vec<SegmentMap> = Vec::new();
    proof {
        lemma_demo_loads(image@, arch, loader_cs@, process@, base);
    }
    let loaded: Loaded = match load(
        image.as_slice(),
        arch,
        &mut loader_cs,
        &mut process,
        DOMAIN,
        &mut maps,
    ) {
        Err(e) => {
            return Err(e);
        },
        Ok(loaded) => loaded,
    };
    proof {
        assert(maps@ =~= demo_maps(base));
        model::lemma_default_rights();
        lemma_four_held(process@, base);
        assert(process@.vacant(0));
    }
    let held: usize = occupied_slots(&process);
    let identified: Result<u64, InvokeError> = invoke(
        &process,
        &Invocation::new(3, op::CAP_IDENTIFY),
    );
    let probed: Result<u64, InvokeError> = invoke(&process, &Invocation::new(3, op::FRAME_PROBE));
    let refused: Result<u64, InvokeError> = invoke(&process, &Invocation::new(4, op::FRAME_PROBE));
    let sent: Result<u64, InvokeError> = invoke(&process, &Invocation::new(2, op::ENDPOINT_SEND));
    let wrong_type: Result<u64, InvokeError> = invoke(
        &process,
        &Invocation::new(3, op::ENDPOINT_SEND),
    );
    let empty_slot: Result<u64, InvokeError> = invoke(
        &process,
        &Invocation::new(0, op::CAP_IDENTIFY),
    );
    let bad_cptr: Result<u64, InvokeError> = invoke(
        &process,
        &Invocation::new(999, op::CAP_IDENTIFY),
    );
    let mut bad: Vec<u8> = image.clone();
    let first: u8 = bad[0];
    bad.set(0, first ^ 0xff);
    proof {
        assert(first ^ 0xff != first) by (bit_vector);
        lemma_damaged(image@, bad@, arch);
    }
    let mut throwaway: CSpace<PROCESS_SLOTS, Z> = CSpace::new(other);
    let mut unused: Vec<SegmentMap> = Vec::new();
    let damaged: Option<LoadError> = match load(
        bad.as_slice(),
        arch,
        &mut loader_cs,
        &mut throwaway,
        0x51,
        &mut unused,
    ) {
        Err(e) => Some(e),
        Ok(_) => None,
    };
    let report = LoadReport {
        loaded,
        maps,
        held,
        identified,
        probed,
        refused,
        sent,
        wrong_type,
        empty_slot,
        bad_cptr,
        damaged,
    };
    Ok((report, LoadSpaces { authority: loader_cs, process, other: throwaway }))
}

/// The process of the check holds four capabilities.
proof fn lemma_four_held(v: CSpaceView, base: u64)
    requires
        is_demo_process(v, base),
    ensures
        revoke::live_count(v.slots) == 4,
{
    let w = revoke::live_marks(v.slots);
    assert forall|i: int| 5 <= i < w.len() implies w[i] == 0 by {
        assert(v.vacant(i));
    }
    assert(v.vacant(0));
    model::lemma_zero_tail(w, 5);
    let h = w.take(5);
    assert(h =~= seq![0nat, 1nat, 1nat, 1nat, 1nat]);
    assert(h.drop_last() =~= seq![0nat, 1nat, 1nat, 1nat]);
    assert(h.drop_last().drop_last() =~= seq![0nat, 1nat, 1nat]);
    assert(h.drop_last().drop_last().drop_last() =~= seq![0nat, 1nat]);
    assert(h.drop_last().drop_last().drop_last().drop_last() =~= seq![0nat]);
    assert(h.drop_last().drop_last().drop_last().drop_last().drop_last() =~= Seq::<nat>::empty());
    reveal_with_fuel(model::total, 6);
}

/// An image whose first byte is another is not one.
proof fn lemma_damaged(b: Seq<u8>, bad: Seq<u8>, arch: u16)
    requires
        pex::parse_error(b, arch) is None,
        bad.len() == b.len(),
        bad[0] != b[0],
    ensures
        pex::parse_error(bad, arch) == Some(pex::PexError::BadMagic),
{
    let good = b.subrange(0, 4);
    let other = bad.subrange(0, 4);
    assert(good[0] == b[0] && other[0] == bad[0]);
    assert(bytes::le_value(good) == good[0] as nat + 256 * bytes::le_value(good.drop_first()));
    assert(bytes::le_value(other) == other[0] as nat + 256 * bytes::le_value(other.drop_first()));
}

} // verus!
