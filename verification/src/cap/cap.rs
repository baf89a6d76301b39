//! The capability record and its typed wrapper.
//!
//! [`RawCap`] is the runtime record stored in a CSpace slot: object type, rights, object
//! reference and badge. [`Cap<T>`] is the typed handle that code holds: it cannot be copied,
//! and it can only be made by [`Cap::fabricate`], which is private to this crate.

use crate::cap::rights::Rights;
use core::marker::PhantomData;
use vstd::prelude::*;

verus! {

/// The object class a capability names. `Null` marks an empty CSpace slot.
#[derive(Clone, Copy, PartialEq, Eq, Structural, Debug)]
pub enum CapType {
    Null,
    Untyped,
    Frame,
    CNode,
    Endpoint,
    Notification,
    Task,
    Sched,
    Reply,
    AddrSpace,
    VSpace,
    FNode,
    Device,
    IrqControl,
    /// A read-only window onto a shared region; only the kernel installs one.
    SharedRo,
    /// The authority to run in an isolation domain; only the kernel installs one.
    Domain,
}

/// The type-erased capability record. `objref` is an opaque object id (a frame number for
/// `Frame` and `Untyped`), never an address. What `size`, `watermark` and `aux` mean depends
/// on `cap_type`:
///  - `Frame`, `CNode`, `Endpoint`: `size` is the number of frames the object occupies;
///  - `Untyped`: `size` is the number of frames, `watermark` those consumed by RETYPE;
///  - `Sched`: `size` is the CPU-time budget, `watermark` what was consumed this period and
///    `aux` the replenishment period;
///  - `SharedRo`: `aux` is the page number of the window.
#[derive(Clone, Copy, PartialEq, Eq, Structural, Debug)]
pub struct RawCap {
    pub cap_type: CapType,
    pub rights: Rights,
    /// Object reference.
    pub objref: u64,
    pub size: u32,
    pub watermark: u32,
    pub aux: u32,
    /// Provenance stamp set by MINT; distinguishes callers.
    pub badge: u64,
}

impl RawCap {
    /// The empty-slot record, as a value of the model.
    pub open spec fn null_spec() -> RawCap {
        RawCap {
            cap_type: CapType::Null,
            rights: Rights { bits: 0 },
            objref: 0,
            size: 0,
            watermark: 0,
            aux: 0,
            badge: 0,
        }
    }

    /// The empty-slot record.
    pub fn null() -> (c: RawCap)
        ensures
            c == RawCap::null_spec(),
    {
        RawCap {
            cap_type: CapType::Null,
            rights: Rights::empty(),
            objref: 0,
            size: 0,
            watermark: 0,
            aux: 0,
            badge: 0,
        }
    }

    /// Is this slot empty?
    pub fn is_null(&self) -> (b: bool)
        ensures
            b == (self.cap_type == CapType::Null),
    {
        matches!(self.cap_type, CapType::Null)
    }
}

/// Ties a zero-sized object-type marker to its [`CapType`] tag.
pub trait ObjectType {
    /// The tag.
    const TYPE: CapType;

    /// The tag, as a value of the model.
    spec fn tag() -> CapType;

    /// Both are the same.
    proof fn tagged()
        ensures
            Self::TYPE == Self::tag(),
    ;
}

/// Marker for `Untyped` objects.
#[derive(Debug)]
pub struct Untyped;

impl ObjectType for Untyped {
    const TYPE: CapType = CapType::Untyped;

    open spec fn tag() -> CapType {
        CapType::Untyped
    }

    proof fn tagged() {
    }
}

/// Marker for `Frame` objects.
#[derive(Debug)]
pub struct Frame;

impl ObjectType for Frame {
    const TYPE: CapType = CapType::Frame;

    open spec fn tag() -> CapType {
        CapType::Frame
    }

    proof fn tagged() {
    }
}

/// Marker for `CNode` objects.
#[derive(Debug)]
pub struct CNode;

impl ObjectType for CNode {
    const TYPE: CapType = CapType::CNode;

    open spec fn tag() -> CapType {
        CapType::CNode
    }

    proof fn tagged() {
    }
}

/// Marker for `Endpoint` objects.
#[derive(Debug)]
pub struct Endpoint;

impl ObjectType for Endpoint {
    const TYPE: CapType = CapType::Endpoint;

    open spec fn tag() -> CapType {
        CapType::Endpoint
    }

    proof fn tagged() {
    }
}

/// Marker for `Notification` objects.
#[derive(Debug)]
pub struct Notification;

impl ObjectType for Notification {
    const TYPE: CapType = CapType::Notification;

    open spec fn tag() -> CapType {
        CapType::Notification
    }

    proof fn tagged() {
    }
}

/// Marker for `Task` objects.
#[derive(Debug)]
pub struct Task;

impl ObjectType for Task {
    const TYPE: CapType = CapType::Task;

    open spec fn tag() -> CapType {
        CapType::Task
    }

    proof fn tagged() {
    }
}

/// Marker for `Sched` objects.
#[derive(Debug)]
pub struct Sched;

impl ObjectType for Sched {
    const TYPE: CapType = CapType::Sched;

    open spec fn tag() -> CapType {
        CapType::Sched
    }

    proof fn tagged() {
    }
}

/// Marker for `Reply` objects.
#[derive(Debug)]
pub struct Reply;

impl ObjectType for Reply {
    const TYPE: CapType = CapType::Reply;

    open spec fn tag() -> CapType {
        CapType::Reply
    }

    proof fn tagged() {
    }
}

/// Marker for `AddrSpace` objects.
#[derive(Debug)]
pub struct AddrSpace;

impl ObjectType for AddrSpace {
    const TYPE: CapType = CapType::AddrSpace;

    open spec fn tag() -> CapType {
        CapType::AddrSpace
    }

    proof fn tagged() {
    }
}

/// Marker for `VSpace` objects.
#[derive(Debug)]
pub struct VSpace;

impl ObjectType for VSpace {
    const TYPE: CapType = CapType::VSpace;

    open spec fn tag() -> CapType {
        CapType::VSpace
    }

    proof fn tagged() {
    }
}

/// Marker for `FNode` objects.
#[derive(Debug)]
pub struct FNode;

impl ObjectType for FNode {
    const TYPE: CapType = CapType::FNode;

    open spec fn tag() -> CapType {
        CapType::FNode
    }

    proof fn tagged() {
    }
}

/// Marker for `Device` objects.
#[derive(Debug)]
pub struct Device;

impl ObjectType for Device {
    const TYPE: CapType = CapType::Device;

    open spec fn tag() -> CapType {
        CapType::Device
    }

    proof fn tagged() {
    }
}

/// Marker for `IrqControl` objects.
#[derive(Debug)]
pub struct IrqControl;

impl ObjectType for IrqControl {
    const TYPE: CapType = CapType::IrqControl;

    open spec fn tag() -> CapType {
        CapType::IrqControl
    }

    proof fn tagged() {
    }
}

/// A typed capability handle. Holding a `Cap<Frame>` is the only way to name a frame; its
/// rights are checked against the inner [`RawCap`]. It is not `Copy`: duplication goes through
/// COPY and MINT, so provenance stays explicit.
pub struct Cap<T: ObjectType> {
    raw: RawCap,
    _marker: PhantomData<T>,
}

impl<T: ObjectType> Cap<T> {
    /// The record behind the handle.
    pub closed spec fn raw(&self) -> RawCap {
        self.raw
    }

    /// Make a typed handle from a record of the right type. The only way a handle comes into
    /// being, and out of reach of every other crate.
    pub(crate) fn fabricate(raw: RawCap) -> (cap: Self)
        requires
            raw.cap_type == T::tag(),
        ensures
            cap.raw() == raw,
    {
        Cap { raw, _marker: PhantomData }
    }

    /// The rights this capability carries.
    pub fn rights(&self) -> (r: Rights)
        ensures
            r == self.raw().rights,
    {
        self.raw.rights
    }

    /// The object this capability names.
    pub fn objref(&self) -> (o: u64)
        ensures
            o == self.raw().objref,
    {
        self.raw.objref
    }

    /// The provenance badge (0 if unset).
    pub fn badge(&self) -> (b: u64)
        ensures
            b == self.raw().badge,
    {
        self.raw.badge
    }

    /// Does this capability permit every right in `r`?
    pub fn allows(&self, r: Rights) -> (b: bool)
        ensures
            b == self.raw().rights.includes(r),
    {
        self.raw.rights.contains(r)
    }

    /// The type-erased record, as stored in a CSpace slot.
    pub fn to_raw(&self) -> (c: RawCap)
        ensures
            c == self.raw(),
    {
        self.raw
    }
}


/// Every marker stands for the type of its name, so that no two stand for one.
pub proof fn law_markers_stand_for_their_types()
    ensures
        Untyped::tag() == CapType::Untyped,
        Frame::tag() == CapType::Frame,
        CNode::tag() == CapType::CNode,
        Endpoint::tag() == CapType::Endpoint,
        Notification::tag() == CapType::Notification,
        Task::tag() == CapType::Task,
        Sched::tag() == CapType::Sched,
        Reply::tag() == CapType::Reply,
        AddrSpace::tag() == CapType::AddrSpace,
        VSpace::tag() == CapType::VSpace,
        FNode::tag() == CapType::FNode,
        Device::tag() == CapType::Device,
        IrqControl::tag() == CapType::IrqControl,
{
}

/// The types have the numbers 0 to 15, by which user space knows them.
pub proof fn law_types_have_these_numbers(t: CapType)
    ensures
        t as u8 == (match t {
            CapType::Null => 0u8,
            CapType::Untyped => 1,
            CapType::Frame => 2,
            CapType::CNode => 3,
            CapType::Endpoint => 4,
            CapType::Notification => 5,
            CapType::Task => 6,
            CapType::Sched => 7,
            CapType::Reply => 8,
            CapType::AddrSpace => 9,
            CapType::VSpace => 10,
            CapType::FNode => 11,
            CapType::Device => 12,
            CapType::IrqControl => 13,
            CapType::SharedRo => 14,
            CapType::Domain => 15,
        }),
{
}

} // verus!
