//! Frame numbers and physical addresses.

use vstd::prelude::*;

verus! {

/// The size of a page and of a frame.
pub const PAGE_SIZE: u64 = 4096;

/// `log2(PAGE_SIZE)`.
pub const PAGE_SHIFT: u32 = 12;

/// A frame number: a physical address divided by [`PAGE_SIZE`].
pub type Pfn = u32;

/// "No frame", as a link in a free list.
pub const NIL: Pfn = u32::MAX;

/// The physical address of frame `pfn`.
pub fn pfn_to_phys(pfn: Pfn) -> (phys: u64)
    ensures
        phys == pfn * PAGE_SIZE,
{
    assert((pfn as u64) << 12u32 == pfn * 4096) by (bit_vector);
    (pfn as u64) << PAGE_SHIFT
}

/// The number of the frame that holds `phys`, of which the low 32 bits are kept.
pub fn phys_to_pfn(phys: u64) -> (pfn: Pfn)
    ensures
        pfn == (phys as int / PAGE_SIZE as int) % 0x1_0000_0000,
{
    assert(((phys >> 12u32) as u32) == (phys / 4096) % 0x1_0000_0000) by (bit_vector);
    (phys >> PAGE_SHIFT) as Pfn
}

/// The number of a frame is read back from its address.
pub proof fn law_frame_address_round_trip(pfn: Pfn)
    ensures
        ((pfn * PAGE_SIZE) / PAGE_SIZE as int) % 0x1_0000_0000 == pfn,
{
}

} // verus!
