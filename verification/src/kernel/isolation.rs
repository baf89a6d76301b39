//! Checks of the isolation of memory at boot: a guard page is out of reach and nothing else is, code
//! and data are protected, and a domain is entered only with the capability for it.

use crate::cap::cspace::{CSpace, CapError, Cptr};
use crate::cap::mdb;
use crate::cap::model;
use crate::cap::zero::ZeroFrames;
use crate::kernel::arch::edit;
use crate::kernel::arch::tables;
use crate::kernel::arch::tables::{Mapping, TableMemory, PAGE};
use crate::kernel::arch::x86_64::paging::{build_domain_excluding, Pml4};
use crate::kernel::arch::x86_64::paging;
use crate::kernel::arch::x86_64::paging::{install_guard_page, page_prot, translate};
use crate::kernel::memory::phys_to_virt;
use vstd::prelude::*;

verus! {

/// The number of slots.
pub const SLOTS: usize = 8;

/// The slot of a capability that is no domain.
pub const NON_DOMAIN_SLOT: Cptr = 0;

/// The slot of the domain.
pub const DOMAIN_SLOT: Cptr = 1;

/// A slot with nothing in it.
pub const EMPTY_SLOT: Cptr = 2;

/// The domain.
pub const DEMO_DOMAIN_ID: u64 = 0xD0;

/// What is wrong with the pages around a guard page.
#[derive(Clone, Copy, PartialEq, Eq, Structural, Debug)]
pub enum GuardFault {
    /// The guard page is still mapped.
    StillMapped,
    /// The page above is not where it was.
    NeighbourMoved,
    /// The page above is not read-write without execute.
    NeighbourProtection,
}

/// What is wrong, if the guard page is found at `guard` and the page above at `above` with
/// protection `prot`, and the page above ought to be frame `frame`.
pub fn guard_fault(
    guard: Option<u64>,
    above: Option<u64>,
    prot: Option<(bool, bool)>,
    frame: u64,
) -> (r: Option<GuardFault>)
    ensures
        r == (if guard is Some {
            Some(GuardFault::StillMapped)
        } else if above != Some(frame) {
            Some(GuardFault::NeighbourMoved)
        } else if prot != Some((true, false)) {
            Some(GuardFault::NeighbourProtection)
        } else {
            None
        }),
{
    if guard.is_some() {
        return Some(GuardFault::StillMapped);
    }
    match above {
        Some(pa) => {
            if pa != frame {
                return Some(GuardFault::NeighbourMoved);
            }
        },
        None => {
            return Some(GuardFault::NeighbourMoved);
        },
    }
    match prot {
        Some((true, false)) => None,
        _ => Some(GuardFault::NeighbourProtection),
    }
}

/// Pages that follow each other are not the same.
proof fn lemma_next_page(a: u64, b: u64)
    requires
        b == a + 4096,
    ensures
        !tables::same_page(b, a),
{
    assert(b as int / 4096 == a as int / 4096 + 1);
    assert((a as int / 4096 + 1) % 512 != (a as int / 4096) % 512);
}

/// What is wrong with the page above a guard page that is mapped like this, if it ought to be frame
/// `frame`.
pub open spec fn neighbour_fault(page: Option<Mapping>, frame: int) -> Option<GuardFault> {
    match page {
        Some(p) => if p.phys != frame {
            Some(GuardFault::NeighbourMoved)
        } else if p.attrs & paging::WRITABLE == 0 || p.attrs & paging::NX == 0 {
            Some(GuardFault::NeighbourProtection)
        } else {
            None
        },
        None => Some(GuardFault::NeighbourMoved),
    }
}

/// Make the lower one of two frames at `block` a guard page, as they are seen from `hhdm` on, and
/// look at both. The guard page is gone; the page above is what it was.
pub fn verify_guard_page<M: TableMemory>(mem: &mut M, root: u64, block: u64, hhdm: u64) -> (r: Option<
    GuardFault,
>)
    requires
        block + hhdm + 8192 <= u64::MAX,
        paging::well_formed(old(mem).tables(), root),
        paging::editable(old(mem).tables(), root, (block + hhdm) as u64, old(mem).room()),
    ensures
        r == neighbour_fault(
            paging::mapping(old(mem).tables(), root, (block + hhdm + 4096) as u64),
            block + 4096,
        ),
        paging::well_formed(final(mem).tables(), root),
        forall|va: u64| #[trigger]
            paging::mapping(final(mem).tables(), root, va) == (if tables::same_page(
                va,
                (block + hhdm) as u64,
            ) {
                None
            } else {
                paging::mapping(old(mem).tables(), root, va)
            }),
        paging::off_path_kept(
            old(mem).tables(),
            final(mem).tables(),
            root,
            (block + hhdm) as u64,
        ),
        final(mem).room() == old(mem).room() - edit::dividing::<Pml4>(
            old(mem).tables(),
            root,
            (block + hhdm) as u64,
        ),
{
    let guard: u64 = phys_to_virt(block, hhdm);
    let neighbour: u64 = guard + PAGE;
    proof {
        lemma_next_page(guard, neighbour);
        paging::lemma_flags();
    }
    install_guard_page(mem, root, guard);
    let above: Option<u64> = translate(mem, root, neighbour);
    let prot: Option<(bool, bool)> = page_prot(mem, root, neighbour);
    guard_fault(translate(mem, root, guard), above, prot, block + PAGE)
}

/// A domain that cannot reach the frame at `phys`, which is mapped at its own address and from
/// `hhdm` on. The first of these goes for everybody; the kernel keeps the second.
pub fn escape_domain<M: TableMemory>(mem: &mut M, root: u64, phys: u64, hhdm: u64) -> (domain: u64)
    requires
        phys + hhdm <= u64::MAX,
        paging::well_formed(old(mem).tables(), root),
        edit::divisible::<Pml4>(old(mem).tables(), root, phys),
        edit::divisible::<Pml4>(old(mem).tables(), root, (phys + hhdm) as u64),
        old(mem).room() >= edit::dividing::<Pml4>(old(mem).tables(), root, phys) + 4,
    ensures
        !old(mem).tables().contains_key(domain),
        paging::well_formed(final(mem).tables(), domain),
        forall|va: u64| #[trigger]
            paging::mapping(final(mem).tables(), domain, va) == (if tables::same_page(va, phys)
                || tables::same_page(va, (phys + hhdm) as u64) {
                None
            } else {
                paging::mapping(old(mem).tables(), root, va)
            }),
        paging::well_formed(final(mem).tables(), root),
        forall|va: u64| #[trigger]
            paging::mapping(final(mem).tables(), root, va) == (if tables::same_page(va, phys) {
                None
            } else {
                paging::mapping(old(mem).tables(), root, va)
            }),
        final(mem).room() == old(mem).room() - edit::dividing::<Pml4>(
            old(mem).tables(),
            root,
            phys,
        ) - 4,
{
    let ghost m = mem.tables();
    let seen: u64 = phys_to_virt(phys, hhdm);
    install_guard_page(mem, root, phys);
    let ghost m1 = mem.tables();
    assert(edit::divisible::<Pml4>(m1, root, seen));
    let domain: u64 = build_domain_excluding(mem, root, seen);
    proof {
        let n = mem.tables();
        tables::law_untouched_tables_keep_the_space::<Pml4>(m1, n, root);
        assert forall|va: u64| #[trigger]
            paging::mapping(n, root, va) == paging::mapping(m1, root, va) by {
            assert(tables::walk::<Pml4>(n, root, 3, va) == tables::walk::<Pml4>(m1, root, 3, va));
        }
        assert forall|va: u64| #[trigger]
            paging::mapping(n, root, va) == (if tables::same_page(va, phys) {
                None
            } else {
                paging::mapping(m, root, va)
            }) by {
            assert(paging::mapping(n, root, va) == paging::mapping(m1, root, va));
        }
    }
    domain
}

/// What entering came to: with the domain, with another capability, and with nothing.
pub struct EntryReport {
    pub with_domain: Result<u64, CapError>,
    pub with_other: Result<u64, CapError>,
    pub with_nothing: Result<u64, CapError>,
}

/// Try to enter a domain with the capability for it, with another one, and with none: only the first
/// is let in.
pub fn verify_domain_entry_gating<Z: ZeroFrames>(zero: Z) -> (r: EntryReport)
    ensures
        r.with_domain == Ok::<u64, CapError>(DEMO_DOMAIN_ID),
        r.with_other == Err::<u64, CapError>(CapError::WrongType),
        r.with_nothing == Err::<u64, CapError>(CapError::EmptySlot),
{
    let mut cs: CSpace<SLOTS, Z> = CSpace::new(zero);
    proof {
        model::lemma_default_rights();
        if mdb::has_child(cs@.slots, 0) {
            let i = choose|i: int| mdb::child_of(cs@.slots, i, 0);
            assert(!mdb::live(cs@.slots, i));
        }
    }
    cs.set_root_untyped(0, 1);
    cs.set_root_domain(DOMAIN_SLOT, DEMO_DOMAIN_ID);
    EntryReport {
        with_domain: cs.enter_domain(DOMAIN_SLOT),
        with_other: cs.enter_domain(NON_DOMAIN_SLOT),
        with_nothing: cs.enter_domain(EMPTY_SLOT),
    }
}


/// **Law:** the page above a guard page is in order exactly if it is mapped to its own frame, to be
/// written and not executed; a page elsewhere counts before a page with another protection.
pub proof fn law_neighbours_stay_as_they_were(page: Option<Mapping>, frame: int)
    ensures
        neighbour_fault(page, frame) is None == (page is Some && page->0.phys == frame
            && page->0.attrs & 2 != 0 && page->0.attrs & 0x8000_0000_0000_0000 != 0),
        (neighbour_fault(page, frame) == Some(GuardFault::NeighbourMoved)) == !(page is Some
            && page->0.phys == frame),
        neighbour_fault(page, frame) != Some(GuardFault::StillMapped),
{
}

} // verus!
