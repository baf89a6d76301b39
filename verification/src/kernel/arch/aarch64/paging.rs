//! aarch64 page tables with a granule of 4 KiB: the kernel's own address space, and edits of single
//! pages. What the architecture calls level 3 holds pages, and is level 0 here.

use vstd::prelude::*;

use crate::kernel::arch::edit;
use crate::kernel::arch::edit::UserFormat;
use crate::kernel::arch::space;
use crate::kernel::arch::space::{map_kernel, map_low};
use crate::kernel::arch::tables;
use crate::kernel::arch::tables::{
    page_base, table_index, Format, Mapping, Step, TableMemory, PAGE,
};
use crate::kernel::arch::{AddressSpace, KernelMap, Prot};

verus! {

/// The address field of a descriptor.
pub const ADDR_MASK: u64 = 0x0000_ffff_ffff_f000;

/// Where memory starts; below are devices.
pub const RAM_BASE: u64 = 0x4000_0000;

/// The descriptor is in use.
pub const VALID: u64 = 1;

/// The low bits of a table, or of a page at the last level.
pub const TABLE: u64 = 3;

/// The low bits of a block.
pub const BLOCK: u64 = 1;

/// Accesses do not fault for the first time.
pub const AF: u64 = 0x400;

/// Inner shareable.
pub const SH_INNER: u64 = 0x300;

/// Device memory.
pub const ATTR_DEVICE: u64 = 4;

/// Memory with tags.
pub const ATTR_TAGGED: u64 = 8;

/// Read-only.
pub const AP_RO: u64 = 0x80;

/// EL0 has access.
pub const AP_EL0: u64 = 0x40;

/// EL1 executes nothing.
pub const PXN: u64 = 0x0020_0000_0000_0000;

/// EL0 executes nothing.
pub const UXN: u64 = 0x0040_0000_0000_0000;

/// aarch64 page tables with a granule of 4 KiB.
pub struct Granule4K;

/// The flags of a page of the kernel's.
pub open spec fn page_flags(prot: Prot) -> u64 {
    match prot {
        Prot::Rx => AF | SH_INNER | TABLE | UXN | AP_RO,
        Prot::Ro => AF | SH_INNER | TABLE | UXN | AP_RO | PXN,
        Prot::Rw => AF | SH_INNER | TABLE | UXN | PXN,
    }
}

/// The flags of a page of a process: EL1 never executes it.
pub open spec fn user_page_flags(prot: Prot) -> u64 {
    match prot {
        Prot::Rx => AF | SH_INNER | TABLE | AP_EL0 | PXN | AP_RO,
        Prot::Ro => AF | SH_INNER | TABLE | AP_EL0 | PXN | AP_RO | UXN,
        Prot::Rw => AF | SH_INNER | TABLE | AP_EL0 | PXN | UXN,
    }
}

/// The flags of a block of low memory at `pa`.
pub open spec fn block_flags(pa: u64) -> u64 {
    if pa < RAM_BASE {
        AF | ATTR_DEVICE | BLOCK | PXN | UXN
    } else {
        AF | SH_INNER | BLOCK | PXN | UXN
    }
}

/// The flags of a page with tags.
pub open spec fn tagged_flags() -> u64 {
    AF | SH_INNER | ATTR_TAGGED | TABLE | UXN | PXN
}

/// What the flags that descriptors are made with say.
proof fn lemma_flags()
    by (bit_vector)
    ensures
        0u64 & VALID == 0,
        VALID & ADDR_MASK == 0,
        TABLE & ADDR_MASK == 0,
        TABLE & VALID != 0,
        TABLE & TABLE == TABLE,
        BLOCK != TABLE,
        forall|f: u64|
            #![trigger f & ADDR_MASK]
            f == AF | SH_INNER | TABLE | UXN | AP_RO || f == AF | SH_INNER | TABLE | UXN | AP_RO
                | PXN || f == AF | SH_INNER | TABLE | UXN | PXN || f == AF | SH_INNER | TABLE
                | AP_EL0 | PXN | AP_RO || f == AF | SH_INNER | TABLE | AP_EL0 | PXN | AP_RO | UXN
                || f == AF | SH_INNER | TABLE | AP_EL0 | PXN | UXN || f == AF | SH_INNER
                | ATTR_TAGGED | TABLE | UXN | PXN ==> f & ADDR_MASK == 0 && f & VALID != 0,
        forall|f: u64|
            #![trigger f & ADDR_MASK]
            f == AF | ATTR_DEVICE | BLOCK | PXN | UXN || f == AF | SH_INNER | BLOCK | PXN | UXN
                ==> f & ADDR_MASK == 0 && f & VALID != 0 && f & TABLE == BLOCK && f & AP_RO == 0
                && f & PXN != 0 && f & !TABLE & AP_RO == 0 && f & !TABLE & PXN != 0 && f & !TABLE
                & UXN != 0 && f & !TABLE & AP_EL0 == 0,
        (AF | ATTR_DEVICE | BLOCK | PXN | UXN) & !TABLE & 0x1c == 4,
        (AF | SH_INNER | BLOCK | PXN | UXN) & !TABLE & 0x1c == 0,
        (AF | SH_INNER | ATTR_TAGGED | TABLE | UXN | PXN) & !TABLE & 0x1c == 8,
        (AF | SH_INNER | ATTR_TAGGED | TABLE | UXN | PXN) & !TABLE & AP_RO == 0,
        (AF | SH_INNER | ATTR_TAGGED | TABLE | UXN | PXN) & !TABLE & AP_EL0 == 0,
        (AF | SH_INNER | ATTR_TAGGED | TABLE | UXN | PXN) & !TABLE & PXN != 0,
        (AF | SH_INNER | ATTR_TAGGED | TABLE | UXN | PXN) & !TABLE & UXN != 0,
        (AF | SH_INNER | ATTR_TAGGED | TABLE | UXN | PXN) & !TABLE & AF != 0,
{
}

/// Whether the pages of a protection are writable and, for EL1, executable.
proof fn lemma_page_flags(prot: Prot)
    ensures
        ((page_flags(prot) & !TABLE) & AP_RO == 0) == prot.writes(),
        ((page_flags(prot) & !TABLE) & PXN == 0) == prot.executes(),
        ((user_page_flags(prot) & !TABLE) & AP_RO == 0) == prot.writes(),
        ((user_page_flags(prot) & !TABLE) & UXN == 0) == prot.executes(),
        (user_page_flags(prot) & !TABLE) & PXN != 0,
        (user_page_flags(prot) & !TABLE) & AP_EL0 != 0,
        (page_flags(prot) & !TABLE) & AP_EL0 == 0,
        (page_flags(prot) & !TABLE) & UXN != 0,
        (page_flags(prot) & !TABLE) & AF != 0,
        (user_page_flags(prot) & !TABLE) & AF != 0,
        (page_flags(prot) & !TABLE) & 0x1c == 0,
        (user_page_flags(prot) & !TABLE) & 0x1c == 0,
{
    let p = page_flags(prot);
    let u = user_page_flags(prot);
    let w = prot.writes();
    let x = prot.executes();
    assert(((p & !TABLE) & AP_RO == 0) == w && ((p & !TABLE) & PXN == 0) == x && ((u & !TABLE)
        & AP_RO == 0) == w && ((u & !TABLE) & UXN == 0) == x && (u & !TABLE) & PXN != 0 && (u
        & !TABLE) & AP_EL0 != 0 && (p & !TABLE) & AP_EL0 == 0 && (p & !TABLE) & UXN != 0 && (p
        & !TABLE) & AF != 0 && (u & !TABLE) & AF != 0 && (p & !TABLE) & 0x1c == 0 && (u & !TABLE)
        & 0x1c == 0) by (bit_vector)
        requires
            (!w && x && p == AF | SH_INNER | TABLE | UXN | AP_RO && u == AF | SH_INNER | TABLE
                | AP_EL0 | PXN | AP_RO) || (!w && !x && p == AF | SH_INNER | TABLE | UXN | AP_RO
                | PXN && u == AF | SH_INNER | TABLE | AP_EL0 | PXN | AP_RO | UXN) || (w && !x && p
                == AF | SH_INNER | TABLE | UXN | PXN && u == AF | SH_INNER | TABLE | AP_EL0 | PXN
                | UXN),
    ;
}

/// What masks do to descriptors and addresses.
proof fn lemma_masks(x: u64)
    by (bit_vector)
    ensures
        x & ADDR_MASK <= ADDR_MASK,
        (x & ADDR_MASK) % 4096 == 0,
        x % 4096 == 0 && x < 0x1_0000_0000_0000 ==> x & ADDR_MASK == x,
        x & !0x1f_ffffu64 == x - x % 0x20_0000,
        x & !0x3fff_ffffu64 == x - x % 0x4000_0000,
        x & !0xfffu64 == x - x % 0x1000,
        x & !0u64 == x,
        x & 0xfff == x % 0x1000,
        x & 0x1f_ffff == x % 0x20_0000,
        x & 0x3fff_ffff == x % 0x4000_0000,
        x & 0 == 0,
        (x & !ADDR_MASK & !TABLE) & ADDR_MASK == 0,
        (x & !ADDR_MASK & !TABLE) & AP_RO == x & AP_RO,
        (x & !ADDR_MASK & !TABLE) & PXN == x & PXN,
        ((x & !ADDR_MASK & !TABLE) | TABLE) & ADDR_MASK == 0,
        ((x & !ADDR_MASK & !TABLE) | TABLE) & VALID != 0,
        ((x & !ADDR_MASK & !TABLE) | TABLE) & !TABLE == x & !ADDR_MASK & !TABLE,
        x & TABLE == BLOCK ==> x & VALID != 0,
{
}

/// What a descriptor made of an address and flags says.
proof fn lemma_descriptor(pa: u64, flags: u64)
    requires
        pa % 4096 == 0,
        pa < 0x1_0000_0000_0000,
        flags & ADDR_MASK == 0,
    ensures
        (pa | flags) & ADDR_MASK == pa,
        (pa | flags) & VALID == flags & VALID,
        (pa | flags) & TABLE == flags & TABLE,
        Granule4K::attrs(pa | flags) == flags & !TABLE,
{
    lemma_masks(pa);
    lemma_flags();
    tables::lemma_fields(pa, flags, ADDR_MASK, VALID);
    tables::lemma_fields(pa, flags, ADDR_MASK, TABLE);
}

impl Format for Granule4K {
    open spec fn step(level: int, e: u64) -> Step {
        if e & VALID == 0 {
            Step::Absent
        } else if level <= 0 || e & TABLE == BLOCK {
            Step::Leaf
        } else {
            Step::Table(e & ADDR_MASK)
        }
    }

    open spec fn address(e: u64) -> u64 {
        e & ADDR_MASK
    }

    open spec fn attrs(e: u64) -> u64 {
        e & !ADDR_MASK & !TABLE
    }

    open spec fn page_span(level: int) -> int {
        if level >= 3 {
            1
        } else {
            tables::entry_span(level)
        }
    }

    open spec fn link(t: u64) -> u64 {
        t | TABLE
    }

    open spec fn split(e: u64, j: int) -> u64 {
        ((e & ADDR_MASK & !0x1f_ffff) + j * 4096) as u64 | ((e & !ADDR_MASK & !TABLE) | TABLE)
    }

    open spec fn block(pa: u64) -> u64 {
        pa | block_flags(pa)
    }

    open spec fn page(pa: u64, prot: Prot) -> u64 {
        pa | page_flags(prot)
    }

    fn address_of(e: u64) -> (a: u64) {
        e & ADDR_MASK
    }

    fn link_entry(t: u64) -> (e: u64) {
        t | TABLE
    }

    fn split_entry(e: u64, j: usize) -> (p: u64) {
        proof {
            lemma_masks(e);
            lemma_masks(e & ADDR_MASK);
        }
        let base: u64 = e & ADDR_MASK & !0x1f_ffff;
        let attrs: u64 = e & !ADDR_MASK & !TABLE;
        (base + j as u64 * PAGE) | (attrs | TABLE)
    }

    fn block_entry(pa: u64) -> (e: u64) {
        if pa < RAM_BASE {
            pa | (AF | ATTR_DEVICE | BLOCK | PXN | UXN)
        } else {
            pa | (AF | SH_INNER | BLOCK | PXN | UXN)
        }
    }

    fn page_entry(pa: u64, prot: Prot) -> (e: u64) {
        page_desc(pa, prot)
    }

    fn step_of(level: u32, e: u64) -> (s: Step) {
        if e & VALID == 0 {
            Step::Absent
        } else if level == 0 || e & TABLE == BLOCK {
            Step::Leaf
        } else {
            Step::Table(e & ADDR_MASK)
        }
    }

    fn is_block(e: u64) -> (r: bool) {
        e & TABLE == BLOCK
    }

    proof fn steps(level: int, e: u64) {
        lemma_flags();
    }

    proof fn links(level: int, t: u64) {
        lemma_flags();
        lemma_descriptor(t, TABLE);
    }

    proof fn pages(pa: u64, prot: Prot) {
        lemma_flags();
        assert(page_flags(prot) & ADDR_MASK == 0);
        assert(block_flags(pa) & ADDR_MASK == 0);
        lemma_descriptor(pa, page_flags(prot));
        lemma_descriptor(pa, block_flags(pa));
    }

    proof fn splits(e: u64, va: u64) {
        let j = tables::index(va, 0);
        let base = e & ADDR_MASK & !0x1f_ffff;
        let flags = (e & !ADDR_MASK & !TABLE) | TABLE;
        lemma_masks(e);
        lemma_masks(e & ADDR_MASK);
        let pa = (base + j * 4096) as u64;
        lemma_descriptor(pa, flags);
        assert(Self::split(e, j) == pa | flags);
        assert(va as int % 0x20_0000 == j * 4096 + va as int % 4096);
    }
}

/// The descriptor of a page of the kernel's.
fn page_desc(pa: u64, prot: Prot) -> (e: u64)
    ensures
        e == pa | page_flags(prot),
{
    match prot {
        Prot::Rx => pa | (AF | SH_INNER | TABLE | UXN | AP_RO),
        Prot::Ro => pa | (AF | SH_INNER | TABLE | UXN | AP_RO | PXN),
        Prot::Rw => pa | (AF | SH_INNER | TABLE | UXN | PXN),
    }
}

/// The descriptor of a page of a process.
fn user_page_desc(pa: u64, prot: Prot) -> (e: u64)
    ensures
        e == pa | user_page_flags(prot),
{
    match prot {
        Prot::Rx => pa | (AF | SH_INNER | TABLE | AP_EL0 | PXN | AP_RO),
        Prot::Ro => pa | (AF | SH_INNER | TABLE | AP_EL0 | PXN | AP_RO | UXN),
        Prot::Rw => pa | (AF | SH_INNER | TABLE | AP_EL0 | PXN | UXN),
    }
}

/// Where `va` is mapped under `root`.
#[verifier::inline]
pub open spec fn mapping(m: Map<u64, Seq<u64>>, root: u64, va: u64) -> Option<Mapping> {
    tables::mapping::<Granule4K>(m, root, va)
}

/// A tree of tables that is all there.
#[verifier::inline]
pub open spec fn well_formed(m: Map<u64, Seq<u64>>, root: u64) -> bool {
    tables::well_formed::<Granule4K>(m, root)
}

/// Page `va` can be given a descriptor of its own: something is mapped around it, not as a part of a
/// block of 1 GiB, and there is room for one more table if it takes one.
#[verifier::inline]
pub open spec fn editable(m: Map<u64, Seq<u64>>, root: u64, va: u64, room: nat) -> bool {
    edit::divisible::<Granule4K>(m, root, va) && edit::room_to_divide::<Granule4K>(
        m,
        root,
        va,
        room,
    )
}

/// No table is lost, and those that are not on the way to `v` keep their descriptors.
#[verifier::inline]
pub open spec fn off_path_kept(
    m: Map<u64, Seq<u64>>,
    n: Map<u64, Seq<u64>>,
    root: u64,
    v: u64,
) -> bool {
    tables::off_path_kept::<Granule4K>(m, n, root, v)
}

/// The root for `vaddr`: the high half has its own.
pub fn current_root(vaddr: u64, ttbr0: u64, ttbr1: u64) -> (root: u64)
    ensures
        root == (if vaddr >= 0x8000_0000_0000_0000 {
            ttbr1 & ADDR_MASK
        } else {
            ttbr0 & ADDR_MASK
        }),
{
    assert((vaddr & 0x8000_0000_0000_0000 != 0) == (vaddr >= 0x8000_0000_0000_0000))
        by (bit_vector);
    let ttbr: u64 = if vaddr & 0x8000_0000_0000_0000 != 0 {
        ttbr1
    } else {
        ttbr0
    };
    ttbr & ADDR_MASK
}

/// The mask of the offset in a page that is found at this distance from the root.
fn offset_mask(depth: u32) -> (mask: u64)
    requires
        depth <= 3,
    ensures
        mask == Granule4K::page_span(3 - depth) - 1,
{
    if depth == 0 {
        0
    } else if depth == 1 {
        0x3fff_ffff
    } else if depth == 2 {
        0x1f_ffff
    } else {
        0xfff
    }
}

/// The page that `vaddr` is in: its descriptor, and the mask of the offset in it.
fn walk<M: TableMemory>(mem: &M, root: u64, vaddr: u64) -> (r: Option<(u64, u64)>)
    requires
        tables::sound::<Granule4K>(mem.tables(), root),
    ensures
        match (r, tables::walk::<Granule4K>(mem.tables(), root, 3, vaddr)) {
            (None, None) => true,
            (Some((e, mask)), Some((level, f))) => {
                &&& e == f
                &&& 0 <= level <= 3
                &&& mask == Granule4K::page_span(level) - 1
            },
            _ => false,
        },
{
    let ghost m = mem.tables();
    let mut table: u64 = root;
    let mut depth: u32 = 0;
    while depth < 3
        invariant
            depth <= 3,
            m == mem.tables(),
            tables::sound::<Granule4K>(m, root),
            tables::below::<Granule4K>(m, root, 3, vaddr, 3 - depth) == Some(table),
        decreases 3 - depth,
    {
        let e: u64 = mem.read_entry(table, table_index(vaddr, 3 - depth));
        proof {
            tables::lemma_walk_from::<Granule4K>(m, root, 3, vaddr, 3 - depth);
            tables::lemma_below_step::<Granule4K>(m, root, 3, vaddr, 2 - depth);
        }
        if e & VALID == 0 {
            return None;
        }
        if e & TABLE == BLOCK {
            return Some((e, offset_mask(depth)));
        }
        table = e & ADDR_MASK;
        depth = depth + 1;
    }
    proof {
        tables::lemma_walk_from::<Granule4K>(m, root, 3, vaddr, 0);
    }
    let e: u64 = mem.read_entry(table, table_index(vaddr, 0));
    if e & VALID == 0 {
        None
    } else {
        Some((e, offset_mask(3)))
    }
}

/// The physical address of `vaddr`; `None` where nothing is mapped.
#[must_use]
pub fn translate<M: TableMemory>(mem: &M, root: u64, vaddr: u64) -> (r: Option<u64>)
    requires
        tables::sound::<Granule4K>(mem.tables(), root),
    ensures
        match (r, mapping(mem.tables(), root, vaddr)) {
            (None, None) => true,
            (Some(pa), Some(to)) => pa == to.phys,
            _ => false,
        },
{
    match walk(mem, root, vaddr) {
        None => None,
        Some((leaf, mask)) => {
            proof {
                lemma_masks(leaf);
                lemma_masks(leaf & ADDR_MASK);
                lemma_masks(vaddr);
            }
            Some((leaf & ADDR_MASK & !mask) + (vaddr & mask))
        },
    }
}

/// Whether the page of `vaddr` is writable and, for EL1, executable; `None` where nothing is mapped.
#[must_use]
pub fn page_prot<M: TableMemory>(mem: &M, root: u64, vaddr: u64) -> (r: Option<(bool, bool)>)
    requires
        tables::sound::<Granule4K>(mem.tables(), root),
    ensures
        r == (match mapping(mem.tables(), root, vaddr) {
            None => None,
            Some(to) => Some((to.attrs & AP_RO == 0, to.attrs & PXN == 0)),
        }),
{
    match walk(mem, root, vaddr) {
        None => None,
        Some((leaf, _mask)) => {
            proof {
                lemma_masks(leaf);
            }
            Some((leaf & AP_RO == 0, leaf & PXN == 0))
        },
    }
}

/// Take page `vaddr` out of the address space: an access to it faults from now on. Every other page
/// is as before.
pub fn install_guard_page<M: TableMemory>(mem: &mut M, root: u64, vaddr: u64)
    requires
        well_formed(old(mem).tables(), root),
        editable(old(mem).tables(), root, vaddr, old(mem).room()),
    ensures
        well_formed(final(mem).tables(), root),
        forall|va: u64| #[trigger]
            mapping(final(mem).tables(), root, va) == (if tables::same_page(va, vaddr) {
                None
            } else {
                mapping(old(mem).tables(), root, va)
            }),
        off_path_kept(old(mem).tables(), final(mem).tables(), root, vaddr),
        tables::paths_kept::<Granule4K>(old(mem).tables(), final(mem).tables(), root),
        edit::windows_kept::<Granule4K>(old(mem).tables(), final(mem).tables(), root, vaddr),
        final(mem).room() == old(mem).room() - edit::dividing::<Granule4K>(
            old(mem).tables(),
            root,
            vaddr,
        ),
{
    proof {
        lemma_flags();
    }
    edit::set_page::<Granule4K, M>(mem, root, vaddr, 0);
}

/// Map page `vaddr` to the frame of `phys` with protection `prot`, for the kernel. Every other page
/// is as before.
pub fn map_page<M: TableMemory>(mem: &mut M, root: u64, vaddr: u64, phys: u64, prot: Prot)
    requires
        well_formed(old(mem).tables(), root),
        editable(old(mem).tables(), root, vaddr, old(mem).room()),
    ensures
        well_formed(final(mem).tables(), root),
        forall|va: u64| #[trigger]
            mapping(final(mem).tables(), root, va) == (if tables::same_page(va, vaddr) {
                Some(
                    Mapping {
                        phys: (phys & ADDR_MASK) + va % 4096,
                        attrs: page_flags(prot) & !TABLE,
                    },
                )
            } else {
                mapping(old(mem).tables(), root, va)
            }),
        off_path_kept(old(mem).tables(), final(mem).tables(), root, vaddr),
        tables::paths_kept::<Granule4K>(old(mem).tables(), final(mem).tables(), root),
        edit::windows_kept::<Granule4K>(old(mem).tables(), final(mem).tables(), root, vaddr),
        final(mem).room() == old(mem).room() - edit::dividing::<Granule4K>(
            old(mem).tables(),
            root,
            vaddr,
        ),
{
    let e: u64 = page_desc(phys & ADDR_MASK, prot);
    proof {
        lemma_masks(phys);
        lemma_flags();
        assert(page_flags(prot) & ADDR_MASK == 0);
        lemma_descriptor(phys & ADDR_MASK, page_flags(prot));
    }
    edit::set_page::<Granule4K, M>(mem, root, vaddr, e);
}

/// Map page `vaddr` to the frame of `phys` with protection `prot`, for EL0. Every other page is as
/// before. The isolation domain is in the tags of a process's pointers, not in its pages.
pub fn map_user_page<M: TableMemory>(
    mem: &mut M,
    root: u64,
    vaddr: u64,
    phys: u64,
    prot: Prot,
    _domain: u64,
)
    requires
        well_formed(old(mem).tables(), root),
        editable(old(mem).tables(), root, vaddr, old(mem).room()),
    ensures
        well_formed(final(mem).tables(), root),
        forall|va: u64| #[trigger]
            mapping(final(mem).tables(), root, va) == (if tables::same_page(va, vaddr) {
                Some(
                    Mapping {
                        phys: (phys & ADDR_MASK) + va % 4096,
                        attrs: user_page_flags(prot) & !TABLE,
                    },
                )
            } else {
                mapping(old(mem).tables(), root, va)
            }),
        off_path_kept(old(mem).tables(), final(mem).tables(), root, vaddr),
        tables::paths_kept::<Granule4K>(old(mem).tables(), final(mem).tables(), root),
        edit::windows_kept::<Granule4K>(old(mem).tables(), final(mem).tables(), root, vaddr),
        final(mem).room() == old(mem).room() - edit::dividing::<Granule4K>(
            old(mem).tables(),
            root,
            vaddr,
        ),
{
    let e: u64 = user_page_desc(phys & ADDR_MASK, prot);
    proof {
        lemma_masks(phys);
        lemma_flags();
        assert(user_page_flags(prot) & ADDR_MASK == 0);
        lemma_descriptor(phys & ADDR_MASK, user_page_flags(prot));
    }
    edit::set_page::<Granule4K, M>(mem, root, vaddr, e);
}

impl UserFormat for Granule4K {
    open spec fn attrs_for(prot: Prot, user: Option<u64>) -> u64 {
        match user {
            Some(_) => user_page_flags(prot) & !TABLE,
            None => page_flags(prot) & !TABLE,
        }
    }

    open spec fn user_access(m: Map<u64, Seq<u64>>, root: u64, va: u64) -> bool {
        match mapping(m, root, va) {
            Some(page) => page.attrs & AP_EL0 != 0,
            None => false,
        }
    }

    fn map_for<M: TableMemory>(
        mem: &mut M,
        root: u64,
        vaddr: u64,
        phys: u64,
        prot: Prot,
        user: Option<u64>,
    ) {
        proof {
            lemma_masks(phys);
            lemma_page_flags(prot);
        }
        match user {
            Some(domain) => map_user_page(mem, root, vaddr, phys, prot, domain),
            None => map_page(mem, root, vaddr, phys, prot),
        }
    }
}

/// Make page `vaddr` one with tags: read-write, not executable, in the frame that it had. Every
/// other page is as before.
pub fn map_tagged<M: TableMemory>(mem: &mut M, root: u64, vaddr: u64)
    requires
        well_formed(old(mem).tables(), root),
        editable(old(mem).tables(), root, vaddr, old(mem).room()),
        mapping(old(mem).tables(), root, vaddr) is Some,
    ensures
        well_formed(final(mem).tables(), root),
        forall|va: u64| #[trigger]
            mapping(final(mem).tables(), root, va) == (if tables::same_page(va, vaddr) {
                Some(
                    Mapping {
                        phys: mapping(old(mem).tables(), root, vaddr)->0.phys - vaddr % 4096 + va
                            % 4096,
                        attrs: tagged_flags() & !TABLE,
                    },
                )
            } else {
                mapping(old(mem).tables(), root, va)
            }),
        off_path_kept(old(mem).tables(), final(mem).tables(), root, vaddr),
        tables::paths_kept::<Granule4K>(old(mem).tables(), final(mem).tables(), root),
        edit::windows_kept::<Granule4K>(old(mem).tables(), final(mem).tables(), root, vaddr),
        final(mem).room() == old(mem).room() - edit::dividing::<Granule4K>(
            old(mem).tables(),
            root,
            vaddr,
        ),
{
    let ghost m = mem.tables();
    let v: u64 = page_base(vaddr);
    proof {
        edit::lemma_page_path::<Granule4K>(m, root, vaddr, v);
    }
    let l3: u64 = edit::ensure_table::<Granule4K, M>(mem, root, v);
    let ghost m1 = mem.tables();
    assert(tables::table_on_path::<Granule4K>(m1, root, v, 0) == Some(l3));
    let i: usize = table_index(v, 0);
    let e: u64 = mem.read_entry(l3, i);
    let pa: u64 = e & ADDR_MASK;
    let flags: u64 = AF | SH_INNER | ATTR_TAGGED | TABLE | UXN | PXN;
    mem.write_entry(l3, i, pa | flags);
    proof {
        lemma_masks(e);
        lemma_masks(pa);
        lemma_flags();
        assert(flags & ADDR_MASK == 0);
        lemma_descriptor(pa, flags);
        edit::lemma_page_set::<Granule4K>(m, m1, mem.tables(), root, vaddr, v, pa | flags);
        assert(mapping(m1, root, vaddr) == mapping(m, root, vaddr));
        edit::lemma_page_path::<Granule4K>(m1, root, vaddr, v);
        assert(tables::table_on_path::<Granule4K>(m1, root, vaddr, 0) == Some(l3));
        tables::lemma_walk_from::<Granule4K>(m1, root, 3, vaddr, 0);
        assert(tables::walk::<Granule4K>(m1, root, 3, vaddr) == Some((0int, e)));
        assert(mapping(m, root, vaddr)->0.phys == pa + vaddr % 4096);
    }
}

/// Where the high half has `va`: the kernel's image, and low memory.
pub open spec fn high_layout(km: KernelMap, va: u64) -> Option<Mapping> {
    let i = tables::index(va, 3);
    if i == tables::index(km.kernel_vbase, 3) {
        space::kernel_mapping::<Granule4K>(km, va)
    } else if i == tables::index(km.hhdm_offset, 3) {
        space::low_mapping::<Granule4K>(km.identity_bytes, va)
    } else {
        None
    }
}

/// Where the low half has `va`: low memory.
pub open spec fn low_layout(km: KernelMap, va: u64) -> Option<Mapping> {
    if tables::index(va, 3) == 0 {
        space::low_mapping::<Granule4K>(km.identity_bytes, va)
    } else {
        None
    }
}

/// The tables that the kernel's own address space takes.
pub open spec fn layout_tables(km: KernelMap) -> int {
    5 + 2 * space::low_tables(km.identity_bytes)
}

/// Build the kernel's own address space: the high half, and the low half.
#[must_use]
#[verifier::rlimit(30)]
pub fn build_address_space<M: TableMemory>(mem: &mut M, km: &KernelMap) -> (s: AddressSpace)
    requires
        space::image_fits(*km),
        km.identity_bytes <= space::LOW_LIMIT,
        old(mem).room() >= layout_tables(*km),
    ensures
        !old(mem).tables().contains_key(s.primary),
        !old(mem).tables().contains_key(s.secondary),
        s.primary != s.secondary,
        well_formed(final(mem).tables(), s.primary),
        forall|va: u64| #[trigger]
            mapping(final(mem).tables(), s.primary, va) == high_layout(*km, va),
        well_formed(final(mem).tables(), s.secondary),
        forall|va: u64| #[trigger]
            mapping(final(mem).tables(), s.secondary, va) == low_layout(*km, va),
        tables::kept(old(mem).tables(), final(mem).tables()),
        final(mem).room() == old(mem).room() - layout_tables(*km),
{
    let ghost m = mem.tables();
    let ttbr0: u64 = mem.alloc_table();
    let ghost m1 = mem.tables();
    proof {
        tables::lemma_empty_root::<Granule4K>(m1, ttbr0);
    }
    map_low::<Granule4K, M>(mem, ttbr0, 0, km.identity_bytes);
    let ghost m2 = mem.tables();
    let ttbr1: u64 = mem.alloc_table();
    let ghost m3 = mem.tables();
    proof {
        tables::lemma_empty_root::<Granule4K>(m3, ttbr1);
        tables::lemma_add_table::<Granule4K>(
            m2,
            ttbr0,
            ttbr1,
            Seq::new(512, |i: int| 0u64),
        );
    }
    map_low::<Granule4K, M>(mem, ttbr1, table_index(km.hhdm_offset, 3), km.identity_bytes);
    let ghost m4 = mem.tables();
    map_kernel::<Granule4K, M>(mem, ttbr1, km);
    proof {
        let n = mem.tables();
        assert(tables::below::<Granule4K>(m2, ttbr0, 3, 0, 3) == Some(ttbr0));
        assert(!m.contains_key(ttbr1)) by {
            if m.contains_key(ttbr1) {
                assert(m1.contains_key(ttbr1) && ttbr1 != ttbr0);
                assert(m2.contains_key(ttbr1));
            }
        }
        assert forall|t: u64| #[trigger] m2.contains_key(t) implies n.contains_key(t) && n[t]
            == m2[t] by {
            assert(m3.contains_key(t) && t != ttbr1);
            assert(m4.contains_key(t));
        }
        assert forall|t: u64| #[trigger] m.contains_key(t) implies n.contains_key(t) && n[t]
            == m[t] by {
            assert(m1.contains_key(t) && t != ttbr0);
            assert(m2.contains_key(t));
        }
        tables::law_untouched_tables_keep_the_space::<Granule4K>(m2, n, ttbr0);
        assert forall|va: u64| #[trigger] mapping(n, ttbr0, va) == low_layout(*km, va) by {
            assert(mapping(m1, ttbr0, va) is None);
            assert(tables::walk::<Granule4K>(n, ttbr0, 3, va) == tables::walk::<Granule4K>(
                m2,
                ttbr0,
                3,
                va,
            ));
            assert(mapping(m2, ttbr0, va) == low_layout(*km, va));
        }
        assert forall|va: u64| #[trigger] mapping(n, ttbr1, va) == high_layout(*km, va) by {
            assert(mapping(m3, ttbr1, va) is None);
        }
    }
    AddressSpace { primary: ttbr1, secondary: ttbr0 }
}

/// **Law:** nothing in the kernel's own address space is both writable and, for EL1, executable.
pub proof fn law_kernel_space_keeps_wx_apart(km: KernelMap, va: u64)
    requires
        space::image_fits(km),
    ensures
        high_layout(km, va) matches Some(to) ==> !(to.attrs & AP_RO == 0 && to.attrs & PXN == 0),
        low_layout(km, va) matches Some(to) ==> !(to.attrs & AP_RO == 0 && to.attrs & PXN == 0),
{
    lemma_low_attrs(va);
    if space::kernel_mapping::<Granule4K>(km, va) is Some {
        lemma_image_attrs(km, va);
    }
}

/// **Law:** the code of the kernel is executable and not writable, its data is writable and not
/// executable, and the rest of its image is neither.
#[verifier::rlimit(40)]
pub proof fn law_sections_are_protected(km: KernelMap, va: u64)
    requires
        space::image_fits(km),
        km.kernel_vbase <= va < km.kernel_vend,
    ensures
        ({
            let prot = space::section_prot_spec(km, va - va % 4096);
            &&& high_layout(km, va) is Some
            &&& high_layout(km, va)->0.phys == km.kernel_phys + (va - km.kernel_vbase)
            &&& (high_layout(km, va)->0.attrs & AP_RO == 0) == prot.writes()
            &&& (high_layout(km, va)->0.attrs & PXN == 0) == prot.executes()
        }),
{
    space::lemma_window(km, va);
    lemma_image_attrs(km, va);
    let off = va as int % 0x20_0000;
    assert(va as int % 4096 == off % 4096);
}

/// **Law:** a page of a process is open to EL0 and never executed by EL1, and is not both writable
/// and executable; a page of the kernel's is closed to EL0.
pub proof fn law_user_pages_are_apart(prot: Prot)
    ensures
        (user_page_flags(prot) & !TABLE) & AP_EL0 != 0,
        (user_page_flags(prot) & !TABLE) & PXN != 0,
        ((user_page_flags(prot) & !TABLE) & AP_RO == 0) == prot.writes(),
        ((user_page_flags(prot) & !TABLE) & UXN == 0) == prot.executes(),
        !(prot.writes() && prot.executes()),
        (page_flags(prot) & !TABLE) & AP_EL0 == 0,
{
    lemma_page_flags(prot);
}

/// **Law:** EL1 writes only to pages under `Rw` and executes only those under `Rx`; EL0 writes and
/// executes the same ones of its own, and has no access to the kernel's. Pages are ordinary memory,
/// and a page with tags is for EL1 to read and write.
pub proof fn law_pages_allow_what_is_asked(prot: Prot, domain: u64)
    ensures
        Granule4K::attrs_for(prot, Some(domain)) == user_page_flags(prot) & !TABLE,
        Granule4K::attrs_for(prot, Some(domain)) & 0x40 != 0,
        (Granule4K::attrs_for(prot, Some(domain)) & 0x80 == 0) == (prot == Prot::Rw),
        (Granule4K::attrs_for(prot, Some(domain)) & 0x0040_0000_0000_0000 == 0) == (prot
            == Prot::Rx),
        Granule4K::attrs_for(prot, Some(domain)) & 0x0020_0000_0000_0000 != 0,
        Granule4K::attrs_for(prot, Some(domain)) & 0x400 != 0,
        Granule4K::attrs_for(prot, Some(domain)) & 0x1c == 0,
        Granule4K::attrs_for(prot, None) == page_flags(prot) & !TABLE,
        Granule4K::attrs_for(prot, None) & 0x40 == 0,
        (Granule4K::attrs_for(prot, None) & 0x80 == 0) == (prot == Prot::Rw),
        (Granule4K::attrs_for(prot, None) & 0x0020_0000_0000_0000 == 0) == (prot == Prot::Rx),
        Granule4K::attrs_for(prot, None) & 0x0040_0000_0000_0000 != 0,
        Granule4K::attrs_for(prot, None) & 0x400 != 0,
        Granule4K::attrs_for(prot, None) & 0x1c == 0,
        tagged_flags() & !TABLE & 0x1c == 8,
        tagged_flags() & !TABLE & 0x80 == 0,
        tagged_flags() & !TABLE & 0x40 == 0,
        tagged_flags() & !TABLE & 0x0020_0000_0000_0000 != 0,
        tagged_flags() & !TABLE & 0x0040_0000_0000_0000 != 0,
        tagged_flags() & !TABLE & 0x400 != 0,
{
    lemma_flags();
    lemma_page_flags(prot);
}

/// **Law:** an address is looked up through four tables, nine bits of it at a time from bit 39 down.
/// A descriptor that is not in use ends the search with nothing; one of a block, in the second and
/// third, with a block of 1 GiB and 2 MiB; and one in the last with a page of 4 KiB. The rest of the
/// address is the place in it.
pub proof fn law_addresses_are_looked_up_in_four_tables(
    m: Map<u64, Seq<u64>>,
    root: u64,
    va: u64,
)
    ensures
        ({
            let e3 = m[root][va as int / 0x80_0000_0000 % 512];
            let e2 = m[e3 & 0x0000_ffff_ffff_f000][va as int / 0x4000_0000 % 512];
            let e1 = m[e2 & 0x0000_ffff_ffff_f000][va as int / 0x20_0000 % 512];
            let e0 = m[e1 & 0x0000_ffff_ffff_f000][va as int / 0x1000 % 512];
            let found = mapping(m, root, va);
            let second = e3 & 1 != 0 && e3 & 3 != 1;
            let third = second && e2 & 1 != 0 && e2 & 3 != 1;
            let fourth = third && e1 & 1 != 0 && e1 & 3 != 1;
            &&& e3 & 1 == 0 ==> found is None
            &&& second && e2 & 1 == 0 ==> found is None
            &&& second && e2 & 1 != 0 && e2 & 3 == 1 ==> found is Some && is_page(
                found->0,
                e2,
                0x4000_0000,
                va,
            )
            &&& third && e1 & 1 == 0 ==> found is None
            &&& third && e1 & 1 != 0 && e1 & 3 == 1 ==> found is Some && is_page(
                found->0,
                e1,
                0x20_0000,
                va,
            )
            &&& fourth && e0 & 1 == 0 ==> found is None
            &&& fourth && e0 & 1 != 0 ==> found is Some && is_page(found->0, e0, 0x1000, va)
        }),
{
    reveal_with_fuel(tables::walk, 5);
}

/// `to` is the `size` bytes that descriptor `e` names, at the place of `va` in them, with the rest of
/// the descriptor as its attributes.
pub open spec fn is_page(to: Mapping, e: u64, size: int, va: u64) -> bool {
    let a = (e & 0x0000_ffff_ffff_f000) as int;
    &&& to.phys == a - a % size + va as int % size
    &&& to.attrs == e & !0x0000_ffff_ffff_f000u64 & !3u64
}

/// **Law:** EL0 has access to exactly those pages that are mapped with it.
pub proof fn law_only_user_pages_are_open(m: Map<u64, Seq<u64>>, root: u64, va: u64)
    ensures
        Granule4K::user_access(m, root, va) == (mapping(m, root, va) is Some && mapping(
            m,
            root,
            va,
        )->0.attrs & 0x40 != 0),
{
}

/// **Law:** a page of the kernel's image is executable exactly if it is one of the code, and
/// writable exactly if it is one of the data and not of the code.
pub proof fn law_code_runs_and_data_is_written(km: KernelMap, va: u64)
    requires
        space::image_fits(km),
        km.kernel_vbase <= va < km.kernel_vend,
    ensures
        ({
            let page = va - va % 4096;
            let code = km.text.0 <= page < km.text.1;
            let data = km.data.0 <= page < km.data.1;
            &&& high_layout(km, va) is Some
            &&& high_layout(km, va)->0.phys == km.kernel_phys + (va - km.kernel_vbase)
            &&& (high_layout(km, va)->0.attrs & 0x80 == 0) == (data && !code)
            &&& (high_layout(km, va)->0.attrs & 0x0020_0000_0000_0000 == 0) == code
        }),
{
    law_sections_are_protected(km, va);
}

/// **Law:** low memory is mapped at its own address in the low half and from `hhdm_offset` up in
/// the high half, to be written and not executed, and not for EL0; what is below 1 GiB is devices.
pub proof fn law_low_memory_is_mapped_twice(km: KernelMap, pa: u64, direct: u64)
    requires
        pa < km.identity_bytes,
        km.identity_bytes <= 0x80_0000_0000,
        km.hhdm_offset % 0x80_0000_0000 == 0,
        direct == km.hhdm_offset + pa,
        tables::index(km.kernel_vbase, 3) != tables::index(km.hhdm_offset, 3),
    ensures
        low_layout(km, pa) matches Some(to) && to.phys == pa && to.attrs & 0x80 == 0 && to.attrs
            & 0x0020_0000_0000_0000 != 0 && to.attrs & 0x0040_0000_0000_0000 != 0 && to.attrs & 0x40
            == 0 && to.attrs & 0x1c == (if pa < 0x4000_0000 {
            4u64
        } else {
            0u64
        }),
        high_layout(km, direct) matches Some(to) && to.phys == pa && to.attrs & 0x80 == 0
            && to.attrs & 0x0020_0000_0000_0000 != 0 && to.attrs & 0x0040_0000_0000_0000 != 0
            && to.attrs & 0x40 == 0 && to.attrs & 0x1c == (if pa < 0x4000_0000 {
            4u64
        } else {
            0u64
        }),
{
    lemma_low_attrs(pa);
    lemma_low_attrs(direct);
    assert(tables::index(pa, 3) == 0);
    assert(direct as int / 0x80_0000_0000 == km.hhdm_offset as int / 0x80_0000_0000);
}

/// The attributes of a page of the image.
#[verifier::rlimit(40)]
proof fn lemma_image_attrs(km: KernelMap, va: u64)
    requires
        space::image_fits(km),
        space::kernel_mapping::<Granule4K>(km, va) is Some,
    ensures
        ({
            let off = va as int % 0x20_0000;
            let prot = space::section_prot_spec(km, km.kernel_vbase + (off - off % 4096));
            let attrs = space::kernel_mapping::<Granule4K>(km, va)->0.attrs;
            &&& (attrs & AP_RO == 0) == prot.writes()
            &&& (attrs & PXN == 0) == prot.executes()
        }),
{
    let off = va as int % 0x20_0000;
    let page = off - off % 4096;
    let prot = space::section_prot_spec(km, km.kernel_vbase + page);
    let pa = (km.kernel_phys + page) as u64;
    assert(pa % 4096 == 0);
    lemma_flags();
    assert(page_flags(prot) & ADDR_MASK == 0);
    lemma_descriptor(pa, page_flags(prot));
    lemma_page_flags(prot);
}

/// The attributes of low memory.
proof fn lemma_low_attrs(va: u64)
    ensures
        ({
            let pa = space::low_phys(va);
            let attrs = Granule4K::attrs(Granule4K::block((pa - pa % 0x20_0000) as u64));
            &&& attrs & AP_RO == 0
            &&& attrs & PXN != 0
            &&& attrs & UXN != 0
            &&& attrs & AP_EL0 == 0
            &&& attrs & 0x1c == (if pa < 0x4000_0000 {
                4u64
            } else {
                0u64
            })
        }),
{
    let pa = space::low_phys(va);
    let base = (pa - pa % 0x20_0000) as u64;
    assert(base as int == pa / 0x20_0000 * 0x20_0000);
    assert(base % 4096 == 0);
    lemma_flags();
    assert(block_flags(base) & ADDR_MASK == 0);
    lemma_descriptor(base, block_flags(base));
}

/// The lines of the data cache and of the instruction cache, in bytes, as the cache type register
/// says.
pub fn cache_line_sizes(ctr: u64) -> (r: (u64, u64))
    ensures
        r.0 == 4u64 << ((ctr >> 16) & 0xf),
        r.1 == 4u64 << (ctr & 0xf),
        4 <= r.0 <= 0x2_0000,
        4 <= r.1 <= 0x2_0000,
{
    let d: u64 = (ctr >> 16) & 0xf;
    let i: u64 = ctr & 0xf;
    assert(d <= 15 && i <= 15 && 4 <= 4u64 << d <= 0x2_0000 && 4 <= 4u64 << i <= 0x2_0000)
        by (bit_vector)
        requires
            d == (ctr >> 16) & 0xf,
            i == ctr & 0xf,
    ;
    (4u64 << d, 4u64 << i)
}

/// The addresses of the cache lines, of `line` bytes, that the `len` bytes at `vaddr` are in, in
/// order.
pub fn cache_lines(vaddr: u64, len: usize, line: u64) -> (r: Vec<u64>)
    requires
        line > 0,
        vaddr + len + line <= u64::MAX,
    ensures
        forall|i: int|
            0 <= i < r@.len() ==> #[trigger] r@[i] == vaddr - vaddr as int % line as int + i * line,
        len == 0 ==> r@.len() == 0,
        len > 0 ==> r@.len() > 0 && r@.last() < vaddr + len <= r@.last() + line,
{
    let mut r: Vec<u64> = Vec::new();
    if len == 0 {
        return r;
    }
    let end: u64 = vaddr + len as u64;
    assert(vaddr % line <= vaddr) by (nonlinear_arith)
        requires
            line > 0,
    ;
    let first: u64 = vaddr - vaddr % line;
    let mut a: u64 = first;
    while a < end
        invariant
            line > 0,
            first <= vaddr < end,
            end + line <= u64::MAX,
            a == first + r@.len() * line,
            forall|i: int| 0 <= i < r@.len() ==> #[trigger] r@[i] == first + i * line,
            r@.len() > 0 ==> r@.last() < end && a == r@.last() + line,
            r@.len() == 0 ==> a == first,
        decreases end + line - a,
    {
        let ghost n = r@.len();
        r.push(a);
        assert((n + 1) * line == n * line + line) by (nonlinear_arith);
        a = a + line;
    }
    r
}

} // verus!
