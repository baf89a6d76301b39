//! x86-64 page tables: the kernel's own address space, spaces of processes cloned from it, and
//! edits of single pages.

use vstd::prelude::*;

use crate::kernel::arch::edit;
use crate::kernel::arch::edit::UserFormat;
use crate::kernel::arch::space;
use crate::kernel::arch::space::{map_kernel, map_low};
use crate::kernel::arch::tables;
use crate::kernel::arch::x86_64::pku;
use crate::kernel::arch::tables::{
    clone_table, page_base, table_index, Format, Mapping, Step, TableMemory, PAGE,
};
use crate::kernel::arch::{AddressSpace, KernelMap, Prot};

verus! {

/// The entry is in use.
pub const PRESENT: u64 = 1;

/// Writes are allowed.
pub const WRITABLE: u64 = 2;

/// Ring 3 has access; it counts only if it is set at every level.
pub const USER: u64 = 4;

/// The entry is a page, of 2 MiB or 1 GiB by its level.
pub const HUGE: u64 = 0x80;

/// Nothing is executed.
pub const NX: u64 = 0x8000_0000_0000_0000;

/// The address field of an entry.
pub const ADDR_MASK: u64 = 0x000f_ffff_ffff_f000;

/// x86-64 page tables under a PML4.
pub struct Pml4;

impl Format for Pml4 {
    open spec fn step(level: int, e: u64) -> Step {
        if e & PRESENT == 0 {
            Step::Absent
        } else if level <= 0 || (level < 3 && e & HUGE != 0) {
            Step::Leaf
        } else {
            Step::Table(e & ADDR_MASK)
        }
    }

    open spec fn address(e: u64) -> u64 {
        e & ADDR_MASK
    }

    open spec fn attrs(e: u64) -> u64 {
        e & !ADDR_MASK & !HUGE
    }

    open spec fn page_span(level: int) -> int {
        tables::entry_span(level)
    }

    open spec fn link(t: u64) -> u64 {
        t | PRESENT | WRITABLE
    }

    open spec fn split(e: u64, j: int) -> u64 {
        ((e & ADDR_MASK & !0x1f_ffff) + j * 4096) as u64 | (e & !ADDR_MASK & !HUGE)
    }

    open spec fn block(pa: u64) -> u64 {
        pa | PRESENT | WRITABLE | HUGE | NX
    }

    open spec fn page(pa: u64, prot: Prot) -> u64 {
        pa | prot_bits(prot)
    }

    fn address_of(e: u64) -> (a: u64) {
        e & ADDR_MASK
    }

    fn link_entry(t: u64) -> (e: u64) {
        t | PRESENT | WRITABLE
    }

    fn split_entry(e: u64, j: usize) -> (p: u64) {
        proof {
            lemma_masks(e);
            lemma_masks(e & ADDR_MASK);
        }
        let base: u64 = e & ADDR_MASK & !0x1f_ffff;
        let flags: u64 = e & !ADDR_MASK & !HUGE;
        (base + j as u64 * PAGE) | flags
    }

    fn block_entry(pa: u64) -> (e: u64) {
        pa | PRESENT | WRITABLE | HUGE | NX
    }

    fn page_entry(pa: u64, prot: Prot) -> (e: u64) {
        pa | leaf_bits(prot)
    }

    fn step_of(level: u32, e: u64) -> (s: Step) {
        if e & PRESENT == 0 {
            Step::Absent
        } else if level == 0 || (level < 3 && e & HUGE != 0) {
            Step::Leaf
        } else {
            Step::Table(e & ADDR_MASK)
        }
    }

    fn is_block(e: u64) -> (r: bool) {
        e & HUGE != 0
    }

    proof fn steps(level: int, e: u64) {
        lemma_flags();
    }

    proof fn links(level: int, t: u64) {
        lemma_flags();
        lemma_link_bits(t);
        lemma_entry(t, PRESENT | WRITABLE);
    }

    proof fn pages(pa: u64, prot: Prot) {
        lemma_flags();
        lemma_prot_bits(prot);
        lemma_entry(pa, prot_bits(prot));
        lemma_link_bits(pa);
        lemma_entry(pa, PRESENT | WRITABLE | HUGE | NX);
    }

    proof fn splits(e: u64, va: u64) {
        let j = tables::index(va, 0);
        let base = e & ADDR_MASK & !0x1f_ffff;
        let flags = e & !ADDR_MASK & !HUGE;
        lemma_masks(e);
        lemma_masks(e & ADDR_MASK);
        lemma_attrs(e);
        let pa = (base + j * 4096) as u64;
        lemma_entry(pa, flags);
        assert(Self::split(e, j) == pa | flags);
        assert(va as int % 0x20_0000 == j * 4096 + va as int % 4096);
    }
}

/// Where `va` is mapped under `root`.
#[verifier::inline]
pub open spec fn mapping(m: Map<u64, Seq<u64>>, root: u64, va: u64) -> Option<Mapping> {
    tables::mapping::<Pml4>(m, root, va)
}

/// A tree of tables that is all there.
#[verifier::inline]
pub open spec fn well_formed(m: Map<u64, Seq<u64>>, root: u64) -> bool {
    tables::well_formed::<Pml4>(m, root)
}

/// The table at `level` on the way to `va`.
#[verifier::inline]
pub open spec fn table_on_path(m: Map<u64, Seq<u64>>, root: u64, va: u64, level: int) -> Option<
    u64,
> {
    tables::table_on_path::<Pml4>(m, root, va, level)
}

/// Page `va` can be given an entry of its own: something is mapped around it, not as a part of a
/// page of 1 GiB, and there is room for one more table if it takes one.
#[verifier::inline]
pub open spec fn editable(m: Map<u64, Seq<u64>>, root: u64, va: u64, room: nat) -> bool {
    edit::divisible::<Pml4>(m, root, va) && edit::room_to_divide::<Pml4>(m, root, va, room)
}

/// No table is lost, and those that are not on the way to `v` keep their entries.
#[verifier::inline]
pub open spec fn off_path_kept(
    m: Map<u64, Seq<u64>>,
    n: Map<u64, Seq<u64>>,
    root: u64,
    v: u64,
) -> bool {
    tables::off_path_kept::<Pml4>(m, n, root, v)
}

/// What masks of page sizes do.
proof fn lemma_masks(x: u64)
    by (bit_vector)
    ensures
        x & ADDR_MASK <= ADDR_MASK,
        (x & ADDR_MASK) % 4096 == 0,
        x & ADDR_MASK & ADDR_MASK == x & ADDR_MASK,
        x & !0xfffu64 == x - x % 0x1000,
        x & !0x1f_ffffu64 == x - x % 0x20_0000,
        x & !0x3fff_ffffu64 == x - x % 0x4000_0000,
        x & 0xfff == x % 0x1000,
        x & 0x1f_ffff == x % 0x20_0000,
        x & 0x3fff_ffff == x % 0x4000_0000,
{
}

/// Attributes are read off an entry as off its page.
proof fn lemma_attrs(e: u64)
    by (bit_vector)
    ensures
        (e & !ADDR_MASK & !HUGE) & WRITABLE == e & WRITABLE,
        (e & !ADDR_MASK & !HUGE) & NX == e & NX,
        (e & !ADDR_MASK & !HUGE) & USER == e & USER,
        (e & !ADDR_MASK & !HUGE) & PRESENT == e & PRESENT,
        (e & !ADDR_MASK & !HUGE) & HUGE == 0,
        (e & !ADDR_MASK & !HUGE) & ADDR_MASK == 0,
        (e & !ADDR_MASK & !HUGE) & !HUGE == e & !ADDR_MASK & !HUGE,
        (e & !ADDR_MASK & !HUGE) & !ADDR_MASK & !HUGE == e & !ADDR_MASK & !HUGE,
{
}

/// The PML4 in the value of CR3.
pub fn current_pml4(cr3: u64) -> (root: u64)
    ensures
        root == cr3 & ADDR_MASK,
{
    cr3 & ADDR_MASK
}

/// The page that `vaddr` is in: its entry, and the mask of the offset in it.
fn walk<M: TableMemory>(mem: &M, root: u64, vaddr: u64) -> (r: Option<(u64, u64)>)
    requires
        tables::sound::<Pml4>(mem.tables(), root),
    ensures
        match (r, tables::walk::<Pml4>(mem.tables(), root, 3, vaddr)) {
            (None, None) => true,
            (Some((e, mask)), Some((level, f))) => {
                &&& e == f
                &&& 0 <= level <= 2
                &&& mask == tables::entry_span(level) - 1
            },
            _ => false,
        },
{
    let ghost m = mem.tables();
    proof {
        reveal_with_fuel(tables::walk, 4);
        reveal_with_fuel(tables::below, 4);
        assert(table_on_path(m, root, vaddr, 3) == Some(root));
    }
    let e4: u64 = mem.read_entry(root, table_index(vaddr, 3));
    if e4 & PRESENT == 0 {
        return None;
    }
    assert(table_on_path(m, root, vaddr, 2) == Some(e4 & ADDR_MASK));
    let e3: u64 = mem.read_entry(e4 & ADDR_MASK, table_index(vaddr, 2));
    if e3 & PRESENT == 0 {
        return None;
    }
    if e3 & HUGE != 0 {
        return Some((e3, 0x3fff_ffff));
    }
    assert(table_on_path(m, root, vaddr, 1) == Some(e3 & ADDR_MASK));
    let e2: u64 = mem.read_entry(e3 & ADDR_MASK, table_index(vaddr, 1));
    if e2 & PRESENT == 0 {
        return None;
    }
    if e2 & HUGE != 0 {
        return Some((e2, 0x1f_ffff));
    }
    assert(table_on_path(m, root, vaddr, 0) == Some(e2 & ADDR_MASK));
    let e1: u64 = mem.read_entry(e2 & ADDR_MASK, table_index(vaddr, 0));
    if e1 & PRESENT == 0 {
        return None;
    }
    Some((e1, 0xfff))
}

/// The physical address of `vaddr`; `None` where nothing is mapped.
#[must_use]
pub fn translate<M: TableMemory>(mem: &M, root: u64, vaddr: u64) -> (r: Option<u64>)
    requires
        tables::sound::<Pml4>(mem.tables(), root),
    ensures
        match (r, mapping(mem.tables(), root, vaddr)) {
            (None, None) => true,
            (Some(pa), Some(to)) => pa == to.phys,
            _ => false,
        },
{
    match walk(mem, root, vaddr) {
        None => None,
        Some((leaf, mask)) => {
            proof {
                lemma_masks(leaf);
                lemma_masks(leaf & ADDR_MASK);
                lemma_masks(vaddr);
            }
            Some((leaf & ADDR_MASK & !mask) + (vaddr & mask))
        },
    }
}

/// Whether the page of `vaddr` is writable, and executable; `None` where nothing is mapped.
#[must_use]
pub fn page_prot<M: TableMemory>(mem: &M, root: u64, vaddr: u64) -> (r: Option<(bool, bool)>)
    requires
        tables::sound::<Pml4>(mem.tables(), root),
    ensures
        r == (match mapping(mem.tables(), root, vaddr) {
            None => None,
            Some(to) => Some((to.attrs & WRITABLE != 0, to.attrs & NX == 0)),
        }),
{
    match walk(mem, root, vaddr) {
        None => None,
        Some((leaf, _mask)) => {
            proof {
                lemma_attrs(leaf);
            }
            Some((leaf & WRITABLE != 0, leaf & NX == 0))
        },
    }
}

/// The bits of a page's entry for a protection: whatever is not executable has `NX`.
pub open spec fn prot_bits(prot: Prot) -> u64 {
    match prot {
        Prot::Rx => PRESENT,
        Prot::Ro => PRESENT | NX,
        Prot::Rw => PRESENT | WRITABLE | NX,
    }
}

/// The flags that entries are made with.
pub(crate) proof fn lemma_flags()
    by (bit_vector)
    ensures
        PRESENT & ADDR_MASK == 0,
        WRITABLE & ADDR_MASK == 0,
        USER & ADDR_MASK == 0,
        HUGE & ADDR_MASK == 0,
        NX & ADDR_MASK == 0,
        0u64 & PRESENT == 0,
        PRESENT & PRESENT != 0,
        PRESENT & HUGE == 0,
        PRESENT & !HUGE == PRESENT,
        (PRESENT | NX) & ADDR_MASK == 0,
        (PRESENT | NX) & PRESENT != 0,
        (PRESENT | NX) & HUGE == 0,
        (PRESENT | NX) & !HUGE == PRESENT | NX,
        (PRESENT | WRITABLE | NX) & ADDR_MASK == 0,
        (PRESENT | WRITABLE | NX) & PRESENT != 0,
        (PRESENT | WRITABLE | NX) & HUGE == 0,
        (PRESENT | WRITABLE | NX) & !HUGE == PRESENT | WRITABLE | NX,
        (PRESENT | WRITABLE) & ADDR_MASK == 0,
        (PRESENT | WRITABLE) & PRESENT != 0,
        (PRESENT | WRITABLE) & HUGE == 0,
        (PRESENT | WRITABLE | USER) & ADDR_MASK == 0,
        (PRESENT | WRITABLE | USER) & PRESENT != 0,
        (PRESENT | WRITABLE | USER) & HUGE == 0,
        (PRESENT | WRITABLE | USER) & USER != 0,
        (PRESENT | WRITABLE | HUGE | NX) & ADDR_MASK == 0,
        (PRESENT | WRITABLE | HUGE | NX) & PRESENT != 0,
        (PRESENT | WRITABLE | HUGE | NX) & HUGE != 0,
        (PRESENT | WRITABLE | HUGE | NX) & !HUGE == PRESENT | WRITABLE | NX,
        PRESENT & WRITABLE == 0,
        PRESENT & NX == 0,
        (PRESENT | NX) & WRITABLE == 0,
        (PRESENT | NX) & NX != 0,
        (PRESENT | WRITABLE | NX) & WRITABLE != 0,
        (PRESENT | WRITABLE | NX) & NX != 0,
        (PRESENT | WRITABLE | NX) & USER == 0,
{
}

proof fn lemma_link_bits(t: u64)
    by (bit_vector)
    ensures
        t | PRESENT | WRITABLE == t | (PRESENT | WRITABLE),
        t | PRESENT | WRITABLE | USER == t | (PRESENT | WRITABLE | USER),
        t | PRESENT | WRITABLE | HUGE | NX == t | (PRESENT | WRITABLE | HUGE | NX),
        (t | PRESENT | WRITABLE) & WRITABLE != 0,
        (t | PRESENT | WRITABLE) & USER == t & USER,
        (t | PRESENT | WRITABLE) & NX == t & NX,
        t % 4096 == 0 ==> t & USER == 0,
        t < 0x10_0000_0000_0000 ==> t & NX == 0,
{
}

/// Addresses fit the address field.
proof fn lemma_address(x: u64)
    by (bit_vector)
    requires
        x % 4096 == 0,
        x < 0x10_0000_0000_0000,
    ensures
        x & ADDR_MASK == x,
{
}

/// What an entry made of an address and flags says.
proof fn lemma_entry(pa: u64, flags: u64)
    requires
        pa % 4096 == 0,
        pa < 0x10_0000_0000_0000,
        flags & ADDR_MASK == 0,
    ensures
        (pa | flags) & ADDR_MASK == pa,
        (pa | flags) & !ADDR_MASK == flags,
        (pa | flags) & PRESENT == flags & PRESENT,
        (pa | flags) & HUGE == flags & HUGE,
        (pa | flags) & USER == flags & USER,
        Pml4::attrs(pa | flags) == flags & !HUGE,
{
    lemma_flags();
    lemma_address(pa);
    tables::lemma_fields(pa, flags, ADDR_MASK, PRESENT);
    tables::lemma_fields(pa, flags, ADDR_MASK, HUGE);
    tables::lemma_fields(pa, flags, ADDR_MASK, USER);
}

/// The bits of a page's entry for a protection.
fn leaf_bits(prot: Prot) -> (bits: u64)
    ensures
        bits == prot_bits(prot),
{
    match prot {
        Prot::Rx => PRESENT,
        Prot::Ro => PRESENT | NX,
        Prot::Rw => PRESENT | WRITABLE | NX,
    }
}

/// Take page `vaddr` out of the address space: an access to it faults from now on. Every other page
/// is as before.
pub fn install_guard_page<M: TableMemory>(mem: &mut M, root: u64, vaddr: u64)
    requires
        well_formed(old(mem).tables(), root),
        editable(old(mem).tables(), root, vaddr, old(mem).room()),
    ensures
        well_formed(final(mem).tables(), root),
        forall|va: u64| #[trigger]
            mapping(final(mem).tables(), root, va) == (if tables::same_page(va, vaddr) {
                None
            } else {
                mapping(old(mem).tables(), root, va)
            }),
        off_path_kept(old(mem).tables(), final(mem).tables(), root, vaddr),
        tables::paths_kept::<Pml4>(old(mem).tables(), final(mem).tables(), root),
        edit::windows_kept::<Pml4>(old(mem).tables(), final(mem).tables(), root, vaddr),
        final(mem).room() == old(mem).room() - edit::dividing::<Pml4>(
            old(mem).tables(),
            root,
            vaddr,
        ),
{
    proof {
        lemma_flags();
    }
    edit::set_page::<Pml4, M>(mem, root, vaddr, 0);
}

/// Map page `vaddr` to the frame of `phys` with protection `prot`. Every other page is as before.
pub fn map_page<M: TableMemory>(mem: &mut M, root: u64, vaddr: u64, phys: u64, prot: Prot)
    requires
        well_formed(old(mem).tables(), root),
        editable(old(mem).tables(), root, vaddr, old(mem).room()),
    ensures
        well_formed(final(mem).tables(), root),
        forall|va: u64| #[trigger]
            mapping(final(mem).tables(), root, va) == (if tables::same_page(va, vaddr) {
                Some(Mapping { phys: (phys & ADDR_MASK) + va % 4096, attrs: prot_bits(prot) })
            } else {
                mapping(old(mem).tables(), root, va)
            }),
        off_path_kept(old(mem).tables(), final(mem).tables(), root, vaddr),
        tables::paths_kept::<Pml4>(old(mem).tables(), final(mem).tables(), root),
        edit::windows_kept::<Pml4>(old(mem).tables(), final(mem).tables(), root, vaddr),
        final(mem).room() == old(mem).room() - edit::dividing::<Pml4>(
            old(mem).tables(),
            root,
            vaddr,
        ),
{
    let e: u64 = (phys & ADDR_MASK) | leaf_bits(prot);
    proof {
        lemma_masks(phys);
        lemma_prot_bits(prot);
        lemma_entry(phys & ADDR_MASK, prot_bits(prot));
    }
    edit::set_page::<Pml4, M>(mem, root, vaddr, e);
}

proof fn lemma_prot_bits(prot: Prot)
    ensures
        prot_bits(prot) & ADDR_MASK == 0,
        prot_bits(prot) & PRESENT != 0,
        prot_bits(prot) & HUGE == 0,
        prot_bits(prot) & !HUGE == prot_bits(prot),
        (prot_bits(prot) & WRITABLE != 0) == prot.writes(),
        (prot_bits(prot) & NX == 0) == prot.executes(),
{
    lemma_flags();
}

/// The tables once the entry that a walk for `v` takes at `level` has the user bit.
pub open spec fn opened(m: Map<u64, Seq<u64>>, root: u64, v: u64, level: int) -> Map<u64, Seq<u64>> {
    let t = table_on_path(m, root, v, level)->0;
    tables::written(m, t, tables::index(v, level), m[t][tables::index(v, level)] | USER)
}

/// Every entry that a walk for `va` takes has the user bit: ring 3 has access.
pub open spec fn user_accessible(m: Map<u64, Seq<u64>>, root: u64, va: u64) -> bool {
    &&& mapping(m, root, va) is Some
    &&& forall|k: int|
        0 <= k <= 3 ==> match #[trigger] table_on_path(m, root, va, k) {
            Some(t) => m[t][tables::index(va, k)] & USER != 0,
            None => true,
        }
}

/// Ring 3 has access to every page of `n` that it had access to in `m`.
pub open spec fn user_kept(m: Map<u64, Seq<u64>>, n: Map<u64, Seq<u64>>, root: u64) -> bool {
    forall|va: u64| user_accessible(m, root, va) ==> #[trigger] user_accessible(n, root, va)
}

/// The user bit says nothing of what an entry names.
proof fn lemma_user_bit(e: u64)
    by (bit_vector)
    ensures
        (e | USER) & PRESENT == e & PRESENT,
        (e | USER) & HUGE == e & HUGE,
        (e | USER) & ADDR_MASK == e & ADDR_MASK,
        (e | USER) & USER != 0,
        e & USER != 0 ==> e | USER == e,
{
}

/// The user bit on an entry that names a table changes no mapping.
proof fn lemma_opened(m: Map<u64, Seq<u64>>, root: u64, v: u64, level: int)
    requires
        well_formed(m, root),
        1 <= level <= 3,
        table_on_path(m, root, v, level) is Some,
        Pml4::step(
            level,
            m[table_on_path(m, root, v, level)->0][tables::index(v, level)],
        ) is Table,
    ensures
        ({
            let n = opened(m, root, v, level);
            &&& well_formed(n, root)
            &&& tables::same_walks::<Pml4>(m, n, root)
            &&& off_path_kept(m, n, root, v)
            &&& tables::paths_kept::<Pml4>(m, n, root)
            &&& user_kept(m, n, root)
        }),
{
    let t = table_on_path(m, root, v, level)->0;
    let e = m[t][tables::index(v, level)];
    lemma_user_bit(e);
    tables::lemma_write_same::<Pml4>(m, root, v, level, e | USER);
    let n = opened(m, root, v, level);
    tables::lemma_same_paths::<Pml4>(m, n, root);
    assert forall|va: u64| user_accessible(m, root, va) implies #[trigger] user_accessible(
        n,
        root,
        va,
    ) by {
        assert(mapping(n, root, va) == mapping(m, root, va));
        assert forall|k: int| 0 <= k <= 3 implies match #[trigger] table_on_path(n, root, va, k) {
            Some(x) => n[x][tables::index(va, k)] & USER != 0,
            None => true,
        } by {
            assert(table_on_path(n, root, va, k) == table_on_path(m, root, va, k));
        }
    }
}

/// The pages of 4 KiB that a page of 2 MiB is split into have its user bit.
proof fn lemma_split_user(e: u64, j: int)
    requires
        e & USER != 0,
    ensures
        Pml4::split(e, j) & USER != 0,
{
    let b = ((e & ADDR_MASK & !0x1f_ffff) + j * 4096) as u64;
    assert((b | (e & !ADDR_MASK & !HUGE)) & USER != 0) by (bit_vector)
        requires
            e & USER != 0,
    ;
}

/// A split under an entry with the user bit takes no page from ring 3.
proof fn lemma_split_keeps_users(m: Map<u64, Seq<u64>>, root: u64, v: u64, t: u64, f: u64)
    requires
        well_formed(m, root),
        edit::divisible::<Pml4>(m, root, v),
        Pml4::step(1, edit::window_entry::<Pml4>(m, root, v)) is Leaf,
        !m.contains_key(t),
        Pml4::step(1, f) == Step::Table(t),
        f & USER != 0,
    ensures
        user_kept(m, edit::divided::<Pml4>(m, root, v, t, f), root),
{
    let n = edit::divided::<Pml4>(m, root, v, t, f);
    let pd = table_on_path(m, root, v, 1)->0;
    let e = edit::window_entry::<Pml4>(m, root, v);
    edit::lemma_divided::<Pml4>(m, root, v, t, f);
    assert forall|va: u64| user_accessible(m, root, va) implies #[trigger] user_accessible(
        n,
        root,
        va,
    ) by {
        assert(mapping(n, root, va) == mapping(m, root, va));
        assert forall|k: int| 0 <= k <= 3 implies match #[trigger] table_on_path(n, root, va, k) {
            Some(x) => n[x][tables::index(va, k)] & USER != 0,
            None => true,
        } by {
            if tables::hits(va, v, 1) && k <= 1 {
                tables::lemma_same_path::<Pml4>(m, root, 3, va, v, 1);
                assert(table_on_path(m, root, va, 1) == Some(pd));
                assert(e & USER != 0);
                if k == 0 {
                    tables::lemma_same_path::<Pml4>(n, root, 3, va, v, 0);
                    lemma_split_user(e, tables::index(va, 0));
                }
            } else {
                if k == 0 {
                    tables::lemma_below_step::<Pml4>(m, root, 3, va, 0);
                    tables::lemma_below_step::<Pml4>(n, root, 3, va, 0);
                    assert(table_on_path(n, root, va, 1) == table_on_path(m, root, va, 1));
                }
                assert(table_on_path(n, root, va, k) == table_on_path(m, root, va, k));
            }
        }
    }
}

/// Set the user bit on the entry that a walk for `v` takes in table `t` at `level`.
fn open_entry<M: TableMemory>(mem: &mut M, root: u64, v: u64, level: u32, t: u64, e: u64)
    requires
        well_formed(old(mem).tables(), root),
        1 <= level <= 3,
        table_on_path(old(mem).tables(), root, v, level as int) == Some(t),
        e == old(mem).tables()[t][tables::index(v, level as int)],
    ensures
        final(mem).tables() == opened(old(mem).tables(), root, v, level as int),
        final(mem).room() == old(mem).room(),
{
    let ghost m = mem.tables();
    proof {
        lemma_user_bit(e);
    }
    if e & USER == 0 {
        mem.write_entry(t, table_index(v, level), e | USER);
    } else {
        assert(m[t].update(tables::index(v, level as int), e | USER) =~= m[t]);
        assert(tables::written(m, t, tables::index(v, level as int), e | USER) =~= m);
    }
}

/// The table of 4 KiB pages for page `v`, split off if it must be, with ring 3 let through at every level
/// above it. The pages themselves keep their own user bit.
fn ensure_pt_user<M: TableMemory>(mem: &mut M, root: u64, v: u64) -> (pt: u64)
    requires
        well_formed(old(mem).tables(), root),
        editable(old(mem).tables(), root, v, old(mem).room()),
    ensures
        well_formed(final(mem).tables(), root),
        table_on_path(final(mem).tables(), root, v, 0) == Some(pt),
        old(mem).tables().contains_key(pt) ==> table_on_path(old(mem).tables(), root, v, 0) == Some(
            pt,
        ),
        forall|va: u64| #[trigger]
            mapping(final(mem).tables(), root, va) == mapping(old(mem).tables(), root, va),
        forall|k: int|
            1 <= k <= 3 ==> match #[trigger] table_on_path(final(mem).tables(), root, v, k) {
                Some(t) => final(mem).tables()[t][tables::index(v, k)] & USER != 0,
                None => true,
            },
        user_kept(old(mem).tables(), final(mem).tables(), root),
        off_path_kept(old(mem).tables(), final(mem).tables(), root, v),
        tables::paths_kept::<Pml4>(old(mem).tables(), final(mem).tables(), root),
        edit::windows_kept::<Pml4>(old(mem).tables(), final(mem).tables(), root, v),
        final(mem).room() == old(mem).room() - edit::dividing::<Pml4>(
            old(mem).tables(),
            root,
            v,
        ),
{
    let ghost m = mem.tables();
    proof {
        reveal_with_fuel(tables::below, 4);
        lemma_flags();
        assert(table_on_path(m, root, v, 3) == Some(root));
        assert(table_on_path(m, root, v, 2) is Some);
        assert(table_on_path(m, root, v, 1) is Some);
    }
    let e4: u64 = mem.read_entry(root, table_index(v, 3));
    proof {
        lemma_user_bit(e4);
        lemma_opened(m, root, v, 3);
    }
    open_entry(mem, root, v, 3, root, e4);
    let ghost m1 = mem.tables();
    let pdpt: u64 = e4 & ADDR_MASK;
    assert(table_on_path(m, root, v, 2) == Some(pdpt));
    assert(table_on_path(m1, root, v, 2) == Some(pdpt));
    assert(pdpt != root) by {
        assert(table_on_path(m, root, v, 3) == Some(root));
    }
    let e3: u64 = mem.read_entry(pdpt, table_index(v, 2));
    proof {
        lemma_user_bit(e3);
        lemma_opened(m1, root, v, 2);
    }
    open_entry(mem, root, v, 2, pdpt, e3);
    let ghost m2 = mem.tables();
    let pd: u64 = e3 & ADDR_MASK;
    assert(table_on_path(m, root, v, 1) == Some(pd));
    assert(table_on_path(m1, root, v, 1) == Some(pd));
    assert(table_on_path(m2, root, v, 1) == Some(pd));
    assert(pd != root && pd != pdpt);
    let i: usize = table_index(v, 1);
    let e2: u64 = mem.read_entry(pd, i);
    assert(e2 == edit::window_entry::<Pml4>(m, root, v));
    let pt: u64 = if e2 & HUGE != 0 {
        let t: u64 = edit::split_table::<Pml4, M>(mem, e2);
        mem.write_entry(pd, i, t | PRESENT | WRITABLE | USER);
        proof {
            let flags = PRESENT | WRITABLE | USER;
            lemma_link_bits(t);
            lemma_entry(t, flags);
            edit::lemma_divided::<Pml4>(m2, root, v, t, t | flags);
            lemma_user_bit(t | PRESENT | WRITABLE);
            lemma_split_keeps_users(m2, root, v, t, t | flags);
            assert(mem.tables() == edit::divided::<Pml4>(m2, root, v, t, t | flags));
        }
        t
    } else {
        proof {
            lemma_user_bit(e2);
            lemma_opened(m2, root, v, 1);
            tables::lemma_below_step::<Pml4>(m, root, 3, v, 0);
        }
        open_entry(mem, root, v, 1, pd, e2);
        e2 & ADDR_MASK
    };
    let ghost n = mem.tables();
    proof {
        tables::lemma_paths_kept_twice::<Pml4>(m, m1, m2, root);
        tables::lemma_paths_kept_twice::<Pml4>(m, m2, n, root);
        assert forall|va: u64| #[trigger] mapping(n, root, va) == mapping(m, root, va) by {
            assert(mapping(m1, root, va) == mapping(m, root, va));
            assert(mapping(m2, root, va) == mapping(m1, root, va));
            assert(mapping(n, root, va) == mapping(m2, root, va));
        }
        assert forall|x: u64| #[trigger] m.contains_key(x) implies {
            n.contains_key(x) && (tables::on_path::<Pml4>(m, root, v, x) || n[x] == m[x])
        } by {
            if !tables::on_path::<Pml4>(m, root, v, x) {
                assert(table_on_path(m, root, v, 1) != Some(x));
                assert(table_on_path(m, root, v, 2) != Some(x));
                assert(table_on_path(m, root, v, 3) != Some(x));
            }
        }
        assert forall|k: int| 1 <= k <= 3 implies match #[trigger] table_on_path(n, root, v, k) {
            Some(t) => n[t][tables::index(v, k)] & USER != 0,
            None => true,
        } by {
            assert(table_on_path(n, root, v, 1) == Some(pd));
            assert(table_on_path(n, root, v, 2) == Some(pdpt));
            assert(table_on_path(n, root, v, 3) == Some(root));
        }
    }
    pt
}

/// The bits of a user page's entry.
pub open spec fn user_bits(prot: Prot, domain: u64) -> u64 {
    prot_bits(prot) | USER | ((domain & 0xf) << 59)
}

proof fn lemma_user_bits(bits: u64, domain: u64)
    by (bit_vector)
    requires
        bits == PRESENT || bits == PRESENT | NX || bits == PRESENT | WRITABLE | NX,
    ensures
        (bits | USER | ((domain & 0xf) << 59)) & ADDR_MASK == 0,
        (bits | USER | ((domain & 0xf) << 59)) & PRESENT != 0,
        (bits | USER | ((domain & 0xf) << 59)) & USER != 0,
        (bits | USER | ((domain & 0xf) << 59)) & !HUGE == bits | USER | ((domain & 0xf) << 59),
        (bits | USER | ((domain & 0xf) << 59)) & WRITABLE == bits & WRITABLE,
        (bits | USER | ((domain & 0xf) << 59)) & NX == bits & NX,
        ((bits | USER | ((domain & 0xf) << 59)) >> 59) & 0xf == domain % 16,
        bits & USER == 0,
        (bits >> 59) & 0xf == 0,
{
}

/// A page with the user bit under entries with it is one that ring 3 has access to, and takes it
/// no other.
proof fn lemma_user_page(m: Map<u64, Seq<u64>>, root: u64, v: u64, e: u64)
    requires
        well_formed(m, root),
        table_on_path(m, root, v, 0) is Some,
        forall|k: int|
            1 <= k <= 3 ==> match #[trigger] table_on_path(m, root, v, k) {
                Some(t) => m[t][tables::index(v, k)] & USER != 0,
                None => true,
            },
        Pml4::step(0, e) is Leaf,
        e & USER != 0,
    ensures
        ({
            let n = tables::written(m, table_on_path(m, root, v, 0)->0, tables::index(v, 0), e);
            forall|va: u64|
                tables::hits(va, v, 0) || user_accessible(
                    m,
                    root,
                    va,
                ) ==> #[trigger] user_accessible(n, root, va)
        }),
{
    let pt = table_on_path(m, root, v, 0)->0;
    let n = tables::written(m, pt, tables::index(v, 0), e);
    tables::lemma_write_page::<Pml4>(m, root, v, 0, e);
    assert forall|va: u64|
        tables::hits(va, v, 0) || user_accessible(m, root, va) implies #[trigger] user_accessible(
        n,
        root,
        va,
    ) by {
        assert(tables::walk::<Pml4>(n, root, 3, va) is Some);
        assert forall|k: int| 0 <= k <= 3 implies match #[trigger] table_on_path(n, root, va, k) {
            Some(x) => n[x][tables::index(va, k)] & USER != 0,
            None => true,
        } by {
            assert(table_on_path(n, root, va, k) == table_on_path(m, root, va, k));
            assert(table_on_path(m, root, v, 0) == Some(pt));
            if let Some(x) = table_on_path(m, root, va, k) {
                if tables::hits(va, v, 0) {
                    tables::lemma_same_path::<Pml4>(m, root, 3, va, v, k);
                    assert(tables::index(va, k) == tables::index(v, k));
                    assert(table_on_path(m, root, v, k) == Some(x));
                    if k > 0 {
                        assert(x != pt);
                        assert(n[x] == m[x]);
                    } else {
                        assert(m[pt].len() == 512);
                        assert(n[pt][tables::index(v, 0)] == e);
                    }
                } else {
                    assert(m[x][tables::index(va, k)] & USER != 0);
                    if x == pt {
                        assert(k == 0 && tables::same_path(va, v, 0));
                        assert(tables::index(va, 0) != tables::index(v, 0));
                        assert(n[pt][tables::index(va, 0)] == m[pt][tables::index(va, 0)]);
                    } else {
                        assert(n[x] == m[x]);
                    }
                }
            }
        }
    }
}

/// Map page `vaddr` to the frame of `phys` with protection `prot`, for ring 3, with the key of
/// isolation domain `domain`. Every other page is mapped as before, with the same user bit.
pub fn map_user_page<M: TableMemory>(
    mem: &mut M,
    root: u64,
    vaddr: u64,
    phys: u64,
    prot: Prot,
    domain: u64,
)
    requires
        well_formed(old(mem).tables(), root),
        editable(old(mem).tables(), root, vaddr, old(mem).room()),
    ensures
        well_formed(final(mem).tables(), root),
        forall|va: u64| #[trigger]
            mapping(final(mem).tables(), root, va) == (if tables::same_page(va, vaddr) {
                Some(
                    Mapping { phys: (phys & ADDR_MASK) + va % 4096, attrs: user_bits(prot, domain) },
                )
            } else {
                mapping(old(mem).tables(), root, va)
            }),
        forall|va: u64|
            tables::same_page(va, vaddr) ==> (#[trigger] mapping(final(mem).tables(), root, va)
                matches Some(to) && to.attrs & USER != 0 && (to.attrs & WRITABLE != 0)
                == prot.writes() && (to.attrs & NX == 0) == prot.executes() && (to.attrs >> 59) & 0xf
                == domain % 16),
        forall|va: u64|
            tables::same_page(va, vaddr) || user_accessible(old(mem).tables(), root, va)
                ==> #[trigger] user_accessible(final(mem).tables(), root, va),
        off_path_kept(old(mem).tables(), final(mem).tables(), root, vaddr),
        tables::paths_kept::<Pml4>(old(mem).tables(), final(mem).tables(), root),
        edit::windows_kept::<Pml4>(old(mem).tables(), final(mem).tables(), root, vaddr),
        final(mem).room() == old(mem).room() - edit::dividing::<Pml4>(
            old(mem).tables(),
            root,
            vaddr,
        ),
{
    let ghost m = mem.tables();
    let v: u64 = page_base(vaddr);
    let e: u64 = (phys & ADDR_MASK) | leaf_bits(prot) | USER | pku::pkey_bits(domain);
    proof {
        edit::lemma_page_path::<Pml4>(m, root, vaddr, v);
        lemma_masks(phys);
        lemma_user_bits(prot_bits(prot), domain);
        law_user_pages_are_apart(prot, domain);
        let p = phys & ADDR_MASK;
        let b = prot_bits(prot);
        let u = USER;
        let d = (domain & 0xf) << 59;
        assert(p | b | u | d == p | (b | u | d)) by (bit_vector);
        lemma_entry(p, user_bits(prot, domain));
    }
    let pt: u64 = ensure_pt_user(mem, root, v);
    let ghost m1 = mem.tables();
    assert(table_on_path(m1, root, v, 0) == Some(pt));
    mem.write_entry(pt, table_index(v, 0), e);
    proof {
        let n = mem.tables();
        edit::lemma_page_set::<Pml4>(m, m1, n, root, vaddr, v, e);
        edit::lemma_page_path::<Pml4>(n, root, vaddr, v);
        lemma_user_page(m1, root, v, e);
        assert forall|va: u64|
            tables::same_page(va, vaddr) || user_accessible(
                m,
                root,
                va,
            ) implies #[trigger] user_accessible(n, root, va) by {
            assert(tables::hits(va, v, 0) == tables::same_page(va, vaddr));
            if user_accessible(m, root, va) {
                assert(user_accessible(m1, root, va));
            }
        }
    }
}

impl UserFormat for Pml4 {
    open spec fn attrs_for(prot: Prot, user: Option<u64>) -> u64 {
        match user {
            Some(domain) => user_bits(prot, domain),
            None => prot_bits(prot),
        }
    }

    open spec fn user_access(m: Map<u64, Seq<u64>>, root: u64, va: u64) -> bool {
        user_accessible(m, root, va)
    }

    fn map_for<M: TableMemory>(
        mem: &mut M,
        root: u64,
        vaddr: u64,
        phys: u64,
        prot: Prot,
        user: Option<u64>,
    ) {
        proof {
            lemma_address(phys);
        }
        match user {
            Some(domain) => map_user_page(mem, root, vaddr, phys, prot, domain),
            None => map_page(mem, root, vaddr, phys, prot),
        }
    }
}

/// **Law:** a page of a process is open to ring 3, is written to only under `Rw` and executed only
/// under `Rx`, and has the key of its domain in bits 59 to 62; a page of the kernel's is closed to
/// ring 3, with the same protection, and has key 0.
pub proof fn law_user_pages_are_apart(prot: Prot, domain: u64)
    ensures
        user_bits(prot, domain) & 1 != 0,
        user_bits(prot, domain) & 4 != 0,
        (user_bits(prot, domain) & 2 != 0) == (prot == Prot::Rw),
        (user_bits(prot, domain) & 0x8000_0000_0000_0000 == 0) == (prot == Prot::Rx),
        (user_bits(prot, domain) >> 59) & 0xf == domain % 16,
        prot_bits(prot) & 1 != 0,
        prot_bits(prot) & 4 == 0,
        (prot_bits(prot) & 2 != 0) == (prot == Prot::Rw),
        (prot_bits(prot) & 0x8000_0000_0000_0000 == 0) == (prot == Prot::Rx),
        (prot_bits(prot) >> 59) & 0xf == 0,
        Pml4::attrs_for(prot, Some(domain)) == user_bits(prot, domain),
        Pml4::attrs_for(prot, None) == prot_bits(prot),
        prot.writes() == (prot == Prot::Rw),
        prot.executes() == (prot == Prot::Rx),
{
    lemma_flags();
    lemma_prot_bits(prot);
    lemma_user_bits(prot_bits(prot), domain);
}

/// **Law:** an address is looked up through four tables, nine bits of it at a time from bit 39 down.
/// An entry that is not in use ends the search with nothing; one with the size bit, in the second and
/// third, with a page of 1 GiB and 2 MiB; and one in the last with a page of 4 KiB. The rest of the
/// address is the place in the page.
pub proof fn law_addresses_are_looked_up_in_four_tables(
    m: Map<u64, Seq<u64>>,
    root: u64,
    va: u64,
)
    ensures
        ({
            let e3 = m[root][va as int / 0x80_0000_0000 % 512];
            let e2 = m[e3 & 0x000f_ffff_ffff_f000][va as int / 0x4000_0000 % 512];
            let e1 = m[e2 & 0x000f_ffff_ffff_f000][va as int / 0x20_0000 % 512];
            let e0 = m[e1 & 0x000f_ffff_ffff_f000][va as int / 0x1000 % 512];
            let found = mapping(m, root, va);
            &&& e3 & 1 == 0 ==> found is None
            &&& e3 & 1 != 0 && e2 & 1 == 0 ==> found is None
            &&& e3 & 1 != 0 && e2 & 1 != 0 && e2 & 0x80 != 0 ==> found is Some && is_page(
                found->0,
                e2,
                0x4000_0000,
                va,
            )
            &&& e3 & 1 != 0 && e2 & 1 != 0 && e2 & 0x80 == 0 && e1 & 1 == 0 ==> found is None
            &&& e3 & 1 != 0 && e2 & 1 != 0 && e2 & 0x80 == 0 && e1 & 1 != 0 && e1 & 0x80 != 0
                ==> found is Some && is_page(found->0, e1, 0x20_0000, va)
            &&& e3 & 1 != 0 && e2 & 1 != 0 && e2 & 0x80 == 0 && e1 & 1 != 0 && e1 & 0x80 == 0 && e0
                & 1 == 0 ==> found is None
            &&& e3 & 1 != 0 && e2 & 1 != 0 && e2 & 0x80 == 0 && e1 & 1 != 0 && e1 & 0x80 == 0 && e0
                & 1 != 0 ==> found is Some && is_page(found->0, e0, 0x1000, va)
        }),
{
    reveal_with_fuel(tables::walk, 5);
}

/// `to` is the page of `size` bytes that entry `e` names, at the place of `va` in it, with the rest of
/// the entry as its attributes.
pub open spec fn is_page(to: Mapping, e: u64, size: int, va: u64) -> bool {
    let a = (e & 0x000f_ffff_ffff_f000) as int;
    &&& to.phys == a - a % size + va as int % size
    &&& to.attrs == e & !0x000f_ffff_ffff_f000u64 & !0x80u64
}

/// **Law:** a page that is mapped without the user bit is closed to ring 3, whatever the tables above
/// it allow.
pub proof fn law_kernel_pages_are_closed(m: Map<u64, Seq<u64>>, root: u64, va: u64)
    requires
        mapping(m, root, va) is Some,
        mapping(m, root, va)->0.attrs & 4 == 0,
    ensures
        !user_accessible(m, root, va),
{
    reveal_with_fuel(tables::walk, 5);
    reveal_with_fuel(tables::below, 5);
    let (level, e) = tables::walk::<Pml4>(m, root, 3, va)->0;
    lemma_attrs(e);
    assert(table_on_path(m, root, va, level) is Some);
    assert(m[table_on_path(m, root, va, level)->0][tables::index(va, level)] == e);
}

/// **Law:** a table that is added restricts nothing that is below it but one thing: it is closed to
/// ring 3.
pub proof fn law_new_tables_are_closed(t: u64)
    requires
        tables::is_table_address(t),
    ensures
        Pml4::step(1, Pml4::link(t)) == Step::Table(t),
        Pml4::link(t) & 4 == 0,
        Pml4::link(t) & 2 != 0,
        Pml4::link(t) & 0x8000_0000_0000_0000 == 0,
{
    lemma_link_bits(t);
    Pml4::links(1, t);
}

/// **Law:** ring 3 has access to a page exactly if nothing on the way to it, from the root down to
/// the page itself, lacks the user bit.
pub proof fn law_one_closed_level_closes_the_page(
    m: Map<u64, Seq<u64>>,
    root: u64,
    va: u64,
    k: int,
)
    requires
        0 <= k <= 3,
        table_on_path(m, root, va, k) is Some,
        m[table_on_path(m, root, va, k)->0][tables::index(va, k)] & 4 == 0,
    ensures
        !user_accessible(m, root, va),
        !Pml4::user_access(m, root, va),
{
}

/// Where the kernel's own address space has `va`: its image, and low memory twice.
pub open spec fn layout(km: KernelMap, va: u64) -> Option<Mapping> {
    let i = tables::index(va, 3);
    if i == tables::index(km.kernel_vbase, 3) {
        space::kernel_mapping::<Pml4>(km, va)
    } else if i == tables::index(km.hhdm_offset, 3) || i == 0 {
        space::low_mapping::<Pml4>(km.identity_bytes, va)
    } else {
        None
    }
}

/// The tables that the kernel's own address space takes.
pub open spec fn layout_tables(km: KernelMap) -> int {
    4 + 2 * space::low_tables(km.identity_bytes)
}

/// Build the kernel's own address space.
#[must_use]
pub fn build_address_space<M: TableMemory>(mem: &mut M, km: &KernelMap) -> (s: AddressSpace)
    requires
        space::image_fits(*km),
        km.identity_bytes <= space::LOW_LIMIT,
        old(mem).room() >= layout_tables(*km),
    ensures
        s.secondary == 0,
        !old(mem).tables().contains_key(s.primary),
        well_formed(final(mem).tables(), s.primary),
        forall|va: u64| #[trigger]
            mapping(final(mem).tables(), s.primary, va) == layout(*km, va),
        tables::kept(old(mem).tables(), final(mem).tables()),
        final(mem).room() == old(mem).room() - layout_tables(*km),
{
    let pml4: u64 = mem.alloc_table();
    let ghost m1 = mem.tables();
    proof {
        tables::lemma_empty_root::<Pml4>(m1, pml4);
    }
    map_low::<Pml4, M>(mem, pml4, 0, km.identity_bytes);
    let ghost m2 = mem.tables();
    map_low::<Pml4, M>(mem, pml4, table_index(km.hhdm_offset, 3), km.identity_bytes);
    let ghost m3 = mem.tables();
    map_kernel::<Pml4, M>(mem, pml4, km);
    proof {
        assert forall|va: u64| #[trigger]
            mapping(mem.tables(), pml4, va) == layout(*km, va) by {
            assert(mapping(m1, pml4, va) is None);
        }
        assert forall|t: u64| #[trigger] old(mem).tables().contains_key(t) implies {
            mem.tables().contains_key(t) && mem.tables()[t] == old(mem).tables()[t]
        } by {
            assert(m1.contains_key(t) && t != pml4);
            assert(m2.contains_key(t));
            assert(m3.contains_key(t));
        }
    }
    AddressSpace { primary: pml4, secondary: 0 }
}

/// **Law:** nothing in the kernel's own address space is both writable and executable.
pub proof fn law_kernel_space_keeps_wx_apart(km: KernelMap, va: u64)
    requires
        space::image_fits(km),
    ensures
        layout(km, va) matches Some(to) ==> !(to.attrs & WRITABLE != 0 && to.attrs & NX == 0),
{
    if layout(km, va) is Some {
        if tables::index(va, 3) == tables::index(km.kernel_vbase, 3) {
            lemma_image_attrs(km, va);
        } else {
            lemma_flags();
            lemma_low_attrs(va);
        }
    }
}

/// **Law:** the code of the kernel is executable and not writable, its data is writable and not
/// executable, and the rest of its image is neither.
#[verifier::rlimit(40)]
pub proof fn law_sections_are_protected(km: KernelMap, va: u64)
    requires
        space::image_fits(km),
        km.kernel_vbase <= va < km.kernel_vend,
    ensures
        ({
            let prot = space::section_prot_spec(km, va - va % 4096);
            &&& layout(km, va) is Some
            &&& layout(km, va)->0.phys == km.kernel_phys + (va - km.kernel_vbase)
            &&& (layout(km, va)->0.attrs & WRITABLE != 0) == prot.writes()
            &&& (layout(km, va)->0.attrs & NX == 0) == prot.executes()
        }),
{
    space::lemma_window(km, va);
    lemma_image_attrs(km, va);
    let off = va as int % 0x20_0000;
    assert(va as int % 4096 == off % 4096);
}

/// **Law:** a page of the kernel's image is executable exactly if it is one of the code, and
/// writable exactly if it is one of the data and not of the code; ring 3 has no access.
pub proof fn law_code_runs_and_data_is_written(km: KernelMap, va: u64)
    requires
        space::image_fits(km),
        km.kernel_vbase <= va < km.kernel_vend,
    ensures
        ({
            let page = va - va % 4096;
            let code = km.text.0 <= page < km.text.1;
            let data = km.data.0 <= page < km.data.1;
            &&& layout(km, va) is Some
            &&& layout(km, va)->0.phys == km.kernel_phys + (va - km.kernel_vbase)
            &&& (layout(km, va)->0.attrs & 2 != 0) == (data && !code)
            &&& (layout(km, va)->0.attrs & 0x8000_0000_0000_0000 == 0) == code
            &&& layout(km, va)->0.attrs & 4 == 0
        }),
{
    law_sections_are_protected(km, va);
    space::lemma_window(km, va);
    lemma_image_attrs(km, va);
    let off = va as int % 0x20_0000;
    let prot = space::section_prot_spec(km, km.kernel_vbase + (off - off % 4096));
    lemma_user_bits(prot_bits(prot), 0);
}

/// **Law:** low memory is mapped at its own address and, from `hhdm_offset` up, a second time, in
/// both places to be written and not executed, and not for ring 3.
pub proof fn law_low_memory_is_mapped_twice(km: KernelMap, pa: u64, direct: u64)
    requires
        pa < km.identity_bytes,
        km.identity_bytes <= 0x80_0000_0000,
        km.hhdm_offset % 0x80_0000_0000 == 0,
        direct == km.hhdm_offset + pa,
        tables::index(km.kernel_vbase, 3) != tables::index(km.hhdm_offset, 3),
        tables::index(km.kernel_vbase, 3) != 0,
    ensures
        layout(km, pa) matches Some(to) && to.phys == pa && to.attrs & 2 != 0 && to.attrs
            & 0x8000_0000_0000_0000 != 0 && to.attrs & 4 == 0,
        layout(km, direct) matches Some(to) && to.phys == pa && to.attrs & 2 != 0 && to.attrs
            & 0x8000_0000_0000_0000 != 0 && to.attrs & 4 == 0,
{
    lemma_flags();
    lemma_low_attrs(pa);
    lemma_low_attrs(direct);
    assert(tables::index(pa, 3) == 0);
    assert(direct as int / 0x80_0000_0000 == km.hhdm_offset as int / 0x80_0000_0000);
}

/// The attributes of a page of the image.
#[verifier::rlimit(40)]
proof fn lemma_image_attrs(km: KernelMap, va: u64)
    requires
        space::image_fits(km),
        space::kernel_mapping::<Pml4>(km, va) is Some,
    ensures
        ({
            let off = va as int % 0x20_0000;
            let prot = space::section_prot_spec(km, km.kernel_vbase + (off - off % 4096));
            let attrs = space::kernel_mapping::<Pml4>(km, va)->0.attrs;
            &&& attrs == prot_bits(prot)
            &&& (attrs & WRITABLE != 0) == prot.writes()
            &&& (attrs & NX == 0) == prot.executes()
        }),
{
    let off = va as int % 0x20_0000;
    let page = off - off % 4096;
    let prot = space::section_prot_spec(km, km.kernel_vbase + page);
    let pa = (km.kernel_phys + page) as u64;
    assert(pa % 4096 == 0);
    lemma_prot_bits(prot);
    lemma_entry(pa, prot_bits(prot));
}

/// The attributes of low memory.
proof fn lemma_low_attrs(va: u64)
    ensures
        ({
            let pa = space::low_phys(va);
            Pml4::attrs(Pml4::block((pa - pa % 0x20_0000) as u64)) == PRESENT | WRITABLE | NX
        }),
{
    let pa = space::low_phys(va);
    let base = (pa - pa % 0x20_0000) as u64;
    assert(base as int == pa / 0x20_0000 * 0x20_0000);
    assert(base % 4096 == 0);
    lemma_flags();
    lemma_link_bits(base);
    lemma_entry(base, PRESENT | WRITABLE | HUGE | NX);
}

/// The kernel's own address space, which no process's pages are in, once its root is known.
#[must_use]
pub fn kernel_space(pml4: u64) -> (s: AddressSpace)
    ensures
        s == (AddressSpace { primary: pml4, secondary: 0 }),
{
    AddressSpace { primary: pml4, secondary: 0 }
}

/// The flags of an entry say what it is.
proof fn lemma_keep_flags(e: u64)
    by (bit_vector)
    ensures
        (e & !ADDR_MASK) & ADDR_MASK == 0,
        (e & !ADDR_MASK) & PRESENT == e & PRESENT,
        (e & !ADDR_MASK) & HUGE == e & HUGE,
{
}

/// Give the space under `root` a copy of its own of the table that entry `e` of table `t` names, on
/// the way to `v`, under an entry with these flags. Nothing is mapped otherwise than before.
fn own_table<M: TableMemory>(
    mem: &mut M,
    root: u64,
    v: u64,
    level: u32,
    t: u64,
    e: u64,
    flags: u64,
) -> (d: u64)
    requires
        well_formed(old(mem).tables(), root),
        1 <= level <= 3,
        table_on_path(old(mem).tables(), root, v, level as int) == Some(t),
        e == old(mem).tables()[t][tables::index(v, level as int)],
        Pml4::step(level as int, e) is Table,
        flags & ADDR_MASK == 0,
        flags & PRESENT != 0,
        level < 3 ==> flags & HUGE == 0,
        old(mem).room() > 0,
    ensures
        !old(mem).tables().contains_key(d),
        well_formed(final(mem).tables(), root),
        final(mem).tables() == tables::written(
            old(mem).tables().insert(d, old(mem).tables()[e & ADDR_MASK]),
            t,
            tables::index(v, level as int),
            d | flags,
        ),
        forall|va: u64| #[trigger]
            mapping(final(mem).tables(), root, va) == mapping(old(mem).tables(), root, va),
        forall|va: u64, k: int|
            0 <= k <= 3 ==> #[trigger] tables::below::<Pml4>(final(mem).tables(), root, 3, va, k)
                == (if tables::hits(va, v, level as int) && k == level - 1 {
                Some(d)
            } else {
                tables::below::<Pml4>(old(mem).tables(), root, 3, va, k)
            }),
        final(mem).room() == old(mem).room() - 1,
{
    let ghost m = mem.tables();
    let ghost k = level as int;
    let c: u64 = e & ADDR_MASK;
    proof {
        tables::lemma_below_step::<Pml4>(m, root, 3, v, k - 1);
        assert(tables::below::<Pml4>(m, root, 3, v, k) == Some(t));
        assert(tables::below::<Pml4>(m, root, 3, v, k - 1) == Some(c));
    }
    let d: u64 = clone_table(mem, c);
    let ghost m1 = mem.tables();
    proof {
        tables::lemma_add_table::<Pml4>(m, root, d, m[c]);
        assert(tables::below::<Pml4>(m1, root, 3, v, k) == Some(t));
        assert(m1[c] == m[c]);
        lemma_entry(d, flags);
        tables::lemma_copy_child::<Pml4>(m1, root, v, k, d | flags, c, d);
    }
    mem.write_entry(t, table_index(v, level), d | flags);
    proof {
        let n = mem.tables();
        assert forall|va: u64| #[trigger] mapping(n, root, va) == mapping(m, root, va) by {
            assert(tables::walk::<Pml4>(m1, root, 3, va) == tables::walk::<Pml4>(m, root, 3, va));
        }
    }
    d
}

/// A root of its own for the space under `root`, with the same entries.
fn own_root<M: TableMemory>(mem: &mut M, root: u64) -> (r: u64)
    requires
        well_formed(old(mem).tables(), root),
        old(mem).room() > 0,
    ensures
        !old(mem).tables().contains_key(r),
        well_formed(final(mem).tables(), r),
        final(mem).tables() == old(mem).tables().insert(r, old(mem).tables()[root]),
        forall|va: u64| #[trigger]
            mapping(final(mem).tables(), r, va) == mapping(old(mem).tables(), root, va),
        forall|va: u64, k: int|
            0 <= k < 3 ==> #[trigger] tables::below::<Pml4>(final(mem).tables(), r, 3, va, k)
                == tables::below::<Pml4>(old(mem).tables(), root, 3, va, k),
        final(mem).room() == old(mem).room() - 1,
{
    let ghost m = mem.tables();
    assert(tables::below::<Pml4>(m, root, 3, 0, 3) == Some(root));
    let r: u64 = clone_table(mem, root);
    let ghost n = mem.tables();
    proof {
        tables::lemma_add_table::<Pml4>(m, root, r, m[root]);
        tables::lemma_copy_root::<Pml4>(n, root, r);
        assert forall|va: u64| #[trigger] mapping(n, r, va) == mapping(m, root, va) by {
            assert(tables::walk::<Pml4>(n, root, 3, va) == tables::walk::<Pml4>(m, root, 3, va));
        }
    }
    r
}

/// An address in the window of processes, from 1 GiB up to 2 GiB.
pub const WINDOW: u64 = 0x4000_0000;

/// `va` is in the window of processes.
pub open spec fn in_window(va: u64) -> bool {
    tables::index(va, 3) == 0 && tables::index(va, 2) == 1
}

/// A space for a process: everything as under `base`, with tables of its own on the way to the
/// window of processes.
#[must_use]
pub fn new_process_space<M: TableMemory>(mem: &mut M, base: u64) -> (s: AddressSpace)
    requires
        well_formed(old(mem).tables(), base),
        table_on_path(old(mem).tables(), base, WINDOW, 1) is Some,
        old(mem).room() >= 3,
    ensures
        s.secondary == 0,
        !old(mem).tables().contains_key(s.primary),
        well_formed(final(mem).tables(), s.primary),
        tables::kept(old(mem).tables(), final(mem).tables()),
        forall|va: u64| #[trigger]
            mapping(final(mem).tables(), s.primary, va) == mapping(old(mem).tables(), base, va),
        forall|va: u64, k: int|
            in_window(va) && 1 <= k <= 3 ==> match #[trigger] tables::below::<Pml4>(
                final(mem).tables(),
                s.primary,
                3,
                va,
                k,
            ) {
                Some(t) => !old(mem).tables().contains_key(t),
                None => false,
            },
        forall|va: u64| #[trigger]
            tables::below::<Pml4>(final(mem).tables(), s.primary, 3, va, 0) == tables::below::<
                Pml4,
            >(old(mem).tables(), base, 3, va, 0),
        final(mem).room() == old(mem).room() - 3,
{
    let ghost m = mem.tables();
    proof {
        tables::lemma_below_step::<Pml4>(m, base, 3, WINDOW, 2);
        tables::lemma_below_step::<Pml4>(m, base, 3, WINDOW, 1);
        assert(tables::below::<Pml4>(m, base, 3, WINDOW, 3) == Some(base));
        assert(tables::below::<Pml4>(m, base, 3, WINDOW, 2) is Some);
        assert(tables::index(WINDOW, 3) == 0);
        assert(tables::index(WINDOW, 2) == 1);
    }
    let new_pml4: u64 = own_root(mem, base);
    let ghost m1 = mem.tables();
    let e0: u64 = mem.read_entry(base, 0);
    let low: u64 = e0 & ADDR_MASK;
    let e1: u64 = mem.read_entry(low, 1);
    proof {
        lemma_keep_flags(e0);
        lemma_keep_flags(e1);
        assert(tables::below::<Pml4>(m1, new_pml4, 3, WINDOW, 3) == Some(new_pml4));
    }
    let new_pdpt: u64 = own_table(mem, new_pml4, WINDOW, 3, new_pml4, e0, e0 & !ADDR_MASK);
    let ghost m2 = mem.tables();
    proof {
        assert(tables::below::<Pml4>(m2, new_pml4, 3, WINDOW, 2) == Some(new_pdpt));
        assert(m2[new_pdpt][1] == e1);
    }
    let new_pd: u64 = own_table(mem, new_pml4, WINDOW, 2, new_pdpt, e1, e1 & !ADDR_MASK);
    proof {
        let n = mem.tables();
        assert forall|va: u64| #[trigger] mapping(n, new_pml4, va) == mapping(m, base, va) by {
            assert(mapping(m2, new_pml4, va) == mapping(m1, new_pml4, va));
        }
        assert forall|va: u64, k: int| in_window(va) && 1 <= k <= 3 implies match #[trigger] tables::below::<
            Pml4,
        >(n, new_pml4, 3, va, k) {
            Some(t) => !m.contains_key(t),
            None => false,
        } by {
            assert(tables::below::<Pml4>(n, new_pml4, 3, va, 3) == Some(new_pml4));
            assert(tables::hits(va, WINDOW, 3) && tables::hits(va, WINDOW, 2));
            assert(tables::below::<Pml4>(m2, new_pml4, 3, va, 2) == Some(new_pdpt));
        }
        assert forall|va: u64| #[trigger]
            tables::below::<Pml4>(n, new_pml4, 3, va, 0) == tables::below::<Pml4>(
                m,
                base,
                3,
                va,
                0,
            ) by {
            assert(tables::below::<Pml4>(m2, new_pml4, 3, va, 0) == tables::below::<Pml4>(
                m1,
                new_pml4,
                3,
                va,
                0,
            ));
        }
    }
    AddressSpace { primary: new_pml4, secondary: 0 }
}

/// **Law:** what is mapped in one space on tables that no other space has is seen in that space
/// alone. `m` is before the space under `root` was made, `n` when page `v` is mapped in it, and `x`
/// after that.
pub proof fn law_private_tables_are_private(
    m: Map<u64, Seq<u64>>,
    n: Map<u64, Seq<u64>>,
    x: Map<u64, Seq<u64>>,
    root: u64,
    other: u64,
    v: u64,
)
    requires
        tables::sound::<Pml4>(m, other),
        tables::kept(m, n),
        forall|k: int|
            0 <= k <= 3 ==> match #[trigger] table_on_path(n, root, v, k) {
                Some(t) => !m.contains_key(t),
                None => true,
            },
        off_path_kept(n, x, root, v),
    ensures
        forall|va: u64| #[trigger] mapping(x, other, va) == mapping(m, other, va),
{
    assert forall|va: u64, j: int| 0 <= j <= 3 implies match #[trigger] tables::below::<Pml4>(
        m,
        other,
        3,
        va,
        j,
    ) {
        Some(t) => x.contains_key(t) && x[t] == m[t],
        None => true,
    } by {
        if let Some(t) = tables::below::<Pml4>(m, other, 3, va, j) {
            assert(n.contains_key(t));
            assert(!tables::on_path::<Pml4>(n, root, v, t));
        }
    }
    tables::law_untouched_tables_keep_the_space::<Pml4>(m, x, other);
}

/// A space in which page `victim_vaddr` is not mapped, and everything else is as under `orig`; that
/// one stays as it is.
#[must_use]
pub fn build_domain_excluding<M: TableMemory>(mem: &mut M, orig: u64, victim_vaddr: u64) -> (r: u64)
    requires
        well_formed(old(mem).tables(), orig),
        edit::divisible::<Pml4>(old(mem).tables(), orig, victim_vaddr),
        old(mem).room() >= 4,
    ensures
        !old(mem).tables().contains_key(r),
        well_formed(final(mem).tables(), r),
        tables::kept(old(mem).tables(), final(mem).tables()),
        forall|va: u64| #[trigger]
            mapping(final(mem).tables(), r, va) == (if tables::same_page(va, victim_vaddr) {
                None
            } else {
                mapping(old(mem).tables(), orig, va)
            }),
        final(mem).room() == old(mem).room() - 4,
{
    let ghost m = mem.tables();
    let v: u64 = page_base(victim_vaddr);
    proof {
        edit::lemma_page_path::<Pml4>(m, orig, victim_vaddr, v);
        tables::lemma_below_step::<Pml4>(m, orig, 3, v, 2);
        tables::lemma_below_step::<Pml4>(m, orig, 3, v, 1);
        assert(tables::below::<Pml4>(m, orig, 3, v, 3) == Some(orig));
        assert(table_on_path(m, orig, v, 1) is Some);
        assert(tables::below::<Pml4>(m, orig, 3, v, 2) is Some);
        lemma_flags();
    }
    let new_pml4: u64 = own_root(mem, orig);
    let ghost m1 = mem.tables();
    let e4: u64 = mem.read_entry(orig, table_index(v, 3));
    let e3: u64 = mem.read_entry(e4 & ADDR_MASK, table_index(v, 2));
    let pd: u64 = e3 & ADDR_MASK;
    assert(tables::below::<Pml4>(m, orig, 3, v, 1) == Some(pd));
    let e2: u64 = mem.read_entry(pd, table_index(v, 1));
    proof {
        lemma_keep_flags(e4);
        lemma_keep_flags(e3);
        assert(tables::below::<Pml4>(m1, new_pml4, 3, v, 3) == Some(new_pml4));
    }
    let new_pdpt: u64 = own_table(mem, new_pml4, v, 3, new_pml4, e4, e4 & !ADDR_MASK);
    let ghost m2 = mem.tables();
    proof {
        assert(tables::below::<Pml4>(m2, new_pml4, 3, v, 2) == Some(new_pdpt));
    }
    let new_pd: u64 = own_table(mem, new_pml4, v, 2, new_pdpt, e3, e3 & !ADDR_MASK);
    let ghost m3 = mem.tables();
    proof {
        assert(tables::below::<Pml4>(m3, new_pml4, 3, v, 1) == Some(new_pd));
        assert(m3[new_pd] == m[pd]);
        assert(edit::window_entry::<Pml4>(m3, new_pml4, v) == e2);
    }
    let new_pt: u64 = if e2 & HUGE != 0 {
        let t: u64 = edit::split_table::<Pml4, M>(mem, e2);
        mem.write_entry(new_pd, table_index(v, 1), t | PRESENT | WRITABLE);
        proof {
            Pml4::links(1, t);
            edit::lemma_divided::<Pml4>(m3, new_pml4, v, t, Pml4::link(t));
        }
        t
    } else {
        let t: u64 = own_table(mem, new_pml4, v, 1, new_pd, e2, PRESENT | WRITABLE);
        assert(tables::below::<Pml4>(mem.tables(), new_pml4, 3, v, 0) == Some(t));
        t
    };
    let ghost m4 = mem.tables();
    assert(table_on_path(m4, new_pml4, v, 0) == Some(new_pt));
    mem.write_entry(new_pt, table_index(v, 0), 0);
    proof {
        let n = mem.tables();
        tables::lemma_write_page::<Pml4>(m4, new_pml4, v, 0, 0);
        assert forall|va: u64| #[trigger]
            mapping(n, new_pml4, va) == (if tables::same_page(va, victim_vaddr) {
                None
            } else {
                mapping(m, orig, va)
            }) by {
            assert(tables::hits(va, v, 0) == tables::same_page(va, victim_vaddr));
            assert(mapping(m4, new_pml4, va) == mapping(m3, new_pml4, va));
            assert(mapping(m3, new_pml4, va) == mapping(m2, new_pml4, va));
            assert(mapping(m2, new_pml4, va) == mapping(m1, new_pml4, va));
            assert(mapping(m1, new_pml4, va) == mapping(m, orig, va));
        }
    }
    new_pml4
}


/// **Law:** the kernel's own address space takes a root, three tables for the image, and for each map
/// of low memory one table and one more for every GiB.
pub proof fn law_tables_of_the_kernel_space(km: KernelMap)
    ensures
        ({
            let gib = (layout_tables(km) - 6) / 2;
            &&& layout_tables(km) == 6 + 2 * gib
            &&& gib * 0x4000_0000 >= km.identity_bytes
            &&& (gib - 1) * 0x4000_0000 < km.identity_bytes
        }),
{
}


/// **Law:** a page can be given an entry of its own where the third table has an entry in use; that
/// takes a table more exactly if the entry is a page of 2 MiB.
pub proof fn law_large_pages_are_divided(m: Map<u64, Seq<u64>>, root: u64, va: u64, t: u64)
    requires
        table_on_path(m, root, va, 1) == Some(t),
    ensures
        edit::divisible::<Pml4>(m, root, va) == (m[t][va as int / 0x20_0000 % 512] & 1 != 0),
        m[t][va as int / 0x20_0000 % 512] & 1 != 0 ==> edit::dividing::<Pml4>(m, root, va) == (if m[t][va as int
            / 0x20_0000 % 512] & 0x80 != 0 {
            1nat
        } else {
            0nat
        }),
{
}

} // verus!
