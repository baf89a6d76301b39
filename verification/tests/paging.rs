//! Page tables of both architectures, in an arena.

use praesidium::kernel::arch::aarch64::paging as a64;
use praesidium::kernel::arch::aarch64::{context as a64_context, mte, timer as a64_timer, trap as a64_trap};
use praesidium::kernel::arch::edit::{is_divisible, tables_to_divide};
use praesidium::kernel::arch::range::map_run;
use praesidium::kernel::arch::space::section_prot;
use praesidium::kernel::arch::tables::{clone_table, page_base, table_index, TableArena, TableMemory};
use praesidium::kernel::arch::x86_64::paging as x86;
use praesidium::kernel::arch::x86_64::{context as x86_context, pku, timer as x86_timer, trap as x86_trap};
use praesidium::kernel::arch::{AddressSpace, KernelMap, Prot};
use praesidium::kernel::isolation::{escape_domain, guard_fault, verify_guard_page, GuardFault};
use praesidium::kernel::loader::layout::{map_segments, tables_for_segments};
use praesidium::kernel::loader::SegmentMap;
use praesidium::kernel::memory::{kernel_map, wx_violation, MemError, WxViolation};

const HHDM: u64 = 0xffff_8000_0000_0000;
const VBASE: u64 = 0xffff_ffff_8020_0000;

fn map() -> KernelMap {
    kernel_map(
        HHDM,
        0x60_0000,
        (VBASE, VBASE + 0x5ff0),
        (VBASE, VBASE + 0x2000),
        (VBASE + 0x2000, VBASE + 0x3000),
        (VBASE + 0x3000, VBASE + 0x5ff0),
    )
    .unwrap_or_else(|e| panic!("{:?}", e))
}

fn arena() -> TableArena {
    TableArena::new(0x100, 64)
}

#[test]
fn the_kernel_map_wants_an_image_of_one_window() {
    let km = map();
    assert_eq!((km.kernel_vbase, km.kernel_vend), (VBASE, VBASE + 0x6000));
    assert_eq!((km.hhdm_offset, km.identity_bytes, km.kernel_phys), (HHDM, 0x1_0000_0000, 0x60_0000));
    let t = (VBASE, VBASE + 1);
    assert_eq!(kernel_map(0, 0, (VBASE + 4096, VBASE + 8192), t, t, t).err(), Some(MemError::BadKernelImage));
    assert_eq!(kernel_map(0, 0, (VBASE, VBASE + 0x20_0001), t, t, t).err(), Some(MemError::BadKernelImage));
    assert!(kernel_map(0, 0, (VBASE, VBASE + 0x20_0000), t, t, t).is_ok());
}

#[test]
fn sections_are_protected() {
    let km = map();
    assert_eq!(section_prot(&km, VBASE), Prot::Rx);
    assert_eq!(section_prot(&km, VBASE + 0x2000), Prot::Ro);
    assert_eq!(section_prot(&km, VBASE + 0x3000), Prot::Rw);
    assert_eq!(Prot::checked(true, false, true), Some(Prot::Rx));
    assert_eq!(Prot::checked(true, true, false), Some(Prot::Rw));
    assert_eq!(Prot::checked(true, false, false), Some(Prot::Ro));
    assert_eq!(Prot::checked(true, true, true), None);
    assert_eq!(Prot::checked(false, true, false), None);
}

#[test]
fn violations_name_the_section() {
    let (rx, ro, rw) = (Some((false, true)), Some((false, false)), Some((true, false)));
    assert_eq!(wx_violation(rx, Some(ro), rw), None);
    assert_eq!(wx_violation(rx, None, rw), None);
    assert_eq!(wx_violation(Some((true, true)), Some(ro), rw), Some(WxViolation::Text));
    assert_eq!(wx_violation(None, Some(ro), rw), Some(WxViolation::Text));
    assert_eq!(wx_violation(rx, Some(rw), rw), Some(WxViolation::Rodata));
    assert_eq!(wx_violation(rx, Some(None), rw), Some(WxViolation::Rodata));
    assert_eq!(wx_violation(rx, Some(ro), ro), Some(WxViolation::Data));
}

#[test]
fn indices_split_an_address() {
    let va = (5u64 << 39) | (6 << 30) | (7 << 21) | (8 << 12) | 9;
    let at: Vec<usize> = (0..4).map(|l| table_index(va, l)).collect();
    assert_eq!(at, vec![8, 7, 6, 5]);
    assert_eq!(page_base(va), va - 9);
    assert_eq!(x86::current_pml4(0xabcd_1018), 0xabcd_1000);
    assert_eq!(a64::current_root(0x1000, 0x5001, 0x7002), 0x5000);
    assert_eq!(a64::current_root(HHDM, 0x5001, 0x7002), 0x7000);
}

#[test]
fn a_cloned_table_has_the_same_entries() {
    let mut mem = arena();
    let t = mem.alloc_table();
    mem.write_entry(t, 7, 0x1234);
    let c = clone_table(&mut mem, t);
    assert_ne!(c, t);
    assert_eq!((mem.read_entry(c, 7), mem.read_entry(c, 8)), (0x1234, 0));
    mem.write_entry(c, 7, 1);
    assert_eq!(mem.read_entry(t, 7), 0x1234);
}

fn x86_space() -> (TableArena, u64) {
    let mut mem = arena();
    let s = x86::build_address_space(&mut mem, &map());
    assert_eq!(s.secondary, 0);
    (mem, s.primary)
}

#[test]
fn x86_maps_low_memory_twice_and_the_kernel() {
    let (mem, root) = x86_space();
    for pa in [0u64, 0x1234_5678, 0xffff_ffff] {
        assert_eq!(x86::translate(&mem, root, pa), Some(pa));
        assert_eq!(x86::translate(&mem, root, HHDM + pa), Some(pa));
        assert_eq!(x86::page_prot(&mem, root, HHDM + pa), Some((true, false)));
    }
    assert_eq!(x86::translate(&mem, root, 0x1_0000_0000), None);
    assert_eq!(x86::translate(&mem, root, VBASE + 0x2345), Some(0x60_2345));
    assert_eq!(x86::page_prot(&mem, root, VBASE), Some((false, true)));
    assert_eq!(x86::page_prot(&mem, root, VBASE + 0x2000), Some((false, false)));
    assert_eq!(x86::page_prot(&mem, root, VBASE + 0x5000), Some((true, false)));
    assert_eq!(x86::page_prot(&mem, root, VBASE + 0x6000), None);
}

#[test]
fn x86_pages_are_edited_one_by_one() {
    let (mut mem, root) = x86_space();
    x86::map_page(&mut mem, root, 0x4000_1000, 0x77_7000, Prot::Ro);
    assert_eq!(x86::translate(&mem, root, 0x4000_1abc), Some(0x77_7abc));
    assert_eq!(x86::page_prot(&mem, root, 0x4000_1000), Some((false, false)));
    assert_eq!(x86::translate(&mem, root, 0x4000_0fff), Some(0x4000_0fff));
    assert_eq!(x86::translate(&mem, root, 0x4000_2000), Some(0x4000_2000));
    x86::install_guard_page(&mut mem, root, HHDM + 0x9000);
    assert_eq!(x86::translate(&mem, root, HHDM + 0x9010), None);
    assert_eq!(x86::translate(&mem, root, HHDM + 0x8fff), Some(0x8fff));
    assert_eq!(x86::translate(&mem, root, HHDM + 0xa000), Some(0xa000));
}

/// The entries that a walk for `va` takes, from the root down.
fn entries(mem: &TableArena, root: u64, va: u64) -> Vec<u64> {
    let mut t = root;
    let mut out = Vec::new();
    for level in (0..4).rev() {
        let e = mem.read_entry(t, table_index(va, level));
        out.push(e);
        t = e & x86::ADDR_MASK;
    }
    out
}

#[test]
fn x86_user_pages_carry_the_key_and_let_ring_3_through() {
    let (mut mem, root) = x86_space();
    let s = x86::new_process_space(&mut mem, root);
    x86::map_user_page(&mut mem, s.primary, 0x4010_0000, 0x88_8000, Prot::Rx, 0x12);
    let e = entries(&mem, s.primary, 0x4010_0000);
    assert!(e.iter().all(|e| e & x86::USER != 0));
    assert_eq!(e[3], 0x88_8000 | x86::PRESENT | x86::USER | (2 << 59));
    // The page beside it stays the kernel's.
    assert_eq!(entries(&mem, s.primary, 0x4010_1000)[3] & x86::USER, 0);
    // The other space has nothing of it.
    assert_eq!(x86::translate(&mem, s.primary, 0x4010_0123), Some(0x88_8123));
    assert_eq!(x86::translate(&mem, root, 0x4010_0123), Some(0x4010_0123));
    assert_eq!(x86::translate(&mem, s.primary, VBASE), Some(0x60_0000));
    assert_eq!(x86::kernel_space(root), AddressSpace { primary: root, secondary: 0 });
}

#[test]
fn x86_domains_leave_one_page_out() {
    let (mut mem, root) = x86_space();
    let d = x86::build_domain_excluding(&mut mem, root, HHDM + 0x5_5000);
    assert_eq!(x86::translate(&mem, d, HHDM + 0x5_5800), None);
    assert_eq!(x86::translate(&mem, d, HHDM + 0x5_6000), Some(0x5_6000));
    assert_eq!(x86::translate(&mem, root, HHDM + 0x5_5800), Some(0x5_5800));
    // The same page again, now that there is a table of 4 KiB pages.
    let d2 = x86::build_domain_excluding(&mut mem, d, HHDM + 0x5_6000);
    assert_eq!(x86::translate(&mem, d2, HHDM + 0x5_5800), None);
    assert_eq!(x86::translate(&mem, d2, HHDM + 0x5_6000), None);
    assert_eq!(x86::translate(&mem, d, HHDM + 0x5_6000), Some(0x5_6000));
}

#[test]
fn an_escape_domain_reaches_neither_alias() {
    let (mut mem, root) = x86_space();
    let d = escape_domain(&mut mem, root, 0x70_0000, HHDM);
    assert_eq!(x86::translate(&mem, d, 0x70_0000), None);
    assert_eq!(x86::translate(&mem, d, HHDM + 0x70_0000), None);
    assert_eq!(x86::translate(&mem, d, HHDM + 0x70_1000), Some(0x70_1000));
    assert_eq!(x86::translate(&mem, root, 0x70_0000), None);
    assert_eq!(x86::translate(&mem, root, HHDM + 0x70_0000), Some(0x70_0000));
}

#[test]
fn the_guard_page_check_looks_at_the_page_above() {
    let (mut mem, root) = x86_space();
    assert_eq!(verify_guard_page(&mut mem, root, 0x20_0000, HHDM), None);
    assert_eq!(x86::translate(&mem, root, HHDM + 0x20_0000), None);
    x86::map_page(&mut mem, root, HHDM + 0x40_1000, 0x40_1000, Prot::Ro);
    assert_eq!(
        verify_guard_page(&mut mem, root, 0x40_0000, HHDM),
        Some(GuardFault::NeighbourProtection)
    );
    x86::map_page(&mut mem, root, HHDM + 0x80_1000, 0x1000, Prot::Rw);
    assert_eq!(verify_guard_page(&mut mem, root, 0x80_0000, HHDM), Some(GuardFault::NeighbourMoved));
    x86::install_guard_page(&mut mem, root, HHDM + 0xa0_1000);
    assert_eq!(verify_guard_page(&mut mem, root, 0xa0_0000, HHDM), Some(GuardFault::NeighbourMoved));
}

#[test]
fn runs_of_pages_are_mapped_in_order() {
    let (mut mem, root) = x86_space();
    // From one window into the next.
    map_run::<x86::Pml4, TableArena>(&mut mem, root, 0x401f_e000, 0x900_0000, 4, Prot::Rw, None);
    for k in 0..4u64 {
        assert_eq!(x86::translate(&mem, root, 0x401f_e000 + k * 4096 + 5), Some(0x900_0000 + k * 4096 + 5));
    }
    assert_eq!(x86::translate(&mem, root, 0x401f_dfff), Some(0x401f_dfff));
    assert_eq!(x86::translate(&mem, root, 0x4020_2000), Some(0x4020_2000));
    map_run::<x86::Pml4, TableArena>(&mut mem, root, 0x5000_0000, 0, 0, Prot::Rw, None);
    assert_eq!(x86::translate(&mem, root, 0x5000_0000), Some(0x5000_0000));
}

#[test]
fn later_segments_cover_earlier_ones() {
    let (mut mem, root) = x86_space();
    let maps = vec![
        SegmentMap { index: 0, vaddr: 0x4000_0000, pfn: 0x500, pages: 3, prot: Prot::Rx },
        SegmentMap { index: 1, vaddr: 0x4000_2000, pfn: 0x600, pages: 1, prot: Prot::Rw },
    ];
    assert_eq!(tables_for_segments::<x86::Pml4, TableArena>(&mem, root, &maps), Some(1));
    map_segments::<x86::Pml4, TableArena>(&mut mem, root, &maps, None);
    assert_eq!(tables_for_segments::<x86::Pml4, TableArena>(&mem, root, &maps), Some(0));
    assert_eq!(x86::translate(&mem, root, 0x4000_1004), Some(0x50_1004));
    assert_eq!(x86::page_prot(&mem, root, 0x4000_1000), Some((false, true)));
    assert_eq!(x86::translate(&mem, root, 0x4000_2004), Some(0x60_0004));
    assert_eq!(x86::page_prot(&mem, root, 0x4000_2000), Some((true, false)));
    assert_eq!(x86::translate(&mem, root, 0x4000_3000), Some(0x4000_3000));
}

/// Whether every entry on the way to `va` has the user bit.
fn open_to_ring_3(mem: &TableArena, root: u64, va: u64) -> bool {
    let mut table = root;
    for level in [3, 2, 1, 0] {
        let e = mem.read_entry(table, table_index(va, level));
        if e & x86::USER == 0 {
            return false;
        }
        if e & x86::HUGE != 0 {
            return true;
        }
        table = e & x86::ADDR_MASK;
    }
    true
}

#[test]
fn segments_of_a_process_are_open_to_ring_3() {
    let (mut mem, base) = x86_space();
    let root = x86::new_process_space(&mut mem, base).primary;
    let maps = vec![
        SegmentMap { index: 0, vaddr: 0x401f_f000, pfn: 0x500, pages: 2, prot: Prot::Rx },
        SegmentMap { index: 1, vaddr: 0x4040_0000, pfn: 0x600, pages: 1, prot: Prot::Rw },
    ];
    assert_eq!(tables_for_segments::<x86::Pml4, TableArena>(&mem, root, &maps), Some(3));
    map_segments::<x86::Pml4, TableArena>(&mut mem, root, &maps, Some(3));
    for (va, pa, prot) in [
        (0x401f_f010u64, 0x50_0010u64, (false, true)),
        (0x4020_0010, 0x50_1010, (false, true)),
        (0x4040_0010, 0x60_0010, (true, false)),
    ] {
        assert_eq!(x86::translate(&mem, root, va), Some(pa));
        assert_eq!(x86::page_prot(&mem, root, va), Some(prot));
        assert!(open_to_ring_3(&mem, root, va));
        assert_eq!(x86::translate(&mem, base, va), Some(va));
        assert!(!open_to_ring_3(&mem, base, va));
    }
    assert!(!open_to_ring_3(&mem, root, 0x401f_e000));
    assert!(!open_to_ring_3(&mem, root, 0x4020_1000));
}

#[test]
fn windows_are_divisible_where_something_is_mapped_in_them() {
    let (mut mem, root) = x86_space();
    assert!(is_divisible::<x86::Pml4, TableArena>(&mem, root, 0x4012_3456));
    assert_eq!(tables_to_divide::<x86::Pml4, TableArena>(&mem, root, 0x4012_3456), 1);
    x86::map_page(&mut mem, root, 0x4012_3000, 0x9000, Prot::Rw);
    assert!(is_divisible::<x86::Pml4, TableArena>(&mem, root, 0x4012_3456));
    assert_eq!(tables_to_divide::<x86::Pml4, TableArena>(&mem, root, 0x4012_3456), 0);
    // Nothing is mapped above low memory.
    assert!(!is_divisible::<x86::Pml4, TableArena>(&mem, root, 0x1_0000_0000));
    assert!(!is_divisible::<x86::Pml4, TableArena>(&mem, root, 0x100_0000_0000));
    let mut bare = arena();
    let empty = bare.alloc_table();
    let one = vec![SegmentMap { index: 0, vaddr: 0x4000_0000, pfn: 0x500, pages: 1, prot: Prot::Rx }];
    assert_eq!(tables_for_segments::<x86::Pml4, TableArena>(&bare, empty, &one), None);
    assert_eq!(tables_for_segments::<x86::Pml4, TableArena>(&bare, empty, &Vec::new()), Some(0));
    // A page of 1 GiB is not divided.
    let middle = bare.alloc_table();
    bare.write_entry(empty, 0, middle | x86::PRESENT);
    bare.write_entry(middle, 1, 0x4000_0000 | x86::PRESENT | x86::HUGE);
    assert!(!is_divisible::<x86::Pml4, TableArena>(&bare, empty, 0x4000_0000));

    let (mem, s) = a64_space();
    assert!(is_divisible::<a64::Granule4K, TableArena>(&mem, s.secondary, 0x4000_0000));
    assert!(!is_divisible::<a64::Granule4K, TableArena>(&mem, s.primary, 0x4000_0000));
}

fn a64_space() -> (TableArena, AddressSpace) {
    let mut mem = arena();
    let s = a64::build_address_space(&mut mem, &map());
    (mem, s)
}

#[test]
fn aarch64_maps_each_half_under_its_own_root() {
    let (mem, s) = a64_space();
    assert_eq!(a64::translate(&mem, s.primary, HHDM + 0x4123_4567), Some(0x4123_4567));
    assert_eq!(a64::translate(&mem, s.primary, 0x4123_4567), None);
    assert_eq!(a64::translate(&mem, s.secondary, 0x4123_4567), Some(0x4123_4567));
    assert_eq!(a64::page_prot(&mem, s.primary, HHDM), Some((true, false)));
    assert_eq!(a64::page_prot(&mem, s.primary, VBASE), Some((false, true)));
    assert_eq!(a64::page_prot(&mem, s.primary, VBASE + 0x2000), Some((false, false)));
    assert_eq!(a64::page_prot(&mem, s.primary, VBASE + 0x3000), Some((true, false)));
}

#[test]
fn aarch64_pages_are_edited_one_by_one() {
    let (mut mem, s) = a64_space();
    a64::map_page(&mut mem, s.secondary, 0x4000_0000, 0x5000, Prot::Rx);
    assert_eq!(a64::translate(&mem, s.secondary, 0x4000_0001), Some(0x5001));
    assert_eq!(a64::page_prot(&mem, s.secondary, 0x4000_0000), Some((false, true)));
    // What EL0 executes, EL1 does not.
    a64::map_user_page(&mut mem, s.secondary, 0x4000_1000, 0x6000, Prot::Rx, 1);
    assert_eq!(a64::page_prot(&mem, s.secondary, 0x4000_1000), Some((false, false)));
    a64::install_guard_page(&mut mem, s.secondary, 0x4000_2000);
    assert_eq!(a64::translate(&mem, s.secondary, 0x4000_2000), None);
    a64::map_tagged(&mut mem, s.primary, HHDM + 0x7000);
    assert_eq!(a64::translate(&mem, s.primary, HHDM + 0x7123), Some(0x7123));
    assert_eq!(a64::page_prot(&mem, s.primary, HHDM + 0x7000), Some((true, false)));
    map_run::<a64::Granule4K, TableArena>(&mut mem, s.secondary, 0x4020_0000, 0x8000, 2, Prot::Ro, None);
    assert_eq!(a64::translate(&mem, s.secondary, 0x4020_1fff), Some(0x9fff));
}

#[test]
fn segments_of_a_process_are_open_to_el0() {
    let (mut mem, s) = a64_space();
    let maps = vec![
        SegmentMap { index: 0, vaddr: 0x4000_0000, pfn: 0x500, pages: 2, prot: Prot::Rx },
        SegmentMap { index: 1, vaddr: 0x4000_2000, pfn: 0x600, pages: 1, prot: Prot::Rw },
    ];
    map_segments::<a64::Granule4K, TableArena>(&mut mem, s.secondary, &maps, Some(1));
    assert_eq!(a64::translate(&mem, s.secondary, 0x4000_1010), Some(0x50_1010));
    // What EL0 executes, EL1 does not.
    assert_eq!(a64::page_prot(&mem, s.secondary, 0x4000_1000), Some((false, false)));
    assert_eq!(a64::page_prot(&mem, s.secondary, 0x4000_2000), Some((true, false)));
    map_segments::<a64::Granule4K, TableArena>(&mut mem, s.secondary, &maps, None);
    assert_eq!(a64::page_prot(&mem, s.secondary, 0x4000_1000), Some((false, true)));
}

#[test]
fn cache_lines_cover_the_bytes() {
    assert_eq!(a64::cache_line_sizes(0x0004_0003), (64, 32));
    assert_eq!(a64::cache_lines(0x1010, 0x80, 64), vec![0x1000, 0x1040, 0x1080]);
    assert_eq!(a64::cache_lines(0x1000, 64, 64), vec![0x1000]);
    assert_eq!(a64::cache_lines(0x1000, 0, 64), Vec::<u64>::new());
}

#[test]
fn keys_are_four_bits() {
    assert_eq!(pku::pkey_bits(1), 1 << 59);
    assert_eq!(pku::pkey_bits(0x1f), 0xf << 59);
    assert_eq!(pku::pkru_allow_only(0), 0x5555_5554);
    assert_eq!(pku::pkru_allow_only(1), 0x5555_5550);
    assert_eq!(pku::pkru_allow_only(15), 0x1555_5554);
    let mut p = pku::Pku::new();
    assert!(!pku::available(&p));
    assert_eq!(pku::set_domain(&p, Some(1)), None);
    assert_eq!(pku::init(&mut p, 0, 7), None);
    assert_eq!(pku::init(&mut p, 8, 7), Some(0x40_0007));
    assert!(pku::available(&p));
    assert_eq!(pku::set_domain(&p, Some(1)), Some(0x5555_5550));
    assert_eq!(pku::set_domain(&p, None), Some(0x5555_5554));
}

#[test]
fn tags_are_four_bits() {
    assert_eq!(mte::with_tag(0xffff_8000_0000_1000, 1), 0xf1ff_8000_0000_1000);
    assert_eq!(mte::with_tag(0x1000, 0x12), 0x0200_0000_0000_1000);
    assert_eq!(mte::tagged_sp(0x4020_1000, 3), 0x0300_0000_4020_1000);
    let r = mte::enable(mte::TagRegisters { mair: 0xff, tcr: 1 << 58, sctlr: 3 << 40 });
    assert_eq!(r, mte::TagRegisters { mair: 0xf0_00ff, tcr: 1 << 38, sctlr: (1 << 43) | (1 << 40) });
    assert_eq!(mte::enable(r), r);
}

#[test]
fn timers_have_a_floor() {
    assert_eq!(x86_timer::timer_count(100), 625_000);
    assert_eq!(x86_timer::timer_count(0), 62_500_000);
    assert_eq!(x86_timer::timer_count(u32::MAX), 10_000);
    assert_eq!(x86_timer::lapic_enabled(0xfee0_0100, 1), (0x1_fee0_0900, 0x1_fee0_0000));
    assert_eq!(a64_timer::timer_interval(62_500_000, 100), 625_000);
    assert_eq!(a64_timer::timer_interval(62_500_000, 0), 62_500_000);
    assert_eq!(a64_timer::timer_interval(10, 100), 1000);
}

#[test]
fn new_contexts_start_at_the_trampoline() {
    assert_eq!(x86_context::Context::empty().sp, 0);
    let (c, words) = x86_context::context_init(0x1_0008, 0xabc);
    assert_eq!(c.sp, 0x1_0000 - 56);
    assert_eq!(words, [0, 0, 0, 0, 0, 0, 0xabc]);
    let (c, words) = a64_context::context_init(0x1_0008, 0xabc);
    assert_eq!(c.sp, 0x1_0000 - 96);
    assert_eq!(words, [0, 0xabc, 0, 0, 0, 0, 0, 0, 0, 0, 0, 0]);
    assert_eq!(a64_context::Context::empty().sp, 0);
}

#[test]
fn traps_are_told_apart() {
    let frame = [0u64, 0x1_0000_0003, 0x1_0020, 5, 6, 7, 8, 0, 0, 0];
    let inv = x86_trap::decode_syscall(&frame).unwrap();
    assert_eq!((inv.cptr, inv.op, inv.args), (3, 0x20, [5, 6, 7, 8]));
    let mut bad = frame;
    bad[0] = 9;
    assert_eq!(x86_trap::decode_syscall(&bad), Err(9));
    let mut regs = [0u64; 31];
    regs[0] = 3;
    regs[1] = 0x21;
    regs[2] = 44;
    match a64_trap::el0_sync_event(0x15 << 26, 0, &regs) {
        a64_trap::El0Event::Syscall(inv) => assert_eq!((inv.cptr, inv.op, inv.args), (3, 0x21, [44, 0, 0, 0])),
        other => panic!("{:?}", other),
    }
    regs[8] = 1;
    assert_eq!(a64_trap::el0_sync_event(0x15 << 26, 0, &regs), a64_trap::El0Event::BadSelector(1));
    assert_eq!(a64_trap::el0_sync_event(0x24 << 26, 0x99, &regs), a64_trap::El0Event::DataAbort(0x99));
    assert_eq!(a64_trap::el0_sync_event(0x20 << 26, 0x99, &regs), a64_trap::El0Event::InstructionAbort(0x99));
    assert_eq!(a64_trap::el0_sync_event(0x3c << 26, 0, &regs), a64_trap::El0Event::Unexpected(0x3c));
    assert_eq!(a64_trap::irq_action(0x400 | 30), a64_trap::IrqAction::Tick);
    assert_eq!(a64_trap::irq_action(33), a64_trap::IrqAction::End(33));
    assert_eq!(a64_trap::irq_action(1023), a64_trap::IrqAction::Nothing);
    assert_eq!(a64_trap::enable_bit(30), (0x100, 1 << 30));
    assert_eq!(a64_trap::enable_bit(33), (0x104, 2));
}

#[test]
fn an_expected_fault_is_forgiven_once() {
    let mut e = x86_trap::ExpectedFault::none();
    assert_eq!(e.expected_fault_resume(0), None);
    e.arm(0x5000, 0x42);
    assert_eq!(e.expected_fault_resume(0x6000), None);
    assert_eq!(e.expected_fault_resume(0x5000), Some(0x42));
    assert_eq!(e.expected_fault_resume(0x5000), None);
    e.arm(0x5000, 0x42);
    e.disarm();
    assert_eq!(e.expected_fault_resume(0x5000), None);
}

#[test]
fn guard_faults_are_told_apart() {
    let rw = Some((true, false));
    assert_eq!(guard_fault(None, Some(0x2000), rw, 0x2000), None);
    assert_eq!(
        guard_fault(Some(0x1000), Some(0x2000), rw, 0x2000),
        Some(GuardFault::StillMapped)
    );
    assert_eq!(guard_fault(None, Some(0x3000), rw, 0x2000), Some(GuardFault::NeighbourMoved));
    assert_eq!(guard_fault(None, None, rw, 0x2000), Some(GuardFault::NeighbourMoved));
    assert_eq!(
        guard_fault(None, Some(0x2000), Some((true, true)), 0x2000),
        Some(GuardFault::NeighbourProtection)
    );
    assert_eq!(guard_fault(None, Some(0x2000), None, 0x2000), Some(GuardFault::NeighbourProtection));
}
