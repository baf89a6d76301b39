//! What the boot loader hands over: the memory map. It is not trusted.

use vstd::prelude::*;

verus! {

/// The number of regions that are looked at, whatever count the map claims.
pub const MAX_REGIONS: u64 = 1024;

/// The number of regions that are listed one by one.
pub const MAX_DUMP_ROWS: u64 = 32;

/// What a region of memory is for, as a number that may be anything.
#[derive(Clone, Copy, PartialEq, Eq, Structural, Debug)]
pub struct MemoryKind {
    pub code: u32,
}

impl MemoryKind {
    /// Free RAM.
    pub fn usable() -> (k: MemoryKind)
        ensures
            k.code == 0,
    {
        MemoryKind { code: 0 }
    }
}

/// A region of physical memory.
#[derive(Clone, Copy, PartialEq, Eq, Structural, Debug)]
pub struct MemRegion {
    /// Its address.
    pub base: u64,
    /// The number of its pages.
    pub pages: u64,
    /// What it is for.
    pub kind: MemoryKind,
}

/// The label of a kind, as a value of the model.
pub open spec fn kind_label(code: u32) -> Seq<char> {
    if code == 0 {
        "USABLE"@
    } else if code == 1 {
        "RESERVED"@
    } else if code == 2 {
        "ACPI_RECLAIM"@
    } else if code == 3 {
        "ACPI_NVS"@
    } else if code == 4 {
        "MMIO"@
    } else if code == 5 {
        "BOOT_RECLAIM"@
    } else if code == 6 {
        "KERNEL+MODULES"@
    } else if code == 7 {
        "FRAMEBUFFER"@
    } else if code == 8 {
        "BAD_MEMORY"@
    } else {
        "UNKNOWN"@
    }
}

/// A short label for a kind, known or not.
pub fn kind_name(k: MemoryKind) -> (s: &'static str)
    ensures
        s@ == kind_label(k.code),
{
    match k.code {
        0 => "USABLE",
        1 => "RESERVED",
        2 => "ACPI_RECLAIM",
        3 => "ACPI_NVS",
        4 => "MMIO",
        5 => "BOOT_RECLAIM",
        6 => "KERNEL+MODULES",
        7 => "FRAMEBUFFER",
        8 => "BAD_MEMORY",
        _ => "UNKNOWN",
    }
}

/// The number of regions to walk.
pub fn bounded_count(count: u64) -> (n: u64)
    ensures
        n == (if count > MAX_REGIONS {
            MAX_REGIONS
        } else {
            count
        }),
{
    if count > MAX_REGIONS {
        MAX_REGIONS
    } else {
        count
    }
}

/// Does the address of an array of records of alignment `align`, a power of two, fit that
/// alignment?
pub fn is_aligned(addr: u64, align: u64) -> (b: bool)
    requires
        align > 0,
    ensures
        b == (addr % align == 0),
{
    addr % align == 0
}

/// What is wrong with a pointer that was handed over.
#[derive(Clone, Copy, PartialEq, Eq, Structural, Debug)]
pub enum PointerFault {
    /// It points nowhere.
    Null,
    /// It points to where no such record can be.
    Misaligned,
}

/// What is wrong with a pointer to a record of alignment `align`, before it is followed.
pub fn check_pointer(addr: u64, align: u64) -> (r: Option<PointerFault>)
    requires
        align > 0,
    ensures
        r == (if addr == 0 {
            Some(PointerFault::Null)
        } else if addr % align != 0 {
            Some(PointerFault::Misaligned)
        } else {
            None
        }),
{
    if addr == 0 {
        Some(PointerFault::Null)
    } else if !is_aligned(addr, align) {
        Some(PointerFault::Misaligned)
    } else {
        None
    }
}

/// The array of regions.
#[derive(Clone, Copy, PartialEq, Eq, Structural, Debug)]
pub enum RegionArray {
    /// There is none.
    Empty,
    /// It is where no array of regions can be.
    Misaligned,
    /// It is at this virtual address.
    At {
        virt: u64,
        /// The number of regions to walk.
        walk: u64,
        /// The map claims more regions than that.
        truncated: bool,
    },
}

/// Where the array of `count` regions at physical address `regions` is seen, from `hhdm` on, and how
/// much of it is walked.
pub fn region_array(regions: u64, count: u64, hhdm: u64, align: u64) -> (r: RegionArray)
    requires
        align > 0,
    ensures
        ({
            let virt = ((regions + hhdm) % 0x1_0000_0000_0000_0000) as u64;
            r == (if regions == 0 || count == 0 {
                RegionArray::Empty
            } else if virt % align != 0 {
                RegionArray::Misaligned
            } else {
                RegionArray::At {
                    virt,
                    walk: if count > MAX_REGIONS {
                        MAX_REGIONS
                    } else {
                        count
                    },
                    truncated: count > MAX_REGIONS,
                }
            })
        }),
{
    if regions == 0 || count == 0 {
        return RegionArray::Empty;
    }
    let virt: u64 = regions.wrapping_add(hhdm);
    if !is_aligned(virt, align) {
        return RegionArray::Misaligned;
    }
    RegionArray::At { virt, walk: bounded_count(count), truncated: count > MAX_REGIONS }
}

/// The pages of usable memory in the first `n` regions, or `u64::MAX` where that is too large.
pub open spec fn usable_pages(regions: Seq<MemRegion>, n: int) -> int
    decreases n,
{
    if n <= 0 {
        0
    } else if regions[n - 1].kind.code != 0 {
        usable_pages(regions, n - 1)
    } else if usable_pages(regions, n - 1) + regions[n - 1].pages > u64::MAX {
        u64::MAX as int
    } else {
        usable_pages(regions, n - 1) + regions[n - 1].pages
    }
}

/// The size of the usable memory.
#[derive(Clone, Copy, PartialEq, Eq, Structural, Debug)]
pub struct MemmapSummary {
    /// In pages.
    pub usable_pages: u64,
    /// In MiB.
    pub usable_mib: u64,
}

/// Add up the usable memory; a corrupt region saturates the sum.
pub fn summarize(regions: &[MemRegion]) -> (s: MemmapSummary)
    ensures
        s.usable_pages == usable_pages(regions@, regions@.len() as int),
        s.usable_mib == (if s.usable_pages * 4096 > u64::MAX {
            u64::MAX as int / 1048576
        } else {
            s.usable_pages * 4096 / 1048576
        }),
{
    let mut pages: u64 = 0;
    let mut i: usize = 0;
    while i < regions.len()
        invariant
            i <= regions@.len(),
            pages == usable_pages(regions@, i as int),
        decreases regions@.len() - i,
    {
        if regions[i].kind.code == 0 {
            pages = pages.saturating_add(regions[i].pages);
        }
        i = i + 1;
    }
    let bytes: u64 = match pages.checked_mul(4096) {
        Some(b) => b,
        None => u64::MAX,
    };
    MemmapSummary { usable_pages: pages, usable_mib: bytes / 1048576 }
}

/// What is printed for row `i` of `walk` regions.
#[derive(Clone, Copy, PartialEq, Eq, Structural, Debug)]
pub enum DumpRow {
    /// The region.
    Region,
    /// That there are this many more.
    More(u64),
    /// Nothing.
    Skip,
}

/// The first rows are listed one by one, the others counted.
pub fn dump_row(i: u64, walk: u64) -> (r: DumpRow)
    requires
        i < walk,
    ensures
        r == (if i < MAX_DUMP_ROWS {
            DumpRow::Region
        } else if i == MAX_DUMP_ROWS {
            DumpRow::More((walk - MAX_DUMP_ROWS) as u64)
        } else {
            DumpRow::Skip
        }),
{
    if i < MAX_DUMP_ROWS {
        DumpRow::Region
    } else if i == MAX_DUMP_ROWS {
        DumpRow::More(walk - MAX_DUMP_ROWS)
    } else {
        DumpRow::Skip
    }
}


/// **Law:** free RAM counts and nothing else: a region adds its pages if its kind is 0, up to the
/// largest number that can be counted, and none otherwise.
pub proof fn law_only_free_ram_counts(regions: Seq<MemRegion>, r: MemRegion)
    ensures
        ({
            let n = regions.len() as int;
            let before = usable_pages(regions, n);
            let after = usable_pages(regions.push(r), n + 1);
            &&& usable_pages(Seq::empty(), 0) == 0
            &&& r.kind.code != 0 ==> after == before
            &&& r.kind.code == 0 && before + r.pages <= 0xffff_ffff_ffff_ffff ==> after == before
                + r.pages
            &&& r.kind.code == 0 && before + r.pages > 0xffff_ffff_ffff_ffff ==> after
                == 0xffff_ffff_ffff_ffff
        }),
{
    lemma_pages_of_prefix(regions, regions.push(r), regions.len() as int);
}

proof fn lemma_pages_of_prefix(a: Seq<MemRegion>, b: Seq<MemRegion>, n: int)
    requires
        n <= a.len() <= b.len(),
        forall|i: int| 0 <= i < n ==> #[trigger] a[i] == b[i],
    ensures
        usable_pages(a, n) == usable_pages(b, n),
    decreases n,
{
    if n > 0 {
        lemma_pages_of_prefix(a, b, n - 1);
    }
}


/// **Law:** only free RAM is called usable, and only what has no name of its own unknown.
pub proof fn law_labels_tell_what_memory_is(code: u32)
    ensures
        (kind_label(code) == "USABLE"@) == (code == 0),
        (kind_label(code) == "KERNEL+MODULES"@) == (code == 6),
        (kind_label(code) == "BAD_MEMORY"@) == (code == 8),
        (kind_label(code) == "UNKNOWN"@) == (code > 8),
{
    reveal_strlit("USABLE");
    reveal_strlit("RESERVED");
    reveal_strlit("ACPI_RECLAIM");
    reveal_strlit("ACPI_NVS");
    reveal_strlit("MMIO");
    reveal_strlit("BOOT_RECLAIM");
    reveal_strlit("KERNEL+MODULES");
    reveal_strlit("FRAMEBUFFER");
    reveal_strlit("BAD_MEMORY");
    reveal_strlit("UNKNOWN");
    assert("USABLE"@.len() == 6 && "UNKNOWN"@.len() == 7 && "BAD_MEMORY"@.len() == 10
        && "KERNEL+MODULES"@.len() == 14);
}

} // verus!
