//! Building an address space: low memory in pages of 2 MiB, and the kernel's image in pages of
//! 4 KiB, each with the protection of its section.

use vstd::prelude::*;

use crate::kernel::arch::tables;
use crate::kernel::arch::tables::{table_index, Format, Mapping, TableMemory, PAGE};
use crate::kernel::arch::{KernelMap, Prot};

verus! {

/// Bytes of 1 GiB.
pub const GIB: u64 = 0x4000_0000;

/// The most low memory that one entry of the root covers.
pub const LOW_LIMIT: u64 = 0x80_0000_0000;

/// The whole GiB that `bytes` take.
pub open spec fn gib_count(bytes: u64) -> int {
    (bytes + 0x3fff_ffff) / 0x4000_0000
}

/// The physical address of `va` in a map of low memory.
pub open spec fn low_phys(va: u64) -> int {
    va as int % 0x80_0000_0000
}

/// Where the first `bytes` of low memory have `va`, in whole GiB.
pub open spec fn low_mapping<F: Format>(bytes: u64, va: u64) -> Option<Mapping> {
    let pa = low_phys(va);
    if pa / 0x4000_0000 < gib_count(bytes) {
        Some(Mapping { phys: pa, attrs: F::attrs(F::block((pa - pa % 0x20_0000) as u64)) })
    } else {
        None
    }
}

/// The protection of page `v` of the kernel's image: code is executed, data is written, and the rest
/// is only read.
pub open spec fn section_prot_spec(km: KernelMap, v: int) -> Prot {
    if km.text.0 <= v < km.text.1 {
        Prot::Rx
    } else if km.data.0 <= v < km.data.1 {
        Prot::Rw
    } else {
        Prot::Ro
    }
}

/// Where the kernel's image has `va`.
pub open spec fn kernel_mapping<F: Format>(km: KernelMap, va: u64) -> Option<Mapping> {
    let off = va as int % 0x20_0000;
    let page = off - off % 4096;
    if tables::index(va, 2) == tables::index(km.kernel_vbase, 2) && tables::index(va, 1)
        == tables::index(km.kernel_vbase, 1) && off < km.kernel_vend - km.kernel_vbase {
        Some(
            Mapping {
                phys: km.kernel_phys + off,
                attrs: F::attrs(
                    F::page(
                        (km.kernel_phys + page) as u64,
                        section_prot_spec(km, km.kernel_vbase + page),
                    ),
                ),
            },
        )
    } else {
        None
    }
}

/// The image is within one 2 MiB window, in whole pages, at an address that tables can hold.
pub open spec fn image_fits(km: KernelMap) -> bool {
    &&& km.kernel_vbase % 0x20_0000 == 0
    &&& km.kernel_vbase <= km.kernel_vend
    &&& km.kernel_vend % 4096 == 0
    &&& km.kernel_vend - km.kernel_vbase <= 0x20_0000
    &&& km.kernel_phys % 4096 == 0
    &&& km.kernel_phys + 0x20_0000 <= 0x1_0000_0000_0000
}

/// The tables that a map of `bytes` of low memory takes.
pub open spec fn low_tables(bytes: u64) -> int {
    1 + gib_count(bytes)
}

/// The first address for which walks take these entries.
spec fn address_of(i: int, g: int, j: int) -> u64 {
    (i * 0x80_0000_0000 + g * 0x4000_0000 + j * 0x20_0000) as u64
}

proof fn lemma_address_of(i: int, g: int, j: int)
    requires
        0 <= i < 512,
        0 <= g < 512,
        0 <= j < 512,
    ensures
        tables::index(address_of(i, g, j), 3) == i,
        tables::index(address_of(i, g, j), 2) == g,
        tables::index(address_of(i, g, j), 1) == j,
{
    let v = address_of(i, g, j) as int;
    assert(v / 0x80_0000_0000 == i);
    assert(v / 0x4000_0000 == i * 512 + g);
    assert(v / 0x20_0000 == (i * 512 + g) * 512 + j);
}

/// Addresses in one window of 2 MiB take the same entries above it.
proof fn lemma_same_window(a: u64, b: u64)
    requires
        a / 0x20_0000 == b / 0x20_0000,
    ensures
        tables::same_path(a, b, 0),
{
    assert(a / 0x4000_0000 == a / 0x20_0000 / 512);
    assert(b / 0x4000_0000 == b / 0x20_0000 / 512);
    assert(a / 0x80_0000_0000 == a / 0x4000_0000 / 512);
    assert(b / 0x80_0000_0000 == b / 0x4000_0000 / 512);
}

/// The page within a window of 2 MiB.
proof fn lemma_page_index(va: u64)
    ensures
        tables::index(va, 0) == va as int % 0x20_0000 / 4096,
{
    let q = va as int / 0x20_0000;
    let r = va as int % 0x20_0000;
    assert(va as int / 4096 == q * 512 + r / 4096);
}

proof fn lemma_low_parts(va: u64)
    ensures
        low_phys(va) == tables::index(va, 2) * 0x4000_0000 + tables::index(va, 1) * 0x20_0000 + va
            % 0x20_0000,
        low_phys(va) / 0x4000_0000 == tables::index(va, 2),
        low_phys(va) - low_phys(va) % 0x20_0000 == tables::index(va, 2) * 0x4000_0000
            + tables::index(va, 1) * 0x20_0000,
{
}

/// The protection of page `v` of the kernel's image.
pub fn section_prot(km: &KernelMap, v: u64) -> (prot: Prot)
    ensures
        prot == section_prot_spec(*km, v as int),
{
    if km.text.0 <= v && v < km.text.1 {
        Prot::Rx
    } else if km.data.0 <= v && v < km.data.1 {
        Prot::Rw
    } else {
        Prot::Ro
    }
}

/// A new table for the entry that walks for `v` take at `level`, with nothing mapped in it.
fn add_table<F: Format, M: TableMemory>(
    mem: &mut M,
    root: u64,
    t: u64,
    index: usize,
    Ghost(v): Ghost<u64>,
    Ghost(level): Ghost<int>,
) -> (c: u64)
    requires
        tables::well_formed::<F>(old(mem).tables(), root),
        1 <= level <= 3,
        tables::table_on_path::<F>(old(mem).tables(), root, v, level) == Some(t),
        index == tables::index(v, level),
        old(mem).room() > 0,
    ensures
        tables::well_formed::<F>(final(mem).tables(), root),
        final(mem).room() == old(mem).room() - 1,
        !old(mem).tables().contains_key(c),
        forall|va: u64| #[trigger]
            tables::mapping::<F>(final(mem).tables(), root, va) == (if tables::hits(va, v, level) {
                None
            } else {
                tables::mapping::<F>(old(mem).tables(), root, va)
            }),
        forall|va: u64, k: int|
            level <= k <= 3 ==> #[trigger] tables::below::<F>(final(mem).tables(), root, 3, va, k)
                == tables::below::<F>(old(mem).tables(), root, 3, va, k),
        forall|va: u64|
            tables::hits(va, v, level) ==> #[trigger] tables::below::<F>(
                final(mem).tables(),
                root,
                3,
                va,
                level - 1,
            ) == Some(c),
        forall|x: u64| #[trigger]
            old(mem).tables().contains_key(x) && x != t ==> final(mem).tables().contains_key(x)
                && final(mem).tables()[x] == old(mem).tables()[x],
{
    let ghost m = mem.tables();
    let ghost zeros = Seq::new(512, |i: int| 0u64);
    let c: u64 = mem.alloc_table();
    let ghost m1 = mem.tables();
    proof {
        assert(tables::below::<F>(m, root, 3, v, level) == Some(t));
        tables::lemma_add_table::<F>(m, root, c, zeros);
        assert(tables::below::<F>(m1, root, 3, v, level) == Some(t));
        F::links(level, c);
        assert forall|i: int| 0 <= i < 512 implies F::step(level - 1, #[trigger] m1[c][i])
            !is Table by {
            F::steps(level - 1, 0);
        }
        tables::lemma_link::<F>(m1, root, v, level, F::link(c), c);
    }
    mem.write_entry(t, index, F::link_entry(c));
    proof {
        let n = mem.tables();
        assert forall|va: u64| #[trigger]
            tables::mapping::<F>(n, root, va) == (if tables::hits(va, v, level) {
                None
            } else {
                tables::mapping::<F>(m, root, va)
            }) by {
            F::steps(level - 1, 0);
            assert(tables::walk::<F>(m1, root, 3, va) == tables::walk::<F>(m, root, 3, va));
            assert(0 <= tables::index(va, level - 1) < 512);
        }
    }
    c
}

/// What is mapped while low memory is being mapped under entry `i` of the root: `g` GiB and `j`
/// pages of 2 MiB.
spec fn low_so_far<F: Format>(
    m: Map<u64, Seq<u64>>,
    root: u64,
    i: int,
    g: int,
    j: int,
    va: u64,
) -> Option<Mapping> {
    if tables::index(va, 3) != i {
        tables::mapping::<F>(m, root, va)
    } else if tables::index(va, 2) < g || (tables::index(va, 2) == g && tables::index(va, 1) < j) {
        let pa = low_phys(va);
        Some(Mapping { phys: pa, attrs: F::attrs(F::block((pa - pa % 0x20_0000) as u64)) })
    } else {
        None
    }
}

/// Map the first `bytes` of low memory under entry `i` of the root.
pub fn map_low<F: Format, M: TableMemory>(mem: &mut M, root: u64, i: usize, bytes: u64)
    requires
        tables::well_formed::<F>(old(mem).tables(), root),
        i < 512,
        bytes <= LOW_LIMIT,
        old(mem).room() >= low_tables(bytes),
    ensures
        tables::well_formed::<F>(final(mem).tables(), root),
        final(mem).room() == old(mem).room() - low_tables(bytes),
        forall|va: u64| #[trigger]
            tables::mapping::<F>(final(mem).tables(), root, va) == (if tables::index(va, 3) == i {
                low_mapping::<F>(bytes, va)
            } else {
                tables::mapping::<F>(old(mem).tables(), root, va)
            }),
        forall|x: u64| #[trigger]
            old(mem).tables().contains_key(x) && x != root ==> final(mem).tables().contains_key(x)
                && final(mem).tables()[x] == old(mem).tables()[x],
{
    let ghost m = mem.tables();
    let ghost room = mem.room();
    let ghost top = address_of(i as int, 0, 0);
    proof {
        lemma_address_of(i as int, 0, 0);
    }
    let l1: u64 = add_table::<F, M>(mem, root, root, i, Ghost(top), Ghost(3));
    let n: u64 = (bytes + (GIB - 1)) / GIB;
    let mut g: u64 = 0;
    while g < n
        invariant
            g <= n <= 512,
            i < 512,
            n == gib_count(bytes),
            room >= low_tables(bytes),
            mem.room() == room - 1 - g,
            !m.contains_key(l1),
            tables::well_formed::<F>(mem.tables(), root),
            forall|va: u64|
                tables::index(va, 3) == i ==> #[trigger] tables::below::<F>(
                    mem.tables(),
                    root,
                    3,
                    va,
                    2,
                ) == Some(l1),
            forall|va: u64| #[trigger]
                tables::mapping::<F>(mem.tables(), root, va) == low_so_far::<F>(
                    m,
                    root,
                    i as int,
                    g as int,
                    0,
                    va,
                ),
            forall|x: u64| #[trigger]
                m.contains_key(x) && x != root ==> mem.tables().contains_key(x) && mem.tables()[x]
                    == m[x],
        decreases n - g,
    {
        let ghost before = mem.tables();
        let ghost start = address_of(i as int, g as int, 0);
        proof {
            lemma_address_of(i as int, g as int, 0);
            assert(tables::below::<F>(before, root, 3, start, 2) == Some(l1));
            assert(tables::below::<F>(before, root, 3, start, 3) == Some(root));
        }
        let pd: u64 = add_table::<F, M>(mem, root, l1, g as usize, Ghost(start), Ghost(2));
        proof {
            assert forall|va: u64| #[trigger]
                tables::mapping::<F>(mem.tables(), root, va) == low_so_far::<F>(
                    m,
                    root,
                    i as int,
                    g as int,
                    0,
                    va,
                ) by {
                assert(tables::mapping::<F>(before, root, va) == low_so_far::<F>(
                    m,
                    root,
                    i as int,
                    g as int,
                    0,
                    va,
                ));
            }
        }
        let mut j: u64 = 0;
        while j < 512
            invariant
                g < n <= 512,
                j <= 512,
                i < 512,
                mem.room() == room - 2 - g,
                !m.contains_key(l1),
                !m.contains_key(pd),
                tables::well_formed::<F>(mem.tables(), root),
                forall|va: u64|
                    tables::index(va, 3) == i ==> #[trigger] tables::below::<F>(
                        mem.tables(),
                        root,
                        3,
                        va,
                        2,
                    ) == Some(l1),
                forall|va: u64|
                    tables::index(va, 3) == i && tables::index(va, 2) == g
                        ==> #[trigger] tables::below::<F>(mem.tables(), root, 3, va, 1) == Some(pd),
                forall|va: u64| #[trigger]
                    tables::mapping::<F>(mem.tables(), root, va) == low_so_far::<F>(
                        m,
                        root,
                        i as int,
                        g as int,
                        j as int,
                        va,
                    ),
                forall|x: u64| #[trigger]
                    m.contains_key(x) && x != root ==> mem.tables().contains_key(x)
                        && mem.tables()[x] == m[x],
            decreases 512 - j,
        {
            let ghost cur = mem.tables();
            let ghost at = address_of(i as int, g as int, j as int);
            assert((g << 30) | (j << 21) == g * 0x4000_0000 + j * 0x20_0000) by (bit_vector)
                requires
                    g < 512,
                    j < 512,
            ;
            let pa: u64 = (g << 30) | (j << 21);
            proof {
                lemma_address_of(i as int, g as int, j as int);
                assert(tables::below::<F>(cur, root, 3, at, 1) == Some(pd));
                F::pages(pa, Prot::Ro);
                tables::lemma_write_page::<F>(cur, root, at, 1, F::block(pa));
            }
            mem.write_entry(pd, j as usize, F::block_entry(pa));
            proof {
                let next = mem.tables();
                assert forall|va: u64| #[trigger]
                    tables::mapping::<F>(next, root, va) == low_so_far::<F>(
                        m,
                        root,
                        i as int,
                        g as int,
                        j + 1,
                        va,
                    ) by {
                    assert(tables::mapping::<F>(cur, root, va) == low_so_far::<F>(
                        m,
                        root,
                        i as int,
                        g as int,
                        j as int,
                        va,
                    ));
                    F::steps(1, 0);
                    lemma_low_parts(va);
                }
            }
            j = j + 1;
        }
        g = g + 1;
        proof {
            assert forall|va: u64| #[trigger]
                tables::mapping::<F>(mem.tables(), root, va) == low_so_far::<F>(
                    m,
                    root,
                    i as int,
                    g as int,
                    0,
                    va,
                ) by {
                assert(tables::mapping::<F>(mem.tables(), root, va) == low_so_far::<F>(
                    m,
                    root,
                    i as int,
                    g - 1,
                    512,
                    va,
                ));
            }
        }
    }
    proof {
        assert forall|va: u64| #[trigger]
            tables::mapping::<F>(mem.tables(), root, va) == (if tables::index(va, 3) == i {
                low_mapping::<F>(bytes, va)
            } else {
                tables::mapping::<F>(m, root, va)
            }) by {
            assert(tables::mapping::<F>(mem.tables(), root, va) == low_so_far::<F>(
                m,
                root,
                i as int,
                n as int,
                0,
                va,
            ));
            lemma_low_parts(va);
        }
    }
}

/// What is mapped while the pages of the kernel's image below `v` are.
#[verifier::opaque]
spec fn kernel_so_far<F: Format>(
    m: Map<u64, Seq<u64>>,
    root: u64,
    km: KernelMap,
    v: int,
    va: u64,
) -> Option<Mapping> {
    if tables::index(va, 3) != tables::index(km.kernel_vbase, 3) {
        tables::mapping::<F>(m, root, va)
    } else if va as int % 0x20_0000 < v - km.kernel_vbase {
        kernel_mapping::<F>(km, va)
    } else {
        None
    }
}

/// Map the kernel's image.
#[verifier::rlimit(60)]
#[verifier::spinoff_prover]
pub fn map_kernel<F: Format, M: TableMemory>(mem: &mut M, root: u64, km: &KernelMap)
    requires
        tables::well_formed::<F>(old(mem).tables(), root),
        image_fits(*km),
        old(mem).room() >= 3,
    ensures
        tables::well_formed::<F>(final(mem).tables(), root),
        final(mem).room() == old(mem).room() - 3,
        forall|va: u64| #[trigger]
            tables::mapping::<F>(final(mem).tables(), root, va) == (if tables::index(va, 3)
                == tables::index(km.kernel_vbase, 3) {
                kernel_mapping::<F>(*km, va)
            } else {
                tables::mapping::<F>(old(mem).tables(), root, va)
            }),
        forall|x: u64| #[trigger]
            old(mem).tables().contains_key(x) && x != root ==> final(mem).tables().contains_key(x)
                && final(mem).tables()[x] == old(mem).tables()[x],
{
    let ghost m = mem.tables();
    let vbase: u64 = km.kernel_vbase;
    let l2: u64 = add_table::<F, M>(
        mem,
        root,
        root,
        table_index(vbase, 3),
        Ghost(vbase),
        Ghost(3),
    );
    assert(tables::below::<F>(mem.tables(), root, 3, vbase, 2) == Some(l2));
    assert(tables::below::<F>(mem.tables(), root, 3, vbase, 3) == Some(root));
    let ghost m1 = mem.tables();
    let l1: u64 = add_table::<F, M>(
        mem,
        root,
        l2,
        table_index(vbase, 2),
        Ghost(vbase),
        Ghost(2),
    );
    assert(tables::below::<F>(mem.tables(), root, 3, vbase, 1) == Some(l1));
    assert(tables::below::<F>(mem.tables(), root, 3, vbase, 3) == Some(root));
    let ghost m2 = mem.tables();
    let l0: u64 = add_table::<F, M>(
        mem,
        root,
        l1,
        table_index(vbase, 1),
        Ghost(vbase),
        Ghost(1),
    );
    proof {
        assert forall|va: u64| #[trigger]
            tables::mapping::<F>(mem.tables(), root, va) == kernel_so_far::<F>(
                m,
                root,
                *km,
                vbase as int,
                va,
            ) by {
            reveal(kernel_so_far);
            assert(tables::mapping::<F>(m2, root, va) == (if tables::hits(va, vbase, 2) {
                None
            } else {
                tables::mapping::<F>(m1, root, va)
            }));
        }
    }
    let mut v: u64 = vbase;
    while v < km.kernel_vend
        invariant
            image_fits(*km),
            vbase == km.kernel_vbase,
            vbase <= v <= km.kernel_vend,
            v % 4096 == 0,
            mem.room() == old(mem).room() - 3,
            !m.contains_key(l0),
            m.contains_key(root),
            tables::well_formed::<F>(mem.tables(), root),
            forall|va: u64|
                tables::hits(va, vbase, 1) ==> #[trigger] tables::below::<F>(
                    mem.tables(),
                    root,
                    3,
                    va,
                    0,
                ) == Some(l0),
            forall|va: u64| #[trigger]
                tables::mapping::<F>(mem.tables(), root, va) == kernel_so_far::<F>(
                    m,
                    root,
                    *km,
                    v as int,
                    va,
                ),
            forall|x: u64| #[trigger]
                m.contains_key(x) && x != root ==> mem.tables().contains_key(x) && mem.tables()[x]
                    == m[x],
        decreases km.kernel_vend - v,
    {
        let ghost cur = mem.tables();
        let pa: u64 = km.kernel_phys + (v - vbase);
        let prot: Prot = section_prot(km, v);
        proof {
            lemma_window(*km, v);
            assert(tables::below::<F>(cur, root, 3, v, 0) == Some(l0));
            F::pages(pa, prot);
            lemma_kernel_page::<F>(m, cur, root, *km, v, pa, prot);
        }
        mem.write_entry(l0, table_index(v, 0), F::page_entry(pa, prot));
        assert(v + 4096 <= km.kernel_vend);
        v = v + PAGE;
    }
    proof {
        lemma_whole_image::<F>(m, mem.tables(), root, *km);
    }
}

/// The image is mapped once all its pages are.
proof fn lemma_whole_image<F: Format>(
    m: Map<u64, Seq<u64>>,
    n: Map<u64, Seq<u64>>,
    root: u64,
    km: KernelMap,
)
    requires
        forall|va: u64| #[trigger]
            tables::mapping::<F>(n, root, va) == kernel_so_far::<F>(
                m,
                root,
                km,
                km.kernel_vend as int,
                va,
            ),
    ensures
        forall|va: u64| #[trigger]
            tables::mapping::<F>(n, root, va) == (if tables::index(va, 3) == tables::index(
                km.kernel_vbase,
                3,
            ) {
                kernel_mapping::<F>(km, va)
            } else {
                tables::mapping::<F>(m, root, va)
            }),
{
    reveal(kernel_so_far);
}

/// The pages of the image are in the window of its base.
pub(crate) proof fn lemma_window(km: KernelMap, v: u64)
    requires
        image_fits(km),
        km.kernel_vbase <= v < km.kernel_vend,
    ensures
        tables::hits(v, km.kernel_vbase, 1),
        v as int % 0x20_0000 == v - km.kernel_vbase,
{
    assert(v / 0x20_0000 == km.kernel_vbase / 0x20_0000);
    lemma_same_window(v, km.kernel_vbase);
}

/// Addresses of a page in the window of the image.
proof fn lemma_in_window(km: KernelMap, v: u64, va: u64)
    requires
        image_fits(km),
        km.kernel_vbase <= v < km.kernel_vend,
        v % 4096 == 0,
    ensures
        tables::hits(va, v, 0) <==> tables::hits(va, km.kernel_vbase, 1) && v - km.kernel_vbase
            <= va as int % 0x20_0000 < v - km.kernel_vbase + 4096,
{
    lemma_window(km, v);
    lemma_page_index(v);
    lemma_page_index(va);
    let off = v - km.kernel_vbase;
    assert(off % 4096 == 0);
}

/// One more page of the image.
#[verifier::rlimit(40)]
proof fn lemma_kernel_page<F: Format>(
    m: Map<u64, Seq<u64>>,
    cur: Map<u64, Seq<u64>>,
    root: u64,
    km: KernelMap,
    v: u64,
    pa: u64,
    prot: Prot,
)
    requires
        image_fits(km),
        km.kernel_vbase <= v < km.kernel_vend,
        v % 4096 == 0,
        pa == km.kernel_phys + (v - km.kernel_vbase),
        prot == section_prot_spec(km, v as int),
        F::step(0, F::page(pa, prot)) is Leaf,
        F::address(F::page(pa, prot)) == pa,
        tables::well_formed::<F>(cur, root),
        tables::below::<F>(cur, root, 3, v, 0) is Some,
        forall|va: u64| #[trigger]
            tables::mapping::<F>(cur, root, va) == kernel_so_far::<F>(m, root, km, v as int, va),
    ensures
        ({
            let next = tables::written(
                cur,
                tables::below::<F>(cur, root, 3, v, 0)->0,
                tables::index(v, 0),
                F::page(pa, prot),
            );
            &&& tables::well_formed::<F>(next, root)
            &&& forall|va: u64| #[trigger]
                tables::mapping::<F>(next, root, va) == kernel_so_far::<F>(
                    m,
                    root,
                    km,
                    v + 4096,
                    va,
                )
            &&& forall|va: u64, k: int|
                0 <= k <= 3 ==> #[trigger] tables::below::<F>(next, root, 3, va, k)
                    == tables::below::<F>(cur, root, 3, va, k)
        }),
{
    let e = F::page(pa, prot);
    tables::lemma_write_page::<F>(cur, root, v, 0, e);
    let next = tables::written(
        cur,
        tables::below::<F>(cur, root, 3, v, 0)->0,
        tables::index(v, 0),
        e,
    );
    assert forall|va: u64| #[trigger]
        tables::mapping::<F>(next, root, va) == kernel_so_far::<F>(m, root, km, v + 4096, va) by {
        assert(tables::mapping::<F>(cur, root, va) == kernel_so_far::<F>(
            m,
            root,
            km,
            v as int,
            va,
        ));
        lemma_kernel_at::<F>(m, cur, next, root, km, v, pa, prot, va);
    }
}

/// One more page of the image, at one address.
#[verifier::rlimit(60)]
#[verifier::spinoff_prover]
proof fn lemma_kernel_at<F: Format>(
    m: Map<u64, Seq<u64>>,
    cur: Map<u64, Seq<u64>>,
    next: Map<u64, Seq<u64>>,
    root: u64,
    km: KernelMap,
    v: u64,
    pa: u64,
    prot: Prot,
    va: u64,
)
    requires
        image_fits(km),
        km.kernel_vbase <= v < km.kernel_vend,
        v % 4096 == 0,
        pa == km.kernel_phys + (v - km.kernel_vbase),
        prot == section_prot_spec(km, v as int),
        F::address(F::page(pa, prot)) == pa,
        tables::walk::<F>(next, root, 3, va) == (if tables::hits(va, v, 0) {
            Some((0int, F::page(pa, prot)))
        } else {
            tables::walk::<F>(cur, root, 3, va)
        }),
        tables::mapping::<F>(cur, root, va) == kernel_so_far::<F>(m, root, km, v as int, va),
    ensures
        tables::mapping::<F>(next, root, va) == kernel_so_far::<F>(m, root, km, v + 4096, va),
{
    lemma_in_window(km, v, va);
    F::steps(0, 0);
    if tables::hits(va, v, 0) {
        lemma_kernel_hit::<F>(m, root, km, v, va);
        lemma_page_offset(km, v, va);
    } else {
        lemma_kernel_miss::<F>(m, root, km, v, va);
    }
}

/// The offset of an address in its page of the image.
proof fn lemma_page_offset(km: KernelMap, v: u64, va: u64)
    requires
        image_fits(km),
        km.kernel_vbase <= v,
        v % 4096 == 0,
        v - km.kernel_vbase <= va as int % 0x20_0000 < v - km.kernel_vbase + 4096,
    ensures
        va as int % 0x20_0000 - va as int % 0x20_0000 % 4096 == v - km.kernel_vbase,
        va as int % 4096 == va as int % 0x20_0000 % 4096,
{
}

/// An address of the page that has come in.
proof fn lemma_kernel_hit<F: Format>(
    m: Map<u64, Seq<u64>>,
    root: u64,
    km: KernelMap,
    v: u64,
    va: u64,
)
    requires
        tables::hits(va, km.kernel_vbase, 1),
        va as int % 0x20_0000 < v - km.kernel_vbase + 4096,
    ensures
        kernel_so_far::<F>(m, root, km, v + 4096, va) == kernel_mapping::<F>(km, va),
{
    reveal(kernel_so_far);
}

/// Any other address.
proof fn lemma_kernel_miss<F: Format>(
    m: Map<u64, Seq<u64>>,
    root: u64,
    km: KernelMap,
    v: u64,
    va: u64,
)
    requires
        !(tables::hits(va, km.kernel_vbase, 1) && v - km.kernel_vbase <= va as int % 0x20_0000 < v
            - km.kernel_vbase + 4096),
    ensures
        kernel_so_far::<F>(m, root, km, v + 4096, va) == kernel_so_far::<F>(
            m,
            root,
            km,
            v as int,
            va,
        ),
{
    reveal(kernel_so_far);
}


/// **Law:** no more is mapped than is asked for: low memory in whole GiB, and the image up to its end.
pub proof fn law_no_more_is_mapped<F: Format>(km: KernelMap, va: u64)
    requires
        image_fits(km),
    ensures
        low_mapping::<F>(km.identity_bytes, va) matches Some(to) ==> {
            &&& to.phys == va as int % 0x80_0000_0000
            &&& to.phys < km.identity_bytes + 0x4000_0000
            &&& to.phys / 0x4000_0000 * 0x4000_0000 < km.identity_bytes
        },
        kernel_mapping::<F>(km, va) matches Some(to) ==> {
            &&& km.kernel_phys <= to.phys < km.kernel_phys + (km.kernel_vend - km.kernel_vbase)
            &&& to.phys - km.kernel_phys == va as int % 0x20_0000
            &&& va as int / 0x4000_0000 % 512 == km.kernel_vbase as int / 0x4000_0000 % 512
            &&& va as int / 0x20_0000 % 512 == km.kernel_vbase as int / 0x20_0000 % 512
        },
{
    let pa = low_phys(va);
    let n = km.identity_bytes as int;
    let g = pa / 0x4000_0000;
    assert(pa == g * 0x4000_0000 + pa % 0x4000_0000);
    if g < gib_count(km.identity_bytes) {
        assert(gib_count(km.identity_bytes) * 0x4000_0000 <= n + 0x3fff_ffff);
        assert((g + 1) * 0x4000_0000 <= n + 0x3fff_ffff);
    }
}

} // verus!
