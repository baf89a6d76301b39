//! Runs of pages: consecutive pages mapped to consecutive frames.

use vstd::prelude::*;

use crate::kernel::arch::edit;
use crate::kernel::arch::edit::UserFormat;
use crate::kernel::arch::tables;
use crate::kernel::arch::tables::{Format, Mapping, TableMemory, PAGE};
use crate::kernel::arch::Prot;

verus! {

/// Where `va` is, as far as a walk looks at it.
pub open spec fn walked(va: u64) -> int {
    va as int % 0x1_0000_0000_0000
}

/// `va` is in the `pages` pages from `vaddr` on.
pub open spec fn in_run(va: u64, vaddr: u64, pages: int) -> bool {
    vaddr <= walked(va) < vaddr + pages * 4096
}

/// The 2 MiB window behind the last one that the `pages` pages from `vaddr` on are in.
pub open spec fn window_end(vaddr: u64, pages: int) -> int {
    if pages <= 0 {
        vaddr as int / 0x20_0000
    } else {
        (vaddr + pages * 4096 - 1) / 0x20_0000 + 1
    }
}

/// How many tables it takes to give each of the windows from `w` up to `end` a table of 4 KiB pages.
pub open spec fn dividing_all<F: Format>(
    m: Map<u64, Seq<u64>>,
    root: u64,
    w: int,
    end: int,
) -> nat
    decreases end - w,
{
    if w >= end {
        0
    } else {
        edit::dividing::<F>(m, root, (w * 0x20_0000) as u64) + dividing_all::<F>(
            m,
            root,
            w + 1,
            end,
        )
    }
}

/// Something is mapped in each of the windows from `w` up to `end`, and not as a part of a larger
/// page.
pub open spec fn all_divisible<F: Format>(
    m: Map<u64, Seq<u64>>,
    root: u64,
    w: int,
    end: int,
) -> bool {
    forall|va: u64|
        w <= walked(va) / 0x20_0000 < end ==> #[trigger] edit::divisible::<F>(m, root, va)
}

/// The windows are as they were, but for those from `w` up to `end`, which have tables of 4 KiB
/// pages now.
pub open spec fn windows_divided<F: Format>(
    m: Map<u64, Seq<u64>>,
    n: Map<u64, Seq<u64>>,
    root: u64,
    w: int,
    end: int,
) -> bool {
    forall|va: u64|
        {
            &&& #[trigger] edit::divisible::<F>(n, root, va) == edit::divisible::<F>(m, root, va)
            &&& edit::divisible::<F>(m, root, va) ==> edit::dividing::<F>(n, root, va) == (if w
                <= walked(va) / 0x20_0000 < end {
                0
            } else {
                edit::dividing::<F>(m, root, va)
            })
        }
}

/// What the indices of a walk make up.
#[verifier::rlimit(40)]
#[verifier::spinoff_prover]
proof fn lemma_walked(va: u64)
    ensures
        walked(va) / 4096 == tables::index(va, 0) + 512 * (walked(va) / 0x20_0000),
        walked(va) / 0x20_0000 == tables::index(va, 1) + 512 * tables::index(va, 2) + 0x4_0000
            * tables::index(va, 3),
        walked(va) % 4096 == va as int % 4096,
{
    let a = va as int;
    let q = a / 0x1_0000_0000_0000;
    let w = walked(va);
    assert(a == q * 0x1_0000_0000_0000 + w);
    assert(a / 0x80_0000_0000 == q * 512 + w / 0x80_0000_0000);
    assert(a / 0x4000_0000 == q * 0x4_0000 + w / 0x4000_0000);
    assert(a / 0x20_0000 == q * 0x800_0000 + w / 0x20_0000);
    assert(a / 0x1000 == q * 0x10_0000_0000 + w / 0x1000);
    assert(w / 0x20_0000 == w / 0x1000 / 512);
    assert(w / 0x4000_0000 == w / 0x20_0000 / 512);
    assert(w / 0x80_0000_0000 == w / 0x4000_0000 / 512);
    assert(tables::index(va, 0) == w / 0x1000 % 512);
    assert(tables::index(va, 1) == w / 0x20_0000 % 512);
    assert(tables::index(va, 2) == w / 0x4000_0000 % 512);
    assert(tables::index(va, 3) == w / 0x80_0000_0000 % 512);
    assert(w / 0x80_0000_0000 < 512);
}

/// Walks for two addresses take the same entries if these are in the same page, or window.
pub(crate) proof fn lemma_walked_alike(a: u64, b: u64)
    ensures
        tables::same_page(a, b) == (walked(a) / 4096 == walked(b) / 4096),
        tables::hits(a, b, 1) == (walked(a) / 0x20_0000 == walked(b) / 0x20_0000),
{
    lemma_walked(a);
    lemma_walked(b);
}

/// Dividing the window of `v` leaves as many to divide as before, less that one.
proof fn lemma_dividing<F: Format>(
    m: Map<u64, Seq<u64>>,
    n: Map<u64, Seq<u64>>,
    root: u64,
    v: u64,
    w: int,
    end: int,
)
    requires
        0 <= w,
        end <= 0x800_0000,
        all_divisible::<F>(m, root, w, end),
        edit::windows_kept::<F>(m, n, root, v),
    ensures
        dividing_all::<F>(n, root, w, end) == dividing_all::<F>(m, root, w, end) - (if w <= walked(v)
            / 0x20_0000 < end {
            edit::dividing::<F>(m, root, v)
        } else {
            0
        }),
    decreases end - w,
{
    if w < end {
        let a = (w * 0x20_0000) as u64;
        assert(walked(a) / 0x20_0000 == w);
        assert(edit::divisible::<F>(m, root, a));
        assert(edit::divisible::<F>(n, root, a) == edit::divisible::<F>(m, root, a));
        lemma_walked_alike(a, v);
        if tables::hits(a, v, 1) {
            tables::lemma_same_path::<F>(m, root, 3, a, v, 1);
            assert(edit::dividing::<F>(m, root, a) == edit::dividing::<F>(m, root, v));
        }
        lemma_dividing::<F>(m, n, root, v, w + 1, end);
    }
}

/// There is at least as much to divide as one window takes.
proof fn lemma_dividing_first<F: Format>(m: Map<u64, Seq<u64>>, root: u64, v: u64, w: int, end: int)
    requires
        0 <= w,
        end <= 0x800_0000,
        w <= walked(v) / 0x20_0000 < end,
    ensures
        edit::dividing::<F>(m, root, v) <= dividing_all::<F>(m, root, w, end),
    decreases end - w,
{
    let a = (w * 0x20_0000) as u64;
    assert(walked(a) / 0x20_0000 == w);
    lemma_walked_alike(a, v);
    if tables::hits(a, v, 1) {
        tables::lemma_same_path::<F>(m, root, 3, a, v, 1);
        assert(edit::dividing::<F>(m, root, a) == edit::dividing::<F>(m, root, v));
    } else {
        lemma_dividing_first::<F>(m, root, v, w + 1, end);
    }
}

/// When every window is divided there is nothing left to divide.
proof fn lemma_all_divided<F: Format>(
    m: Map<u64, Seq<u64>>,
    n: Map<u64, Seq<u64>>,
    root: u64,
    first: int,
    end: int,
    w: int,
)
    requires
        0 <= first <= w,
        end <= 0x800_0000,
        all_divisible::<F>(m, root, first, end),
        windows_divided::<F>(m, n, root, first, end),
    ensures
        dividing_all::<F>(n, root, w, end) == 0,
    decreases end - w,
{
    if w < end {
        let a = (w * 0x20_0000) as u64;
        assert(walked(a) / 0x20_0000 == w);
        assert(edit::divisible::<F>(m, root, a));
        assert(edit::divisible::<F>(n, root, a) == edit::divisible::<F>(m, root, a));
        lemma_all_divided::<F>(m, n, root, first, end, w + 1);
    }
}

/// In `n` the pages of the run are mapped to its frames, and every other page as in `m`.
#[verifier::opaque]
spec fn run_mapped<F: Format>(
    m: Map<u64, Seq<u64>>,
    n: Map<u64, Seq<u64>>,
    root: u64,
    vaddr: u64,
    phys: u64,
    pages: int,
    attrs: u64,
) -> bool {
    forall|va: u64| #[trigger]
        tables::mapping::<F>(n, root, va) == (if in_run(va, vaddr, pages) {
            Some(Mapping { phys: phys + (walked(va) - vaddr), attrs })
        } else {
            tables::mapping::<F>(m, root, va)
        })
}

/// One more page of a run.
proof fn lemma_run_grows<F: Format>(
    m: Map<u64, Seq<u64>>,
    b: Map<u64, Seq<u64>>,
    n: Map<u64, Seq<u64>>,
    root: u64,
    vaddr: u64,
    phys: u64,
    k: int,
    attrs: u64,
)
    requires
        0 <= k,
        vaddr % 4096 == 0,
        phys % 4096 == 0,
        vaddr + (k + 1) * 4096 <= 0x1_0000_0000_0000,
        phys + (k + 1) * 4096 <= 0x1_0000_0000_0000,
        run_mapped::<F>(m, b, root, vaddr, phys, k, attrs),
        forall|va: u64| #[trigger]
            tables::mapping::<F>(n, root, va) == (if tables::same_page(
                va,
                (vaddr + k * 4096) as u64,
            ) {
                Some(Mapping { phys: phys + k * 4096 + va % 4096, attrs })
            } else {
                tables::mapping::<F>(b, root, va)
            }),
    ensures
        run_mapped::<F>(m, n, root, vaddr, phys, k + 1, attrs),
{
    reveal(run_mapped);
    let v = (vaddr + k * 4096) as u64;
    assert(walked(v) == v);
    assert forall|va: u64| #[trigger]
        tables::mapping::<F>(n, root, va) == (if in_run(va, vaddr, k + 1) {
            Some(Mapping { phys: phys + (walked(va) - vaddr), attrs })
        } else {
            tables::mapping::<F>(m, root, va)
        }) by {
        lemma_walked_alike(va, v);
        lemma_walked(va);
        let w = walked(va);
        assert((w / 4096 == v as int / 4096) == (v <= w < v + 4096));
        assert(tables::mapping::<F>(b, root, va) == (if in_run(va, vaddr, k) {
            Some(Mapping { phys: phys + (walked(va) - vaddr), attrs })
        } else {
            tables::mapping::<F>(m, root, va)
        }));
        if tables::same_page(va, v) {
            assert(w % 4096 == w - v);
        }
    }
}

/// In `n` user mode has access to the pages of the run, and to every page that it had access to in
/// `m`.
#[verifier::opaque]
spec fn run_open<F: UserFormat>(
    m: Map<u64, Seq<u64>>,
    n: Map<u64, Seq<u64>>,
    root: u64,
    vaddr: u64,
    pages: int,
) -> bool {
    forall|va: u64|
        in_run(va, vaddr, pages) || F::user_access(m, root, va) ==> #[trigger] F::user_access(
            n,
            root,
            va,
        )
}

/// Table `t` is on the way to one of the `pages` pages from `vaddr` on.
pub open spec fn on_run<F: Format>(
    m: Map<u64, Seq<u64>>,
    root: u64,
    vaddr: u64,
    pages: int,
    t: u64,
) -> bool {
    exists|va: u64| in_run(va, vaddr, pages) && #[trigger] tables::on_path::<F>(m, root, va, t)
}

/// No table is lost, and those that are not on the way to a page of the run keep their entries.
#[verifier::opaque]
pub open spec fn off_run_kept<F: Format>(
    m: Map<u64, Seq<u64>>,
    n: Map<u64, Seq<u64>>,
    root: u64,
    vaddr: u64,
    pages: int,
) -> bool {
    forall|t: u64| #[trigger]
        m.contains_key(t) ==> n.contains_key(t) && (on_run::<F>(m, root, vaddr, pages, t) || n[t]
            == m[t])
}

/// A table of `m` that is on a way in `b` was on that way in `m`.
pub(crate) proof fn lemma_on_old_path<F: Format>(
    m: Map<u64, Seq<u64>>,
    b: Map<u64, Seq<u64>>,
    root: u64,
    va: u64,
    t: u64,
)
    requires
        tables::paths_kept::<F>(m, b, root),
        m.contains_key(t),
        tables::on_path::<F>(b, root, va, t),
    ensures
        tables::on_path::<F>(m, root, va, t),
{
    reveal(tables::paths_kept);
    let k = choose|k: int|
        0 <= k <= 3 && #[trigger] tables::table_on_path::<F>(b, root, va, k) == Some(t);
    assert(tables::below::<F>(b, root, 3, va, k) == Some(t));
    assert(tables::table_on_path::<F>(m, root, va, k) == Some(t));
}

/// The tables on the way to one more page.
proof fn lemma_run_keeps<F: Format>(
    m: Map<u64, Seq<u64>>,
    b: Map<u64, Seq<u64>>,
    n: Map<u64, Seq<u64>>,
    root: u64,
    vaddr: u64,
    k: int,
)
    requires
        0 <= k,
        vaddr + (k + 1) * 4096 <= 0x1_0000_0000_0000,
        off_run_kept::<F>(m, b, root, vaddr, k),
        tables::paths_kept::<F>(m, b, root),
        tables::off_path_kept::<F>(b, n, root, (vaddr + k * 4096) as u64),
    ensures
        off_run_kept::<F>(m, n, root, vaddr, k + 1),
{
    reveal(off_run_kept);
    let v = (vaddr + k * 4096) as u64;
    assert(walked(v) == v);
    assert forall|t: u64| #[trigger] m.contains_key(t) implies n.contains_key(t) && (on_run::<F>(
        m,
        root,
        vaddr,
        k + 1,
        t,
    ) || n[t] == m[t]) by {
        assert(b.contains_key(t));
        if tables::on_path::<F>(b, root, v, t) {
            lemma_on_old_path::<F>(m, b, root, v, t);
            assert(in_run(v, vaddr, k + 1));
        } else if on_run::<F>(m, root, vaddr, k, t) {
            let va = choose|va: u64|
                in_run(va, vaddr, k) && #[trigger] tables::on_path::<F>(m, root, va, t);
            assert(in_run(va, vaddr, k + 1));
        }
    }
}

/// One more page for user mode.
proof fn lemma_run_opens<F: UserFormat>(
    m: Map<u64, Seq<u64>>,
    b: Map<u64, Seq<u64>>,
    n: Map<u64, Seq<u64>>,
    root: u64,
    vaddr: u64,
    k: int,
)
    requires
        0 <= k,
        vaddr % 4096 == 0,
        vaddr + (k + 1) * 4096 <= 0x1_0000_0000_0000,
        run_open::<F>(m, b, root, vaddr, k),
        forall|va: u64|
            tables::same_page(va, (vaddr + k * 4096) as u64) || F::user_access(
                b,
                root,
                va,
            ) ==> #[trigger] F::user_access(n, root, va),
    ensures
        run_open::<F>(m, n, root, vaddr, k + 1),
{
    reveal(run_open);
    let v = (vaddr + k * 4096) as u64;
    assert(walked(v) == v);
    assert forall|va: u64|
        in_run(va, vaddr, k + 1) || F::user_access(m, root, va) implies #[trigger] F::user_access(
        n,
        root,
        va,
    ) by {
        lemma_walked_alike(va, v);
        let w = walked(va);
        assert((w / 4096 == v as int / 4096) == (v <= w < v + 4096));
        if !tables::same_page(va, v) {
            assert(F::user_access(b, root, va));
        }
    }
}

/// The windows of one more page.
proof fn lemma_windows_grow<F: Format>(
    m: Map<u64, Seq<u64>>,
    b: Map<u64, Seq<u64>>,
    n: Map<u64, Seq<u64>>,
    root: u64,
    vaddr: u64,
    k: int,
)
    requires
        0 <= k,
        vaddr % 4096 == 0,
        vaddr + (k + 1) * 4096 <= 0x1_0000_0000_0000,
        windows_divided::<F>(m, b, root, vaddr as int / 0x20_0000, window_end(vaddr, k)),
        edit::windows_kept::<F>(b, n, root, (vaddr + k * 4096) as u64),
    ensures
        windows_divided::<F>(m, n, root, vaddr as int / 0x20_0000, window_end(vaddr, k + 1)),
{
    let v = (vaddr + k * 4096) as u64;
    let first = vaddr as int / 0x20_0000;
    assert(walked(v) == v);
    assert(window_end(vaddr, k + 1) == v as int / 0x20_0000 + 1);
    assert(window_end(vaddr, k) == v as int / 0x20_0000 || window_end(vaddr, k) == v as int
        / 0x20_0000 + 1);
    assert forall|va: u64|
        {
            &&& #[trigger] edit::divisible::<F>(n, root, va) == edit::divisible::<F>(m, root, va)
            &&& edit::divisible::<F>(m, root, va) ==> edit::dividing::<F>(n, root, va) == (if first
                <= walked(va) / 0x20_0000 < window_end(vaddr, k + 1) {
                0
            } else {
                edit::dividing::<F>(m, root, va)
            })
        } by {
        lemma_walked_alike(va, v);
        assert(first <= v as int / 0x20_0000);
        assert(edit::divisible::<F>(b, root, va) == edit::divisible::<F>(m, root, va));
        assert(edit::divisible::<F>(n, root, va) == edit::divisible::<F>(b, root, va));
    }
}

/// Map the `pages` pages from `vaddr` on to the frames from `phys` on with protection `prot`: for
/// user mode in isolation domain `user`, or for the kernel alone. Every other page is as before.
pub fn map_run<F: UserFormat, M: TableMemory>(
    mem: &mut M,
    root: u64,
    vaddr: u64,
    phys: u64,
    pages: u64,
    prot: Prot,
    user: Option<u64>,
)
    requires
        tables::well_formed::<F>(old(mem).tables(), root),
        vaddr % 4096 == 0,
        phys % 4096 == 0,
        vaddr + pages * 4096 <= 0x1_0000_0000_0000,
        phys + pages * 4096 <= 0x1_0000_0000_0000,
        all_divisible::<F>(
            old(mem).tables(),
            root,
            vaddr as int / 0x20_0000,
            window_end(vaddr, pages as int),
        ),
        old(mem).room() >= dividing_all::<F>(
            old(mem).tables(),
            root,
            vaddr as int / 0x20_0000,
            window_end(vaddr, pages as int),
        ),
    ensures
        tables::well_formed::<F>(final(mem).tables(), root),
        forall|va: u64| #[trigger]
            tables::mapping::<F>(final(mem).tables(), root, va) == (if in_run(
                va,
                vaddr,
                pages as int,
            ) {
                Some(
                    Mapping {
                        phys: phys + (walked(va) - vaddr),
                        attrs: F::attrs_for(prot, user),
                    },
                )
            } else {
                tables::mapping::<F>(old(mem).tables(), root, va)
            }),
        user is Some ==> forall|va: u64|
            in_run(va, vaddr, pages as int) || F::user_access(old(mem).tables(), root, va)
                ==> #[trigger] F::user_access(final(mem).tables(), root, va),
        off_run_kept::<F>(old(mem).tables(), final(mem).tables(), root, vaddr, pages as int),
        tables::paths_kept::<F>(old(mem).tables(), final(mem).tables(), root),
        windows_divided::<F>(
            old(mem).tables(),
            final(mem).tables(),
            root,
            vaddr as int / 0x20_0000,
            window_end(vaddr, pages as int),
        ),
        final(mem).room() == old(mem).room() - dividing_all::<F>(
            old(mem).tables(),
            root,
            vaddr as int / 0x20_0000,
            window_end(vaddr, pages as int),
        ),
{
    let ghost m = mem.tables();
    let ghost room = mem.room();
    let ghost first = vaddr as int / 0x20_0000;
    let ghost end = window_end(vaddr, pages as int);
    let ghost attrs = F::attrs_for(prot, user);
    let mut k: u64 = 0;
    assert(run_mapped::<F>(m, m, root, vaddr, phys, 0, attrs) && run_open::<F>(
        m,
        m,
        root,
        vaddr,
        0,
    )) by {
        reveal(run_mapped);
        reveal(run_open);
    }
    proof {
        reveal(off_run_kept);
        tables::lemma_same_paths::<F>(m, m, root);
    }
    while k < pages
        invariant
            k <= pages,
            vaddr % 4096 == 0,
            phys % 4096 == 0,
            vaddr + pages * 4096 <= 0x1_0000_0000_0000,
            phys + pages * 4096 <= 0x1_0000_0000_0000,
            first == vaddr as int / 0x20_0000,
            end == window_end(vaddr, pages as int),
            tables::well_formed::<F>(mem.tables(), root),
            all_divisible::<F>(m, root, first, end),
            run_mapped::<F>(m, mem.tables(), root, vaddr, phys, k as int, attrs),
            attrs == F::attrs_for(prot, user),
            user is Some ==> run_open::<F>(m, mem.tables(), root, vaddr, k as int),
            off_run_kept::<F>(m, mem.tables(), root, vaddr, k as int),
            tables::paths_kept::<F>(m, mem.tables(), root),
            windows_divided::<F>(m, mem.tables(), root, first, window_end(vaddr, k as int)),
            room >= dividing_all::<F>(m, root, first, end),
            mem.room() - dividing_all::<F>(mem.tables(), root, first, end) == room
                - dividing_all::<F>(m, root, first, end),
        decreases pages - k,
    {
        let v: u64 = vaddr + k * PAGE;
        let pa: u64 = phys + k * PAGE;
        let ghost before = mem.tables();
        proof {
            assert(v as int == vaddr + k * 4096);
            assert(walked(v) == v);
            assert(first <= v as int / 0x20_0000 < end);
            assert(edit::divisible::<F>(m, root, v));
            assert(edit::divisible::<F>(before, root, v));
            lemma_dividing_first::<F>(before, root, v, first, end);
        }
        F::map_for(mem, root, v, pa, prot, user);
        proof {
            let n = mem.tables();
            lemma_run_grows::<F>(m, before, n, root, vaddr, phys, k as int, attrs);
            lemma_windows_grow::<F>(m, before, n, root, vaddr, k as int);
            lemma_run_keeps::<F>(m, before, n, root, vaddr, k as int);
            tables::lemma_paths_kept_twice::<F>(m, before, n, root);
            if user is Some {
                lemma_run_opens::<F>(m, before, n, root, vaddr, k as int);
            }
            assert(all_divisible::<F>(before, root, first, end)) by {
                assert forall|va: u64|
                    first <= walked(va) / 0x20_0000 < end implies #[trigger] edit::divisible::<F>(
                    before,
                    root,
                    va,
                ) by {
                    assert(edit::divisible::<F>(m, root, va));
                }
            }
            lemma_dividing::<F>(before, n, root, v, first, end);
        }
        k = k + 1;
    }
    proof {
        reveal(run_mapped);
        reveal(run_open);
        lemma_all_divided::<F>(m, mem.tables(), root, first, end, first);
    }
}

} // verus!
