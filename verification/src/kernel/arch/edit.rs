//! Edits of page tables that every format has: a page of 2 MiB is split into pages of 4 KiB, and
//! the entry of a page is set.

use vstd::prelude::*;

use crate::kernel::arch::tables;
use crate::kernel::arch::tables::{page_base, table_index, Format, Mapping, Step, TableMemory};
use crate::kernel::arch::Prot;

verus! {

/// The 4 KiB pages that make up the 2 MiB page of entry `e`.
pub open spec fn split_entries<F: Format>(e: u64) -> Seq<u64> {
    Seq::new(512, |j: int| F::split(e, j))
}

/// A table of the 4 KiB pages that make up the 2 MiB page of entry `e`.
pub fn split_table<F: Format, M: TableMemory>(mem: &mut M, e: u64) -> (t: u64)
    requires
        old(mem).room() > 0,
    ensures
        tables::is_table_address(t),
        !old(mem).tables().contains_key(t),
        final(mem).tables() == old(mem).tables().insert(t, split_entries::<F>(e)),
        final(mem).room() == old(mem).room() - 1,
{
    let ghost m = mem.tables();
    let ghost room = mem.room();
    let t: u64 = mem.alloc_table();
    let mut j: usize = 0;
    while j < 512
        invariant
            j <= 512,
            !m.contains_key(t),
            mem.room() == room - 1,
            mem.tables().contains_key(t),
            mem.tables()[t].len() == 512,
            mem.tables() == m.insert(t, mem.tables()[t]),
            forall|i: int| 0 <= i < j ==> mem.tables()[t][i] == split_entries::<F>(e)[i],
        decreases 512 - j,
    {
        mem.write_entry(t, j, F::split_entry(e, j));
        j = j + 1;
    }
    assert(mem.tables()[t] =~= split_entries::<F>(e));
    t
}

/// The entry of the 2 MiB window of `va`.
pub open spec fn window_entry<F: Format>(m: Map<u64, Seq<u64>>, root: u64, va: u64) -> u64 {
    m[tables::table_on_path::<F>(m, root, va, 1)->0][tables::index(va, 1)]
}

/// Something is mapped in the 2 MiB window of `va`, and not as a part of a larger page.
pub open spec fn divisible<F: Format>(m: Map<u64, Seq<u64>>, root: u64, va: u64) -> bool {
    &&& tables::table_on_path::<F>(m, root, va, 1) is Some
    &&& F::step(1, window_entry::<F>(m, root, va)) !is Absent
}

/// No more than one table is needed for a table of 4 KiB pages.
pub open spec fn room_to_divide<F: Format>(m: Map<u64, Seq<u64>>, root: u64, va: u64, room: nat) -> bool {
    F::step(1, window_entry::<F>(m, root, va)) is Leaf ==> room > 0
}

/// How many tables it takes to give the window of `va` a table of 4 KiB pages.
pub open spec fn dividing<F: Format>(m: Map<u64, Seq<u64>>, root: u64, va: u64) -> nat {
    if F::step(1, window_entry::<F>(m, root, va)) is Leaf {
        1
    } else {
        0
    }
}

/// The windows are as they were, but for that of `v`, which has a table of 4 KiB pages now.
pub open spec fn windows_kept<F: Format>(
    m: Map<u64, Seq<u64>>,
    n: Map<u64, Seq<u64>>,
    root: u64,
    v: u64,
) -> bool {
    forall|va: u64|
        {
            &&& #[trigger] divisible::<F>(n, root, va) == divisible::<F>(m, root, va)
            &&& divisible::<F>(m, root, va) ==> dividing::<F>(n, root, va) == (if tables::hits(
                va,
                v,
                1,
            ) {
                0
            } else {
                dividing::<F>(m, root, va)
            })
        }
}

/// The tables once the window of `v` has a table of 4 KiB pages: the one that it had, or `t` in
/// place of its 2 MiB page, under entry `f`.
pub open spec fn divided<F: Format>(
    m: Map<u64, Seq<u64>>,
    root: u64,
    v: u64,
    t: u64,
    f: u64,
) -> Map<u64, Seq<u64>> {
    let e = window_entry::<F>(m, root, v);
    if F::step(1, e) is Leaf {
        tables::written(
            m.insert(t, split_entries::<F>(e)),
            tables::table_on_path::<F>(m, root, v, 1)->0,
            tables::index(v, 1),
            f,
        )
    } else {
        m
    }
}

/// A split changes what no address is mapped to.
pub(crate) proof fn lemma_divided<F: Format>(m: Map<u64, Seq<u64>>, root: u64, v: u64, t: u64, f: u64)
    requires
        tables::well_formed::<F>(m, root),
        divisible::<F>(m, root, v),
        F::step(1, window_entry::<F>(m, root, v)) is Leaf,
        !m.contains_key(t),
        F::step(1, f) == Step::Table(t),
    ensures
        ({
            let n = divided::<F>(m, root, v, t, f);
            &&& tables::well_formed::<F>(n, root)
            &&& tables::table_on_path::<F>(n, root, v, 0) == Some(t)
            &&& forall|va: u64| #[trigger] tables::mapping::<F>(n, root, va) == tables::mapping::<F>(m, root, va)
            &&& forall|va: u64, k: int|
                1 <= k <= 3 ==> #[trigger] tables::table_on_path::<F>(n, root, va, k) == tables::table_on_path::<F>(
                    m,
                    root,
                    va,
                    k,
                )
            &&& windows_kept::<F>(m, n, root, v)
            &&& tables::paths_kept::<F>(m, n, root)
        }),
{
    let e = window_entry::<F>(m, root, v);
    let pd = tables::table_on_path::<F>(m, root, v, 1)->0;
    let s = split_entries::<F>(e);
    let m1 = m.insert(t, s);
    tables::lemma_add_table::<F>(m, root, t, s);
    assert(m1[pd] == m[pd]);
    assert forall|i: int| 0 <= i < 512 implies F::step(0, #[trigger] m1[t][i]) !is Table by {
        F::steps(0, m1[t][i]);
    }
    tables::lemma_link::<F>(m1, root, v, 1, f, t);
    let n = divided::<F>(m, root, v, t, f);
    assert(tables::paths_kept::<F>(m, n, root)) by {
        reveal(tables::paths_kept);
    }
    assert forall|va: u64| #[trigger] tables::mapping::<F>(n, root, va) == tables::mapping::<F>(m, root, va) by {
        if tables::hits(va, v, 1) {
            F::splits(e, va);
            tables::lemma_same_path::<F>(m, root, 3, va, v, 1);
            tables::lemma_walk_from::<F>(m, root, 3, va, 1);
        }
    }
    assert forall|va: u64|
        {
            &&& #[trigger] divisible::<F>(n, root, va) == divisible::<F>(m, root, va)
            &&& divisible::<F>(m, root, va) ==> dividing::<F>(n, root, va) == (if tables::hits(
                va,
                v,
                1,
            ) {
                0
            } else {
                dividing::<F>(m, root, va)
            })
        } by {
        assert(tables::table_on_path::<F>(n, root, va, 1) == tables::table_on_path::<F>(m, root, va, 1));
        if let Some(x) = tables::table_on_path::<F>(m, root, va, 1) {
            assert(x != t);
            if tables::hits(va, v, 1) {
                tables::lemma_same_path::<F>(m, root, 3, va, v, 1);
            } else if x == pd {
                assert(n[pd][tables::index(va, 1)] == m[pd][tables::index(va, 1)]);
            }
        }
    }
}

/// A window with a table of 4 KiB pages stays as it is.
pub(crate) proof fn lemma_undivided<F: Format>(m: Map<u64, Seq<u64>>, root: u64, v: u64)
    requires
        divisible::<F>(m, root, v),
        F::step(1, window_entry::<F>(m, root, v)) !is Leaf,
    ensures
        windows_kept::<F>(m, m, root, v),
{
    assert forall|va: u64| tables::hits(va, v, 1) implies #[trigger] dividing::<F>(m, root, va)
        == 0 by {
        tables::lemma_same_path::<F>(m, root, 3, va, v, 1);
    }
}

/// The entry of the 2 MiB window of `va`, if a walk comes to it.
fn find_window<F: Format, M: TableMemory>(mem: &M, root: u64, va: u64) -> (e: Option<u64>)
    requires
        tables::sound::<F>(mem.tables(), root),
    ensures
        e == (match tables::table_on_path::<F>(mem.tables(), root, va, 1) {
            Some(t) => Some(window_entry::<F>(mem.tables(), root, va)),
            None => None,
        }),
{
    let ghost m = mem.tables();
    proof {
        tables::lemma_below_step::<F>(m, root, 3, va, 2);
        tables::lemma_below_step::<F>(m, root, 3, va, 1);
        assert(tables::table_on_path::<F>(m, root, va, 3) == Some(root));
    }
    if let Step::Table(middle) = F::step_of(3, mem.read_entry(root, table_index(va, 3))) {
        assert(tables::table_on_path::<F>(m, root, va, 2) == Some(middle));
        if let Step::Table(low) = F::step_of(2, mem.read_entry(middle, table_index(va, 2))) {
            assert(tables::table_on_path::<F>(m, root, va, 1) == Some(low));
            return Some(mem.read_entry(low, table_index(va, 1)));
        }
    }
    None
}

/// Whether something is mapped in the 2 MiB window of `va`, and not as a part of a larger page.
pub fn is_divisible<F: Format, M: TableMemory>(mem: &M, root: u64, va: u64) -> (b: bool)
    requires
        tables::sound::<F>(mem.tables(), root),
    ensures
        b == divisible::<F>(mem.tables(), root, va),
{
    match find_window::<F, M>(mem, root, va) {
        Some(e) => match F::step_of(1, e) {
            Step::Absent => false,
            _ => true,
        },
        None => false,
    }
}

/// How many tables it takes to give the window of `va` a table of 4 KiB pages: one where it is a
/// page of 2 MiB, none where it has one.
pub fn tables_to_divide<F: Format, M: TableMemory>(mem: &M, root: u64, va: u64) -> (n: u64)
    requires
        tables::sound::<F>(mem.tables(), root),
        divisible::<F>(mem.tables(), root, va),
    ensures
        n == dividing::<F>(mem.tables(), root, va),
{
    match find_window::<F, M>(mem, root, va) {
        Some(e) => if F::is_block(e) {
            1
        } else {
            0
        },
        None => 0,
    }
}

/// The table of 4 KiB pages for page `v`; a 2 MiB page that covers it is split first. Nothing is
/// mapped otherwise than before.
pub fn ensure_table<F: Format, M: TableMemory>(mem: &mut M, root: u64, v: u64) -> (pt: u64)
    requires
        tables::well_formed::<F>(old(mem).tables(), root),
        divisible::<F>(old(mem).tables(), root, v),
        room_to_divide::<F>(old(mem).tables(), root, v, old(mem).room()),
    ensures
        final(mem).tables() == divided::<F>(old(mem).tables(), root, v, pt, F::link(pt)),
        tables::well_formed::<F>(final(mem).tables(), root),
        tables::table_on_path::<F>(final(mem).tables(), root, v, 0) == Some(pt),
        old(mem).tables().contains_key(pt) ==> tables::table_on_path::<F>(old(mem).tables(), root, v, 0)
            == Some(pt),
        forall|va: u64| #[trigger]
            tables::mapping::<F>(final(mem).tables(), root, va) == tables::mapping::<F>(
                old(mem).tables(),
                root,
                va,
            ),
        tables::off_path_kept::<F>(old(mem).tables(), final(mem).tables(), root, v),
        tables::paths_kept::<F>(old(mem).tables(), final(mem).tables(), root),
        windows_kept::<F>(old(mem).tables(), final(mem).tables(), root, v),
        final(mem).room() == old(mem).room() - dividing::<F>(old(mem).tables(), root, v),
{
    let ghost m = mem.tables();
    proof {
        tables::lemma_below_step::<F>(m, root, 3, v, 2);
        tables::lemma_below_step::<F>(m, root, 3, v, 1);
        assert(tables::table_on_path::<F>(m, root, v, 3) == Some(root));
        assert(tables::table_on_path::<F>(m, root, v, 2) is Some);
        assert(tables::table_on_path::<F>(m, root, v, 1) is Some);
    }
    let top: u64 = mem.read_entry(root, table_index(v, 3));
    proof {
        F::steps(3, top);
    }
    let next: u64 = mem.read_entry(F::address_of(top), table_index(v, 2));
    proof {
        F::steps(2, next);
    }
    let pd: u64 = F::address_of(next);
    assert(tables::table_on_path::<F>(m, root, v, 1) == Some(pd));
    let i: usize = table_index(v, 1);
    let e: u64 = mem.read_entry(pd, i);
    if F::is_block(e) {
        let t: u64 = split_table::<F, M>(mem, e);
        mem.write_entry(pd, i, F::link_entry(t));
        proof {
            F::links(1, t);
            lemma_divided::<F>(m, root, v, t, F::link(t));
            assert forall|x: u64| #[trigger]
                m.contains_key(x) implies {
                mem.tables().contains_key(x) && (tables::on_path::<F>(m, root, v, x)
                    || mem.tables()[x] == m[x])
            } by {
                if !tables::on_path::<F>(m, root, v, x) {
                    assert(tables::table_on_path::<F>(m, root, v, 1) != Some(x));
                }
            }
        }
        t
    } else {
        proof {
            tables::lemma_below_step::<F>(m, root, 3, v, 0);
            F::steps(1, e);
            lemma_undivided::<F>(m, root, v);
            tables::lemma_same_paths::<F>(m, m, root);
        }
        F::address_of(e)
    }
}

/// The way to an address is the way to its page.
pub(crate) proof fn lemma_page_path<F: Format>(m: Map<u64, Seq<u64>>, root: u64, vaddr: u64, v: u64)
    requires
        forall|level: int| #[trigger] tables::index(v, level) == tables::index(vaddr, level),
    ensures
        forall|k: int|
            0 <= k <= 3 ==> #[trigger] tables::table_on_path::<F>(m, root, v, k) == tables::table_on_path::<F>(
                m,
                root,
                vaddr,
                k,
            ),
        divisible::<F>(m, root, vaddr) ==> divisible::<F>(m, root, v),
        window_entry::<F>(m, root, vaddr) == window_entry::<F>(m, root, v),
        forall|va: u64| tables::same_page(va, v) == #[trigger] tables::same_page(va, vaddr),
        forall|va: u64| tables::hits(va, v, 0) == #[trigger] tables::same_page(va, vaddr),
{
    assert forall|k: int| 0 <= k <= 3 implies #[trigger] tables::table_on_path::<F>(m, root, v, k)
        == tables::table_on_path::<F>(m, root, vaddr, k) by {
        tables::lemma_same_path::<F>(m, root, 3, v, vaddr, k);
    }
}

proof fn lemma_on_page_path<F: Format>(m: Map<u64, Seq<u64>>, root: u64, vaddr: u64, v: u64, t: u64)
    requires
        forall|level: int| #[trigger] tables::index(v, level) == tables::index(vaddr, level),
    ensures
        tables::on_path::<F>(m, root, v, t) == tables::on_path::<F>(m, root, vaddr, t),
{
    lemma_page_path::<F>(m, root, vaddr, v);
    if tables::on_path::<F>(m, root, v, t) {
        let k = choose|k: int| 0 <= k <= 3 && #[trigger] tables::table_on_path::<F>(m, root, v, k) == Some(t);
        assert(tables::table_on_path::<F>(m, root, vaddr, k) == Some(t));
    }
    if tables::on_path::<F>(m, root, vaddr, t) {
        let k = choose|k: int| 0 <= k <= 3 && #[trigger] tables::table_on_path::<F>(m, root, vaddr, k) == Some(t);
        assert(tables::table_on_path::<F>(m, root, v, k) == Some(t));
    }
}

/// What a page's entry maps `va` to.
pub open spec fn page_mapping<F: Format>(e: u64, va: u64) -> Option<Mapping> {
    if F::step(0, e) is Leaf {
        Some(Mapping { phys: tables::in_page(F::address(e), 4096, va), attrs: F::attrs(e) })
    } else {
        None
    }
}

/// A format with pages for user mode.
pub trait UserFormat: Format {
    /// The attributes of a page with protection `prot`: for user mode in isolation domain `user`, or
    /// for the kernel alone.
    spec fn attrs_for(prot: Prot, user: Option<u64>) -> u64;

    /// User mode has access to `va`.
    spec fn user_access(m: Map<u64, Seq<u64>>, root: u64, va: u64) -> bool;

    /// Map page `vaddr` to the frame at `phys`. Every other page is mapped as before, and a page for
    /// user mode takes it none.
    fn map_for<M: TableMemory>(
        mem: &mut M,
        root: u64,
        vaddr: u64,
        phys: u64,
        prot: Prot,
        user: Option<u64>,
    )
        requires
            tables::well_formed::<Self>(old(mem).tables(), root),
            divisible::<Self>(old(mem).tables(), root, vaddr),
            room_to_divide::<Self>(old(mem).tables(), root, vaddr, old(mem).room()),
            tables::is_table_address(phys),
        ensures
            tables::well_formed::<Self>(final(mem).tables(), root),
            forall|va: u64| #[trigger]
                tables::mapping::<Self>(final(mem).tables(), root, va) == (if tables::same_page(
                    va,
                    vaddr,
                ) {
                    Some(Mapping { phys: phys + va % 4096, attrs: Self::attrs_for(prot, user) })
                } else {
                    tables::mapping::<Self>(old(mem).tables(), root, va)
                }),
            user is Some ==> forall|va: u64|
                tables::same_page(va, vaddr) || Self::user_access(old(mem).tables(), root, va)
                    ==> #[trigger] Self::user_access(final(mem).tables(), root, va),
            tables::off_path_kept::<Self>(old(mem).tables(), final(mem).tables(), root, vaddr),
            tables::paths_kept::<Self>(old(mem).tables(), final(mem).tables(), root),
            windows_kept::<Self>(old(mem).tables(), final(mem).tables(), root, vaddr),
            final(mem).room() == old(mem).room() - dividing::<Self>(
                old(mem).tables(),
                root,
                vaddr,
            ),
    ;
}

/// What is left to say once the entry of a page is set.
pub(crate) proof fn lemma_page_set<F: Format>(
    m: Map<u64, Seq<u64>>,
    m1: Map<u64, Seq<u64>>,
    n: Map<u64, Seq<u64>>,
    root: u64,
    vaddr: u64,
    v: u64,
    e: u64,
)
    requires
        tables::well_formed::<F>(m, root),
        divisible::<F>(m, root, v),
        forall|level: int| #[trigger] tables::index(v, level) == tables::index(vaddr, level),
        tables::off_path_kept::<F>(m, m1, root, v),
        tables::paths_kept::<F>(m, m1, root),
        windows_kept::<F>(m, m1, root, v),
        tables::table_on_path::<F>(m1, root, v, 0) is Some,
        m.contains_key(tables::table_on_path::<F>(m1, root, v, 0)->0) ==> tables::table_on_path::<F>(m, root, v, 0)
            == tables::table_on_path::<F>(m1, root, v, 0),
        n == tables::written(m1, tables::table_on_path::<F>(m1, root, v, 0)->0, tables::index(v, 0), e),
        tables::well_formed::<F>(m1, root),
        forall|va: u64| #[trigger] tables::mapping::<F>(m1, root, va) == tables::mapping::<F>(m, root, va),
    ensures
        tables::off_path_kept::<F>(m, n, root, vaddr),
        tables::paths_kept::<F>(m, n, root),
        windows_kept::<F>(m, n, root, vaddr),
        tables::well_formed::<F>(n, root),
        forall|va: u64| #[trigger]
            tables::mapping::<F>(n, root, va) == (if tables::same_page(va, vaddr) {
                page_mapping::<F>(e, va)
            } else {
                tables::mapping::<F>(m, root, va)
            }),
{
    lemma_page_path::<F>(m, root, vaddr, v);
    F::steps(0, e);
    tables::lemma_write_page::<F>(m1, root, v, 0, e);
    tables::lemma_same_paths::<F>(m1, n, root);
    tables::lemma_paths_kept_twice::<F>(m, m1, n, root);
    assert forall|va: u64| #[trigger]
        tables::mapping::<F>(n, root, va) == (if tables::same_page(va, vaddr) {
            page_mapping::<F>(e, va)
        } else {
            tables::mapping::<F>(m, root, va)
        }) by {
        assert(tables::hits(va, v, 0) == tables::same_page(va, vaddr));
        assert(tables::mapping::<F>(m1, root, va) == tables::mapping::<F>(m, root, va));
    }
    let pt = tables::table_on_path::<F>(m1, root, v, 0)->0;
    assert forall|x: u64| #[trigger] m.contains_key(x) implies {
        n.contains_key(x) && (tables::on_path::<F>(m, root, vaddr, x) || n[x] == m[x])
    } by {
        lemma_on_page_path::<F>(m, root, vaddr, v, x);
        if !tables::on_path::<F>(m, root, vaddr, x) {
            assert(tables::table_on_path::<F>(m, root, vaddr, 0) != Some(x));
            assert(tables::table_on_path::<F>(m, root, v, 0) == tables::table_on_path::<F>(
                m,
                root,
                vaddr,
                0,
            ));
        }
    }
    assert forall|va: u64|
        {
            &&& #[trigger] divisible::<F>(n, root, va) == divisible::<F>(m, root, va)
            &&& divisible::<F>(m, root, va) ==> dividing::<F>(n, root, va) == (if tables::hits(
                va,
                vaddr,
                1,
            ) {
                0
            } else {
                dividing::<F>(m, root, va)
            })
        } by {
        assert(tables::hits(va, v, 1) == tables::hits(va, vaddr, 1)) by {
            assert(tables::index(v, 1) == tables::index(vaddr, 1));
            assert(tables::index(v, 2) == tables::index(vaddr, 2));
            assert(tables::index(v, 3) == tables::index(vaddr, 3));
        }
        assert(divisible::<F>(m1, root, va) == divisible::<F>(m, root, va));
        assert(tables::below::<F>(n, root, 3, va, 1) == tables::below::<F>(m1, root, 3, va, 1));
        assert(tables::table_on_path::<F>(n, root, va, 1) == tables::table_on_path::<F>(m1, root, va, 1));
        if let Some(x) = tables::table_on_path::<F>(m1, root, va, 1) {
            assert(tables::below::<F>(m1, root, 3, va, 1) != tables::below::<F>(m1, root, 3, v, 0));
            assert(n[x] == m1[x]);
        }
    }
}

/// Set the entry of page `vaddr`. Every other page is as before.
pub fn set_page<F: Format, M: TableMemory>(mem: &mut M, root: u64, vaddr: u64, e: u64)
    requires
        tables::well_formed::<F>(old(mem).tables(), root),
        divisible::<F>(old(mem).tables(), root, vaddr),
        room_to_divide::<F>(old(mem).tables(), root, vaddr, old(mem).room()),
    ensures
        tables::well_formed::<F>(final(mem).tables(), root),
        forall|va: u64| #[trigger]
            tables::mapping::<F>(final(mem).tables(), root, va) == (if tables::same_page(va, vaddr) {
                page_mapping::<F>(e, va)
            } else {
                tables::mapping::<F>(old(mem).tables(), root, va)
            }),
        tables::off_path_kept::<F>(old(mem).tables(), final(mem).tables(), root, vaddr),
        tables::paths_kept::<F>(old(mem).tables(), final(mem).tables(), root),
        windows_kept::<F>(old(mem).tables(), final(mem).tables(), root, vaddr),
        final(mem).room() == old(mem).room() - dividing::<F>(old(mem).tables(), root, vaddr),
{
    let ghost m = mem.tables();
    let v: u64 = page_base(vaddr);
    proof {
        lemma_page_path::<F>(m, root, vaddr, v);
    }
    let pt: u64 = ensure_table::<F, M>(mem, root, v);
    let ghost m1 = mem.tables();
    assert(tables::table_on_path::<F>(m1, root, v, 0) == Some(pt));
    mem.write_entry(pt, table_index(v, 0), e);
    proof {
        lemma_page_set::<F>(m, m1, mem.tables(), root, vaddr, v, e);
    }
}

} // verus!
