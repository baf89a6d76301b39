//! Page tables of four levels with 512 entries each, in memory: what a walk finds, and what an
//! edit changes. Level 3 is the root; level 0 holds pages of 4 KiB.

use vstd::prelude::*;

use crate::kernel::arch::Prot;

verus! {

/// Entries of a table.
pub const ENTRIES: usize = 512;

/// Bytes of a page.
pub const PAGE: u64 = 4096;

/// Bytes that one entry of a table at `level` covers.
pub open spec fn entry_span(level: int) -> int {
    if level == 0 {
        0x1000
    } else if level == 1 {
        0x20_0000
    } else if level == 2 {
        0x4000_0000
    } else {
        0x80_0000_0000
    }
}

/// The entry that a walk for `va` takes in a table at `level`.
pub open spec fn index(va: u64, level: int) -> int {
    va as int / entry_span(level) % 512
}

/// The table addresses of an edit: page-aligned, and within the address field of every format.
pub open spec fn is_table_address(t: u64) -> bool {
    t % 4096 == 0 && t < 0x1_0000_0000_0000
}

/// What an entry says.
pub enum Step {
    /// Nothing is mapped.
    Absent,
    /// A page.
    Leaf,
    /// The table of the next level, at this address.
    Table(u64),
}

/// How an architecture writes its entries.
pub trait Format: Sized {
    /// What entry `e` of a table at `level` says.
    spec fn step(level: int, e: u64) -> Step;

    /// The address field of `e`.
    spec fn address(e: u64) -> u64;

    /// The attributes of a page's entry `e`: all but its address and the bits that say at which
    /// level it is.
    spec fn attrs(e: u64) -> u64;

    /// The size of a page at `level`.
    spec fn page_span(level: int) -> int;

    /// An entry that names table `t`.
    spec fn link(t: u64) -> u64;

    /// The entry of the `j`th page of 4 KiB in the page of 2 MiB of entry `e`.
    spec fn split(e: u64, j: int) -> u64;

    /// The entry of a 2 MiB page of low memory at `pa`: writable, not executable.
    spec fn block(pa: u64) -> u64;

    /// The entry of a page of the kernel's image at `pa`.
    spec fn page(pa: u64, prot: Prot) -> u64;

    /// The address field of `e`.
    fn address_of(e: u64) -> (a: u64)
        ensures
            a == Self::address(e),
    ;

    /// An entry that names table `t`.
    fn link_entry(t: u64) -> (e: u64)
        ensures
            e == Self::link(t),
    ;

    /// The entry of the `j`th page of 4 KiB in the page of 2 MiB of entry `e`.
    fn split_entry(e: u64, j: usize) -> (p: u64)
        requires
            j < 512,
        ensures
            p == Self::split(e, j as int),
    ;

    /// The entry of a 2 MiB page of low memory at `pa`.
    fn block_entry(pa: u64) -> (e: u64)
        ensures
            e == Self::block(pa),
    ;

    /// The entry of a page of the kernel's image at `pa`.
    fn page_entry(pa: u64, prot: Prot) -> (e: u64)
        ensures
            e == Self::page(pa, prot),
    ;

    /// What entry `e` of a table at `level` says.
    fn step_of(level: u32, e: u64) -> (s: Step)
        requires
            level <= 3,
        ensures
            s == Self::step(level as int, e),
    ;

    /// Whether an entry in use of a table at level 1 is a page of 2 MiB.
    fn is_block(e: u64) -> (r: bool)
        requires
            Self::step(1, e) !is Absent,
        ensures
            r == (Self::step(1, e) is Leaf),
    ;

    /// Level 0 holds pages; an entry of zeros says nothing; a table is named by its address.
    proof fn steps(level: int, e: u64)
        ensures
            Self::step(0, e) !is Table,
            Self::step(level, 0) is Absent,
            Self::step(level, e) matches Step::Table(n) ==> n == Self::address(e),
            Self::page_span(0) == 0x1000,
            Self::page_span(1) == 0x20_0000,
    ;

    /// An entry that names a table does so at every level above 0.
    proof fn links(level: int, t: u64)
        requires
            1 <= level <= 3,
            is_table_address(t),
        ensures
            Self::step(level, Self::link(t)) == Step::Table(t),
    ;

    /// Pages are at the address that their entries were made with, and as they were made.
    proof fn pages(pa: u64, prot: Prot)
        requires
            pa % 4096 == 0,
            pa < 0x1_0000_0000_0000,
        ensures
            Self::step(0, Self::page(pa, prot)) is Leaf,
            Self::address(Self::page(pa, prot)) == pa,
            Self::step(1, Self::block(pa)) is Leaf,
            Self::address(Self::block(pa)) == pa,
    ;

    /// The pages of 4 KiB map what the page of 2 MiB mapped.
    proof fn splits(e: u64, va: u64)
        requires
            Self::step(1, e) is Leaf,
        ensures
            ({
                let p = Self::split(e, index(va, 0));
                &&& Self::step(0, p) is Leaf
                &&& Self::attrs(p) == Self::attrs(e)
                &&& in_page(Self::address(p), Self::page_span(0), va) == in_page(
                    Self::address(e),
                    Self::page_span(1),
                    va,
                )
            }),
    ;
}

/// Where a virtual address is mapped, and how.
pub struct Mapping {
    /// The physical address.
    pub phys: int,
    /// The page's attributes.
    pub attrs: u64,
}

/// The page that a walk for `va` ends at, from table `t` at `level`: its level and its entry.
pub open spec fn walk<F: Format>(m: Map<u64, Seq<u64>>, t: u64, level: int, va: u64) -> Option<
    (int, u64),
>
    decreases level,
{
    let e = m[t][index(va, level)];
    match F::step(level, e) {
        Step::Absent => None,
        Step::Leaf => Some((level, e)),
        Step::Table(n) => if level <= 0 {
            None
        } else {
            walk::<F>(m, n, level - 1, va)
        },
    }
}

/// The table at level `k` that a walk for `va` comes to, from table `t` at `level`.
pub open spec fn below<F: Format>(
    m: Map<u64, Seq<u64>>,
    t: u64,
    level: int,
    va: u64,
    k: int,
) -> Option<u64>
    decreases level,
{
    if k == level {
        Some(t)
    } else if level <= 0 {
        None
    } else {
        match F::step(level, m[t][index(va, level)]) {
            Step::Table(n) => below::<F>(m, n, level - 1, va, k),
            _ => None,
        }
    }
}

/// Every table that a walk from `root` can come to is there.
pub open spec fn sound<F: Format>(m: Map<u64, Seq<u64>>, root: u64) -> bool {
    forall|va: u64, k: int|
        0 <= k <= 3 ==> match #[trigger] below::<F>(m, root, 3, va, k) {
            Some(t) => m.contains_key(t) && m[t].len() == 512,
            None => true,
        }
}

/// Walks for `a` and `b` take the same entries above level `k`.
pub open spec fn same_path(a: u64, b: u64, k: int) -> bool {
    &&& k < 3 ==> index(a, 3) == index(b, 3)
    &&& k < 2 ==> index(a, 2) == index(b, 2)
    &&& k < 1 ==> index(a, 1) == index(b, 1)
}

/// `a` and `b` are in the same page of 4 KiB, as far as a walk looks at them.
pub open spec fn same_page(a: u64, b: u64) -> bool {
    same_path(a, b, 0) && index(a, 0) == index(b, 0)
}

/// No table is come to on two ways.
pub open spec fn tree<F: Format>(m: Map<u64, Seq<u64>>, root: u64) -> bool {
    forall|a: u64, i: int, b: u64, j: int|
        0 <= i <= 3 && 0 <= j <= 3 && (#[trigger] below::<F>(m, root, 3, a, i)) is Some
            && below::<F>(m, root, 3, a, i) == (#[trigger] below::<F>(m, root, 3, b, j)) ==> i == j
            && same_path(a, b, i)
}

/// The physical address of `va`, in a page of `span` bytes whose entry holds `address`.
pub open spec fn in_page(address: u64, span: int, va: u64) -> int {
    address as int - address as int % span + va as int % span
}

/// Where `va` is mapped under `root`.
pub open spec fn mapping<F: Format>(m: Map<u64, Seq<u64>>, root: u64, va: u64) -> Option<Mapping> {
    match walk::<F>(m, root, 3, va) {
        None => None,
        Some((level, e)) => Some(
            Mapping {
                phys: in_page(F::address(e), F::page_span(level), va),
                attrs: F::attrs(e),
            },
        ),
    }
}

/// Tables `m` after entry `i` of table `t` is set to `e`.
pub open spec fn written(m: Map<u64, Seq<u64>>, t: u64, i: int, e: u64) -> Map<u64, Seq<u64>> {
    m.insert(t, m[t].update(i, e))
}

/// Every table of `m` is in `n` with the same entries.
pub open spec fn kept(m: Map<u64, Seq<u64>>, n: Map<u64, Seq<u64>>) -> bool {
    forall|t: u64| #[trigger] m.contains_key(t) ==> n.contains_key(t) && n[t] == m[t]
}

/// The page tables of a memory: at each address, the entries.
pub type Tables = Map<u64, Seq<u64>>;

/// A number of tables.
pub type TableCount = nat;

/// The memory that page tables are in.
pub trait TableMemory {
    /// The tables: at each address, the entries.
    spec fn tables(&self) -> Tables;

    /// How many tables can still be made.
    spec fn room(&self) -> TableCount;

    /// The entry of a table.
    fn read_entry(&self, table: u64, index: usize) -> (e: u64)
        requires
            self.tables().contains_key(table),
            self.tables()[table].len() == 512,
            index < 512,
        ensures
            e == self.tables()[table][index as int],
    ;

    /// Set the entry of a table.
    fn write_entry(&mut self, table: u64, index: usize, value: u64)
        requires
            old(self).tables().contains_key(table),
            old(self).tables()[table].len() == 512,
            index < 512,
        ensures
            final(self).tables() == written(old(self).tables(), table, index as int, value),
            final(self).room() == old(self).room(),
    ;

    /// Make a table with nothing mapped.
    fn alloc_table(&mut self) -> (t: u64)
        requires
            old(self).room() > 0,
        ensures
            is_table_address(t),
            !old(self).tables().contains_key(t),
            final(self).tables() == old(self).tables().insert(t, Seq::new(512, |i: int| 0u64)),
            final(self).room() == old(self).room() - 1,
    ;
}

/// Page tables one behind the other in frames from number `first`, up to a limit.
pub struct TableArena {
    first: u64,
    limit: usize,
    tables: Vec<Vec<u64>>,
}

impl TableArena {
    /// The frames have addresses within the address field.
    #[verifier::type_invariant]
    closed spec fn in_range(&self) -> bool {
        &&& self.tables@.len() <= self.limit
        &&& self.first + self.limit <= 0x10_0000_0000
        &&& forall|i: int| 0 <= i < self.tables@.len() ==> (#[trigger] self.tables@[i])@.len() == 512
    }

    /// Room for `limit` tables in the frames from number `first`.
    pub fn new(first: u64, limit: usize) -> (arena: TableArena)
        requires
            first + limit <= 0x10_0000_0000,
        ensures
            arena.tables() == Map::<u64, Seq<u64>>::empty(),
            arena.room() == limit,
    {
        let arena = TableArena { first, limit, tables: Vec::new() };
        assert(arena.tables() =~= Map::<u64, Seq<u64>>::empty());
        arena
    }
}

impl TableMemory for TableArena {
    closed spec fn tables(&self) -> Tables {
        Map::new(
            |t: u64|
                t % 4096 == 0 && self.first <= t / 4096 && t / 4096 - self.first
                    < self.tables@.len(),
            |t: u64| self.tables@[t / 4096 - self.first]@,
        )
    }

    closed spec fn room(&self) -> TableCount {
        (self.limit - self.tables@.len()) as nat
    }

    fn read_entry(&self, table: u64, index: usize) -> (e: u64) {
        proof {
            use_type_invariant(self);
        }
        let i: usize = (table / PAGE - self.first) as usize;
        self.tables[i][index]
    }

    fn write_entry(&mut self, table: u64, index: usize, value: u64) {
        proof {
            use_type_invariant(&*self);
        }
        let ghost before = *self;
        let i: usize = (table / PAGE - self.first) as usize;
        let mut all: Vec<Vec<u64>> = Vec::new();
        core::mem::swap(&mut all, &mut self.tables);
        let mut entries: Vec<u64> = all[i].clone();
        entries.set(index, value);
        all.set(i, entries);
        self.tables = all;
        assert(self.tables() =~= written(before.tables(), table, index as int, value));
    }

    fn alloc_table(&mut self) -> (t: u64) {
        proof {
            use_type_invariant(&*self);
        }
        let ghost before = *self;
        let n: usize = self.tables.len();
        let t: u64 = (self.first + n as u64) * PAGE;
        let entries: Vec<u64> = vec![0u64; 512];
        let mut all: Vec<Vec<u64>> = Vec::new();
        core::mem::swap(&mut all, &mut self.tables);
        all.push(entries);
        self.tables = all;
        assert(entries@ =~= Seq::new(512, |i: int| 0u64));
        assert(self.tables() =~= before.tables().insert(t, Seq::new(512, |i: int| 0u64)));
        t
    }
}

/// The entry that a walk for `vaddr` takes at `level`.
pub fn table_index(vaddr: u64, level: u32) -> (i: usize)
    requires
        level <= 3,
    ensures
        i == index(vaddr, level as int),
{
    assert((vaddr >> 12u32) & 0x1ff == (vaddr / 0x1000) % 512 && (vaddr >> 21u32) & 0x1ff == (vaddr
        / 0x20_0000) % 512 && (vaddr >> 30u32) & 0x1ff == (vaddr / 0x4000_0000) % 512 && (vaddr
        >> 39u32) & 0x1ff == (vaddr / 0x80_0000_0000) % 512) by (bit_vector);
    ((vaddr >> (12 + 9 * level)) & 0x1ff) as usize
}

/// The page that `vaddr` is in.
pub fn page_base(vaddr: u64) -> (v: u64)
    ensures
        v == vaddr - vaddr % 4096,
        forall|level: int| #[trigger] index(v, level) == index(vaddr, level),
{
    assert(vaddr & !0xfffu64 == vaddr - vaddr % 4096) by (bit_vector);
    let v: u64 = vaddr & !0xfff;
    proof {
        let a = vaddr as int;
        let b = v as int;
        assert(b / 0x1000 == a / 0x1000);
        assert(b / 0x20_0000 == b / 0x1000 / 512 && a / 0x20_0000 == a / 0x1000 / 512);
        assert(b / 0x4000_0000 == b / 0x20_0000 / 512 && a / 0x4000_0000 == a / 0x20_0000 / 512);
        assert(b / 0x80_0000_0000 == b / 0x4000_0000 / 512 && a / 0x80_0000_0000 == a / 0x4000_0000
            / 512);
        assert forall|level: int| #[trigger] index(v, level) == index(vaddr, level) by {
            assert(b / entry_span(level) == a / entry_span(level));
        }
    }
    v
}

/// A table with the entries of another.
pub fn clone_table<M: TableMemory>(mem: &mut M, orig: u64) -> (t: u64)
    requires
        old(mem).tables().contains_key(orig),
        old(mem).tables()[orig].len() == 512,
        old(mem).room() > 0,
    ensures
        is_table_address(t),
        !old(mem).tables().contains_key(t),
        final(mem).tables() == old(mem).tables().insert(t, old(mem).tables()[orig]),
        final(mem).room() == old(mem).room() - 1,
{
    let ghost m = mem.tables();
    let ghost room = mem.room();
    let t: u64 = mem.alloc_table();
    let mut i: usize = 0;
    while i < 512
        invariant
            i <= 512,
            m.contains_key(orig),
            m[orig].len() == 512,
            !m.contains_key(t),
            mem.room() == room - 1,
            mem.tables().contains_key(t),
            mem.tables()[t].len() == 512,
            mem.tables() == m.insert(t, mem.tables()[t]),
            forall|j: int| 0 <= j < i ==> mem.tables()[t][j] == m[orig][j],
        decreases 512 - i,
    {
        let e: u64 = mem.read_entry(orig, i);
        mem.write_entry(t, i, e);
        i = i + 1;
    }
    assert(mem.tables()[t] =~= m[orig]);
    t
}

/// An entry made of an address and flags, taken apart again.
pub(crate) proof fn lemma_fields(pa: u64, flags: u64, mask: u64, bit: u64)
    by (bit_vector)
    requires
        pa & mask == pa,
        flags & mask == 0,
        bit & mask == 0,
    ensures
        (pa | flags) & mask == pa,
        (pa | flags) & !mask == flags,
        (pa | flags) & bit == flags & bit,
{
}

/// A walk for `va` goes through the entry that one for `v` takes at level `k`.
pub open spec fn hits(va: u64, v: u64, k: int) -> bool {
    same_path(va, v, k) && index(va, k) == index(v, k)
}

/// A walk for `va` from table `t` at `level` finds the same in `m` and in `n`, down to level `k`.
spec fn agree<F: Format>(
    m: Map<u64, Seq<u64>>,
    n: Map<u64, Seq<u64>>,
    t: u64,
    level: int,
    va: u64,
    k: int,
) -> bool {
    forall|j: int|
        k <= j <= level ==> match #[trigger] below::<F>(m, t, level, va, j) {
            Some(x) => {
                let e = m[x][index(va, j)];
                let f = n[x][index(va, j)];
                F::step(j, e) == F::step(j, f) && (F::step(j, e) is Leaf ==> e == f)
            },
            None => true,
        }
}

/// The table at a level, from the one above.
pub(crate) proof fn lemma_below_step<F: Format>(m: Map<u64, Seq<u64>>, t: u64, level: int, va: u64, k: int)
    requires
        0 <= k < level,
    ensures
        below::<F>(m, t, level, va, k) == (match below::<F>(m, t, level, va, k + 1) {
            Some(x) => match F::step(k + 1, m[x][index(va, k + 1)]) {
                Step::Table(n) => Some(n),
                _ => None,
            },
            None => None,
        }),
    decreases level,
{
    if k + 1 < level {
        if let Step::Table(n) = F::step(level, m[t][index(va, level)]) {
            lemma_below_step::<F>(m, n, level - 1, va, k);
        }
    } else {
        reveal_with_fuel(below, 2);
    }
}

/// A walk goes on from any table that it comes to.
pub(crate) proof fn lemma_walk_from<F: Format>(m: Map<u64, Seq<u64>>, t: u64, level: int, va: u64, k: int)
    requires
        0 <= k <= level,
        below::<F>(m, t, level, va, k) is Some,
    ensures
        walk::<F>(m, t, level, va) == walk::<F>(m, below::<F>(m, t, level, va, k)->0, k, va),
    decreases level,
{
    if k < level {
        if let Step::Table(n) = F::step(level, m[t][index(va, level)]) {
            lemma_walk_from::<F>(m, n, level - 1, va, k);
        }
    }
}

/// What comes below a table that a walk comes to.
proof fn lemma_below_from<F: Format>(
    m: Map<u64, Seq<u64>>,
    t: u64,
    level: int,
    va: u64,
    k: int,
    j: int,
)
    requires
        0 <= j <= k <= level,
        below::<F>(m, t, level, va, k) is Some,
    ensures
        below::<F>(m, t, level, va, j) == below::<F>(
            m,
            below::<F>(m, t, level, va, k)->0,
            k,
            va,
            j,
        ),
    decreases level,
{
    if k < level {
        if let Step::Table(n) = F::step(level, m[t][index(va, level)]) {
            lemma_below_from::<F>(m, n, level - 1, va, k, j);
        }
    }
}

/// Walks that take the same entries come to the same tables.
pub(crate) proof fn lemma_same_path<F: Format>(
    m: Map<u64, Seq<u64>>,
    t: u64,
    level: int,
    a: u64,
    b: u64,
    k: int,
)
    requires
        0 <= k <= level <= 3,
        same_path(a, b, k),
    ensures
        below::<F>(m, t, level, a, k) == below::<F>(m, t, level, b, k),
    decreases level,
{
    if k < level {
        assert(index(a, level) == index(b, level));
        if let Step::Table(n) = F::step(level, m[t][index(a, level)]) {
            lemma_same_path::<F>(m, n, level - 1, a, b, k);
        }
    }
}

/// Walks that take the same entries down to a page find the same page.
pub(crate) proof fn lemma_same_page<F: Format>(m: Map<u64, Seq<u64>>, t: u64, level: int, a: u64, b: u64)
    requires
        0 <= level <= 3,
        same_page(a, b),
    ensures
        walk::<F>(m, t, level, a) == walk::<F>(m, t, level, b),
    decreases level,
{
    assert(index(a, level) == index(b, level));
    if level > 0 {
        if let Step::Table(n) = F::step(level, m[t][index(a, level)]) {
            lemma_same_page::<F>(m, n, level - 1, a, b);
        }
    }
}

/// Tables that agree down to level `k` give the same tables at level `k - 1` and above.
proof fn lemma_agree_below<F: Format>(
    m: Map<u64, Seq<u64>>,
    n: Map<u64, Seq<u64>>,
    t: u64,
    level: int,
    va: u64,
    k: int,
)
    requires
        0 <= level,
        0 <= k,
        agree::<F>(m, n, t, level, va, k),
    ensures
        forall|j: int|
            k - 1 <= j <= level && 0 <= j ==> #[trigger] below::<F>(n, t, level, va, j)
                == below::<F>(m, t, level, va, j),
    decreases level,
{
    assert forall|j: int| k - 1 <= j <= level && 0 <= j implies #[trigger] below::<F>(
        n,
        t,
        level,
        va,
        j,
    ) == below::<F>(m, t, level, va, j) by {
        if j < level {
            assert(below::<F>(m, t, level, va, level) == Some(t));
            if let Step::Table(x) = F::step(level, m[t][index(va, level)]) {
                assert forall|i: int| k <= i <= level - 1 implies match #[trigger] below::<F>(
                    m,
                    x,
                    level - 1,
                    va,
                    i,
                ) {
                    Some(y) => {
                        let e = m[y][index(va, i)];
                        let f = n[y][index(va, i)];
                        F::step(i, e) == F::step(i, f) && (F::step(i, e) is Leaf ==> e == f)
                    },
                    None => true,
                } by {
                    assert(below::<F>(m, t, level, va, i) == below::<F>(m, x, level - 1, va, i));
                }
                lemma_agree_below::<F>(m, n, x, level - 1, va, k);
                assert(below::<F>(n, x, level - 1, va, j) == below::<F>(m, x, level - 1, va, j));
            }
        }
    }
}

/// Tables that agree all the way give the same page.
proof fn lemma_agree_walk<F: Format>(
    m: Map<u64, Seq<u64>>,
    n: Map<u64, Seq<u64>>,
    t: u64,
    level: int,
    va: u64,
)
    requires
        0 <= level,
        agree::<F>(m, n, t, level, va, 0),
    ensures
        walk::<F>(n, t, level, va) == walk::<F>(m, t, level, va),
    decreases level,
{
    assert(below::<F>(m, t, level, va, level) == Some(t));
    if level > 0 {
        if let Step::Table(x) = F::step(level, m[t][index(va, level)]) {
            assert forall|i: int| 0 <= i <= level - 1 implies match #[trigger] below::<F>(
                m,
                x,
                level - 1,
                va,
                i,
            ) {
                Some(y) => {
                    let e = m[y][index(va, i)];
                    let f = n[y][index(va, i)];
                    F::step(i, e) == F::step(i, f) && (F::step(i, e) is Leaf ==> e == f)
                },
                None => true,
            } by {
                assert(below::<F>(m, t, level, va, i) == below::<F>(m, x, level - 1, va, i));
            }
            lemma_agree_walk::<F>(m, n, x, level - 1, va);
        }
    }
}

/// Every walk finds the same page, and comes to the same tables.
pub open spec fn same_walks<F: Format>(
    m: Map<u64, Seq<u64>>,
    n: Map<u64, Seq<u64>>,
    root: u64,
) -> bool {
    &&& forall|va: u64| #[trigger] walk::<F>(n, root, 3, va) == walk::<F>(m, root, 3, va)
    &&& forall|va: u64, j: int|
        0 <= j <= 3 ==> #[trigger] below::<F>(n, root, 3, va, j) == below::<F>(m, root, 3, va, j)
}

/// No walk comes to table `t`.
pub open spec fn detached<F: Format>(m: Map<u64, Seq<u64>>, root: u64, t: u64) -> bool {
    forall|va: u64, j: int| 0 <= j <= 3 ==> #[trigger] below::<F>(m, root, 3, va, j) != Some(t)
}

/// Every table of `m` is still there in `n`, and a walk under `root` comes to no table of `m` that it did
/// not come to before.
#[verifier::opaque]
pub open spec fn paths_kept<F: Format>(
    m: Map<u64, Seq<u64>>,
    n: Map<u64, Seq<u64>>,
    root: u64,
) -> bool {
    &&& forall|t: u64| #[trigger] m.contains_key(t) ==> n.contains_key(t)
    &&& forall|va: u64, k: int|
        0 <= k <= 3 ==> match #[trigger] below::<F>(n, root, 3, va, k) {
            Some(t) => below::<F>(m, root, 3, va, k) == Some(t) || !m.contains_key(t),
            None => true,
        }
}

pub(crate) proof fn lemma_paths_kept_twice<F: Format>(
    m: Map<u64, Seq<u64>>,
    x: Map<u64, Seq<u64>>,
    n: Map<u64, Seq<u64>>,
    root: u64,
)
    requires
        paths_kept::<F>(m, x, root),
        paths_kept::<F>(x, n, root),
    ensures
        paths_kept::<F>(m, n, root),
{
    reveal(paths_kept);
    assert forall|va: u64, k: int| 0 <= k <= 3 implies match #[trigger] below::<F>(
        n,
        root,
        3,
        va,
        k,
    ) {
        Some(t) => below::<F>(m, root, 3, va, k) == Some(t) || !m.contains_key(t),
        None => true,
    } by {
        if let Some(t) = below::<F>(n, root, 3, va, k) {
            if below::<F>(x, root, 3, va, k) == Some(t) {
                assert(below::<F>(m, root, 3, va, k) == Some(t) || !m.contains_key(t));
            } else if m.contains_key(t) {
                assert(x.contains_key(t));
            }
        }
    }
}

/// Walks that are the same come to the same tables.
pub(crate) proof fn lemma_same_paths<F: Format>(
    m: Map<u64, Seq<u64>>,
    n: Map<u64, Seq<u64>>,
    root: u64,
)
    requires
        forall|t: u64| #[trigger] m.contains_key(t) ==> n.contains_key(t),
        forall|va: u64, k: int|
            0 <= k <= 3 ==> #[trigger] below::<F>(n, root, 3, va, k) == below::<F>(
                m,
                root,
                3,
                va,
                k,
            ),
    ensures
        paths_kept::<F>(m, n, root),
{
    reveal(paths_kept);
}

/// **Law:** an address space is what its own tables say: as long as none of them changes, nothing
/// in it does, whatever is written elsewhere.
pub proof fn law_untouched_tables_keep_the_space<F: Format>(
    m: Map<u64, Seq<u64>>,
    n: Map<u64, Seq<u64>>,
    root: u64,
)
    requires
        sound::<F>(m, root),
        forall|va: u64, j: int|
            0 <= j <= 3 ==> match #[trigger] below::<F>(m, root, 3, va, j) {
                Some(t) => n.contains_key(t) && n[t] == m[t],
                None => true,
            },
    ensures
        same_walks::<F>(m, n, root),
        sound::<F>(n, root),
        tree::<F>(m, root) ==> tree::<F>(n, root),
{
    assert forall|va: u64| agree::<F>(m, n, root, 3, va, 0) by {}
    assert forall|va: u64| #[trigger] walk::<F>(n, root, 3, va) == walk::<F>(m, root, 3, va) by {
        assert(agree::<F>(m, n, root, 3, va, 0));
        lemma_agree_walk::<F>(m, n, root, 3, va);
    }
    assert forall|va: u64, j: int| 0 <= j <= 3 implies #[trigger] below::<F>(n, root, 3, va, j)
        == below::<F>(m, root, 3, va, j) by {
        assert(agree::<F>(m, n, root, 3, va, 0));
        lemma_agree_below::<F>(m, n, root, 3, va, 0);
    }
}

/// A new table that nothing points to changes nothing.
pub(crate) proof fn lemma_add_table<F: Format>(m: Map<u64, Seq<u64>>, root: u64, t: u64, s: Seq<u64>)
    requires
        sound::<F>(m, root),
        !m.contains_key(t),
    ensures
        same_walks::<F>(m, m.insert(t, s), root),
        sound::<F>(m.insert(t, s), root),
        tree::<F>(m, root) ==> tree::<F>(m.insert(t, s), root),
        detached::<F>(m.insert(t, s), root, t),
{
    law_untouched_tables_keep_the_space::<F>(m, m.insert(t, s), root);
}

/// An edit changes nothing for a walk that does not go through the entry.
proof fn lemma_write_miss<F: Format>(
    m: Map<u64, Seq<u64>>,
    root: u64,
    v: u64,
    k: int,
    e: u64,
    va: u64,
)
    requires
        0 <= k <= 3,
        sound::<F>(m, root),
        tree::<F>(m, root),
        below::<F>(m, root, 3, v, k) is Some,
        !hits(va, v, k),
    ensures
        ({
            let n = written(m, below::<F>(m, root, 3, v, k)->0, index(v, k), e);
            &&& walk::<F>(n, root, 3, va) == walk::<F>(m, root, 3, va)
            &&& forall|j: int|
                0 <= j <= 3 ==> #[trigger] below::<F>(n, root, 3, va, j) == below::<F>(
                    m,
                    root,
                    3,
                    va,
                    j,
                )
        }),
{
    let t = below::<F>(m, root, 3, v, k)->0;
    let n = written(m, t, index(v, k), e);
    assert(agree::<F>(m, n, root, 3, va, 0)) by {
        assert forall|j: int| 0 <= j <= 3 implies match #[trigger] below::<F>(m, root, 3, va, j) {
            Some(x) => {
                let a = m[x][index(va, j)];
                let b = n[x][index(va, j)];
                F::step(j, a) == F::step(j, b) && (F::step(j, a) is Leaf ==> a == b)
            },
            None => true,
        } by {
            if below::<F>(m, root, 3, va, j) == Some(t) {
                assert(j == k && same_path(va, v, k));
                assert(n[t][index(va, j)] == m[t][index(va, j)]);
            }
        }
    }
    lemma_agree_walk::<F>(m, n, root, 3, va);
    lemma_agree_below::<F>(m, n, root, 3, va, 0);
}

/// A walk that goes through an edited entry comes to it as before, and goes on from there.
proof fn lemma_write_hit<F: Format>(
    m: Map<u64, Seq<u64>>,
    root: u64,
    v: u64,
    k: int,
    e: u64,
    va: u64,
)
    requires
        0 <= k <= 3,
        sound::<F>(m, root),
        tree::<F>(m, root),
        below::<F>(m, root, 3, v, k) is Some,
        hits(va, v, k),
    ensures
        ({
            let t = below::<F>(m, root, 3, v, k)->0;
            let n = written(m, t, index(v, k), e);
            &&& n[t][index(va, k)] == e
            &&& below::<F>(n, root, 3, va, k) == Some(t)
            &&& forall|j: int|
                k <= j <= 3 ==> #[trigger] below::<F>(n, root, 3, va, j) == below::<F>(
                    m,
                    root,
                    3,
                    va,
                    j,
                )
            &&& walk::<F>(n, root, 3, va) == walk::<F>(n, t, k, va)
            &&& forall|j: int|
                0 <= j <= k ==> #[trigger] below::<F>(n, root, 3, va, j) == below::<F>(
                    n,
                    t,
                    k,
                    va,
                    j,
                )
        }),
{
    let t = below::<F>(m, root, 3, v, k)->0;
    let n = written(m, t, index(v, k), e);
    lemma_same_path::<F>(m, root, 3, va, v, k);
    assert(agree::<F>(m, n, root, 3, va, k + 1)) by {
        assert forall|j: int| k + 1 <= j <= 3 implies match #[trigger] below::<F>(
            m,
            root,
            3,
            va,
            j,
        ) {
            Some(x) => {
                let a = m[x][index(va, j)];
                let b = n[x][index(va, j)];
                F::step(j, a) == F::step(j, b) && (F::step(j, a) is Leaf ==> a == b)
            },
            None => true,
        } by {
            assert(below::<F>(m, root, 3, va, j) != Some(t));
        }
    }
    lemma_agree_below::<F>(m, n, root, 3, va, k + 1);
    lemma_walk_from::<F>(n, root, 3, va, k);
    assert forall|j: int| 0 <= j <= k implies #[trigger] below::<F>(n, root, 3, va, j)
        == below::<F>(n, t, k, va, j) by {
        lemma_below_from::<F>(n, root, 3, va, k, j);
    }
}

/// An entry that names no table: what it says is what walks through it find.
pub(crate) proof fn lemma_write_page<F: Format>(m: Map<u64, Seq<u64>>, root: u64, v: u64, k: int, e: u64)
    requires
        0 <= k <= 3,
        sound::<F>(m, root),
        tree::<F>(m, root),
        below::<F>(m, root, 3, v, k) is Some,
        F::step(k, e) !is Table,
    ensures
        ({
            let n = written(m, below::<F>(m, root, 3, v, k)->0, index(v, k), e);
            &&& sound::<F>(n, root)
            &&& tree::<F>(n, root)
            &&& forall|va: u64| #[trigger]
                walk::<F>(n, root, 3, va) == (if hits(va, v, k) {
                    if F::step(k, e) is Leaf {
                        Some((k, e))
                    } else {
                        None
                    }
                } else {
                    walk::<F>(m, root, 3, va)
                })
            &&& forall|va: u64, j: int|
                0 <= j <= 3 ==> #[trigger] below::<F>(n, root, 3, va, j) == (if hits(va, v, k) && j
                    < k {
                    None
                } else {
                    below::<F>(m, root, 3, va, j)
                })
        }),
{
    let t = below::<F>(m, root, 3, v, k)->0;
    let n = written(m, t, index(v, k), e);
    assert forall|va: u64| #[trigger]
        walk::<F>(n, root, 3, va) == (if hits(va, v, k) {
            if F::step(k, e) is Leaf {
                Some((k, e))
            } else {
                None
            }
        } else {
            walk::<F>(m, root, 3, va)
        }) by {
        if hits(va, v, k) {
            lemma_write_hit::<F>(m, root, v, k, e, va);
        } else {
            lemma_write_miss::<F>(m, root, v, k, e, va);
        }
    }
    assert forall|va: u64, j: int| 0 <= j <= 3 implies #[trigger] below::<F>(n, root, 3, va, j)
        == (if hits(va, v, k) && j < k {
        None
    } else {
        below::<F>(m, root, 3, va, j)
    }) by {
        if hits(va, v, k) {
            lemma_write_hit::<F>(m, root, v, k, e, va);
            assert(j < k ==> below::<F>(n, t, k, va, j) is None);
        } else {
            lemma_write_miss::<F>(m, root, v, k, e, va);
        }
    }
}

/// An entry that names the same table as before, with other attributes.
pub(crate) proof fn lemma_write_same<F: Format>(m: Map<u64, Seq<u64>>, root: u64, v: u64, k: int, e: u64)
    requires
        0 <= k <= 3,
        sound::<F>(m, root),
        tree::<F>(m, root),
        below::<F>(m, root, 3, v, k) is Some,
        F::step(k, e) is Table,
        F::step(k, e) == F::step(k, m[below::<F>(m, root, 3, v, k)->0][index(v, k)]),
    ensures
        ({
            let n = written(m, below::<F>(m, root, 3, v, k)->0, index(v, k), e);
            &&& sound::<F>(n, root)
            &&& tree::<F>(n, root)
            &&& same_walks::<F>(m, n, root)
        }),
{
    let t = below::<F>(m, root, 3, v, k)->0;
    let n = written(m, t, index(v, k), e);
    assert forall|va: u64| agree::<F>(m, n, root, 3, va, 0) by {
        assert forall|j: int| 0 <= j <= 3 implies match #[trigger] below::<F>(m, root, 3, va, j) {
            Some(x) => {
                let a = m[x][index(va, j)];
                let b = n[x][index(va, j)];
                F::step(j, a) == F::step(j, b) && (F::step(j, a) is Leaf ==> a == b)
            },
            None => true,
        } by {
            if below::<F>(m, root, 3, va, j) == Some(t) {
                assert(j == k && same_path(va, v, k));
                if index(va, k) != index(v, k) {
                    assert(n[t][index(va, j)] == m[t][index(va, j)]);
                }
            }
        }
    }
    assert forall|va: u64| #[trigger] walk::<F>(n, root, 3, va) == walk::<F>(m, root, 3, va) by {
        assert(agree::<F>(m, n, root, 3, va, 0));
        lemma_agree_walk::<F>(m, n, root, 3, va);
    }
    assert forall|va: u64, j: int| 0 <= j <= 3 implies #[trigger] below::<F>(n, root, 3, va, j)
        == below::<F>(m, root, 3, va, j) by {
        assert(agree::<F>(m, n, root, 3, va, 0));
        lemma_agree_below::<F>(m, n, root, 3, va, 0);
    }
}

/// What walks find when an entry is made to name a table that names no table.
pub(crate) proof fn lemma_link<F: Format>(m: Map<u64, Seq<u64>>, root: u64, v: u64, k: int, e: u64, c: u64)
    requires
        1 <= k <= 3,
        sound::<F>(m, root),
        tree::<F>(m, root),
        below::<F>(m, root, 3, v, k) is Some,
        F::step(k, e) == Step::Table(c),
        m.contains_key(c),
        m[c].len() == 512,
        detached::<F>(m, root, c),
        forall|i: int| 0 <= i < 512 ==> F::step(k - 1, #[trigger] m[c][i]) !is Table,
    ensures
        ({
            let n = written(m, below::<F>(m, root, 3, v, k)->0, index(v, k), e);
            &&& sound::<F>(n, root)
            &&& tree::<F>(n, root)
            &&& forall|va: u64| #[trigger]
                walk::<F>(n, root, 3, va) == (if hits(va, v, k) {
                    let p = m[c][index(va, k - 1)];
                    if F::step(k - 1, p) is Leaf {
                        Some((k - 1, p))
                    } else {
                        None
                    }
                } else {
                    walk::<F>(m, root, 3, va)
                })
            &&& forall|va: u64, j: int|
                0 <= j <= 3 ==> #[trigger] below::<F>(n, root, 3, va, j) == (if hits(va, v, k) && j
                    < k {
                    if j == k - 1 {
                        Some(c)
                    } else {
                        None
                    }
                } else {
                    below::<F>(m, root, 3, va, j)
                })
        }),
{
    let t = below::<F>(m, root, 3, v, k)->0;
    let n = written(m, t, index(v, k), e);
    assert(t != c);
    assert forall|va: u64| #[trigger]
        walk::<F>(n, root, 3, va) == (if hits(va, v, k) {
            let p = m[c][index(va, k - 1)];
            if F::step(k - 1, p) is Leaf {
                Some((k - 1, p))
            } else {
                None
            }
        } else {
            walk::<F>(m, root, 3, va)
        }) by {
        if hits(va, v, k) {
            lemma_write_hit::<F>(m, root, v, k, e, va);
            assert(walk::<F>(n, t, k, va) == walk::<F>(n, c, k - 1, va));
            assert(n[c] == m[c]);
        } else {
            lemma_write_miss::<F>(m, root, v, k, e, va);
        }
    }
    assert forall|va: u64, j: int| 0 <= j <= 3 implies #[trigger] below::<F>(n, root, 3, va, j)
        == (if hits(va, v, k) && j < k {
        if j == k - 1 {
            Some(c)
        } else {
            None
        }
    } else {
        below::<F>(m, root, 3, va, j)
    }) by {
        if hits(va, v, k) {
            lemma_write_hit::<F>(m, root, v, k, e, va);
            if j < k {
                assert(below::<F>(n, t, k, va, j) == below::<F>(n, c, k - 1, va, j));
                assert(n[c] == m[c]);
                assert(0 <= index(va, k - 1) < 512);
            }
        } else {
            lemma_write_miss::<F>(m, root, v, k, e, va);
        }
    }
    assert forall|a: u64, i: int, b: u64, j: int|
        0 <= i <= 3 && 0 <= j <= 3 && (#[trigger] below::<F>(n, root, 3, a, i)) is Some
            && below::<F>(n, root, 3, a, i) == (#[trigger] below::<F>(n, root, 3, b, j)) implies i
        == j && same_path(a, b, i) by {
        let x = below::<F>(n, root, 3, a, i);
        if x == Some(c) {
            assert(below::<F>(m, root, 3, a, i) != Some(c));
            assert(below::<F>(m, root, 3, b, j) != Some(c));
        } else {
            assert(below::<F>(m, root, 3, a, i) == x);
            assert(below::<F>(m, root, 3, b, j) == x);
        }
    }
    assert(n.contains_key(c) && n[c].len() == 512);
}

/// Under a root with nothing in it nothing is mapped.
pub(crate) proof fn lemma_empty_root<F: Format>(m: Map<u64, Seq<u64>>, root: u64)
    requires
        m.contains_key(root),
        m[root] == Seq::new(512, |i: int| 0u64),
    ensures
        well_formed::<F>(m, root),
        forall|va: u64| #[trigger] mapping::<F>(m, root, va) is None,
{
    assert forall|va: u64, k: int| 0 <= k < 3 implies #[trigger] below::<F>(
        m,
        root,
        3,
        va,
        k,
    ) is None by {
        F::steps(3, 0);
        assert(0 <= index(va, 3) < 512);
    }
    assert forall|va: u64| #[trigger] mapping::<F>(m, root, va) is None by {
        F::steps(3, 0);
        assert(0 <= index(va, 3) < 512);
    }
}

/// A root with the entries of another has the same walks.
pub(crate) proof fn lemma_copy_root<F: Format>(m: Map<u64, Seq<u64>>, root: u64, r: u64)
    requires
        sound::<F>(m, root),
        tree::<F>(m, root),
        m.contains_key(r),
        m[r] == m[root],
        detached::<F>(m, root, r),
    ensures
        sound::<F>(m, r),
        tree::<F>(m, r),
        forall|va: u64| #[trigger] walk::<F>(m, r, 3, va) == walk::<F>(m, root, 3, va),
        forall|va: u64, j: int|
            0 <= j < 3 ==> #[trigger] below::<F>(m, r, 3, va, j) == below::<F>(m, root, 3, va, j),
{
    let zero = 0u64;
    assert(below::<F>(m, root, 3, zero, 3) == Some(root));
    assert forall|va: u64, j: int| 0 <= j < 3 implies #[trigger] below::<F>(m, r, 3, va, j)
        == below::<F>(m, root, 3, va, j) by {}
    assert forall|va: u64, k: int| 0 <= k <= 3 implies match #[trigger] below::<F>(
        m,
        r,
        3,
        va,
        k,
    ) {
        Some(t) => m.contains_key(t) && m[t].len() == 512,
        None => true,
    } by {
        if k < 3 {
            assert(below::<F>(m, r, 3, va, k) == below::<F>(m, root, 3, va, k));
        }
    }
    assert forall|a: u64, i: int, b: u64, j: int|
        0 <= i <= 3 && 0 <= j <= 3 && (#[trigger] below::<F>(m, r, 3, a, i)) is Some
            && below::<F>(m, r, 3, a, i) == (#[trigger] below::<F>(m, r, 3, b, j)) implies i == j
        && same_path(a, b, i) by {
        if i < 3 {
            assert(below::<F>(m, r, 3, a, i) == below::<F>(m, root, 3, a, i));
            assert(below::<F>(m, root, 3, a, i) != Some(r));
        }
        if j < 3 {
            assert(below::<F>(m, r, 3, b, j) == below::<F>(m, root, 3, b, j));
            assert(below::<F>(m, root, 3, b, j) != Some(r));
        }
    }
}

/// A copy of a table in its place changes no walk.
pub(crate) proof fn lemma_copy_child<F: Format>(
    m: Map<u64, Seq<u64>>,
    root: u64,
    v: u64,
    k: int,
    e: u64,
    c: u64,
    d: u64,
)
    requires
        1 <= k <= 3,
        sound::<F>(m, root),
        tree::<F>(m, root),
        below::<F>(m, root, 3, v, k) is Some,
        F::step(k, m[below::<F>(m, root, 3, v, k)->0][index(v, k)]) == Step::Table(c),
        F::step(k, e) == Step::Table(d),
        m.contains_key(d),
        m[d] == m[c],
        detached::<F>(m, root, d),
    ensures
        ({
            let n = written(m, below::<F>(m, root, 3, v, k)->0, index(v, k), e);
            &&& sound::<F>(n, root)
            &&& tree::<F>(n, root)
            &&& forall|va: u64| #[trigger] walk::<F>(n, root, 3, va) == walk::<F>(m, root, 3, va)
            &&& forall|va: u64, j: int|
                0 <= j <= 3 ==> #[trigger] below::<F>(n, root, 3, va, j) == (if hits(va, v, k) && j
                    == k - 1 {
                    Some(d)
                } else {
                    below::<F>(m, root, 3, va, j)
                })
        }),
{
    let t = below::<F>(m, root, 3, v, k)->0;
    let n = written(m, t, index(v, k), e);
    assert(t != d);
    lemma_below_step::<F>(m, root, 3, v, k - 1);
    assert(below::<F>(m, root, 3, v, k - 1) == Some(c));
    assert(t != c) by {
        if t == c {
            assert(below::<F>(m, root, 3, v, k) == below::<F>(m, root, 3, v, k - 1));
        }
    }
    assert forall|va: u64| hits(va, v, k) implies {
        &&& walk::<F>(n, root, 3, va) == walk::<F>(m, root, 3, va)
        &&& forall|j: int|
            0 <= j < k - 1 ==> #[trigger] below::<F>(n, root, 3, va, j) == below::<F>(
                m,
                root,
                3,
                va,
                j,
            )
    } by {
        lemma_write_hit::<F>(m, root, v, k, e, va);
        lemma_same_path::<F>(m, root, 3, va, v, k);
        lemma_walk_from::<F>(m, root, 3, va, k);
        lemma_below_step::<F>(m, root, 3, va, k - 1);
        assert(below::<F>(m, root, 3, va, k - 1) == Some(c));
        assert(walk::<F>(n, t, k, va) == walk::<F>(n, d, k - 1, va));
        assert(walk::<F>(m, t, k, va) == walk::<F>(m, c, k - 1, va));
        assert(n[d] == m[c]);
        if k > 1 {
            if let Step::Table(x) = F::step(k - 1, m[c][index(va, k - 1)]) {
                assert(agree::<F>(m, n, x, k - 2, va, 0)) by {
                    assert forall|i: int| 0 <= i <= k - 2 implies match #[trigger] below::<F>(
                        m,
                        x,
                        k - 2,
                        va,
                        i,
                    ) {
                        Some(y) => {
                            let a = m[y][index(va, i)];
                            let b = n[y][index(va, i)];
                            F::step(i, a) == F::step(i, b) && (F::step(i, a) is Leaf ==> a == b)
                        },
                        None => true,
                    } by {
                        lemma_below_from::<F>(m, root, 3, va, k - 1, i);
                        assert(below::<F>(m, c, k - 1, va, i) == below::<F>(m, x, k - 2, va, i));
                        assert(below::<F>(m, root, 3, va, i) != Some(t)) by {
                            if below::<F>(m, root, 3, va, i) == Some(t) {
                                assert(below::<F>(m, root, 3, va, i) == below::<F>(
                                    m,
                                    root,
                                    3,
                                    v,
                                    k,
                                ));
                            }
                        }
                    }
                }
                lemma_agree_walk::<F>(m, n, x, k - 2, va);
                lemma_agree_below::<F>(m, n, x, k - 2, va, 0);
            }
        }
        assert forall|j: int| 0 <= j < k - 1 implies #[trigger] below::<F>(n, root, 3, va, j)
            == below::<F>(m, root, 3, va, j) by {
            lemma_below_from::<F>(m, root, 3, va, k - 1, j);
            assert(below::<F>(n, t, k, va, j) == below::<F>(n, d, k - 1, va, j));
            if let Step::Table(x) = F::step(k - 1, m[c][index(va, k - 1)]) {
                assert(below::<F>(n, d, k - 1, va, j) == below::<F>(n, x, k - 2, va, j));
                assert(below::<F>(m, c, k - 1, va, j) == below::<F>(m, x, k - 2, va, j));
            }
        }
    }
    assert forall|va: u64| #[trigger] walk::<F>(n, root, 3, va) == walk::<F>(m, root, 3, va) by {
        if !hits(va, v, k) {
            lemma_write_miss::<F>(m, root, v, k, e, va);
        }
    }
    assert forall|va: u64, j: int| 0 <= j <= 3 implies #[trigger] below::<F>(n, root, 3, va, j)
        == (if hits(va, v, k) && j == k - 1 {
        Some(d)
    } else {
        below::<F>(m, root, 3, va, j)
    }) by {
        if !hits(va, v, k) {
            lemma_write_miss::<F>(m, root, v, k, e, va);
        } else {
            lemma_write_hit::<F>(m, root, v, k, e, va);
            if j == k - 1 {
                assert(below::<F>(n, t, k, va, j) == below::<F>(n, d, k - 1, va, j));
            }
        }
    }
    let zero = 0u64;
    assert forall|va: u64, j: int| 0 <= j <= 3 implies match #[trigger] below::<F>(
        n,
        root,
        3,
        va,
        j,
    ) {
        Some(x) => n.contains_key(x) && n[x].len() == 512,
        None => true,
    } by {
        assert(below::<F>(m, root, 3, va, j) matches Some(x) ==> m.contains_key(x));
        assert(below::<F>(m, root, 3, v, k - 1) == Some(c));
    }
    assert forall|a: u64, i: int, b: u64, j: int|
        0 <= i <= 3 && 0 <= j <= 3 && (#[trigger] below::<F>(n, root, 3, a, i)) is Some
            && below::<F>(n, root, 3, a, i) == (#[trigger] below::<F>(n, root, 3, b, j)) implies i
        == j && same_path(a, b, i) by {
        assert(below::<F>(m, root, 3, a, i) != Some(d));
        assert(below::<F>(m, root, 3, b, j) != Some(d));
    }
}

/// A tree of tables that is all there.
pub open spec fn well_formed<F: Format>(m: Map<u64, Seq<u64>>, root: u64) -> bool {
    sound::<F>(m, root) && tree::<F>(m, root)
}

/// The table at `level` on the way to `va`.
pub open spec fn table_on_path<F: Format>(
    m: Map<u64, Seq<u64>>,
    root: u64,
    va: u64,
    level: int,
) -> Option<u64> {
    below::<F>(m, root, 3, va, level)
}

/// Table `t` is on the way to `v`.
pub open spec fn on_path<F: Format>(m: Map<u64, Seq<u64>>, root: u64, v: u64, t: u64) -> bool {
    exists|k: int| 0 <= k <= 3 && #[trigger] table_on_path::<F>(m, root, v, k) == Some(t)
}

/// No table is lost, and those that are not on the way to `v` keep their entries.
pub open spec fn off_path_kept<F: Format>(
    m: Map<u64, Seq<u64>>,
    n: Map<u64, Seq<u64>>,
    root: u64,
    v: u64,
) -> bool {
    forall|t: u64| #[trigger]
        m.contains_key(t) ==> n.contains_key(t) && (on_path::<F>(m, root, v, t) || n[t] == m[t])
}


/// **Law:** two addresses are in one page exactly if they differ in nothing but the place in it, as far
/// as a walk looks at them.
pub proof fn law_pages_are_4096_bytes(a: u64, b: u64)
    ensures
        same_page(a, b) == (a as int % 0x1_0000_0000_0000 / 4096 == b as int % 0x1_0000_0000_0000
            / 4096),
        a as int % 0x1_0000_0000_0000 == index(a, 3) * 0x80_0000_0000 + index(a, 2) * 0x4000_0000
            + index(a, 1) * 0x20_0000 + index(a, 0) * 0x1000 + a as int % 0x1000,
{
    lemma_digits(a);
    lemma_digits(b);
    let x = page_digits(a);
    let y = page_digits(b);
    lemma_page_number(a);
    lemma_page_number(b);
    if x == y {
        lemma_digits_of(index(a, 3), index(a, 2), index(a, 1), index(a, 0));
        lemma_digits_of(index(b, 3), index(b, 2), index(b, 1), index(b, 0));
    }
}

/// The number of the page of `a`, from the indices of a walk.
spec fn page_digits(a: u64) -> int {
    ((index(a, 3) * 512 + index(a, 2)) * 512 + index(a, 1)) * 512 + index(a, 0)
}

proof fn lemma_digits(a: u64)
    ensures
        a as int % 0x1_0000_0000_0000 == page_digits(a) * 4096 + a as int % 4096,
{
    let x = a as int;
    let p0 = x / 0x1000;
    let p1 = p0 / 512;
    let p2 = p1 / 512;
    let p3 = p2 / 512;
    let p4 = p3 / 512;
    vstd::arithmetic::div_mod::lemma_div_denominator(x, 0x1000, 512);
    vstd::arithmetic::div_mod::lemma_div_denominator(x, 0x20_0000, 512);
    vstd::arithmetic::div_mod::lemma_div_denominator(x, 0x4000_0000, 512);
    assert(index(a, 0) == p0 % 512);
    assert(index(a, 1) == p1 % 512);
    assert(index(a, 2) == p2 % 512);
    assert(index(a, 3) == p3 % 512);
    let r = page_digits(a) * 4096 + x % 0x1000;
    assert(x == p4 * 0x1_0000_0000_0000 + r);
    assert(0 <= r < 0x1_0000_0000_0000);
    vstd::arithmetic::div_mod::lemma_fundamental_div_mod_converse(x, 0x1_0000_0000_0000, p4, r);
}

proof fn lemma_page_number(a: u64)
    ensures
        a as int % 0x1_0000_0000_0000 / 4096 == page_digits(a),
{
    lemma_digits(a);
    vstd::arithmetic::div_mod::lemma_fundamental_div_mod_converse(
        a as int % 0x1_0000_0000_0000,
        4096,
        page_digits(a),
        a as int % 4096,
    );
}

proof fn lemma_digits_of(d3: int, d2: int, d1: int, d0: int)
    requires
        0 <= d3 < 512,
        0 <= d2 < 512,
        0 <= d1 < 512,
        0 <= d0 < 512,
    ensures
        ({
            let n = ((d3 * 512 + d2) * 512 + d1) * 512 + d0;
            &&& n % 512 == d0
            &&& n / 512 % 512 == d1
            &&& n / 512 / 512 % 512 == d2
            &&& n / 512 / 512 / 512 == d3
        }),
{
    let n2 = d3 * 512 + d2;
    let n1 = n2 * 512 + d1;
    let n = n1 * 512 + d0;
    vstd::arithmetic::div_mod::lemma_fundamental_div_mod_converse(n, 512, n1, d0);
    vstd::arithmetic::div_mod::lemma_fundamental_div_mod_converse(n1, 512, n2, d1);
    vstd::arithmetic::div_mod::lemma_fundamental_div_mod_converse(n2, 512, d3, d2);
}

} // verus!
