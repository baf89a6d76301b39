//! Where the segments of a loaded image come to be mapped.

use vstd::prelude::*;

use crate::abi::pex;
use crate::abi::pex::PexView;
use crate::cap::cap::CapType;
use crate::cap::cspace::Cptr;
use crate::cap::model::CSpaceView;
use crate::kernel::arch::edit;
use crate::kernel::arch::edit::UserFormat;
use crate::kernel::arch::range;
use crate::kernel::arch::range::map_run;
use crate::kernel::arch::tables;
use crate::kernel::arch::tables::{Format, Mapping, TableMemory};
use crate::kernel::loader;
use crate::kernel::loader::{LoadState, SegmentMap, L_UNTYPED, PROC_VA_BASE, PROC_VA_END};
use crate::mem::frame::pfn_to_phys;

verus! {

/// The segment that `va` is in: the last one, where several overlap.
pub open spec fn segment_at(maps: Seq<SegmentMap>, va: u64) -> Option<SegmentMap>
    decreases maps.len(),
{
    if maps.len() == 0 {
        None
    } else if range::in_run(va, maps.last().vaddr, maps.last().pages as int) {
        Some(maps.last())
    } else {
        segment_at(maps.drop_last(), va)
    }
}

/// What a segment maps `va` to, for user mode in isolation domain `user` or for the kernel alone.
pub open spec fn segment_mapping<F: UserFormat>(s: SegmentMap, va: u64, user: Option<u64>) -> Mapping {
    Mapping {
        phys: s.pfn * 4096 + (range::walked(va) - s.vaddr),
        attrs: F::attrs_for(s.prot, user),
    }
}

/// A segment has pages in the 2 MiB window `w`.
pub open spec fn touches(s: SegmentMap, w: int) -> bool {
    s.vaddr as int / 0x20_0000 <= w < range::window_end(s.vaddr, s.pages as int)
}

/// One of the segments has pages in the 2 MiB window `w`.
pub open spec fn touched(maps: Seq<SegmentMap>, w: int) -> bool {
    exists|i: int| 0 <= i < maps.len() && touches(#[trigger] maps[i], w)
}

/// How many tables it takes to give each window from `w` on that a segment has pages in a table of
/// 4 KiB pages.
pub open spec fn dividing_touched<F: Format>(
    m: Map<u64, Seq<u64>>,
    root: u64,
    maps: Seq<SegmentMap>,
    w: int,
) -> nat
    decreases 1024 - w,
{
    if w >= 1024 {
        0
    } else {
        (if touched(maps, w) {
            edit::dividing::<F>(m, root, (w * 0x20_0000) as u64)
        } else {
            0
        }) + dividing_touched::<F>(m, root, maps, w + 1)
    }
}

/// Segments that lie in the process window in whole pages.
pub open spec fn in_window(maps: Seq<SegmentMap>) -> bool {
    forall|i: int|
        0 <= i < maps.len() ==> {
            &&& (#[trigger] maps[i]).vaddr % 4096 == 0
            &&& PROC_VA_BASE <= maps[i].vaddr
            &&& maps[i].vaddr + maps[i].pages * 4096 <= PROC_VA_END
        }
}

/// The windows that segments have pages in have tables of 4 KiB pages in `n`; the others are as in
/// `m`.
spec fn touched_divided<F: Format>(
    m: Map<u64, Seq<u64>>,
    n: Map<u64, Seq<u64>>,
    root: u64,
    maps: Seq<SegmentMap>,
) -> bool {
    forall|va: u64|
        {
            &&& #[trigger] edit::divisible::<F>(n, root, va) == edit::divisible::<F>(m, root, va)
            &&& edit::divisible::<F>(m, root, va) ==> edit::dividing::<F>(n, root, va) == (if touched(
                maps,
                range::walked(va) / 0x20_0000,
            ) {
                0
            } else {
                edit::dividing::<F>(m, root, va)
            })
        }
}

/// In `n` every address of a segment is mapped to its frame, and every other one as in `m`.
#[verifier::opaque]
spec fn segments_mapped<F: UserFormat>(
    m: Map<u64, Seq<u64>>,
    n: Map<u64, Seq<u64>>,
    root: u64,
    maps: Seq<SegmentMap>,
    user: Option<u64>,
) -> bool {
    forall|va: u64| #[trigger]
        tables::mapping::<F>(n, root, va) == (match segment_at(maps, va) {
            Some(s) => Some(segment_mapping::<F>(s, va, user)),
            None => tables::mapping::<F>(m, root, va),
        })
}

/// Table `t` is on the way to a page of one of the segments.
pub open spec fn on_segments<F: Format>(
    m: Map<u64, Seq<u64>>,
    root: u64,
    maps: Seq<SegmentMap>,
    t: u64,
) -> bool {
    exists|i: int|
        0 <= i < maps.len() && range::on_run::<F>(
            m,
            root,
            (#[trigger] maps[i]).vaddr,
            maps[i].pages as int,
            t,
        )
}

/// No table is lost, and those that are not on the way to a page of a segment keep their entries.
#[verifier::opaque]
pub open spec fn off_segments_kept<F: Format>(
    m: Map<u64, Seq<u64>>,
    n: Map<u64, Seq<u64>>,
    root: u64,
    maps: Seq<SegmentMap>,
) -> bool {
    forall|t: u64| #[trigger]
        m.contains_key(t) ==> n.contains_key(t) && (on_segments::<F>(m, root, maps, t) || n[t]
            == m[t])
}

/// The tables on the way to one more segment.
proof fn lemma_segments_keep<F: Format>(
    m: Map<u64, Seq<u64>>,
    b: Map<u64, Seq<u64>>,
    n: Map<u64, Seq<u64>>,
    root: u64,
    maps: Seq<SegmentMap>,
    s: SegmentMap,
)
    requires
        off_segments_kept::<F>(m, b, root, maps),
        tables::paths_kept::<F>(m, b, root),
        range::off_run_kept::<F>(b, n, root, s.vaddr, s.pages as int),
    ensures
        off_segments_kept::<F>(m, n, root, maps.push(s)),
{
    reveal(off_segments_kept);
    reveal(range::off_run_kept);
    let all = maps.push(s);
    assert forall|t: u64| #[trigger] m.contains_key(t) implies n.contains_key(t) && (on_segments::<
        F,
    >(m, root, all, t) || n[t] == m[t]) by {
        assert(b.contains_key(t));
        if range::on_run::<F>(b, root, s.vaddr, s.pages as int, t) {
            let va = choose|va: u64|
                range::in_run(va, s.vaddr, s.pages as int) && #[trigger] tables::on_path::<F>(
                    b,
                    root,
                    va,
                    t,
                );
            range::lemma_on_old_path::<F>(m, b, root, va, t);
            assert(all[maps.len() as int] == s);
        } else if on_segments::<F>(m, root, maps, t) {
            let i = choose|i: int|
                0 <= i < maps.len() && range::on_run::<F>(
                    m,
                    root,
                    (#[trigger] maps[i]).vaddr,
                    maps[i].pages as int,
                    t,
                );
            assert(all[i] == maps[i]);
        }
    }
}

proof fn lemma_touched_push(maps: Seq<SegmentMap>, s: SegmentMap, w: int)
    ensures
        touched(maps.push(s), w) == (touched(maps, w) || touches(s, w)),
{
    let all = maps.push(s);
    if touched(maps, w) {
        let i = choose|i: int| 0 <= i < maps.len() && touches(#[trigger] maps[i], w);
        assert(touches(all[i], w));
    }
    if touches(s, w) {
        assert(touches(all[maps.len() as int], w));
    }
    if touched(all, w) {
        let i = choose|i: int| 0 <= i < all.len() && touches(#[trigger] all[i], w);
        if i < maps.len() {
            assert(touches(maps[i], w));
        }
    }
}

/// What one more segment adds to what has to be divided.
proof fn lemma_one_more<F: Format>(
    m: Map<u64, Seq<u64>>,
    b: Map<u64, Seq<u64>>,
    root: u64,
    maps: Seq<SegmentMap>,
    s: SegmentMap,
    w: int,
)
    requires
        512 <= w,
        s.vaddr >= PROC_VA_BASE,
        s.vaddr + s.pages * 4096 <= PROC_VA_END,
        forall|va: u64|
            touches(s, range::walked(va) / 0x20_0000) ==> #[trigger] edit::divisible::<F>(
                m,
                root,
                va,
            ),
        touched_divided::<F>(m, b, root, maps),
    ensures
        ({
            let first = s.vaddr as int / 0x20_0000;
            let end = range::window_end(s.vaddr, s.pages as int);
            dividing_touched::<F>(m, root, maps.push(s), w) == dividing_touched::<F>(
                m,
                root,
                maps,
                w,
            ) + range::dividing_all::<F>(b, root, if w < first { first } else { w }, end)
        }),
    decreases 1024 - w,
{
    let first = s.vaddr as int / 0x20_0000;
    let end = range::window_end(s.vaddr, s.pages as int);
    assert(end <= 1024);
    if w < 1024 {
        lemma_touched_push(maps, s, w);
        lemma_one_more::<F>(m, b, root, maps, s, w + 1);
        let a = (w * 0x20_0000) as u64;
        assert(range::walked(a) / 0x20_0000 == w);
        if touches(s, w) {
            assert(edit::divisible::<F>(m, root, a));
            assert(edit::divisible::<F>(b, root, a) == edit::divisible::<F>(m, root, a));
        }
    }
}

proof fn lemma_prefix_takes_less<F: Format>(
    m: Map<u64, Seq<u64>>,
    root: u64,
    maps: Seq<SegmentMap>,
    n: int,
    w: int,
)
    requires
        0 <= n <= maps.len(),
    ensures
        dividing_touched::<F>(m, root, maps.take(n), w) <= dividing_touched::<F>(m, root, maps, w),
    decreases 1024 - w,
{
    if w < 1024 {
        lemma_prefix_takes_less::<F>(m, root, maps, n, w + 1);
        if touched(maps.take(n), w) {
            let i = choose|i: int|
                0 <= i < maps.take(n).len() && touches(#[trigger] maps.take(n)[i], w);
            assert(touches(maps[i], w));
        }
    }
}

/// One more segment mapped.
proof fn lemma_segment_added<F: UserFormat>(
    m: Map<u64, Seq<u64>>,
    b: Map<u64, Seq<u64>>,
    n: Map<u64, Seq<u64>>,
    root: u64,
    maps: Seq<SegmentMap>,
    s: SegmentMap,
    user: Option<u64>,
)
    requires
        segments_mapped::<F>(m, b, root, maps, user),
        touched_divided::<F>(m, b, root, maps),
        forall|va: u64| #[trigger]
            tables::mapping::<F>(n, root, va) == (if range::in_run(va, s.vaddr, s.pages as int) {
                Some(segment_mapping::<F>(s, va, user))
            } else {
                tables::mapping::<F>(b, root, va)
            }),
        range::windows_divided::<F>(
            b,
            n,
            root,
            s.vaddr as int / 0x20_0000,
            range::window_end(s.vaddr, s.pages as int),
        ),
    ensures
        segments_mapped::<F>(m, n, root, maps.push(s), user),
        touched_divided::<F>(m, n, root, maps.push(s)),
{
    reveal(segments_mapped);
    assert(maps.push(s).drop_last() =~= maps);
    assert forall|va: u64| #[trigger]
        tables::mapping::<F>(n, root, va) == (match segment_at(maps.push(s), va) {
            Some(x) => Some(segment_mapping::<F>(x, va, user)),
            None => tables::mapping::<F>(m, root, va),
        }) by {
        assert(tables::mapping::<F>(b, root, va) == (match segment_at(maps, va) {
            Some(x) => Some(segment_mapping::<F>(x, va, user)),
            None => tables::mapping::<F>(m, root, va),
        }));
    }
    assert forall|va: u64|
        {
            &&& #[trigger] edit::divisible::<F>(n, root, va) == edit::divisible::<F>(m, root, va)
            &&& edit::divisible::<F>(m, root, va) ==> edit::dividing::<F>(n, root, va) == (if touched(
                maps.push(s),
                range::walked(va) / 0x20_0000,
            ) {
                0
            } else {
                edit::dividing::<F>(m, root, va)
            })
        } by {
        lemma_touched_push(maps, s, range::walked(va) / 0x20_0000);
        assert(edit::divisible::<F>(n, root, va) == edit::divisible::<F>(b, root, va));
        assert(edit::divisible::<F>(b, root, va) == edit::divisible::<F>(m, root, va));
    }
}

/// Whether one of the segments has pages in the 2 MiB window `w`.
fn is_touched(maps: &Vec<SegmentMap>, w: u64) -> (b: bool)
    requires
        in_window(maps@),
    ensures
        b == touched(maps@, w as int),
{
    let mut i: usize = 0;
    while i < maps.len()
        invariant
            i <= maps.len(),
            in_window(maps@),
            forall|j: int| 0 <= j < i ==> !touches(#[trigger] maps@[j], w as int),
        decreases maps.len() - i,
    {
        let s = maps[i];
        assert(s.vaddr + s.pages * 4096 <= PROC_VA_END);
        if s.pages > 0 && s.vaddr / 0x20_0000 <= w && w <= (s.vaddr + (s.pages as u64 * 4096 - 1))
            / 0x20_0000 {
            assert(touches(maps@[i as int], w as int));
            return true;
        }
        i = i + 1;
    }
    false
}

/// How many tables it takes to map the segments: one for each 2 MiB page that they have pages in.
/// `None` if one of them has pages in a window where nothing is mapped, or where a larger page is.
pub fn tables_for_segments<F: Format, M: TableMemory>(
    mem: &M,
    root: u64,
    maps: &Vec<SegmentMap>,
) -> (n: Option<u64>)
    requires
        tables::sound::<F>(mem.tables(), root),
        in_window(maps@),
    ensures
        n is Some == (forall|va: u64|
            touched(maps@, range::walked(va) / 0x20_0000) ==> #[trigger] edit::divisible::<F>(
                mem.tables(),
                root,
                va,
            )),
        n matches Some(k) ==> k == dividing_touched::<F>(mem.tables(), root, maps@, 512),
{
    let ghost m = mem.tables();
    let mut w: u64 = 1024;
    let mut n: u64 = 0;
    while w > 512
        invariant
            512 <= w <= 1024,
            m == mem.tables(),
            tables::sound::<F>(m, root),
            in_window(maps@),
            n <= 1024 - w,
            n == dividing_touched::<F>(m, root, maps@, w as int),
            forall|va: u64|
                w <= range::walked(va) / 0x20_0000 < 1024 && touched(
                    maps@,
                    range::walked(va) / 0x20_0000,
                ) ==> #[trigger] edit::divisible::<F>(m, root, va),
        decreases w,
    {
        w = w - 1;
        let a: u64 = w * 0x20_0000;
        assert(range::walked(a) / 0x20_0000 == w);
        if is_touched(maps, w) {
            if !edit::is_divisible::<F, M>(mem, root, a) {
                return None;
            }
            n = n + edit::tables_to_divide::<F, M>(mem, root, a);
            assert forall|va: u64|
                range::walked(va) / 0x20_0000 == w implies #[trigger] edit::divisible::<F>(
                m,
                root,
                va,
            ) by {
                range::lemma_walked_alike(va, a);
                tables::lemma_same_path::<F>(m, root, 3, va, a, 1);
            }
        }
    }
    assert forall|va: u64|
        touched(maps@, range::walked(va) / 0x20_0000) implies #[trigger] edit::divisible::<F>(
        m,
        root,
        va,
    ) by {
        let x = range::walked(va) / 0x20_0000;
        let i = choose|i: int| 0 <= i < maps@.len() && touches(#[trigger] maps@[i], x);
        assert(maps@[i].vaddr + maps@[i].pages * 4096 <= PROC_VA_END);
    }
    Some(n)
}

/// Map the segments of a loaded image, in order: for user mode in isolation domain `user`, or for
/// the kernel alone. Nothing else is mapped otherwise than before.
pub fn map_segments<F: UserFormat, M: TableMemory>(
    mem: &mut M,
    root: u64,
    maps: &Vec<SegmentMap>,
    user: Option<u64>,
)
    requires
        tables::well_formed::<F>(old(mem).tables(), root),
        in_window(maps@),
        forall|va: u64|
            touched(maps@, range::walked(va) / 0x20_0000) ==> #[trigger] edit::divisible::<F>(
                old(mem).tables(),
                root,
                va,
            ),
        old(mem).room() >= dividing_touched::<F>(old(mem).tables(), root, maps@, 512),
    ensures
        tables::well_formed::<F>(final(mem).tables(), root),
        forall|va: u64| #[trigger]
            tables::mapping::<F>(final(mem).tables(), root, va) == (match segment_at(maps@, va) {
                Some(s) => Some(segment_mapping::<F>(s, va, user)),
                None => tables::mapping::<F>(old(mem).tables(), root, va),
            }),
        user is Some ==> forall|va: u64|
            segment_at(maps@, va) is Some || F::user_access(old(mem).tables(), root, va)
                ==> #[trigger] F::user_access(final(mem).tables(), root, va),
        off_segments_kept::<F>(old(mem).tables(), final(mem).tables(), root, maps@),
        tables::paths_kept::<F>(old(mem).tables(), final(mem).tables(), root),
        final(mem).room() == old(mem).room() - dividing_touched::<F>(
            old(mem).tables(),
            root,
            maps@,
            512,
        ),
{
    let ghost m = mem.tables();
    let ghost room = mem.room();
    let mut i: usize = 0;
    proof {
        reveal(segments_mapped);
        reveal(off_segments_kept);
        tables::lemma_same_paths::<F>(m, m, root);
        assert(maps@.take(0) =~= Seq::empty());
        lemma_nothing_to_divide::<F>(m, root, 512);
    }
    while i < maps.len()
        invariant
            i <= maps.len(),
            in_window(maps@),
            tables::well_formed::<F>(mem.tables(), root),
            forall|va: u64|
                touched(maps@, range::walked(va) / 0x20_0000) ==> #[trigger] edit::divisible::<F>(
                    m,
                    root,
                    va,
                ),
            segments_mapped::<F>(m, mem.tables(), root, maps@.take(i as int), user),
            user is Some ==> forall|va: u64|
                segment_at(maps@.take(i as int), va) is Some || F::user_access(m, root, va)
                    ==> #[trigger] F::user_access(mem.tables(), root, va),
            off_segments_kept::<F>(m, mem.tables(), root, maps@.take(i as int)),
            tables::paths_kept::<F>(m, mem.tables(), root),
            touched_divided::<F>(m, mem.tables(), root, maps@.take(i as int)),
            room >= dividing_touched::<F>(m, root, maps@, 512),
            mem.room() == room - dividing_touched::<F>(m, root, maps@.take(i as int), 512),
        decreases maps.len() - i,
    {
        let s = maps[i];
        let ghost b = mem.tables();
        let ghost done = maps@.take(i as int);
        proof {
            let first = s.vaddr as int / 0x20_0000;
            let end = range::window_end(s.vaddr, s.pages as int);
            assert(maps@.take(i + 1) =~= done.push(s));
            assert forall|va: u64|
                touches(s, range::walked(va) / 0x20_0000) implies #[trigger] edit::divisible::<F>(
                m,
                root,
                va,
            ) by {
                assert(touches(maps@[i as int], range::walked(va) / 0x20_0000));
            }
            assert(range::all_divisible::<F>(b, root, first, end)) by {
                assert forall|va: u64|
                    first <= range::walked(va) / 0x20_0000
                        < end implies #[trigger] edit::divisible::<F>(b, root, va) by {
                    assert(touches(s, range::walked(va) / 0x20_0000));
                    assert(edit::divisible::<F>(m, root, va));
                }
            }
            lemma_one_more::<F>(m, b, root, done, s, 512);
            lemma_prefix_takes_less::<F>(m, root, maps@, i + 1, 512);
        }
        map_run::<F, M>(mem, root, s.vaddr, pfn_to_phys(s.pfn), s.pages as u64, s.prot, user);
        proof {
            lemma_segment_added::<F>(m, b, mem.tables(), root, done, s, user);
            lemma_segments_keep::<F>(m, b, mem.tables(), root, done, s);
            tables::lemma_paths_kept_twice::<F>(m, b, mem.tables(), root);
            assert(maps@.take(i + 1).drop_last() =~= done);
            if user is Some {
                assert forall|va: u64|
                    segment_at(maps@.take(i + 1), va) is Some || F::user_access(
                        m,
                        root,
                        va,
                    ) implies #[trigger] F::user_access(mem.tables(), root, va) by {
                    if !range::in_run(va, s.vaddr, s.pages as int) {
                        assert(F::user_access(b, root, va));
                    }
                }
            }
        }
        i = i + 1;
    }
    proof {
        assert(maps@.take(i as int) =~= maps@);
        reveal(segments_mapped);
    }
}

proof fn lemma_nothing_to_divide<F: Format>(m: Map<u64, Seq<u64>>, root: u64, w: int)
    ensures
        dividing_touched::<F>(m, root, Seq::empty(), w) == 0,
    decreases 1024 - w,
{
    if w < 1024 {
        lemma_nothing_to_divide::<F>(m, root, w + 1);
    }
}

/// **Law:** the segments of an image that is loaded lie in the process window, so that nothing the
/// kernel itself has mapped is touched when they are mapped.
pub proof fn law_loading_touches_the_window_alone(
    image: Seq<u8>,
    arch: u16,
    loader: CSpaceView,
    process: CSpaceView,
    first: Cptr,
    va: u64,
)
    ensures
        in_window(loader::load_outcome(image, arch, loader, process, first).maps),
        !(PROC_VA_BASE <= range::walked(va) < PROC_VA_END) ==> segment_at(
            loader::load_outcome(image, arch, loader, process, first).maps,
            va,
        ) is None,
{
    let maps = loader::load_outcome(image, arch, loader, process, first).maps;
    assert forall|i: int| 0 <= i < maps.len() implies {
        &&& (#[trigger] maps[i]).vaddr % 4096 == 0
        &&& PROC_VA_BASE <= maps[i].vaddr
        &&& maps[i].vaddr + maps[i].pages * 4096 <= PROC_VA_END
    } by {
        loader::law_segments_stay_in_the_window(image, arch, loader, process, first, i);
    }
    if !(PROC_VA_BASE <= range::walked(va) < PROC_VA_END) {
        lemma_no_segment_at(maps, va);
    }
}

proof fn lemma_no_segment_at(maps: Seq<SegmentMap>, va: u64)
    requires
        in_window(maps),
        !(PROC_VA_BASE <= range::walked(va) < PROC_VA_END),
    ensures
        segment_at(maps, va) is None,
    decreases maps.len(),
{
    if maps.len() > 0 {
        let last = maps[maps.len() - 1];
        assert(last.vaddr + last.pages * 4096 <= PROC_VA_END);
        assert forall|i: int| 0 <= i < maps.drop_last().len() implies {
            &&& (#[trigger] maps.drop_last()[i]).vaddr % 4096 == 0
            &&& PROC_VA_BASE <= maps.drop_last()[i].vaddr
            &&& maps.drop_last()[i].vaddr + maps.drop_last()[i].pages * 4096 <= PROC_VA_END
        } by {
            assert(maps.drop_last()[i] == maps[i]);
        }
        lemma_no_segment_at(maps.drop_last(), va);
    }
}

/// The frames of the loader's `Untyped` have numbers that fit a frame number.
pub open spec fn untyped_in_reach(v: CSpaceView) -> bool {
    v.cap(L_UNTYPED as int).cap_type == CapType::Untyped ==> v.cap(L_UNTYPED as int).objref
        + v.cap(L_UNTYPED as int).size <= u32::MAX
}

/// The segments so far have frames one behind the other, and all before those that the `Untyped`
/// still has.
spec fn frames_in_order(st: LoadState) -> bool {
    &&& untyped_in_reach(st.loader)
    &&& forall|i: int, j: int|
        0 <= i < j < st.maps.len() ==> (#[trigger] st.maps[i]).pfn + st.maps[i].pages
            <= (#[trigger] st.maps[j]).pfn
    &&& forall|i: int|
        0 <= i < st.maps.len() ==> {
            &&& st.loader.cap(L_UNTYPED as int).cap_type == CapType::Untyped
            &&& (#[trigger] st.maps[i]).pfn + st.maps[i].pages <= st.loader.cap(
                L_UNTYPED as int,
            ).objref + st.loader.cap(L_UNTYPED as int).watermark
        }
}

proof fn lemma_frames_in_order(st: LoadState, p: PexView, i: int)
    requires
        st.loader.wf(),
        0 <= i,
        p.seg_count <= 16,
        0 <= st.scratch <= usize::MAX,
        frames_in_order(st),
    ensures
        frames_in_order(loader::load_segments(st, p, i)),
    decreases p.seg_count - i,
{
    if i < p.seg_count && st.error is None {
        let s = p.segment(i);
        let next = st.with_segment(s, i);
        if next.error is None {
            let u = st.loader.cap(L_UNTYPED as int);
            let pages = (s.mem_size / 4096) as u32;
            let slot = st.scratch as usize;
            assert(next.loader == st.loader.retyped(L_UNTYPED, CapType::Frame, pages, 1, slot));
            assert(next.loader.cap(slot as int).objref == u.objref + u.watermark);
            loader::lemma_retype_wf(st.loader, pages, slot);
            assert forall|a: int, b: int| 0 <= a < b < next.maps.len() implies (
            #[trigger] next.maps[a]).pfn + next.maps[a].pages <= (#[trigger] next.maps[b]).pfn by {
                assert(next.maps[a] == st.maps[a]);
            }
            lemma_frames_in_order(next, p, i + 1);
        } else {
            assert(loader::load_segments(next, p, i + 1) == next);
        }
    }
}

/// **Law:** every segment has frames of its own.
pub proof fn law_segments_have_frames_of_their_own(
    image: Seq<u8>,
    arch: u16,
    loader: CSpaceView,
    process: CSpaceView,
    first: Cptr,
    i: int,
    j: int,
)
    requires
        loader.wf(),
        untyped_in_reach(loader),
        0 <= i < j < loader::load_outcome(image, arch, loader, process, first).maps.len(),
    ensures
        ({
            let maps = loader::load_outcome(image, arch, loader, process, first).maps;
            maps[i].pfn + maps[i].pages <= maps[j].pfn
        }),
{
    let p = PexView::of(image);
    let start = loader::load_start(loader, process, first);
    if pex::parse_error(image, arch) is None {
        pex::law_accepted_images_are_sound(image, arch);
        lemma_frames_in_order(start, p, 0);
        loader::lemma_manifest_keeps_maps(loader::load_segments(start, p, 0), p, 0);
    }
}


/// **Law:** a segment touches exactly the 2 MiB windows that its pages are in.
pub proof fn law_touched_windows_hold_pages(s: SegmentMap, w: int)
    requires
        s.vaddr % 4096 == 0,
    ensures
        touches(s, w) == (exists|k: int|
            0 <= k < s.pages && w * 0x20_0000 <= #[trigger] page_at(s, k) < (w + 1) * 0x20_0000),
{
    let a = s.vaddr as int;
    let n = s.pages as int;
    let q = a / 4096;
    assert(a == q * 4096);
    lemma_in_window(a, w);
    if n > 0 {
        lemma_in_window(a + n * 4096 - 1, w);
    }
    if exists|k: int|
        0 <= k < s.pages && w * 0x20_0000 <= #[trigger] page_at(s, k) < (w + 1) * 0x20_0000 {
        let k = choose|k: int|
            0 <= k < s.pages && w * 0x20_0000 <= #[trigger] page_at(s, k) < (w + 1) * 0x20_0000;
        assert(a <= page_at(s, k) <= a + n * 4096 - 1);
    }
    if touches(s, w) {
        if w * 0x20_0000 <= a {
            assert(page_at(s, 0) == a);
        } else {
            let k = w * 512 - q;
            assert(page_at(s, k) == w * 0x20_0000);
            assert(0 <= k < n);
        }
    }
}

/// The window that `x` is in.
proof fn lemma_in_window(x: int, w: int)
    requires
        0 <= x,
    ensures
        (x / 0x20_0000 <= w) == (x < (w + 1) * 0x20_0000),
        (w <= x / 0x20_0000) == (w * 0x20_0000 <= x),
{
    vstd::arithmetic::div_mod::lemma_fundamental_div_mod(x, 0x20_0000);
}

/// The address of page `k` of a segment.
pub open spec fn page_at(s: SegmentMap, k: int) -> int {
    s.vaddr + k * 4096
}


/// **Law:** mapping the segments of an image leaves every other space alone whose tables are not on
/// the way to them: what is mapped in it stays as it is, whatever the image. `m` is before the space
/// under `root` was made, `n` before the segments are mapped in it, and `x` after that.
pub proof fn law_loading_leaves_other_spaces_alone<F: Format>(
    m: Map<u64, Seq<u64>>,
    n: Map<u64, Seq<u64>>,
    x: Map<u64, Seq<u64>>,
    root: u64,
    other: u64,
    maps: Seq<SegmentMap>,
)
    requires
        tables::sound::<F>(m, other),
        tables::kept(m, n),
        in_window(maps),
        forall|va: u64, k: int|
            PROC_VA_BASE <= range::walked(va) < PROC_VA_END && 0 <= k <= 3 ==> match #[trigger] tables::table_on_path::<
                F,
            >(n, root, va, k) {
                Some(t) => !m.contains_key(t),
                None => true,
            },
        off_segments_kept::<F>(n, x, root, maps),
    ensures
        forall|va: u64| #[trigger]
            tables::mapping::<F>(x, other, va) == tables::mapping::<F>(m, other, va),
{
    reveal(off_segments_kept);
    assert forall|va: u64, j: int| 0 <= j <= 3 implies match #[trigger] tables::below::<F>(
        m,
        other,
        3,
        va,
        j,
    ) {
        Some(t) => x.contains_key(t) && x[t] == m[t],
        None => true,
    } by {
        if let Some(t) = tables::below::<F>(m, other, 3, va, j) {
            assert(m.contains_key(t));
            assert(n.contains_key(t));
            if on_segments::<F>(n, root, maps, t) {
                let i = choose|i: int|
                    0 <= i < maps.len() && range::on_run::<F>(
                        n,
                        root,
                        (#[trigger] maps[i]).vaddr,
                        maps[i].pages as int,
                        t,
                    );
                let v = choose|v: u64|
                    range::in_run(v, maps[i].vaddr, maps[i].pages as int)
                        && #[trigger] tables::on_path::<F>(n, root, v, t);
                let k = choose|k: int|
                    0 <= k <= 3 && #[trigger] tables::table_on_path::<F>(n, root, v, k) == Some(t);
                assert(PROC_VA_BASE <= range::walked(v) < PROC_VA_END);
                assert(tables::table_on_path::<F>(n, root, v, k) == Some(t));
            }
        }
    }
    tables::law_untouched_tables_keep_the_space::<F>(m, x, other);
}

} // verus!
