//! Physical memory at boot, and the laws of the allocators, on given values.

use praesidium::cap::zero::ZeroLog;
use praesidium::kernel::boot::{MemRegion, MemoryKind};
use praesidium::kernel::memory::demo::{one_run, two_frames, two_objects, RunReport, SlabReport};
use praesidium::kernel::memory::{
    alloc_frames, alloc_zeroed_frame, free_frame_count, free_frames, mib, phys_to_virt, plan,
    usable_frames, zero_frame, FrameAllocator, MemError, MAX_USABLE,
};
use praesidium::mem::buddy::{Buddy, FrameDesc, MAX_ORDER};
use praesidium::mem::frame::{pfn_to_phys, phys_to_pfn};
use praesidium::mem::retype::Untyped;
use praesidium::mem::slab::SlabCache;

fn usable(base: u64, pages: u64) -> MemRegion {
    MemRegion { base, pages, kind: MemoryKind::usable() }
}

fn reserved(base: u64, pages: u64) -> MemRegion {
    MemRegion { base, pages, kind: MemoryKind { code: 1 } }
}

#[test]
fn frames_and_addresses_go_both_ways() {
    assert_eq!(pfn_to_phys(3), 0x3000);
    assert_eq!(phys_to_pfn(0x3fff), 3);
    assert_eq!(pfn_to_phys(u32::MAX), 0xffff_ffff_000);
    assert_eq!(phys_to_pfn(pfn_to_phys(u32::MAX)), u32::MAX);
    assert_eq!(phys_to_virt(0x1000, 0xffff_8000_0000_0000), 0xffff_8000_0000_1000);
    assert_eq!(mib(512), 2);
}

#[test]
fn malformed_regions_have_no_frames() {
    assert_eq!(usable_frames(&usable(0x2000, 3)), Some((2, 5)));
    assert_eq!(usable_frames(&usable(0x2001, 3)), None);
    assert_eq!(usable_frames(&usable(0x2000, 0)), None);
    assert_eq!(usable_frames(&usable(0x2000, u64::MAX)), None);
}

#[test]
fn a_plan_sorts_the_ranges_and_places_the_descriptors() {
    let map = [usable(0x80_0000, 256), reserved(0x40_0000, 64), usable(0x10_0000, 100)];
    let p = plan(&map, 12).unwrap_or_else(|e| panic!("{:?}", e));
    assert_eq!(p.ranges, vec![(0x100, 0x164), (0x800, 0x900)]);
    assert_eq!((p.base_pfn, p.span, p.total_pages), (0x100, 0x800, 356));
    // 2048 descriptors of 12 bytes fill 6 frames; the first range that has room is used.
    assert_eq!((p.desc_frames, p.desc_start), (6, 0x100));
}

#[test]
fn a_plan_is_refused_for_each_reason() {
    assert_eq!(plan(&[], 12).err(), Some(MemError::EmptyMap));
    assert_eq!(plan(&[reserved(0, 10)], 12).err(), Some(MemError::NoUsableRam));
    // Memory that is not mapped does not count.
    assert_eq!(plan(&[usable(0x1_0000_0000, 10)], 12).err(), Some(MemError::NoUsableRam));
    assert_eq!(
        plan(&[usable(0x10_0000, 16), usable(0x10_f000, 16)], 12).err(),
        Some(MemError::Overlap)
    );
    assert_eq!(
        plan(&[usable(0, 1), usable(0x8000_0000, 1)], 12).err(),
        Some(MemError::NoRoomForDescriptors)
    );
    let many: Vec<MemRegion> = (0..MAX_USABLE as u64 + 1).map(|i| usable(i * 0x2000, 1)).collect();
    assert_eq!(plan(&many, 12).err(), Some(MemError::TooManyRegions));
    assert!(plan(&[usable(0xffff_f000, 5)], 12).is_ok());
}

#[test]
fn the_allocator_hands_out_usable_frames_only() {
    let map = [usable(0x10_0000, 20), usable(0x12_0000, 4)];
    let p = plan(&map, 12).unwrap_or_else(|e| panic!("{:?}", e));
    let mut desc = vec![FrameDesc::reserved(); p.span as usize];
    let mut frames = Some(FrameAllocator::init(&p, &mut desc));
    let total = free_frame_count(&frames);
    assert_eq!(total, 24 - u64::from(p.desc_frames));
    let mut zero = ZeroLog::new();
    let mut got = Vec::new();
    while let Some(pa) = alloc_zeroed_frame(&mut frames, &mut zero) {
        assert!((0x10_0000..0x11_4000).contains(&pa) || (0x12_0000..0x12_4000).contains(&pa));
        assert_eq!(zero.ranges().last(), Some(&(pa / 4096, 1)));
        assert!(!got.contains(&pa));
        got.push(pa);
    }
    assert_eq!(got.len() as u64, total);
    for pa in got {
        free_frames(&mut frames, pa);
    }
    assert_eq!(free_frame_count(&frames), total);
    let block = alloc_frames(&mut frames, 2).unwrap();
    assert_eq!(block % 0x4000, 0);
    assert_eq!(free_frame_count(&frames), total - 4);
    assert_eq!(alloc_frames(&mut frames, 200), None);
}

#[test]
fn ranges_are_released_as_the_largest_blocks() {
    let p = plan(&[usable(0x10_0000, 2048)], 12).unwrap_or_else(|e| panic!("{:?}", e));
    assert_eq!((p.desc_start, p.desc_frames), (0x100, 6));
    let mut desc = vec![FrameDesc::reserved(); p.span as usize];
    let mut frames = Some(FrameAllocator::init(&p, &mut desc));
    // Behind the six frames of the descriptors each block is as large as its place allows.
    for (order, at) in [(9, 512), (6, 64), (4, 16), (3, 8), (1, 6), (10, 1024), (0, 32)] {
        assert_eq!(alloc_frames(&mut frames, order), Some((0x100 + at) * 4096));
    }
    // What is left, though there is more of it, has no run of 1024 frames.
    assert_eq!(alloc_frames(&mut frames, 10), None);
}

#[test]
fn ranges_that_touch_are_released_apart() {
    // The descriptors fill a range of their own, and eight frames come as two ranges of four.
    let p = plan(&[usable(0x10_0000, 1), usable(0x10_8000, 4), usable(0x10_c000, 4)], 12)
        .unwrap_or_else(|e| panic!("{:?}", e));
    assert_eq!((p.desc_start, p.desc_frames), (0x100, 1));
    let mut desc = vec![FrameDesc::reserved(); p.span as usize];
    let mut frames = Some(FrameAllocator::init(&p, &mut desc));
    assert_eq!(free_frame_count(&frames), 8);
    assert_eq!(alloc_frames(&mut frames, 3), None);
    // Freeing joins them.
    let block = alloc_frames(&mut frames, 2).unwrap();
    free_frames(&mut frames, block);
    assert_eq!(alloc_frames(&mut frames, 3), Some(0x10_8000));
}

#[test]
fn before_there_is_an_allocator_there_are_no_frames() {
    let mut none: Option<FrameAllocator> = None;
    assert_eq!(alloc_frames(&mut none, 0), None);
    assert_eq!(alloc_zeroed_frame(&mut none, &mut ZeroLog::new()), None);
    assert_eq!(free_frame_count(&none), 0);
    free_frames(&mut none, 0x1000);
    let mut zero = ZeroLog::new();
    zero_frame(&mut zero, 0x5000);
    assert_eq!(zero.ranges(), &vec![(5, 1)]);
}

#[test]
fn the_memory_check_leaves_everything_free() {
    let p = plan(&[usable(0x10_0000, 64)], 12).unwrap_or_else(|e| panic!("{:?}", e));
    let mut desc = vec![FrameDesc::reserved(); p.span as usize];
    let mut fa = FrameAllocator::init(&p, &mut desc);
    let before = fa.free_frames();
    let mut zero = ZeroLog::new();
    let (a, b) = two_frames(&mut fa, &mut zero).unwrap();
    assert_ne!(a, b);
    assert_eq!(zero.ranges(), &vec![(a / 4096, 1), (b / 4096, 1)]);
    let run = one_run(&mut fa).unwrap();
    assert_eq!((run.frames, run.left), (16, 12));
    assert_eq!(run.start % 16, p.base_pfn % 16);
    assert_eq!(fa.free_frames(), before);
    let mut page = vec![0u8; 4096];
    assert_eq!(
        two_objects(&mut page),
        Some(SlabReport { capacity: 64, first: 0, second: 64, left: 62 })
    );
    // With a single frame there are not two.
    let p = plan(&[usable(0x10_0000, 2)], 12).unwrap_or_else(|e| panic!("{:?}", e));
    let mut desc = vec![FrameDesc::reserved(); p.span as usize];
    let mut fa = FrameAllocator::init(&p, &mut desc);
    assert_eq!(fa.free_frames(), 1);
    assert_eq!(one_run(&mut fa), None::<RunReport>);
    assert_eq!(two_frames(&mut fa, &mut zero), None);
}

#[test]
fn blocks_are_aligned_and_freed_blocks_come_back() {
    let mut d = vec![FrameDesc::default(); 64];
    let mut b = Buddy::new(&mut d);
    assert_eq!((b.total_frames(), b.free_frames()), (64, 0));
    assert_eq!(b.allocate(0), None);
    b.add_frames(8, 40);
    assert_eq!(b.free_frames(), 40);
    let x = b.allocate(3).unwrap();
    let y = b.allocate(4).unwrap();
    assert_eq!((x % 8, y % 16), (0, 0));
    assert!(x + 8 <= y || y + 16 <= x);
    b.free(x);
    b.free(y);
    assert_eq!(b.free_frames(), 40);
    // Coalesced again: the largest block that fits is there.
    assert_eq!(b.allocate(4), Some(32));
    assert_eq!(b.allocate(4), Some(16));
    assert_eq!(b.allocate(4), None);
    assert_eq!(b.allocate(MAX_ORDER + 1), None);
}

#[test]
fn retyped_runs_follow_each_other() {
    let mut u = Untyped::new(7, 10);
    assert_eq!((u.base(), u.frames()), (7, 10));
    assert_eq!(u.retype(2, 3), Some(7));
    assert_eq!(u.retype(1, 4), Some(13));
    assert_eq!(u.retype(1, 1), None);
    assert_eq!((u.used(), u.remaining()), (10, 0));
}

#[test]
fn objects_are_left_alone_by_the_cache() {
    let mut c = SlabCache::new(16, 8, 64);
    let mut mem = vec![0xeeu8; 64];
    c.init(&mut mem);
    let a = c.allocate(&mem).unwrap();
    for byte in &mut mem[a..a + 16] {
        *byte = 0x11;
    }
    let b = c.allocate(&mem).unwrap();
    c.free(&mut mem, b);
    assert_eq!(&mem[a..a + 16], &[0x11u8; 16]);
    assert_eq!(c.allocate(&mem), Some(b));
}
