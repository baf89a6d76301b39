//! The buddy frame allocator, untyped regions and the slab cache.

use core::mem::size_of;
use praesidium::mem::buddy::{Buddy, FrameDesc};
use praesidium::mem::frame::Pfn;
use praesidium::mem::retype::Untyped;
use praesidium::mem::slab::SlabCache;

fn descs(n: usize) -> Vec<FrameDesc> {
    vec![FrameDesc::reserved(); n]
}

#[test]
fn roundtrip_single_frame() {
    let mut d = descs(1024);
    let mut b = Buddy::new(&mut d);
    b.add_frames(0, 1024);
    assert_eq!(b.free_frames(), 1024);
    let a = b.allocate(0).unwrap();
    assert_eq!(b.free_frames(), 1023);
    b.free(a);
    assert_eq!(b.free_frames(), 1024);
}

#[test]
fn full_free_coalesces_to_one_max_block() {
    // 1024 frames == 2^10: after allocating everything as order-0 and freeing it
    // all, it must coalesce back into a single order-10 block.
    let mut d = descs(1024);
    let mut b = Buddy::new(&mut d);
    b.add_frames(0, 1024);
    let mut allocated = Vec::new();
    for _ in 0..1024 {
        allocated.push(b.allocate(0).unwrap());
    }
    assert_eq!(b.free_frames(), 0);
    assert!(b.allocate(0).is_none(), "should be out of memory");
    for a in allocated {
        b.free(a);
    }
    assert_eq!(b.free_frames(), 1024);
    // Fully coalesced: one order-10 block spanning all frames.
    assert_eq!(b.allocate(10), Some(0));
    b.free(0);
}

#[test]
fn split_produces_distinct_aligned_blocks() {
    let mut d = descs(1024);
    let mut b = Buddy::new(&mut d);
    b.add_frames(0, 1024);
    let a = b.allocate(2).unwrap(); // 4 frames
    let c = b.allocate(2).unwrap();
    assert_ne!(a, c);
    assert_eq!(a % 4, 0);
    assert_eq!(c % 4, 0);
    assert_eq!(b.free_frames(), 1024 - 8);
    b.free(a);
    b.free(c);
    assert_eq!(b.free_frames(), 1024);
}

#[test]
fn non_power_of_two_region() {
    // 1000 frames is not a power of two; add_frames must decompose it and account
    // exactly, with no frame lost.
    let mut d = descs(1000);
    let mut b = Buddy::new(&mut d);
    b.add_frames(0, 1000);
    assert_eq!(b.free_frames(), 1000);
    let mut got = Vec::new();
    while let Some(f) = b.allocate(0) {
        got.push(f);
    }
    assert_eq!(got.len(), 1000, "every frame must be allocatable");
    for f in got {
        b.free(f);
    }
    assert_eq!(b.free_frames(), 1000);
}

#[test]
fn reserved_holes_are_never_handed_out() {
    // Add two disjoint runs with a reserved hole [16, 32); the hole must never
    // be allocated.
    let mut d = descs(64);
    let mut b = Buddy::new(&mut d);
    b.add_frames(0, 16);
    b.add_frames(32, 32);
    assert_eq!(b.free_frames(), 48);
    let mut got = Vec::new();
    while let Some(f) = b.allocate(0) {
        assert!(
            !(16..32).contains(&f),
            "allocated a reserved hole frame {f}"
        );
        got.push(f);
    }
    assert_eq!(got.len(), 48);
}

#[test]
fn soak_no_leak() {
    // Deterministic LCG-driven alloc/free churn; free_frames must stay consistent
    // and return to the first total at the end.
    let mut d = descs(4096);
    let mut b = Buddy::new(&mut d);
    b.add_frames(0, 4096);
    let total = b.free_frames();
    let mut live: Vec<(Pfn, u8)> = Vec::new();
    let mut rng: u64 = 0x1234_5678_9abc_def0;
    let mut next = || {
        rng = rng
            .wrapping_mul(6364136223846793005)
            .wrapping_add(1442695040888963407);
        (rng >> 33) as u32
    };
    for _ in 0..50_000 {
        let order = (next() % 4) as u8; // 0..=3
        if next() % 2 == 0 || live.is_empty() {
            if let Some(f) = b.allocate(order) {
                live.push((f, order));
            }
        } else {
            let i = (next() as usize) % live.len();
            let (f, _) = live.swap_remove(i);
            b.free(f);
        }
        // Free frames never exceed the total and never underflow.
        assert!(b.free_frames() <= total);
    }
    for (f, _) in live {
        b.free(f);
    }
    assert_eq!(b.free_frames(), total, "leak: free frames not restored");
}

#[test]
fn retype_charges_budget_monotonically() {
    let mut u = Untyped::new(100, 10);
    assert_eq!(u.remaining(), 10);
    assert_eq!(u.retype(1, 4), Some(100));
    assert_eq!(u.used(), 4);
    assert_eq!(u.retype(2, 2), Some(104)); // 2 objs * 2 frames = 4 frames
    assert_eq!(u.used(), 8);
    assert_eq!(u.remaining(), 2);
}

#[test]
fn retype_refuses_over_budget() {
    let mut u = Untyped::new(0, 4);
    assert_eq!(u.retype(1, 5), None); // more than the region
    assert_eq!(u.used(), 0, "a refused retype must not consume budget");
    assert_eq!(u.retype(1, 4), Some(0));
    assert_eq!(u.retype(1, 1), None); // exhausted
}

#[test]
fn retype_size_overflow_is_refused() {
    let mut u = Untyped::new(0, u32::MAX);
    assert_eq!(u.retype(u32::MAX, 2), None); // frames_per_obj * count overflows
    assert_eq!(u.used(), 0);
}

#[test]
fn reset_reclaims() {
    let mut u = Untyped::new(0, 8);
    assert_eq!(u.retype(1, 8), Some(0));
    assert_eq!(u.remaining(), 0);
    u.reset();
    assert_eq!(u.remaining(), 8);
    assert_eq!(u.retype(1, 8), Some(0));
}

#[test]
fn carves_and_serves_all_slots() {
    // 64-byte objects over a 4 KiB region -> 64 slots.
    let mut cache = SlabCache::new(64, 8, 4096);
    assert_eq!(cache.slot_size(), 64);
    assert_eq!(cache.capacity(), 64);
    let mut mem = vec![0u8; 4096];
    cache.init(&mut mem);
    assert_eq!(cache.free_count(), 64);

    let mut offs = Vec::new();
    while let Some(o) = cache.allocate(&mem) {
        assert_eq!(o % 64, 0, "slot must be slot-size aligned");
        assert!(!offs.contains(&o), "slot handed out twice: {o}");
        offs.push(o);
    }
    assert_eq!(offs.len(), 64);
    assert_eq!(cache.free_count(), 0);
    assert!(cache.allocate(&mem).is_none());
}

#[test]
fn a_fresh_cache_has_nothing_to_hand_out() {
    let mut cache = SlabCache::new(64, 8, 4096);
    let mem = vec![0u8; 4096];
    assert_eq!(cache.free_count(), 0);
    assert!(cache.allocate(&mem).is_none());
}

#[test]
fn free_then_realloc() {
    let mut cache = SlabCache::new(32, 8, 1024);
    let mut mem = vec![0u8; 1024];
    cache.init(&mut mem);
    let a = cache.allocate(&mem).unwrap();
    let b = cache.allocate(&mem).unwrap();
    assert_ne!(a, b);
    cache.free(&mut mem, a);
    // Freed slot is reused (LIFO).
    let c = cache.allocate(&mem).unwrap();
    assert_eq!(c, a);
    assert_eq!(cache.free_count(), cache.capacity() - 2);
}

#[test]
fn small_object_rounds_up_to_link_size() {
    // A 1-byte object still needs room for the free link (>= usize).
    let cache = SlabCache::new(1, 1, 256);
    assert_eq!(cache.slot_size(), size_of::<usize>());
    assert_eq!(cache.capacity(), 256 / size_of::<usize>());
}

#[test]
fn alignment_is_respected() {
    let cache = SlabCache::new(48, 64, 4096);
    assert_eq!(cache.slot_size() % 64, 0);
    assert_eq!(cache.slot_size(), 64);
}
