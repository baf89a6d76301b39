//! Physical memory: frame numbers, the buddy allocator, retype accounting and slab caches. All
//! of it works over storage that the caller provides.

pub mod blocks;
pub mod buddy;
pub mod frame;
pub mod laws;
pub mod retype;
pub mod slab;
