//! Physical memory allocators.
pub mod bitset;
pub mod history;
pub mod phys;
pub mod tree;
pub mod tree_math;
pub mod tree_spec;

use vstd::prelude::*;

verus! {

/// Physical allocators are aligned to 32 pages (128 KiB): every buddy tree of the physical
/// page allocator starts at a multiple of this, so that allocations of up to 32 pages are
/// aligned to their own size.
pub const PHYS_ALLOC_ALIGNMENT: usize = 0x20000;

/// The page allocator the kernel's heap takes its segments from: the global physical page
/// allocator, through the direct map.
#[derive(Clone, Copy)]
pub struct KernelPageAllocator;

} // verus!
