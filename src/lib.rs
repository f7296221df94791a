//! The heap allocators of a small x86_64 kernel, with their contracts proved,
//! and the plain-value parts of its interrupt, exit-code and text-screen code.
//!
//! Addresses are plain `usize` values; each allocator keeps the bookkeeping of
//! which byte ranges are free and hands out ranges of a fixed heap region.
use vstd::prelude::*;

pub mod bump;
pub mod carve;
pub mod fixed_size_block;
pub mod interrupts;
pub mod layout;
pub mod linked_list;
pub mod qemu;
pub mod vga;

use layout::Layout;

verus! {

/// Virtual address at which the kernel heap is mapped (an x86_64 address,
/// hence 64 bits wide whatever the width of `usize` where this is checked).
pub const HEAP_START: u64 = 0x_4444_4444_0000;

/// Size of the kernel heap in bytes (100 KiB).
pub const HEAP_SIZE: usize = 100 * 1024;

/// An allocator without memory: every request fails.
pub struct Dummy;

impl Dummy {
    /// Always fails: there is no memory to hand out.
    pub fn allocate(&self, layout: Layout) -> (r: Option<usize>)
        ensures
            r is None,
    {
        None
    }
}

} // verus!
