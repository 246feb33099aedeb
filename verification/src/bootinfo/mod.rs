//! The hand-off between the boot loader and the kernel: physical addresses, memory
//! regions, identity maps and page-table formats.
pub mod buddy_tree;
pub mod paddr;
pub mod vaddr;

use vstd::prelude::*;
use paddr::PAddr;

verus! {

pub const MAX_MEMORY_REGIONS: usize = 128;
pub const MAX_IDENTITY_MAPS: usize = 32;
pub const MAX_RELOCATIONS: usize = 8;

/// Pixel layout of the frame buffer.
#[allow(non_camel_case_types)]
#[derive(Clone, Copy, PartialEq, Eq, Structural)]
pub enum PixelFormat {
    RGB_8_BIT,
    BGR_8_BIT,
    BIT_MASK,
    BLT_ONLY,
}

/// The frame buffer handed over by the firmware.
#[derive(Clone, Copy)]
pub struct GraphicsInfo {
    pub w: usize,
    pub h: usize,
    pub stride: usize,
    pub pixel_format: PixelFormat,
    pub frame_buffer: PAddr,
    pub frame_buffer_size: usize,
}

/// `pages` pages of physical memory from `base` on.
#[derive(Clone, Copy, PartialEq, Eq, Structural)]
pub struct MemoryRegion {
    pub base: PAddr,
    pub pages: usize,
}

impl MemoryRegion {
    /// The region of `pages` pages starting at `base`.
    pub fn at(base: PAddr, pages: usize) -> (r: Self)
        ensures
            r == (MemoryRegion { base, pages }),
    {
        Self { base, pages }
    }
}

/// Permissions of an identity-mapped region, as a set of bits.
#[derive(Clone, Copy, PartialEq, Eq, Structural)]
pub struct IdentityMapFlags(pub u8);

impl IdentityMapFlags {
    pub const EXECUTABLE: u8 = 1;
    pub const WRITABLE: u8 = 2;
    pub const READABLE: u8 = 4;

    /// The set with no permission.
    pub fn empty() -> (r: Self)
        ensures
            r.0 == 0,
    {
        IdentityMapFlags(0)
    }

    /// The set holding exactly the bits of `bits`.
    pub fn from_bits_retain(bits: u8) -> (r: Self)
        ensures
            r.0 == bits,
    {
        IdentityMapFlags(bits)
    }

    /// The bits of the set.
    pub fn bits(&self) -> (r: u8)
        ensures
            r == self.0,
    {
        self.0
    }

    /// Every bit of `flags` is in the set.
    pub fn contains(&self, flags: u8) -> (r: bool)
        ensures
            r == (self.0 & flags == flags),
    {
        self.0 & flags == flags
    }

    /// Adds the bits of `flags` to the set.
    pub fn insert(&mut self, flags: u8)
        ensures
            final(self).0 == old(self).0 | flags,
    {
        self.0 = self.0 | flags;
    }
}

/// A region to identity-map, with its permissions.
#[derive(Clone, Copy, PartialEq, Eq, Structural)]
pub struct IdentityMap {
    pub region: MemoryRegion,
    pub flags: IdentityMapFlags,
}

impl IdentityMap {
    /// Maps `pages` pages from `base` with `flags`.
    pub fn new(base: PAddr, pages: usize, flags: IdentityMapFlags) -> (r: Self)
        ensures
            r == (IdentityMap { region: MemoryRegion { base, pages }, flags }),
    {
        Self { region: MemoryRegion { base, pages }, flags }
    }
}

/// A table of `Elf64_Rela` relocations inside the kernel image: `size` bytes at virtual
/// address `offset`, one entry every `stride` bytes.
#[derive(Clone, Copy, PartialEq, Eq, Structural)]
pub struct Reloc {
    pub offset: usize,
    pub size: usize,
    pub stride: usize,
}

/// Where the firmware's device description is.
#[derive(Clone, Copy, PartialEq, Eq, Structural)]
pub enum DeviceTree {
    Acpi(PAddr),
    Acpi2(PAddr),
}

} // verus!
