//! Virtual addresses and the page-table indices they decompose into.
pub mod x86_64;

use vstd::prelude::*;

verus! {

/// Masking with 9 or 12 low bits gives small values.
pub proof fn lemma_masks_small(x: u64)
    ensures
        x & 0x1ff <= 0x1ff,
        x & 0xfff <= 0xfff,
{
    assert(x & 0x1ff <= 0x1ff) by (bit_vector);
    assert(x & 0xfff <= 0xfff) by (bit_vector);
}

/// A virtual address.
#[derive(Clone, Copy, PartialEq, Eq, Structural)]
pub struct VAddr(pub usize);

/// The five parts of a 4-level virtual address: the offset in the page and the index into
/// each level of page table.
#[derive(Clone, Copy, PartialEq, Eq, Structural)]
pub struct VAddrInfo {
    pub page_offset: usize,
    pub pt_index: usize,
    pub pd_index: usize,
    pub pdpt_index: usize,
    pub pml4_index: usize,
}

impl VAddr {
    pub const PAGE_OFFSET: u64 = 0xfff;
    pub const PT_INDEX: u64 = 0x1ff000;
    pub const PD_INDEX: u64 = 0x3fe0_0000;
    pub const PDPT_INDEX: u64 = 0x7f_c000_0000;
    pub const PML4_INDEX: u64 = 0xff80_0000_0000;

    /// The virtual address `virtual_address`.
    pub fn new(virtual_address: usize) -> (r: Self)
        ensures
            r.0 == virtual_address,
    {
        Self(virtual_address)
    }

    /// The address as an integer.
    pub fn addr(self) -> (r: usize)
        ensures
            r == self.0,
    {
        self.0
    }

    /// The page offset (bits 0..12) and the four 9-bit table indices (bits 12..21, 21..30,
    /// 30..39 and 39..48) of the address.
    pub fn indices(self) -> (r: VAddrInfo)
        ensures
            r.page_offset == (self.0 as u64) & 0xfff,
            r.pt_index == ((self.0 as u64) >> 12u64) & 0x1ff,
            r.pd_index == ((self.0 as u64) >> 21u64) & 0x1ff,
            r.pdpt_index == ((self.0 as u64) >> 30u64) & 0x1ff,
            r.pml4_index == ((self.0 as u64) >> 39u64) & 0x1ff,
    {
        let a = self.0 as u64;
        proof {
            lemma_masks_small(a);
            lemma_masks_small(a >> 12u64);
            lemma_masks_small(a >> 21u64);
            lemma_masks_small(a >> 30u64);
            lemma_masks_small(a >> 39u64);
        }
        VAddrInfo {
            page_offset: (a & 0xfff) as usize,
            pt_index: ((a >> 12u64) & 0x1ff) as usize,
            pd_index: ((a >> 21u64) & 0x1ff) as usize,
            pdpt_index: ((a >> 30u64) & 0x1ff) as usize,
            pml4_index: ((a >> 39u64) & 0x1ff) as usize,
        }
    }
}

} // verus!
