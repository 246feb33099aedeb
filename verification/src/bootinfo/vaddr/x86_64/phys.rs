//! Tables to be put inside the virtual memory register. Works with physical addresses; cannot be
//! accessed directly once virtualization isn't identity anymore.
use vstd::prelude::*;
use crate::bootinfo::paddr::PAddr;

verus! {

/// Set in a directory entry that maps a large page instead of pointing at a table.
pub const NODE_IS_LEAF: u64 = 1 << 7;

/// `with_addr` followed by `addr` reads back the written address, restricted to `mask`, and
/// `with_addr` keeps every bit outside `mask`.
pub proof fn lemma_mask_update(x: u64, y: u64, mask: u64)
    ensures
        ((x & !mask) | (y & mask)) & mask == y & mask,
        ((x & !mask) | (y & mask)) & !mask == x & !mask,
{
    assert(((x & !mask) | (y & mask)) & mask == y & mask) by (bit_vector);
    assert(((x & !mask) | (y & mask)) & !mask == x & !mask) by (bit_vector);
}

/// `addr` reads back what `with_addr` wrote, under the address mask, whatever the width of
/// `usize`; and where `usize` is 64 bits wide, as on x86-64, writing an entry's own address
/// back leaves the entry as it was.
pub proof fn lemma_node_entry_addr(e: NodeEntry, a: PAddr)
    ensures
        ((((e.0 & !NodeEntry::ADDRESS) | ((a.0 as u64) & NodeEntry::ADDRESS)) & NodeEntry::ADDRESS) as usize)
            == ((a.0 as u64) & NodeEntry::ADDRESS) as usize,
        usize::BITS == 64 ==> (e.0 & !NodeEntry::ADDRESS) | ((((e.0 & NodeEntry::ADDRESS) as usize) as u64)
            & NodeEntry::ADDRESS) == e.0,
{
    lemma_mask_update(e.0, a.0 as u64, NodeEntry::ADDRESS);
    let x = e.0;
    assert(NodeEntry::ADDRESS == 0x0008_0000_0000_0000u64) by (bit_vector);
    assert(usize::BITS == 64 ==> (x & !0x0008_0000_0000_0000u64) | ((((x & 0x0008_0000_0000_0000u64) as usize)
        as u64) & 0x0008_0000_0000_0000u64) == x) by (bit_vector);
}

/// Masking with the leaf bit never gives 1.
pub proof fn lemma_leaf_bit_is_not_one(x: u64)
    ensures
        x & NODE_IS_LEAF != 1,
{
    assert(NODE_IS_LEAF == 128u64) by (bit_vector);
    assert(x & 128u64 != 1u64) by (bit_vector);
}

/// The flag bits shared by every level of page-table entry.
#[derive(Clone, Copy, PartialEq, Eq, Structural)]
pub struct Entry(pub u64);

impl Entry {
    /// 0 = unallocated, 1 = allocated
    pub const PRESENT: u64 = 1 << 0;
    /// 0 = read-only, 1 = write
    pub const READ_WRITE: u64 = 1 << 1;
    /// 0 = user-mode, 1 = kernel-mode
    pub const USER_SUPERVISOR: u64 = 1 << 2;
    pub const WRITE_THROUGH: u64 = 1 << 3;
    pub const CACHE_DISABLE: u64 = 1 << 4;
    pub const ACCESSED: u64 = 1 << 5;
    pub const EXECUTE_DISABLE: u64 = 1 << 63;
}

/// An entry pointing at a lower-level table.
#[derive(Clone, Copy, PartialEq, Eq, Structural)]
pub struct NodeEntry(pub u64);

impl NodeEntry {
    pub const ADDRESS: u64 = (1 << 40 - 1) << 12;

    /// A present entry with the bits of `flags`, pointing at the table at `addr`.
    pub fn new(flags: Entry, addr: PAddr) -> (r: Self)
        ensures
            r.0 == ((flags.0 | Entry::PRESENT) & !Self::ADDRESS) | ((addr.0 as u64) & Self::ADDRESS),
    {
        Self::from_common(Entry(flags.0 | Entry::PRESENT)).with_addr(addr)
    }

    /// The entry holding the bits of `entry`.
    pub fn from_common(entry: Entry) -> (r: Self)
        ensures
            r.0 == entry.0,
    {
        Self(entry.0)
    }

    /// The entry with its address bits (`ADDRESS`, `(1 << 40 - 1) << 12`, which is bit 51 alone) taken from `addr`.
    pub fn with_addr(self, addr: PAddr) -> (r: Self)
        ensures
            r.0 == (self.0 & !Self::ADDRESS) | ((addr.0 as u64) & Self::ADDRESS),
    {
        Self(self.0 & !Self::ADDRESS | (addr.0 as u64) & Self::ADDRESS)
    }

    /// The address bits of the entry.
    pub fn addr(self) -> (r: PAddr)
        ensures
            r.0 == (self.0 & Self::ADDRESS) as usize,
    {
        PAddr((self.0 & Self::ADDRESS) as usize)
    }

    /// The entry is present.
    pub fn is_present(self) -> (r: bool)
        ensures
            r == (self.0 & Entry::PRESENT != 0),
    {
        self.0 & Entry::PRESENT != 0
    }
}

/// The top-level table.
pub struct Pml4Table {
    pub pdpt_entries: [NodeEntry; 512],
}

/// A page-directory-pointer table.
pub struct PdptTable {
    pub pd_entries: [PdptEntry; 512],
}

/// A page-directory-pointer entry that maps a 1 GiB page.
#[derive(Clone, Copy, PartialEq, Eq, Structural)]
pub struct PdptLeafEntry(pub u64);

impl PdptLeafEntry {
    pub const GLOBAL: u64 = 1 << 8;
    pub const PAGE_ATTRIBUTE_TABLE: u64 = 1 << 12;
    pub const ADDRESS: u64 = (1 << 22 - 1) << 30;
    pub const PROTECTION_KEY: u64 = (1 << 4 - 1) << 59;

    /// The entry holding the bits of `entry`.
    pub fn from_common(entry: Entry) -> (r: Self)
        ensures
            r.0 == entry.0,
    {
        Self(entry.0)
    }

    /// The entry with its address bits (`ADDRESS`, `(1 << 22 - 1) << 30`, which is bit 51 alone) taken from `addr`.
    pub fn with_addr(self, addr: PAddr) -> (r: Self)
        ensures
            r.0 == (self.0 & !Self::ADDRESS) | ((addr.0 as u64) & Self::ADDRESS),
    {
        Self(self.0 & !Self::ADDRESS | (addr.0 as u64) & Self::ADDRESS)
    }

    /// The address bits of the entry.
    pub fn addr(self) -> (r: PAddr)
        ensures
            r.0 == (self.0 & Self::ADDRESS) as usize,
    {
        PAddr((self.0 & Self::ADDRESS) as usize)
    }

    /// The entry is present.
    pub fn is_present(self) -> (r: bool)
        ensures
            r == (self.0 & Entry::PRESENT != 0),
    {
        self.0 & Entry::PRESENT != 0
    }
}

/// A page-directory-pointer entry: a node or a 1 GiB leaf.
#[derive(Clone, Copy, PartialEq, Eq, Structural)]
pub struct PdptEntry(pub u64);

impl PdptEntry {
    /// The entry pointing at the next table through `node`.
    pub fn node(node: NodeEntry) -> (r: Self)
        ensures
            r.0 == node.0,
    {
        Self(node.0)
    }

    /// The entry mapping a large page through `leaf`, marked as a leaf.
    pub fn leaf(leaf: PdptLeafEntry) -> (r: Self)
        ensures
            r.0 == leaf.0 | NODE_IS_LEAF,
    {
        Self(leaf.0 | NODE_IS_LEAF)
    }

    /// Compares the leaf bit with 1: as the leaf bit is bit 7, the comparison never holds.
    pub fn is_leaf(self) -> (r: bool)
        ensures
            r == (self.0 & NODE_IS_LEAF == 1),
            !r,
    {
        proof {
            lemma_leaf_bit_is_not_one(self.0);
        }
        self.0 & NODE_IS_LEAF == 1
    }

    /// The entry is present.
    pub fn is_present(self) -> (r: bool)
        ensures
            r == (self.0 & Entry::PRESENT != 0),
    {
        self.0 & Entry::PRESENT != 0
    }
}

/// A page directory.
pub struct PdTable {
    pub pt_entries: [PdEntry; 512],
}

/// A page-directory entry that maps a 2 MiB page.
#[derive(Clone, Copy, PartialEq, Eq, Structural)]
pub struct PdLeafEntry(pub u64);

impl PdLeafEntry {
    pub const GLOBAL: u64 = 1 << 8;
    pub const PAGE_ATTRIBUTE_TABLE: u64 = 1 << 12;
    pub const ADDRESS: u64 = (1 << 31 - 1) << 21;
    pub const PROTECTION_KEY: u64 = (1 << 4 - 1) << 59;

    /// The entry holding the bits of `entry`.
    pub fn from_common(entry: Entry) -> (r: Self)
        ensures
            r.0 == entry.0,
    {
        Self(entry.0)
    }

    /// The entry with its address bits (`ADDRESS`, `(1 << 31 - 1) << 21`, which is bit 51 alone) taken from `addr`.
    pub fn with_addr(self, addr: PAddr) -> (r: Self)
        ensures
            r.0 == (self.0 & !Self::ADDRESS) | ((addr.0 as u64) & Self::ADDRESS),
    {
        Self(self.0 & !Self::ADDRESS | (addr.0 as u64) & Self::ADDRESS)
    }

    /// The address bits of the entry.
    pub fn addr(self) -> (r: PAddr)
        ensures
            r.0 == (self.0 & Self::ADDRESS) as usize,
    {
        PAddr((self.0 & Self::ADDRESS) as usize)
    }

    /// The entry is present.
    pub fn is_present(self) -> (r: bool)
        ensures
            r == (self.0 & Entry::PRESENT != 0),
    {
        self.0 & Entry::PRESENT != 0
    }
}

/// A page-directory entry: a node or a 2 MiB leaf.
#[derive(Clone, Copy, PartialEq, Eq, Structural)]
pub struct PdEntry(pub u64);

impl PdEntry {
    /// The entry pointing at the next table through `node`.
    pub fn node(node: NodeEntry) -> (r: Self)
        ensures
            r.0 == node.0,
    {
        Self(node.0)
    }

    /// The entry mapping a large page through `leaf`, marked as a leaf.
    pub fn leaf(leaf: PdLeafEntry) -> (r: Self)
        ensures
            r.0 == leaf.0 | NODE_IS_LEAF,
    {
        Self(leaf.0 | NODE_IS_LEAF)
    }

    /// Compares the leaf bit with 1: as the leaf bit is bit 7, the comparison never holds.
    pub fn is_leaf(self) -> (r: bool)
        ensures
            r == (self.0 & NODE_IS_LEAF == 1),
            !r,
    {
        proof {
            lemma_leaf_bit_is_not_one(self.0);
        }
        self.0 & NODE_IS_LEAF == 1
    }

    /// The entry is present.
    pub fn is_present(self) -> (r: bool)
        ensures
            r == (self.0 & Entry::PRESENT != 0),
    {
        self.0 & Entry::PRESENT != 0
    }
}

/// A page table.
pub struct PtTable {
    pub phys_pages: [PtEntry; 512],
}

/// A page-table entry that maps a 4 KiB page.
#[derive(Clone, Copy, PartialEq, Eq, Structural)]
pub struct PtEntry(pub u64);

impl PtEntry {
    pub const GLOBAL: u64 = 1 << 8;
    pub const PAGE_ATTRIBUTE_TABLE: u64 = 1 << 7;
    pub const ADDRESS: u64 = (1 << 40 - 1) << 12;
    pub const PROTECTION_KEY: u64 = (1 << 4 - 1) << 59;

    /// A present entry with the bits of `flags`, mapping the page at `addr`.
    pub fn new(flags: Entry, addr: PAddr) -> (r: Self)
        ensures
            r.0 == ((flags.0 | Entry::PRESENT) & !Self::ADDRESS) | ((addr.0 as u64) & Self::ADDRESS),
    {
        Self::from_common(Entry(flags.0 | Entry::PRESENT)).with_addr(addr)
    }

    /// The entry holding the bits of `entry`.
    pub fn from_common(entry: Entry) -> (r: Self)
        ensures
            r.0 == entry.0,
    {
        Self(entry.0)
    }

    /// The entry with its address bits (`ADDRESS`, `(1 << 40 - 1) << 12`, which is bit 51 alone) taken from `addr`.
    pub fn with_addr(self, addr: PAddr) -> (r: Self)
        ensures
            r.0 == (self.0 & !Self::ADDRESS) | ((addr.0 as u64) & Self::ADDRESS),
    {
        Self(self.0 & !Self::ADDRESS | (addr.0 as u64) & Self::ADDRESS)
    }

    /// The address bits of the entry.
    pub fn addr(self) -> (r: PAddr)
        ensures
            r.0 == (self.0 & Self::ADDRESS) as usize,
    {
        PAddr((self.0 & Self::ADDRESS) as usize)
    }

    /// The entry is present.
    pub fn is_present(self) -> (r: bool)
        ensures
            r == (self.0 & Entry::PRESENT != 0),
    {
        self.0 & Entry::PRESENT != 0
    }
}

} // verus!
