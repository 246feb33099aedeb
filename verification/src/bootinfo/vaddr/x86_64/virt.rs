//! Virtual addresses on x86_64 and the recursive page-table slot through which the live
//! page tables are reached.
use vstd::prelude::*;
use crate::bootinfo::paddr::PAddr;
use crate::bootinfo::vaddr::x86_64::map::{
    entry_at, keeps_present, key_of, lemma_outcome_keeps_slot, map_outcome, range_mapped, range_outcome, pml4_key, present, table_link, PageTables,
    VirtualMapError,
};
use crate::bootinfo::vaddr::x86_64::phys::{Entry, NodeEntry};

verus! {

/// The offset in the page and the four table indices of a 48-bit virtual address.
pub open spec fn parts_of(a: u64) -> (u64, u64, u64, u64, u64) {
    (a & 0xfff, (a >> 12u64) & 0x1ff, (a >> 21u64) & 0x1ff, (a >> 30u64) & 0x1ff, (a >> 39u64) & 0x1ff)
}

/// The 48-bit address with the given offset and table indices, each cut to its width.
pub open spec fn compose(po: u64, pt: u64, pd: u64, pdpt: u64, pml4: u64) -> u64 {
    po & 0xfff | (pt & 0x1ff) << 12u64 | (pd & 0x1ff) << 21u64 | (pdpt & 0x1ff) << 30u64 | (pml4 & 0x1ff) << 39u64
}

/// Bits 48..64 set to copies of bit 47: the canonical form of a 48-bit address.
pub open spec fn sign_extend_48(a: u64) -> u64 {
    if a & 0x8000_0000_0000u64 != 0 {
        a | 0xffff_0000_0000_0000u64
    } else {
        a & 0xffff_ffff_ffffu64
    }
}

/// The address is canonical: bits 48..64 are copies of bit 47.
pub open spec fn canonical(a: u64) -> bool {
    sign_extend_48(a) == a
}

/// Splitting a canonical address into its parts and putting them back together gives the
/// address back; putting in-range parts together and splitting the result gives them back.
pub proof fn lemma_compose_parts(a: u64, po: u64, pt: u64, pd: u64, pdpt: u64, pml4: u64)
    ensures
        canonical(a) ==> sign_extend_48(
            compose(parts_of(a).0, parts_of(a).1, parts_of(a).2, parts_of(a).3, parts_of(a).4),
        ) == a,
        po <= 0xfff && pt <= 0x1ff && pd <= 0x1ff && pdpt <= 0x1ff && pml4 <= 0x1ff ==> parts_of(
            sign_extend_48(compose(po, pt, pd, pdpt, pml4)),
        ) == (po, pt, pd, pdpt, pml4),
        canonical(sign_extend_48(compose(po, pt, pd, pdpt, pml4))),
{
    assert((a & 0x8000_0000_0000u64 != 0 ==> (a | 0xffff_0000_0000_0000u64) == a) && (a & 0x8000_0000_0000u64
        == 0 ==> (a & 0xffff_ffff_ffffu64) == a) ==> ({
        let c = (a & 0xfff) & 0xfff | (((a >> 12u64) & 0x1ff) & 0x1ff) << 12u64 | (((a >> 21u64) & 0x1ff)
            & 0x1ff) << 21u64 | (((a >> 30u64) & 0x1ff) & 0x1ff) << 30u64 | (((a >> 39u64) & 0x1ff) & 0x1ff)
            << 39u64;
        (c & 0x8000_0000_0000u64 != 0 ==> (c | 0xffff_0000_0000_0000u64) == a) && (c & 0x8000_0000_0000u64 == 0
            ==> (c & 0xffff_ffff_ffffu64) == a)
    })) by (bit_vector);
    let ca = compose(parts_of(a).0, parts_of(a).1, parts_of(a).2, parts_of(a).3, parts_of(a).4);
    if canonical(a) {
        if a & 0x8000_0000_0000u64 != 0 {
            assert((a | 0xffff_0000_0000_0000u64) == a);
        } else {
            assert((a & 0xffff_ffff_ffffu64) == a);
        }
    }
    let c = compose(po, pt, pd, pdpt, pml4);
    assert(po <= 0xfff && pt <= 0x1ff && pd <= 0x1ff && pdpt <= 0x1ff && pml4 <= 0x1ff ==> ({
        let c = po & 0xfff | (pt & 0x1ff) << 12u64 | (pd & 0x1ff) << 21u64 | (pdpt & 0x1ff) << 30u64 | (pml4
            & 0x1ff) << 39u64;
        let e = if c & 0x8000_0000_0000u64 != 0 {
            c | 0xffff_0000_0000_0000u64
        } else {
            c & 0xffff_ffff_ffffu64
        };
        e & 0xfff == po && (e >> 12u64) & 0x1ff == pt && (e >> 21u64) & 0x1ff == pd && (e >> 30u64) & 0x1ff
            == pdpt && (e >> 39u64) & 0x1ff == pml4
    })) by (bit_vector);
    let e = sign_extend_48(c);
    assert(({
        let e2 = if e & 0x8000_0000_0000u64 != 0 {
            e | 0xffff_0000_0000_0000u64
        } else {
            e & 0xffff_ffff_ffffu64
        };
        e2 == e
    })) by (bit_vector)
        requires
            e == (if c & 0x8000_0000_0000u64 != 0 {
                c | 0xffff_0000_0000_0000u64
            } else {
                c & 0xffff_ffff_ffffu64
            }),
    ;
}

/// A virtual address.
#[derive(Clone, Copy, PartialEq, Eq, Structural, PartialOrd, Ord)]
pub struct VAddr(pub usize);

/// The five parts of a 4-level virtual address.
#[derive(Clone, Copy, PartialEq, Eq, Structural)]
pub struct VAddrInfo {
    pub page_offset: usize,
    pub pt_index: usize,
    pub pd_index: usize,
    pub pdpt_index: usize,
    pub pml4_index: usize,
}

impl VAddr {
    /// The virtual address `virtual_address`.
    pub fn new(virtual_address: usize) -> (r: Self)
        ensures
            r.0 == virtual_address,
    {
        Self(virtual_address)
    }

    /// The address as an integer.
    pub fn addr(self) -> (r: usize)
        ensures
            r == self.0,
    {
        self.0
    }

    /// The page offset and the four table indices of the address.
    pub fn info(self) -> (r: VAddrInfo)
        ensures
            (r.page_offset as u64, r.pt_index as u64, r.pd_index as u64, r.pdpt_index as u64, r.pml4_index as u64)
                == parts_of(self.0 as u64),
            r.page_offset <= 0xfff && r.pt_index <= 0x1ff && r.pd_index <= 0x1ff && r.pdpt_index <= 0x1ff
                && r.pml4_index <= 0x1ff,
    {
        let a = self.0 as u64;
        proof {
            crate::bootinfo::vaddr::lemma_masks_small(a);
            crate::bootinfo::vaddr::lemma_masks_small(a >> 12u64);
            crate::bootinfo::vaddr::lemma_masks_small(a >> 21u64);
            crate::bootinfo::vaddr::lemma_masks_small(a >> 30u64);
            crate::bootinfo::vaddr::lemma_masks_small(a >> 39u64);
        }
        VAddrInfo {
            page_offset: (a & 0xfff) as usize,
            pt_index: ((a >> 12u64) & 0x1ff) as usize,
            pd_index: ((a >> 21u64) & 0x1ff) as usize,
            pdpt_index: ((a >> 30u64) & 0x1ff) as usize,
            pml4_index: ((a >> 39u64) & 0x1ff) as usize,
        }
    }

    /// The canonical address with the given parts, each cut to its width (12 bits of offset,
    /// 9 bits per index), bits 48..64 copying bit 47.
    pub fn from_info(info: VAddrInfo) -> (r: Self)
        ensures
            r.0 == sign_extend_48(
                compose(
                    info.page_offset as u64,
                    info.pt_index as u64,
                    info.pd_index as u64,
                    info.pdpt_index as u64,
                    info.pml4_index as u64,
                ),
            ) as usize,
    {
        let addr: u64 = (info.page_offset as u64) & 0xfff | ((info.pt_index as u64) & 0x1ff) << 12u64 | ((
        info.pd_index as u64) & 0x1ff) << 21u64 | ((info.pdpt_index as u64) & 0x1ff) << 30u64 | ((
        info.pml4_index as u64) & 0x1ff) << 39u64;
        let extended = if addr & 0x8000_0000_0000u64 != 0 {
            addr | 0xffff_0000_0000_0000u64
        } else {
            addr & 0xffff_ffff_ffffu64
        };
        Self(extended as usize)
    }
}

/// Reaches the live page tables through the slot `recursion_index` of the top-level table,
/// which points back at the top-level table itself.
#[derive(Clone, Copy, PartialEq, Eq, Structural)]
pub struct RecursiveMapper {
    pub recursion_index: usize,
}

impl RecursiveMapper {
    /// The mapper whose recursive slot is `recursion_index`.
    pub fn new(recursion_index: usize) -> (r: Self)
        ensures
            r.recursion_index == recursion_index,
    {
        Self { recursion_index }
    }

    /// Addresses in the recursive slot cannot be mapped.
    pub fn reserved(&self, v_addr: VAddr) -> (r: bool)
        ensures
            r == (parts_of(v_addr.0 as u64).4 == self.recursion_index as u64),
    {
        let info = v_addr.info();
        info.pml4_index == self.recursion_index
    }

    /// Virtual address of the top-level table: every index goes through the recursive slot.
    pub fn pml4(&self) -> (r: VAddr)
        ensures
            ({
                let ri = self.recursion_index as u64;
                r.0 == sign_extend_48(compose(0, ri, ri, ri, ri)) as usize
            }),
    {
        VAddr::from_info(
            VAddrInfo {
                page_offset: 0,
                pt_index: self.recursion_index,
                pd_index: self.recursion_index,
                pdpt_index: self.recursion_index,
                pml4_index: self.recursion_index,
            },
        )
    }

    /// Virtual address of the table of level 3 under entry `pml4_index` of the top-level table.
    pub fn pdpt(&self, pml4_index: usize) -> (r: VAddr)
        ensures
            ({
                let ri = self.recursion_index as u64;
                r.0 == sign_extend_48(compose(0, pml4_index as u64, ri, ri, ri)) as usize
            }),
    {
        VAddr::from_info(
            VAddrInfo {
                page_offset: 0,
                pt_index: pml4_index,
                pd_index: self.recursion_index,
                pdpt_index: self.recursion_index,
                pml4_index: self.recursion_index,
            },
        )
    }

    /// Virtual address of the page directory under the given upper indices.
    pub fn pd(&self, pml4_index: usize, pdpt_index: usize) -> (r: VAddr)
        ensures
            ({
                let ri = self.recursion_index as u64;
                r.0 == sign_extend_48(compose(0, pdpt_index as u64, pml4_index as u64, ri, ri)) as usize
            }),
    {
        VAddr::from_info(
            VAddrInfo {
                page_offset: 0,
                pt_index: pdpt_index,
                pd_index: pml4_index,
                pdpt_index: self.recursion_index,
                pml4_index: self.recursion_index,
            },
        )
    }

    /// Virtual address of the page table under the given upper indices.
    pub fn pt(&self, pml4_index: usize, pdpt_index: usize, pd_index: usize) -> (r: VAddr)
        ensures
            ({
                let ri = self.recursion_index as u64;
                r.0 == sign_extend_48(compose(0, pd_index as u64, pdpt_index as u64, pml4_index as u64, ri)) as usize
            }),
    {
        VAddr::from_info(
            VAddrInfo {
                page_offset: 0,
                pt_index: pd_index,
                pd_index: pdpt_index,
                pdpt_index: pml4_index,
                pml4_index: self.recursion_index,
            },
        )
    }
}

/// The live virtual map of the kernel: its page tables, reached through the recursive slot.
pub struct VirtualMap {
    pub mapper: RecursiveMapper,
    pub tables: PageTables,
}

impl VirtualMap {
    /// Maps the page at `v_addr` to `p_addr` with `flags`, taking a table from
    /// `new_page_table` for each missing directory on the way (see `map_outcome`).
    pub fn map<T: VirtualMapper2>(
        &mut self,
        p_addr: PAddr,
        v_addr: VAddr,
        flags: u64,
        new_page_table: &T,
    ) -> (r: Result<(), VirtualMapError>)
        ensures
            final(self).mapper == old(self).mapper,
            map_outcome(
                *new_page_table,
                old(self).tables@,
                final(self).tables@,
                old(self).mapper.recursion_index,
                p_addr,
                v_addr,
                flags,
                r,
            ),
    {
        if self.mapper.reserved(v_addr) {
            return Err(VirtualMapError::Reserved { p_addr, v_addr });
        }
        self.tables.map_page(self.mapper.recursion_index, p_addr, v_addr, flags, new_page_table)
    }
}

impl VirtualMap {
    /// Maps `pages` pages from `v_addr` to as many from `p_addr` (see `PageTables::map_range`).
    pub fn map_range<T: VirtualMapper2>(
        &mut self,
        p_addr: PAddr,
        v_addr: VAddr,
        pages: usize,
        flags: u64,
        new_page_table: &T,
    ) -> (r: Result<(), VirtualMapError>)
        requires
            p_addr.0 + pages * 4096 <= usize::MAX,
            v_addr.0 + pages * 4096 <= usize::MAX,
        ensures
            final(self).mapper == old(self).mapper,
            range_outcome(
                *new_page_table,
                old(self).tables@,
                final(self).tables@,
                old(self).mapper.recursion_index,
                p_addr.0 as int,
                v_addr.0 as int,
                pages as int,
                flags,
                r,
            ),
            r is Ok ==> range_mapped(final(self).tables@, p_addr.0 as int, v_addr.0 as int, pages as int, flags),
            pages == 0 ==> r is Ok && final(self).tables@ == old(self).tables@,
            keeps_present(old(self).tables@, final(self).tables@),
    {
        self.tables.map_range(self.mapper.recursion_index, p_addr, v_addr, pages, flags, new_page_table)
    }
}

/// Provides fresh page-aligned physical pages for page tables.
pub trait VirtualMapper2 {
    /// What an implementation promises of an answer `r` of `new_page_table`; by default
    /// nothing. The mapping functions name through it the answer they acted on, which holds
    /// whatever an implementation promises.
    closed spec fn answers(&self, r: Option<PAddr>) -> bool {
        true
    }

    /// A fresh page for a table, or `None`.
    fn new_page_table(&self) -> (r: Option<PAddr>)
        ensures
            self.answers(r),
    ;
}

/// Builds the first page tables before they are loaded: the top-level table is held here, the
/// lower ones come from `mapper`, and `recursion_index` is kept free for the recursive slot.
pub struct VirtualMapBuilder<T: VirtualMapper2> {
    pub tables: PageTables,
    pub recursion_index: usize,
    pub mapper: T,
}

impl<T: VirtualMapper2> VirtualMapBuilder<T> {
    /// A builder with empty tables.
    pub fn new(mapper: T, recursion_index: usize) -> (r: Self)
        ensures
            r.tables@ == Map::<u64, u64>::empty(),
            r.recursion_index == recursion_index,
            r.mapper == mapper,
    {
        Self { tables: PageTables::new(), recursion_index, mapper }
    }

    /// Maps the page at `v_addr` to `p_addr` with `flags` (see `map_outcome`); the recursive
    /// slot of the top-level table is left as it was.
    pub fn map(&mut self, p_addr: PAddr, v_addr: VAddr, flags: u64) -> (r: Result<(), VirtualMapError>)
        ensures
            final(self).recursion_index == old(self).recursion_index,
            final(self).mapper == old(self).mapper,
            map_outcome(
                old(self).mapper,
                old(self).tables@,
                final(self).tables@,
                old(self).recursion_index,
                p_addr,
                v_addr,
                flags,
                r,
            ),
            old(self).recursion_index < 512 ==> entry_at(
                final(self).tables@,
                pml4_key(old(self).recursion_index as u64),
            ) == entry_at(old(self).tables@, pml4_key(old(self).recursion_index as u64)),
    {
        let r = self.tables.map_page(self.recursion_index, p_addr, v_addr, flags, &self.mapper);
        proof {
            if self.recursion_index < 512 {
                lemma_outcome_keeps_slot(
                    self.mapper,
                    old(self).tables@,
                    self.tables@,
                    self.recursion_index,
                    p_addr,
                    v_addr,
                    flags,
                    r,
                );
            }
        }
        r
    }

    /// Maps `pages` pages from `v_addr` to as many from `p_addr` (see `PageTables::map_range`);
    /// the recursive slot of the top-level table is left as it was.
    pub fn map_range(&mut self, p_addr: PAddr, v_addr: VAddr, pages: usize, flags: u64) -> (r: Result<
        (),
        VirtualMapError,
    >)
        requires
            p_addr.0 + pages * 4096 <= usize::MAX,
            v_addr.0 + pages * 4096 <= usize::MAX,
        ensures
            final(self).recursion_index == old(self).recursion_index,
            final(self).mapper == old(self).mapper,
            range_outcome(
                old(self).mapper,
                old(self).tables@,
                final(self).tables@,
                old(self).recursion_index,
                p_addr.0 as int,
                v_addr.0 as int,
                pages as int,
                flags,
                r,
            ),
            r is Ok ==> range_mapped(final(self).tables@, p_addr.0 as int, v_addr.0 as int, pages as int, flags),
            pages == 0 ==> r is Ok && final(self).tables@ == old(self).tables@,
            keeps_present(old(self).tables@, final(self).tables@),
            old(self).recursion_index < 512 ==> entry_at(
                final(self).tables@,
                pml4_key(old(self).recursion_index as u64),
            ) == entry_at(old(self).tables@, pml4_key(old(self).recursion_index as u64)),
    {
        self.tables.map_range(self.recursion_index, p_addr, v_addr, pages, flags, &self.mapper)
    }

    /// Links the recursive slot to a fresh top-level table from `mapper` and hands the tables
    /// over as the live map, with the table's physical address.
    pub fn finish(self) -> (r: Result<(PAddr, VirtualMap), VirtualMapError>)
        requires
            self.recursion_index < 512,
            !present(entry_at(self.tables@, pml4_key(self.recursion_index as u64))),
        ensures
            match r {
                Ok((pml4_phys, map)) => {
                    &&& map.mapper.recursion_index == self.recursion_index
                    &&& map.tables@ == self.tables@.insert(
                        pml4_key(self.recursion_index as u64),
                        table_link(pml4_phys.0 as u64),
                    )
                },
                Err(e) => e == VirtualMapError::PageTable,
            },
    {
        let mut this = self;
        let pml4_phys = match this.mapper.new_page_table() {
            Some(p) => p,
            None => return Err(VirtualMapError::PageTable),
        };
        let k = key_of(4, 0, 0, 0, this.recursion_index as u64);
        let n = NodeEntry::new(Entry(Entry::READ_WRITE), pml4_phys);
        this.tables.set(k, n.0);
        Ok((pml4_phys, VirtualMap { mapper: RecursiveMapper::new(this.recursion_index), tables: this.tables }))
    }
}

} // verus!
