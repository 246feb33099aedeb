use std::cell::Cell;

use elpytios::bootinfo::paddr::PAddr;
use elpytios::bootinfo::vaddr::x86_64::map::{PageTables, VFlags, VirtualMapError};
use elpytios::bootinfo::vaddr::x86_64::phys::{Entry, NodeEntry, PtEntry};
use elpytios::bootinfo::vaddr::x86_64::virt::{VAddr, VirtualMapBuilder, VirtualMapper2};
use elpytios::bootinfo::{IdentityMap, IdentityMapFlags, MemoryRegion};
use elpytios::bootinfo::{GraphicsInfo, PixelFormat};
use elpytios::kernel::boot_map::{
    frame_buffer_span, identity_map_vflags, map_direct, map_frame_buffer, map_kernel_segments, FrameBuffer,
};

/// Hands out `left` pages, one after the other from `next`.
struct Pages {
    next: Cell<usize>,
    left: Cell<usize>,
}

impl Pages {
    fn new(first: usize, count: usize) -> Self {
        Pages { next: Cell::new(first), left: Cell::new(count) }
    }
}

impl VirtualMapper2 for Pages {
    fn new_page_table(&self) -> Option<PAddr> {
        if self.left.get() == 0 {
            return None;
        }
        self.left.set(self.left.get() - 1);
        let p = self.next.get();
        self.next.set(p + 0x1000);
        Some(PAddr::new(p))
    }
}

fn page_key(v: usize) -> u64 {
    let v = v as u64;
    let (a, b, c, d) = ((v >> 39) & 0x1ff, (v >> 30) & 0x1ff, (v >> 21) & 0x1ff, (v >> 12) & 0x1ff);
    (1 << 36) | (a << 27) | (b << 18) | (c << 9) | d
}

fn pml4_key(a: u64) -> u64 {
    (4 << 36) | a
}

const V: usize = 0x4000_1000;

#[test]
fn builder_maps_a_page_and_links_its_tables() {
    let mut b = VirtualMapBuilder::new(Pages::new(0x10_0000, 8), 510);
    let flags = VFlags::GLOBAL | VFlags::WRITABLE;
    assert!(b.map(PAddr::new(0x20_0000), VAddr::new(V), flags) == Ok(()));
    assert_eq!(b.tables.entry(page_key(V)), 0x103);
    assert_eq!(b.tables.entry(pml4_key(0)), 0x3);
    assert_eq!(b.mapper.left.get(), 5);
}

#[test]
fn mapping_a_page_twice_is_refused() {
    let mut b = VirtualMapBuilder::new(Pages::new(0x10_0000, 8), 510);
    assert!(b.map(PAddr::new(0x20_0000), VAddr::new(V), VFlags::WRITABLE) == Ok(()));
    let r = b.map(PAddr::new(0x30_0000), VAddr::new(V), VFlags::GLOBAL);
    assert!(
        r == Err(VirtualMapError::AlreadyMapped {
            p_addr: PAddr::new(0x30_0000),
            v_addr: VAddr::new(V),
            p_addr_existing: PAddr::new(0),
        })
    );
    assert_eq!(b.tables.entry(page_key(V)), 0x3);
    assert_eq!(b.mapper.left.get(), 5);
}

#[test]
fn the_recursive_slot_is_reserved() {
    let mut b = VirtualMapBuilder::new(Pages::new(0x10_0000, 8), 510);
    let v = VAddr::new(510 << 39);
    let r = b.map(PAddr::new(0x20_0000), v, 0);
    assert!(r == Err(VirtualMapError::Reserved { p_addr: PAddr::new(0x20_0000), v_addr: v }));
    assert_eq!(b.mapper.left.get(), 8);
}

#[test]
fn missing_tables_that_cannot_be_had_fail() {
    let mut b = VirtualMapBuilder::new(Pages::new(0x10_0000, 0), 510);
    assert!(b.map(PAddr::new(0x20_0000), VAddr::new(V), 0) == Err(VirtualMapError::PageTable));
    assert_eq!(b.tables.entry(pml4_key(0)), 0);

    let mut b = VirtualMapBuilder::new(Pages::new(0x10_0000, 1), 510);
    assert!(b.map(PAddr::new(0x20_0000), VAddr::new(V), 0) == Err(VirtualMapError::PageTable));
    assert_eq!(b.tables.entry(pml4_key(0)), 0x3);
    assert_eq!(b.tables.entry(page_key(V)), 0);
}

#[test]
fn finish_links_the_recursive_slot_and_the_map_goes_on() {
    let mut b = VirtualMapBuilder::new(Pages::new(0x10_0000, 8), 510);
    assert!(b.map(PAddr::new(0x20_0000), VAddr::new(V), 0) == Ok(()));
    let (pml4, mut map) = match b.finish() {
        Ok(x) => x,
        Err(_) => panic!("a page for the top-level table was available"),
    };
    assert_eq!(pml4.addr(), 0x10_3000);
    assert_eq!(map.mapper.recursion_index, 510);
    assert_eq!(map.tables.entry(pml4_key(510)), 0x3);

    let more = Pages::new(0x40_0000, 4);
    assert!(map.map(PAddr::new(0x50_0000), VAddr::new(V + 0x1000), VFlags::WRITE_THROUGH, &more) == Ok(()));
    assert_eq!(map.tables.entry(page_key(V + 0x1000)), 0x9);
    assert_eq!(more.left.get(), 4);
    let v = VAddr::new(510 << 39);
    assert!(
        map.map(PAddr::new(0x50_0000), v, 0, &more)
            == Err(VirtualMapError::Reserved { p_addr: PAddr::new(0x50_0000), v_addr: v })
    );
}

#[test]
fn finish_without_a_page_fails() {
    let b = VirtualMapBuilder::new(Pages::new(0x10_0000, 0), 510);
    assert!(matches!(b.finish(), Err(VirtualMapError::PageTable)));
}

#[test]
fn a_range_maps_each_page() {
    let mut t = PageTables::new();
    let pages = Pages::new(0x10_0000, 8);
    assert!(t.map_range(510, PAddr::new(0x20_0000), VAddr::new(V), 3, VFlags::WRITABLE, &pages) == Ok(()));
    for i in 0..3 {
        assert_eq!(t.entry(page_key(V + i * 0x1000)), 0x3);
    }
    assert_eq!(t.entry(page_key(V + 3 * 0x1000)), 0);
    assert!(t.map_range(510, PAddr::new(0x20_0000), VAddr::new(V), 0, 0, &pages) == Ok(()));
    assert!(matches!(
        t.map_range(510, PAddr::new(0x20_0000), VAddr::new(V + 0x2000), 2, 0, &pages),
        Err(VirtualMapError::AlreadyMapped { .. })
    ));
    assert_eq!(t.entry(page_key(V + 3 * 0x1000)), 0);
}

#[test]
fn identity_map_flags_become_mapping_flags() {
    let rx = IdentityMapFlags(IdentityMapFlags::READABLE | IdentityMapFlags::EXECUTABLE);
    assert_eq!(identity_map_vflags(rx), VFlags::GLOBAL);
    let rw = IdentityMapFlags(IdentityMapFlags::READABLE | IdentityMapFlags::WRITABLE);
    assert_eq!(identity_map_vflags(rw), VFlags::GLOBAL | VFlags::WRITABLE | VFlags::EXECUTE_DISABLE);
    assert_eq!(identity_map_vflags(IdentityMapFlags(0)), 0x8000_0000_0000_0100);
}

#[test]
fn frame_buffer_span_covers_every_touched_page() {
    assert!(frame_buffer_span(0x1234, 0x2000) == (PAddr::new(0x1000), 3));
    assert!(frame_buffer_span(0x1000, 0x2000) == (PAddr::new(0x1000), 2));
    assert!(frame_buffer_span(0x1fff, 1) == (PAddr::new(0x1000), 1));
    assert!(frame_buffer_span(0x1000, 0) == (PAddr::new(0x1000), 0));
}

#[test]
fn kernel_segments_are_mapped_twice_and_memory_directly() {
    let mut b = VirtualMapBuilder::new(Pages::new(0x10_0000, 32), 510);
    let seg = IdentityMap::new(
        PAddr::new(0x20_0000),
        2,
        IdentityMapFlags(IdentityMapFlags::READABLE | IdentityMapFlags::WRITABLE),
    );
    let slide = 0x8000_0000_0000;
    assert!(map_kernel_segments(&mut b, &[seg], slide) == Ok(()));
    let want = 0x3 | 0x100 | 0x8000_0000_0000_0000;
    for i in 0..2 {
        assert_eq!(b.tables.entry(page_key(0x20_0000 + i * 0x1000)), want);
        assert_eq!(b.tables.entry(page_key(0x20_0000 + slide + i * 0x1000)), want);
    }
    let offset = 0x1_0000_0000;
    let regions = [MemoryRegion::at(PAddr::new(0x40_0000), 1)];
    assert!(map_direct(&mut b, PAddr::new(0x50_0000), &regions, offset) == Ok(()));
    assert_eq!(b.tables.entry(page_key(0x50_0000 + offset)), want);
    assert_eq!(b.tables.entry(page_key(0x40_0000 + offset)), want);
    assert!(matches!(map_kernel_segments(&mut b, &[seg], slide), Err(VirtualMapError::AlreadyMapped { .. })));
}

#[test]
fn new_entries_are_present_with_their_address_bits() {
    let n = NodeEntry::new(Entry(Entry::READ_WRITE), PAddr::new(0x8_0000_0000_1000));
    assert_eq!(n.0, 0x8_0000_0000_0003);
    assert!(n.is_present());
    let p = PtEntry::new(Entry(VFlags::GLOBAL | VFlags::EXECUTE_DISABLE), PAddr::new(0x1000));
    assert_eq!(p.0, 0x8000_0000_0000_0101);
    assert_eq!(p.addr().addr(), 0);
}

#[test]
fn the_frame_buffer_is_mapped_through_the_direct_map() {
    let mut b = VirtualMapBuilder::new(Pages::new(0x10_0000, 8), 510);
    assert!(b.map(PAddr::new(0x20_0000), VAddr::new(V), 0) == Ok(()));
    let (_, mut map) = match b.finish() {
        Ok(x) => x,
        Err(_) => panic!("a page for the top-level table was available"),
    };
    let info = GraphicsInfo {
        w: 640,
        h: 480,
        stride: 640,
        pixel_format: PixelFormat::BGR_8_BIT,
        frame_buffer: PAddr::new(0x8000_0100),
        frame_buffer_size: 0x2000,
    };
    let offset = 0x1_0000_0000;
    let more = Pages::new(0x40_0000, 8);
    let fb = match map_frame_buffer(&mut map, info, offset, &more) {
        Ok(fb) => fb,
        Err(_) => panic!("the frame buffer's pages were free and tables available"),
    };
    assert!(
        fb == FrameBuffer { width: 640, height: 480, stride: 640, format: PixelFormat::BGR_8_BIT, address: 0x1_8000_0100 }
    );
    let want = 0x1 | 0x2 | 0x8 | 0x100 | 0x8000_0000_0000_0000;
    for i in 0..3 {
        assert_eq!(map.tables.entry(page_key(0x1_8000_0000 + i * 0x1000)), want);
    }
    assert_eq!(map.tables.entry(page_key(0x1_8000_3000)), 0);
    let none = Pages::new(0, 0);
    let info2 = GraphicsInfo { frame_buffer: PAddr::new(0x9000_0000), ..info };
    assert!(matches!(map_frame_buffer(&mut map, info2, 0x2_0000_0000, &none), Err(VirtualMapError::PageTable)));
}
