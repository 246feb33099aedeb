use std::cell::Cell;

use elpytios::heap::segment::Segment;
use elpytios::heap::{huge_order, unionize, HeapAllocator, PageAllocator, SizeClassify};

/// Hands out naturally aligned blocks from a bump pointer and records what is given back.
struct Pages {
    next: Cell<usize>,
    freed: Cell<usize>,
}

impl Pages {
    fn new(start: usize) -> Self {
        Pages { next: Cell::new(start), freed: Cell::new(0) }
    }
}

impl PageAllocator for Pages {
    fn allocate(&self, order: u32) -> Option<usize> {
        let size = 1usize << order;
        let at = (self.next.get() + size - 1) / size * size;
        self.next.set(at + size);
        Some(at)
    }

    fn dealloc(&self, _addr: usize, _order: u32) {
        self.freed.set(self.freed.get() + 1);
    }
}

/// Hands out naturally aligned blocks and remembers the last block given back.
struct Recorder {
    inner: Pages,
    last_freed: Cell<Option<(usize, u32)>>,
}

impl PageAllocator for &Recorder {
    fn allocate(&self, order: u32) -> Option<usize> {
        self.inner.allocate(order)
    }

    fn dealloc(&self, addr: usize, order: u32) {
        self.last_freed.set(Some((addr, order)));
    }
}

struct NoPages;

impl PageAllocator for NoPages {
    fn allocate(&self, _order: u32) -> Option<usize> {
        None
    }

    fn dealloc(&self, _addr: usize, _order: u32) {}
}

#[test]
fn classes_pick_the_smallest_fit() {
    assert!(SizeClassify::new(1) == SizeClassify::Micro(0, 8));
    assert!(SizeClassify::new(8) == SizeClassify::Micro(0, 8));
    assert!(SizeClassify::new(20) == SizeClassify::Micro(2, 24));
    assert!(SizeClassify::new(128) == SizeClassify::Micro(7, 128));
    assert!(SizeClassify::new(129) == SizeClassify::Small(0, 192));
    assert!(SizeClassify::new(2048) == SizeClassify::Small(7, 2048));
    assert!(SizeClassify::new(2049) == SizeClassify::Medium(0, 3072));
    assert!(SizeClassify::new(8192) == SizeClassify::Medium(3, 8192));
    assert!(SizeClassify::new(8193) == SizeClassify::Large(0, 12288));
    assert!(SizeClassify::new(32768) == SizeClassify::Large(3, 32768));
    assert!(SizeClassify::new(32769) == SizeClassify::Huge);
}

#[test]
fn unionize_pads_to_link_and_alignment() {
    assert_eq!(unionize(1, 1), (2, 2));
    assert_eq!(unionize(3, 1), (4, 2));
    assert_eq!(unionize(8, 8), (8, 8));
    assert_eq!(unionize(9, 8), (16, 8));
    assert_eq!(unionize(24, 64), (64, 64));
    assert_eq!(unionize(0, 16), (0, 16));
}

#[test]
fn huge_order_rounds_up_to_a_power_of_two() {
    assert_eq!(huge_order(1), 0);
    assert_eq!(huge_order(2), 1);
    assert_eq!(huge_order(32769), 16);
    assert_eq!(huge_order(65536), 16);
    assert_eq!(huge_order(65537), 17);
}

#[test]
fn segment_slots_start_at_base_modulo_class() {
    let mut s = Segment::at(0x1000, 4032, 24);
    // 0x1000 % 24 == 16
    assert_eq!(s.allocate(), Some(0x1000 + 16));
    assert_eq!(s.allocate(), Some(0x1000 + 16 + 24));
    assert_eq!(s.available(), (4032 - 16) / 24 - 2);
}

#[test]
fn segment_gives_back_last_freed_slot_first() {
    let mut s = Segment::at(0x2000, 4032, 64);
    let a = s.allocate().unwrap();
    let b = s.allocate().unwrap();
    assert_eq!((a, b), (0x2000, 0x2040));
    assert!(!s.dealloc(a));
    assert_eq!(s.allocate(), Some(a));
    assert_eq!(s.allocate(), Some(0x2080));
}

#[test]
fn full_segment_resurrects_on_free() {
    let mut s = Segment::at(0, 256, 128);
    assert_eq!(s.allocate(), Some(0));
    assert_eq!(s.allocate(), Some(128));
    assert_eq!(s.allocate(), None);
    assert!(s.dealloc(128));
    assert_eq!(s.available(), 1);
    assert_eq!(s.allocate(), Some(128));
}

#[test]
fn segment_holds_at_most_65536_slots() {
    let s = Segment::at(0, 1 << 20, 8);
    assert_eq!(s.available(), 65536);
}

#[test]
fn heap_serves_small_requests_from_one_segment() {
    let mut h = HeapAllocator::new(Pages::new(0x10_0000));
    let a = h.allocate(8, 8).unwrap();
    let b = h.allocate(8, 8).unwrap();
    assert_eq!(a, 0x10_0000);
    assert_eq!(b, 0x10_0008);
    h.dealloc(a, 8, 8);
    assert_eq!(h.allocate(8, 8), Some(a));
}

#[test]
fn heap_allocations_are_aligned() {
    let mut h = HeapAllocator::new(Pages::new(0x10_0000));
    for (size, align) in [(24usize, 8usize), (40, 16), (100, 32), (3000, 1024), (9000, 4096), (20000, 16384)] {
        let a = h.allocate(size, align).unwrap();
        assert_eq!(a % align, 0, "size {size} align {align}");
    }
}

#[test]
fn heap_keeps_distinct_classes_apart() {
    let mut h = HeapAllocator::new(Pages::new(0x40_0000));
    let small = h.allocate(16, 8).unwrap();
    let other = h.allocate(200, 8).unwrap();
    assert_ne!(small / 4096, other / 4096);
}

#[test]
fn heap_moves_to_a_new_segment_when_full() {
    let mut h = HeapAllocator::new(Pages::new(0x10_0000));
    let mut seen = Vec::new();
    for _ in 0..9 {
        seen.push(h.allocate(2048, 8).unwrap());
    }
    // a small segment holds 16320 / 2048 = 7 slots, so the eighth comes from another one
    assert_eq!(seen[1] - seen[0], 2048);
    assert_ne!(seen[7] / 16384, seen[0] / 16384);
    seen.sort();
    seen.dedup();
    assert_eq!(seen.len(), 9);
}

#[test]
fn heap_huge_requests_go_to_the_page_allocator() {
    let pages = Pages::new(0x100_0000);
    let mut h = HeapAllocator::new(pages);
    let a = h.allocate(40000, 8).unwrap();
    assert_eq!(a % (1 << 16), 0);
    assert_eq!(h.allocate(40000, 0x40000), None);
    h.dealloc(a, 40000, 8);
}

#[test]
fn heap_without_pages_fails() {
    let mut h = HeapAllocator::new(NoPages);
    assert_eq!(h.allocate(8, 8), None);
    assert_eq!(h.allocate(1 << 20, 8), None);
}

#[test]
fn heap_alignment_holds_for_every_power_of_two() {
    let mut h = HeapAllocator::new(Pages::new(0x10_0000));
    for shift in 0..15 {
        let align = 1usize << shift;
        for size in [1usize, 3, align, align + 1, 3 * align] {
            if let Some(a) = h.allocate(size, align) {
                assert_eq!(a % align, 0, "size {size} align {align}");
            }
        }
    }
}

#[test]
fn a_huge_request_goes_back_with_the_order_it_took() {
    let rec = Recorder { inner: Pages::new(0x100_0000), last_freed: Cell::new(None) };
    let mut h = HeapAllocator::new(&rec);
    let a = h.allocate(40000, 8).unwrap();
    assert_eq!(a % (1 << 16), 0);
    h.dealloc(a, 40000, 8);
    assert_eq!(rec.last_freed.get(), Some((a, 16)));
    let b = h.allocate(65537, 8).unwrap();
    h.dealloc(b, 65537, 8);
    assert_eq!(rec.last_freed.get(), Some((b, 17)));
    let c = h.allocate(32769, 8).unwrap();
    h.dealloc(c, 32769, 8);
    assert_eq!(rec.last_freed.get(), Some((c, 16)));
}
