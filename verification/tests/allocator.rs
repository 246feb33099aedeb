use elpytios::bootinfo::paddr::PAddr;
use elpytios::bootinfo::{IdentityMap, IdentityMapFlags, MemoryRegion};
use elpytios::kernel::allocator::bitset::AllocBitset;
use elpytios::kernel::allocator::phys::PhysicalPageAllocator;
use elpytios::kernel::allocator::tree::{AllocTree, TreeAllocError};
use elpytios::kernel::boot::{
    direct_map_offset, higher_half_slide, kernel_base, plan_region, reserve_ghost_pages, MemoryRegions,
};
use elpytios::num::ilog2;

fn tree(count: usize) -> AllocTree {
    AllocTree::new(AllocTree::layout(count).ok().unwrap())
}

#[test]
fn layout_takes_largest_power_of_two() {
    let layout = AllocTree::layout(100).ok().unwrap();
    assert_eq!(layout.node_count(), 64);
    // 28 header bytes, 4 per order, 8 per page, 4 per 32 split bits; rounded up to 8
    assert_eq!(layout.size(), 576);
    assert_eq!(layout.align(), 8);
    assert_eq!(AllocTree::layout(1).ok().unwrap().node_count(), 1);
}

#[test]
fn fresh_tree_hands_out_blocks_in_order() {
    let mut t = tree(8);
    assert_eq!(t.node_count(), 8);
    assert_eq!(t.allocate(0).ok(), Some(0));
    assert_eq!(t.allocate(0).ok(), Some(1));
    assert_eq!(t.allocate(1).ok(), Some(2));
    assert_eq!(t.allocate(2).ok(), Some(4));
    match t.allocate(0) {
        Err(TreeAllocError::InsufficientSpace { requested_order }) => assert_eq!(requested_order, 0),
        Ok(_) => panic!("a full tree handed out a block"),
    }
}

#[test]
fn order_above_tree_is_refused() {
    let mut t = tree(8);
    match t.allocate(4) {
        Err(TreeAllocError::InsufficientSpace { requested_order }) => assert_eq!(requested_order, 4),
        Ok(_) => panic!("a block larger than the tree"),
    }
    assert_eq!(t.allocate(3).ok(), Some(0));
}

#[test]
fn dealloc_right_after_alloc_restores_the_tree() {
    let mut t = tree(16);
    let a = t.allocate(2).ok().unwrap();
    t.dealloc(a, 2);
    // the whole tree is one free block again
    assert_eq!(t.allocate(4).ok(), Some(0));
}

#[test]
fn buddies_merge_back() {
    let mut t = tree(4);
    let a = t.allocate(0).ok().unwrap();
    let b = t.allocate(0).ok().unwrap();
    let c = t.allocate(1).ok().unwrap();
    assert_eq!((a, b, c), (0, 1, 2));
    t.dealloc(b, 0);
    t.dealloc(a, 0);
    t.dealloc(c, 1);
    assert_eq!(t.allocate(2).ok(), Some(0));
}

#[test]
fn successive_allocations_do_not_overlap() {
    let mut t = tree(32);
    let mut taken: Vec<(u32, u32)> = Vec::new();
    for order in [3u32, 0, 2, 1, 0, 4] {
        let i = t.allocate(order).ok().unwrap();
        for &(j, o) in &taken {
            assert!(i + (1 << order) <= j || j + (1 << o) <= i);
        }
        taken.push((i, order));
    }
}

#[test]
fn ghost_pages_are_the_first_pages() {
    let mut t = tree(16);
    assert!(reserve_ghost_pages(&mut t, 11).is_ok());
    // 11 = 8 + 2 + 1: the first 11 pages are gone, 11 and 12.. are next
    assert_eq!(t.allocate(0).ok(), Some(11));
    assert_eq!(t.allocate(2).ok(), Some(12));
    assert!(t.allocate(0).is_err());
}

#[test]
fn ghost_pages_can_fill_the_whole_tree() {
    let mut t = tree(16);
    assert!(reserve_ghost_pages(&mut t, 16).is_ok());
    assert!(t.allocate(0).is_err());
    let mut u = tree(16);
    assert!(reserve_ghost_pages(&mut u, 7).is_ok());
    // 7 = 4 + 2 + 1: page 7, then pages 8..16 as one block
    assert_eq!(u.allocate(0).ok(), Some(7));
    assert_eq!(u.allocate(3).ok(), Some(8));
    assert!(u.allocate(0).is_err());
}

#[test]
fn ghost_pages_beyond_tree_fail() {
    let mut t = tree(16);
    assert!(reserve_ghost_pages(&mut t, 31).is_err());
    let mut u = tree(16);
    assert!(reserve_ghost_pages(&mut u, 0).is_ok());
    assert_eq!(u.allocate(4).ok(), Some(0));
}

#[test]
fn bitset_sizes_and_toggles() {
    assert_eq!(AllocBitset::size_for(0), 0);
    assert_eq!(AllocBitset::size_for(1), 1);
    assert_eq!(AllocBitset::size_for(32), 1);
    assert_eq!(AllocBitset::size_for(33), 2);
    let mut b = AllocBitset::zeroed(2);
    assert!(!b.get_and_toggle(40));
    assert!(b.get_and_toggle(40));
    assert!(!b.get_and_toggle(40));
}

#[test]
fn ilog2_of_powers_and_between() {
    assert_eq!(ilog2(1), 0);
    assert_eq!(ilog2(2), 1);
    assert_eq!(ilog2(3), 1);
    assert_eq!(ilog2(4096), 12);
    assert_eq!(ilog2(usize::MAX), usize::BITS - 1);
}

#[test]
fn physical_allocator_picks_first_tree_with_room() {
    let mut p = PhysicalPageAllocator::new();
    p.push_tree(PAddr::new(0x40_0000), tree(4));
    p.push_tree(PAddr::new(0x20_0000), tree(2));
    p.sort_tree();
    assert_eq!(p.tree_count(), 2);
    // the tree at 0x200000 comes first once sorted
    assert_eq!(p.allocate(1).ok().map(|a| a.addr()), Some(0x20_0000));
    assert_eq!(p.allocate(1).ok().map(|a| a.addr()), Some(0x40_0000));
    assert_eq!(p.allocate(1).ok().map(|a| a.addr()), Some(0x40_2000));
    assert!(p.allocate(1).is_err());
    p.dealloc(PAddr::new(0x40_0000), 1);
    assert_eq!(p.allocate(0).ok().map(|a| a.addr()), Some(0x40_0000));
}

#[test]
fn physical_dealloc_right_after_alloc_restores_the_trees() {
    let mut p = PhysicalPageAllocator::new();
    p.push_tree(PAddr::new(0x20_0000), tree(8));
    p.push_tree(PAddr::new(0x10_0000), tree(8));
    p.sort_tree();
    let a = p.allocate(2).ok().unwrap();
    assert_eq!(a.addr(), 0x10_0000);
    p.dealloc(a, 2);
    // the first tree is one free block of eight pages again
    assert_eq!(p.allocate(3).ok().map(|a| a.addr()), Some(0x10_0000));
    assert_eq!(p.allocate(3).ok().map(|a| a.addr()), Some(0x20_0000));
    assert!(p.allocate(0).is_err());
}

#[test]
fn physical_allocator_without_trees_fails() {
    let mut p = PhysicalPageAllocator::new();
    assert_eq!(p.tree_count(), 0);
    assert!(p.allocate(0).is_err());
}

#[test]
fn dealloc_outside_every_tree_is_ignored() {
    let mut p = PhysicalPageAllocator::new();
    p.push_tree(PAddr::new(0x10_0000), tree(2));
    p.sort_tree();
    let a = p.allocate(0).ok().unwrap();
    assert_eq!(a.addr(), 0x10_0000);
    // 0x300000 is past the only tree
    p.dealloc(PAddr::new(0x30_0000), 0);
    assert_eq!(p.allocate(0).ok().map(|a| a.addr()), Some(0x10_1000));
}

#[test]
fn regions_hand_out_pages_from_the_end() {
    let regions = [MemoryRegion::at(PAddr::new(0x1000), 1), MemoryRegion::at(PAddr::new(0x10_0000), 2)];
    let mut r = MemoryRegions::new(&regions);
    assert_eq!(r.take_head().map(|a| a.addr()), Some(0x10_1000));
    assert_eq!(r.take_head().map(|a| a.addr()), Some(0x10_0000));
    assert_eq!(r.take_head().map(|a| a.addr()), Some(0x1000));
    assert_eq!(r.take_head().map(|a| a.addr()), None);
}

#[test]
fn kernel_is_at_lowest_identity_map() {
    let flags = IdentityMapFlags::from_bits_retain(IdentityMapFlags::READABLE);
    let maps = [
        IdentityMap::new(PAddr::new(0x20_0000), 4, flags),
        IdentityMap::new(PAddr::new(0x10_0000), 2, flags),
    ];
    let base = kernel_base(&maps);
    assert_eq!(base.addr(), 0x10_0000);
    let slide = higher_half_slide(base);
    assert_eq!(slide, 0xffff_8000_0000_0000 - 0x10_0000);
    // highest end: 0x200000 + slide + 4 pages, rounded up to 2 GiB
    let offset = direct_map_offset(&maps, slide);
    assert_eq!(offset % 0x8000_0000, 0);
    assert!(offset >= 0x20_0000 + slide + 0x4000);
    assert!(offset - (0x20_0000 + slide + 0x4000) < 0x8000_0000);
}

#[test]
fn plan_puts_metadata_at_the_start_when_no_room_after() {
    let plans = plan_region(0x2_0000, 64).ok().unwrap();
    assert_eq!(plans.len(), 1);
    assert_eq!(plans[0].tree_start, 0x2_0000);
    assert_eq!(plans[0].meta_start, 0x2_0000);
    assert_eq!(plans[0].layout.node_count(), 64);
    assert_eq!(plans[0].ghost_pages, Some(1));
}

#[test]
fn plan_puts_metadata_after_the_tree_when_it_fits() {
    let plans = plan_region(0x2_0000, 65).ok().unwrap();
    assert_eq!(plans.len(), 1);
    assert_eq!(plans[0].tree_start, 0x2_0000);
    assert_eq!(plans[0].meta_start, 0x6_0000);
    assert_eq!(plans[0].ghost_pages, None);
}

#[test]
fn plan_reserves_pages_below_an_unaligned_region() {
    let plans = plan_region(0x2_1000, 63).ok().unwrap();
    assert_eq!(plans.len(), 1);
    assert_eq!(plans[0].tree_start, 0x2_0000);
    assert_eq!(plans[0].meta_start, 0x2_1000);
    assert_eq!(plans[0].ghost_pages, Some(2));
}

#[test]
fn plan_halves_the_tree_when_metadata_fits_nowhere() {
    let plans = plan_region(0x3_f800, 1).ok().unwrap();
    assert_eq!(plans.len(), 1);
    assert_eq!(plans[0].tree_start, 0x2_0000);
    assert_eq!(plans[0].layout.node_count(), 16);
    assert_eq!(plans[0].meta_start, 0x3_f800);
    assert_eq!(plans[0].ghost_pages, Some(31));
}

#[test]
fn plan_of_empty_region_is_empty() {
    assert_eq!(plan_region(0x2_0000, 0).ok().map(|p| p.len()), Some(0));
}

#[test]
fn planned_trees_follow_one_another() {
    // 100 pages from 0x20000: trees of 64, then whatever is left after the metadata
    let plans = plan_region(0x2_0000, 100).ok().unwrap();
    assert!(plans.len() >= 2);
    assert_eq!(plans[0].tree_start, 0x2_0000);
    for w in plans.windows(2) {
        assert_eq!(w[1].tree_start, w[0].tree_start + w[0].layout.node_count() * 4096);
    }
    let last = plans.last().unwrap();
    assert!(last.tree_start + last.layout.node_count() * 4096 <= 0x2_0000 + 100 * 4096);
}

#[test]
fn freeing_every_block_in_any_order_remerges_the_tree() {
    let mut t = tree(16);
    let a = t.allocate(0).ok().unwrap();
    let b = t.allocate(2).ok().unwrap();
    let c = t.allocate(1).ok().unwrap();
    let d = t.allocate(0).ok().unwrap();
    t.dealloc(c, 1);
    t.dealloc(a, 0);
    t.dealloc(d, 0);
    t.dealloc(b, 2);
    assert_eq!(t.allocate(4).ok(), Some(0));
}

#[test]
fn node_count_stays_through_allocations_and_frees() {
    let mut t = tree(32);
    assert_eq!(t.node_count(), 32);
    let a = t.allocate(3).ok().unwrap();
    assert_eq!(t.node_count(), 32);
    let b = t.allocate(0).ok().unwrap();
    assert_eq!(t.node_count(), 32);
    t.dealloc(a, 3);
    assert_eq!(t.node_count(), 32);
    assert!(t.allocate(6).is_err());
    assert_eq!(t.node_count(), 32);
    t.dealloc(b, 0);
    assert_eq!(t.node_count(), 32);
}
