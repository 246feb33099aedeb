use elpytios::bootinfo::paddr::PAddr;
use elpytios::bootinfo::{DeviceTree, MemoryRegion, Reloc};
use elpytios::bootloader::{
    acpi_reclaim_maps, apply_relocations, check_kernel_segment, device_tree_from, dynamic_reloc, higher_half_relocation_slide,
    kernel_virtual_addresses, load_segment, load_slide, pick_mode, segment_identity_map, sort_by_size_desc, usable,
    usable_regions, BootError, ConfigEntry, ConfigKind, FirmwareRegion, ACPI_RECLAIM, CONVENTIONAL, LOADER_DATA,
};
use elpytios::elf::sys::ElfProgramFlags;
use elpytios::elf::{ElfSegment64, ElfSegmentType};

fn segment<'a>(ty: ElfSegmentType, data: &'a [u8], flags: u32, vaddr: u64, memsz: u64, align: u64) -> ElfSegment64<'a> {
    ElfSegment64 {
        segment_type: ty,
        data,
        flags: ElfProgramFlags(flags),
        virtual_address: vaddr,
        physical_address: 0,
        memory_size: memsz,
        alignment: align,
    }
}

#[test]
fn load_segments_must_be_page_aligned() {
    let ok = segment(ElfSegmentType::Load, &[], 0, 0, 0, 4096);
    assert!(check_kernel_segment(&ok).is_ok());
    let bad = segment(ElfSegmentType::Load, &[], 0, 0, 0, 16);
    assert!(check_kernel_segment(&bad) == Err(BootError::MisalignedSegment(16)));
    let other = segment(ElfSegmentType::Dynamic, &[], 0, 0, 0, 8);
    assert!(check_kernel_segment(&other).is_ok());
}

#[test]
fn kernel_range_covers_load_segments() {
    let segs = [
        segment(ElfSegmentType::Load, &[], 0, 0xffff_8000_0001_0000, 0x1800, 4096),
        segment(ElfSegmentType::Dynamic, &[], 0, 0x10, 0x10, 8),
        segment(ElfSegmentType::Load, &[], 0, 0xffff_8000_0000_0000, 0x100, 4096),
    ];
    let r = kernel_virtual_addresses(&segs);
    assert!(r == Ok((0xffff_8000_0000_0000, 0xffff_8000_0001_2000)));
}

#[test]
fn kernel_base_must_be_page_aligned() {
    let segs = [segment(ElfSegmentType::Load, &[], 0, 0x1010, 0x10, 4096)];
    assert!(kernel_virtual_addresses(&segs) == Err(BootError::UnalignedBase(0x1010)));
}

#[test]
fn kernel_without_load_segments_has_no_aligned_base() {
    let r = kernel_virtual_addresses(&[]);
    assert!(matches!(r, Err(BootError::UnalignedBase(_)) | Err(BootError::IntDoesntFit(_))));
}

#[test]
fn kernel_segment_past_the_address_space_overflows() {
    let segs = [segment(ElfSegmentType::Load, &[], 0, u64::MAX - 10, 0x100, 4096)];
    assert!(kernel_virtual_addresses(&segs) == Err(BootError::Overflow));
}

#[test]
fn largest_mode_wins_first_on_ties() {
    assert_eq!(pick_mode(&[(640, 480), (1024, 768), (768, 1024), (800, 600)]), Some(1));
    assert_eq!(pick_mode(&[(1, 1)]), Some(0));
    assert_eq!(pick_mode(&[]), None);
}

#[test]
fn identity_map_of_a_segment() {
    let seg = segment(ElfSegmentType::Load, &[], ElfProgramFlags::READABLE | ElfProgramFlags::EXECUTABLE, 0x1000_3000, 0x1001, 4096);
    let m = segment_identity_map(0x20_0000, 0x1000_0000, &seg);
    assert_eq!(m.region.base.addr(), 0x20_3000);
    assert_eq!(m.region.pages, 2);
    assert_eq!(m.flags.bits(), 5);
    let w = segment(ElfSegmentType::Load, &[], ElfProgramFlags::READABLE | ElfProgramFlags::WRITABLE, 0x1000_0000, 0x1000, 4096);
    let m = segment_identity_map(0x20_0000, 0x1000_0000, &w);
    assert_eq!(m.region.pages, 1);
    assert_eq!(m.flags.bits(), 6);
}

#[test]
fn acpi2_pointer_wins() {
    let e = |kind, address| ConfigEntry { kind, address };
    let t = [e(ConfigKind::Other, 1), e(ConfigKind::Acpi, 2), e(ConfigKind::Acpi, 3), e(ConfigKind::Acpi2, 4), e(ConfigKind::Acpi2, 5)];
    assert!(device_tree_from(&t) == Some(DeviceTree::Acpi2(PAddr::new(4))));
    assert!(device_tree_from(&t[..3]) == Some(DeviceTree::Acpi(PAddr::new(2))));
    assert!(device_tree_from(&t[..1]) == None);
}

#[test]
fn load_copies_data_and_zeroes_the_rest() {
    let mut image = vec![0xaau8; 16];
    let seg = segment(ElfSegmentType::Load, &[1, 2, 3], 0, 0x1004, 6, 4096);
    load_segment(&mut image, &seg, 0x1000);
    assert_eq!(image, vec![0xaa, 0xaa, 0xaa, 0xaa, 1, 2, 3, 0, 0, 0, 0xaa, 0xaa, 0xaa, 0xaa, 0xaa, 0xaa]);
}

fn rela(image: &mut [u8], at: usize, offset: u64, kind: u32, addend: i64) {
    image[at..at + 8].copy_from_slice(&offset.to_le_bytes());
    image[at + 8..at + 12].copy_from_slice(&kind.to_le_bytes());
    image[at + 12..at + 16].copy_from_slice(&0u32.to_le_bytes());
    image[at + 16..at + 24].copy_from_slice(&addend.to_le_bytes());
}

#[test]
fn relative_relocations_add_the_slide() {
    let mut image = vec![0u8; 96];
    rela(&mut image, 0, 0x1000 + 64, 8, 0x20);
    rela(&mut image, 24, 0x1000 + 72, 8, -8);
    let reloc = Reloc { offset: 0x1000, size: 48, stride: 24 };
    let slide = load_slide(0x50_0000, 0x1000);
    assert_eq!(slide, Some(0x4f_f000));
    assert!(apply_relocations(&mut image, reloc, slide, 0x1000).is_ok());
    assert_eq!(i64::from_le_bytes(image[64..72].try_into().unwrap()), 0x4f_f000 + 0x20);
    assert_eq!(i64::from_le_bytes(image[72..80].try_into().unwrap()), 0x4f_f000 - 8);
}

#[test]
fn other_relocation_kinds_are_refused() {
    let mut image = vec![0u8; 48];
    rela(&mut image, 0, 0x1000 + 24, 1, 0);
    let reloc = Reloc { offset: 0x1000, size: 24, stride: 24 };
    assert!(apply_relocations(&mut image, reloc, Some(0), 0x1000) == Err(BootError::UnsupportedRelocation(1)));
}

#[test]
fn relocation_outside_the_image_is_refused() {
    let mut image = vec![0u8; 24];
    rela(&mut image, 0, 0x1000 + 20, 8, 0);
    let reloc = Reloc { offset: 0x1000, size: 24, stride: 24 };
    assert!(apply_relocations(&mut image, reloc, Some(0), 0x1000) == Err(BootError::OutOfImage));
    let short = Reloc { offset: 0x1000, size: 48, stride: 24 };
    let mut image = vec![0u8; 24];
    rela(&mut image, 0, 0x1000, 8, 0);
    assert!(apply_relocations(&mut image, short, Some(0), 0x1000) == Err(BootError::OutOfImage));
    let below = Reloc { offset: 0x10, size: 24, stride: 24 };
    assert!(apply_relocations(&mut image, below, Some(0), 0x1000) == Err(BootError::OutOfImage));
}

#[test]
fn relocation_overflow_is_refused() {
    let mut image = vec![0u8; 48];
    rela(&mut image, 0, 0x1000 + 24, 8, i64::MAX);
    let reloc = Reloc { offset: 0x1000, size: 24, stride: 24 };
    assert!(apply_relocations(&mut image, reloc, Some(1), 0x1000) == Err(BootError::Overflow));
    let mut image = vec![0u8; 48];
    rela(&mut image, 0, 0x1000 + 24, 8, 0);
    assert!(apply_relocations(&mut image, reloc, None, 0x1000) == Err(BootError::Overflow));
}

#[test]
fn slides_of_loader_and_kernel() {
    assert_eq!(load_slide(0x20_0000, 0xffff_ffff_8000_0000), Some(0x20_0000 + 0x8000_0000));
    assert_eq!(higher_half_relocation_slide(0x100, 0x20_0000, 0x20_0000), Some(0x100));
    assert_eq!(higher_half_relocation_slide(i64::MAX, 1, 0), None);
}

#[test]
fn memory_types_the_kernel_may_use() {
    assert!(usable(1) && usable(2) && usable(3) && usable(4) && usable(7));
    assert!(!usable(0) && !usable(5) && !usable(9));
}

#[test]
fn reclaimable_acpi_memory_is_mapped_readable() {
    let e = [
        FirmwareRegion { ty: CONVENTIONAL, phys_start: 0x1000, page_count: 1 },
        FirmwareRegion { ty: ACPI_RECLAIM, phys_start: 0x8000, page_count: 3 },
    ];
    let maps = acpi_reclaim_maps(&e);
    assert_eq!(maps.len(), 1);
    assert_eq!(maps[0].region.base.addr(), 0x8000);
    assert_eq!(maps[0].region.pages, 3);
    assert_eq!(maps[0].flags.bits(), 4);
}

#[test]
fn adjacent_usable_regions_merge_largest_first() {
    let e = [
        FirmwareRegion { ty: CONVENTIONAL, phys_start: 0x1000, page_count: 1 },
        FirmwareRegion { ty: LOADER_DATA, phys_start: 0x2000, page_count: 2 },
        FirmwareRegion { ty: ACPI_RECLAIM, phys_start: 0x4000, page_count: 1 },
        FirmwareRegion { ty: CONVENTIONAL, phys_start: 0x10_0000, page_count: 5 },
        FirmwareRegion { ty: CONVENTIONAL, phys_start: 0x20_0000, page_count: 1 },
    ];
    let r = usable_regions(&e);
    assert!(r == vec![
        MemoryRegion::at(PAddr::new(0x10_0000), 5),
        MemoryRegion::at(PAddr::new(0x1000), 3),
        MemoryRegion::at(PAddr::new(0x20_0000), 1),
    ]);
}

#[test]
fn regions_stop_at_the_limit() {
    let e: Vec<FirmwareRegion> = (0..200).map(|i| FirmwareRegion { ty: CONVENTIONAL, phys_start: i * 0x10_0000, page_count: 1 }).collect();
    assert_eq!(usable_regions(&e).len(), 128);
}

#[test]
fn sorting_keeps_every_region() {
    let v = vec![
        MemoryRegion::at(PAddr::new(1), 2),
        MemoryRegion::at(PAddr::new(2), 9),
        MemoryRegion::at(PAddr::new(3), 2),
        MemoryRegion::at(PAddr::new(4), 5),
    ];
    let s = sort_by_size_desc(v);
    let pages: Vec<usize> = s.iter().map(|r| r.pages).collect();
    assert_eq!(pages, vec![9, 5, 2, 2]);
}

fn dyn_entry(out: &mut Vec<u8>, tag: i64, val: u64) {
    out.extend_from_slice(&tag.to_le_bytes());
    out.extend_from_slice(&val.to_le_bytes());
}

#[test]
fn dynamic_section_names_the_relocation_table() {
    let mut d = Vec::new();
    dyn_entry(&mut d, 5, 0x1234);
    dyn_entry(&mut d, 7, 0x2000);
    dyn_entry(&mut d, 8, 0x90);
    dyn_entry(&mut d, 9, 24);
    dyn_entry(&mut d, 7, 0x9999);
    dyn_entry(&mut d, 0, 0);
    assert!(dynamic_reloc(&d) == Some(Reloc { offset: 0x2000, size: 0x90, stride: 24 }));
}

#[test]
fn dynamic_section_stops_at_its_end_entry() {
    let mut d = Vec::new();
    dyn_entry(&mut d, 7, 0x2000);
    dyn_entry(&mut d, 8, 0x90);
    dyn_entry(&mut d, 0, 0);
    dyn_entry(&mut d, 9, 24);
    assert!(dynamic_reloc(&d).is_none());
    let mut z = Vec::new();
    dyn_entry(&mut z, 7, 0x2000);
    dyn_entry(&mut z, 8, 0x90);
    dyn_entry(&mut z, 9, 0);
    assert!(dynamic_reloc(&z).is_none());
    assert!(dynamic_reloc(&[]).is_none());
}
