use elpytios::elf::sys::{ElfHeaderPrologue, ElfProgramFlags, ElfRela64, ElfType, read_i64, read_u16, read_u32, read_u64};
use elpytios::elf::{int_fit, Elf, ElfError, ElfSegmentType, Reader};

fn put16(v: &mut Vec<u8>, at: usize, x: u16) {
    v[at..at + 2].copy_from_slice(&x.to_le_bytes());
}
fn put32(v: &mut Vec<u8>, at: usize, x: u32) {
    v[at..at + 4].copy_from_slice(&x.to_le_bytes());
}
fn put64(v: &mut Vec<u8>, at: usize, x: u64) {
    v[at..at + 8].copy_from_slice(&x.to_le_bytes());
}

/// A 64-bit image: header, one program header at 64, two section headers at 120 (a null
/// section and the string table), the string table at 248 and the segment data at 256.
fn image() -> Vec<u8> {
    let mut v = vec![0u8; 264];
    v[0..4].copy_from_slice(&[0x7f, b'E', b'L', b'F']);
    v[4] = 2;
    v[5] = 1;
    v[6] = 1;
    put16(&mut v, 16, 2);
    put16(&mut v, 18, 0x3e);
    put32(&mut v, 20, 1);
    put64(&mut v, 24, 0xffff_ffff_8000_0010);
    put64(&mut v, 32, 64);
    put64(&mut v, 40, 120);
    put16(&mut v, 52, 64);
    put16(&mut v, 54, 56);
    put16(&mut v, 56, 1);
    put16(&mut v, 58, 64);
    put16(&mut v, 60, 2);
    put16(&mut v, 62, 1);
    // program header: load, readable and executable, 8 bytes at 256, 16 in memory
    put32(&mut v, 64, 1);
    put32(&mut v, 68, 5);
    put64(&mut v, 72, 256);
    put64(&mut v, 80, 0xffff_ffff_8000_0000);
    put64(&mut v, 88, 0x20_0000);
    put64(&mut v, 96, 8);
    put64(&mut v, 104, 16);
    put64(&mut v, 112, 4096);
    // section 1: the string table, 8 bytes at 248
    put32(&mut v, 184, 1);
    put32(&mut v, 188, 3);
    put64(&mut v, 208, 248);
    put64(&mut v, 216, 8);
    v[248..256].copy_from_slice(b"\0.text\0\0");
    v[256..264].copy_from_slice(&[1, 2, 3, 4, 5, 6, 7, 8]);
    v
}

#[test]
fn reads_little_endian_numbers() {
    let b = [0x01u8, 0x02, 0x03, 0x04, 0x05, 0x06, 0x07, 0x88];
    assert_eq!(read_u16(&b, 0), 0x0201);
    assert_eq!(read_u32(&b, 0), 0x0403_0201);
    assert_eq!(read_u64(&b, 0), 0x8807_0605_0403_0201);
    assert_eq!(read_i64(&b, 0), 0x8807_0605_0403_0201u64 as i64);
    assert_eq!(read_i64(&[0xff; 8], 0), -1);
}

#[test]
fn int_fit_refuses_nothing_on_this_machine() {
    assert_eq!(int_fit(7).ok(), Some(7));
    assert_eq!(int_fit(u64::MAX).ok(), usize::try_from(u64::MAX).ok());
}

#[test]
fn reader_forks_and_takes() {
    let bytes = [1u8, 2, 3, 4, 5];
    let r = Reader { bytes: &bytes };
    let mut f = r.fork(2).unwrap();
    assert_eq!(f.bytes, &[3, 4, 5]);
    assert_eq!(f.take(2), Some(&[3u8, 4][..]));
    assert_eq!(f.bytes, &[5]);
    assert_eq!(f.take(2), None);
    assert_eq!(f.bytes, &[5]);
    assert!(r.fork(6).is_none());
}

#[test]
fn decodes_the_prologue() {
    let v = image();
    let p = ElfHeaderPrologue::decode(&v);
    assert_eq!(p.magic, [0x7f, b'E', b'L', b'F']);
    assert_eq!(p.arch, 2);
    assert!(p.elf_type == ElfType(ElfType::EXECUTABLE));
    assert_eq!(p.instruction_set, 0x3e);
    assert_eq!(p.elf_version, 1);
}

#[test]
fn reads_a_64_bit_image() {
    let v = image();
    let Ok(Elf::N64(elf)) = Elf::from_bytes(&v) else { panic!("image refused") };
    assert_eq!(elf.program_entry(), 0xffff_ffff_8000_0010);
    assert_eq!(elf.program_header_count(), 1);
    let mut segments = elf.program_segments();
    let seg = segments.next().unwrap().ok().unwrap();
    assert!(seg.segment_type == ElfSegmentType::Load);
    assert_eq!(seg.data, &[1, 2, 3, 4, 5, 6, 7, 8]);
    assert!(seg.flags.contains(ElfProgramFlags::EXECUTABLE));
    assert!(seg.flags.contains(ElfProgramFlags::READABLE));
    assert!(!seg.flags.contains(ElfProgramFlags::WRITABLE));
    assert_eq!(seg.virtual_address, 0xffff_ffff_8000_0000);
    assert_eq!(seg.physical_address, 0x20_0000);
    assert_eq!(seg.memory_size, 16);
    assert_eq!(seg.alignment, 4096);
    assert!(segments.next().is_none());
}

#[test]
fn names_sections_from_the_string_table() {
    let v = image();
    let Ok(Elf::N64(elf)) = Elf::from_bytes(&v) else { panic!("image refused") };
    let mut sections = elf.sections();
    let null = sections.next().unwrap().ok().unwrap();
    assert_eq!(null.data.len(), 0);
    assert_eq!(null.name(&elf), b"");
    let strings = sections.next().unwrap().ok().unwrap();
    assert_eq!(strings.name(&elf), b".text");
    assert!(sections.next().is_none());
}

#[test]
fn short_image_is_eof() {
    assert!(matches!(Elf::from_bytes(&[0x7f, b'E', b'L', b'F']), Err(ElfError::Eof)));
    let v = image();
    assert!(matches!(Elf::from_bytes(&v[..40]), Err(ElfError::Eof)));
}

#[test]
fn wrong_magic_is_reported() {
    let mut v = image();
    v[1] = b'X';
    match Elf::from_bytes(&v) {
        Err(ElfError::InvalidMagic(m)) => assert_eq!(m, [0x7f, b'X', b'L', b'F']),
        _ => panic!("bad magic accepted"),
    }
}

#[test]
fn unknown_arch_is_reported() {
    let mut v = image();
    v[4] = 3;
    assert!(matches!(Elf::from_bytes(&v), Err(ElfError::InvalidArch(3))));
}

#[test]
fn string_table_past_the_sections_is_missing() {
    let mut v = image();
    put16(&mut v, 62, 2);
    assert!(matches!(Elf::from_bytes(&v), Err(ElfError::MissingStringTable)));
}

#[test]
fn table_offset_past_the_end_is_eof() {
    let mut v = image();
    put64(&mut v, 40, 10_000);
    assert!(matches!(Elf::from_bytes(&v), Err(ElfError::Eof)));
}

#[test]
fn segment_data_past_the_end_is_an_error() {
    let v = image();
    let mut w = v.clone();
    put64(&mut w, 96, 1000);
    let Ok(Elf::N64(elf)) = Elf::from_bytes(&w) else { panic!("image refused") };
    assert!(matches!(elf.program_segments().next(), Some(Err(ElfError::Eof))));
}

#[test]
fn decodes_a_relocation() {
    let mut b = vec![0u8; 24];
    put64(&mut b, 0, 0x1000);
    put32(&mut b, 8, 8);
    put32(&mut b, 12, 0);
    put64(&mut b, 16, (-16i64) as u64);
    let r = ElfRela64::decode(&b);
    assert_eq!(r.offset, 0x1000);
    assert_eq!(r.info.kind.0, 8);
    assert_eq!(r.addend, -16);
}

#[test]
fn segment_types_by_number() {
    assert!(ElfSegmentType::from_number(0) == ElfSegmentType::Null);
    assert!(ElfSegmentType::from_number(2) == ElfSegmentType::Dynamic);
    assert!(ElfSegmentType::from_number(7) == ElfSegmentType::Tls);
    assert!(ElfSegmentType::from_number(0x6474_e551) == ElfSegmentType::Unknown(0x6474_e551));
}
