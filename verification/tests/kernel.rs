use elpytios::bootinfo::vaddr::x86_64::phys::{Entry, NodeEntry, PtEntry};
use elpytios::bootinfo::vaddr::x86_64::virt::{RecursiveMapper, VAddr as VirtVAddr};
use elpytios::abi::{FileHandle, Syscall, SyscallArg};
use elpytios::bootinfo::paddr::PAddr;
use elpytios::bootinfo::vaddr::VAddr;
use elpytios::bootinfo::{IdentityMapFlags, MemoryRegion};
use elpytios::kernel::arch::{
    msr_join, syscall_msr_writes, msr_split, pit_step, supported_mask, ExtendedRegisterLayout, ExtendedRegisters, Msr, SaveInstruction,
    PIT_WAIT_MAX_NANOS,
};
use elpytios::kernel::interrupt::{
    gdt_entries, GdtEntry, IdtEntry, IdtIndex, IdtOptions, InterruptStack, PageFaultCause, Tss, TssEntry,
};
use elpytios::kernel::serial::{line_status_port, serial_init_writes, serial_write, tx_ready, Com};
use elpytios::kernel::spin_sync::{SpinMutex, SpinOnce};

#[test]
fn gdt_constants_match_their_flags() {
    let code = GdtEntry::PRESENT | GdtEntry::DESCRIPTOR_TYPE | GdtEntry::EXECUTABLE | GdtEntry::LONG_MODE;
    let data = GdtEntry::PRESENT | GdtEntry::DESCRIPTOR_TYPE | GdtEntry::WRITABLE;
    assert_eq!(GdtEntry::KERNEL_CODE, code | GdtEntry::DPL_0);
    assert_eq!(GdtEntry::KERNEL_DATA, data | GdtEntry::DPL_0);
    assert_eq!(GdtEntry::USER_CODE, code | GdtEntry::DPL_3);
    assert_eq!(GdtEntry::USER_DATA, data | GdtEntry::DPL_3);
    assert_eq!(GdtEntry::PRESENT, 1 << 47);
    assert_eq!(GdtEntry::LONG_MODE, 1 << 53);
}

#[test]
fn tss_descriptor_splits_the_address() {
    let addr: u64 = 0xffff_8123_4567_89ab;
    let e = TssEntry::new(addr);
    assert_eq!(e.limit_low, 103);
    assert_eq!(e.base_low, 0x89ab);
    assert_eq!(e.base_mid, 0x67);
    assert_eq!(e.type_flags, 0x89);
    assert_eq!(e.limit_high_flags, 0);
    assert_eq!(e.base_high, 0x45);
    assert_eq!(e.base_upper, 0xffff_8123);
    let [lo, hi] = e.to_gdt_entries();
    // the descriptor's sixteen bytes, read as two little-endian words
    let mut bytes = Vec::new();
    bytes.extend_from_slice(&e.limit_low.to_le_bytes());
    bytes.extend_from_slice(&e.base_low.to_le_bytes());
    bytes.extend_from_slice(&[e.base_mid, e.type_flags, e.limit_high_flags, e.base_high]);
    bytes.extend_from_slice(&e.base_upper.to_le_bytes());
    bytes.extend_from_slice(&e.reserved.to_le_bytes());
    assert_eq!(lo.0, u64::from_le_bytes(bytes[0..8].try_into().unwrap()));
    assert_eq!(hi.0, u64::from_le_bytes(bytes[8..16].try_into().unwrap()));
    let gdt = gdt_entries(addr);
    assert_eq!(gdt[1].0, GdtEntry::KERNEL_CODE);
    assert_eq!(gdt[5].0, lo.0);
    assert_eq!(gdt[6].0, hi.0);
}

#[test]
fn tss_starts_empty() {
    let t = Tss::new();
    assert_eq!(t.iopb_offset, 0xffff);
    assert_eq!(t.ist, [0; 7]);
    assert_eq!(Tss::ist_addr(InterruptStack::Task), 36);
}

#[test]
fn idt_gate_points_at_the_handler() {
    let e = IdtEntry::new(0xffff_8000_1234_5678, InterruptStack::Task);
    assert_eq!(e.pointer_low, 0x5678);
    assert_eq!(e.pointer_middle, 0x1234);
    assert_eq!(e.pointer_high, 0xffff_8000);
    assert_eq!(e.gdt_selector, 0x08);
    assert_eq!(e.options.0, IdtOptions::PRESENT | IdtOptions::TYPE_INTERRUPT | 1);
    let f = IdtEntry::new(0x1000, InterruptStack::Current);
    assert_eq!(f.options.0, 0x8e00);
    assert_eq!(IdtIndex::PageFault.vector(), 14);
    assert_eq!(IdtIndex::Spurious.vector(), 0xff);
}

#[test]
fn page_fault_code_bits() {
    let c = PageFaultCause::from_code(0b10011);
    assert!(c.not_present && c.is_write && !c.is_user && !c.reserved && c.execute);
    assert!(PageFaultCause::from_code(0) == PageFaultCause { not_present: false, is_write: false, is_user: false, reserved: false, execute: false });
}

#[test]
fn msr_halves_round_trip() {
    let v = 0x1234_5678_9abc_def0u64;
    let (lo, hi) = msr_split(v);
    assert_eq!((lo, hi), (0x9abc_def0, 0x1234_5678));
    assert_eq!(msr_join(lo, hi), v);
    assert_eq!(Msr::Ia32ApicBase.address(), 0x1b);
    assert_eq!(Msr::Ia32Lstar.address(), 0xc000_0082);
    assert_eq!(Msr::Ia32X2ApicLvtTimer.address(), 0x832);
}

#[test]
fn extended_registers_from_cpuid() {
    assert_eq!(supported_mask(0x7, 0x2).0, 0x2_0000_0007);
    let r = ExtendedRegisters::from_cpuid(0x7, 0x340, 0, 0b10).unwrap();
    assert_eq!(r.layout(), (0x340, 64));
    assert!(r.save_instruction() == SaveInstruction::Xsavec);
    assert_eq!(r.mask().0, 7);
    let z = ExtendedRegisters::from_cpuid(0x3, 0, 0, 0).unwrap();
    assert_eq!(z.layout(), (1, 64));
    assert!(z.save_instruction() == SaveInstruction::Xsave);
    let l = ExtendedRegisterLayout::from_cpuid(0x7, 0x340, 0, 0b01, 0x200).unwrap();
    assert_eq!(l.layout(), (0x340, 64));
    let c = ExtendedRegisterLayout::from_cpuid(0x7, 0x340, 0, 0b11, 0x200).unwrap();
    assert_eq!(c.layout(), (0x200, 64));
}

#[test]
fn pit_counts_down_in_rounded_up_ticks() {
    assert_eq!(pit_step(1), (0, 1));
    assert_eq!(pit_step(1_000_000), (0, 1194));
    assert_eq!(pit_step(PIT_WAIT_MAX_NANOS), (0, 0));
    assert_eq!(pit_step(PIT_WAIT_MAX_NANOS + 5), (5, 0));
    let mut left = 200_000_000u64;
    let mut steps = 0;
    while left > 0 {
        left = pit_step(left).0;
        steps += 1;
    }
    assert_eq!(steps, 4);
}

#[test]
fn serial_setup_and_newlines() {
    assert_eq!(Com::Com1.port(), 0x3f8);
    assert_eq!(Com::Com3.port(), 0x3e8);
    let w = serial_init_writes(Com::Com1);
    assert_eq!(w, vec![(0x3f9, 0), (0x3fb, 0x80), (0x3f8, 3), (0x3f9, 0), (0x3fb, 3), (0x3fa, 0xc7), (0x3fc, 3)]);
    assert_eq!(line_status_port(Com::Com2), 0x2fd);
    assert!(tx_ready(0x20) && tx_ready(0x60) && !tx_ready(0x1f));
    assert_eq!(serial_write(b"a\nb\n"), b"a\r\nb\r\n".to_vec());
    assert_eq!(serial_write(b""), Vec::<u8>::new());
}

#[test]
fn spin_once_runs_once() {
    let mut once = SpinOnce::new();
    assert_eq!(once.call_once(|| 7), Some(7));
    assert_eq!(once.call_once(|| 8), None);
}

#[test]
fn spin_mutex_gives_its_value() {
    let mut m = SpinMutex::new(5u32);
    *m.get_mut() += 1;
    let g = m.lock();
    m.unlock(g);
    assert_eq!(*m.get_mut(), 6);
}

#[test]
fn syscall_numbers_round_trip() {
    for s in [Syscall::Write, Syscall::Read, Syscall::MemMap] {
        assert!(Syscall::from_number(s.number()) == Some(s));
    }
    assert!(Syscall::from_number(2).is_none());
    assert_eq!(Syscall::MemMap.number(), 0x10);
    assert_eq!(FileHandle(3).into_usize(), 3);
    assert_eq!(FileHandle::from_usize(FileHandle::STDOUT).0, 0);
}

#[test]
fn addresses_and_flags() {
    assert_eq!(PAddr::new(0x1000).byte_add(0x10).addr(), 0x1010);
    let mut f = IdentityMapFlags::empty();
    f.insert(IdentityMapFlags::READABLE);
    f.insert(IdentityMapFlags::WRITABLE);
    assert!(f.contains(IdentityMapFlags::READABLE | IdentityMapFlags::WRITABLE));
    assert!(!f.contains(IdentityMapFlags::EXECUTABLE));
    assert!(MemoryRegion::at(PAddr::new(1), 2) == MemoryRegion { base: PAddr(1), pages: 2 });
    let v = VAddr::new(0xffff_8000_0020_1abc);
    let i = v.indices();
    assert_eq!(i.page_offset, 0xabc);
}

#[test]
fn recursive_mapper_addresses() {
    let m = RecursiveMapper::new(510);
    assert_eq!(m.pml4().addr(), 0xffff_ff7f_bfdf_e000);
    assert_eq!(m.pdpt(5).addr(), 0xffff_ff7f_bfc0_5000);
    assert!(m.reserved(VirtVAddr::new(0xffff_ff00_0000_0000)));
    assert!(!m.reserved(VirtVAddr::new(0xffff_8000_0000_0000)));
}

#[test]
fn entry_address_bits_are_bit_51() {
    let e = NodeEntry(Entry::PRESENT | Entry::READ_WRITE);
    assert!(e.is_present());
    let with = e.with_addr(PAddr::new((1 << 51) | 0x1000));
    assert_eq!(with.0, Entry::PRESENT | Entry::READ_WRITE | (1 << 51));
    assert_eq!(with.addr().addr(), 1 << 51);
    assert_eq!(PtEntry(0).with_addr(PAddr::new(0x5000)).addr().addr(), 0);
}

#[test]
fn syscall_setup_values() {
    let w = syscall_msr_writes(0x500, 0xffff_8000_0010_0000);
    assert!(w[0] == (Msr::Ia32Efer, 0x501));
    assert!(w[1] == (Msr::Ia32Star, 0x0010_0008_0000_0000));
    assert!(w[2] == (Msr::Ia32Lstar, 0xffff_8000_0010_0000));
    assert!(w[3] == (Msr::Ia32Fmask, 0x4_0600));
    assert_eq!(syscall_msr_writes(0x501, 0)[0].1, 0x501);
}
