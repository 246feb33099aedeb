use elpytios::kernel::acpi::madt::{find_madt, DeviceTreeError, Madt, Pic};
use elpytios::kernel::acpi::{sum_bytes, AcpiError, Rsdp, Rsdt, SystemTable, Xsdp, Xsdt};

/// Sets byte `at` so that `bytes` add up to zero.
fn fix_checksum(bytes: &mut [u8], at: usize) {
    bytes[at] = 0;
    let sum = bytes.iter().fold(0u8, |a, b| a.wrapping_add(*b));
    bytes[at] = 0u8.wrapping_sub(sum);
}

fn rsdp_bytes() -> Vec<u8> {
    let mut b = vec![0u8; 36];
    b[0..8].copy_from_slice(b"RSD PTR ");
    b[9..15].copy_from_slice(b"ELPYTI");
    b[15] = 2;
    b[16..20].copy_from_slice(&0x000e_0000u32.to_le_bytes());
    fix_checksum(&mut b[..20], 8);
    b[20..24].copy_from_slice(&36u32.to_le_bytes());
    b[24..32].copy_from_slice(&0x1_0000_0000u64.to_le_bytes());
    fix_checksum(&mut b[20..36], 12);
    b
}

fn table(signature: &[u8; 4], entries: &[u8]) -> Vec<u8> {
    let mut t = vec![0u8; 36];
    t[0..4].copy_from_slice(signature);
    t.extend_from_slice(entries);
    let len = t.len() as u32;
    t[4..8].copy_from_slice(&len.to_le_bytes());
    fix_checksum(&mut t, 9);
    t
}

#[test]
fn checksum_is_the_byte_sum() {
    assert_eq!(sum_bytes(&[1, 2, 3, 250], 0, 4), 0);
    assert_eq!(sum_bytes(&[1, 2, 3, 250], 1, 2), 5);
    assert_eq!(sum_bytes(&[], 0, 0), 0);
}

#[test]
fn reads_a_root_pointer() {
    let b = rsdp_bytes();
    let r = Rsdp::new(&b).ok().unwrap();
    assert_eq!(&r.signature, b"RSD PTR ");
    assert_eq!(&r.oem_id, b"ELPYTI");
    assert_eq!(r.revision, 2);
    assert_eq!(r.rsdt_addr, 0xe_0000);
    let x = Xsdp::new(&b).ok().unwrap();
    assert_eq!(x.len, 36);
    assert_eq!(x.xsdt_addr, 0x1_0000_0000);
}

#[test]
fn wrong_root_signature_is_reported() {
    let mut b = rsdp_bytes();
    b[0] = b'X';
    match Rsdp::new(&b) {
        Err(AcpiError::InvalidRootSignature { found }) => assert_eq!(&found, b"XSD PTR "),
        _ => panic!("bad signature accepted"),
    }
}

#[test]
fn bad_root_checksum_is_reported() {
    let mut b = rsdp_bytes();
    b[15] = 3;
    assert!(matches!(Rsdp::new(&b), Err(AcpiError::InvalidChecksum(1))));
    let mut x = rsdp_bytes();
    x[33] = 7;
    assert!(matches!(Xsdp::new(&x), Err(AcpiError::InvalidChecksum(7))));
}

#[test]
fn system_table_checksum_covers_the_whole_table() {
    let mut t = table(b"RSDT", &[0, 0, 1, 0]);
    assert!(SystemTable::parse(&t).is_ok());
    t[38] = 2;
    assert!(matches!(SystemTable::parse(&t), Err(AcpiError::InvalidChecksum(1))));
}

#[test]
fn root_tables_list_addresses() {
    let mut entries = Vec::new();
    entries.extend_from_slice(&0x1000u32.to_le_bytes());
    entries.extend_from_slice(&0x2000u32.to_le_bytes());
    let t = table(b"RSDT", &entries);
    let rsdp = Rsdp::new(&rsdp_bytes()).ok().unwrap();
    let rsdt: Rsdt = rsdp.rsdt(&t).ok().unwrap();
    assert!(rsdt.is_whole());
    assert_eq!(rsdt.addresses(), vec![0x1000, 0x2000]);

    let x = table(b"XSDT", &0x1_2345_6789u64.to_le_bytes());
    let xsdp = Xsdp::new(&rsdp_bytes()).ok().unwrap();
    let xsdt: Xsdt = xsdp.xsdt(&x).ok().unwrap();
    assert_eq!(xsdt.addresses(), vec![0x1_2345_6789]);
}

#[test]
fn wrong_table_signature_is_reported() {
    let t = table(b"FACP", &[]);
    let rsdp = Rsdp::new(&rsdp_bytes()).ok().unwrap();
    match rsdp.rsdt(&t) {
        Err(AcpiError::InvalidTableSignature { expected, found }) => {
            assert_eq!(&expected, b"RSDT");
            assert_eq!(&found, b"FACP");
        }
        _ => panic!("wrong table accepted"),
    }
}

fn madt_entries() -> Vec<u8> {
    let mut e = Vec::new();
    e.extend_from_slice(&0xfee0_0000u32.to_le_bytes());
    e.extend_from_slice(&1u32.to_le_bytes());
    // processor local APIC: uid 0, id 1, enabled
    e.extend_from_slice(&[0, 8, 0, 1, 1, 0, 0, 0]);
    // a reserved type: only its type and length are skipped
    e.extend_from_slice(&[0x80, 2]);
    // I/O APIC 2 at 0xfec00000, interrupts from 0
    e.extend_from_slice(&[1, 12, 2, 0]);
    e.extend_from_slice(&0xfec0_0000u32.to_le_bytes());
    e.extend_from_slice(&0u32.to_le_bytes());
    // local SAPIC with the UID string "ab"
    e.extend_from_slice(&[7, 18, 1, 2, 3, 0, 0, 0]);
    e.extend_from_slice(&1u32.to_le_bytes());
    e.extend_from_slice(&5u32.to_le_bytes());
    e.extend_from_slice(b"ab");
    e
}

#[test]
fn walks_the_interrupt_controllers() {
    let t = table(b"APIC", &madt_entries());
    let st = SystemTable::parse(&t).ok().unwrap();
    let madt: Madt = st.typed().ok().unwrap();
    assert_eq!(madt.local_interrupt_control_addr, 0xfee0_0000);
    assert_eq!(madt.flags.0, 1);
    assert!(madt.entries_ok());
    let mut it = madt.into_iter();
    match it.next() {
        Some(Pic::ProcessorLocal(p)) => {
            assert_eq!(p.acpi_processor_uid, 0);
            assert_eq!(p.apic_id, 1);
            assert_eq!(p.apic_flags.0, 1);
        }
        _ => panic!("expected a processor local APIC"),
    }
    match it.next() {
        Some(Pic::Io(io)) => {
            assert_eq!(io.io_apic_id, 2);
            assert_eq!(io.io_apic_addr, 0xfec0_0000);
            assert_eq!(io.global_system_interrupt_base, 0);
        }
        _ => panic!("expected an I/O APIC"),
    }
    match it.next() {
        Some(Pic::ProcessorLocalStreamlined(s, uid)) => {
            assert_eq!(s.acpi_processor_id, 1);
            assert_eq!(s.local_sapic_id, 2);
            assert_eq!(s.local_sapic_eid, 3);
            assert_eq!(s.flags.0, 1);
            assert_eq!(s.acpi_processor_uid_value, 5);
            assert_eq!(uid, b"ab");
        }
        _ => panic!("expected a local SAPIC"),
    }
    assert!(it.next().is_none());
}

#[test]
fn truncated_entry_is_not_ok() {
    let mut e = madt_entries();
    e.truncate(e.len() - 1);
    let t = table(b"APIC", &e);
    let st = SystemTable::parse(&t).ok().unwrap();
    let madt: Madt = st.typed().ok().unwrap();
    assert!(!madt.entries_ok());
}

#[test]
fn exactly_one_madt_is_found() {
    let a = table(b"APIC", &madt_entries());
    let f = table(b"FACP", &[0; 8]);
    let tables = [SystemTable::parse(&f).ok().unwrap(), SystemTable::parse(&a).ok().unwrap()];
    let m = find_madt(&tables).ok().unwrap();
    assert_eq!(m.local_interrupt_control_addr, 0xfee0_0000);
    assert!(matches!(find_madt(&tables[..1]), Err(DeviceTreeError::Missing)));
    let twice = [tables[1], tables[1]];
    assert!(matches!(find_madt(&twice), Err(DeviceTreeError::Duplicate)));
    let short = table(b"APIC", &[0; 4]);
    let s = [SystemTable::parse(&short).ok().unwrap()];
    assert!(matches!(find_madt(&s), Err(DeviceTreeError::Truncated)));
}
