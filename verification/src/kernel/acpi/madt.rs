//! The multiple APIC description table: the interrupt controllers of the machine, one entry
//! each after a short header.
use vstd::prelude::*;
use crate::elf::sys::{le16, le32, le64, read_u16, read_u32, read_u64};
use super::{SystemTable, TypedSystemTable};

verus! {

/// Flags of the whole table.
#[derive(Clone, Copy, PartialEq, Eq, Structural)]
pub struct ApicFlags(pub u32);

impl ApicFlags {
    /// The machine also has dual 8259 interrupt controllers.
    pub const PCAT_COMPAT: u32 = 1;
}

/// Flags of a local APIC.
#[derive(Clone, Copy, PartialEq, Eq, Structural)]
pub struct LocalApicFlags(pub u32);

impl LocalApicFlags {
    pub const ENABLED: u32 = 1;
    pub const ONLINE_CAPABLE: u32 = 2;
}

/// Polarity and trigger mode of an interrupt.
#[derive(Clone, Copy, PartialEq, Eq, Structural)]
pub struct MpsIntiFlags(pub u16);

impl MpsIntiFlags {
    pub const ACTIVE_HIGH: u16 = 0b01;
    pub const ACTIVE_LOW: u16 = 0b11;
    pub const POLARITY: u16 = 0b11;
    pub const EDGE_TRIGGERED: u16 = 0b0100;
    pub const LEVEL_TRIGGERED: u16 = 0b1100;
    pub const TRIGGER_MODE: u16 = 0b1100;
}

/// Flags of a platform interrupt source.
#[derive(Clone, Copy, PartialEq, Eq, Structural)]
pub struct PlatformInterruptSourceFlags(pub u32);

impl PlatformInterruptSourceFlags {
    pub const CPEI_PROCESSOR_OVERRIDE: u32 = 1;
}

/// Flags of a GIC CPU interface.
#[derive(Clone, Copy, PartialEq, Eq, Structural)]
pub struct GicCpuInterfaceFlags(pub u32);

impl GicCpuInterfaceFlags {
    pub const ENABLED: u32 = 1;
    pub const PERFORMANCE_INTERRUPT_MODE: u32 = 2;
    pub const VGIC_MAINTENANCE_INTERRUPT_MODE: u32 = 4;
}

/// Flags of a GIC MSI frame.
#[derive(Clone, Copy, PartialEq, Eq, Structural)]
pub struct GicMsiFrameFlags(pub u32);

impl GicMsiFrameFlags {
    pub const SPI_COUNT_BASE_SELECT: u32 = 1;
}

pub const PROCESSOR_LOCAL: u8 = 0x00;
pub const IO: u8 = 0x01;
pub const INTERRUPT_SOURCE_OVERRIDE: u8 = 0x02;
pub const NMI_SOURCE: u8 = 0x03;
pub const LOCAL_NMI: u8 = 0x04;
pub const LOCAL_ADDR_OVERRIDE: u8 = 0x05;
pub const IO_STREAMLINED: u8 = 0x06;
pub const PROCESSOR_LOCAL_STREAMLINED: u8 = 0x07;
pub const PLATFORM_INTERRUPT_SOURCES: u8 = 0x08;
pub const PROCESSOR_LOCAL_X2: u8 = 0x09;
pub const LOCAL_NMI_X2: u8 = 0x0a;
pub const GIC_CPU_INTERFACE: u8 = 0x0b;
pub const GIC_DISTRIBUTOR: u8 = 0x0c;
pub const GIC_MSI_FRAME: u8 = 0x0d;
pub const GIC_REDISTRIBUTOR: u8 = 0x0e;
pub const GIC_INTERRUPT_TRANSLATION_SERVICE: u8 = 0x0f;
/// First and last entry types reserved for the operating system.
pub const RESERVED_FOR_OSPM_START: u8 = 0x10;
pub const RESERVED_FOR_OSPM_END: u8 = 0x7f;
/// First and last entry types reserved for the firmware's vendor.
pub const RESERVED_FOR_OEM_START: u8 = 0x80;
pub const RESERVED_FOR_OEM_END: u8 = 0xff;

/// Processor local APIC.
#[derive(Clone, Copy)]
pub struct ProcessorLocal {
    pub acpi_processor_uid: u8,
    pub apic_id: u8,
    pub apic_flags: LocalApicFlags,
}

impl ProcessorLocal {
    /// Bytes of the structure.
    pub const SIZE: usize = 6;

    /// The structure held by the first bytes of `s`.
    pub open spec fn spec_decode(s: Seq<u8>) -> Self {
        ProcessorLocal {
            acpi_processor_uid: s[0],
            apic_id: s[1],
            apic_flags: LocalApicFlags(le32(s, 2) as u32),
        }
    }

    /// Decodes the structure from the first bytes of `b`.
    pub fn decode(b: &[u8]) -> (r: Self)
        requires
            Self::SIZE <= b@.len(),
        ensures
            r == Self::spec_decode(b@),
    {
        ProcessorLocal {
            acpi_processor_uid: b[0],
            apic_id: b[1],
            apic_flags: LocalApicFlags(read_u32(b, 2)),
        }
    }
}

/// I/O APIC.
#[derive(Clone, Copy)]
pub struct Io {
    pub io_apic_id: u8,
    pub reserved: [u8; 1],
    pub io_apic_addr: u32,
    pub global_system_interrupt_base: u32,
}

impl Io {
    /// Bytes of the structure.
    pub const SIZE: usize = 10;

    /// The structure held by the first bytes of `s`.
    pub open spec fn spec_decode(s: Seq<u8>) -> Self {
        Io {
            io_apic_id: s[0],
            reserved: [s[1]],
            io_apic_addr: le32(s, 2) as u32,
            global_system_interrupt_base: le32(s, 6) as u32,
        }
    }

    /// Decodes the structure from the first bytes of `b`.
    pub fn decode(b: &[u8]) -> (r: Self)
        requires
            Self::SIZE <= b@.len(),
        ensures
            r == Self::spec_decode(b@),
    {
        Io {
            io_apic_id: b[0],
            reserved: [b[1]],
            io_apic_addr: read_u32(b, 2),
            global_system_interrupt_base: read_u32(b, 6),
        }
    }
}

/// Interrupt source override.
#[derive(Clone, Copy)]
pub struct InterruptSourceOverride {
    pub bus: u8,
    pub source: u8,
    pub global_system_interrupt: u32,
    pub flags: MpsIntiFlags,
}

impl InterruptSourceOverride {
    /// Bytes of the structure.
    pub const SIZE: usize = 8;

    /// The structure held by the first bytes of `s`.
    pub open spec fn spec_decode(s: Seq<u8>) -> Self {
        InterruptSourceOverride {
            bus: s[0],
            source: s[1],
            global_system_interrupt: le32(s, 2) as u32,
            flags: MpsIntiFlags(le16(s, 6) as u16),
        }
    }

    /// Decodes the structure from the first bytes of `b`.
    pub fn decode(b: &[u8]) -> (r: Self)
        requires
            Self::SIZE <= b@.len(),
        ensures
            r == Self::spec_decode(b@),
    {
        InterruptSourceOverride {
            bus: b[0],
            source: b[1],
            global_system_interrupt: read_u32(b, 2),
            flags: MpsIntiFlags(read_u16(b, 6)),
        }
    }
}

/// Non-maskable interrupt source.
#[derive(Clone, Copy)]
pub struct NmiSource {
    pub flags: MpsIntiFlags,
    pub global_system_interrupt: u32,
}

impl NmiSource {
    /// Bytes of the structure.
    pub const SIZE: usize = 6;

    /// The structure held by the first bytes of `s`.
    pub open spec fn spec_decode(s: Seq<u8>) -> Self {
        NmiSource {
            flags: MpsIntiFlags(le16(s, 0) as u16),
            global_system_interrupt: le32(s, 2) as u32,
        }
    }

    /// Decodes the structure from the first bytes of `b`.
    pub fn decode(b: &[u8]) -> (r: Self)
        requires
            Self::SIZE <= b@.len(),
        ensures
            r == Self::spec_decode(b@),
    {
        NmiSource {
            flags: MpsIntiFlags(read_u16(b, 0)),
            global_system_interrupt: read_u32(b, 2),
        }
    }
}

/// Local APIC non-maskable interrupt.
#[derive(Clone, Copy)]
pub struct LocalNmi {
    pub acpi_processor_uid: u8,
    pub flags: MpsIntiFlags,
    pub local_apic_lint_num: u8,
}

impl LocalNmi {
    /// Bytes of the structure.
    pub const SIZE: usize = 4;

    /// The structure held by the first bytes of `s`.
    pub open spec fn spec_decode(s: Seq<u8>) -> Self {
        LocalNmi {
            acpi_processor_uid: s[0],
            flags: MpsIntiFlags(le16(s, 1) as u16),
            local_apic_lint_num: s[3],
        }
    }

    /// Decodes the structure from the first bytes of `b`.
    pub fn decode(b: &[u8]) -> (r: Self)
        requires
            Self::SIZE <= b@.len(),
        ensures
            r == Self::spec_decode(b@),
    {
        LocalNmi {
            acpi_processor_uid: b[0],
            flags: MpsIntiFlags(read_u16(b, 1)),
            local_apic_lint_num: b[3],
        }
    }
}

/// Local APIC address override.
#[derive(Clone, Copy)]
pub struct LocalAddrOverride {
    pub reserved: [u8; 2],
    pub local_apic_addr: u64,
}

impl LocalAddrOverride {
    /// Bytes of the structure.
    pub const SIZE: usize = 10;

    /// The structure held by the first bytes of `s`.
    pub open spec fn spec_decode(s: Seq<u8>) -> Self {
        LocalAddrOverride {
            reserved: [s[0], s[1]],
            local_apic_addr: le64(s, 2) as u64,
        }
    }

    /// Decodes the structure from the first bytes of `b`.
    pub fn decode(b: &[u8]) -> (r: Self)
        requires
            Self::SIZE <= b@.len(),
        ensures
            r == Self::spec_decode(b@),
    {
        LocalAddrOverride {
            reserved: [b[0], b[1]],
            local_apic_addr: read_u64(b, 2),
        }
    }
}

/// I/O SAPIC.
#[derive(Clone, Copy)]
pub struct IoStreamlined {
    pub io_apic_id: u8,
    pub reserved: [u8; 1],
    pub global_system_interrupt_base: u32,
    pub io_sapic_addr: u64,
}

impl IoStreamlined {
    /// Bytes of the structure.
    pub const SIZE: usize = 14;

    /// The structure held by the first bytes of `s`.
    pub open spec fn spec_decode(s: Seq<u8>) -> Self {
        IoStreamlined {
            io_apic_id: s[0],
            reserved: [s[1]],
            global_system_interrupt_base: le32(s, 2) as u32,
            io_sapic_addr: le64(s, 6) as u64,
        }
    }

    /// Decodes the structure from the first bytes of `b`.
    pub fn decode(b: &[u8]) -> (r: Self)
        requires
            Self::SIZE <= b@.len(),
        ensures
            r == Self::spec_decode(b@),
    {
        IoStreamlined {
            io_apic_id: b[0],
            reserved: [b[1]],
            global_system_interrupt_base: read_u32(b, 2),
            io_sapic_addr: read_u64(b, 6),
        }
    }
}

/// Local SAPIC; its UID string follows.
#[derive(Clone, Copy)]
pub struct ProcessorLocalStreamlined {
    pub acpi_processor_id: u8,
    pub local_sapic_id: u8,
    pub local_sapic_eid: u8,
    pub reserved: [u8; 3],
    pub flags: LocalApicFlags,
    pub acpi_processor_uid_value: u32,
}

impl ProcessorLocalStreamlined {
    /// Bytes of the structure.
    pub const SIZE: usize = 14;

    /// The structure held by the first bytes of `s`.
    pub open spec fn spec_decode(s: Seq<u8>) -> Self {
        ProcessorLocalStreamlined {
            acpi_processor_id: s[0],
            local_sapic_id: s[1],
            local_sapic_eid: s[2],
            reserved: [s[3], s[4], s[5]],
            flags: LocalApicFlags(le32(s, 6) as u32),
            acpi_processor_uid_value: le32(s, 10) as u32,
        }
    }

    /// Decodes the structure from the first bytes of `b`.
    pub fn decode(b: &[u8]) -> (r: Self)
        requires
            Self::SIZE <= b@.len(),
        ensures
            r == Self::spec_decode(b@),
    {
        ProcessorLocalStreamlined {
            acpi_processor_id: b[0],
            local_sapic_id: b[1],
            local_sapic_eid: b[2],
            reserved: [b[3], b[4], b[5]],
            flags: LocalApicFlags(read_u32(b, 6)),
            acpi_processor_uid_value: read_u32(b, 10),
        }
    }
}

/// Platform interrupt sources.
#[derive(Clone, Copy)]
pub struct PlatformInterruptSources {
    pub flags: MpsIntiFlags,
    pub interrupt_type: u8,
    pub processor_id: u8,
    pub processor_eid: u8,
    pub io_sapic_vector: u8,
    pub global_system_interrupt: u32,
    pub platform_interrupt_source_flags: PlatformInterruptSourceFlags,
}

impl PlatformInterruptSources {
    /// Bytes of the structure.
    pub const SIZE: usize = 14;

    /// The structure held by the first bytes of `s`.
    pub open spec fn spec_decode(s: Seq<u8>) -> Self {
        PlatformInterruptSources {
            flags: MpsIntiFlags(le16(s, 0) as u16),
            interrupt_type: s[2],
            processor_id: s[3],
            processor_eid: s[4],
            io_sapic_vector: s[5],
            global_system_interrupt: le32(s, 6) as u32,
            platform_interrupt_source_flags: PlatformInterruptSourceFlags(le32(s, 10) as u32),
        }
    }

    /// Decodes the structure from the first bytes of `b`.
    pub fn decode(b: &[u8]) -> (r: Self)
        requires
            Self::SIZE <= b@.len(),
        ensures
            r == Self::spec_decode(b@),
    {
        PlatformInterruptSources {
            flags: MpsIntiFlags(read_u16(b, 0)),
            interrupt_type: b[2],
            processor_id: b[3],
            processor_eid: b[4],
            io_sapic_vector: b[5],
            global_system_interrupt: read_u32(b, 6),
            platform_interrupt_source_flags: PlatformInterruptSourceFlags(read_u32(b, 10)),
        }
    }
}

/// Processor local x2APIC.
#[derive(Clone, Copy)]
pub struct ProcessLocalX2 {
    pub reserved: [u8; 2],
    pub x2apic_id: u32,
    pub flags: LocalApicFlags,
    pub acpi_processor_uid: u32,
}

impl ProcessLocalX2 {
    /// Bytes of the structure.
    pub const SIZE: usize = 14;

    /// The structure held by the first bytes of `s`.
    pub open spec fn spec_decode(s: Seq<u8>) -> Self {
        ProcessLocalX2 {
            reserved: [s[0], s[1]],
            x2apic_id: le32(s, 2) as u32,
            flags: LocalApicFlags(le32(s, 6) as u32),
            acpi_processor_uid: le32(s, 10) as u32,
        }
    }

    /// Decodes the structure from the first bytes of `b`.
    pub fn decode(b: &[u8]) -> (r: Self)
        requires
            Self::SIZE <= b@.len(),
        ensures
            r == Self::spec_decode(b@),
    {
        ProcessLocalX2 {
            reserved: [b[0], b[1]],
            x2apic_id: read_u32(b, 2),
            flags: LocalApicFlags(read_u32(b, 6)),
            acpi_processor_uid: read_u32(b, 10),
        }
    }
}

/// Local x2APIC non-maskable interrupt.
#[derive(Clone, Copy)]
pub struct LocalNmiX2 {
    pub flags: MpsIntiFlags,
    pub acpi_processor_uid: u32,
    pub local_x2apic_lint_num: u8,
    pub reserved: [u8; 3],
}

impl LocalNmiX2 {
    /// Bytes of the structure.
    pub const SIZE: usize = 10;

    /// The structure held by the first bytes of `s`.
    pub open spec fn spec_decode(s: Seq<u8>) -> Self {
        LocalNmiX2 {
            flags: MpsIntiFlags(le16(s, 0) as u16),
            acpi_processor_uid: le32(s, 2) as u32,
            local_x2apic_lint_num: s[6],
            reserved: [s[7], s[8], s[9]],
        }
    }

    /// Decodes the structure from the first bytes of `b`.
    pub fn decode(b: &[u8]) -> (r: Self)
        requires
            Self::SIZE <= b@.len(),
        ensures
            r == Self::spec_decode(b@),
    {
        LocalNmiX2 {
            flags: MpsIntiFlags(read_u16(b, 0)),
            acpi_processor_uid: read_u32(b, 2),
            local_x2apic_lint_num: b[6],
            reserved: [b[7], b[8], b[9]],
        }
    }
}

/// GIC CPU interface.
#[derive(Clone, Copy)]
pub struct GicCpuInterface {
    pub reserved: [u8; 2],
    pub cpu_interface_num: u32,
    pub acpi_processor_uid: u32,
    pub flags: GicCpuInterfaceFlags,
    pub parking_protocol_version: u32,
    pub performance_interrupt_gsiv: u32,
    pub parked_addr: u64,
    pub physical_base_addr: u64,
    pub gicv: u64,
    pub gich: u64,
    pub vgic_maintenance_interrupt: u32,
    pub gicr_base_addr: u64,
    pub mpidr: u64,
    pub processor_power_efficiency_class: u8,
    pub reserved2: [u8; 1],
    pub spe_overflow_interrupt: u16,
}

impl GicCpuInterface {
    /// Bytes of the structure.
    pub const SIZE: usize = 78;

    /// The structure held by the first bytes of `s`.
    pub open spec fn spec_decode(s: Seq<u8>) -> Self {
        GicCpuInterface {
            reserved: [s[0], s[1]],
            cpu_interface_num: le32(s, 2) as u32,
            acpi_processor_uid: le32(s, 6) as u32,
            flags: GicCpuInterfaceFlags(le32(s, 10) as u32),
            parking_protocol_version: le32(s, 14) as u32,
            performance_interrupt_gsiv: le32(s, 18) as u32,
            parked_addr: le64(s, 22) as u64,
            physical_base_addr: le64(s, 30) as u64,
            gicv: le64(s, 38) as u64,
            gich: le64(s, 46) as u64,
            vgic_maintenance_interrupt: le32(s, 54) as u32,
            gicr_base_addr: le64(s, 58) as u64,
            mpidr: le64(s, 66) as u64,
            processor_power_efficiency_class: s[74],
            reserved2: [s[75]],
            spe_overflow_interrupt: le16(s, 76) as u16,
        }
    }

    /// Decodes the structure from the first bytes of `b`.
    pub fn decode(b: &[u8]) -> (r: Self)
        requires
            Self::SIZE <= b@.len(),
        ensures
            r == Self::spec_decode(b@),
    {
        GicCpuInterface {
            reserved: [b[0], b[1]],
            cpu_interface_num: read_u32(b, 2),
            acpi_processor_uid: read_u32(b, 6),
            flags: GicCpuInterfaceFlags(read_u32(b, 10)),
            parking_protocol_version: read_u32(b, 14),
            performance_interrupt_gsiv: read_u32(b, 18),
            parked_addr: read_u64(b, 22),
            physical_base_addr: read_u64(b, 30),
            gicv: read_u64(b, 38),
            gich: read_u64(b, 46),
            vgic_maintenance_interrupt: read_u32(b, 54),
            gicr_base_addr: read_u64(b, 58),
            mpidr: read_u64(b, 66),
            processor_power_efficiency_class: b[74],
            reserved2: [b[75]],
            spe_overflow_interrupt: read_u16(b, 76),
        }
    }
}

/// GIC distributor.
#[derive(Clone, Copy)]
pub struct GicDistributor {
    pub reserved: [u8; 2],
    pub gic_id: u32,
    pub physical_base_addr: u64,
    pub system_vector_base: u32,
    pub gic_version: u8,
    pub reserved2: [u8; 3],
}

impl GicDistributor {
    /// Bytes of the structure.
    pub const SIZE: usize = 22;

    /// The structure held by the first bytes of `s`.
    pub open spec fn spec_decode(s: Seq<u8>) -> Self {
        GicDistributor {
            reserved: [s[0], s[1]],
            gic_id: le32(s, 2) as u32,
            physical_base_addr: le64(s, 6) as u64,
            system_vector_base: le32(s, 14) as u32,
            gic_version: s[18],
            reserved2: [s[19], s[20], s[21]],
        }
    }

    /// Decodes the structure from the first bytes of `b`.
    pub fn decode(b: &[u8]) -> (r: Self)
        requires
            Self::SIZE <= b@.len(),
        ensures
            r == Self::spec_decode(b@),
    {
        GicDistributor {
            reserved: [b[0], b[1]],
            gic_id: read_u32(b, 2),
            physical_base_addr: read_u64(b, 6),
            system_vector_base: read_u32(b, 14),
            gic_version: b[18],
            reserved2: [b[19], b[20], b[21]],
        }
    }
}

/// GIC MSI frame.
#[derive(Clone, Copy)]
pub struct GicMsiFrame {
    pub reserved: [u8; 2],
    pub gic_msi_frame_id: u32,
    pub physical_base_addr: u64,
    pub flags: GicMsiFrameFlags,
    pub spi_count: u16,
    pub spi_base: u16,
}

impl GicMsiFrame {
    /// Bytes of the structure.
    pub const SIZE: usize = 22;

    /// The structure held by the first bytes of `s`.
    pub open spec fn spec_decode(s: Seq<u8>) -> Self {
        GicMsiFrame {
            reserved: [s[0], s[1]],
            gic_msi_frame_id: le32(s, 2) as u32,
            physical_base_addr: le64(s, 6) as u64,
            flags: GicMsiFrameFlags(le32(s, 14) as u32),
            spi_count: le16(s, 18) as u16,
            spi_base: le16(s, 20) as u16,
        }
    }

    /// Decodes the structure from the first bytes of `b`.
    pub fn decode(b: &[u8]) -> (r: Self)
        requires
            Self::SIZE <= b@.len(),
        ensures
            r == Self::spec_decode(b@),
    {
        GicMsiFrame {
            reserved: [b[0], b[1]],
            gic_msi_frame_id: read_u32(b, 2),
            physical_base_addr: read_u64(b, 6),
            flags: GicMsiFrameFlags(read_u32(b, 14)),
            spi_count: read_u16(b, 18),
            spi_base: read_u16(b, 20),
        }
    }
}

/// GIC redistributor.
#[derive(Clone, Copy)]
pub struct GicRedistributor {
    pub reserved: [u8; 2],
    pub discovery_range_base_addr: u64,
    pub discovery_range_len: u32,
}

impl GicRedistributor {
    /// Bytes of the structure.
    pub const SIZE: usize = 14;

    /// The structure held by the first bytes of `s`.
    pub open spec fn spec_decode(s: Seq<u8>) -> Self {
        GicRedistributor {
            reserved: [s[0], s[1]],
            discovery_range_base_addr: le64(s, 2) as u64,
            discovery_range_len: le32(s, 10) as u32,
        }
    }

    /// Decodes the structure from the first bytes of `b`.
    pub fn decode(b: &[u8]) -> (r: Self)
        requires
            Self::SIZE <= b@.len(),
        ensures
            r == Self::spec_decode(b@),
    {
        GicRedistributor {
            reserved: [b[0], b[1]],
            discovery_range_base_addr: read_u64(b, 2),
            discovery_range_len: read_u32(b, 10),
        }
    }
}

/// GIC interrupt translation service.
#[derive(Clone, Copy)]
pub struct GicInterruptTranslationService {
    pub reserved: [u8; 2],
    pub gic_its_id: u32,
    pub physical_base_addr: u64,
    pub reserved2: [u8; 4],
}

impl GicInterruptTranslationService {
    /// Bytes of the structure.
    pub const SIZE: usize = 18;

    /// The structure held by the first bytes of `s`.
    pub open spec fn spec_decode(s: Seq<u8>) -> Self {
        GicInterruptTranslationService {
            reserved: [s[0], s[1]],
            gic_its_id: le32(s, 2) as u32,
            physical_base_addr: le64(s, 6) as u64,
            reserved2: [s[14], s[15], s[16], s[17]],
        }
    }

    /// Decodes the structure from the first bytes of `b`.
    pub fn decode(b: &[u8]) -> (r: Self)
        requires
            Self::SIZE <= b@.len(),
        ensures
            r == Self::spec_decode(b@),
    {
        GicInterruptTranslationService {
            reserved: [b[0], b[1]],
            gic_its_id: read_u32(b, 2),
            physical_base_addr: read_u64(b, 6),
            reserved2: [b[14], b[15], b[16], b[17]],
        }
    }
}

/// One interrupt controller of the table.
#[derive(Clone, Copy)]
pub enum Pic<'a> {
    ProcessorLocal(ProcessorLocal),
    Io(Io),
    InterruptSourceOverride(InterruptSourceOverride),
    NmiSource(NmiSource),
    LocalNmi(LocalNmi),
    LocalAddrOverride(LocalAddrOverride),
    IoStreamlined(IoStreamlined),
    /// The local SAPIC and its UID string.
    ProcessorLocalStreamlined(ProcessorLocalStreamlined, &'a [u8]),
    PlatformInterruptSources(PlatformInterruptSources),
    ProcessLocalX2(ProcessLocalX2),
    LocalNmiX2(LocalNmiX2),
    GicCpuInterface(GicCpuInterface),
    GicDistributor(GicDistributor),
    GicMsiFrame(GicMsiFrame),
    GicRedistributor(GicRedistributor),
    GicInterruptTranslationService(GicInterruptTranslationService),
}

/// Bytes of the structure of an entry of type `kind` below 16, past its type and length.
pub open spec fn body_size(kind: u8) -> int {
    if kind == 0 { 6 }
    else if kind == 1 { 10 }
    else if kind == 2 { 8 }
    else if kind == 3 { 6 }
    else if kind == 4 { 4 }
    else if kind == 5 { 10 }
    else if kind == 6 { 14 }
    else if kind == 7 { 14 }
    else if kind == 8 { 14 }
    else if kind == 9 { 14 }
    else if kind == 10 { 10 }
    else if kind == 11 { 78 }
    else if kind == 12 { 22 }
    else if kind == 13 { 22 }
    else if kind == 14 { 14 }
    else { 18 }
}

/// Bytes an entry takes from the start of `p`: its type and length, its structure, and
/// for a local SAPIC its UID string, which runs to the entry's length; a reserved type
/// takes only its type and length.
pub open spec fn entry_bytes(p: Seq<u8>) -> int {
    if p[0] >= 16 {
        2
    } else if p[0] == 7 {
        p[1] as int
    } else {
        2 + body_size(p[0])
    }
}

/// The entries from the start of `p` on can all be read.
pub open spec fn entries_ok(p: Seq<u8>) -> bool
    decreases p.len(),
{
    if p.len() == 0 {
        true
    } else if p.len() < 2 {
        false
    } else if p[0] == 7 && p[1] < 16 {
        false
    } else if entry_bytes(p) > p.len() {
        false
    } else {
        entries_ok(p.subrange(entry_bytes(p), p.len() as int))
    }
}

/// `p` past the reserved entries at its start.
pub open spec fn skip_reserved(p: Seq<u8>) -> Seq<u8>
    decreases p.len(),
{
    if p.len() >= 2 && p[0] >= 16 {
        skip_reserved(p.subrange(2, p.len() as int))
    } else {
        p
    }
}

/// `r` is what the entry at the start of `p` holds.
pub open spec fn pic_at(r: Pic, p: Seq<u8>) -> bool {
    let b = p.subrange(2, p.len() as int);
    let k = p[0];
    if k == 0 { r == Pic::ProcessorLocal(ProcessorLocal::spec_decode(b)) }
    else if k == 1 { r == Pic::Io(Io::spec_decode(b)) }
    else if k == 2 { r == Pic::InterruptSourceOverride(InterruptSourceOverride::spec_decode(b)) }
    else if k == 3 { r == Pic::NmiSource(NmiSource::spec_decode(b)) }
    else if k == 4 { r == Pic::LocalNmi(LocalNmi::spec_decode(b)) }
    else if k == 5 { r == Pic::LocalAddrOverride(LocalAddrOverride::spec_decode(b)) }
    else if k == 6 { r == Pic::IoStreamlined(IoStreamlined::spec_decode(b)) }
    else if k == 7 {
        r matches Pic::ProcessorLocalStreamlined(s, uid) && s == ProcessorLocalStreamlined::spec_decode(b) && uid@
            == p.subrange(16, p[1] as int)
    }
    else if k == 8 { r == Pic::PlatformInterruptSources(PlatformInterruptSources::spec_decode(b)) }
    else if k == 9 { r == Pic::ProcessLocalX2(ProcessLocalX2::spec_decode(b)) }
    else if k == 10 { r == Pic::LocalNmiX2(LocalNmiX2::spec_decode(b)) }
    else if k == 11 { r == Pic::GicCpuInterface(GicCpuInterface::spec_decode(b)) }
    else if k == 12 { r == Pic::GicDistributor(GicDistributor::spec_decode(b)) }
    else if k == 13 { r == Pic::GicMsiFrame(GicMsiFrame::spec_decode(b)) }
    else if k == 14 { r == Pic::GicRedistributor(GicRedistributor::spec_decode(b)) }
    else { r == Pic::GicInterruptTranslationService(GicInterruptTranslationService::spec_decode(b)) }
}

/// The entry of type `kind` and length `len` whose bytes past the type and length are
/// `body`, and the bytes it takes of `body`.
fn decode_entry<'a>(kind: u8, len: u8, body: &'a [u8]) -> (r: (Pic<'a>, usize))
    requires
        kind < 16,
        kind == 7 ==> len >= 16,
        kind == 7 ==> len - 2 <= body@.len(),
        kind != 7 ==> body_size(kind) <= body@.len(),
    ensures
        pic_at(r.0, seq![kind, len] + body@),
        r.1 == entry_bytes(seq![kind, len] + body@) - 2,
{
    let ghost p = seq![kind, len] + body@;
    assert(p.subrange(2, p.len() as int) =~= body@);
    match kind {
        0 => (Pic::ProcessorLocal(ProcessorLocal::decode(body)), ProcessorLocal::SIZE),
        1 => (Pic::Io(Io::decode(body)), Io::SIZE),
        2 => (Pic::InterruptSourceOverride(InterruptSourceOverride::decode(body)), InterruptSourceOverride::SIZE),
        3 => (Pic::NmiSource(NmiSource::decode(body)), NmiSource::SIZE),
        4 => (Pic::LocalNmi(LocalNmi::decode(body)), LocalNmi::SIZE),
        5 => (Pic::LocalAddrOverride(LocalAddrOverride::decode(body)), LocalAddrOverride::SIZE),
        6 => (Pic::IoStreamlined(IoStreamlined::decode(body)), IoStreamlined::SIZE),
        7 => {
            let s = ProcessorLocalStreamlined::decode(body);
            let used = (len as usize) - 2;
            let (first, _) = body.split_at(used);
            let (_, uid) = first.split_at(ProcessorLocalStreamlined::SIZE);
            assert(uid@ =~= p.subrange(16, len as int));
            (Pic::ProcessorLocalStreamlined(s, uid), used)
        },
        8 => (Pic::PlatformInterruptSources(PlatformInterruptSources::decode(body)), PlatformInterruptSources::SIZE),
        9 => (Pic::ProcessLocalX2(ProcessLocalX2::decode(body)), ProcessLocalX2::SIZE),
        10 => (Pic::LocalNmiX2(LocalNmiX2::decode(body)), LocalNmiX2::SIZE),
        11 => (Pic::GicCpuInterface(GicCpuInterface::decode(body)), GicCpuInterface::SIZE),
        12 => (Pic::GicDistributor(GicDistributor::decode(body)), GicDistributor::SIZE),
        13 => (Pic::GicMsiFrame(GicMsiFrame::decode(body)), GicMsiFrame::SIZE),
        14 => (Pic::GicRedistributor(GicRedistributor::decode(body)), GicRedistributor::SIZE),
        _ => (
            Pic::GicInterruptTranslationService(GicInterruptTranslationService::decode(body)),
            GicInterruptTranslationService::SIZE,
        ),
    }
}

/// The multiple APIC description table.
#[derive(Clone, Copy)]
pub struct Madt<'a> {
    /// Physical address of the local interrupt controllers.
    pub local_interrupt_control_addr: u32,
    pub flags: ApicFlags,
    /// The entries.
    pub payload: &'a [u8],
}

impl<'a> TypedSystemTable<'a> for Madt<'a> {
    open spec fn spec_signature() -> Seq<u8> {
        seq![0x41u8, 0x50, 0x49, 0x43]
    }

    open spec fn fits(table: SystemTable<'a>) -> bool {
        table.entries@.len() >= 8
    }

    open spec fn made_from(&self, table: SystemTable<'a>) -> bool {
        &&& self.local_interrupt_control_addr == le32(table.entries@, 0)
        &&& self.flags.0 == le32(table.entries@, 4)
        &&& self.payload@ == table.entries@.subrange(8, table.entries@.len() as int)
    }

    fn signature() -> (r: [u8; 4]) {
        let r = [0x41u8, 0x50, 0x49, 0x43];
        assert(r@ =~= seq![0x41u8, 0x50, 0x49, 0x43]);
        r
    }

    fn from_table(table: &SystemTable<'a>) -> (r: Self) {
        let (_, payload) = table.entries.split_at(8);
        Madt {
            local_interrupt_control_addr: read_u32(table.entries, 0),
            flags: ApicFlags(read_u32(table.entries, 4)),
            payload,
        }
    }
}

/// An iterator over the interrupt controllers of a [`Madt`].
#[derive(Clone, Copy)]
pub struct MadtEntries<'a> {
    pub payload: &'a [u8],
}

impl<'a> Madt<'a> {
    /// Every entry of the table can be read.
    pub fn entries_ok(&self) -> (r: bool)
        ensures
            r == entries_ok(self.payload@),
    {
        let mut p = self.payload;
        loop
            invariant
                entries_ok(p@) == entries_ok(self.payload@),
            decreases p@.len(),
        {
            if p.len() == 0 {
                return true;
            }
            if p.len() < 2 {
                return false;
            }
            let kind = p[0];
            let len = p[1];
            if kind == 7 && len < 16 {
                return false;
            }
            let used: usize = if kind >= 16 {
                2
            } else if kind == 7 {
                len as usize
            } else {
                2 + body_len(kind)
            };
            if used > p.len() {
                return false;
            }
            let (_, rest) = p.split_at(used);
            assert(rest@ =~= p@.subrange(entry_bytes(p@), p@.len() as int));
            p = rest;
        }
    }

    /// An iterator over the entries of the table.
    pub fn into_iter(self) -> (r: MadtEntries<'a>)
        ensures
            r.payload == self.payload,
    {
        MadtEntries { payload: self.payload }
    }
}

/// Bytes of the structure of an entry of type `kind` below 16.
fn body_len(kind: u8) -> (r: usize)
    requires
        kind < 16,
    ensures
        r == body_size(kind),
{
    match kind {
        0 => 6,
        1 => 10,
        2 => 8,
        3 => 6,
        4 => 4,
        5 => 10,
        6 => 14,
        7 => 14,
        8 => 14,
        9 => 14,
        10 => 10,
        11 => 78,
        12 => 22,
        13 => 22,
        14 => 14,
        _ => 18,
    }
}

impl<'a> MadtEntries<'a> {
    /// The next interrupt controller, past entries of reserved types; `None` at the end.
    pub fn next(&mut self) -> (r: Option<Pic<'a>>)
        requires
            entries_ok(old(self).payload@),
        ensures
            entries_ok(final(self).payload@),
            ({
                let q = skip_reserved(old(self).payload@);
                if q.len() == 0 {
                    r is None && final(self).payload@.len() == 0
                } else {
                    (r matches Some(pic) && pic_at(pic, q)) && final(self).payload@ == q.subrange(
                        entry_bytes(q),
                        q.len() as int,
                    )
                }
            }),
    {
        loop
            invariant
                entries_ok(self.payload@),
                skip_reserved(self.payload@) == skip_reserved(old(self).payload@),
            decreases self.payload@.len(),
        {
            let p = self.payload;
            if p.len() == 0 {
                return None;
            }
            let kind = p[0];
            let len = p[1];
            let (_, body) = p.split_at(2);
            assert(p@ =~= seq![kind, len] + body@);
            if kind >= 16 {
                self.payload = body;
                assert(body@ =~= p@.subrange(2, p@.len() as int));
                continue;
            }
            let (pic, used) = decode_entry(kind, len, body);
            let (_, rest) = body.split_at(used);
            assert(rest@ =~= p@.subrange(entry_bytes(p@), p@.len() as int));
            self.payload = rest;
            return Some(pic);
        }
    }
}

/// Why the device tree could not be set up from the system tables.
#[derive(Clone, Copy, PartialEq, Eq, Structural)]
pub enum DeviceTreeError {
    /// No table is an interrupt controller table.
    Missing,
    /// Two tables are interrupt controller tables.
    Duplicate,
    /// An interrupt controller table is shorter than its header.
    Truncated,
}

/// The signature of `t` is that of the interrupt controller table.
pub open spec fn is_madt(t: SystemTable) -> bool {
    t.signature@ == Madt::spec_signature()
}

/// The one interrupt controller table among `tables`.
pub fn find_madt<'a>(tables: &[SystemTable<'a>]) -> (r: Result<Madt<'a>, DeviceTreeError>)
    ensures
        match r {
            Ok(m) => exists|i: int|
                0 <= i < tables@.len() && is_madt(#[trigger] tables@[i]) && m.made_from(tables@[i]) && forall|j: int|
                    0 <= j < tables@.len() && j != i ==> !is_madt(#[trigger] tables@[j]),
            Err(DeviceTreeError::Missing) => forall|j: int| 0 <= j < tables@.len() ==> !is_madt(#[trigger] tables@[j]),
            Err(DeviceTreeError::Duplicate) => exists|i: int, j: int|
                0 <= i < j < tables@.len() && is_madt(#[trigger] tables@[i]) && is_madt(#[trigger] tables@[j]),
            Err(DeviceTreeError::Truncated) => exists|i: int|
                0 <= i < tables@.len() && is_madt(#[trigger] tables@[i]) && tables@[i].entries@.len() < 8,
        },
{
    let mut found: Option<Madt<'a>> = None;
    let ghost mut at: int = -1;
    let mut i: usize = 0;
    while i < tables.len()
        invariant
            i <= tables@.len(),
            found is None ==> forall|j: int| 0 <= j < i ==> !is_madt(#[trigger] tables@[j]),
            found matches Some(m) ==> {
                &&& 0 <= at < i
                &&& is_madt(tables@[at])
                &&& m.made_from(tables@[at])
                &&& forall|j: int| 0 <= j < i && j != at ==> !is_madt(#[trigger] tables@[j])
            },
        decreases tables@.len() - i,
    {
        let t = &tables[i];
        if t.entries.len() < 8 {
            if t.signature[0] == 0x41 && t.signature[1] == 0x50 && t.signature[2] == 0x49 && t.signature[3] == 0x43 {
                assert(is_madt(tables@[i as int])) by {
                    assert(t.signature@ =~= Madt::spec_signature());
                }
                return Err(DeviceTreeError::Truncated);
            }
            assert(!is_madt(tables@[i as int])) by {
                if t.signature@ == Madt::spec_signature() {
                    assert(t.signature@[0] == 0x41 && t.signature@[1] == 0x50 && t.signature@[2] == 0x49);
                }
            }
        } else {
            match t.typed::<Madt<'a>>() {
                Ok(m) => {
                    if found.is_some() {
                        assert(is_madt(tables@[at]) && is_madt(tables@[i as int]));
                        return Err(DeviceTreeError::Duplicate);
                    }
                    found = Some(m);
                    proof {
                        at = i as int;
                    }
                },
                Err(_) => {},
            }
        }
        i = i + 1;
    }
    match found {
        Some(m) => Ok(m),
        None => Err(DeviceTreeError::Missing),
    }
}

/// The body of an interrupt source override, past the entry's type and length: the bus at
/// its byte 0 and the source IRQ at byte 1 (offsets 2 and 3 of the entry), then the global
/// system interrupt in bytes 2 to 5 and the flags in bytes 6 and 7, least significant first.
pub proof fn lemma_interrupt_source_override_layout(s: Seq<u8>)
    requires
        s.len() >= InterruptSourceOverride::SIZE,
    ensures
        InterruptSourceOverride::spec_decode(s).bus == s[0],
        InterruptSourceOverride::spec_decode(s).source == s[1],
        InterruptSourceOverride::spec_decode(s).global_system_interrupt == s[2] + 0x100 * s[3] + 0x1_0000 * s[4]
            + 0x100_0000 * s[5],
        InterruptSourceOverride::spec_decode(s).flags.0 == s[6] + 0x100 * s[7],
{
}

/// The body of a processor's local APIC entry: the processor UID at byte 0, the APIC id at byte
/// 1, then the flags in bytes 2 to 5, least significant first.
pub proof fn lemma_processor_local_layout(s: Seq<u8>)
    requires
        s.len() >= ProcessorLocal::SIZE,
    ensures
        ProcessorLocal::spec_decode(s).acpi_processor_uid == s[0],
        ProcessorLocal::spec_decode(s).apic_id == s[1],
        ProcessorLocal::spec_decode(s).apic_flags.0 == s[2] + 0x100 * s[3] + 0x1_0000 * s[4] + 0x100_0000 * s[5],
{
}

/// The body of an I/O APIC entry: its id at byte 0, a reserved byte, then its address in bytes
/// 2 to 5 and the first global system interrupt it serves in bytes 6 to 9, least significant
/// first.
pub proof fn lemma_io_layout(s: Seq<u8>)
    requires
        s.len() >= Io::SIZE,
    ensures
        Io::spec_decode(s).io_apic_id == s[0],
        Io::spec_decode(s).io_apic_addr == s[2] + 0x100 * s[3] + 0x1_0000 * s[4] + 0x100_0000 * s[5],
        Io::spec_decode(s).global_system_interrupt_base == s[6] + 0x100 * s[7] + 0x1_0000 * s[8] + 0x100_0000 * s[9],
{
}

/// The body of a non-maskable interrupt source entry: the flags in bytes 0 and 1, then the
/// global system interrupt in bytes 2 to 5, least significant first.
pub proof fn lemma_nmi_source_layout(s: Seq<u8>)
    requires
        s.len() >= NmiSource::SIZE,
    ensures
        NmiSource::spec_decode(s).flags.0 == s[0] + 0x100 * s[1],
        NmiSource::spec_decode(s).global_system_interrupt == s[2] + 0x100 * s[3] + 0x1_0000 * s[4] + 0x100_0000 * s[5],
{
}

/// The body of a local APIC NMI entry: the processor UID at byte 0, the flags in bytes 1 and 2,
/// least significant first, and the LINT input at byte 3.
pub proof fn lemma_local_nmi_layout(s: Seq<u8>)
    requires
        s.len() >= LocalNmi::SIZE,
    ensures
        LocalNmi::spec_decode(s).acpi_processor_uid == s[0],
        LocalNmi::spec_decode(s).flags.0 == s[1] + 0x100 * s[2],
        LocalNmi::spec_decode(s).local_apic_lint_num == s[3],
{
}

/// The body of a local APIC address override: two reserved bytes, then the 64-bit address in
/// bytes 2 to 9, least significant first.
pub proof fn lemma_local_addr_override_layout(s: Seq<u8>)
    requires
        s.len() >= LocalAddrOverride::SIZE,
    ensures
        LocalAddrOverride::spec_decode(s).local_apic_addr == s[2] + 0x100 * s[3] + 0x1_0000 * s[4] + 0x100_0000 * s[5] + 0x1_0000_0000 * (s[6] + 0x100 * s[7] + 0x1_0000 * s[8] + 0x100_0000 * s[9]),
{
}

/// The body of a processor's local x2APIC entry: two reserved bytes, then the x2APIC id, the
/// flags and the processor UID, each four bytes from bytes 2, 6 and 10, least significant
/// first.
pub proof fn lemma_process_local_x2_layout(s: Seq<u8>)
    requires
        s.len() >= ProcessLocalX2::SIZE,
    ensures
        ProcessLocalX2::spec_decode(s).x2apic_id == s[2] + 0x100 * s[3] + 0x1_0000 * s[4] + 0x100_0000 * s[5],
        ProcessLocalX2::spec_decode(s).flags.0 == s[6] + 0x100 * s[7] + 0x1_0000 * s[8] + 0x100_0000 * s[9],
        ProcessLocalX2::spec_decode(s).acpi_processor_uid == s[10] + 0x100 * s[11] + 0x1_0000 * s[12] + 0x100_0000 * s[13],
{
}

/// The body of a local x2APIC NMI entry: the flags in bytes 0 and 1, the processor UID in bytes
/// 2 to 5, least significant first, and the LINT input at byte 6.
pub proof fn lemma_local_nmi_x2_layout(s: Seq<u8>)
    requires
        s.len() >= LocalNmiX2::SIZE,
    ensures
        LocalNmiX2::spec_decode(s).flags.0 == s[0] + 0x100 * s[1],
        LocalNmiX2::spec_decode(s).acpi_processor_uid == s[2] + 0x100 * s[3] + 0x1_0000 * s[4] + 0x100_0000 * s[5],
        LocalNmiX2::spec_decode(s).local_x2apic_lint_num == s[6],
{
}

} // verus!
