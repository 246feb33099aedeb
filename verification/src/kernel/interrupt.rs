//! x86-64 interrupt structures: the task state segment, the global descriptor table and the
//! interrupt descriptor table, as the processor reads them.
use vstd::prelude::*;

verus! {

/// The stack an interrupt runs on.
#[derive(Clone, Copy, PartialEq, Eq, Structural)]
pub enum InterruptStack {
    /// The current stack, or `rsp0` when coming from ring 3.
    Current,
    /// The first interrupt stack of the task state segment.
    Task,
}

impl InterruptStack {
    /// The number the processor knows the stack by: 0 for none, else the IST slot plus one.
    pub open spec fn spec_number(self) -> u8 {
        match self {
            InterruptStack::Current => 0u8,
            InterruptStack::Task => 1u8,
        }
    }

    /// The number the processor knows the stack by.
    #[verifier::when_used_as_spec(spec_number)]
    pub fn number(self) -> (r: u8)
        ensures
            r == self.spec_number(),
    {
        match self {
            InterruptStack::Current => 0,
            InterruptStack::Task => 1,
        }
    }
}

/// The 64-bit task state segment.
#[derive(Clone, Copy)]
pub struct Tss {
    pub reserved0: u32,
    /// The stack taken by an interrupt from ring 3.
    pub rsp0: u64,
    pub rsp1: u64,
    pub rsp2: u64,
    pub reserved1: u64,
    /// The interrupt stacks.
    pub ist: [u64; 7],
    pub reserved2: u64,
    pub reserved3: u16,
    pub iopb_offset: u16,
}

/// Bytes of the task state segment.
pub const TSS_SIZE: u64 = 104;

/// Offset of the interrupt stacks in the task state segment.
pub const TSS_IST_OFFSET: usize = 36;

impl Tss {
    /// An empty task state segment, without an I/O permission bitmap.
    pub fn new() -> (r: Self)
        ensures
            r.rsp0 == 0 && r.rsp1 == 0 && r.rsp2 == 0,
            forall|i: int| 0 <= i < 7 ==> r.ist[i] == 0,
            r.iopb_offset == 0xffff,
            r.reserved0 == 0 && r.reserved1 == 0 && r.reserved2 == 0 && r.reserved3 == 0,
    {
        Tss {
            reserved0: 0,
            rsp0: 0,
            rsp1: 0,
            rsp2: 0,
            reserved1: 0,
            ist: [0, 0, 0, 0, 0, 0, 0],
            reserved2: 0,
            reserved3: 0,
            iopb_offset: 0xffff,
        }
    }

    /// Offset in the task state segment of the interrupt stack `index`, which must name one.
    pub fn ist_addr(index: InterruptStack) -> (r: usize)
        requires
            index != InterruptStack::Current,
        ensures
            r == TSS_IST_OFFSET + (index.spec_number() - 1) * 8,
    {
        TSS_IST_OFFSET + ((index.number() - 1) as usize) * 8
    }
}

/// The descriptor of a task state segment in the global descriptor table.
#[derive(Clone, Copy)]
pub struct TssEntry {
    pub limit_low: u16,
    pub base_low: u16,
    pub base_mid: u8,
    pub type_flags: u8,
    pub limit_high_flags: u8,
    pub base_high: u8,
    pub base_upper: u32,
    pub reserved: u32,
}

impl TssEntry {
    /// The descriptor of the task state segment at `addr`: present, 64-bit, available,
    /// covering the whole segment.
    pub fn new(addr: u64) -> (r: Self)
        ensures
            r.limit_low == TSS_SIZE - 1,
            r.base_low == addr % 0x1_0000,
            r.base_mid == (addr / 0x1_0000) % 0x100,
            r.type_flags == 0x89,
            r.limit_high_flags == ((TSS_SIZE - 1) / 0x1_0000) % 0x10,
            r.base_high == (addr / 0x100_0000) % 0x100,
            r.base_upper == addr / 0x1_0000_0000,
            r.reserved == 0,
    {
        let limit: u64 = TSS_SIZE - 1;
        TssEntry {
            limit_low: (limit % 0x1_0000) as u16,
            base_low: (addr % 0x1_0000) as u16,
            base_mid: ((addr / 0x1_0000) % 0x100) as u8,
            type_flags: 0x89,
            limit_high_flags: ((limit / 0x1_0000) % 0x10) as u8,
            base_high: ((addr / 0x100_0000) % 0x100) as u8,
            base_upper: (addr / 0x1_0000_0000) as u32,
            reserved: 0,
        }
    }

    /// The two eight-byte slots of the global descriptor table the descriptor takes: its
    /// bytes, read in order as two little-endian words.
    pub fn to_gdt_entries(self) -> (r: [GdtEntry; 2])
        ensures
            r[0].0 == self.limit_low + self.base_low * 0x1_0000 + self.base_mid * 0x1_0000_0000 + self.type_flags
                * 0x100_0000_0000 + self.limit_high_flags * 0x1_0000_0000_0000 + self.base_high
                * 0x100_0000_0000_0000,
            r[1].0 == self.base_upper + self.reserved * 0x1_0000_0000,
    {
        let lower: u64 = self.limit_low as u64 + self.base_low as u64 * 0x1_0000 + self.base_mid as u64 * 0x1_0000_0000
            + self.type_flags as u64 * 0x100_0000_0000 + self.limit_high_flags as u64 * 0x1_0000_0000_0000
            + self.base_high as u64 * 0x100_0000_0000_0000;
        let upper: u64 = self.base_upper as u64 + self.reserved as u64 * 0x1_0000_0000;
        [GdtEntry(lower), GdtEntry(upper)]
    }
}

/// A segment descriptor of the global descriptor table.
#[derive(Clone, Copy, PartialEq, Eq, Structural)]
pub struct GdtEntry(pub u64);

impl GdtEntry {
    pub const ACCESSED: u64 = 0x100_0000_0000;
    pub const WRITABLE: u64 = 0x200_0000_0000;
    pub const EXECUTABLE: u64 = 0x800_0000_0000;
    pub const DESCRIPTOR_TYPE: u64 = 0x1000_0000_0000;
    pub const DPL_0: u64 = 0;
    pub const DPL_3: u64 = 0x6000_0000_0000;
    pub const PRESENT: u64 = 0x8000_0000_0000;
    pub const LONG_MODE: u64 = 0x20_0000_0000_0000;
    /// The null descriptor.
    pub const NULL: u64 = 0;
    /// Ring 0 code: present, code or data, executable, 64-bit.
    pub const KERNEL_CODE: u64 = 0x20_9800_0000_0000;
    /// Ring 0 data: present, code or data, writable.
    pub const KERNEL_DATA: u64 = 0x9200_0000_0000;
    /// Ring 3 code: present, code or data, executable, 64-bit, privilege 3.
    pub const USER_CODE: u64 = 0x20_f800_0000_0000;
    /// Ring 3 data: present, code or data, writable, privilege 3.
    pub const USER_DATA: u64 = 0xf200_0000_0000;
}

/// The first word of the descriptor of the task state segment at `addr`.
pub open spec fn tss_lower(addr: u64) -> int {
    (TSS_SIZE - 1) + (addr % 0x1_0000) * 0x1_0000 + ((addr / 0x1_0000) % 0x100) * 0x1_0000_0000 + 0x89
        * 0x100_0000_0000 + ((addr / 0x100_0000) % 0x100) * 0x100_0000_0000_0000
}

/// The second word of the descriptor of the task state segment at `addr`.
pub open spec fn tss_upper(addr: u64) -> int {
    (addr / 0x1_0000_0000) as int
}

/// The global descriptor table the kernel loads: null, kernel code, kernel data, user data,
/// user code, and the descriptor of the task state segment at `tss_addr`.
pub fn gdt_entries(tss_addr: u64) -> (r: [GdtEntry; 7])
    ensures
        r[0].0 == GdtEntry::NULL,
        r[1].0 == GdtEntry::KERNEL_CODE,
        r[2].0 == GdtEntry::KERNEL_DATA,
        r[3].0 == GdtEntry::USER_DATA,
        r[4].0 == GdtEntry::USER_CODE,
        r[5].0 == tss_lower(tss_addr),
        r[6].0 == tss_upper(tss_addr),
{
    let tss = TssEntry::new(tss_addr).to_gdt_entries();
    [
        GdtEntry(GdtEntry::NULL),
        GdtEntry(GdtEntry::KERNEL_CODE),
        GdtEntry(GdtEntry::KERNEL_DATA),
        GdtEntry(GdtEntry::USER_DATA),
        GdtEntry(GdtEntry::USER_CODE),
        tss[0],
        tss[1],
    ]
}

/// Type and permissions of an interrupt gate.
#[derive(Clone, Copy, PartialEq, Eq, Structural)]
pub struct IdtOptions(pub u16);

impl IdtOptions {
    pub const PRESENT: u16 = 0x8000;
    pub const IST_MASK: u16 = 7;
    pub const DPL_RING_0: u16 = 0;
    pub const DPL_RING_3: u16 = 0x3000;
    pub const TYPE_INTERRUPT: u16 = 0x0e00;
}

/// A gate of the interrupt descriptor table.
#[derive(Clone, Copy)]
pub struct IdtEntry {
    pub pointer_low: u16,
    pub gdt_selector: u16,
    pub options: IdtOptions,
    pub pointer_middle: u16,
    pub pointer_high: u32,
    pub reserved: u32,
}

impl IdtEntry {
    /// A present ring-0 interrupt gate to the handler at `handler`, running in the kernel
    /// code segment on the stack `stack`.
    pub fn new(handler: u64, stack: InterruptStack) -> (r: Self)
        ensures
            r.pointer_low == handler % 0x1_0000,
            r.pointer_middle == (handler / 0x1_0000) % 0x1_0000,
            r.pointer_high == handler / 0x1_0000_0000,
            r.gdt_selector == 0x08,
            r.options.0 == IdtOptions::PRESENT + IdtOptions::DPL_RING_0 + IdtOptions::TYPE_INTERRUPT
                + stack.spec_number(),
            r.reserved == 0,
    {
        IdtEntry {
            pointer_low: (handler % 0x1_0000) as u16,
            pointer_middle: ((handler / 0x1_0000) % 0x1_0000) as u16,
            pointer_high: (handler / 0x1_0000_0000) as u32,
            gdt_selector: 0x08,
            options: IdtOptions(IdtOptions::PRESENT + IdtOptions::DPL_RING_0 + IdtOptions::TYPE_INTERRUPT + stack.number() as u16),
            reserved: 0,
        }
    }
}

/// The interrupt vectors the kernel handles.
#[derive(Clone, Copy, PartialEq, Eq, Structural)]
pub enum IdtIndex {
    DoubleFault,
    PageFault,
    ScheduleTimer,
    Spurious,
}

impl IdtIndex {
    /// The vector number.
    pub open spec fn spec_vector(self) -> u8 {
        match self {
            IdtIndex::DoubleFault => 0x08u8,
            IdtIndex::PageFault => 0x0eu8,
            IdtIndex::ScheduleTimer => 0x20u8,
            IdtIndex::Spurious => 0xffu8,
        }
    }

    /// The vector number.
    #[verifier::when_used_as_spec(spec_vector)]
    pub fn vector(self) -> (r: u8)
        ensures
            r == self.spec_vector(),
    {
        match self {
            IdtIndex::DoubleFault => 0x08,
            IdtIndex::PageFault => 0x0e,
            IdtIndex::ScheduleTimer => 0x20,
            IdtIndex::Spurious => 0xff,
        }
    }
}

/// What the processor pushes before the return address: nothing, or an error code.
pub trait InterruptError: Sized {
    /// Bytes to skip over the error code.
    spec fn spec_stack_adjust() -> usize;

    /// Bytes to skip over the error code.
    fn stack_adjust() -> (r: usize)
        ensures
            r == Self::spec_stack_adjust(),
    ;
}

impl InterruptError for () {
    open spec fn spec_stack_adjust() -> usize {
        0
    }

    fn stack_adjust() -> (r: usize) {
        0
    }
}

impl InterruptError for u64 {
    open spec fn spec_stack_adjust() -> usize {
        8
    }

    fn stack_adjust() -> (r: usize) {
        8
    }
}

/// The registers of an interrupted context, as the handler stubs save them.
pub struct InterruptFrame<E> {
    pub rax: u64,
    pub rcx: u64,
    pub rdx: u64,
    pub rsi: u64,
    pub rdi: u64,
    pub r8: u64,
    pub r9: u64,
    pub r10: u64,
    pub r11: u64,
    pub rbx: u64,
    pub rbp: u64,
    pub r12: u64,
    pub r13: u64,
    pub r14: u64,
    pub r15: u64,
    /// The error code the processor pushed, if any.
    pub error: E,
    pub rip: u64,
    pub cs: u64,
    pub rflags: u64,
    pub rsp: u64,
    pub ss: u64,
}

/// What a page fault's error code says.
#[derive(Clone, Copy, PartialEq, Eq, Structural)]
pub struct PageFaultCause {
    /// The page was not present (else the access broke its protection).
    pub not_present: bool,
    /// The access was a write.
    pub is_write: bool,
    /// The access came from ring 3.
    pub is_user: bool,
    /// A reserved bit of a page-table entry was set.
    pub reserved: bool,
    /// The access was an instruction fetch.
    pub execute: bool,
}

impl PageFaultCause {
    /// Reads the low five bits of a page fault's error code.
    pub fn from_code(code: u64) -> (r: Self)
        ensures
            r.not_present == (code % 2 == 1),
            r.is_write == ((code / 2) % 2 == 1),
            r.is_user == ((code / 4) % 2 == 1),
            r.reserved == ((code / 8) % 2 == 1),
            r.execute == ((code / 16) % 2 == 1),
    {
        PageFaultCause {
            not_present: code % 2 == 1,
            is_write: (code / 2) % 2 == 1,
            is_user: (code / 4) % 2 == 1,
            reserved: (code / 8) % 2 == 1,
            execute: (code / 16) % 2 == 1,
        }
    }
}

} // verus!
