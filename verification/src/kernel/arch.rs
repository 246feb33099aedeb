//! x86-64 processor facts: model-specific registers, the extended register state that
//! `xsave` keeps, and the programmable interval timer.
use vstd::prelude::*;

verus! {

/// The model-specific registers the kernel uses.
#[derive(Clone, Copy, PartialEq, Eq, Structural)]
pub enum Msr {
    /// APIC base: bit 10 enables x2APIC, bit 11 enables the APIC, bits 12-51 the base.
    Ia32ApicBase,
    /// Base of the `fs` segment.
    Ia32FsBase,
    /// Base of the `gs` segment.
    Ia32GsBase,
    /// Extended features: bit 0 enables `syscall`, bit 8 long mode.
    Ia32Efer,
    /// Segment selectors of `syscall` and `sysret`.
    Ia32Star,
    /// Entry point of `syscall`.
    Ia32Lstar,
    /// Flags cleared on `syscall`.
    Ia32Fmask,
    /// Time-stamp deadline of the timer.
    Ia32TscDeadline,
    /// x2APIC identifier.
    Ia32X2ApicId,
    /// x2APIC version.
    Ia32X2ApicVersion,
    /// x2APIC end of interrupt.
    Ia32X2ApicEoi,
    /// x2APIC spurious interrupt vector.
    Ia32X2ApicSivr,
    /// x2APIC interrupt command.
    Ia32X2ApicIcr,
    /// x2APIC timer entry of the local vector table.
    Ia32X2ApicLvtTimer,
}

impl Msr {
    /// The address of the register.
    pub open spec fn spec_address(self) -> u32 {
        match self {
            Msr::Ia32ApicBase => 0x001bu32,
            Msr::Ia32FsBase => 0xc000_0100u32,
            Msr::Ia32GsBase => 0xc000_0101u32,
            Msr::Ia32Efer => 0xc000_0080u32,
            Msr::Ia32Star => 0xc000_0081u32,
            Msr::Ia32Lstar => 0xc000_0082u32,
            Msr::Ia32Fmask => 0xc000_0084u32,
            Msr::Ia32TscDeadline => 0x6e0u32,
            Msr::Ia32X2ApicId => 0x802u32,
            Msr::Ia32X2ApicVersion => 0x803u32,
            Msr::Ia32X2ApicEoi => 0x80bu32,
            Msr::Ia32X2ApicSivr => 0x80fu32,
            Msr::Ia32X2ApicIcr => 0x830u32,
            Msr::Ia32X2ApicLvtTimer => 0x832u32,
        }
    }

    /// The address of the register.
    #[verifier::when_used_as_spec(spec_address)]
    pub fn address(self) -> (r: u32)
        ensures
            r == self.spec_address(),
    {
        match self {
            Msr::Ia32ApicBase => 0x001b,
            Msr::Ia32FsBase => 0xc000_0100,
            Msr::Ia32GsBase => 0xc000_0101,
            Msr::Ia32Efer => 0xc000_0080,
            Msr::Ia32Star => 0xc000_0081,
            Msr::Ia32Lstar => 0xc000_0082,
            Msr::Ia32Fmask => 0xc000_0084,
            Msr::Ia32TscDeadline => 0x6e0,
            Msr::Ia32X2ApicId => 0x802,
            Msr::Ia32X2ApicVersion => 0x803,
            Msr::Ia32X2ApicEoi => 0x80b,
            Msr::Ia32X2ApicSivr => 0x80f,
            Msr::Ia32X2ApicIcr => 0x830,
            Msr::Ia32X2ApicLvtTimer => 0x832,
        }
    }
}

/// The value of a register that `rdmsr` returns in two halves.
pub fn msr_join(low: u32, high: u32) -> (r: u64)
    ensures
        r == high * 0x1_0000_0000 + low,
{
    let h: u64 = high as u64;
    assert(h * 0x1_0000_0000 <= 0xffff_ffff_0000_0000) by (nonlinear_arith)
        requires
            h <= 0xffff_ffff,
    {
    }
    h * 0x1_0000_0000 + low as u64
}

/// The two halves in which `wrmsr` takes a value: low, then high.
pub fn msr_split(value: u64) -> (r: (u32, u32))
    ensures
        r.0 == value % 0x1_0000_0000,
        r.1 == value / 0x1_0000_0000,
{
    ((value % 0x1_0000_0000) as u32, (value / 0x1_0000_0000) as u32)
}

/// Splitting a register value into the halves `wrmsr` takes and joining them as `rdmsr`
/// gives them back returns the value.
pub proof fn lemma_msr_round_trip(value: u64)
    ensures
        (value / 0x1_0000_0000) * 0x1_0000_0000 + value % 0x1_0000_0000 == value,
{
}

/// The register writes that turn on `syscall`, in order: the extended features `efer` with
/// bit 0 (`syscall` and `sysret`) set; the selectors, kernel code at 0x08 in bits 32-47 and
/// the user segments from 0x10 in bits 48-63; the entry point `entry`; and the flags that
/// entry clears: interrupts (bit 9), direction (bit 10) and alignment check (bit 18).
pub fn syscall_msr_writes(efer: u64, entry: u64) -> (r: [(Msr, u64); 4])
    ensures
        r[0] == (Msr::Ia32Efer, efer | 1),
        r[1] == (Msr::Ia32Star, 0x0010_0008_0000_0000u64),
        r[2] == (Msr::Ia32Lstar, entry),
        r[3] == (Msr::Ia32Fmask, 0x4_0600u64),
{
    assert((0x08u64 << 32u64) | (0x10u64 << 48u64) == 0x0010_0008_0000_0000u64) by (bit_vector);
    assert((1u64 << 9u64) | (1u64 << 10u64) | (1u64 << 18u64) == 0x4_0600u64) by (bit_vector);
    [
        (Msr::Ia32Efer, efer | 1),
        (Msr::Ia32Star, (0x08u64 << 32u64) | (0x10u64 << 48u64)),
        (Msr::Ia32Lstar, entry),
        (Msr::Ia32Fmask, (1u64 << 9u64) | (1u64 << 10u64) | (1u64 << 18u64)),
    ]
}

/// The state components that `xsave` saves and `xrstor` restores, as a mask.
#[derive(Clone, Copy, PartialEq, Eq, Structural)]
pub struct ExtendedRegisterMask(pub u64);

/// How the extended registers are saved.
#[derive(Clone, Copy, PartialEq, Eq, Structural)]
pub enum SaveInstruction {
    Xsave,
    Xsaveopt,
    Xsavec,
}

/// Alignment of a buffer of extended registers.
pub const EXTENDED_ALIGNMENT: usize = 64;

/// The mask of every state component the processor supports, from `cpuid` leaf 0xd
/// subleaf 0: `edx` is its high half, `eax` its low half.
pub fn supported_mask(eax: u32, edx: u32) -> (r: ExtendedRegisterMask)
    ensures
        r.0 == edx * 0x1_0000_0000 + eax,
{
    ExtendedRegisterMask(msr_join(eax, edx))
}

/// A buffer layout of `size` bytes aligned to 64 can be made: its size rounded up to 64
/// stays within `isize::MAX`.
pub open spec fn layout_fits(size: int) -> bool {
    size + (EXTENDED_ALIGNMENT - 1) <= isize::MAX
}

/// How the extended registers of this processor are saved.
#[derive(Clone, Copy)]
pub struct ExtendedRegisters {
    size: usize,
    save: SaveInstruction,
    mask: ExtendedRegisterMask,
}

impl ExtendedRegisters {
    /// Size of the buffer, alignment, instruction and mask.
    pub closed spec fn view(&self) -> (usize, SaveInstruction, u64) {
        (self.size, self.save, self.mask.0)
    }

    /// From `cpuid` leaf 0xd: `eax`, `ebx` and `edx` of subleaf 0, `eax` of subleaf 1. The
    /// buffer takes the bytes `ebx` of subleaf 0 says, at least one; `xsavec` is used when
    /// bit 1 of subleaf 1 says it is there, else `xsave`. `None` where the buffer's layout
    /// cannot be made.
    pub fn from_cpuid(leaf0_eax: u32, leaf0_ebx: u32, leaf0_edx: u32, leaf1_eax: u32) -> (r: Option<Self>)
        ensures
            ({
                let size = if leaf0_ebx > 1 { leaf0_ebx as int } else { 1int };
                if layout_fits(size) {
                    r matches Some(x) && x.view() == (size as usize, if (leaf1_eax / 2) % 2 == 1 {
                        SaveInstruction::Xsavec
                    } else {
                        SaveInstruction::Xsave
                    }, (leaf0_edx * 0x1_0000_0000 + leaf0_eax) as u64)
                } else {
                    r is None
                }
            }),
    {
        let size: u32 = if leaf0_ebx > 1 {
            leaf0_ebx
        } else {
            1
        };
        if size as usize > isize::MAX as usize - (EXTENDED_ALIGNMENT - 1) {
            return None;
        }
        let mask = supported_mask(leaf0_eax, leaf0_edx);
        let save = if (leaf1_eax / 2) % 2 == 1 {
            SaveInstruction::Xsavec
        } else {
            SaveInstruction::Xsave
        };
        Some(ExtendedRegisters { size: size as usize, save, mask })
    }

    /// Size and alignment of a buffer of extended registers.
    pub fn layout(&self) -> (r: (usize, usize))
        ensures
            r == (self.view().0, EXTENDED_ALIGNMENT),
    {
        (self.size, EXTENDED_ALIGNMENT)
    }

    /// The state components saved.
    pub fn mask(&self) -> (r: ExtendedRegisterMask)
        ensures
            r.0 == self.view().2,
    {
        self.mask
    }

    /// The instruction that saves the registers.
    pub fn save_instruction(&self) -> (r: SaveInstruction)
        ensures
            r == self.view().1,
    {
        self.save
    }
}

/// How the extended registers of this processor are saved, with `xsaveopt` when it is
/// there.
#[derive(Clone, Copy)]
pub struct ExtendedRegisterLayout {
    size: usize,
    save: SaveInstruction,
    mask: ExtendedRegisterMask,
}

impl ExtendedRegisterLayout {
    /// Size of the buffer, instruction and mask.
    pub closed spec fn view(&self) -> (usize, SaveInstruction, u64) {
        (self.size, self.save, self.mask.0)
    }

    /// From `cpuid` leaf 0xd: `eax`, `ebx` and `edx` of subleaf 0, `eax` and `ebx` of
    /// subleaf 1. With `xsavec` (bit 1 of subleaf 1) the buffer takes the compacted size of
    /// subleaf 1, else the size of subleaf 0 with `xsaveopt` (bit 0) or `xsave`. `None`
    /// where the buffer's layout cannot be made.
    pub fn from_cpuid(leaf0_eax: u32, leaf0_ebx: u32, leaf0_edx: u32, leaf1_eax: u32, leaf1_ebx: u32) -> (r: Option<Self>)
        ensures
            ({
                let (size, save) = if (leaf1_eax / 2) % 2 == 1 {
                    (leaf1_ebx, SaveInstruction::Xsavec)
                } else if leaf1_eax % 2 == 1 {
                    (leaf0_ebx, SaveInstruction::Xsaveopt)
                } else {
                    (leaf0_ebx, SaveInstruction::Xsave)
                };
                if layout_fits(size as int) {
                    r matches Some(x) && x.view() == (size as usize, save, (leaf0_edx * 0x1_0000_0000 + leaf0_eax) as u64)
                } else {
                    r is None
                }
            }),
    {
        let mask = supported_mask(leaf0_eax, leaf0_edx);
        let (size, save) = if (leaf1_eax / 2) % 2 == 1 {
            (leaf1_ebx, SaveInstruction::Xsavec)
        } else if leaf1_eax % 2 == 1 {
            (leaf0_ebx, SaveInstruction::Xsaveopt)
        } else {
            (leaf0_ebx, SaveInstruction::Xsave)
        };
        if size as usize > isize::MAX as usize - (EXTENDED_ALIGNMENT - 1) {
            return None;
        }
        Some(ExtendedRegisterLayout { size: size as usize, save, mask })
    }

    /// Size and alignment of a buffer of extended registers.
    pub fn layout(&self) -> (r: (usize, usize))
        ensures
            r == (self.view().0, EXTENDED_ALIGNMENT),
    {
        (self.size, EXTENDED_ALIGNMENT)
    }

    /// The state components saved.
    pub fn mask(&self) -> (r: ExtendedRegisterMask)
        ensures
            r.0 == self.view().2,
    {
        self.mask
    }
}

/// A buffer of saved extended registers.
pub struct ExtendedRegisterBuffer(pub Vec<u8>);

/// Ticks of the interval timer per second.
pub const PIT_TICKS_PER_SECOND: u64 = 1_193_182;
/// The longest wait one countdown of the timer gives, in nanoseconds: 65536 ticks.
pub const PIT_WAIT_MAX_NANOS: u64 = 54_925_401;

/// One countdown of a delay of `remaining` nanoseconds: the nanoseconds left after it, and
/// the reload value of the timer, where 0 counts 65536 ticks; ticks are rounded up.
pub open spec fn pit_step_spec(remaining: u64) -> (u64, u16) {
    let wait = if remaining < PIT_WAIT_MAX_NANOS { remaining } else { PIT_WAIT_MAX_NANOS };
    let ticks = (wait * PIT_TICKS_PER_SECOND + (1_000_000_000 - 1)) / 1_000_000_000;
    ((remaining - wait) as u64, if ticks == 65536 { 0u16 } else { ticks as u16 })
}

/// The next countdown of a delay of `remaining` nanoseconds.
pub fn pit_step(remaining: u64) -> (r: (u64, u16))
    requires
        remaining > 0,
    ensures
        r == pit_step_spec(remaining),
        r.0 < remaining,
{
    let wait = if remaining < PIT_WAIT_MAX_NANOS {
        remaining
    } else {
        PIT_WAIT_MAX_NANOS
    };
    assert(wait * PIT_TICKS_PER_SECOND <= PIT_WAIT_MAX_NANOS * PIT_TICKS_PER_SECOND) by (nonlinear_arith)
        requires
            wait <= PIT_WAIT_MAX_NANOS,
    {
    }
    let n = wait * PIT_TICKS_PER_SECOND + (1_000_000_000 - 1);
    assert(1_000_000_000 <= n <= 65_536_999_999_999) by (nonlinear_arith)
        requires
            1 <= wait <= PIT_WAIT_MAX_NANOS,
            n == wait * PIT_TICKS_PER_SECOND + (1_000_000_000 - 1),
    {
    }
    let ticks = n / 1_000_000_000;
    assert(1 <= ticks <= 65536);
    let reload: u16 = if ticks == 65536 {
        0
    } else {
        ticks as u16
    };
    (remaining - wait, reload)
}

} // verus!
