//! The on-disk structures of a 64-bit ELF file, decoded from little-endian bytes.
use vstd::prelude::*;

verus! {

/// The little-endian 16-bit number at `o` in `s`.
pub open spec fn le16(s: Seq<u8>, o: int) -> int {
    s[o] as int + 0x100 * s[o + 1] as int
}

/// The little-endian 32-bit number at `o` in `s`.
pub open spec fn le32(s: Seq<u8>, o: int) -> int {
    le16(s, o) + 0x1_0000 * le16(s, o + 2)
}

/// The little-endian 64-bit number at `o` in `s`.
pub open spec fn le64(s: Seq<u8>, o: int) -> int {
    le32(s, o) + 0x1_0000_0000 * le32(s, o + 4)
}

/// The two's-complement reading of the 64-bit pattern `u`.
pub open spec fn signed64(u: int) -> int {
    if u <= i64::MAX {
        u
    } else {
        u - 0x1_0000_0000_0000_0000
    }
}

pub fn read_u16(b: &[u8], o: usize) -> (r: u16)
    requires
        o + 2 <= b@.len(),
    ensures
        r == le16(b@, o as int),
{
    let _len = b.len();
    (b[o] as u16) + (b[o + 1] as u16) * 0x100
}

pub fn read_u32(b: &[u8], o: usize) -> (r: u32)
    requires
        o + 4 <= b@.len(),
    ensures
        r == le32(b@, o as int),
{
    let _len = b.len();
    let lo: u32 = read_u16(b, o) as u32;
    let hi: u32 = read_u16(b, o + 2) as u32;
    assert(hi * 0x1_0000 <= 0xffff_0000) by (nonlinear_arith)
        requires
            hi <= 0xffff,
    {
    }
    lo + hi * 0x1_0000
}

pub fn read_u64(b: &[u8], o: usize) -> (r: u64)
    requires
        o + 8 <= b@.len(),
    ensures
        r == le64(b@, o as int),
{
    let _len = b.len();
    let lo: u64 = read_u32(b, o) as u64;
    let hi: u64 = read_u32(b, o + 4) as u64;
    assert(hi * 0x1_0000_0000 <= 0xffff_ffff_0000_0000) by (nonlinear_arith)
        requires
            hi <= 0xffff_ffff,
    {
    }
    lo + hi * 0x1_0000_0000
}

pub fn read_i64(b: &[u8], o: usize) -> (r: i64)
    requires
        o + 8 <= b@.len(),
    ensures
        r == signed64(le64(b@, o as int)),
{
    let u = read_u64(b, o);
    if u <= 0x7fff_ffff_ffff_ffff {
        u as i64
    } else {
        -((0xffff_ffff_ffff_ffffu64 - u) as i64) - 1
    }
}

/// The ELF header is always found at the start of the file.
#[derive(Clone, Copy)]
pub struct ElfHeaderPrologue {
    /// Magic number: 0x7F, then 'ELF' in ASCII.
    pub magic: [u8; 4],
    /// 1 = 32 bit, 2 = 64 bit.
    pub arch: u8,
    /// 1 = little endian, 2 = big endian.
    pub endian: u8,
    /// ELF header version.
    pub header_version: u8,
    /// OS ABI, usually 0 for System V.
    pub os_abi: u8,
    /// Unused.
    pub padding: [u8; 8],
    /// Type of the file.
    pub elf_type: ElfType,
    /// Instruction set.
    pub instruction_set: u16,
    /// ELF version (currently 1).
    pub elf_version: u32,
}

/// Bytes of [`ElfHeaderPrologue`].
pub const PROLOGUE_SIZE: usize = 24;

/// `p` is the prologue held by the 24 bytes at `o` in `s`.
pub open spec fn prologue_at(p: ElfHeaderPrologue, s: Seq<u8>, o: int) -> bool {
    &&& p.magic@ == s.subrange(o, o + 4)
    &&& p.arch == s[o + 4]
    &&& p.endian == s[o + 5]
    &&& p.header_version == s[o + 6]
    &&& p.os_abi == s[o + 7]
    &&& p.elf_type.0 == le16(s, o + 16)
    &&& p.instruction_set == le16(s, o + 18)
    &&& p.elf_version == le32(s, o + 20)
}

impl ElfHeaderPrologue {
    /// Decodes the prologue from the first 24 bytes of `b`.
    pub fn decode(b: &[u8]) -> (r: Self)
        requires
            PROLOGUE_SIZE <= b@.len(),
        ensures
            prologue_at(r, b@, 0),
    {
        let r = ElfHeaderPrologue {
            magic: [b[0], b[1], b[2], b[3]],
            arch: b[4],
            endian: b[5],
            header_version: b[6],
            os_abi: b[7],
            padding: [b[8], b[9], b[10], b[11], b[12], b[13], b[14], b[15]],
            elf_type: ElfType(read_u16(b, 16)),
            instruction_set: read_u16(b, 18),
            elf_version: read_u32(b, 20),
        };
        assert(r.magic@ =~= b@.subrange(0, 4));
        r
    }
}

/// Type of an ELF file.
#[derive(Clone, Copy, PartialEq, Eq, Structural)]
pub struct ElfType(pub u16);

impl ElfType {
    pub const NONE: u16 = 0;
    pub const RELOCATABLE: u16 = 1;
    pub const EXECUTABLE: u16 = 2;
    pub const DYNAMIC: u16 = 3;
    pub const CORE_DUMP: u16 = 4;
}

/// Continuation of [`ElfHeaderPrologue`] in 64-bit format (arch == 2).
#[derive(Clone, Copy)]
pub struct ElfHeader64 {
    /// Program entry offset.
    pub program_entry_offset: u64,
    /// Program header table offset.
    pub program_header_table_offset: u64,
    /// Section header table offset.
    pub section_header_table_offset: u64,
    /// Architecture-dependent flags.
    pub flags: u32,
    /// ELF header size.
    pub header_size: u16,
    /// Size of an entry in the program header table.
    pub program_header_entry_size: u16,
    /// Number of entries in the program header table.
    pub program_header_entry_len: u16,
    /// Size of an entry in the section header table.
    pub section_header_entry_size: u16,
    /// Number of entries in the section header table.
    pub section_header_entry_len: u16,
    /// Index of the section header string table.
    pub section_header_string_table_index: u16,
}

/// Bytes of [`ElfHeader64`].
pub const HEADER64_SIZE: usize = 40;

/// `h` is the header held by the 40 bytes at `o` in `s`.
pub open spec fn header64_at(h: ElfHeader64, s: Seq<u8>, o: int) -> bool {
    &&& h.program_entry_offset == le64(s, o)
    &&& h.program_header_table_offset == le64(s, o + 8)
    &&& h.section_header_table_offset == le64(s, o + 16)
    &&& h.flags == le32(s, o + 24)
    &&& h.header_size == le16(s, o + 28)
    &&& h.program_header_entry_size == le16(s, o + 30)
    &&& h.program_header_entry_len == le16(s, o + 32)
    &&& h.section_header_entry_size == le16(s, o + 34)
    &&& h.section_header_entry_len == le16(s, o + 36)
    &&& h.section_header_string_table_index == le16(s, o + 38)
}

impl ElfHeader64 {
    /// Decodes the header from the first 40 bytes of `b`.
    pub fn decode(b: &[u8]) -> (r: Self)
        requires
            HEADER64_SIZE <= b@.len(),
        ensures
            header64_at(r, b@, 0),
    {
        ElfHeader64 {
            program_entry_offset: read_u64(b, 0),
            program_header_table_offset: read_u64(b, 8),
            section_header_table_offset: read_u64(b, 16),
            flags: read_u32(b, 24),
            header_size: read_u16(b, 28),
            program_header_entry_size: read_u16(b, 30),
            program_header_entry_len: read_u16(b, 32),
            section_header_entry_size: read_u16(b, 34),
            section_header_entry_len: read_u16(b, 36),
            section_header_string_table_index: read_u16(b, 38),
        }
    }
}

/// One entry of the program header table.
#[derive(Clone, Copy)]
pub struct ElfProgramHeader64 {
    /// Type of segment.
    pub segment_type: u32,
    /// Permissions of the segment.
    pub flags: ElfProgramFlags,
    /// Offset in the file of the segment's data.
    pub segment_offset: u64,
    /// Where the segment goes in virtual memory.
    pub segment_virtual_address: u64,
    /// Reserved for the segment's physical address.
    pub segment_physical_address: u64,
    /// Size of the segment in the file.
    pub segment_file_size: u64,
    /// Size of the segment in memory.
    pub segment_memory_size: u64,
    /// Required alignment of the segment.
    pub section_alignment: u64,
}

/// Bytes of [`ElfProgramHeader64`].
pub const PROGRAM_HEADER64_SIZE: usize = 56;

/// `h` is the program header held by the 56 bytes at `o` in `s`.
pub open spec fn program_header64_at(h: ElfProgramHeader64, s: Seq<u8>, o: int) -> bool {
    &&& h.segment_type == le32(s, o)
    &&& h.flags.0 == le32(s, o + 4)
    &&& h.segment_offset == le64(s, o + 8)
    &&& h.segment_virtual_address == le64(s, o + 16)
    &&& h.segment_physical_address == le64(s, o + 24)
    &&& h.segment_file_size == le64(s, o + 32)
    &&& h.segment_memory_size == le64(s, o + 40)
    &&& h.section_alignment == le64(s, o + 48)
}

impl ElfProgramHeader64 {
    /// Decodes a program header from the first 56 bytes of `b`.
    pub fn decode(b: &[u8]) -> (r: Self)
        requires
            PROGRAM_HEADER64_SIZE <= b@.len(),
        ensures
            program_header64_at(r, b@, 0),
    {
        ElfProgramHeader64 {
            segment_type: read_u32(b, 0),
            flags: ElfProgramFlags(read_u32(b, 4)),
            segment_offset: read_u64(b, 8),
            segment_virtual_address: read_u64(b, 16),
            segment_physical_address: read_u64(b, 24),
            segment_file_size: read_u64(b, 32),
            segment_memory_size: read_u64(b, 40),
            section_alignment: read_u64(b, 48),
        }
    }
}

/// Permissions of a program segment.
#[derive(Clone, Copy, PartialEq, Eq, Structural)]
pub struct ElfProgramFlags(pub u32);

impl ElfProgramFlags {
    pub const EXECUTABLE: u32 = 1;
    pub const WRITABLE: u32 = 2;
    pub const READABLE: u32 = 4;

    /// Raw value of the flags.
    pub fn bits(&self) -> (r: u32)
        ensures
            r == self.0,
    {
        self.0
    }

    /// Whether every flag of `other` is set.
    pub fn contains(&self, other: u32) -> (r: bool)
        ensures
            r == (self.0 & other == other),
    {
        self.0 & other == other
    }
}

/// One entry of the dynamic section.
#[derive(Clone, Copy)]
pub struct ElfDyn64 {
    pub tag: ElfDt64,
    pub val: u64,
}

/// Tag of an entry of the dynamic section.
#[derive(Clone, Copy, PartialEq, Eq, Structural)]
pub struct ElfDt64(pub i64);

impl ElfDt64 {
    pub const NULL: i64 = 0;
    pub const RELA: i64 = 7;
    pub const RELASZ: i64 = 8;
    pub const RELAENT: i64 = 9;
}

/// Bytes of [`ElfDyn64`].
pub const DYN64_SIZE: usize = 16;

impl ElfDyn64 {
    /// Decodes an entry of the dynamic section from the first 16 bytes of `b`.
    pub fn decode(b: &[u8]) -> (r: Self)
        requires
            DYN64_SIZE <= b@.len(),
        ensures
            r.tag.0 == signed64(le64(b@, 0)),
            r.val == le64(b@, 8),
    {
        ElfDyn64 { tag: ElfDt64(read_i64(b, 0)), val: read_u64(b, 8) }
    }
}

/// A relocation with an addend.
#[derive(Clone, Copy)]
pub struct ElfRela64 {
    pub offset: u64,
    pub info: ElfRela64Info,
    pub addend: i64,
}

/// Kind and symbol index of a relocation.
#[derive(Clone, Copy)]
pub struct ElfRela64Info {
    pub kind: ElfRela64Type,
    pub index: u32,
}

/// Kind of a relocation.
#[derive(Clone, Copy, PartialEq, Eq, Structural)]
pub struct ElfRela64Type(pub u32);

impl ElfRela64Type {
    pub const X86_64_RELATIVE: u32 = 8;
}

/// Bytes of [`ElfRela64`].
pub const RELA64_SIZE: usize = 24;

impl ElfRela64 {
    /// Decodes a relocation from the first 24 bytes of `b`.
    pub fn decode(b: &[u8]) -> (r: Self)
        requires
            RELA64_SIZE <= b@.len(),
        ensures
            r.offset == le64(b@, 0),
            r.info.kind.0 == le32(b@, 8),
            r.info.index == le32(b@, 12),
            r.addend == signed64(le64(b@, 16)),
    {
        ElfRela64 {
            offset: read_u64(b, 0),
            info: ElfRela64Info { kind: ElfRela64Type(read_u32(b, 8)), index: read_u32(b, 12) },
            addend: read_i64(b, 16),
        }
    }
}

/// One entry of the section header table.
#[derive(Clone, Copy)]
pub struct ElfSectionHeader64 {
    /// Offset of the name in the section-name string table.
    pub name_offset: u32,
    /// Type of the section.
    pub section_type: ElfSectionType,
    /// Flags of the section.
    pub flags: ElfSectionFlags,
    /// Virtual address of the section when loaded.
    pub virtual_address: u64,
    /// Offset in the file of the section's contents.
    pub file_offset: u64,
    /// Size of the section.
    pub size: u64,
    /// Meaning depends on the type.
    pub link: u32,
    /// Meaning depends on the type.
    pub info: u32,
    /// Required alignment.
    pub alignment: u64,
    /// Size of each entry, if the section is a table.
    pub entry_size: u64,
}

/// Bytes of [`ElfSectionHeader64`].
pub const SECTION_HEADER64_SIZE: usize = 64;

/// `h` is the section header held by the 64 bytes at `o` in `s`.
pub open spec fn section_header64_at(h: ElfSectionHeader64, s: Seq<u8>, o: int) -> bool {
    &&& h.name_offset == le32(s, o)
    &&& h.section_type.0 == le32(s, o + 4)
    &&& h.flags.0 == le64(s, o + 8)
    &&& h.virtual_address == le64(s, o + 16)
    &&& h.file_offset == le64(s, o + 24)
    &&& h.size == le64(s, o + 32)
    &&& h.link == le32(s, o + 40)
    &&& h.info == le32(s, o + 44)
    &&& h.alignment == le64(s, o + 48)
    &&& h.entry_size == le64(s, o + 56)
}

impl ElfSectionHeader64 {
    /// Decodes a section header from the first 64 bytes of `b`.
    pub fn decode(b: &[u8]) -> (r: Self)
        requires
            SECTION_HEADER64_SIZE <= b@.len(),
        ensures
            section_header64_at(r, b@, 0),
    {
        ElfSectionHeader64 {
            name_offset: read_u32(b, 0),
            section_type: ElfSectionType(read_u32(b, 4)),
            flags: ElfSectionFlags(read_u64(b, 8)),
            virtual_address: read_u64(b, 16),
            file_offset: read_u64(b, 24),
            size: read_u64(b, 32),
            link: read_u32(b, 40),
            info: read_u32(b, 44),
            alignment: read_u64(b, 48),
            entry_size: read_u64(b, 56),
        }
    }
}

/// Type of a section.
#[derive(Clone, Copy, PartialEq, Eq, Structural)]
pub struct ElfSectionType(pub u32);

impl ElfSectionType {
    pub const NULL: u32 = 0;
    pub const PROGBITS: u32 = 1;
    pub const SYMTAB: u32 = 2;
    pub const STRTAB: u32 = 3;
    pub const RELA: u32 = 4;
    pub const HASH: u32 = 5;
    pub const DYNAMIC: u32 = 6;
    pub const NOTE: u32 = 7;
    pub const NOBITS: u32 = 8;
    pub const REL: u32 = 9;
    pub const SHLIB: u32 = 10;
    pub const DYNSYM: u32 = 11;
}

/// Flags of a section.
#[derive(Clone, Copy, PartialEq, Eq, Structural)]
pub struct ElfSectionFlags(pub u64);

impl ElfSectionFlags {
    pub const WRITE: u64 = 1;
    pub const ALLOC: u64 = 2;
    pub const EXECUTABLE: u64 = 4;
    pub const MERGE: u64 = 16;
    pub const STRINGS: u64 = 32;
    pub const INFO_LINK: u64 = 64;
    pub const LINK_ORDER: u64 = 128;
    pub const OS_NONCONFORMING: u64 = 256;
    pub const GROUP: u64 = 512;
    pub const TLS: u64 = 1024;
}

} // verus!
