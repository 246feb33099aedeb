//! A loader of 64-bit ELF images: the file header, the program segments and the sections,
//! read straight from the bytes of the file.
use vstd::prelude::*;
use sys::{
    ElfHeaderPrologue, ElfHeader64, ElfProgramFlags, ElfProgramHeader64, ElfSectionHeader64, HEADER64_SIZE,
    PROGRAM_HEADER64_SIZE, PROLOGUE_SIZE, SECTION_HEADER64_SIZE, header64_at, program_header64_at,
    prologue_at, section_header64_at,
};

pub mod sys;

verus! {

/// Why an ELF image could not be read.
#[derive(Clone, Copy)]
pub enum ElfError {
    InvalidMagic([u8; 4]),
    InvalidArch(u8),
    InvalidEndian(u8),
    InvalidSegmentType(u32),
    IntDoesntFit,
    MissingStringTable,
    Eof,
}

/// `from` as a `usize`, or [`ElfError::IntDoesntFit`].
pub fn int_fit(from: u64) -> (r: Result<usize, ElfError>)
    ensures
        from <= usize::MAX ==> r == Ok::<usize, ElfError>(from as usize),
        from > usize::MAX ==> r == Err::<usize, ElfError>(ElfError::IntDoesntFit),
{
    if from <= usize::MAX as u64 {
        Ok(from as usize)
    } else {
        Err(ElfError::IntDoesntFit)
    }
}

/// A cursor over the bytes left of an ELF image.
#[derive(Clone, Copy)]
pub struct Reader<'a> {
    pub bytes: &'a [u8],
}

impl<'a> Reader<'a> {
    /// A reader over the bytes from `offset` on; `None` past the end.
    pub fn fork(&self, offset: usize) -> (r: Option<Self>)
        ensures
            offset <= self.bytes@.len() ==> (r matches Some(f) && f.bytes@ == self.bytes@.subrange(
                offset as int,
                self.bytes@.len() as int,
            )),
            offset > self.bytes@.len() ==> r is None,
    {
        if offset <= self.bytes.len() {
            Some(Reader { bytes: slice_from(self.bytes, offset) })
        } else {
            None
        }
    }

    /// The next `count` bytes, which the reader moves past; `None`, the reader unmoved, when
    /// fewer are left.
    pub fn take(&mut self, count: usize) -> (r: Option<&'a [u8]>)
        ensures
            count <= old(self).bytes@.len() ==> {
                &&& (r matches Some(t) && t@ == old(self).bytes@.subrange(0, count as int))
                &&& final(self).bytes@ == old(self).bytes@.subrange(count as int, old(self).bytes@.len() as int)
            },
            count > old(self).bytes@.len() ==> r is None && final(self).bytes@ == old(self).bytes@,
    {
        if count <= self.bytes.len() {
            let taken = slice_to(self.bytes, count);
            self.bytes = slice_from(self.bytes, count);
            Some(taken)
        } else {
            None
        }
    }
}

/// The bytes of `b` from `from` on.
fn slice_from<'a>(b: &'a [u8], from: usize) -> (r: &'a [u8])
    requires
        from <= b@.len(),
    ensures
        r@ == b@.subrange(from as int, b@.len() as int),
{
    let (_, rest) = b.split_at(from);
    rest
}

/// The first `to` bytes of `b`.
fn slice_to<'a>(b: &'a [u8], to: usize) -> (r: &'a [u8])
    requires
        to <= b@.len(),
    ensures
        r@ == b@.subrange(0, to as int),
{
    let (first, _) = b.split_at(to);
    first
}

/// A section: its name's offset in the section-name string table, its bytes and its
/// virtual address.
#[derive(Clone, Copy)]
pub struct ElfSection64<'a> {
    pub name_offset: usize,
    pub data: &'a [u8],
    pub virtual_address: u64,
}

/// What the `n`-th step of an iteration over a header table leaves of the table: each step
/// moves past `stride` bytes when that many are left.
pub open spec fn table_after(table: Seq<u8>, stride: int, n: nat) -> Seq<u8>
    decreases n,
{
    if n == 0 {
        table
    } else {
        let t = table_after(table, stride, (n - 1) as nat);
        if stride <= t.len() {
            t.subrange(stride, t.len() as int)
        } else {
            t
        }
    }
}

/// The bytes of `file` at `offset` and of length `size`, or the error of reading them.
pub open spec fn file_bytes(file: Seq<u8>, offset: u64, size: u64) -> Result<Seq<u8>, ElfError> {
    if offset > usize::MAX {
        Err(ElfError::IntDoesntFit)
    } else if offset > file.len() {
        Err(ElfError::Eof)
    } else if size > usize::MAX {
        Err(ElfError::IntDoesntFit)
    } else if size > file.len() - offset {
        Err(ElfError::Eof)
    } else {
        Ok(file.subrange(offset as int, offset + size))
    }
}

/// The data of a program segment or a section: `size` bytes from `offset` in the file.
fn file_slice<'a>(file: Reader<'a>, offset: u64, size: u64) -> (r: Result<&'a [u8], ElfError>)
    ensures
        match file_bytes(file.bytes@, offset, size) {
            Ok(d) => (r matches Ok(x) && x@ == d),
            Err(e) => r == Err::<&'a [u8], ElfError>(e),
        },
{
    let at = match int_fit(offset) {
        Ok(v) => v,
        Err(e) => return Err(e),
    };
    let mut forked = match file.fork(at) {
        Some(f) => f,
        None => return Err(ElfError::Eof),
    };
    let count = match int_fit(size) {
        Ok(v) => v,
        Err(e) => return Err(e),
    };
    match forked.take(count) {
        Some(d) => {
            assert(d@ =~= file.bytes@.subrange(offset as int, offset + size));
            Ok(d)
        },
        None => Err(ElfError::Eof),
    }
}

/// An iterator over the sections of an image.
#[derive(Clone, Copy)]
pub struct Elf64Sections<'a> {
    pub len: u16,
    pub stride: u16,
    pub file_reader: Reader<'a>,
    pub section_table_reader: Reader<'a>,
}

/// The section that the section header at the start of `table` describes, in `file`.
pub open spec fn section_from(file: Seq<u8>, table: Seq<u8>) -> Result<(int, Seq<u8>, u64), ElfError> {
    let h = choose|h: ElfSectionHeader64| section_header64_at(h, table, 0);
    match file_bytes(file, h.file_offset, h.size) {
        Ok(d) => Ok((h.name_offset as int, d, h.virtual_address)),
        Err(e) => Err(e),
    }
}

/// The view of a section: name offset, bytes and virtual address.
pub open spec fn section_view(s: ElfSection64) -> (int, Seq<u8>, u64) {
    (s.name_offset as int, s.data@, s.virtual_address)
}

impl<'a> Elf64Sections<'a> {
    /// The next section, or `None` when the count runs out or the table has no whole header
    /// left; a section whose bytes are not in the file is an error.
    pub fn next(&mut self) -> (r: Option<Result<ElfSection64<'a>, ElfError>>)
        ensures
            final(self).file_reader == old(self).file_reader,
            final(self).stride == old(self).stride,
            old(self).len == 0 ==> r is None && *final(self) == *old(self),
            old(self).len > 0 ==> {
                &&& final(self).len == old(self).len - 1
                &&& old(self).section_table_reader.bytes@.len() < SECTION_HEADER64_SIZE ==> r is None
                    && final(self).section_table_reader == old(self).section_table_reader
                &&& old(self).section_table_reader.bytes@.len() >= SECTION_HEADER64_SIZE ==> {
                    &&& final(self).section_table_reader.bytes@ == table_after(
                        old(self).section_table_reader.bytes@,
                        old(self).stride as int,
                        1,
                    )
                    &&& match section_from(old(self).file_reader.bytes@, old(self).section_table_reader.bytes@) {
                        Ok(v) => (r matches Some(Ok(s)) && section_view(s) == v),
                        Err(e) => r == Some(Err::<ElfSection64<'a>, ElfError>(e)),
                    }
                }
            },
    {
        if self.len == 0 {
            return None;
        }
        self.len = self.len - 1;
        if self.section_table_reader.bytes.len() < SECTION_HEADER64_SIZE {
            return None;
        }
        let header = ElfSectionHeader64::decode(self.section_table_reader.bytes);
        proof {
            let h = choose|h: ElfSectionHeader64| section_header64_at(h, self.section_table_reader.bytes@, 0);
            assert(section_header64_at(h, self.section_table_reader.bytes@, 0));
            assert(h == header);
        }
        let ghost t = self.section_table_reader.bytes@;
        let _ = self.section_table_reader.take(self.stride as usize);
        proof {
            assert(table_after(t, self.stride as int, 0) == t);
        }
        match file_slice(self.file_reader, header.file_offset, header.size) {
            Ok(data) => Some(
                Ok(
                    ElfSection64 {
                        name_offset: header.name_offset as usize,
                        data,
                        virtual_address: header.virtual_address,
                    },
                ),
            ),
            Err(e) => Some(Err(e)),
        }
    }
}

/// Type of a program segment.
#[derive(Clone, Copy, PartialEq, Eq, Structural)]
pub enum ElfSegmentType {
    /// Ignore the entry.
    Null,
    /// Clear the memory size at the virtual address, then copy the file bytes there.
    Load,
    /// Requires dynamic linking.
    Dynamic,
    /// Names an interpreter for the program.
    Interp,
    /// Notes.
    Note,
    /// Reserved.
    Shlib,
    /// The program header table itself.
    Header,
    /// Thread-local storage.
    Tls,
    /// Any other type.
    Unknown(u32),
}

/// The segment type that the number `n` stands for.
pub open spec fn segment_type_spec(n: u32) -> ElfSegmentType {
    if n == 0 {
        ElfSegmentType::Null
    } else if n == 1 {
        ElfSegmentType::Load
    } else if n == 2 {
        ElfSegmentType::Dynamic
    } else if n == 3 {
        ElfSegmentType::Interp
    } else if n == 4 {
        ElfSegmentType::Note
    } else if n == 5 {
        ElfSegmentType::Shlib
    } else if n == 6 {
        ElfSegmentType::Header
    } else if n == 7 {
        ElfSegmentType::Tls
    } else {
        ElfSegmentType::Unknown(n)
    }
}

impl ElfSegmentType {
    /// The segment type that the number `n` stands for.
    pub fn from_number(n: u32) -> (r: Self)
        ensures
            r == segment_type_spec(n),
    {
        match n {
            0 => ElfSegmentType::Null,
            1 => ElfSegmentType::Load,
            2 => ElfSegmentType::Dynamic,
            3 => ElfSegmentType::Interp,
            4 => ElfSegmentType::Note,
            5 => ElfSegmentType::Shlib,
            6 => ElfSegmentType::Header,
            7 => ElfSegmentType::Tls,
            n => ElfSegmentType::Unknown(n),
        }
    }
}

/// A program segment.
#[derive(Clone, Copy)]
pub struct ElfSegment64<'a> {
    pub segment_type: ElfSegmentType,
    /// The bytes of the segment in the file.
    pub data: &'a [u8],
    pub flags: ElfProgramFlags,
    /// Where [`Self::data`] is copied to.
    pub virtual_address: u64,
    /// Ignored but for kernel-related barebones programs.
    pub physical_address: u64,
    /// Bytes the segment takes in memory; past the data they are zero.
    pub memory_size: u64,
    /// Alignment of the virtual and physical addresses.
    pub alignment: u64,
}

/// The segment that the program header at the start of `table` describes, in `file`: its
/// type, data, flags, virtual and physical address, memory size and alignment.
pub open spec fn segment_from(file: Seq<u8>, table: Seq<u8>) -> Result<
    (ElfSegmentType, Seq<u8>, u32, u64, u64, u64, u64),
    ElfError,
> {
    let h = choose|h: ElfProgramHeader64| program_header64_at(h, table, 0);
    match file_bytes(file, h.segment_offset, h.segment_file_size) {
        Ok(d) => Ok(
            (
                segment_type_spec(h.segment_type),
                d,
                h.flags.0,
                h.segment_virtual_address,
                h.segment_physical_address,
                h.segment_memory_size,
                h.section_alignment,
            ),
        ),
        Err(e) => Err(e),
    }
}

/// The view of a segment.
pub open spec fn segment_view(s: ElfSegment64) -> (ElfSegmentType, Seq<u8>, u32, u64, u64, u64, u64) {
    (s.segment_type, s.data@, s.flags.0, s.virtual_address, s.physical_address, s.memory_size, s.alignment)
}

/// An iterator over the program segments of an image.
#[derive(Clone, Copy)]
pub struct Elf64Programs<'a> {
    pub len: u16,
    pub stride: u16,
    pub file_reader: Reader<'a>,
    pub program_table_reader: Reader<'a>,
}

impl<'a> Elf64Programs<'a> {
    /// The next segment, or `None` when the count runs out or the table has no whole header
    /// left; a segment whose bytes are not in the file is an error.
    pub fn next(&mut self) -> (r: Option<Result<ElfSegment64<'a>, ElfError>>)
        ensures
            final(self).file_reader == old(self).file_reader,
            final(self).stride == old(self).stride,
            old(self).len == 0 ==> r is None && *final(self) == *old(self),
            old(self).len > 0 ==> {
                &&& final(self).len == old(self).len - 1
                &&& old(self).program_table_reader.bytes@.len() < PROGRAM_HEADER64_SIZE ==> r is None
                    && final(self).program_table_reader == old(self).program_table_reader
                &&& old(self).program_table_reader.bytes@.len() >= PROGRAM_HEADER64_SIZE ==> {
                    &&& final(self).program_table_reader.bytes@ == table_after(
                        old(self).program_table_reader.bytes@,
                        old(self).stride as int,
                        1,
                    )
                    &&& match segment_from(old(self).file_reader.bytes@, old(self).program_table_reader.bytes@) {
                        Ok(v) => (r matches Some(Ok(s)) && segment_view(s) == v),
                        Err(e) => r == Some(Err::<ElfSegment64<'a>, ElfError>(e)),
                    }
                }
            },
    {
        if self.len == 0 {
            return None;
        }
        self.len = self.len - 1;
        if self.program_table_reader.bytes.len() < PROGRAM_HEADER64_SIZE {
            return None;
        }
        let header = ElfProgramHeader64::decode(self.program_table_reader.bytes);
        proof {
            let h = choose|h: ElfProgramHeader64| program_header64_at(h, self.program_table_reader.bytes@, 0);
            assert(program_header64_at(h, self.program_table_reader.bytes@, 0));
            assert(h == header);
        }
        let ghost t = self.program_table_reader.bytes@;
        let _ = self.program_table_reader.take(self.stride as usize);
        proof {
            assert(table_after(t, self.stride as int, 0) == t);
        }
        match file_slice(self.file_reader, header.segment_offset, header.segment_file_size) {
            Ok(data) => Some(
                Ok(
                    ElfSegment64 {
                        segment_type: ElfSegmentType::from_number(header.segment_type),
                        data,
                        flags: header.flags,
                        virtual_address: header.segment_virtual_address,
                        physical_address: header.segment_physical_address,
                        memory_size: header.segment_memory_size,
                        alignment: header.section_alignment,
                    },
                ),
            ),
            Err(e) => Some(Err(e)),
        }
    }
}

/// The string table of an image whose sections are `len` headers of `stride` bytes from the
/// start of `table`: the section of index `index`, found by going through the table; `None`
/// when the iteration ends before it.
pub open spec fn string_table_spec(file: Seq<u8>, table: Seq<u8>, len: int, stride: int, index: int) -> Option<
    Result<(int, Seq<u8>, u64), ElfError>,
> {
    if exists|i: int| 0 <= i <= index && (#[trigger] table_after(table, stride, i as nat)).len() < SECTION_HEADER64_SIZE {
        None
    } else if index >= len {
        None
    } else {
        Some(section_from(file, table_after(table, stride, index as nat)))
    }
}

/// A 64-bit ELF image.
#[derive(Clone, Copy)]
pub struct Elf64<'a> {
    pub header: ElfHeader64,
    pub file_reader: Reader<'a>,
    pub program_table_reader: Reader<'a>,
    pub section_table_reader: Reader<'a>,
    pub string_table: ElfSection64<'a>,
}

/// An ELF image. Only 64-bit images are read.
#[derive(Clone, Copy)]
pub enum Elf<'a> {
    N64(Elf64<'a>),
}

/// What reading `bytes` as an ELF image gives: the error, or the header, the program and
/// section tables, and the view of the string table.
pub open spec fn elf_spec(bytes: Seq<u8>) -> Result<(ElfHeader64, Seq<u8>, Seq<u8>, (int, Seq<u8>, u64)), ElfError> {
    if bytes.len() < PROLOGUE_SIZE {
        Err(ElfError::Eof)
    } else if bytes.subrange(0, 4) != seq![0x7fu8, 0x45u8, 0x4cu8, 0x46u8] {
        Err(ElfError::InvalidMagic([bytes[0], bytes[1], bytes[2], bytes[3]]))
    } else if bytes[4] != 2 {
        Err(ElfError::InvalidArch(bytes[4]))
    } else if bytes.len() < PROLOGUE_SIZE + HEADER64_SIZE {
        Err(ElfError::Eof)
    } else {
        let h = choose|h: ElfHeader64| header64_at(h, bytes, PROLOGUE_SIZE as int);
        let pt = h.program_header_table_offset;
        let st = h.section_header_table_offset;
        if pt > usize::MAX {
            Err(ElfError::IntDoesntFit)
        } else if pt > bytes.len() {
            Err(ElfError::Eof)
        } else if st > usize::MAX {
            Err(ElfError::IntDoesntFit)
        } else if st > bytes.len() {
            Err(ElfError::Eof)
        } else {
            let table = bytes.subrange(st as int, bytes.len() as int);
            match string_table_spec(
                bytes,
                table,
                h.section_header_entry_len as int,
                h.section_header_entry_size as int,
                h.section_header_string_table_index as int,
            ) {
                None => Err(ElfError::MissingStringTable),
                Some(Err(e)) => Err(e),
                Some(Ok(strings)) => Ok((h, bytes.subrange(pt as int, bytes.len() as int), table, strings)),
            }
        }
    }
}

/// The first 24 bytes of an image say it is a 32-bit ELF file.
pub open spec fn is_elf32(bytes: Seq<u8>) -> bool {
    bytes.len() >= PROLOGUE_SIZE && bytes.subrange(0, 4) == seq![0x7fu8, 0x45u8, 0x4cu8, 0x46u8] && bytes[4] == 1
}

impl<'a> Elf<'a> {
    /// Reads the ELF image in `bytes`. 32-bit images are not supported.
    pub fn from_bytes(bytes: &'a [u8]) -> (r: Result<Self, ElfError>)
        requires
            !is_elf32(bytes@),
        ensures
            match elf_spec(bytes@) {
                Ok((h, pt, st, strings)) => (r matches Ok(Elf::N64(e)) && {
                    &&& e.header == h
                    &&& e.file_reader.bytes@ == bytes@
                    &&& e.program_table_reader.bytes@ == pt
                    &&& e.section_table_reader.bytes@ == st
                    &&& section_view(e.string_table) == strings
                }),
                Err(err) => r == Err::<Self, ElfError>(err),
            },
    {
        let file_reader = Reader { bytes };
        let mut header_reader = file_reader;
        let prologue_bytes = match header_reader.take(PROLOGUE_SIZE) {
            Some(p) => p,
            None => return Err(ElfError::Eof),
        };
        let prologue = ElfHeaderPrologue::decode(prologue_bytes);
        if !(prologue.magic[0] == 0x7f && prologue.magic[1] == 0x45 && prologue.magic[2] == 0x4c && prologue.magic[3]
            == 0x46) {
            proof {
                assert(bytes@.subrange(0, 4) != seq![0x7fu8, 0x45u8, 0x4cu8, 0x46u8]) by {
                    if bytes@.subrange(0, 4) == seq![0x7fu8, 0x45u8, 0x4cu8, 0x46u8] {
                        assert(bytes@.subrange(0, 4)[0] == bytes@[0]);
                        assert(bytes@.subrange(0, 4)[1] == bytes@[1]);
                        assert(bytes@.subrange(0, 4)[2] == bytes@[2]);
                        assert(bytes@.subrange(0, 4)[3] == bytes@[3]);
                    }
                }
                assert(prologue.magic =~= [bytes@[0], bytes@[1], bytes@[2], bytes@[3]]);
            }
            return Err(ElfError::InvalidMagic(prologue.magic));
        }
        proof {
            assert(bytes@.subrange(0, 4) =~= seq![0x7fu8, 0x45u8, 0x4cu8, 0x46u8]);
        }
        if prologue.arch != 2 {
            return Err(ElfError::InvalidArch(prologue.arch));
        }
        match Elf64::from_bytes(file_reader, header_reader) {
            Ok(e) => Ok(Elf::N64(e)),
            Err(e) => Err(e),
        }
    }
}

impl<'a> Elf64<'a> {
    /// Reads the 64-bit header that follows the prologue, finds the program and section
    /// tables, and finds the string table among the sections.
    fn from_bytes(file_reader: Reader<'a>, header_reader: Reader<'a>) -> (r: Result<Self, ElfError>)
        requires
            file_reader.bytes@.len() >= PROLOGUE_SIZE,
            header_reader.bytes@ == file_reader.bytes@.subrange(PROLOGUE_SIZE as int, file_reader.bytes@.len() as int),
            file_reader.bytes@.subrange(0, 4) == seq![0x7fu8, 0x45u8, 0x4cu8, 0x46u8],
            file_reader.bytes@[4] == 2,
        ensures
            match elf_spec(file_reader.bytes@) {
                Ok((h, pt, st, strings)) => (r matches Ok(e) && {
                    &&& e.header == h
                    &&& e.file_reader.bytes@ == file_reader.bytes@
                    &&& e.program_table_reader.bytes@ == pt
                    &&& e.section_table_reader.bytes@ == st
                    &&& section_view(e.string_table) == strings
                }),
                Err(err) => r == Err::<Self, ElfError>(err),
            },
    {
        let ghost bytes = file_reader.bytes@;
        let mut header_reader = header_reader;
        let header_bytes = match header_reader.take(HEADER64_SIZE) {
            Some(b) => b,
            None => return Err(ElfError::Eof),
        };
        let header = ElfHeader64::decode(header_bytes);
        proof {
            let h = choose|h: ElfHeader64| header64_at(h, bytes, PROLOGUE_SIZE as int);
            assert(header64_at(header, bytes, PROLOGUE_SIZE as int));
            assert(h == header);
        }
        let pt = match int_fit(header.program_header_table_offset) {
            Ok(v) => v,
            Err(e) => return Err(e),
        };
        let program_table_reader = match file_reader.fork(pt) {
            Some(r) => r,
            None => return Err(ElfError::Eof),
        };
        let st = match int_fit(header.section_header_table_offset) {
            Ok(v) => v,
            Err(e) => return Err(e),
        };
        let section_table_reader = match file_reader.fork(st) {
            Some(r) => r,
            None => return Err(ElfError::Eof),
        };
        let mut sections = Elf64Sections {
            len: header.section_header_entry_len,
            stride: header.section_header_entry_size,
            file_reader,
            section_table_reader,
        };
        let ghost table = section_table_reader.bytes@;
        let ghost stride = header.section_header_entry_size as int;
        let ghost index = header.section_header_string_table_index as int;
        let mut i: u16 = 0;
        loop
            invariant
                sections.file_reader == file_reader,
                file_reader.bytes@ == bytes,
                sections.stride == header.section_header_entry_size,
                stride == header.section_header_entry_size as int,
                index == header.section_header_string_table_index as int,
                table == bytes.subrange(st as int, bytes.len() as int),
                header64_at(header, bytes, PROLOGUE_SIZE as int),
                sections.len as int == header.section_header_entry_len - i,
                sections.section_table_reader.bytes@ == table_after(table, stride, i as nat),
                i <= index,
                forall|j: int| 0 <= j < i ==> (#[trigger] table_after(table, stride, j as nat)).len() >= SECTION_HEADER64_SIZE,
                elf_spec(bytes) == match string_table_spec(
                    bytes,
                    table,
                    header.section_header_entry_len as int,
                    stride,
                    index,
                ) {
                    None => Err(ElfError::MissingStringTable),
                    Some(Err(e)) => Err(e),
                    Some(Ok(strings)) => Ok((header, bytes.subrange(pt as int, bytes.len() as int), table, strings)),
                },
                program_table_reader.bytes@ == bytes.subrange(pt as int, bytes.len() as int),
                section_table_reader.bytes@ == table,
            decreases index - i,
        {
            let ghost cur = sections.section_table_reader.bytes@;
            match sections.next() {
                None => {
                    proof {
                        if cur.len() < SECTION_HEADER64_SIZE {
                            let ii: int = i as int;
                            assert(table_after(table, stride, ii as nat).len() < SECTION_HEADER64_SIZE);
                            assert(string_table_spec(bytes, table, header.section_header_entry_len as int, stride, index) is None);
                        } else {
                            assert(index >= header.section_header_entry_len);
                            assert(string_table_spec(bytes, table, header.section_header_entry_len as int, stride, index) is None);
                        }
                    }
                    return Err(ElfError::MissingStringTable);
                },
                Some(res) => {
                    if i == header.section_header_string_table_index {
                        proof {
                            assert forall|j: int| 0 <= j <= index implies (#[trigger] table_after(table, stride, j as nat)).len()
                                >= SECTION_HEADER64_SIZE by {
                                if j == i {
                                    assert(cur.len() >= SECTION_HEADER64_SIZE);
                                }
                            }
                        }
                        match res {
                            Ok(string_table) => {
                                return Ok(
                                    Elf64 { header, file_reader, program_table_reader, section_table_reader, string_table },
                                );
                            },
                            Err(e) => {
                                return Err(e);
                            },
                        }
                    }
                    proof {
                        assert(table_after(cur, stride, 0) == cur);
                        assert(cur.len() >= SECTION_HEADER64_SIZE);
                    }
                    i = i + 1;
                },
            }
        }
    }
}


impl<'a> Elf64<'a> {
    /// Entry point of the program.
    pub fn program_entry(&self) -> (r: u64)
        ensures
            r == self.header.program_entry_offset,
    {
        self.header.program_entry_offset
    }

    /// Number of entries in the program header table.
    pub fn program_header_count(&self) -> (r: usize)
        ensures
            r == self.header.program_header_entry_len,
    {
        self.header.program_header_entry_len as usize
    }

    /// An iterator over the program segments.
    pub fn program_segments(&self) -> (r: Elf64Programs<'a>)
        ensures
            r.len == self.header.program_header_entry_len,
            r.stride == self.header.program_header_entry_size,
            r.file_reader == self.file_reader,
            r.program_table_reader == self.program_table_reader,
    {
        Elf64Programs {
            len: self.header.program_header_entry_len,
            stride: self.header.program_header_entry_size,
            file_reader: self.file_reader,
            program_table_reader: self.program_table_reader,
        }
    }

    /// An iterator over the sections.
    pub fn sections(&self) -> (r: Elf64Sections<'a>)
        ensures
            r.len == self.header.section_header_entry_len,
            r.stride == self.header.section_header_entry_size,
            r.file_reader == self.file_reader,
            r.section_table_reader == self.section_table_reader,
    {
        Elf64Sections {
            len: self.header.section_header_entry_len,
            stride: self.header.section_header_entry_size,
            file_reader: self.file_reader,
            section_table_reader: self.section_table_reader,
        }
    }
}

/// Where the name that starts at `start` in `strings` ends: at its first zero byte, or at
/// the end of the table.
pub open spec fn name_end(strings: Seq<u8>, start: int, end: int) -> bool {
    &&& start <= end <= strings.len()
    &&& forall|k: int| start <= k < end ==> #[trigger] strings[k] != 0
    &&& (end == strings.len() || strings[end] == 0)
}

impl<'a> ElfSection64<'a> {
    /// The name of the section: the bytes of the string table of `elf` from the section's
    /// name offset up to the next zero byte or the end of the table.
    pub fn name(&self, elf: &Elf64<'a>) -> (r: &'a [u8])
        requires
            self.name_offset <= elf.string_table.data@.len(),
        ensures
            exists|end: int|
                name_end(elf.string_table.data@, self.name_offset as int, end) && r@ == elf.string_table.data@.subrange(
                    self.name_offset as int,
                    end,
                ),
    {
        let data = elf.string_table.data;
        let start = self.name_offset;
        let mut end = start;
        while end < data.len() && data[end] != 0
            invariant
                start <= end <= data@.len(),
                forall|k: int| start <= k < end ==> #[trigger] data@[k] != 0,
            decreases data@.len() - end,
        {
            end = end + 1;
        }
        let (head, _) = data.split_at(end);
        let (_, name) = head.split_at(start);
        assert(name@ =~= data@.subrange(start as int, end as int));
        assert(name_end(data@, start as int, end as int));
        name
    }
}

/// The program-header type numbers of the ELF format: 0 is `Null`, 1 `Load`, 2 `Dynamic`,
/// 3 `Interp`, 4 `Note`, 5 `Shlib`, 6 `Header` (the table itself), 7 `Tls`, and every other
/// number is kept as `Unknown`.
pub proof fn lemma_segment_type_numbers(n: u32)
    ensures
        (segment_type_spec(n) == ElfSegmentType::Null) <==> n == 0,
        (segment_type_spec(n) == ElfSegmentType::Load) <==> n == 1,
        (segment_type_spec(n) == ElfSegmentType::Dynamic) <==> n == 2,
        (segment_type_spec(n) == ElfSegmentType::Interp) <==> n == 3,
        (segment_type_spec(n) == ElfSegmentType::Note) <==> n == 4,
        (segment_type_spec(n) == ElfSegmentType::Shlib) <==> n == 5,
        (segment_type_spec(n) == ElfSegmentType::Header) <==> n == 6,
        (segment_type_spec(n) == ElfSegmentType::Tls) <==> n == 7,
        (segment_type_spec(n) == ElfSegmentType::Unknown(n)) <==> n > 7,
{
}

} // verus!
