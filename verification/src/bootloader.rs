//! The decisions of the UEFI boot loader: where the kernel image goes and how it is
//! relocated, which video mode to use, what to identity-map, where the ACPI tables are, and
//! which memory regions the kernel gets.
use vstd::prelude::*;
use crate::PAGE_SIZE;
use crate::bootinfo::{DeviceTree, IdentityMap, IdentityMapFlags, MemoryRegion, Reloc, MAX_MEMORY_REGIONS};
use crate::bootinfo::paddr::PAddr;
use crate::elf::{ElfSegment64, ElfSegmentType};
use crate::kernel::boot::pages_for;
use crate::elf::sys::{ElfDt64, ElfDyn64, ElfProgramFlags, ElfRela64, ElfRela64Type, DYN64_SIZE, RELA64_SIZE, le64, signed64};

verus! {

/// Why the boot loader would stop.
#[derive(Clone, Copy, PartialEq, Eq, Structural)]
pub enum BootError {
    /// A loadable kernel segment is not aligned to a page.
    MisalignedSegment(u64),
    /// The lowest virtual address of the kernel is not page aligned.
    UnalignedBase(usize),
    /// A kernel address does not fit in a `usize`.
    IntDoesntFit(u64),
    /// An address computation went past the integers' range.
    Overflow,
    /// A relocation of a kind other than `R_X86_64_RELATIVE`.
    UnsupportedRelocation(u32),
    /// A relocation reads or writes outside the kernel image.
    OutOfImage,
}

/// Every loadable kernel segment must be aligned to a page.
pub fn check_kernel_segment(segment: &ElfSegment64) -> (r: Result<(), BootError>)
    ensures
        (segment.segment_type == ElfSegmentType::Load && segment.alignment != PAGE_SIZE) ==> r == Err::<(), BootError>(
            BootError::MisalignedSegment(segment.alignment),
        ),
        !(segment.segment_type == ElfSegmentType::Load && segment.alignment != PAGE_SIZE) ==> r is Ok,
{
    if segment.segment_type == ElfSegmentType::Load && segment.alignment != PAGE_SIZE as u64 {
        Err(BootError::MisalignedSegment(segment.alignment))
    } else {
        Ok(())
    }
}

/// Lowest virtual address and highest end over the loadable segments among the first `n`
/// of `segs`, from `(u64::MAX, 0)`; `None` when an end is past `u64::MAX`.
pub open spec fn bounds_spec(segs: Seq<ElfSegment64>, n: nat) -> Option<(int, int)>
    decreases n,
{
    if n == 0 {
        Some((u64::MAX as int, 0))
    } else {
        match bounds_spec(segs, (n - 1) as nat) {
            None => None,
            Some((lo, hi)) => {
                let s = segs[n - 1];
                if s.segment_type != ElfSegmentType::Load {
                    Some((lo, hi))
                } else if s.virtual_address + s.memory_size > u64::MAX {
                    None
                } else {
                    Some(
                        (
                            if s.virtual_address < lo { s.virtual_address as int } else { lo },
                            if s.virtual_address + s.memory_size > hi { s.virtual_address + s.memory_size } else { hi },
                        ),
                    )
                }
            },
        }
    }
}

/// The virtual range of the kernel: the lowest address of its loadable segments, which must
/// be page aligned, and the highest end rounded up to a page.
pub open spec fn kernel_range_spec(segs: Seq<ElfSegment64>) -> Result<(int, int), BootError> {
    match bounds_spec(segs, segs.len()) {
        None => Err(BootError::Overflow),
        Some((lo, hi)) => if lo > usize::MAX || hi > usize::MAX {
            Err(BootError::IntDoesntFit(hi as u64))
        } else if lo % (PAGE_SIZE as int) != 0 {
            Err(BootError::UnalignedBase(lo as usize))
        } else if hi % (PAGE_SIZE as int) != 0 && hi + PAGE_SIZE - hi % (PAGE_SIZE as int) > usize::MAX {
            Err(BootError::Overflow)
        } else {
            Ok((lo, if hi % (PAGE_SIZE as int) == 0 { hi } else { hi + PAGE_SIZE - hi % (PAGE_SIZE as int) }))
        },
    }
}

/// The lowest virtual address of the kernel and its highest, page aligned.
pub fn kernel_virtual_addresses(segments: &[ElfSegment64]) -> (r: Result<(usize, usize), BootError>)
    ensures
        match kernel_range_spec(segments@) {
            Ok((lo, hi)) => r == Ok::<(usize, usize), BootError>((lo as usize, hi as usize)),
            Err(e) => r == Err::<(usize, usize), BootError>(e),
        },
{
    let mut min: u64 = u64::MAX;
    let mut max: u64 = 0;
    let mut i: usize = 0;
    while i < segments.len()
        invariant
            i <= segments@.len(),
            bounds_spec(segments@, i as nat) == Some((min as int, max as int)),
        decreases segments@.len() - i,
    {
        let segment = &segments[i];
        if segment.segment_type == ElfSegmentType::Load {
            if segment.virtual_address > u64::MAX - segment.memory_size {
                proof {
                    assert(bounds_spec(segments@, (i + 1) as nat) is None);
                    lemma_bounds_stay_none(segments@, (i + 1) as nat, segments@.len());
                }
                return Err(BootError::Overflow);
            }
            if segment.virtual_address < min {
                min = segment.virtual_address;
            }
            if segment.virtual_address + segment.memory_size > max {
                max = segment.virtual_address + segment.memory_size;
            }
        }
        i = i + 1;
    }
    if min > usize::MAX as u64 || max > usize::MAX as u64 {
        return Err(BootError::IntDoesntFit(max));
    }
    let min = min as usize;
    let max = max as usize;
    if min % PAGE_SIZE != 0 {
        return Err(BootError::UnalignedBase(min));
    }
    if max % PAGE_SIZE == 0 {
        Ok((min, max))
    } else if max > usize::MAX - (PAGE_SIZE - max % PAGE_SIZE) {
        Err(BootError::Overflow)
    } else {
        Ok((min, max + (PAGE_SIZE - max % PAGE_SIZE)))
    }
}

proof fn lemma_bounds_stay_none(segs: Seq<ElfSegment64>, i: nat, n: nat)
    requires
        i <= n,
        bounds_spec(segs, i) is None,
    ensures
        bounds_spec(segs, n) is None,
    decreases n - i,
{
    if i < n {
        lemma_bounds_stay_none(segs, i + 1, n);
    }
}

/// `i` is the first of the largest areas in `areas`.
pub open spec fn first_largest(areas: Seq<int>, i: int) -> bool {
    &&& 0 <= i < areas.len()
    &&& forall|j: int| 0 <= j < i ==> #[trigger] areas[j] < areas[i]
    &&& forall|j: int| i <= j < areas.len() ==> #[trigger] areas[j] <= areas[i]
}

/// The area of each resolution.
pub open spec fn areas_of(resolutions: Seq<(usize, usize)>) -> Seq<int> {
    resolutions.map_values(|r: (usize, usize)| r.0 * r.1)
}

/// The video mode to use: the first of those with the largest area; `None` when there is
/// no mode.
pub fn pick_mode(resolutions: &[(usize, usize)]) -> (r: Option<usize>)
    requires
        forall|i: int| 0 <= i < resolutions@.len() ==> (#[trigger] resolutions@[i]).0 * resolutions@[i].1 <= usize::MAX,
    ensures
        resolutions@.len() == 0 ==> r is None,
        resolutions@.len() > 0 ==> (r matches Some(i) && first_largest(areas_of(resolutions@), i as int)),
{
    let ghost areas = areas_of(resolutions@);
    let mut max_area: usize = 0;
    let mut max_mode: Option<usize> = None;
    let mut i: usize = 0;
    while i < resolutions.len()
        invariant
            i <= resolutions@.len(),
            areas == areas_of(resolutions@),
            forall|k: int| 0 <= k < resolutions@.len() ==> (#[trigger] resolutions@[k]).0 * resolutions@[k].1 <= usize::MAX,
            i == 0 ==> max_mode is None,
            i > 0 ==> (max_mode matches Some(m) && m < i && max_area == areas[m as int] && (forall|j: int|
                0 <= j < m ==> #[trigger] areas[j] < areas[m as int]) && (forall|j: int|
                m <= j < i ==> #[trigger] areas[j] <= areas[m as int])),
        decreases resolutions@.len() - i,
    {
        let (w, h) = resolutions[i];
        assert(areas[i as int] == w * h);
        let area = w * h;
        if max_mode.is_none() || area > max_area {
            max_area = area;
            max_mode = Some(i);
        }
        i = i + 1;
    }
    max_mode
}

/// The identity-map permissions for the permissions `bits` of an ELF segment: executable,
/// readable and writable carry over.
pub open spec fn map_flags(bits: u32) -> u8 {
    let e: u8 = if bits & 1 == 1 { 0u8 | 1 } else { 0u8 };
    let r: u8 = if bits & 4 == 4 { e | 4 } else { e };
    if bits & 2 == 2 { r | 2 } else { r }
}

/// The identity map of a loadable segment placed in the kernel image at `kernel_addr`,
/// whose lowest virtual address is `virtual_base`: the segment's pages with the segment's
/// permissions.
pub fn segment_identity_map(kernel_addr: usize, virtual_base: usize, segment: &ElfSegment64) -> (r: IdentityMap)
    requires
        virtual_base <= segment.virtual_address,
        segment.virtual_address <= usize::MAX,
        kernel_addr + (segment.virtual_address - virtual_base) <= usize::MAX,
        segment.memory_size <= usize::MAX,
    ensures
        r.region.base.0 == kernel_addr + (segment.virtual_address - virtual_base),
        r.region.pages == pages_for(segment.memory_size as int),
        r.flags.0 == map_flags(segment.flags.0),
{
    let offset = segment.virtual_address as usize - virtual_base;
    let size = segment.memory_size as usize;
    let pages = size / PAGE_SIZE + if size % PAGE_SIZE != 0 {
        1
    } else {
        0
    };
    let mut flags = IdentityMapFlags::empty();
    if segment.flags.contains(ElfProgramFlags::EXECUTABLE) {
        flags.insert(IdentityMapFlags::EXECUTABLE);
    }
    if segment.flags.contains(ElfProgramFlags::READABLE) {
        flags.insert(IdentityMapFlags::READABLE);
    }
    if segment.flags.contains(ElfProgramFlags::WRITABLE) {
        flags.insert(IdentityMapFlags::WRITABLE);
    }
    IdentityMap::new(PAddr::new(kernel_addr + offset), pages, flags)
}

/// Kind of an entry of the firmware's configuration table.
#[derive(Clone, Copy, PartialEq, Eq, Structural)]
pub enum ConfigKind {
    /// The ACPI 1.0 root pointer.
    Acpi,
    /// The ACPI 2.0 root pointer.
    Acpi2,
    /// Anything else.
    Other,
}

/// An entry of the firmware's configuration table.
#[derive(Clone, Copy)]
pub struct ConfigEntry {
    pub kind: ConfigKind,
    pub address: usize,
}

/// The first index from `i` on of an entry of kind `kind`; `entries.len()` when none is.
pub open spec fn first_of(entries: Seq<ConfigEntry>, kind: ConfigKind, i: int) -> int
    decreases entries.len() - i,
{
    if i < 0 || i >= entries.len() {
        entries.len() as int
    } else if entries[i].kind == kind {
        i
    } else {
        first_of(entries, kind, i + 1)
    }
}

/// The device tree the configuration table gives: the first ACPI 2.0 pointer, else the
/// first ACPI 1.0 pointer, else none.
pub open spec fn device_tree_spec(entries: Seq<ConfigEntry>) -> Option<DeviceTree> {
    let a2 = first_of(entries, ConfigKind::Acpi2, 0);
    let a1 = first_of(entries, ConfigKind::Acpi, 0);
    if a2 < entries.len() {
        Some(DeviceTree::Acpi2(PAddr(entries[a2].address)))
    } else if a1 < entries.len() {
        Some(DeviceTree::Acpi(PAddr(entries[a1].address)))
    } else {
        None
    }
}

proof fn lemma_first_of_bounds(entries: Seq<ConfigEntry>, kind: ConfigKind, i: int)
    requires
        0 <= i <= entries.len(),
    ensures
        i <= first_of(entries, kind, i) <= entries.len(),
        first_of(entries, kind, i) < entries.len() ==> entries[first_of(entries, kind, i)].kind == kind,
    decreases entries.len() - i,
{
    if i < entries.len() {
        lemma_first_of_bounds(entries, kind, i + 1);
    }
}

/// Finds the ACPI tables in the firmware's configuration table: an ACPI 2.0 pointer wins
/// over an ACPI 1.0 one. `None` where the boot loader would stop for want of either.
pub fn device_tree_from(entries: &[ConfigEntry]) -> (r: Option<DeviceTree>)
    ensures
        r == device_tree_spec(entries@),
{
    let mut out: Option<DeviceTree> = None;
    let mut i: usize = 0;
    while i < entries.len()
        invariant
            i <= entries@.len(),
            first_of(entries@, ConfigKind::Acpi2, 0) == first_of(entries@, ConfigKind::Acpi2, i as int),
            out is None ==> first_of(entries@, ConfigKind::Acpi, 0) == first_of(entries@, ConfigKind::Acpi, i as int),
            out is Some ==> {
                let a1 = first_of(entries@, ConfigKind::Acpi, 0);
                &&& a1 < i
                &&& out == Some(DeviceTree::Acpi(PAddr(entries@[a1].address)))
            },
        decreases entries@.len() - i,
    {
        let e = entries[i];
        match e.kind {
            ConfigKind::Acpi => {
                if out.is_none() {
                    out = Some(DeviceTree::Acpi(PAddr::new(e.address)));
                }
            },
            ConfigKind::Acpi2 => {
                return Some(DeviceTree::Acpi2(PAddr::new(e.address)));
            },
            ConfigKind::Other => {},
        }
        i = i + 1;
    }
    proof {
        lemma_first_of_bounds(entries@, ConfigKind::Acpi, 0);
    }
    out
}

/// `image` with the `memory_size` bytes at `at` replaced by `data` and then zeros.
pub open spec fn loaded(image: Seq<u8>, at: int, data: Seq<u8>, memory_size: int) -> Seq<u8> {
    Seq::new(
        image.len(),
        |k: int|
            if at <= k < at + data.len() {
                data[k - at]
            } else if at + data.len() <= k < at + memory_size {
                0u8
            } else {
                image[k]
            },
    )
}

/// Copies a loadable segment into the kernel image, whose first byte is at the virtual
/// address `virtual_base`, and zeroes the rest of the segment's memory.
pub fn load_segment(image: &mut Vec<u8>, segment: &ElfSegment64, virtual_base: usize)
    requires
        virtual_base <= segment.virtual_address,
        segment.virtual_address - virtual_base + segment.memory_size <= old(image)@.len(),
        segment.data@.len() <= segment.memory_size,
    ensures
        final(image)@ == loaded(
            old(image)@,
            segment.virtual_address - virtual_base,
            segment.data@,
            segment.memory_size as int,
        ),
{
    let len = image.len();
    let at = (segment.virtual_address - virtual_base as u64) as usize;
    let size = segment.memory_size as usize;
    let data = segment.data;
    let ghost target = loaded(old(image)@, at as int, data@, size as int);
    let mut k: usize = 0;
    while k < size
        invariant
            k <= size,
            len == image@.len(),
            at + size <= image@.len(),
            data@.len() <= size,
            image@.len() == old(image)@.len(),
            target == loaded(old(image)@, at as int, data@, size as int),
            forall|j: int| 0 <= j < image@.len() && !(at <= j < at + k) ==> #[trigger] image@[j] == old(image)@[j],
            forall|j: int| at <= j < at + k ==> #[trigger] image@[j] == target[j],
        decreases size - k,
    {
        let byte = if k < data.len() {
            data[k]
        } else {
            0
        };
        image.set(at + k, byte);
        k = k + 1;
    }
    assert(image@ =~= target);
}

/// Byte `j` of the little-endian encoding of `v`.
pub open spec fn le_byte(v: u64, j: int) -> u8 {
    ((v >> ((8 * j) as u64)) & 0xff) as u8
}

/// `image` with the eight bytes at `at` replaced by the little-endian encoding of `v`.
pub open spec fn patched(image: Seq<u8>, at: int, v: u64) -> Seq<u8> {
    Seq::new(image.len(), |k: int| if at <= k < at + 8 { le_byte(v, k - at) } else { image[k] })
}

fn write_u64(image: &mut Vec<u8>, at: usize, v: u64)
    requires
        at + 8 <= old(image)@.len(),
    ensures
        final(image)@ == patched(old(image)@, at as int, v),
{
    let len = image.len();
    let mut j: usize = 0;
    while j < 8
        invariant
            j <= 8,
            len == image@.len(),
            at + 8 <= image@.len(),
            image@.len() == old(image)@.len(),
            forall|k: int| 0 <= k < image@.len() && !(at <= k < at + j) ==> #[trigger] image@[k] == old(image)@[k],
            forall|k: int| at <= k < at + j ==> #[trigger] image@[k] == le_byte(v, k - at),
        decreases 8 - j,
    {
        let shift = (8 * j) as u64;
        let byte = #[verifier::truncate] (((v >> shift) & 0xff) as u8);
        image.set(at + j, byte);
        proof {
            assert(le_byte(v, j as int) == byte);
        }
        j = j + 1;
    }
    assert(image@ =~= patched(old(image)@, at as int, v));
}

/// Applying the relocation entries `i..count` of a table at `table` in `image` (entries one
/// `Elf64_Rela` apart), each read from the image as earlier ones left it: every entry must
/// be `R_X86_64_RELATIVE`, and its target, at its offset less `virtual_base`, gets the
/// entry's addend plus `slide`, the distance between where the image runs and where it was
/// linked (`None` when that distance does not fit in an `i64`).
pub open spec fn relocate_spec(image: Seq<u8>, table: int, i: nat, count: nat, slide: Option<i64>, virtual_base: usize) -> Result<
    Seq<u8>,
    BootError,
>
    decreases count - i,
{
    if i >= count {
        Ok(image)
    } else {
        let pos = table + i * RELA64_SIZE;
        if pos + RELA64_SIZE > image.len() {
            Err(BootError::OutOfImage)
        } else {
            let kind = crate::elf::sys::le32(image, pos + 8);
            let offset = le64(image, pos);
            let addend = signed64(le64(image, pos + 16));
            if kind != ElfRela64Type::X86_64_RELATIVE {
                Err(BootError::UnsupportedRelocation(kind as u32))
            } else {
                match slide {
                    None => Err(BootError::Overflow),
                    Some(slide) => if offset > usize::MAX {
                        Err(BootError::IntDoesntFit(offset as u64))
                    } else if offset < virtual_base || offset - virtual_base + 8 > image.len() {
                        Err(BootError::OutOfImage)
                    } else if slide + addend < i64::MIN || slide + addend > i64::MAX {
                        Err(BootError::Overflow)
                    } else {
                        relocate_spec(
                            patched(image, offset - virtual_base, ((slide + addend) as i64) as u64),
                            table,
                            i + 1,
                            count,
                            Some(slide),
                            virtual_base,
                        )
                    },
                }
            }
        }
    }
}

/// The distance the boot loader relocates the kernel by: from its link address
/// `virtual_base` to the address `kernel_addr` where it was loaded, both read as `i64`;
/// `None` when it does not fit.
pub fn load_slide(kernel_addr: usize, virtual_base: usize) -> (r: Option<i64>)
    ensures
        r == (if i64::MIN <= (kernel_addr as i64) - (virtual_base as i64) <= i64::MAX {
            Some(((kernel_addr as i64) - (virtual_base as i64)) as i64)
        } else {
            None::<i64>
        }),
{
    let base = #[verifier::truncate] (kernel_addr as i64);
    let linked = #[verifier::truncate] (virtual_base as i64);
    base.checked_sub(linked)
}

/// The distance the kernel relocates itself by once it runs in the higher half: the slide
/// `v_slide` of the higher half plus the distance from its link address `virtual_base` to
/// its physical address `kernel_addr`; `None` when it does not fit in an `i64`.
pub fn higher_half_relocation_slide(v_slide: i64, kernel_addr: usize, virtual_base: usize) -> (r: Option<i64>)
    ensures
        r == (if i64::MIN <= v_slide + (kernel_addr as i64) <= i64::MAX && i64::MIN <= v_slide + (kernel_addr as i64)
            - (virtual_base as i64) <= i64::MAX {
            Some((v_slide + (kernel_addr as i64) - (virtual_base as i64)) as i64)
        } else {
            None::<i64>
        }),
{
    let base = #[verifier::truncate] (kernel_addr as i64);
    let linked = #[verifier::truncate] (virtual_base as i64);
    match v_slide.checked_add(base) {
        Some(s) => s.checked_sub(linked),
        None => None,
    }
}

/// Applies the relocations of `reloc` to the kernel image linked at `virtual_base`, moving
/// it by `slide`.
pub fn apply_relocations(image: &mut Vec<u8>, reloc: Reloc, slide: Option<i64>, virtual_base: usize) -> (r: Result<
    (),
    BootError,
>)
    requires
        reloc.stride > 0,
    ensures
        reloc.offset < virtual_base && reloc.size / reloc.stride > 0 ==> r == Err::<(), BootError>(
            BootError::OutOfImage,
        ),
        !(reloc.offset < virtual_base && reloc.size / reloc.stride > 0) ==> match relocate_spec(
            old(image)@,
            reloc.offset - virtual_base,
            0,
            (reloc.size / reloc.stride) as nat,
            slide,
            virtual_base,
        ) {
            Ok(done) => r is Ok && final(image)@ == done,
            Err(e) => r == Err::<(), BootError>(e),
        },
{
    let count = reloc.size / reloc.stride;
    if count == 0 {
        return Ok(());
    }
    if reloc.offset < virtual_base {
        return Err(BootError::OutOfImage);
    }
    let table = reloc.offset - virtual_base;
    let ghost target = relocate_spec(old(image)@, table as int, 0, count as nat, slide, virtual_base);
    let mut i: usize = 0;
    while i < count
        invariant
            i <= count,
            count == reloc.size / reloc.stride,
            table == reloc.offset - virtual_base,
            target == relocate_spec(old(image)@, table as int, 0, count as nat, slide, virtual_base),
            relocate_spec(image@, table as int, i as nat, count as nat, slide, virtual_base) == target,
        decreases count - i,
    {
        let len = image.len();
        let ghost pos_int: int = table + i * RELA64_SIZE;
        let ghost out = relocate_spec(image@, table as int, i as nat, count as nat, slide, virtual_base);
        let pos = match i.checked_mul(RELA64_SIZE) {
            Some(m) => match table.checked_add(m) {
                Some(p) => p,
                None => {
                    assert(pos_int + RELA64_SIZE > image@.len());
                    assert(out == Err::<Seq<u8>, BootError>(BootError::OutOfImage));
                    return Err(BootError::OutOfImage);
                },
            },
            None => {
                assert(pos_int + RELA64_SIZE > image@.len());
                assert(out == Err::<Seq<u8>, BootError>(BootError::OutOfImage));
                return Err(BootError::OutOfImage);
            },
        };
        if pos > len || len - pos < RELA64_SIZE {
            assert(out == Err::<Seq<u8>, BootError>(BootError::OutOfImage));
            return Err(BootError::OutOfImage);
        }
        let rela = ElfRela64::decode(slice_from(image.as_slice(), pos));
        proof {
            let s = image@.subrange(pos as int, image@.len() as int);
            assert(le64(s, 0) == le64(image@, pos as int));
            assert(crate::elf::sys::le32(s, 8) == crate::elf::sys::le32(image@, pos + 8));
            assert(le64(s, 16) == le64(image@, pos + 16));
        }
        if rela.info.kind.0 != ElfRela64Type::X86_64_RELATIVE {
            return Err(BootError::UnsupportedRelocation(rela.info.kind.0));
        }
        let slide = match slide {
            Some(v) => v,
            None => return Err(BootError::Overflow),
        };
        if rela.offset > usize::MAX as u64 {
            return Err(BootError::IntDoesntFit(rela.offset));
        }
        let target_offset = rela.offset as usize;
        if target_offset < virtual_base || target_offset - virtual_base > len || len - (target_offset - virtual_base) < 8 {
            return Err(BootError::OutOfImage);
        }
        let value = match slide.checked_add(rela.addend) {
            Some(v) => v,
            None => return Err(BootError::Overflow),
        };
        let bits = #[verifier::truncate] (value as u64);
        write_u64(image, target_offset - virtual_base, bits);
        i = i + 1;
    }
    Ok(())
}

/// The bytes of `b` from `from` on.
fn slice_from(b: &[u8], from: usize) -> (r: &[u8])
    requires
        from <= b@.len(),
    ensures
        r@ == b@.subrange(from as int, b@.len() as int),
{
    let (_, rest) = b.split_at(from);
    rest
}

/// An entry of the firmware's memory map: its UEFI memory type, first address and pages.
/// What the first `n` entries of a dynamic section say of its relocation table: whether the
/// end entry (`DT_NULL`) came, and the first `DT_RELA`, `DT_RELASZ` and `DT_RELAENT` values
/// before it.
pub open spec fn dyn_scan(b: Seq<u8>, n: nat) -> (bool, Option<u64>, Option<u64>, Option<u64>)
    decreases n,
{
    if n == 0 {
        (false, None, None, None)
    } else {
        let s = dyn_scan(b, (n - 1) as nat);
        let at = (n - 1) * DYN64_SIZE;
        let tag = signed64(le64(b, at));
        let val = le64(b, at + 8) as u64;
        if s.0 {
            s
        } else if tag == ElfDt64::NULL {
            (true, s.1, s.2, s.3)
        } else if tag == ElfDt64::RELA && s.1 is None {
            (false, Some(val), s.2, s.3)
        } else if tag == ElfDt64::RELASZ && s.2 is None {
            (false, s.1, Some(val), s.3)
        } else if tag == ElfDt64::RELAENT && s.3 is None {
            (false, s.1, s.2, Some(val))
        } else {
            s
        }
    }
}

/// The relocation table that the dynamic section `b` names: its address, size and entry
/// size, when all three are given, fit a `usize` and the entry size is not zero.
pub open spec fn dyn_reloc_spec(b: Seq<u8>) -> Option<Reloc> {
    let s = dyn_scan(b, b.len() / (DYN64_SIZE as nat));
    match (s.1, s.2, s.3) {
        (Some(o), Some(z), Some(e)) => if o <= usize::MAX && z <= usize::MAX && 0 < e <= usize::MAX {
            Some(Reloc { offset: o as usize, size: z as usize, stride: e as usize })
        } else {
            None
        },
        _ => None,
    }
}

/// The relocation table named by the bytes of a dynamic segment.
pub fn dynamic_reloc(data: &[u8]) -> (r: Option<Reloc>)
    ensures
        r == dyn_reloc_spec(data@),
{
    let len = data.len();
    let n = len / DYN64_SIZE;
    let mut stopped = false;
    let mut rela: Option<u64> = None;
    let mut relasz: Option<u64> = None;
    let mut relaent: Option<u64> = None;
    let mut i: usize = 0;
    while i < n
        invariant
            i <= n,
            len == data@.len(),
            n == data@.len() / (DYN64_SIZE as nat),
            dyn_scan(data@, i as nat) == (stopped, rela, relasz, relaent),
        decreases n - i,
    {
        if !stopped {
            assert((i as int) * 16 + 16 <= data@.len()) by (nonlinear_arith)
                requires
                    i < n,
                    n == data@.len() / 16,
            ;
            let at = i * 16;
            let e = ElfDyn64::decode(slice_from(data, at));
            proof {
                let sub = data@.subrange(at as int, data@.len() as int);
                assert(le64(sub, 0) == le64(data@, at as int));
                assert(le64(sub, 8) == le64(data@, at + 8));
            }
            if e.tag.0 == ElfDt64::NULL {
                stopped = true;
            } else if e.tag.0 == ElfDt64::RELA && rela.is_none() {
                rela = Some(e.val);
            } else if e.tag.0 == ElfDt64::RELASZ && relasz.is_none() {
                relasz = Some(e.val);
            } else if e.tag.0 == ElfDt64::RELAENT && relaent.is_none() {
                relaent = Some(e.val);
            }
        }
        i = i + 1;
    }
    match (rela, relasz, relaent) {
        (Some(o), Some(z), Some(e)) => {
            if o <= usize::MAX as u64 && z <= usize::MAX as u64 && 0 < e && e <= usize::MAX as u64 {
                Some(Reloc { offset: o as usize, size: z as usize, stride: e as usize })
            } else {
                None
            }
        },
        _ => None,
    }
}

#[derive(Clone, Copy)]
pub struct FirmwareRegion {
    pub ty: u32,
    pub phys_start: usize,
    pub page_count: usize,
}

/// UEFI memory types the kernel may use once boot services are gone.
pub const LOADER_CODE: u32 = 1;
pub const LOADER_DATA: u32 = 2;
pub const BOOT_SERVICES_CODE: u32 = 3;
pub const BOOT_SERVICES_DATA: u32 = 4;
pub const CONVENTIONAL: u32 = 7;
/// UEFI memory type of the ACPI tables that the kernel may reclaim once it read them.
pub const ACPI_RECLAIM: u32 = 9;

/// The kernel may use memory of type `ty`.
pub open spec fn usable_spec(ty: u32) -> bool {
    ty == LOADER_CODE || ty == LOADER_DATA || ty == BOOT_SERVICES_CODE || ty == BOOT_SERVICES_DATA || ty == CONVENTIONAL
}

/// The kernel may use memory of type `ty`.
pub fn usable(ty: u32) -> (r: bool)
    ensures
        r == usable_spec(ty),
{
    ty == LOADER_CODE || ty == LOADER_DATA || ty == BOOT_SERVICES_CODE || ty == BOOT_SERVICES_DATA || ty == CONVENTIONAL
}

/// The identity maps of the firmware's reclaimable ACPI memory: readable.
pub open spec fn reclaim_maps_spec(entries: Seq<FirmwareRegion>) -> Seq<IdentityMap> {
    entries.filter(|e: FirmwareRegion| e.ty == ACPI_RECLAIM).map_values(
        |e: FirmwareRegion|
            IdentityMap {
                region: MemoryRegion { base: PAddr(e.phys_start), pages: e.page_count },
                flags: IdentityMapFlags(IdentityMapFlags::READABLE),
            },
    )
}

/// Identity maps, readable, for every region of reclaimable ACPI memory, in order.
pub fn acpi_reclaim_maps(entries: &[FirmwareRegion]) -> (r: Vec<IdentityMap>)
    ensures
        r@ == reclaim_maps_spec(entries@),
{
    let mut out: Vec<IdentityMap> = Vec::new();
    let mut i: usize = 0;
    while i < entries.len()
        invariant
            i <= entries@.len(),
            out@ == reclaim_maps_spec(entries@.subrange(0, i as int)),
        decreases entries@.len() - i,
    {
        let e = entries[i];
        proof {
            assert(entries@.subrange(0, i + 1) == entries@.subrange(0, i as int).push(e));
            entries@.subrange(0, i as int).lemma_filter_push(e, |e: FirmwareRegion| e.ty == ACPI_RECLAIM);
        }
        if e.ty == ACPI_RECLAIM {
            out.push(
                IdentityMap::new(PAddr::new(e.phys_start), e.page_count, IdentityMapFlags::from_bits_retain(IdentityMapFlags::READABLE)),
            );
        }
        proof {
            let f = entries@.subrange(0, i + 1).filter(|e: FirmwareRegion| e.ty == ACPI_RECLAIM);
            let f0 = entries@.subrange(0, i as int).filter(|e: FirmwareRegion| e.ty == ACPI_RECLAIM);
            let m = |e: FirmwareRegion|
                IdentityMap {
                    region: MemoryRegion { base: PAddr(e.phys_start), pages: e.page_count },
                    flags: IdentityMapFlags(IdentityMapFlags::READABLE),
                };
            if e.ty == ACPI_RECLAIM {
                assert(f == f0.push(e));
                assert(f.map_values(m) =~= f0.map_values(m).push(m(e)));
            } else {
                assert(f == f0);
            }
        }
        i = i + 1;
    }
    assert(entries@.subrange(0, entries@.len() as int) == entries@);
    out
}

/// Where merging the usable regions of the memory map has got to: the regions handed over,
/// the region being grown, and whether the list of regions filled up.
pub type MergeState = (Seq<MemoryRegion>, Option<MemoryRegion>, bool);

/// One entry of the memory map merged in: a usable entry that starts where the region being
/// grown ends extends it; another one replaces it, the grown region going to the list, and
/// when the list is full the merging stops there.
pub open spec fn merge_step(st: MergeState, e: FirmwareRegion) -> MergeState {
    let (list, region, stopped) = st;
    if stopped || !usable_spec(e.ty) {
        st
    } else {
        match region {
            None => (list, Some(MemoryRegion { base: PAddr(e.phys_start), pages: e.page_count }), false),
            Some(reg) => if reg.base.0 + reg.pages * PAGE_SIZE == e.phys_start {
                (list, Some(MemoryRegion { base: reg.base, pages: (reg.pages + e.page_count) as usize }), false)
            } else if list.len() < MAX_MEMORY_REGIONS {
                (list.push(reg), Some(MemoryRegion { base: PAddr(e.phys_start), pages: e.page_count }), false)
            } else {
                (list, Some(MemoryRegion { base: PAddr(e.phys_start), pages: e.page_count }), true)
            },
        }
    }
}

/// The state after merging the first `n` entries.
pub open spec fn merge_spec(entries: Seq<FirmwareRegion>, n: nat) -> MergeState
    decreases n,
{
    if n == 0 {
        (Seq::empty(), None, false)
    } else {
        merge_step(merge_spec(entries, (n - 1) as nat), entries[n - 1])
    }
}

/// The regions handed over once every entry is merged: the list, and then the region being
/// grown when the list has room.
pub open spec fn merged_regions(entries: Seq<FirmwareRegion>) -> Seq<MemoryRegion> {
    let (list, region, _) = merge_spec(entries, entries.len());
    match region {
        Some(reg) => if list.len() < MAX_MEMORY_REGIONS { list.push(reg) } else { list },
        None => list,
    }
}

/// `s` is in order of decreasing size.
pub open spec fn by_size_desc(s: Seq<MemoryRegion>) -> bool {
    forall|i: int, j: int| 0 <= i < j < s.len() ==> #[trigger] s[i].pages >= #[trigger] s[j].pages
}

/// Merges the usable entries of the memory map into regions, adjacent ones into one, and
/// lists them largest first: the memory the kernel gets.
pub fn usable_regions(entries: &[FirmwareRegion]) -> (r: Vec<MemoryRegion>)
    requires
        forall|i: int|
            0 <= i < entries@.len() && usable_spec((#[trigger] entries@[i]).ty) ==> entries@[i].phys_start
                + entries@[i].page_count * PAGE_SIZE <= usize::MAX,
    ensures
        r@.to_multiset() == merged_regions(entries@).to_multiset(),
        by_size_desc(r@),
        r@.len() <= MAX_MEMORY_REGIONS,
{
    let mut list: Vec<MemoryRegion> = Vec::new();
    let mut region: Option<MemoryRegion> = None;
    let mut i: usize = 0;
    while i < entries.len()
        invariant_except_break
            i <= entries@.len(),
            merge_spec(entries@, i as nat) == (list@, region, false),
        invariant
            list@.len() <= MAX_MEMORY_REGIONS,
            forall|k: int|
                0 <= k < entries@.len() && usable_spec((#[trigger] entries@[k]).ty) ==> entries@[k].phys_start
                    + entries@[k].page_count * PAGE_SIZE <= usize::MAX,
            region matches Some(reg) ==> reg.base.0 + reg.pages * PAGE_SIZE <= usize::MAX,
        ensures
            merge_spec(entries@, entries@.len()) == (list@, region, merge_spec(entries@, entries@.len()).2),
        decreases entries@.len() - i,
    {
        let e = entries[i];
        if usable(e.ty) {
            match region {
                None => {
                    region = Some(MemoryRegion::at(PAddr::new(e.phys_start), e.page_count));
                },
                Some(reg) => {
                    if reg.base.addr() + reg.pages * PAGE_SIZE == e.phys_start {
                        proof {
                            assert((reg.pages + e.page_count) * PAGE_SIZE == reg.pages * PAGE_SIZE + e.page_count * PAGE_SIZE)
                                by (nonlinear_arith);
                        }
                        region = Some(MemoryRegion::at(reg.base, reg.pages + e.page_count));
                    } else if list.len() < MAX_MEMORY_REGIONS {
                        list.push(reg);
                        region = Some(MemoryRegion::at(PAddr::new(e.phys_start), e.page_count));
                    } else {
                        region = Some(MemoryRegion::at(PAddr::new(e.phys_start), e.page_count));
                        proof {
                            lemma_merge_stays_stopped(entries@, (i + 1) as nat, entries@.len());
                        }
                        break;
                    }
                },
            }
        }
        i = i + 1;
    }
    if let Some(reg) = region {
        if list.len() < MAX_MEMORY_REGIONS {
            list.push(reg);
        }
    }
    sort_by_size_desc(list)
}

proof fn lemma_merge_stays_stopped(entries: Seq<FirmwareRegion>, i: nat, n: nat)
    requires
        i <= n <= entries.len(),
        merge_spec(entries, i).2,
    ensures
        merge_spec(entries, n) == merge_spec(entries, i),
    decreases n - i,
{
    if i < n {
        lemma_merge_stays_stopped(entries, i, (n - 1) as nat);
    }
}

/// `v` in order of decreasing size, the order of regions of equal size left open.
#[verifier::spinoff_prover]
pub fn sort_by_size_desc(v: Vec<MemoryRegion>) -> (r: Vec<MemoryRegion>)
    ensures
        r@.to_multiset() == v@.to_multiset(),
        by_size_desc(r@),
        r@.len() == v@.len(),
{
    let mut out: Vec<MemoryRegion> = Vec::new();
    let mut i: usize = 0;
    assert(out@ =~= v@.subrange(0, 0));
    while i < v.len()
        invariant
            i <= v@.len(),
            out@.to_multiset() == v@.subrange(0, i as int).to_multiset(),
            by_size_desc(out@),
            out@.len() == i,
        decreases v@.len() - i,
    {
        let x = v[i];
        let mut pos: usize = 0;
        while pos < out.len() && out[pos].pages >= x.pages
            invariant
                pos <= out@.len(),
                forall|k: int| 0 <= k < pos ==> (#[trigger] out@[k]).pages >= x.pages,
            decreases out@.len() - pos,
        {
            pos = pos + 1;
        }
        let ghost before = out@;
        out.insert(pos, x);
        proof {
            before.insert_ensures(pos as int, x);
            assert(out@ == before.insert(pos as int, x));
            assert(out@.remove(pos as int) =~= before);
            out@.to_multiset_ensures();
            v@.subrange(0, i as int).to_multiset_ensures();
            assert(v@.subrange(0, i + 1) =~= v@.subrange(0, i as int).push(x));
            assert(out@.to_multiset() =~= before.to_multiset().insert(x)) by {
                assert(out@.contains(x)) by {
                    assert(out@[pos as int] == x);
                }
            }
            assert forall|a: int, b: int| 0 <= a < b < out@.len() implies #[trigger] out@[a].pages >= #[trigger] out@[b].pages by {
                if b < pos {
                    assert(out@[a] == before[a] && out@[b] == before[b]);
                } else if b == pos {
                    assert(out@[a] == before[a]);
                } else if a < pos {
                    assert(out@[a] == before[a] && out@[b] == before[b - 1]);
                    if pos < before.len() {
                        assert(before[pos as int].pages < x.pages);
                        assert(before[a].pages >= before[pos as int].pages || a == pos);
                    }
                } else if a == pos {
                    assert(out@[b] == before[b - 1]);
                    assert(pos < before.len());
                    assert(before[pos as int].pages < x.pages);
                    if b - 1 > pos {
                        assert(before[pos as int].pages >= before[b - 1].pages);
                    }
                } else {
                    assert(out@[a] == before[a - 1] && out@[b] == before[b - 1]);
                }
            }
        }
        i = i + 1;
    }
    assert(v@.subrange(0, v@.len() as int) =~= v@);
    out
}

/// The memory types that the kernel may use are exactly the loader's code and data (1, 2),
/// the boot services' code and data (3, 4) and conventional memory (7); every other type,
/// such as ACPI reclaimable (9) or ACPI NVS (10) memory, is kept from it.
pub proof fn lemma_usable_types(ty: u32)
    ensures
        usable_spec(ty) <==> (ty == 1 || ty == 2 || ty == 3 || ty == 4 || ty == 7),
{
}

/// An entry of a memory type outside 1, 2, 3, 4 and 7 adds nothing to the regions handed to
/// the kernel, whatever the merge has gathered so far.
pub proof fn lemma_unusable_entry_ignored(st: MergeState, e: FirmwareRegion)
    requires
        !(e.ty == 1 || e.ty == 2 || e.ty == 3 || e.ty == 4 || e.ty == 7),
    ensures
        merge_step(st, e) == st,
{
}

/// Facts about the bounds over the first `n` segments.
proof fn lemma_bounds_props(segs: Seq<ElfSegment64>, n: nat)
    requires
        n <= segs.len(),
    ensures
        (forall|k: int|
            0 <= k < n && (#[trigger] segs[k]).segment_type == ElfSegmentType::Load ==> segs[k].virtual_address
                + segs[k].memory_size <= u64::MAX) ==> bounds_spec(segs, n) is Some,
        bounds_spec(segs, n) matches Some((lo, hi)) ==> {
            &&& forall|k: int|
                0 <= k < n && (#[trigger] segs[k]).segment_type == ElfSegmentType::Load ==> lo <= segs[k].virtual_address
                    && segs[k].virtual_address + segs[k].memory_size <= hi
            &&& (exists|k: int| 0 <= k < n && (#[trigger] segs[k]).segment_type == ElfSegmentType::Load) ==> {
                &&& exists|k: int|
                    0 <= k < n && (#[trigger] segs[k]).segment_type == ElfSegmentType::Load && lo == segs[k].virtual_address
                &&& exists|k: int|
                    0 <= k < n && (#[trigger] segs[k]).segment_type == ElfSegmentType::Load && hi == segs[k].virtual_address
                        + segs[k].memory_size
            }
            &&& !(exists|k: int| 0 <= k < n && (#[trigger] segs[k]).segment_type == ElfSegmentType::Load) ==> lo
                == u64::MAX && hi == 0
        },
    decreases n,
{
    if n > 0 {
        lemma_bounds_props(segs, (n - 1) as nat);
        let m = (n - 1) as int;
        if forall|k: int|
            0 <= k < n && (#[trigger] segs[k]).segment_type == ElfSegmentType::Load ==> segs[k].virtual_address
                + segs[k].memory_size <= u64::MAX {
            assert(forall|k: int|
                0 <= k < n - 1 && (#[trigger] segs[k]).segment_type == ElfSegmentType::Load ==> segs[k].virtual_address
                    + segs[k].memory_size <= u64::MAX);
            if segs[m].segment_type == ElfSegmentType::Load {
                assert(segs[m].virtual_address + segs[m].memory_size <= u64::MAX);
            }
        }
        if let Some((lo, hi)) = bounds_spec(segs, n) {
            let s = segs[m];
            let (lo0, hi0) = bounds_spec(segs, (n - 1) as nat).unwrap();
            if s.segment_type == ElfSegmentType::Load {
                if exists|k: int| 0 <= k < m && (#[trigger] segs[k]).segment_type == ElfSegmentType::Load {
                    let kl = choose|k: int|
                        0 <= k < m && (#[trigger] segs[k]).segment_type == ElfSegmentType::Load && lo0
                            == segs[k].virtual_address;
                    let kh = choose|k: int|
                        0 <= k < m && (#[trigger] segs[k]).segment_type == ElfSegmentType::Load && hi0
                            == segs[k].virtual_address + segs[k].memory_size;
                    if lo == lo0 {
                        assert(segs[kl].segment_type == ElfSegmentType::Load && lo == segs[kl].virtual_address);
                    } else {
                        assert(segs[m].segment_type == ElfSegmentType::Load && lo == segs[m].virtual_address);
                    }
                    if hi == hi0 {
                        assert(segs[kh].segment_type == ElfSegmentType::Load && hi == segs[kh].virtual_address
                            + segs[kh].memory_size);
                    } else {
                        assert(segs[m].segment_type == ElfSegmentType::Load && hi == segs[m].virtual_address
                            + segs[m].memory_size);
                    }
                } else {
                    assert(segs[m].segment_type == ElfSegmentType::Load && lo == segs[m].virtual_address);
                    assert(segs[m].segment_type == ElfSegmentType::Load && hi == segs[m].virtual_address
                        + segs[m].memory_size);
                }
            } else {
                if exists|k: int| 0 <= k < n && (#[trigger] segs[k]).segment_type == ElfSegmentType::Load {
                    let k = choose|k: int| 0 <= k < n && (#[trigger] segs[k]).segment_type == ElfSegmentType::Load;
                    assert(k < m);
                }
            }
        }
    }
}

/// The kernel's virtual range covers its loadable segments and no more than it must: where it
/// is found, it starts at the lowest address of a loadable segment and ends at the highest end
/// (address plus memory size) of a loadable segment rounded up to a page; every loadable
/// segment lies inside it, and both ends are page aligned. It is found wherever there is a
/// loadable segment, each starts on a page, and each ends a page short of `usize::MAX`.
pub proof fn lemma_kernel_range_covers_segments(segs: Seq<ElfSegment64>)
    ensures
        kernel_range_spec(segs) matches Ok((lo, hi)) ==> {
            &&& lo % 4096 == 0
            &&& hi % 4096 == 0
            &&& forall|k: int|
                0 <= k < segs.len() && (#[trigger] segs[k]).segment_type == ElfSegmentType::Load ==> lo
                    <= segs[k].virtual_address && segs[k].virtual_address + segs[k].memory_size <= hi
            &&& exists|k: int|
                0 <= k < segs.len() && (#[trigger] segs[k]).segment_type == ElfSegmentType::Load && lo
                    == segs[k].virtual_address
            &&& exists|k: int|
                0 <= k < segs.len() && (#[trigger] segs[k]).segment_type == ElfSegmentType::Load && hi - 4096
                    < segs[k].virtual_address + segs[k].memory_size
        },
        ((exists|k: int| 0 <= k < segs.len() && (#[trigger] segs[k]).segment_type == ElfSegmentType::Load) && (forall|
            k: int,
        |
            0 <= k < segs.len() && (#[trigger] segs[k]).segment_type == ElfSegmentType::Load ==> segs[k].virtual_address
                % 4096 == 0 && segs[k].virtual_address + segs[k].memory_size + 4095 <= usize::MAX))
            ==> kernel_range_spec(segs) is Ok,
{
    lemma_bounds_props(segs, segs.len());
    if (exists|k: int| 0 <= k < segs.len() && (#[trigger] segs[k]).segment_type == ElfSegmentType::Load) && (forall|
        k: int,
    |
        0 <= k < segs.len() && (#[trigger] segs[k]).segment_type == ElfSegmentType::Load ==> segs[k].virtual_address
            % 4096 == 0 && segs[k].virtual_address + segs[k].memory_size + 4095 <= usize::MAX) {
        assert(bounds_spec(segs, segs.len()) is Some);
        let (blo, bhi) = bounds_spec(segs, segs.len()).unwrap();
        let kl = choose|k: int|
            0 <= k < segs.len() && (#[trigger] segs[k]).segment_type == ElfSegmentType::Load && blo
                == segs[k].virtual_address;
        let kh = choose|k: int|
            0 <= k < segs.len() && (#[trigger] segs[k]).segment_type == ElfSegmentType::Load && bhi
                == segs[k].virtual_address + segs[k].memory_size;
        assert(segs[kl].virtual_address % 4096 == 0);
        assert(segs[kh].virtual_address + segs[kh].memory_size + 4095 <= usize::MAX);
    }
    if let Ok((lo, hi)) = kernel_range_spec(segs) {
        let (blo, bhi) = bounds_spec(segs, segs.len()).unwrap();
        assert(blo == lo);
        if !(exists|k: int| 0 <= k < segs.len() && (#[trigger] segs[k]).segment_type == ElfSegmentType::Load) {
            assert(blo == u64::MAX);
            assert(false);
        }
        let kh = choose|k: int|
            0 <= k < segs.len() && (#[trigger] segs[k]).segment_type == ElfSegmentType::Load && bhi
                == segs[k].virtual_address + segs[k].memory_size;
        assert(hi - 4096 < segs[kh].virtual_address + segs[kh].memory_size);
    }
}

/// A loadable segment's identity map takes its permissions from the segment's flags: executable
/// exactly when the segment is (ELF flag 1), writable exactly when it is (flag 2), readable
/// exactly when it is (flag 4), and nothing else.
pub proof fn lemma_map_flags_permissions(bits: u32)
    ensures
        (map_flags(bits) & 1u8 != 0) <==> (bits & 1u32 != 0),
        (map_flags(bits) & 2u8 != 0) <==> (bits & 2u32 != 0),
        (map_flags(bits) & 4u8 != 0) <==> (bits & 4u32 != 0),
        map_flags(bits) & !7u8 == 0,
{
    assert({
        let e: u8 = if bits & 1 == 1 { 0u8 | 1 } else { 0u8 };
        let r: u8 = if bits & 4 == 4 { e | 4 } else { e };
        let f: u8 = if bits & 2 == 2 { r | 2 } else { r };
        &&& (f & 1u8 != 0) == (bits & 1u32 != 0)
        &&& (f & 2u8 != 0) == (bits & 2u32 != 0)
        &&& (f & 4u8 != 0) == (bits & 4u32 != 0)
        &&& f & !7u8 == 0
    }) by (bit_vector);
}

} // verus!
