//! The page tables that the kernel builds for itself at boot: its segments at their own
//! addresses and in the higher half, all of physical memory at the direct-map offset, and the
//! pages of the frame buffer.
use vstd::prelude::*;
use crate::PAGE_SIZE;
use crate::bootinfo::{GraphicsInfo, IdentityMap, IdentityMapFlags, MemoryRegion, PixelFormat};
use crate::bootinfo::paddr::PAddr;
use crate::bootinfo::vaddr::x86_64::map::{
    entry_at, job_fits, job_mapped, jobs_outcome, keeps_present, pml4_key, range_mapped, range_outcome,
    MapJob, VFlags, VirtualMapError,
};
use crate::bootinfo::vaddr::x86_64::virt::{VAddr, VirtualMap, VirtualMapBuilder, VirtualMapper2};

verus! {

/// The mapping flags of an identity map with permission bits `bits`: global, writable where
/// it is writable, never executed where it is not executable.
pub open spec fn vflags_of(bits: u8) -> u64 {
    VFlags::GLOBAL | (if bits & IdentityMapFlags::WRITABLE == IdentityMapFlags::WRITABLE {
        VFlags::WRITABLE
    } else {
        0
    }) | (if bits & IdentityMapFlags::EXECUTABLE == IdentityMapFlags::EXECUTABLE {
        0
    } else {
        VFlags::EXECUTE_DISABLE
    })
}

/// The mapping flags for the identity map with permissions `flags`.
pub fn identity_map_vflags(flags: IdentityMapFlags) -> (r: u64)
    ensures
        r == vflags_of(flags.0),
{
    let writable = if flags.0 & IdentityMapFlags::WRITABLE == IdentityMapFlags::WRITABLE {
        VFlags::WRITABLE
    } else {
        0
    };
    let no_execute = if flags.0 & IdentityMapFlags::EXECUTABLE == IdentityMapFlags::EXECUTABLE {
        0
    } else {
        VFlags::EXECUTE_DISABLE
    };
    VFlags::GLOBAL | writable | no_execute
}

/// The flags of the direct map: global, writable, never executed.
pub open spec fn direct_vflags() -> u64 {
    VFlags::GLOBAL | VFlags::WRITABLE | VFlags::EXECUTE_DISABLE
}

/// The flags of the frame buffer: global, writable, written through, never executed.
pub open spec fn frame_buffer_vflags() -> u64 {
    VFlags::GLOBAL | VFlags::WRITABLE | VFlags::WRITE_THROUGH | VFlags::EXECUTE_DISABLE
}

/// The ranges that map the kernel's segments: each segment at its own address, then `v_slide`
/// higher, with the flags of its permissions.
pub open spec fn kernel_jobs(maps: Seq<IdentityMap>, v_slide: usize) -> Seq<MapJob> {
    Seq::new(
        2 * maps.len(),
        |j: int|
            {
                let m = maps[j / 2];
                let v = if j % 2 == 0 {
                    m.region.base.0
                } else {
                    (m.region.base.0 + v_slide) as usize
                };
                (m.region.base, VAddr(v), m.region.pages, vflags_of(m.flags.0))
            },
    )
}

/// The ranges of the direct map: the top-level table's page at `page_table_phys`, then each
/// region, each `offset` above its physical address.
pub open spec fn direct_jobs(page_table_phys: PAddr, regions: Seq<MemoryRegion>, offset: usize) -> Seq<MapJob> {
    Seq::new(
        regions.len() + 1,
        |j: int|
            if j == 0 {
                (page_table_phys, VAddr((page_table_phys.0 + offset) as usize), 1usize, direct_vflags())
            } else {
                let g = regions[j - 1];
                (g.base, VAddr((g.base.0 + offset) as usize), g.pages, direct_vflags())
            },
    )
}

/// The segment `map` is mapped at its own address and `v_slide` higher.
pub open spec fn segment_mapped(m: Map<u64, u64>, map: IdentityMap, v_slide: usize) -> bool {
    let base = map.region.base.0 as int;
    &&& range_mapped(m, base, base, map.region.pages as int, vflags_of(map.flags.0))
    &&& range_mapped(m, base, base + v_slide, map.region.pages as int, vflags_of(map.flags.0))
}

/// The region is mapped `offset` above its physical address with the direct-map flags.
pub open spec fn region_mapped(m: Map<u64, u64>, region: MemoryRegion, offset: usize) -> bool {
    range_mapped(m, region.base.0 as int, region.base.0 + offset, region.pages as int, direct_vflags())
}

/// Maps each of the kernel's segments `maps` at its own address and `v_slide` higher, with
/// the flags of `identity_map_vflags`; stops at the first page that fails with its error
/// (see `jobs_outcome` over `kernel_jobs`). Every entry present before stays, and so does the
/// recursive slot.
pub fn map_kernel_segments<T: VirtualMapper2>(
    builder: &mut VirtualMapBuilder<T>,
    maps: &[IdentityMap],
    v_slide: usize,
) -> (r: Result<(), VirtualMapError>)
    requires
        forall|i: int|
            0 <= i < maps@.len() ==> (#[trigger] maps@[i]).region.base.0 + v_slide + maps@[i].region.pages
                * PAGE_SIZE <= usize::MAX,
    ensures
        final(builder).recursion_index == old(builder).recursion_index,
        final(builder).mapper == old(builder).mapper,
        jobs_outcome(
            old(builder).mapper,
            old(builder).tables@,
            final(builder).tables@,
            old(builder).recursion_index,
            kernel_jobs(maps@, v_slide),
            r,
        ),
        keeps_present(old(builder).tables@, final(builder).tables@),
        old(builder).recursion_index < 512 ==> entry_at(
            final(builder).tables@,
            pml4_key(old(builder).recursion_index as u64),
        ) == entry_at(old(builder).tables@, pml4_key(old(builder).recursion_index as u64)),
        r is Ok ==> forall|i: int|
            0 <= i < maps@.len() ==> segment_mapped(final(builder).tables@, #[trigger] maps@[i], v_slide),
{
    let ghost want = kernel_jobs(maps@, v_slide);
    let mut jobs: Vec<MapJob> = Vec::new();
    let mut i: usize = 0;
    while i < maps.len()
        invariant
            i <= maps@.len(),
            want == kernel_jobs(maps@, v_slide),
            forall|j: int|
                0 <= j < maps@.len() ==> (#[trigger] maps@[j]).region.base.0 + v_slide + maps@[j].region.pages
                    * PAGE_SIZE <= usize::MAX,
            jobs@.len() == 2 * i,
            forall|j: int| 0 <= j < 2 * i ==> jobs@[j] == #[trigger] want[j],
        decreases maps@.len() - i,
    {
        let map = maps[i];
        assert(map.region.base.0 + v_slide + map.region.pages * PAGE_SIZE <= usize::MAX);
        let flags = identity_map_vflags(map.flags);
        jobs.push((map.region.base, VAddr(map.region.base.0), map.region.pages, flags));
        jobs.push((map.region.base, VAddr(map.region.base.0 + v_slide), map.region.pages, flags));
        assert(want[2 * i as int] == (map.region.base, VAddr(map.region.base.0), map.region.pages, flags));
        assert(want[2 * i + 1] == (
            map.region.base,
            VAddr((map.region.base.0 + v_slide) as usize),
            map.region.pages,
            flags,
        ));
        i = i + 1;
    }
    assert(jobs@ =~= want);
    assert forall|j: int| 0 <= j < jobs@.len() implies job_fits(#[trigger] jobs@[j]) by {
        let m = maps@[j / 2];
        assert(m.region.base.0 + v_slide + m.region.pages * PAGE_SIZE <= usize::MAX);
    }
    let r = builder.tables.map_ranges(builder.recursion_index, jobs.as_slice(), &builder.mapper);
    proof {
        if r is Ok {
            assert forall|i: int| 0 <= i < maps@.len() implies segment_mapped(
                builder.tables@,
                #[trigger] maps@[i],
                v_slide,
            ) by {
                assert(job_mapped(builder.tables@, jobs@[2 * i]));
                assert(job_mapped(builder.tables@, jobs@[2 * i + 1]));
            }
        }
    }
    r
}

/// Maps the top-level table at `page_table_phys` and every region of `regions` at `offset`
/// above its physical address, global, writable and never executed; stops at the first page
/// that fails with its error (see `jobs_outcome` over `direct_jobs`). Every entry present
/// before stays, and so does the recursive slot.
pub fn map_direct<T: VirtualMapper2>(
    builder: &mut VirtualMapBuilder<T>,
    page_table_phys: PAddr,
    regions: &[MemoryRegion],
    offset: usize,
) -> (r: Result<(), VirtualMapError>)
    requires
        page_table_phys.0 + offset + PAGE_SIZE <= usize::MAX,
        forall|i: int|
            0 <= i < regions@.len() ==> (#[trigger] regions@[i]).base.0 + offset + regions@[i].pages * PAGE_SIZE
                <= usize::MAX,
    ensures
        final(builder).recursion_index == old(builder).recursion_index,
        final(builder).mapper == old(builder).mapper,
        jobs_outcome(
            old(builder).mapper,
            old(builder).tables@,
            final(builder).tables@,
            old(builder).recursion_index,
            direct_jobs(page_table_phys, regions@, offset),
            r,
        ),
        keeps_present(old(builder).tables@, final(builder).tables@),
        old(builder).recursion_index < 512 ==> entry_at(
            final(builder).tables@,
            pml4_key(old(builder).recursion_index as u64),
        ) == entry_at(old(builder).tables@, pml4_key(old(builder).recursion_index as u64)),
        r is Ok ==> region_mapped(
            final(builder).tables@,
            MemoryRegion { base: page_table_phys, pages: 1 },
            offset,
        ),
        r is Ok ==> forall|i: int|
            0 <= i < regions@.len() ==> region_mapped(final(builder).tables@, #[trigger] regions@[i], offset),
{
    let ghost want = direct_jobs(page_table_phys, regions@, offset);
    let flags = VFlags::GLOBAL | VFlags::WRITABLE | VFlags::EXECUTE_DISABLE;
    let mut jobs: Vec<MapJob> = Vec::new();
    jobs.push((page_table_phys, VAddr(page_table_phys.0 + offset), 1, flags));
    let mut i: usize = 0;
    while i < regions.len()
        invariant
            i <= regions@.len(),
            flags == direct_vflags(),
            want == direct_jobs(page_table_phys, regions@, offset),
            page_table_phys.0 + offset + PAGE_SIZE <= usize::MAX,
            forall|j: int|
                0 <= j < regions@.len() ==> (#[trigger] regions@[j]).base.0 + offset + regions@[j].pages
                    * PAGE_SIZE <= usize::MAX,
            jobs@.len() == i + 1,
            forall|j: int| 0 <= j < i + 1 ==> jobs@[j] == #[trigger] want[j],
        decreases regions@.len() - i,
    {
        let region = regions[i];
        assert(region.base.0 + offset + region.pages * PAGE_SIZE <= usize::MAX);
        jobs.push((region.base, VAddr(region.base.0 + offset), region.pages, flags));
        assert(want[i + 1] == (region.base, VAddr((region.base.0 + offset) as usize), region.pages, flags));
        i = i + 1;
    }
    assert(jobs@ =~= want);
    assert forall|j: int| 0 <= j < jobs@.len() implies job_fits(#[trigger] jobs@[j]) by {
        if j > 0 {
            let g = regions@[j - 1];
            assert(g.base.0 + offset + g.pages * PAGE_SIZE <= usize::MAX);
        }
    }
    let r = builder.tables.map_ranges(builder.recursion_index, jobs.as_slice(), &builder.mapper);
    proof {
        if r is Ok {
            assert(job_mapped(builder.tables@, jobs@[0]));
            assert forall|i: int| 0 <= i < regions@.len() implies region_mapped(
                builder.tables@,
                #[trigger] regions@[i],
                offset,
            ) by {
                assert(job_mapped(builder.tables@, jobs@[i + 1]));
            }
        }
    }
    r
}

/// `x` rounded up to a multiple of the page size.
pub open spec fn round_up_page(x: int) -> int {
    if x % 4096 == 0 {
        x
    } else {
        x + 4096 - x % 4096
    }
}

/// The first page of the frame buffer of `fb_size` bytes at `fb_phys`, and the number of pages
/// it spans: the fewest whole pages that cover it.
pub fn frame_buffer_span(fb_phys: usize, fb_size: usize) -> (r: (PAddr, usize))
    requires
        fb_phys + fb_size + 4095 <= usize::MAX,
    ensures
        r.0.0 == fb_phys - fb_phys % 4096,
        r.1 == (round_up_page(fb_phys + fb_size) - (fb_phys - fb_phys % 4096)) / 4096,
        r.0.0 + r.1 * 4096 == round_up_page(fb_phys + fb_size),
{
    let base = fb_phys - fb_phys % 4096;
    let sum = fb_phys + fb_size;
    let end = if sum % 4096 == 0 {
        sum
    } else {
        sum + (4096 - sum % 4096)
    };
    assert(end % 4096 == 0);
    assert(base % 4096 == 0);
    assert((end - base) % 4096 == 0) by {
        vstd::arithmetic::div_mod::lemma_sub_mod_noop(end as int, base as int, 4096);
    }
    assert(((end - base) / 4096) * 4096 == end - base) by {
        vstd::arithmetic::div_mod::lemma_fundamental_div_mod((end - base) as int, 4096);
    }
    (PAddr(base), (end - base) / 4096)
}

/// The frame buffer as the kernel draws on it: its geometry, and the virtual address of its
/// first byte.
#[derive(Clone, Copy, PartialEq, Eq, Structural)]
pub struct FrameBuffer {
    pub width: usize,
    pub height: usize,
    pub stride: usize,
    pub format: PixelFormat,
    pub address: usize,
}

/// Maps the pages of the frame buffer described by `info` at `direct_map_offset` above their
/// physical addresses, global, writable, written through and never executed (see
/// `range_outcome`), and hands on the frame buffer at its mapped address.
pub fn map_frame_buffer<T: VirtualMapper2>(
    map: &mut VirtualMap,
    info: GraphicsInfo,
    direct_map_offset: usize,
    new_page_table: &T,
) -> (r: Result<FrameBuffer, VirtualMapError>)
    requires
        info.frame_buffer.0 + info.frame_buffer_size + 4096 + direct_map_offset <= usize::MAX,
    ensures
        final(map).mapper == old(map).mapper,
        ({
            let fb = info.frame_buffer.0 as int;
            let base = fb - fb % 4096;
            let pages = (round_up_page(fb + info.frame_buffer_size) - base) / 4096;
            let res = match r {
                Ok(_) => Ok(()),
                Err(e) => Err(e),
            };
            range_outcome(
                *new_page_table,
                old(map).tables@,
                final(map).tables@,
                old(map).mapper.recursion_index,
                base,
                base + direct_map_offset,
                pages,
                frame_buffer_vflags(),
                res,
            )
        }),
        r matches Ok(f) ==> f == (FrameBuffer {
            width: info.w,
            height: info.h,
            stride: info.stride,
            format: info.pixel_format,
            address: (info.frame_buffer.0 + direct_map_offset) as usize,
        }),
{
    let (base, pages) = frame_buffer_span(info.frame_buffer.0, info.frame_buffer_size);
    let flags = VFlags::GLOBAL | VFlags::WRITABLE | VFlags::WRITE_THROUGH | VFlags::EXECUTE_DISABLE;
    let res = map.map_range(base, VAddr(base.0 + direct_map_offset), pages, flags, new_page_table);
    match res {
        Ok(u) => {
            assert(u == ());
            assert(res == Ok::<(), VirtualMapError>(u));
            Ok(
                FrameBuffer {
                    width: info.w,
                    height: info.h,
                    stride: info.stride,
                    format: info.pixel_format,
                    address: info.frame_buffer.0 + direct_map_offset,
                },
            )
        },
        Err(e) => {
            assert(res == Err::<(), VirtualMapError>(e));
            Err(e)
        },
    }
}

/// An identity map with permission bits `bits` (executable 1, writable 2, readable 4) is
/// mapped global, writable exactly when it is writable, never executed exactly when it is not
/// executable, and with no other flag.
pub proof fn lemma_vflags_of_permissions(bits: u8)
    ensures
        vflags_of(bits) & 0x100u64 != 0,
        (vflags_of(bits) & 0x2u64 != 0) <==> (bits & 2u8 != 0),
        (vflags_of(bits) & 0x8000_0000_0000_0000u64 != 0) <==> (bits & 1u8 == 0),
        vflags_of(bits) & !0x8000_0000_0000_0102u64 == 0,
{
    assert(VFlags::GLOBAL == 0x100u64 && VFlags::WRITABLE == 0x2u64 && VFlags::EXECUTE_DISABLE
        == 0x8000_0000_0000_0000u64) by (bit_vector);
    let v = vflags_of(bits);
    assert(v == 0x100u64 | (if bits & 2u8 == 2u8 { 0x2u64 } else { 0u64 }) | (if bits & 1u8 == 1u8 {
        0u64
    } else {
        0x8000_0000_0000_0000u64
    }));
    assert({
        let w = 0x100u64 | (if bits & 2u8 == 2u8 { 0x2u64 } else { 0u64 }) | (if bits & 1u8 == 1u8 {
            0u64
        } else {
            0x8000_0000_0000_0000u64
        });
        &&& w & 0x100u64 != 0
        &&& (w & 0x2u64 != 0) == (bits & 2u8 != 0)
        &&& (w & 0x8000_0000_0000_0000u64 != 0) == (bits & 1u8 == 0)
        &&& w & !0x8000_0000_0000_0102u64 == 0
    }) by (bit_vector);
}

} // verus!
