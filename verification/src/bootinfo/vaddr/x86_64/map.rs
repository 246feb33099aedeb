//! The four levels of page tables as one map from the place of each entry in the tree to the
//! entry, and the mapping of a single page into them.
use vstd::prelude::*;
use vstd::hash_map::HashMapWithView;
use crate::bootinfo::paddr::PAddr;
use crate::bootinfo::vaddr::x86_64::phys::{Entry, NodeEntry, PdEntry, PdLeafEntry, PdptEntry, PdptLeafEntry, PtEntry};
use crate::bootinfo::vaddr::x86_64::virt::{parts_of, VAddr, VirtualMapper2};

verus! {

broadcast use vstd::std_specs::hash::group_hash_axioms;

/// Flags of a mapping, each at the bit of the page-table entry that it sets.
pub struct VFlags;

impl VFlags {
    pub const WRITABLE: u64 = 1 << 1;
    pub const WRITE_THROUGH: u64 = 1 << 3;
    pub const CACHE_DISABLED: u64 = 1 << 4;
    pub const GLOBAL: u64 = 1 << 8;
    pub const EXECUTE_DISABLE: u64 = 1 << 63;
}

/// Why a page could not be mapped.
#[derive(Clone, Copy, PartialEq, Eq, Structural)]
pub enum VirtualMapError {
    /// The address lies in the recursive slot of the top-level table.
    Reserved { p_addr: PAddr, v_addr: VAddr },
    /// A missing table could not be had.
    PageTable,
    /// The address is mapped already, to `p_addr_existing`.
    AlreadyMapped { p_addr: PAddr, v_addr: VAddr, p_addr_existing: PAddr },
}

/// The place of an entry: its level (4 for the top-level table down to 1 for a page table),
/// the indices of the path to its table, and its index in that table.
pub open spec fn table_key(level: u64, a: u64, b: u64, c: u64, d: u64) -> u64 {
    (level << 36u64) | (a << 27u64) | (b << 18u64) | (c << 9u64) | d
}

/// Entry `a` of the top-level table.
pub open spec fn pml4_key(a: u64) -> u64 {
    table_key(4, 0, 0, 0, a)
}

/// Entry `b` of the level-3 table under top-level entry `a`.
pub open spec fn pdpt_key(a: u64, b: u64) -> u64 {
    table_key(3, 0, 0, a, b)
}

/// Entry `c` of the page directory under the path `a`, `b`.
pub open spec fn pd_key(a: u64, b: u64, c: u64) -> u64 {
    table_key(2, 0, a, b, c)
}

/// Entry `d` of the page table under the path `a`, `b`, `c`.
pub open spec fn pt_key(a: u64, b: u64, c: u64, d: u64) -> u64 {
    table_key(1, a, b, c, d)
}

/// The entry at `k`; an entry never written reads as 0, not present.
pub open spec fn entry_at(m: Map<u64, u64>, k: u64) -> u64 {
    if m.contains_key(k) {
        m[k]
    } else {
        0
    }
}

/// The entry's present bit is set.
pub open spec fn present(e: u64) -> bool {
    e & Entry::PRESENT != 0
}

/// The entry written to link a fresh table at `pa`: present and writable.
pub open spec fn table_link(pa: u64) -> u64 {
    ((Entry::READ_WRITE | Entry::PRESENT) & !NodeEntry::ADDRESS) | (pa & NodeEntry::ADDRESS)
}

/// The page-table entry that maps the page at `p` with `flags`.
pub open spec fn page_entry(p: u64, flags: u64) -> u64 {
    ((flags | Entry::PRESENT) & !PtEntry::ADDRESS) | (p & PtEntry::ADDRESS)
}

/// The entry at `k` is unchanged, or it was not present and now links the table at an
/// address that `mapper` gave.
pub open spec fn link_kept<T: VirtualMapper2>(mapper: T, old: Map<u64, u64>, new: Map<u64, u64>, k: u64) -> bool {
    ||| entry_at(new, k) == entry_at(old, k)
    ||| !present(entry_at(old, k)) && exists|pa: PAddr|
        #[trigger] mapper.answers(Some(pa)) && entry_at(new, k) == table_link(pa.0 as u64)
}

/// What mapping `v` to `p` with `flags` does to the tables `old`, giving `new` and `r`, with
/// `ri` the recursive slot:
/// - `Reserved` exactly when the top-level index is `ri`, and then nothing changes;
/// - every entry off the path of `v` is unchanged, and each directory entry on it is unchanged
///   or, where it was not present, now links a fresh table;
/// - `Ok` only where the page entry was not present, which now maps `p` with `flags`;
/// - `AlreadyMapped` only where it was present, with the address it held;
/// - `PageTable` only where some directory entry on the path was missing and `mapper`
///   answered `None`; where none was missing, no table is asked for and the outcome is `Ok`
///   or `AlreadyMapped`.
pub open spec fn map_outcome<T: VirtualMapper2>(
    mapper: T,
    old: Map<u64, u64>,
    new: Map<u64, u64>,
    ri: usize,
    p: PAddr,
    v: VAddr,
    flags: u64,
    r: Result<(), VirtualMapError>,
) -> bool {
    let (_, d, c, b, a) = parts_of(v.0 as u64);
    let k4 = pml4_key(a);
    let k3 = pdpt_key(a, b);
    let k2 = pd_key(a, b, c);
    let k1 = pt_key(a, b, c, d);
    let linked = present(entry_at(old, k4)) && present(entry_at(old, k3)) && present(
        entry_at(old, k2),
    );
    &&& (r == Err::<(), VirtualMapError>(VirtualMapError::Reserved { p_addr: p, v_addr: v })) == (a
        == ri)
    &&& a == ri ==> new == old
    &&& a != ri ==> {
        &&& forall|k: u64|
            k != k4 && k != k3 && k != k2 && k != k1 ==> #[trigger] entry_at(new, k) == entry_at(old, k)
        &&& link_kept(mapper, old, new, k4) && link_kept(mapper, old, new, k3) && link_kept(mapper, old, new, k2)
        &&& linked ==> entry_at(new, k4) == entry_at(old, k4) && entry_at(new, k3) == entry_at(old, k3)
            && entry_at(new, k2) == entry_at(old, k2) && r != Err::<(), VirtualMapError>(
            VirtualMapError::PageTable,
        )
        &&& match r {
            Ok(()) => {
                &&& !present(entry_at(old, k1))
                &&& entry_at(new, k1) == page_entry(p.0 as u64, flags)
                &&& present(entry_at(new, k4)) && present(entry_at(new, k3)) && present(entry_at(new, k2))
            },
            Err(VirtualMapError::AlreadyMapped { p_addr, v_addr, p_addr_existing }) => {
                &&& p_addr == p && v_addr == v
                &&& present(entry_at(old, k1))
                &&& p_addr_existing.0 == (entry_at(old, k1) & PtEntry::ADDRESS) as usize
                &&& entry_at(new, k1) == entry_at(old, k1)
                &&& present(entry_at(new, k4)) && present(entry_at(new, k3)) && present(entry_at(new, k2))
            },
            Err(VirtualMapError::PageTable) => !linked && mapper.answers(None) && entry_at(new, k1) == entry_at(old, k1),
            Err(VirtualMapError::Reserved { .. }) => false,
        }
    }
}

/// Entries of different levels have different places.
proof fn lemma_path_keys(a: u64, b: u64, c: u64, d: u64)
    requires
        a < 512,
        b < 512,
        c < 512,
        d < 512,
    ensures
        pml4_key(a) >> 36u64 == 4,
        pdpt_key(a, b) >> 36u64 == 3,
        pd_key(a, b, c) >> 36u64 == 2,
        pt_key(a, b, c, d) >> 36u64 == 1,
{
    assert(((4u64 << 36u64) | (0u64 << 27u64) | (0u64 << 18u64) | (0u64 << 9u64) | a) >> 36u64 == 4u64
        && ((3u64 << 36u64) | (0u64 << 27u64) | (0u64 << 18u64) | (a << 9u64) | b) >> 36u64 == 3u64
        && ((2u64 << 36u64) | (0u64 << 27u64) | (a << 18u64) | (b << 9u64) | c) >> 36u64 == 2u64
        && ((1u64 << 36u64) | (a << 27u64) | (b << 18u64) | (c << 9u64) | d) >> 36u64 == 1u64)
        by (bit_vector)
        requires
            a < 512,
            b < 512,
            c < 512,
            d < 512,
    ;
}

/// A table link and a page entry are present, and a table link is recognised as one.
proof fn lemma_entries_present(pa: u64, p: u64, flags: u64)
    ensures
        present(table_link(pa)),
        present(page_entry(p, flags)),
{
    assert(Entry::PRESENT == 1u64) by (bit_vector);
    assert(Entry::READ_WRITE == 2u64) by (bit_vector);
    assert(NodeEntry::ADDRESS == 0x0008_0000_0000_0000u64) by (bit_vector);
    assert(PtEntry::ADDRESS == 0x0008_0000_0000_0000u64) by (bit_vector);
    assert((((2u64 | 1u64) & !0x0008_0000_0000_0000u64) | (pa & 0x0008_0000_0000_0000u64)) & 1u64 != 0u64
        && (((2u64 | 1u64) & !0x0008_0000_0000_0000u64) | (pa & 0x0008_0000_0000_0000u64))
        & !0x0008_0000_0000_0000u64 == (2u64 | 1u64) & !0x0008_0000_0000_0000u64 && (((flags | 1u64)
        & !0x0008_0000_0000_0000u64) | (p & 0x0008_0000_0000_0000u64)) & 1u64 != 0u64) by (bit_vector);
}

/// Places in the top-level table are told apart by their index, and from the places of
/// entries of the lower levels.
pub proof fn lemma_top_level_key(i: u64, a: u64, b: u64, c: u64, d: u64)
    requires
        i < 512,
        a < 512,
        b < 512,
        c < 512,
        d < 512,
    ensures
        pml4_key(i) == pml4_key(a) ==> i == a,
        pml4_key(i) != pdpt_key(a, b),
        pml4_key(i) != pd_key(a, b, c),
        pml4_key(i) != pt_key(a, b, c, d),
{
    lemma_path_keys(a, b, c, d);
    lemma_path_keys(i, b, c, d);
    assert(((4u64 << 36u64) | (0u64 << 27u64) | (0u64 << 18u64) | (0u64 << 9u64) | i) & 511u64 == i
        && ((4u64 << 36u64) | (0u64 << 27u64) | (0u64 << 18u64) | (0u64 << 9u64) | a) & 511u64 == a)
        by (bit_vector)
        requires
            i < 512,
            a < 512,
    ;
}

/// The place of the page-table entry for the page at `v`.
pub open spec fn page_key(v: u64) -> u64 {
    let (_, d, c, b, a) = parts_of(v);
    pt_key(a, b, c, d)
}

/// The address `i` pages after `base`.
pub open spec fn page_at(base: int, i: int) -> u64 {
    (base + i * 4096) as u64
}

/// Each of the `n` pages from `v` maps the page as far from `p`, with `flags`.
pub open spec fn range_mapped(m: Map<u64, u64>, p: int, v: int, n: int, flags: u64) -> bool {
    forall|i: int|
        0 <= i < n ==> #[trigger] entry_at(m, page_key(page_at(v, i))) == page_entry(page_at(p, i), flags)
}

/// The places on the path of `v`: levels 4 down to 1.
proof fn lemma_path_of(v: u64)
    ensures
        ({
            let (_, d, c, b, a) = parts_of(v);
            &&& a < 512 && b < 512 && c < 512 && d < 512
            &&& pml4_key(a) >> 36u64 == 4 && pdpt_key(a, b) >> 36u64 == 3 && pd_key(a, b, c) >> 36u64 == 2
            &&& pt_key(a, b, c, d) >> 36u64 == 1
        }),
{
    crate::bootinfo::vaddr::lemma_masks_small(v >> 12u64);
    crate::bootinfo::vaddr::lemma_masks_small(v >> 21u64);
    crate::bootinfo::vaddr::lemma_masks_small(v >> 30u64);
    crate::bootinfo::vaddr::lemma_masks_small(v >> 39u64);
    let (_, d, c, b, a) = parts_of(v);
    lemma_path_keys(a, b, c, d);
}

/// Mapping a page leaves the recursive slot `ri` of the top-level table as it was.
pub proof fn lemma_outcome_keeps_slot<T: VirtualMapper2>(
    mapper: T,
    old: Map<u64, u64>,
    new: Map<u64, u64>,
    ri: usize,
    p: PAddr,
    v: VAddr,
    flags: u64,
    r: Result<(), VirtualMapError>,
)
    requires
        map_outcome(mapper, old, new, ri, p, v, flags, r),
        ri < 512,
    ensures
        entry_at(new, pml4_key(ri as u64)) == entry_at(old, pml4_key(ri as u64)),
{
    let (_, d, c, b, a) = parts_of(v.0 as u64);
    lemma_path_of(v.0 as u64);
    lemma_top_level_key(ri as u64, a, b, c, d);
    if a != ri {
        assert(entry_at(new, pml4_key(ri as u64)) == entry_at(old, pml4_key(ri as u64)));
    }
}

/// Every entry present in `old` is unchanged in `new`.
pub open spec fn keeps_present(old: Map<u64, u64>, new: Map<u64, u64>) -> bool {
    forall|k: u64| present(entry_at(old, k)) ==> #[trigger] entry_at(new, k) == entry_at(old, k)
}

/// Mapping a page, whatever the outcome, never changes an entry that was present.
pub proof fn lemma_outcome_keeps_present<T: VirtualMapper2>(
    mapper: T,
    old: Map<u64, u64>,
    new: Map<u64, u64>,
    ri: usize,
    p: PAddr,
    v: VAddr,
    flags: u64,
    r: Result<(), VirtualMapError>,
)
    requires
        map_outcome(mapper, old, new, ri, p, v, flags, r),
    ensures
        keeps_present(old, new),
{
}

/// Keeping every present entry is transitive.
pub proof fn lemma_keeps_present_trans(m1: Map<u64, u64>, m2: Map<u64, u64>, m3: Map<u64, u64>)
    requires
        keeps_present(m1, m2),
        keeps_present(m2, m3),
    ensures
        keeps_present(m1, m3),
{
    assert forall|k: u64| present(entry_at(m1, k)) implies #[trigger] entry_at(m3, k) == entry_at(m1, k) by {
        assert(entry_at(m2, k) == entry_at(m1, k));
        assert(entry_at(m3, k) == entry_at(m2, k));
    }
}

/// A mapped range stays mapped in tables that keep every present entry.
pub proof fn lemma_range_kept(m1: Map<u64, u64>, m2: Map<u64, u64>, p: int, v: int, n: int, flags: u64)
    requires
        range_mapped(m1, p, v, n, flags),
        keeps_present(m1, m2),
    ensures
        range_mapped(m2, p, v, n, flags),
{
    assert forall|i: int| 0 <= i < n implies #[trigger] entry_at(m2, page_key(page_at(v, i))) == page_entry(
        page_at(p, i),
        flags,
    ) by {
        lemma_path_of(page_at(v, i));
        lemma_entries_present(0, page_at(p, i), flags);
        assert(entry_at(m1, page_key(page_at(v, i))) == page_entry(page_at(p, i), flags));
    }
}

/// Mapping a page a second time, after it was mapped to `p`, is refused as already mapped,
/// naming `p` as far as the entry's address bits hold it, and changes nothing.
pub proof fn lemma_map_twice<T: VirtualMapper2>(
    mapper: T,
    m0: Map<u64, u64>,
    m1: Map<u64, u64>,
    m2: Map<u64, u64>,
    ri: usize,
    p: PAddr,
    v: VAddr,
    flags: u64,
    r1: Result<(), VirtualMapError>,
    p2: PAddr,
    flags2: u64,
    r2: Result<(), VirtualMapError>,
)
    requires
        map_outcome(mapper, m0, m1, ri, p, v, flags, r1),
        r1 is Ok,
        map_outcome(mapper, m1, m2, ri, p2, v, flags2, r2),
    ensures
        r2 matches Err(VirtualMapError::AlreadyMapped { p_addr, v_addr, p_addr_existing }) && p_addr == p2
            && v_addr == v && p_addr_existing.0 == ((p.0 as u64) & PtEntry::ADDRESS) as usize,
        forall|k: u64| #[trigger] entry_at(m2, k) == entry_at(m1, k),
{
    crate::bootinfo::vaddr::x86_64::phys::lemma_mask_update(flags | Entry::PRESENT, p.0 as u64, PtEntry::ADDRESS);
    lemma_entries_present(0, p.0 as u64, flags);
}

/// `k` is the place of a directory entry on the path of the page at `v`.
pub open spec fn dir_on_path(k: u64, v: u64) -> bool {
    let (_, d, c, b, a) = parts_of(v);
    k == pml4_key(a) || k == pdpt_key(a, b) || k == pd_key(a, b, c)
}

/// The entry at `k` now links the table at an address that `mapper` gave.
pub open spec fn links_answer<T: VirtualMapper2>(mapper: T, new: Map<u64, u64>, k: u64) -> bool {
    exists|pa: PAddr| #[trigger] mapper.answers(Some(pa)) && entry_at(new, k) == table_link(pa.0 as u64)
}

/// Every entry that differs between `old` and `new` was not present and is now, and it is
/// either the page entry of one of the first `i` pages from `v`, or a directory entry on the
/// path of one of them that links a table at an address that `mapper` gave. No other entry
/// changes.
pub open spec fn range_frame<T: VirtualMapper2>(mapper: T, old: Map<u64, u64>, new: Map<u64, u64>, v: int, i: int) -> bool {
    forall|k: u64|
        #[trigger] entry_at(new, k) != entry_at(old, k) ==> {
            &&& !present(entry_at(old, k))
            &&& present(entry_at(new, k))
            &&& (exists|j: int| 0 <= j < i && k == page_key(#[trigger] page_at(v, j))) || ((exists|j: int|
                0 <= j < i && dir_on_path(k, #[trigger] page_at(v, j))) && links_answer(mapper, new, k))
        }
}

/// As `range_frame`, for the first `i` ranges of `jobs`.
pub open spec fn jobs_frame<T: VirtualMapper2>(
    mapper: T,
    old: Map<u64, u64>,
    new: Map<u64, u64>,
    jobs: Seq<MapJob>,
    i: int,
) -> bool {
    forall|k: u64|
        #[trigger] entry_at(new, k) != entry_at(old, k) ==> {
            &&& !present(entry_at(old, k))
            &&& present(entry_at(new, k))
            &&& (exists|j: int, q: int|
                0 <= j < i && 0 <= q < jobs[j].2 && k == page_key(#[trigger] page_at(jobs[j].1.0 as int, q)))
                || ((exists|j: int, q: int|
                0 <= j < i && 0 <= q < jobs[j].2 && dir_on_path(k, #[trigger] page_at(jobs[j].1.0 as int, q)))
                && links_answer(mapper, new, k))
        }
}

/// Mapping `n` pages from `v` to `p` with `flags` stopped at page `i`: `mid` holds the
/// tables after the first `i` pages, which were all mapped, none lying in the recursive slot
/// `ri`, no present entry changed, and no entry changed off their paths (`range_frame`); then either
/// every page is done and the result is `Ok`, or page `i` failed with the result, as
/// `map_outcome` says from `mid` to `new`.
pub open spec fn range_stopped_at<T: VirtualMapper2>(
    mapper: T,
    old: Map<u64, u64>,
    new: Map<u64, u64>,
    ri: usize,
    p: int,
    v: int,
    n: int,
    flags: u64,
    r: Result<(), VirtualMapError>,
    i: int,
    mid: Map<u64, u64>,
) -> bool {
    &&& 0 <= i <= n
    &&& range_mapped(mid, p, v, i, flags)
    &&& keeps_present(old, mid)
    &&& forall|j: int| 0 <= j < i ==> parts_of(#[trigger] page_at(v, j)).4 != ri
    &&& range_frame(mapper, old, mid, v, i)
    &&& if i == n {
        r is Ok && new == mid
    } else {
        r is Err && map_outcome(
            mapper,
            mid,
            new,
            ri,
            PAddr(page_at(p, i) as usize),
            VAddr(page_at(v, i) as usize),
            flags,
            r,
        )
    }
}

/// What mapping `n` pages from `v` to `p` with `flags`, page after page, does to `old`,
/// giving `new` and `r`: it stops at some page, as `range_stopped_at` says.
pub open spec fn range_outcome<T: VirtualMapper2>(
    mapper: T,
    old: Map<u64, u64>,
    new: Map<u64, u64>,
    ri: usize,
    p: int,
    v: int,
    n: int,
    flags: u64,
    r: Result<(), VirtualMapError>,
) -> bool {
    exists|i: int, mid: Map<u64, u64>| #[trigger] range_stopped_at(mapper, old, new, ri, p, v, n, flags, r, i, mid)
}

/// A range to map: `.2` pages from the virtual address `.1` to as many from the physical
/// address `.0`, with flags `.3`.
pub type MapJob = (PAddr, VAddr, usize, u64);

/// The range fits below `usize::MAX` at both ends.
pub open spec fn job_fits(j: MapJob) -> bool {
    j.0.0 + j.2 * 4096 <= usize::MAX && j.1.0 + j.2 * 4096 <= usize::MAX
}

/// Every page of the range is mapped in `m`.
pub open spec fn job_mapped(m: Map<u64, u64>, j: MapJob) -> bool {
    range_mapped(m, j.0.0 as int, j.1.0 as int, j.2 as int, j.3)
}

/// Mapping ranges one after the other stopped at range `i`: `mid` holds the tables after the
/// first `i` ranges, which were all mapped, none of their pages lying in the recursive slot
/// `ri`, no present entry changed, and no entry changed off their paths (`range_frame`); then either
/// every range is done and the result is `Ok`, or range `i` failed with the result, as
/// `range_outcome` says from `mid` to `new`.
pub open spec fn jobs_stopped_at<T: VirtualMapper2>(
    mapper: T,
    old: Map<u64, u64>,
    new: Map<u64, u64>,
    ri: usize,
    jobs: Seq<MapJob>,
    r: Result<(), VirtualMapError>,
    i: int,
    mid: Map<u64, u64>,
) -> bool {
    &&& 0 <= i <= jobs.len()
    &&& forall|j: int| 0 <= j < i ==> job_mapped(mid, #[trigger] jobs[j])
    &&& keeps_present(old, mid)
    &&& forall|j: int, q: int|
        0 <= j < i && 0 <= q < jobs[j].2 ==> parts_of(#[trigger] page_at(jobs[j].1.0 as int, q)).4 != ri
    &&& jobs_frame(mapper, old, mid, jobs, i)
    &&& if i == jobs.len() {
        r is Ok && new == mid
    } else {
        r is Err && range_outcome(
            mapper,
            mid,
            new,
            ri,
            jobs[i].0.0 as int,
            jobs[i].1.0 as int,
            jobs[i].2 as int,
            jobs[i].3,
            r,
        )
    }
}

/// What mapping the ranges `jobs`, one after the other, does to `old`, giving `new` and `r`:
/// it stops at some range, as `jobs_stopped_at` says.
pub open spec fn jobs_outcome<T: VirtualMapper2>(
    mapper: T,
    old: Map<u64, u64>,
    new: Map<u64, u64>,
    ri: usize,
    jobs: Seq<MapJob>,
    r: Result<(), VirtualMapError>,
) -> bool {
    exists|i: int, mid: Map<u64, u64>| #[trigger] jobs_stopped_at(mapper, old, new, ri, jobs, r, i, mid)
}

/// The place of an entry, computed.
pub(crate) fn key_of(level: u64, a: u64, b: u64, c: u64, d: u64) -> (r: u64)
    ensures
        r == table_key(level, a, b, c, d),
{
    (level << 36u64) | (a << 27u64) | (b << 18u64) | (c << 9u64) | d
}

/// Page tables of four levels, each entry found by its place in the tree (see `table_key`).
/// A table linked in starts with what the map holds at its places, as a fresh page starts
/// with what memory holds; in tables built only through `map_page`, nothing is there, since
/// an entry is written only under a present link.
pub struct PageTables {
    entries: HashMapWithView<u64, u64>,
}

impl View for PageTables {
    type V = Map<u64, u64>;

    closed spec fn view(&self) -> Map<u64, u64> {
        self.entries@
    }
}

impl PageTables {
    /// Tables with no entry present.
    pub fn new() -> (r: Self)
        ensures
            r@ == Map::<u64, u64>::empty(),
    {
        Self { entries: HashMapWithView::new() }
    }

    /// The entry at the place `key`.
    pub fn entry(&self, key: u64) -> (r: u64)
        ensures
            r == entry_at(self@, key),
    {
        match self.entries.get(&key) {
            Some(v) => *v,
            None => 0,
        }
    }

    /// Writes `value` at the place `key`.
    pub fn set(&mut self, key: u64, value: u64)
        ensures
            final(self)@ == old(self)@.insert(key, value),
    {
        self.entries.insert(key, value);
    }

    /// Makes the directory entry at `key` present: kept as it is where it is, otherwise linked
    /// to a table taken from `mapper`. False, with nothing changed, where none could be had.
    fn link<T: VirtualMapper2>(&mut self, key: u64, mapper: &T) -> (r: bool)
        ensures
            present(entry_at(old(self)@, key)) ==> r && final(self)@ == old(self)@,
            !r ==> final(self)@ == old(self)@ && !present(entry_at(old(self)@, key)) && mapper.answers(None),
            r ==> present(entry_at(final(self)@, key)),
            r && !present(entry_at(old(self)@, key)) ==> exists|pa: PAddr|
                #[trigger] mapper.answers(Some(pa)) && final(self)@ == old(self)@.insert(
                    key,
                    table_link(pa.0 as u64),
                ),
    {
        let e = self.entry(key);
        if e & Entry::PRESENT != 0 {
            return true;
        }
        match mapper.new_page_table() {
            None => false,
            Some(pa) => {
                let n = NodeEntry::new(Entry(Entry::READ_WRITE), pa);
                proof {
                    lemma_entries_present(pa.0 as u64, 0, 0);
                }
                self.set(key, n.0);
                assert(mapper.answers(Some(pa)));
                true
            },
        }
    }

    /// Maps the page at `v_addr` to `p_addr` with `flags`, linking a table from `mapper` for
    /// each missing directory on the way; `recursion_index` is the recursive slot of the
    /// top-level table. See `map_outcome`.
    pub fn map_page<T: VirtualMapper2>(
        &mut self,
        recursion_index: usize,
        p_addr: PAddr,
        v_addr: VAddr,
        flags: u64,
        mapper: &T,
    ) -> (r: Result<(), VirtualMapError>)
        ensures
            map_outcome(*mapper, old(self)@, final(self)@, recursion_index, p_addr, v_addr, flags, r),
    {
        let info = v_addr.info();
        if info.pml4_index == recursion_index {
            return Err(VirtualMapError::Reserved { p_addr, v_addr });
        }
        let a = info.pml4_index as u64;
        let b = info.pdpt_index as u64;
        let c = info.pd_index as u64;
        let d = info.pt_index as u64;
        let k4 = key_of(4, 0, 0, 0, a);
        let k3 = key_of(3, 0, 0, a, b);
        let k2 = key_of(2, 0, a, b, c);
        let k1 = key_of(1, a, b, c, d);
        proof {
            lemma_path_keys(a, b, c, d);
            lemma_entries_present(0, p_addr.0 as u64, flags);
        }
        let ghost m0 = self@;
        if !self.link(k4, mapper) {
            return Err(VirtualMapError::PageTable);
        }
        let ghost m4 = self@;
        let e3 = self.entry(k3);
        if !self.link(k3, mapper) {
            return Err(VirtualMapError::PageTable);
        }
        if e3 & Entry::PRESENT != 0 && PdptEntry(e3).is_leaf() {
            return Err(
                VirtualMapError::AlreadyMapped {
                    p_addr,
                    v_addr,
                    p_addr_existing: PdptLeafEntry(e3).addr(),
                },
            );
        }
        let ghost m3 = self@;
        let e2 = self.entry(k2);
        if !self.link(k2, mapper) {
            return Err(VirtualMapError::PageTable);
        }
        if e2 & Entry::PRESENT != 0 && PdEntry(e2).is_leaf() {
            return Err(
                VirtualMapError::AlreadyMapped {
                    p_addr,
                    v_addr,
                    p_addr_existing: PdLeafEntry(e2).addr(),
                },
            );
        }
        let ghost m2 = self@;
        let e1 = self.entry(k1);
        if e1 & Entry::PRESENT != 0 {
            return Err(
                VirtualMapError::AlreadyMapped { p_addr, v_addr, p_addr_existing: PtEntry(e1).addr() },
            );
        }
        let n = PtEntry::new(Entry(flags), p_addr);
        self.set(k1, n.0);
        Ok(())
    }

    /// Maps `pages` pages from `v_addr` to as many from `p_addr`, one after the other with
    /// `map_page`, and stops at the first that fails with its error (see `range_outcome`).
    pub fn map_range<T: VirtualMapper2>(
        &mut self,
        recursion_index: usize,
        p_addr: PAddr,
        v_addr: VAddr,
        pages: usize,
        flags: u64,
        mapper: &T,
    ) -> (r: Result<(), VirtualMapError>)
        requires
            p_addr.0 + pages * 4096 <= usize::MAX,
            v_addr.0 + pages * 4096 <= usize::MAX,
        ensures
            range_outcome(
                *mapper,
                old(self)@,
                final(self)@,
                recursion_index,
                p_addr.0 as int,
                v_addr.0 as int,
                pages as int,
                flags,
                r,
            ),
            r is Ok ==> range_mapped(final(self)@, p_addr.0 as int, v_addr.0 as int, pages as int, flags),
            pages == 0 ==> r is Ok && final(self)@ == old(self)@,
            keeps_present(old(self)@, final(self)@),
            recursion_index < 512 ==> entry_at(final(self)@, pml4_key(recursion_index as u64)) == entry_at(
                old(self)@,
                pml4_key(recursion_index as u64),
            ),
    {
        let ghost p = p_addr.0 as int;
        let ghost v = v_addr.0 as int;
        let mut i: usize = 0;
        while i < pages
            invariant
                i <= pages,
                p == p_addr.0,
                v == v_addr.0,
                p_addr.0 + pages * 4096 <= usize::MAX,
                v_addr.0 + pages * 4096 <= usize::MAX,
                range_mapped(self@, p, v, i as int, flags),
                pages == 0 ==> self@ == old(self)@,
                keeps_present(old(self)@, self@),
                forall|j: int| 0 <= j < i ==> parts_of(#[trigger] page_at(v, j)).4 != recursion_index,
                range_frame(*mapper, old(self)@, self@, v, i as int),
                recursion_index < 512 ==> entry_at(self@, pml4_key(recursion_index as u64)) == entry_at(
                    old(self)@,
                    pml4_key(recursion_index as u64),
                ),
            decreases pages - i,
        {
            assert(i * 4096 <= pages * 4096) by (nonlinear_arith)
                requires
                    i < pages,
            ;
            let pi = PAddr(p_addr.0 + i * 4096);
            let vi = VAddr(v_addr.0 + i * 4096);
            assert(vi.0 as u64 == page_at(v, i as int));
            assert(pi.0 as u64 == page_at(p, i as int));
            assert(pi == PAddr(page_at(p, i as int) as usize));
            assert(vi == VAddr(page_at(v, i as int) as usize));
            let ghost before = self@;
            let step = self.map_page(recursion_index, pi, vi, flags, mapper);
            proof {
                if recursion_index < 512 {
                    lemma_outcome_keeps_slot(*mapper, before, self@, recursion_index, pi, vi, flags, step);
                }
                lemma_outcome_keeps_present(*mapper, before, self@, recursion_index, pi, vi, flags, step);
                lemma_keeps_present_trans(old(self)@, before, self@);
            }
            if step.is_err() {
                assert(range_stopped_at(*mapper, old(self)@, self@, recursion_index, p, v, pages as int, flags, step, i as int, before));
                return step;
            }
            proof {
                let (_, d, c, b, a) = parts_of(vi.0 as u64);
                lemma_path_of(vi.0 as u64);
                lemma_entries_present(0, pi.0 as u64, flags);
                assert forall|j: int| 0 <= j < i + 1 implies #[trigger] entry_at(
                    self@,
                    page_key(page_at(v, j)),
                ) == page_entry(page_at(p, j), flags) by {
                    if j < i {
                        let kj = page_key(page_at(v, j));
                        lemma_path_of(page_at(v, j));
                        lemma_entries_present(0, page_at(p, j), flags);
                        assert(entry_at(before, kj) == page_entry(page_at(p, j), flags));
                        assert(kj != pt_key(a, b, c, d));
                        assert(entry_at(self@, kj) == entry_at(before, kj));
                    }
                }
                assert forall|j: int| 0 <= j < i + 1 implies parts_of(#[trigger] page_at(v, j)).4 != recursion_index by {
                }
                assert forall|k: u64| #[trigger] entry_at(self@, k) != entry_at(old(self)@, k) implies {
                    &&& !present(entry_at(old(self)@, k))
                    &&& present(entry_at(self@, k))
                    &&& (exists|j: int| 0 <= j < i + 1 && k == page_key(#[trigger] page_at(v, j))) || ((exists|j: int|
                        0 <= j < i + 1 && dir_on_path(k, #[trigger] page_at(v, j))) && links_answer(*mapper, self@, k))
                } by {
                    if entry_at(before, k) != entry_at(old(self)@, k) {
                        assert(present(entry_at(before, k)));
                        assert(entry_at(self@, k) == entry_at(before, k));
                        if exists|j: int| 0 <= j < i && k == page_key(#[trigger] page_at(v, j)) {
                            let j = choose|j: int| 0 <= j < i && k == page_key(#[trigger] page_at(v, j));
                            assert(0 <= j < i + 1 && k == page_key(page_at(v, j)));
                        } else {
                            let j = choose|j: int| 0 <= j < i && dir_on_path(k, #[trigger] page_at(v, j));
                            assert(0 <= j < i + 1 && dir_on_path(k, page_at(v, j)));
                            let pa = choose|pa: PAddr| #[trigger] mapper.answers(Some(pa)) && entry_at(before, k)
                                == table_link(pa.0 as u64);
                            assert(mapper.answers(Some(pa)) && entry_at(self@, k) == table_link(pa.0 as u64));
                        }
                    } else {
                        assert(entry_at(self@, k) != entry_at(before, k));
                        let vi64 = page_at(v, i as int);
                        if k == pt_key(a, b, c, d) {
                            assert(k == page_key(vi64));
                        } else {
                            assert(k == pml4_key(a) || k == pdpt_key(a, b) || k == pd_key(a, b, c));
                            assert(dir_on_path(k, vi64));
                            let pa = choose|pa: PAddr| #[trigger] mapper.answers(Some(pa)) && entry_at(self@, k)
                                == table_link(pa.0 as u64);
                            lemma_entries_present(pa.0 as u64, 0, 0);
                        }
                    }
                }
            }
            i = i + 1;
        }
        assert(range_stopped_at(*mapper, old(self)@, self@, recursion_index, p, v, pages as int, flags, Ok(()), pages as int, self@));
        Ok(())
    }

    /// Maps the ranges `jobs` one after the other with `map_range`, and stops at the first
    /// that fails with its error (see `jobs_outcome`).
    pub fn map_ranges<T: VirtualMapper2>(&mut self, recursion_index: usize, jobs: &[MapJob], mapper: &T) -> (r: Result<
        (),
        VirtualMapError,
    >)
        requires
            forall|j: int| 0 <= j < jobs@.len() ==> job_fits(#[trigger] jobs@[j]),
        ensures
            jobs_outcome(*mapper, old(self)@, final(self)@, recursion_index, jobs@, r),
            r is Ok ==> forall|j: int| 0 <= j < jobs@.len() ==> job_mapped(final(self)@, #[trigger] jobs@[j]),
            keeps_present(old(self)@, final(self)@),
            recursion_index < 512 ==> entry_at(final(self)@, pml4_key(recursion_index as u64)) == entry_at(
                old(self)@,
                pml4_key(recursion_index as u64),
            ),
    {
        let mut i: usize = 0;
        while i < jobs.len()
            invariant
                i <= jobs@.len(),
                forall|j: int| 0 <= j < jobs@.len() ==> job_fits(#[trigger] jobs@[j]),
                forall|j: int| 0 <= j < i ==> job_mapped(self@, #[trigger] jobs@[j]),
                keeps_present(old(self)@, self@),
                forall|j: int, q: int|
                    0 <= j < i && 0 <= q < jobs@[j].2 ==> parts_of(#[trigger] page_at(jobs@[j].1.0 as int, q)).4
                        != recursion_index,
                jobs_frame(*mapper, old(self)@, self@, jobs@, i as int),
                recursion_index < 512 ==> entry_at(self@, pml4_key(recursion_index as u64)) == entry_at(
                    old(self)@,
                    pml4_key(recursion_index as u64),
                ),
            decreases jobs@.len() - i,
        {
            let job = jobs[i];
            assert(job_fits(jobs@[i as int]));
            let ghost before = self@;
            let step = self.map_range(recursion_index, job.0, job.1, job.2, job.3, mapper);
            proof {
                lemma_keeps_present_trans(old(self)@, before, self@);
            }
            if step.is_err() {
                assert(jobs_stopped_at(*mapper, old(self)@, self@, recursion_index, jobs@, step, i as int, before));
                return step;
            }
            proof {
                let (ii, mid) = choose|ii: int, mid: Map<u64, u64>|
                    #[trigger] range_stopped_at(
                        *mapper,
                        before,
                        self@,
                        recursion_index,
                        job.0.0 as int,
                        job.1.0 as int,
                        job.2 as int,
                        job.3,
                        step,
                        ii,
                        mid,
                    );
                assert(ii == job.2 as int && mid == self@);
                assert forall|j: int| 0 <= j < i + 1 implies job_mapped(self@, #[trigger] jobs@[j]) by {
                    if j < i {
                        let jj = jobs@[j];
                        lemma_range_kept(before, self@, jj.0.0 as int, jj.1.0 as int, jj.2 as int, jj.3);
                    }
                }
                assert forall|j: int, q: int|
                    0 <= j < i + 1 && 0 <= q < jobs@[j].2 implies parts_of(
                        #[trigger] page_at(jobs@[j].1.0 as int, q),
                    ).4 != recursion_index by {
                    if j == i {
                        assert(parts_of(page_at(job.1.0 as int, q)).4 != recursion_index);
                    }
                }
                assert forall|k: u64| #[trigger] entry_at(self@, k) != entry_at(old(self)@, k) implies {
                    &&& !present(entry_at(old(self)@, k))
                    &&& present(entry_at(self@, k))
                    &&& (exists|j: int, q: int|
                        0 <= j < i + 1 && 0 <= q < jobs@[j].2 && k == page_key(
                            #[trigger] page_at(jobs@[j].1.0 as int, q),
                        )) || ((exists|j: int, q: int|
                        0 <= j < i + 1 && 0 <= q < jobs@[j].2 && dir_on_path(
                            k,
                            #[trigger] page_at(jobs@[j].1.0 as int, q),
                        )) && links_answer(*mapper, self@, k))
                } by {
                    if entry_at(before, k) != entry_at(old(self)@, k) {
                        assert(present(entry_at(before, k)));
                        assert(entry_at(self@, k) == entry_at(before, k));
                        if exists|j: int, q: int|
                            0 <= j < i && 0 <= q < jobs@[j].2 && k == page_key(
                                #[trigger] page_at(jobs@[j].1.0 as int, q),
                            ) {
                            let (j, q) = choose|j: int, q: int|
                                0 <= j < i && 0 <= q < jobs@[j].2 && k == page_key(
                                    #[trigger] page_at(jobs@[j].1.0 as int, q),
                                );
                            assert(0 <= j < i + 1 && 0 <= q < jobs@[j].2 && k == page_key(page_at(jobs@[j].1.0 as int, q)));
                        } else {
                            let (j, q) = choose|j: int, q: int|
                                0 <= j < i && 0 <= q < jobs@[j].2 && dir_on_path(
                                    k,
                                    #[trigger] page_at(jobs@[j].1.0 as int, q),
                                );
                            assert(0 <= j < i + 1 && 0 <= q < jobs@[j].2 && dir_on_path(k, page_at(jobs@[j].1.0 as int, q)));
                            let pa = choose|pa: PAddr| #[trigger] mapper.answers(Some(pa)) && entry_at(before, k)
                                == table_link(pa.0 as u64);
                            assert(mapper.answers(Some(pa)) && entry_at(self@, k) == table_link(pa.0 as u64));
                        }
                    } else {
                        assert(entry_at(self@, k) != entry_at(before, k));
                        assert(range_frame(*mapper, before, self@, job.1.0 as int, job.2 as int));
                        if exists|q: int| 0 <= q < job.2 && k == page_key(#[trigger] page_at(job.1.0 as int, q)) {
                            let q = choose|q: int| 0 <= q < job.2 && k == page_key(#[trigger] page_at(job.1.0 as int, q));
                            assert(0 <= i < i + 1 && 0 <= q < jobs@[i as int].2 && k == page_key(
                                page_at(jobs@[i as int].1.0 as int, q),
                            ));
                        } else {
                            let q = choose|q: int| 0 <= q < job.2 && dir_on_path(k, #[trigger] page_at(job.1.0 as int, q));
                            assert(0 <= i < i + 1 && 0 <= q < jobs@[i as int].2 && dir_on_path(
                                k,
                                page_at(jobs@[i as int].1.0 as int, q),
                            ));
                        }
                    }
                }
            }
            i = i + 1;
        }
        assert(jobs_stopped_at(*mapper, old(self)@, self@, recursion_index, jobs@, Ok(()), jobs@.len() as int, self@));
        Ok(())
    }
}

} // verus!
