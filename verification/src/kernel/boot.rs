//! Boot-time planning of the kernel: handing out pages from the boot loader's memory
//! regions, the higher-half slide, the direct map, and the placement of the buddy trees
//! of the physical page allocator.
use vstd::prelude::*;
use crate::PAGE_SIZE;
use crate::bootinfo::{MemoryRegion, IdentityMap};
use crate::bootinfo::paddr::PAddr;
use crate::kernel::allocator::tree::{AllocTree, AllocTreeLayout, TreeAllocError, round_up_8, tree_layout_unpadded};
use crate::kernel::allocator::tree_math::{pw, aligned};
use crate::kernel::allocator::tree_spec::{first_free_order, alloc_lists};
use crate::kernel::allocator::PHYS_ALLOC_ALIGNMENT;
use crate::num::{ilog2, log2_floor};

verus! {

/// Base of the higher half, where the kernel runs once paging is set up.
pub const HIGHER_HALF_ADDRESS_BASE: u64 = 0xffff_8000_0000_0000;

/// Every region ends at or below `usize::MAX`.
pub open spec fn regions_fit(s: Seq<MemoryRegion>) -> bool {
    forall|i: int| 0 <= i < s.len() ==> (#[trigger] s[i]).base.0 + s[i].pages * PAGE_SIZE <= usize::MAX
}

/// The page `take_head` hands out and the regions left: the last page of the head region,
/// and when the head is exhausted, the last page of the last available region, which
/// becomes the head.
pub open spec fn take_head_spec(available: Seq<MemoryRegion>, head: MemoryRegion) -> (Option<usize>, Seq<MemoryRegion>, MemoryRegion)
    decreases available.len(),
{
    if head.pages == 0 {
        if available.len() == 0 {
            (None, available, head)
        } else {
            take_head_spec(available.drop_last(), available.last())
        }
    } else {
        (
            Some((head.base.0 + (head.pages - 1) * PAGE_SIZE) as usize),
            available,
            MemoryRegion { base: head.base, pages: (head.pages - 1) as usize },
        )
    }
}

/// The free memory regions from the boot loader, handed out one page at a time from the
/// end of the last region.
pub struct MemoryRegions<'a> {
    pub available: &'a [MemoryRegion],
    pub head: MemoryRegion,
}

impl<'a> MemoryRegions<'a> {
    /// The last region of `source` becomes the head.
    pub fn new(source: &'a [MemoryRegion]) -> (r: Self)
        requires
            source@.len() >= 1,
        ensures
            r.available@ == source@.drop_last(),
            r.head == source@.last(),
    {
        let n = source.len();
        let available = &source[0..n - 1];
        assert(available@ =~= source@.drop_last());
        Self { available, head: source[n - 1] }
    }

    /// Takes the last page of the last region that still has one.
    pub fn take_head(&mut self) -> (r: Option<PAddr>)
        requires
            regions_fit(old(self).available@),
            old(self).head.base.0 + old(self).head.pages * PAGE_SIZE <= usize::MAX,
        ensures
            ({
                let (page, avail, head) = take_head_spec(old(self).available@, old(self).head);
                &&& r == (match page {
                    Some(p) => Some(PAddr(p)),
                    None => None,
                })
                &&& final(self).available@ == avail
                &&& final(self).head == head
            }),
            regions_fit(final(self).available@),
            final(self).head.base.0 + final(self).head.pages * PAGE_SIZE <= usize::MAX,
    {
        loop
            invariant
                regions_fit(self.available@),
                self.head.base.0 + self.head.pages * PAGE_SIZE <= usize::MAX,
                take_head_spec(self.available@, self.head) == take_head_spec(old(self).available@, old(self).head),
            decreases self.available@.len(),
        {
            if self.head.pages == 0 {
                let n = self.available.len();
                if n == 0 {
                    return None;
                }
                let head = self.available[n - 1];
                let rest = &self.available[0..n - 1];
                proof {
                    assert(rest@ =~= self.available@.drop_last());
                    assert(self.available@[n - 1] == head);
                }
                self.available = rest;
                self.head = head;
            } else {
                let n = self.head.pages;
                self.head.pages = n - 1;
                proof {
                    assert((n - 1) * PAGE_SIZE <= n * PAGE_SIZE) by (nonlinear_arith)
                        requires
                            n >= 1,
                    ;
                }
                return Some(self.head.base.byte_add((n - 1) * PAGE_SIZE));
            }
        }
    }
}


/// The lowest base among the identity maps: where the kernel image starts.
pub fn kernel_base(maps: &[IdentityMap]) -> (r: PAddr)
    requires
        maps@.len() >= 1,
    ensures
        exists|i: int| 0 <= i < maps@.len() && r == maps@[i].region.base,
        forall|i: int| 0 <= i < maps@.len() ==> r.0 <= (#[trigger] maps@[i]).region.base.0,
{
    let mut best = maps[0].region.base;
    let mut i: usize = 1;
    while i < maps.len()
        invariant
            1 <= i <= maps@.len(),
            exists|j: int| 0 <= j < i && best == maps@[j].region.base,
            forall|j: int| 0 <= j < i ==> best.0 <= (#[trigger] maps@[j]).region.base.0,
        decreases maps@.len() - i,
    {
        if maps[i].region.base.0 < best.0 {
            best = maps[i].region.base;
        }
        i = i + 1;
    }
    best
}

/// Distance from the kernel's physical base to the higher half.
pub fn higher_half_slide(kernel_base: PAddr) -> (r: u64)
    requires
        kernel_base.0 <= HIGHER_HALF_ADDRESS_BASE,
    ensures
        r == HIGHER_HALF_ADDRESS_BASE - kernel_base.0,
{
    HIGHER_HALF_ADDRESS_BASE - kernel_base.0 as u64
}

/// End of the higher-half copy of an identity map.
pub open spec fn slid_end(map: IdentityMap, v_slide: u64) -> int {
    map.region.base.0 + v_slide + map.region.pages * PAGE_SIZE
}

/// `x` rounded up to a multiple of `2^31` (2 GiB).
pub open spec fn round_up_2g(x: int) -> int {
    if x % 0x8000_0000 == 0 {
        x
    } else {
        x + 0x8000_0000 - x % 0x8000_0000
    }
}

/// The offset at which all of physical memory is mapped: the highest end of the higher-half
/// copies of the identity maps, rounded up to a multiple of `2 << 30`.
pub fn direct_map_offset(maps: &[IdentityMap], v_slide: u64) -> (r: u64)
    requires
        forall|i: int| 0 <= i < maps@.len() ==> round_up_2g(slid_end(#[trigger] maps@[i], v_slide)) <= u64::MAX,
    ensures
        exists|x: int| #![trigger round_up_2g(x)] {
            &&& (x == 0 || exists|i: int| 0 <= i < maps@.len() && x == slid_end(maps@[i], v_slide))
            &&& forall|i: int| 0 <= i < maps@.len() ==> slid_end(#[trigger] maps@[i], v_slide) <= x
            &&& r == round_up_2g(x)
        },
{
    let mut offset: u64 = 0;
    let mut i: usize = 0;
    while i < maps.len()
        invariant
            i <= maps@.len(),
            forall|j: int| 0 <= j < maps@.len() ==> round_up_2g(slid_end(#[trigger] maps@[j], v_slide)) <= u64::MAX,
            offset == 0 || exists|j: int| 0 <= j < i && offset == slid_end(maps@[j], v_slide),
            forall|j: int| 0 <= j < i ==> slid_end(#[trigger] maps@[j], v_slide) <= offset,
        decreases maps@.len() - i,
    {
        let m = maps[i];
        proof {
            assert(round_up_2g(slid_end(maps@[i as int], v_slide)) <= u64::MAX);
            assert((m.region.pages as int) * (PAGE_SIZE as int) <= u64::MAX);
        }
        let end = m.region.base.0 as u64 + v_slide + m.region.pages as u64 * PAGE_SIZE as u64;
        if end > offset {
            offset = end;
        }
        i = i + 1;
    }
    proof {
        if offset != 0 {
            let j = choose|j: int| 0 <= j < maps@.len() && offset == slid_end(maps@[j], v_slide);
            assert(round_up_2g(slid_end(maps@[j], v_slide)) <= u64::MAX);
        }
    }
    let rem = offset % 0x8000_0000;
    let r = if rem == 0 {
        offset
    } else {
        offset + (0x8000_0000 - rem)
    };
    assert(r == round_up_2g(offset as int));
    r
}


/// `x` rounded down to a multiple of [`PHYS_ALLOC_ALIGNMENT`].
pub open spec fn align_down(x: int) -> int {
    x - x % (PHYS_ALLOC_ALIGNMENT as int)
}

/// Number of pages that `bytes` bytes take, rounded up.
pub open spec fn pages_for(bytes: int) -> int {
    bytes / (PAGE_SIZE as int) + if bytes % (PAGE_SIZE as int) != 0 { 1int } else { 0int }
}

/// One buddy tree placed inside a memory region: the address of its first page, where its
/// metadata goes, its order, and how many of its first pages are reserved because they are
/// below the region or hold the metadata.
pub type PlannedTree = (int, int, int, Option<int>);

/// `r` with `p` put in front, where `r` is a plan.
pub open spec fn prepend(p: PlannedTree, r: Option<Seq<PlannedTree>>) -> Option<Seq<PlannedTree>> {
    match r {
        Some(rest) => Some(seq![p] + rest),
        None => None,
    }
}

/// `r` after `prefix`, where `r` is a plan.
pub open spec fn after(prefix: Seq<PlannedTree>, r: Option<Seq<PlannedTree>>) -> Option<Seq<PlannedTree>> {
    match r {
        Some(rest) => Some(prefix + rest),
        None => None,
    }
}

/// The trees that the kernel builds over the usable range `[us, ue)`, trying the aligned
/// range `[ts, te)`: a tree of the largest power of two of pages that fits from `ts`, with its
/// metadata after the end of the usable range when there is room there, else at its start,
/// else retried with `te` halfway down; `None` where the kernel would panic.
#[verifier::opaque]
pub open spec fn plan_spec(us: int, ue: int, ts: int, te: int) -> Option<Seq<PlannedTree>>
    decreases ue - ts, te - ts,
{
    if !(0 <= ts && te <= ue && ue <= usize::MAX) {
        None
    } else if ts >= te {
        Some(Seq::empty())
    } else {
        let count = (te - ts) / (PAGE_SIZE as int);
        if count == 0 {
            None
        } else {
            let m = log2_floor(count as nat) as int;
            if tree_layout_unpadded(m) > isize::MAX - 7 {
                None
            } else {
                let meta_pages = pages_for(round_up_8(tree_layout_unpadded(m)));
                let tea = ts + pw(m) * (PAGE_SIZE as int);
                if !(ts < tea <= te) {
                    None
                } else if (ue - tea) / (PAGE_SIZE as int) >= meta_pages {
                    let ue2 = ue - meta_pages * (PAGE_SIZE as int);
                    let ghost_pages = if us - ts > 0 { Some((us - ts) / (PAGE_SIZE as int)) } else { None };
                    prepend((ts, ue2, m, ghost_pages), plan_spec(us, ue2, tea, align_down(ue2)))
                } else if tea < us {
                    None
                } else if (tea - us) / (PAGE_SIZE as int) >= meta_pages {
                    if us + meta_pages * (PAGE_SIZE as int) < ts {
                        None
                    } else {
                        let ghost_pages = Some((us + meta_pages * (PAGE_SIZE as int) - ts) / (PAGE_SIZE as int));
                        prepend((ts, us, m, ghost_pages), plan_spec(us, ue, tea, align_down(ue)))
                    }
                } else {
                    plan_spec(us, ue, ts, te - (te - ts) / 2)
                }
            }
        }
    }
}

/// What holds at one step of the planning: the aligned range is not empty and holds a tree
/// of order `m` whose metadata takes `meta` pages.
pub open spec fn step_ok(ue: int, ts: int, te: int, m: int, meta: int) -> bool {
    &&& 0 <= ts < te <= ue <= usize::MAX
    &&& (te - ts) / (PAGE_SIZE as int) > 0
    &&& m == log2_floor(((te - ts) / (PAGE_SIZE as int)) as nat)
    &&& tree_layout_unpadded(m) <= isize::MAX - 7
    &&& meta == pages_for(round_up_8(tree_layout_unpadded(m)))
    &&& ts < ts + pw(m) * (PAGE_SIZE as int) <= te
}

proof fn lemma_plan_empty(us: int, ue: int, ts: int, te: int)
    requires
        0 <= ts,
        te <= ue <= usize::MAX,
        ts >= te,
    ensures
        plan_spec(us, ue, ts, te) == Some(Seq::<PlannedTree>::empty()),
{
    reveal(plan_spec);
}

proof fn lemma_plan_fails(us: int, ue: int, ts: int, te: int)
    requires
        0 <= ts < te <= ue <= usize::MAX,
        ({
            let count = (te - ts) / (PAGE_SIZE as int);
            let m = log2_floor(count as nat) as int;
            ||| count == 0
            ||| tree_layout_unpadded(m) > isize::MAX - 7
            ||| {
                let meta = pages_for(round_up_8(tree_layout_unpadded(m)));
                let tea = ts + pw(m) * (PAGE_SIZE as int);
                &&& step_ok(ue, ts, te, m, meta)
                &&& (ue - tea) / (PAGE_SIZE as int) < meta
                &&& (tea < us || ((tea - us) / (PAGE_SIZE as int) >= meta && us + meta * (PAGE_SIZE as int) < ts))
            }
        }),
    ensures
        plan_spec(us, ue, ts, te) is None,
{
    reveal(plan_spec);
}

proof fn lemma_plan_right(us: int, ue: int, ts: int, te: int, m: int, meta: int)
    requires
        step_ok(ue, ts, te, m, meta),
        (ue - (ts + pw(m) * (PAGE_SIZE as int))) / (PAGE_SIZE as int) >= meta,
    ensures
        ({
            let ue2 = ue - meta * (PAGE_SIZE as int);
            let ghost_pages = if us - ts > 0 { Some((us - ts) / (PAGE_SIZE as int)) } else { None };
            plan_spec(us, ue, ts, te) == prepend(
                (ts, ue2, m, ghost_pages),
                plan_spec(us, ue2, ts + pw(m) * (PAGE_SIZE as int), align_down(ue2)),
            )
        }),
{
    reveal(plan_spec);
}

proof fn lemma_plan_left(us: int, ue: int, ts: int, te: int, m: int, meta: int)
    requires
        step_ok(ue, ts, te, m, meta),
        (ue - (ts + pw(m) * (PAGE_SIZE as int))) / (PAGE_SIZE as int) < meta,
        ts + pw(m) * (PAGE_SIZE as int) >= us,
        (ts + pw(m) * (PAGE_SIZE as int) - us) / (PAGE_SIZE as int) >= meta,
        us + meta * (PAGE_SIZE as int) >= ts,
    ensures
        ({
            let ghost_pages = Some((us + meta * (PAGE_SIZE as int) - ts) / (PAGE_SIZE as int));
            plan_spec(us, ue, ts, te) == prepend(
                (ts, us, m, ghost_pages),
                plan_spec(us, ue, ts + pw(m) * (PAGE_SIZE as int), align_down(ue)),
            )
        }),
{
    reveal(plan_spec);
}

proof fn lemma_plan_halve(us: int, ue: int, ts: int, te: int, m: int, meta: int)
    requires
        step_ok(ue, ts, te, m, meta),
        (ue - (ts + pw(m) * (PAGE_SIZE as int))) / (PAGE_SIZE as int) < meta,
        ts + pw(m) * (PAGE_SIZE as int) >= us,
        (ts + pw(m) * (PAGE_SIZE as int) - us) / (PAGE_SIZE as int) < meta,
    ensures
        plan_spec(us, ue, ts, te) == plan_spec(us, ue, ts, te - (te - ts) / 2),
{
    reveal(plan_spec);
}

proof fn lemma_after_prepend(prefix: Seq<PlannedTree>, p: PlannedTree, r: Option<Seq<PlannedTree>>)
    ensures
        after(prefix, prepend(p, r)) == after(prefix.push(p), r),
{
    match r {
        Some(rest) => {
            assert(prefix + (seq![p] + rest) =~= prefix.push(p) + rest);
        },
        None => {},
    }
}

/// A buddy tree to build inside a memory region.
#[derive(Clone, Copy)]
pub struct TreePlan {
    /// Physical address of the first page the tree manages.
    pub tree_start: usize,
    /// Physical address where the tree's metadata goes.
    pub meta_start: usize,
    /// Layout of the metadata.
    pub layout: AllocTreeLayout,
    /// Number of the tree's first pages to reserve.
    pub ghost_pages: Option<usize>,
}

/// The trees of a plan follow one another from `start`: each begins where the one before it
/// ends.
pub open spec fn trees_follow(plans: Seq<PlannedTree>, start: int) -> bool {
    forall|i: int|
        0 <= i < plans.len() ==> (#[trigger] plans[i]).0 == if i == 0 {
            start
        } else {
            plans[i - 1].0 + pw(plans[i - 1].2) * (PAGE_SIZE as int)
        }
}

/// Where the last tree of a plan ends; `start` for an empty plan.
pub open spec fn plan_end(plans: Seq<PlannedTree>, start: int) -> int {
    if plans.len() == 0 {
        start
    } else {
        plans.last().0 + pw(plans.last().2) * (PAGE_SIZE as int)
    }
}

/// Planning places the trees one after the other from the start `ts` of the aligned range,
/// each of a positive order or none, the last one ending at or below the end `ue` of the
/// usable range: the trees of a region never overlap.
pub proof fn lemma_plan_contiguous(us: int, ue: int, ts: int, te: int)
    ensures
        plan_spec(us, ue, ts, te) matches Some(p) ==> {
            &&& trees_follow(p, ts)
            &&& ts <= plan_end(p, ts)
            &&& p.len() > 0 ==> plan_end(p, ts) <= ue
            &&& forall|i: int| 0 <= i < p.len() ==> (#[trigger] p[i]).2 >= 0
        },
    decreases ue - ts, te - ts,
{
    if !(0 <= ts && te <= ue && ue <= usize::MAX) {
        assert(plan_spec(us, ue, ts, te) is None) by {
            reveal(plan_spec);
        }
    } else if ts >= te {
        lemma_plan_empty(us, ue, ts, te);
    } else {
        let count = (te - ts) / (PAGE_SIZE as int);
        let m = log2_floor(count as nat) as int;
        let meta = pages_for(round_up_8(tree_layout_unpadded(m)));
        let tea = ts + pw(m) * (PAGE_SIZE as int);
        if count == 0 || tree_layout_unpadded(m) > isize::MAX - 7 {
            lemma_plan_fails(us, ue, ts, te);
        } else if !(ts < tea <= te) {
            assert(plan_spec(us, ue, ts, te) is None) by {
                reveal(plan_spec);
            }
        } else {
            assert(step_ok(ue, ts, te, m, meta));
            if (ue - tea) / (PAGE_SIZE as int) >= meta {
                let ue2 = ue - meta * (PAGE_SIZE as int);
                let ghost_pages = if us - ts > 0 { Some((us - ts) / (PAGE_SIZE as int)) } else { None };
                lemma_plan_right(us, ue, ts, te, m, meta);
                lemma_plan_contiguous(us, ue2, tea, align_down(ue2));
                lemma_prepend_follows((ts, ue2, m, ghost_pages), plan_spec(us, ue2, tea, align_down(ue2)), ue);
            } else if tea < us || ((tea - us) / (PAGE_SIZE as int) >= meta && us + meta * (PAGE_SIZE as int) < ts) {
                lemma_plan_fails(us, ue, ts, te);
            } else if (tea - us) / (PAGE_SIZE as int) >= meta {
                let ghost_pages = Some((us + meta * (PAGE_SIZE as int) - ts) / (PAGE_SIZE as int));
                lemma_plan_left(us, ue, ts, te, m, meta);
                lemma_plan_contiguous(us, ue, tea, align_down(ue));
                lemma_prepend_follows((ts, us, m, ghost_pages), plan_spec(us, ue, tea, align_down(ue)), ue);
            } else {
                lemma_plan_halve(us, ue, ts, te, m, meta);
                lemma_plan_contiguous(us, ue, ts, te - (te - ts) / 2);
            }
        }
    }
}

/// A tree put in front of a plan that follows from the tree's end.
proof fn lemma_prepend_follows(t: PlannedTree, r: Option<Seq<PlannedTree>>, ue: int)
    requires
        t.2 >= 0,
        t.0 + pw(t.2) * (PAGE_SIZE as int) <= ue,
        t.0 < t.0 + pw(t.2) * (PAGE_SIZE as int),
        r matches Some(rest) ==> {
            &&& trees_follow(rest, t.0 + pw(t.2) * (PAGE_SIZE as int))
            &&& t.0 + pw(t.2) * (PAGE_SIZE as int) <= plan_end(rest, t.0 + pw(t.2) * (PAGE_SIZE as int))
            &&& rest.len() > 0 ==> plan_end(rest, t.0 + pw(t.2) * (PAGE_SIZE as int)) <= ue
            &&& forall|i: int| 0 <= i < rest.len() ==> (#[trigger] rest[i]).2 >= 0
        },
    ensures
        prepend(t, r) matches Some(p) ==> {
            &&& trees_follow(p, t.0)
            &&& t.0 <= plan_end(p, t.0)
            &&& p.len() > 0 ==> plan_end(p, t.0) <= ue
            &&& forall|i: int| 0 <= i < p.len() ==> (#[trigger] p[i]).2 >= 0
        },
{
    if let Some(rest) = r {
        let p = seq![t] + rest;
        let tea = t.0 + pw(t.2) * (PAGE_SIZE as int);
        assert forall|i: int| 0 <= i < p.len() implies (#[trigger] p[i]).0 == if i == 0 {
            t.0
        } else {
            p[i - 1].0 + pw(p[i - 1].2) * (PAGE_SIZE as int)
        } by {
            if i >= 1 {
                assert(p[i] == rest[i - 1]);
                assert(rest[i - 1].0 == if i - 1 == 0 {
                    tea
                } else {
                    rest[i - 2].0 + pw(rest[i - 2].2) * (PAGE_SIZE as int)
                });
                if i >= 2 {
                    assert(p[i - 1] == rest[i - 2]);
                }
            }
        }
        assert forall|i: int| 0 <= i < p.len() implies (#[trigger] p[i]).2 >= 0 by {
            if i >= 1 {
                assert(p[i] == rest[i - 1]);
            }
        }
        if rest.len() > 0 {
            assert(p.last() == rest.last());
        }
    }
}

/// The view of a plan that [`plan_spec`] describes.
pub open spec fn plan_view(p: TreePlan) -> PlannedTree {
    (p.tree_start as int, p.meta_start as int, p.layout.order(), match p.ghost_pages {
        Some(g) => Some(g as int),
        None => None,
    })
}

/// The views of a sequence of plans.
pub open spec fn plans_view(s: Seq<TreePlan>) -> Seq<PlannedTree> {
    s.map_values(|p: TreePlan| plan_view(p))
}

/// The plan could not be made: the kernel would panic on this region.
#[derive(Clone, Copy, PartialEq, Eq, Structural)]
pub struct PlanError;

proof fn lemma_align_down(x: usize)
    ensures
        (x & !((PHYS_ALLOC_ALIGNMENT - 1) as usize)) == align_down(x as int),
        align_down(x as int) <= x,
{
    assert((x & !0x1ffffusize) == x - x % 0x20000usize) by (bit_vector);
}

/// Places the buddy trees over the usable region of `pages` pages from `base`, trees
/// starting at multiples of [`PHYS_ALLOC_ALIGNMENT`].
pub fn plan_region(base: usize, pages: usize) -> (r: Result<Vec<TreePlan>, PlanError>)
    requires
        base + pages * PAGE_SIZE <= usize::MAX,
    ensures
        ({
            let ue = base + pages * PAGE_SIZE;
            match r {
                Ok(v) => plan_spec(base as int, ue, align_down(base as int), align_down(ue)) == Some(plans_view(v@)),
                Err(_) => plan_spec(base as int, ue, align_down(base as int), align_down(ue)) is None,
            }
        }),
{
    let usable_start = base;
    let mut usable_end = base + pages * PAGE_SIZE;
    proof {
        lemma_align_down(usable_start);
        lemma_align_down(usable_end);
    }
    let mut tree_start = usable_start & !(PHYS_ALLOC_ALIGNMENT - 1);
    let mut tree_end = usable_end & !(PHYS_ALLOC_ALIGNMENT - 1);
    let ghost outcome = plan_spec(base as int, usable_end as int, tree_start as int, tree_end as int);
    let mut plans: Vec<TreePlan> = Vec::new();
    proof {
        assert(plans_view(plans@) + Seq::<PlannedTree>::empty() =~= Seq::<PlannedTree>::empty());
        match outcome {
            Some(rest) => { assert(Seq::<PlannedTree>::empty() + rest =~= rest); },
            None => {},
        }
    }
    while tree_start < tree_end
        invariant
            usable_start == base,
            tree_end <= usable_end,
            outcome == plan_spec(base as int, base + pages * PAGE_SIZE, align_down(base as int), align_down(base + pages * PAGE_SIZE)),
            outcome == after(plans_view(plans@), plan_spec(base as int, usable_end as int, tree_start as int, tree_end as int)),
        decreases usable_end - tree_start, tree_end - tree_start,
    {
        let count = (tree_end - tree_start) / PAGE_SIZE;
        if count == 0 {
            proof { lemma_plan_fails(base as int, usable_end as int, tree_start as int, tree_end as int); }
            return Err(PlanError);
        }
        let layout = match AllocTree::layout(count) {
            Ok(l) => l,
            Err(_) => {
                proof { lemma_plan_fails(base as int, usable_end as int, tree_start as int, tree_end as int); }
                return Err(PlanError);
            },
        };
        let size = layout.size();
        let meta_pages = size / PAGE_SIZE + if size % PAGE_SIZE != 0 {
            1
        } else {
            0
        };
        proof {
            crate::num::lemma_log2_floor(count as nat);
            assert(pw(layout.order()) * (PAGE_SIZE as int) <= tree_end - tree_start) by (nonlinear_arith)
                requires
                    pw(layout.order()) <= count,
                    count == (tree_end - tree_start) / (PAGE_SIZE as int),
                    tree_end > tree_start,
            {
            }
            crate::kernel::allocator::tree_math::lemma_pw_basics(layout.order());
            if layout.order() >= usize::BITS {
                crate::kernel::allocator::tree_math::lemma_pw_mono(usize::BITS as int, layout.order());
                assert(pw(usize::BITS as int) > usize::MAX) by {
                    vstd::arithmetic::power2::lemma2_to64();
                    vstd::arithmetic::power2::lemma2_to64_rest();
                }
            }
        }
        let node_count = layout.node_count();
        let tree_end_actual = tree_start + node_count * PAGE_SIZE;
        let ghost m = layout.order();
        assert(step_ok(usable_end as int, tree_start as int, tree_end as int, m, meta_pages as int));
        let ghost pv = plans_view(plans@);
        if (usable_end - tree_end_actual) / PAGE_SIZE >= meta_pages {
            proof {
                lemma_plan_right(base as int, usable_end as int, tree_start as int, tree_end as int, m, meta_pages as int);
            }
            usable_end = usable_end - meta_pages * PAGE_SIZE;
            let ghost_pages = if usable_start > tree_start {
                Some((usable_start - tree_start) / PAGE_SIZE)
            } else {
                None
            };
            plans.push(TreePlan { tree_start, meta_start: usable_end, layout, ghost_pages });
        } else if tree_end_actual < usable_start {
            proof { lemma_plan_fails(base as int, usable_end as int, tree_start as int, tree_end as int); }
            return Err(PlanError);
        } else if (tree_end_actual - usable_start) / PAGE_SIZE >= meta_pages {
            proof {
                assert(meta_pages * PAGE_SIZE <= tree_end_actual - usable_start) by (nonlinear_arith)
                    requires
                        (tree_end_actual - usable_start) / (PAGE_SIZE as int) >= meta_pages,
                        tree_end_actual >= usable_start,
                {
                }
            }
            if usable_start + meta_pages * PAGE_SIZE < tree_start {
                proof { lemma_plan_fails(base as int, usable_end as int, tree_start as int, tree_end as int); }
                return Err(PlanError);
            }
            proof {
                lemma_plan_left(base as int, usable_end as int, tree_start as int, tree_end as int, m, meta_pages as int);
            }
            let ghost_pages = Some((usable_start + meta_pages * PAGE_SIZE - tree_start) / PAGE_SIZE);
            plans.push(TreePlan { tree_start, meta_start: usable_start, layout, ghost_pages });
        } else {
            proof {
                lemma_plan_halve(base as int, usable_end as int, tree_start as int, tree_end as int, m, meta_pages as int);
            }
            tree_end = tree_end - (tree_end - tree_start) / 2;
            continue;
        }
        proof {
            assert(plans_view(plans@) =~= pv.push(plan_view(plans@.last())));
            lemma_after_prepend(pv, plan_view(plans@.last()), plan_spec(base as int, usable_end as int, tree_end_actual as int, align_down(usable_end as int)));
            lemma_align_down(usable_end);
        }
        tree_start = tree_end_actual;
        tree_end = usable_end & !(PHYS_ALLOC_ALIGNMENT - 1);
    }
    proof {
        lemma_plan_empty(base as int, usable_end as int, tree_start as int, tree_end as int);
        assert(plans_view(plans@) + Seq::<PlannedTree>::empty() =~= plans_view(plans@));
    }
    Ok(plans)
}

/// The free lists of a tree of order `m` after reserving its first `g` pages, largest blocks
/// first: each step takes a block of the largest power of two of pages not above what is
/// left; `None` where a block could not be had.
pub open spec fn reserve_spec(lists: Seq<Seq<u32>>, m: int, g: nat) -> Option<Seq<Seq<u32>>>
    decreases g,
{
    if g == 0 {
        Some(lists)
    } else {
        let o = log2_floor(g) as int;
        let c = first_free_order(lists, o);
        if o > m || c > m {
            None
        } else {
            proof {
                crate::num::lemma_log2_floor(g);
                crate::kernel::allocator::tree_math::lemma_pw_basics(o);
            }
            reserve_spec(alloc_lists(lists, o, c, lists[c][0] as int), m, (g - pw(o)) as nat)
        }
    }
}

/// Reserves the first `ghost_pages` pages of a tree: the pages below the usable region and
/// those that hold the tree's own metadata. `Err` where a block could not be had.
pub fn reserve_ghost_pages(tree: &mut AllocTree, ghost_pages: usize) -> (r: Result<(), TreeAllocError>)
    requires
        old(tree).wf(),
    ensures
        final(tree).wf(),
        final(tree).order() == old(tree).order(),
        match reserve_spec(old(tree).free_lists(), old(tree).order(), ghost_pages as nat) {
            Some(l) => r is Ok && final(tree).free_lists() == l,
            None => r is Err,
        },
{
    let ghost target = reserve_spec(tree.free_lists(), tree.order(), ghost_pages as nat);
    let ghost m = tree.order();
    let mut left = ghost_pages;
    while left != 0
        invariant
            tree.wf(),
            tree.order() == m,
            m == old(tree).order(),
            target == reserve_spec(old(tree).free_lists(), old(tree).order(), ghost_pages as nat),
            reserve_spec(tree.free_lists(), m, left as nat) == target,
        decreases left,
    {
        let ghost g = left;
        let order = ilog2(left);
        proof {
            crate::num::lemma_log2_floor(left as nat);
            crate::kernel::allocator::tree_math::lemma_pw_basics(order as int);
            if order >= usize::BITS {
                crate::kernel::allocator::tree_math::lemma_pw_mono(usize::BITS as int, order as int);
                assert(pw(usize::BITS as int) > usize::MAX) by {
                    vstd::arithmetic::power2::lemma2_to64();
                    vstd::arithmetic::power2::lemma2_to64_rest();
                }
            }
            vstd::bits::lemma_usize_pow2_no_overflow(order as nat);
            vstd::bits::lemma_usize_shl_is_mul(1, order as usize);
            assert(pw(order as int) == vstd::arithmetic::power2::pow2(order as nat));
        }
        left = left - (1usize << order);
        match tree.allocate(order) {
            Ok(_) => {},
            Err(e) => {
                return Err(e);
            },
        }
    }
    Ok(())
}

/// `pages_for(bytes)` is the fewest whole pages that hold `bytes` bytes.
pub proof fn lemma_pages_for_fewest(bytes: int)
    requires
        bytes >= 0,
    ensures
        pages_for(bytes) * 4096 >= bytes,
        pages_for(bytes) == 0 || (pages_for(bytes) - 1) * 4096 < bytes,
{
    let q = bytes / 4096;
    let r = bytes % 4096;
    vstd::arithmetic::div_mod::lemma_fundamental_div_mod(bytes, 4096);
    assert(bytes == 4096 * q + r);
    if r != 0 {
        assert((q + 1) * 4096 == 4096 * q + 4096) by (nonlinear_arith);
        assert(q * 4096 == 4096 * q) by (nonlinear_arith);
    } else {
        assert(q * 4096 == 4096 * q) by (nonlinear_arith);
        assert((q - 1) * 4096 == 4096 * q - 4096) by (nonlinear_arith);
    }
}

} // verus!
