//! A heap over pages from a [`PageAllocator`]: requests of up to 32 KiB are served from
//! segments of equal slots, one list of segments per size class; larger requests go to the
//! page allocator whole.
use vstd::prelude::*;
use vstd::arithmetic::power2::pow2;
use crate::abi::ALLOC_ALIGNMENT;
use crate::num::{ilog2, log2_floor};
use crate::kernel::allocator::tree_math::{pw, lemma_pw_basics, lemma_pw_mono, lemma_aligned_lower};
use vstd::arithmetic::div_mod::{lemma_fundamental_div_mod, lemma_mod_multiples_basic};
use segment::{Segment, SEGMENT_META_SIZE};

pub mod segment;

verus! {

/// A source of contiguous memory for the heap, in blocks of `2^order` bytes.
///
/// Blocks of up to [`ALLOC_ALIGNMENT`] bytes are aligned to their own size.
pub trait PageAllocator {
    /// What an implementation promises of an answer `r` of `allocate(order)`; by default
    /// nothing. The heap's contracts name through it the order asked for and the answer passed
    /// on, which holds whatever an implementation promises.
    closed spec fn answers(&self, order: u32, r: Option<usize>) -> bool {
        true
    }

    /// What an implementation promises once `dealloc(addr, order)` returns; by default nothing.
    /// The heap's contracts name through it the block and order handed back.
    closed spec fn took_back(&self, addr: usize, order: u32) -> bool {
        true
    }

    /// Allocates a block of `2^order` bytes and returns its address, or `None`.
    fn allocate(&self, order: u32) -> (r: Option<usize>)
        ensures
            self.answers(order, r),
            r matches Some(a) ==> a + pow2(order as nat) <= usize::MAX + 1,
            r matches Some(a) ==> (pow2(order as nat) <= ALLOC_ALIGNMENT ==> (a as nat) % pow2(order as nat) == 0),
    ;

    /// Gives back the block of `2^order` bytes at `addr`.
    fn dealloc(&self, addr: usize, order: u32)
        ensures
            self.took_back(addr, order),
    ;
}


/// Number of size classes served from segments.
pub const BIN_COUNT: usize = 24;

/// Bytes of slots in a segment of micro (at most 128 bytes) slots: one page.
pub const MICRO_CAPACITY: usize = 4096 - SEGMENT_META_SIZE;
/// Bytes of slots in a segment of small (at most 2 KiB) slots: four pages.
pub const SMALL_CAPACITY: usize = 4 * 4096 - SEGMENT_META_SIZE;
/// Bytes of slots in a segment of medium (at most 8 KiB) slots: sixteen pages.
pub const MEDIUM_CAPACITY: usize = 16 * 4096 - SEGMENT_META_SIZE;
/// Bytes of slots in a segment of large (at most 32 KiB) slots: thirty-two pages.
pub const LARGE_CAPACITY: usize = 32 * 4096 - SEGMENT_META_SIZE;

/// The micro size classes.
pub open spec fn micro_sizes() -> Seq<usize> {
    seq![8usize, 16, 24, 32, 48, 64, 96, 128]
}

/// The small size classes.
pub open spec fn small_sizes() -> Seq<usize> {
    seq![192usize, 256, 384, 512, 768, 1024, 1536, 2048]
}

/// The medium size classes.
pub open spec fn medium_sizes() -> Seq<usize> {
    seq![3072usize, 4096, 6144, 8192]
}

/// The large size classes.
pub open spec fn large_sizes() -> Seq<usize> {
    seq![12288usize, 16384, 24576, 32768]
}

/// `i` is where `size` fits best in `sizes`: the first of the smallest entries that are at
/// least `size`.
pub open spec fn best_fit(sizes: Seq<usize>, size: int, i: int) -> bool {
    &&& 0 <= i < sizes.len()
    &&& sizes[i] >= size
    &&& forall|j: int| 0 <= j < sizes.len() && sizes[j] >= size ==> sizes[i] <= #[trigger] sizes[j]
    &&& forall|j: int| 0 <= j < i && sizes[j] >= size ==> sizes[i] < #[trigger] sizes[j]
}

/// The index where `size` fits best in `sizes`.
pub open spec fn best_fit_index(sizes: Seq<usize>, size: int) -> int {
    choose|i: int| best_fit(sizes, size, i)
}

/// Where a request of a given size is served from: a bin of one of the four groups of size
/// classes, by index in the group and with the size of its slots, or the page allocator.
#[derive(Clone, Copy, PartialEq, Eq, Structural)]
pub enum SizeClassify {
    Micro(usize, usize),
    Small(usize, usize),
    Medium(usize, usize),
    Large(usize, usize),
    Huge,
}

/// The bin and slot size for `sizes` and `size`.
pub open spec fn fit_in(sizes: Seq<usize>, size: int) -> (usize, usize) {
    let i = best_fit_index(sizes, size);
    (i as usize, sizes[i])
}

/// Where a request of `size` bytes is served from.
pub open spec fn classify_spec(size: int) -> SizeClassify {
    if size <= 128 {
        SizeClassify::Micro(fit_in(micro_sizes(), size).0, fit_in(micro_sizes(), size).1)
    } else if size <= 2048 {
        SizeClassify::Small(fit_in(small_sizes(), size).0, fit_in(small_sizes(), size).1)
    } else if size <= 8192 {
        SizeClassify::Medium(fit_in(medium_sizes(), size).0, fit_in(medium_sizes(), size).1)
    } else if size <= 32768 {
        SizeClassify::Large(fit_in(large_sizes(), size).0, fit_in(large_sizes(), size).1)
    } else {
        SizeClassify::Huge
    }
}

/// The index in `sizes` of the first of the smallest entries at least `size`.
fn best_fit_in(sizes: &[usize], size: usize) -> (i: usize)
    requires
        exists|j: int| 0 <= j < sizes@.len() && sizes@[j] >= size,
    ensures
        best_fit(sizes@, size as int, i as int),
{
    let mut best: Option<usize> = None;
    let mut k: usize = 0;
    while k < sizes.len()
        invariant
            k <= sizes@.len(),
            match best {
                Some(b) => {
                    &&& b < k
                    &&& sizes@[b as int] >= size
                    &&& forall|j: int| 0 <= j < k && sizes@[j] >= size ==> sizes@[b as int] <= #[trigger] sizes@[j]
                    &&& forall|j: int| 0 <= j < b && sizes@[j] >= size ==> sizes@[b as int] < #[trigger] sizes@[j]
                },
                None => forall|j: int| 0 <= j < k ==> #[trigger] sizes@[j] < size,
            },
        decreases sizes@.len() - k,
    {
        if sizes[k] >= size {
            match best {
                Some(b) => {
                    if sizes[k] - size < sizes[b] - size {
                        best = Some(k);
                    }
                },
                None => {
                    best = Some(k);
                },
            }
        }
        k = k + 1;
    }
    match best {
        Some(b) => b,
        None => {
            proof {
                let j = choose|j: int| 0 <= j < sizes@.len() && sizes@[j] >= size;
                assert(sizes@[j] < size);
            }
            0
        },
    }
}

proof fn lemma_best_fit_unique(sizes: Seq<usize>, size: int, i: int)
    requires
        best_fit(sizes, size, i),
    ensures
        best_fit_index(sizes, size) == i,
{
    let k = best_fit_index(sizes, size);
    assert(best_fit(sizes, size, k));
    if k < i {
        assert(sizes[i] <= sizes[k]);
        assert(sizes[k] <= sizes[i]);
    } else if i < k {
        assert(sizes[k] <= sizes[i]);
        assert(sizes[i] <= sizes[k]);
    }
}

impl SizeClassify {
    /// Where a request of `size` bytes is served from: the size class that fits it best in
    /// the first group whose largest class fits it, or the page allocator past 32 KiB.
    pub fn new(size: usize) -> (r: Self)
        requires
            size > 0,
        ensures
            r == classify_spec(size as int),
            r matches SizeClassify::Micro(i, sc) ==> i < 8 && sc == micro_sizes()[i as int] && sc >= size,
            r matches SizeClassify::Small(i, sc) ==> i < 8 && sc == small_sizes()[i as int] && sc >= size,
            r matches SizeClassify::Medium(i, sc) ==> i < 4 && sc == medium_sizes()[i as int] && sc >= size,
            r matches SizeClassify::Large(i, sc) ==> i < 4 && sc == large_sizes()[i as int] && sc >= size,
            r matches SizeClassify::Micro(i, sc) ==> best_fit(micro_sizes(), size as int, i as int),
            r matches SizeClassify::Small(i, sc) ==> best_fit(small_sizes(), size as int, i as int),
            r matches SizeClassify::Medium(i, sc) ==> best_fit(medium_sizes(), size as int, i as int),
            r matches SizeClassify::Large(i, sc) ==> best_fit(large_sizes(), size as int, i as int),
    {
        if size <= 128 {
            let sizes: [usize; 8] = [8, 16, 24, 32, 48, 64, 96, 128];
            assert(sizes@ == micro_sizes());
            assert(sizes@[7] >= size);
            let i = best_fit_in(&sizes, size);
            proof {
                lemma_best_fit_unique(micro_sizes(), size as int, i as int);
            }
            SizeClassify::Micro(i, sizes[i])
        } else if size <= 2048 {
            let sizes: [usize; 8] = [192, 256, 384, 512, 768, 1024, 1536, 2048];
            assert(sizes@ == small_sizes());
            assert(sizes@[7] >= size);
            let i = best_fit_in(&sizes, size);
            proof {
                lemma_best_fit_unique(small_sizes(), size as int, i as int);
            }
            SizeClassify::Small(i, sizes[i])
        } else if size <= 8192 {
            let sizes: [usize; 4] = [3072, 4096, 6144, 8192];
            assert(sizes@ == medium_sizes());
            assert(sizes@[3] >= size);
            let i = best_fit_in(&sizes, size);
            proof {
                lemma_best_fit_unique(medium_sizes(), size as int, i as int);
            }
            SizeClassify::Medium(i, sizes[i])
        } else if size <= 32768 {
            let sizes: [usize; 4] = [12288, 16384, 24576, 32768];
            assert(sizes@ == large_sizes());
            assert(sizes@[3] >= size);
            let i = best_fit_in(&sizes, size);
            proof {
                lemma_best_fit_unique(large_sizes(), size as int, i as int);
            }
            SizeClassify::Large(i, sizes[i])
        } else {
            SizeClassify::Huge
        }
    }
}


/// `x` rounded up to a multiple of `a`.
pub open spec fn round_up(x: int, a: int) -> int {
    if x % a == 0 {
        x
    } else {
        x + a - x % a
    }
}

/// `x` is a power of two.
pub open spec fn is_pow2(x: int) -> bool {
    exists|k: nat| pow2(k) == x
}

/// Size and alignment of a request after it is made fit to hold a free-list link: the
/// size rounded up to a multiple of 2, the alignment at least 2, the size then rounded up
/// to a multiple of the alignment.
pub open spec fn unionize_spec(size: int, align: int) -> (int, int) {
    let a = if align > 2 { align } else { 2 };
    (round_up(round_up(size, 2), a), a)
}

/// Size and alignment of the request `(size, align)` as the heap serves it.
pub fn unionize(size: usize, align: usize) -> (r: (usize, usize))
    requires
        align > 0,
        round_up(size as int, align as int) <= isize::MAX,
    ensures
        (r.0 as int, r.1 as int) == unionize_spec(size as int, align as int),
{
    assert(size > 0 ==> (size % align == 0 ==> align <= size) && size % align <= size) by (nonlinear_arith)
        requires
            align > 0,
    {
    }
    let size2 = if size % 2 == 0 {
        size
    } else {
        size + 1
    };
    let align2 = if align > 2 {
        align
    } else {
        2
    };
    let padded = if size2 % align2 == 0 {
        size2
    } else {
        size2 + align2 - size2 % align2
    };
    (padded, align2)
}

/// Number of bits of `x`: 0 for 0, else one more than the position of its highest set bit.
pub open spec fn bit_length(x: nat) -> nat {
    if x == 0 {
        0
    } else {
        log2_floor(x) + 1
    }
}

/// Order of the block that a request of `size` bytes takes from the page allocator: the
/// bits of `size - 1`, so that `2^order` is `size` rounded up to a power of two.
pub fn huge_order(size: usize) -> (r: u32)
    requires
        size > 0,
    ensures
        r == bit_length((size - 1) as nat),
{
    if size > 1 {
        ilog2(size - 1) + 1
    } else {
        0
    }
}

/// A request of more than 32 KiB, served by the page allocator: a block of `size` bytes
/// rounded up to a power of two, refused when the alignment is above [`ALLOC_ALIGNMENT`].
pub fn alloc_huge<T: PageAllocator>(page_alloc: &T, size: usize, align: usize) -> (r: Option<usize>)
    requires
        size > 0,
    ensures
        align > ALLOC_ALIGNMENT ==> r is None,
        align <= ALLOC_ALIGNMENT ==> page_alloc.answers(bit_length((size - 1) as nat) as u32, r),
        r matches Some(a) ==> a + pow2(bit_length((size - 1) as nat)) <= usize::MAX + 1,
        r matches Some(a) ==> (pow2(bit_length((size - 1) as nat)) <= ALLOC_ALIGNMENT ==> (a as nat) % pow2(
            bit_length((size - 1) as nat),
        ) == 0),
{
    if align <= ALLOC_ALIGNMENT {
        page_alloc.allocate(huge_order(size))
    } else {
        None
    }
}

/// Gives back a request of more than 32 KiB to the page allocator.
pub fn dealloc_huge<T: PageAllocator>(page_alloc: &T, size: usize, at: usize)
    requires
        size > 0,
    ensures
        page_alloc.took_back(at, bit_length((size - 1) as nat) as u32),
{
    page_alloc.dealloc(at, huge_order(size));
}

/// Slot size of bin `b`: the size classes of the four groups in order.
pub open spec fn bin_class(b: int) -> int {
    (micro_sizes() + small_sizes() + medium_sizes() + large_sizes())[b] as int
}

/// No list of segments names `t` as its first.
pub open spec fn not_head(heads: Seq<Option<usize>>, t: usize) -> bool {
    forall|b: int| 0 <= b < heads.len() ==> #[trigger] heads[b] != Some(t)
}

/// `s` is the first segment whose address is `base`.
pub open spec fn first_at(segs: Seq<Segment>, base: int, s: int) -> bool {
    &&& 0 <= s < segs.len()
    &&& segs[s].base() == base
    &&& forall|j: int| 0 <= j < s ==> #[trigger] segs[j].base() != base
}

/// The first segment whose address is `base`.
pub open spec fn owner(segs: Seq<Segment>, base: int) -> int {
    choose|s: int| first_at(segs, base, s)
}

/// The lists of segments are well formed: each bin's list holds segments of its size class
/// with a free slot, no segment follows two others or follows one while heading a list, and
/// a full segment is in no list.
#[verifier::opaque]
pub open spec fn lists_ok(heads: Seq<Option<usize>>, segs: Seq<Segment>) -> bool {
    &&& heads.len() == BIN_COUNT
    &&& forall|s: int| 0 <= s < segs.len() ==> (#[trigger] segs[s]).wf()
    &&& forall|b: int|
        0 <= b < BIN_COUNT ==> (#[trigger] heads[b] matches Some(h) ==> {
            &&& h < segs.len()
            &&& segs[h as int].free().len() > 0
            &&& segs[h as int].class() == bin_class(b)
        })
    &&& forall|s: int|
        0 <= s < segs.len() ==> ((#[trigger] segs[s]).next() matches Some(t) ==> {
            &&& t < segs.len()
            &&& segs[t as int].free().len() > 0
            &&& segs[t as int].class() == segs[s].class()
            &&& not_head(heads, t)
        })
    &&& forall|s1: int, s2: int|
        0 <= s1 < segs.len() && 0 <= s2 < segs.len() && (#[trigger] segs[s1]).next() is Some
            && (#[trigger] segs[s2]).next() == segs[s1].next() ==> s1 == s2
    &&& forall|s: int| 0 <= s < segs.len() && (#[trigger] segs[s]).free().len() == 0 ==> segs[s].next() is None
}

/// The segment lies on a block of the page allocator of its own size, a power of two, at
/// an address that is a multiple of that size.
pub open spec fn block_aligned(seg: Segment) -> bool {
    &&& is_pow2(seg.capacity() + SEGMENT_META_SIZE)
    &&& seg.base() % (seg.capacity() + SEGMENT_META_SIZE) == 0
}

/// Every segment lies on a block aligned to its size.
pub open spec fn blocks_aligned(segs: Seq<Segment>) -> bool {
    forall|s: int| 0 <= s < segs.len() ==> block_aligned(#[trigger] segs[s])
}

proof fn lemma_blocks_update(segs: Seq<Segment>, s: int, seg: Segment)
    requires
        blocks_aligned(segs),
        0 <= s < segs.len(),
        seg.base() == segs[s].base(),
        seg.capacity() == segs[s].capacity(),
    ensures
        blocks_aligned(segs.update(s, seg)),
{
    assert forall|t: int| 0 <= t < segs.len() implies block_aligned(#[trigger] segs.update(s, seg)[t]) by {
        if t != s {
            assert(segs.update(s, seg)[t] == segs[t]);
        }
    }
}

proof fn lemma_blocks_push(segs: Seq<Segment>, seg: Segment)
    requires
        blocks_aligned(segs),
        block_aligned(seg),
    ensures
        blocks_aligned(segs.push(seg)),
{
    assert forall|t: int| 0 <= t < segs.len() + 1 implies block_aligned(#[trigger] segs.push(seg)[t]) by {
        if t < segs.len() {
            assert(segs.push(seg)[t] == segs[t]);
        }
    }
}

/// What the lists give of one bin and one segment.
proof fn lemma_lists_ok_at(heads: Seq<Option<usize>>, segs: Seq<Segment>, bin: int, s: int)
    requires
        lists_ok(heads, segs),
        0 <= bin < BIN_COUNT,
        0 <= s < segs.len(),
    ensures
        heads.len() == BIN_COUNT,
        segs[s].wf(),
        heads[bin] matches Some(h) ==> h < segs.len() && segs[h as int].free().len() > 0 && segs[h as int].class()
            == bin_class(bin),
        segs[s].next() matches Some(t) ==> t < segs.len() && segs[t as int].free().len() > 0 && segs[t as int].class()
            == segs[s].class() && not_head(heads, t),
        segs[s].free().len() == 0 ==> segs[s].next() is None,
{
    reveal(lists_ok);
}

/// What the lists give of the head of one bin.
proof fn lemma_lists_head(heads: Seq<Option<usize>>, segs: Seq<Segment>, bin: int)
    requires
        lists_ok(heads, segs),
        0 <= bin < BIN_COUNT,
    ensures
        heads.len() == BIN_COUNT,
        heads[bin] matches Some(h) ==> h < segs.len() && segs[h as int].free().len() > 0 && segs[h as int].class()
            == bin_class(bin),
{
    reveal(lists_ok);
}

/// A new segment with a free slot and no next heads an empty bin.
proof fn lemma_lists_push(heads: Seq<Option<usize>>, segs: Seq<Segment>, bin: int, seg: Segment)
    requires
        lists_ok(heads, segs),
        0 <= bin < BIN_COUNT,
        heads[bin] is None,
        segs.len() < usize::MAX,
        seg.wf(),
        seg.free().len() > 0,
        seg.next() is None,
        seg.class() == bin_class(bin),
    ensures
        lists_ok(heads.update(bin, Some(segs.len() as usize)), segs.push(seg)),
{
    reveal(lists_ok);
    let heads2 = heads.update(bin, Some(segs.len() as usize));
    let segs2 = segs.push(seg);
    assert forall|s: int| 0 <= s < segs2.len() implies (#[trigger] segs2[s]).wf() by {
        if s < segs.len() {
            assert(segs2[s] == segs[s]);
        }
    }
    assert forall|b: int|
        0 <= b < BIN_COUNT implies (#[trigger] heads2[b] matches Some(x) ==> {
            &&& x < segs2.len()
            &&& segs2[x as int].free().len() > 0
            &&& segs2[x as int].class() == bin_class(b)
        }) by {
        if b != bin {
            if let Some(x) = heads[b] {
                assert(segs2[x as int] == segs[x as int]);
            }
        }
    }
    assert forall|s: int| 0 <= s < segs2.len() && (#[trigger] segs2[s]).free().len() == 0 implies segs2[s].next() is None by {
        if s < segs.len() {
            assert(segs2[s] == segs[s]);
        }
    }
    assert forall|s: int| 0 <= s < segs2.len() implies ((#[trigger] segs2[s]).next() matches Some(t) ==> {
        &&& t < segs2.len()
        &&& segs2[t as int].free().len() > 0
        &&& segs2[t as int].class() == segs2[s].class()
        &&& not_head(heads2, t)
    }) by {
        if s < segs.len() {
            assert(segs2[s] == segs[s]);
            if let Some(t) = segs[s].next() {
                assert(t < segs.len());
                assert(segs2[t as int] == segs[t as int]);
                assert(not_head(heads, t));
                assert forall|b: int| 0 <= b < heads2.len() implies #[trigger] heads2[b] != Some(t) by {
                    assert(heads[b] != Some(t));
                }
            }
        }
    }
    assert forall|s1: int, s2: int|
        0 <= s1 < segs2.len() && 0 <= s2 < segs2.len() && (#[trigger] segs2[s1]).next() is Some && (#[trigger] segs2[s2]).next()
            == segs2[s1].next() implies s1 == s2 by {
        assert(s1 < segs.len() && s2 < segs.len());
        assert(segs2[s1] == segs[s1] && segs2[s2] == segs[s2]);
    }
}

/// Taking a slot from the segment heading bin `bin`: it stays at the head while it has a
/// free slot left, else the list goes on from its next and it leaves the list.
proof fn lemma_lists_take(heads: Seq<Option<usize>>, segs: Seq<Segment>, bin: int, h: usize, seg: Segment)
    requires
        lists_ok(heads, segs),
        0 <= bin < BIN_COUNT,
        heads[bin] == Some(h),
        seg.wf(),
        seg.class() == segs[h as int].class(),
        seg.free().len() > 0 ==> seg.next() == segs[h as int].next(),
        seg.free().len() == 0 ==> seg.next() is None,
    ensures
        seg.free().len() > 0 ==> lists_ok(heads, segs.update(h as int, seg)),
        seg.free().len() == 0 ==> lists_ok(heads.update(bin, segs[h as int].next()), segs.update(h as int, seg)),
{
    reveal(lists_ok);
    let segs2 = segs.update(h as int, seg);
    let heads2 = if seg.free().len() > 0 { heads } else { heads.update(bin, segs[h as int].next()) };
    assert(h < segs.len());
    // Nothing follows the head of a list.
    assert forall|s: int| 0 <= s < segs.len() implies (#[trigger] segs[s]).next() != Some(h) by {
        if segs[s].next() == Some(h) {
            assert(not_head(heads, h));
            assert(heads[bin] != Some(h));
        }
    }
    assert forall|b: int| 0 <= b < BIN_COUNT implies (#[trigger] heads2[b] matches Some(x) ==> {
        &&& x < segs2.len()
        &&& segs2[x as int].free().len() > 0
        &&& segs2[x as int].class() == bin_class(b)
    }) by {
        if b != bin {
            assert(heads2[b] == heads[b]);
            if let Some(x) = heads[b] {
                if x == h {
                    assert(segs[h as int].class() == bin_class(b));
                }
            }
        } else if seg.free().len() == 0 {
            if let Some(t) = segs[h as int].next() {
                assert(t != h);
            }
        }
    }
    assert forall|s: int| 0 <= s < segs2.len() implies ((#[trigger] segs2[s]).next() matches Some(t) ==> {
        &&& t < segs2.len()
        &&& segs2[t as int].free().len() > 0
        &&& segs2[t as int].class() == segs2[s].class()
        &&& not_head(heads2, t)
    }) by {
        if let Some(t) = segs2[s].next() {
            let s0 = if s == h { h as int } else { s };
            assert(segs[s0].next() == Some(t));
            assert(t != h);
            assert(not_head(heads, t));
            assert forall|b: int| 0 <= b < heads2.len() implies #[trigger] heads2[b] != Some(t) by {
                if b == bin && seg.free().len() == 0 {
                    if heads2[b] == Some(t) {
                        assert(segs[h as int].next() == Some(t));
                        assert(segs[s0].next() == segs[h as int].next());
                        assert(s0 == h);
                        assert(false);
                    }
                } else {
                    assert(heads[b] != Some(t));
                }
            }
        }
    }
    assert forall|s1: int, s2: int|
        0 <= s1 < segs2.len() && 0 <= s2 < segs2.len() && (#[trigger] segs2[s1]).next() is Some && (#[trigger] segs2[s2]).next()
            == segs2[s1].next() implies s1 == s2 by {
        assert(segs[s1].next() == segs2[s1].next());
        assert(segs[s2].next() == segs2[s2].next());
    }
}

/// Freeing a slot of segment `s`: a segment that had a free slot stays where it is.
proof fn lemma_lists_give(heads: Seq<Option<usize>>, segs: Seq<Segment>, s: int, seg: Segment)
    requires
        lists_ok(heads, segs),
        0 <= s < segs.len(),
        segs[s].free().len() > 0,
        seg.wf(),
        seg.free().len() > 0,
        seg.class() == segs[s].class(),
        seg.next() == segs[s].next(),
    ensures
        lists_ok(heads, segs.update(s, seg)),
{
    reveal(lists_ok);
    let segs2 = segs.update(s, seg);
    assert forall|s1: int, s2: int|
        0 <= s1 < segs2.len() && 0 <= s2 < segs2.len() && (#[trigger] segs2[s1]).next() is Some && (#[trigger] segs2[s2]).next()
            == segs2[s1].next() implies s1 == s2 by {
        assert(segs[s1].next() == segs2[s1].next());
        assert(segs[s2].next() == segs2[s2].next());
    }
}

/// Freeing a slot of the full segment `s`: it heads bin `bin` when the bin is empty, else
/// it goes right after the bin's head.
proof fn lemma_lists_resurrect(
    heads: Seq<Option<usize>>,
    segs: Seq<Segment>,
    bin: int,
    s: usize,
    seg: Segment,
    head_seg: Segment,
)
    requires
        lists_ok(heads, segs),
        0 <= bin < BIN_COUNT,
        s < segs.len(),
        segs[s as int].free().len() == 0,
        seg.wf(),
        seg.free().len() > 0,
        seg.class() == segs[s as int].class(),
        seg.class() == bin_class(bin),
        heads[bin] is None ==> seg.next() is None,
        heads[bin] matches Some(h) ==> {
            &&& seg.next() == segs[h as int].next()
            &&& head_seg.wf()
            &&& head_seg.free() == segs[h as int].free()
            &&& head_seg.class() == segs[h as int].class()
            &&& head_seg.next() == Some(s)
        },
    ensures
        heads[bin] is None ==> lists_ok(heads.update(bin, Some(s)), segs.update(s as int, seg)),
        heads[bin] matches Some(h) ==> h != s && lists_ok(heads, segs.update(s as int, seg).update(h as int, head_seg)),
{
    reveal(lists_ok);
    // Nothing follows a full segment, and it heads no list.
    assert forall|x: int| 0 <= x < segs.len() implies (#[trigger] segs[x]).next() != Some(s) by {
        if segs[x].next() == Some(s) {
            assert(segs[s as int].free().len() > 0);
        }
    }
    assert forall|b: int| 0 <= b < heads.len() implies #[trigger] heads[b] != Some(s) by {
        if heads[b] == Some(s) {
            assert(segs[s as int].free().len() > 0);
        }
    }
    match heads[bin] {
        None => {
            let heads2 = heads.update(bin, Some(s));
            let segs2 = segs.update(s as int, seg);
            assert forall|b: int|
                0 <= b < BIN_COUNT implies (#[trigger] heads2[b] matches Some(x) ==> {
                    &&& x < segs2.len()
                    &&& segs2[x as int].free().len() > 0
                    &&& segs2[x as int].class() == bin_class(b)
                }) by {
                if b != bin {
                    assert(heads2[b] == heads[b]);
                }
            }
            assert forall|x: int| 0 <= x < segs2.len() implies ((#[trigger] segs2[x]).next() matches Some(t) ==> {
                &&& t < segs2.len()
                &&& segs2[t as int].free().len() > 0
                &&& segs2[t as int].class() == segs2[x].class()
                &&& not_head(heads2, t)
            }) by {
                if x != s {
                    assert(segs2[x] == segs[x]);
                    if let Some(t) = segs[x].next() {
                        assert(t != s);
                        assert(not_head(heads, t));
                        assert forall|b: int| 0 <= b < heads2.len() implies #[trigger] heads2[b] != Some(t) by {
                            if b != bin {
                                assert(heads2[b] == heads[b]);
                            }
                        }
                    }
                }
            }
            assert forall|s1: int, s2: int|
                0 <= s1 < segs2.len() && 0 <= s2 < segs2.len() && (#[trigger] segs2[s1]).next() is Some && (
                #[trigger] segs2[s2]).next() == segs2[s1].next() implies s1 == s2 by {
                assert(s1 != s && s2 != s);
                assert(segs[s1].next() == segs2[s1].next());
                assert(segs[s2].next() == segs2[s2].next());
            }
        },
        Some(h) => {
            assert(h != s);
            let segs2 = segs.update(s as int, seg).update(h as int, head_seg);
            assert(segs2[h as int] == head_seg);
            assert(segs2[s as int] == seg);
            assert forall|x: int| 0 <= x < segs2.len() implies (#[trigger] segs2[x]).wf() by {
                if x != s && x != h {
                    assert(segs2[x] == segs[x]);
                }
            }
            assert forall|b: int|
                0 <= b < BIN_COUNT implies (#[trigger] heads[b] matches Some(x) ==> {
                    &&& x < segs2.len()
                    &&& segs2[x as int].free().len() > 0
                    &&& segs2[x as int].class() == bin_class(b)
                }) by {
                if let Some(x) = heads[b] {
                    if x != h {
                        assert(x != s);
                        assert(segs2[x as int] == segs[x as int]);
                    }
                }
            }
            assert forall|x: int| 0 <= x < segs2.len() implies ((#[trigger] segs2[x]).next() matches Some(t) ==> {
                &&& t < segs2.len()
                &&& segs2[t as int].free().len() > 0
                &&& segs2[t as int].class() == segs2[x].class()
                &&& not_head(heads, t)
            }) by {
                if x == h {
                    assert(not_head(heads, s));
                } else if x == s {
                    if let Some(t) = seg.next() {
                        assert(segs[h as int].next() == Some(t));
                        assert(t != s && t != h);
                        assert(segs2[t as int] == segs[t as int]);
                    }
                } else {
                    assert(segs2[x] == segs[x]);
                    if let Some(t) = segs[x].next() {
                        assert(t != s);
                        if t == h {
                            assert(not_head(heads, h));
                            assert(heads[bin] != Some(h));
                        }
                        assert(segs2[t as int] == segs[t as int]);
                    }
                }
            }
            assert forall|s1: int, s2: int|
                0 <= s1 < segs2.len() && 0 <= s2 < segs2.len() && (#[trigger] segs2[s1]).next() is Some && (
                #[trigger] segs2[s2]).next() == segs2[s1].next() implies s1 == s2 by {
                let t = segs2[s1].next();
                if s1 == h || s2 == h {
                    if s1 != s2 {
                        let o = if s1 == h { s2 } else { s1 };
                        assert(segs2[o].next() == Some(s));
                        if o != s {
                            assert(segs[o].next() == Some(s));
                        }
                    }
                } else if s1 == s || s2 == s {
                    if s1 != s2 {
                        let o = if s1 == s { s2 } else { s1 };
                        assert(segs2[o].next() == segs[o].next());
                        assert(segs[o].next() == segs[h as int].next());
                    }
                } else {
                    assert(segs[s1].next() == segs2[s1].next());
                    assert(segs[s2].next() == segs2[s2].next());
                }
            }
            assert forall|x: int| 0 <= x < segs2.len() && (#[trigger] segs2[x]).free().len() == 0 implies segs2[x].next() is None by {
                assert(x != s && x != h);
                assert(segs2[x] == segs[x]);
            }
        },
    }
}

/// A heap: one list of segments per size class, each list starting at its bin and going on
/// through the segments' `next`; a full segment leaves its list until a slot of it is freed.
pub struct HeapAllocator<T: PageAllocator> {
    page_alloc: T,
    heads: Vec<Option<usize>>,
    segments: Vec<Segment>,
}

impl<T: PageAllocator> HeapAllocator<T> {
    /// First segment of the list of each bin.
    pub closed spec fn heads(&self) -> Seq<Option<usize>> {
        self.heads@
    }

    /// Every segment the heap has made, in the order it made them.
    pub closed spec fn segments(&self) -> Seq<Segment> {
        self.segments@
    }

    /// The page allocator that segments and requests past 32 KiB come from.
    pub closed spec fn page_allocator(&self) -> T {
        self.page_alloc
    }

    /// The heap is well formed: see [`lists_ok`] and [`blocks_aligned`].
    pub closed spec fn wf(&self) -> bool {
        &&& lists_ok(self.heads@, self.segments@)
        &&& blocks_aligned(self.segments@)
    }

    /// An empty heap over `page_alloc`.
    pub fn new(page_alloc: T) -> (r: Self)
        ensures
            r.wf(),
            r.page_allocator() == page_alloc,
            r.heads() == Seq::new(BIN_COUNT as nat, |b: int| None::<usize>),
            r.segments() == Seq::<Segment>::empty(),
    {
        let mut heads: Vec<Option<usize>> = Vec::new();
        let mut b: usize = 0;
        while b < BIN_COUNT
            invariant
                b <= BIN_COUNT,
                heads@ == Seq::new(b as nat, |k: int| None::<usize>),
            decreases BIN_COUNT - b,
        {
            heads.push(None);
            b = b + 1;
            assert(heads@ =~= Seq::new(b as nat, |k: int| None::<usize>));
        }
        let r = HeapAllocator { page_alloc, heads, segments: Vec::new() };
        proof {
            reveal(lists_ok);
        }
        r
    }

    /// What taking a slot from bin `bin` did to the heap, `r` being the address handed out.
    pub open spec fn took_slot(&self, after: Self, bin: int, size_class: int, capacity: int, r: Option<usize>) -> bool {
        let segs = self.segments();
        let segs2 = after.segments();
        match self.heads()[bin] {
            Some(h) => {
                let seg = segs[h as int];
                &&& r == Some(seg.slot_addr(seg.free()[0]) as usize)
                &&& segs2.len() == segs.len()
                &&& forall|s: int| 0 <= s < segs.len() && s != h ==> #[trigger] segs2[s] == segs[s]
                &&& segs2[h as int].free() == seg.free().drop_first()
                &&& segs2[h as int].base() == seg.base()
                &&& segs2[h as int].class() == seg.class()
                &&& segs2[h as int].offset() == seg.offset()
                &&& if seg.free().len() == 1 {
                    &&& after.heads() == self.heads().update(bin, seg.next())
                    &&& segs2[h as int].next() is None
                } else {
                    &&& after.heads() == self.heads()
                    &&& segs2[h as int].next() == seg.next()
                }
            },
            None => match r {
                None => segs2 == segs && after.heads() == self.heads(),
                Some(a) => {
                    let n = segs.len() as int;
                    let seg = segs2[n];
                    &&& segs2.len() == n + 1
                    &&& forall|s: int| 0 <= s < n ==> #[trigger] segs2[s] == segs[s]
                    &&& seg.class() == size_class
                    &&& seg.capacity() == capacity
                    &&& a == seg.slot_addr(0)
                    &&& seg.free() == Seq::new(seg.slots() as nat, |i: int| i).drop_first()
                    &&& seg.next() is None
                    &&& after.heads() == self.heads().update(bin, if seg.slots() == 1 { None } else { Some(n as usize) })
                },
            },
        }
    }

    /// Takes a slot from the segment heading bin `bin`, which leaves the list when that was
    /// its last free slot.
    fn take_from_head(&mut self, bin: usize, h: usize) -> (r: Option<usize>)
        requires
            old(self).wf(),
            bin < BIN_COUNT,
            old(self).heads()[bin as int] == Some(h),
        ensures
            final(self).wf(),
            final(self).page_alloc == old(self).page_alloc,
            ({
                let segs = old(self).segments();
                let segs2 = final(self).segments();
                let seg = segs[h as int];
                &&& r == Some(seg.slot_addr(seg.free()[0]) as usize)
                &&& segs2 == segs.update(h as int, segs2[h as int])
                &&& segs2[h as int].free() == seg.free().drop_first()
                &&& segs2[h as int].base() == seg.base()
                &&& segs2[h as int].class() == seg.class()
                &&& segs2[h as int].offset() == seg.offset()
                &&& segs2[h as int].capacity() == seg.capacity()
                &&& segs2[h as int].slots() == seg.slots()
                &&& if seg.free().len() == 1 {
                    &&& final(self).heads() == old(self).heads().update(bin as int, seg.next())
                    &&& segs2[h as int].next() is None
                } else {
                    &&& final(self).heads() == old(self).heads()
                    &&& segs2[h as int].next() == seg.next()
                }
            }),
    {
        let ghost segs0 = self.segments@;
        let ghost heads0 = self.heads@;
        proof {
            lemma_lists_head(heads0, segs0, bin as int);
            lemma_lists_ok_at(heads0, segs0, bin as int, h as int);
        }
        let r = self.segments[h].allocate();
        if self.segments[h].available() == 0 {
            let next = self.segments[h].replace_next(None);
            self.heads.set(bin, next);
        }
        proof {
            assert(self.segments@ == segs0.update(h as int, self.segments@[h as int]));
            lemma_lists_take(heads0, segs0, bin as int, h, self.segments@[h as int]);
            lemma_blocks_update(segs0, h as int, self.segments@[h as int]);
        }
        r
    }

    /// Takes a slot of `size_class` bytes from the first segment of bin `bin`, first making
    /// a segment of `capacity` bytes of slots and order `order` when the bin has none; the
    /// segment leaves the list when that was its last free slot. `None` when the page
    /// allocator has no block for a new segment.
    fn alloc_in_bin(&mut self, bin: usize, size_class: usize, capacity: usize, order: u32) -> (r: Option<usize>)
        requires
            old(self).wf(),
            bin < BIN_COUNT,
            size_class == bin_class(bin as int),
            0 < 2 * size_class <= capacity,
            capacity + SEGMENT_META_SIZE == pow2(order as nat),
            pow2(order as nat) <= ALLOC_ALIGNMENT,
            order < usize::BITS,
        ensures
            final(self).wf(),
            final(self).page_alloc == old(self).page_alloc,
            old(self).took_slot(*final(self), bin as int, size_class as int, capacity as int, r),
            old(self).heads()[bin as int] is None ==> fresh_segment_answer(*old(self), *final(self), order, r),
    {
        let ghost heads0 = self.heads@;
        proof {
            lemma_lists_head(self.heads@, self.segments@, bin as int);
        }
        match self.heads[bin] {
            Some(h) => {
                assert(heads0[bin as int] == Some(h));
                self.take_from_head(bin, h)
            },
            None => {
                match Segment::new(&self.page_alloc, size_class, capacity, order) {
                    Some(seg) => {
                        proof {
                            seg.lemma_wf();
                            assert((capacity - seg.offset()) / (size_class as int) >= 1) by (nonlinear_arith)
                                requires
                                    capacity - seg.offset() >= size_class,
                                    size_class > 0,
                            {
                            }
                            assert(seg.slots() >= 1);
                            assert(seg.free().len() == seg.slots());
                        }
                        let ghost segs1 = self.segments@;
                        self.segments.push(seg);
                        let n = self.segments.len() - 1;
                        proof {
                            lemma_lists_push(heads0, segs1, bin as int, seg);
                            assert(is_pow2(seg.capacity() + SEGMENT_META_SIZE)) by {
                                assert(pow2(order as nat) == seg.capacity() + SEGMENT_META_SIZE);
                            }
                            lemma_blocks_push(segs1, seg);
                        }
                        self.heads.set(bin, Some(n));
                        let ghost mid_segs = self.segments@;
                        let r = self.take_from_head(bin, n);
                        proof {
                            assert(seg.free()[0] == 0);
                            assert(seg.slot_addr(0) <= usize::MAX);
                            assert(mid_segs[n as int] == seg);
                            assert(self.segments@[n as int].slot_addr(0) == seg.slot_addr(0));
                            assert(seg.free().drop_first() =~= Seq::new(seg.slots() as nat, |i: int| i).drop_first());
                            assert forall|s: int| 0 <= s < segs1.len() implies #[trigger] self.segments@[s] == segs1[s] by {
                                assert(self.segments@[s] == mid_segs[s]);
                            }
                            assert(self.heads@ =~= heads0.update(bin as int, if seg.slots() == 1 { None } else { Some(n) }));
                        }
                        r
                    },
                    None => None,
                }
            },
        }
    }

    /// `at` is a taken slot of the first segment at `base`, whose slots are of `size_class`
    /// bytes.
    pub open spec fn taken_slot(&self, base: int, size_class: int, at: int) -> bool {
        let segs = self.segments();
        let o = owner(segs, base);
        let seg = segs[o];
        &&& exists|s: int| first_at(segs, base, s)
        &&& seg.class() == size_class
        &&& seg.base() + seg.offset() <= at
        &&& (at - seg.base() - seg.offset()) % seg.class() == 0
        &&& (at - seg.base() - seg.offset()) / seg.class() < seg.slots()
        &&& !seg.free().contains((at - seg.base() - seg.offset()) / seg.class())
    }

    /// What giving back slot `at` of segment `o` did to the heap.
    pub open spec fn gave_slot(&self, after: Self, bin: int, o: int, at: int) -> bool {
        let segs = self.segments();
        let segs2 = after.segments();
        let seg = segs[o];
        &&& segs2.len() == segs.len()
        &&& segs2[o].free() == seq![(at - seg.base() - seg.offset()) / seg.class()] + seg.free()
        &&& segs2[o].base() == seg.base()
        &&& segs2[o].class() == seg.class()
        &&& segs2[o].offset() == seg.offset()
        &&& if seg.free().len() > 0 {
            &&& after.heads() == self.heads()
            &&& forall|s: int| 0 <= s < segs.len() && s != o ==> #[trigger] segs2[s] == segs[s]
            &&& segs2[o].next() == seg.next()
        } else {
            match self.heads()[bin] {
                None => {
                    &&& after.heads() == self.heads().update(bin, Some(o as usize))
                    &&& forall|s: int| 0 <= s < segs.len() && s != o ==> #[trigger] segs2[s] == segs[s]
                    &&& segs2[o].next() is None
                },
                Some(h) => {
                    &&& after.heads() == self.heads()
                    &&& forall|s: int| 0 <= s < segs.len() && s != o && s != h ==> #[trigger] segs2[s] == segs[s]
                    &&& segs2[o].next() == segs[h as int].next()
                    &&& segs2[h as int].next() == Some(o as usize)
                    &&& segs2[h as int].free() == segs[h as int].free()
                },
            }
        }
    }

    /// Gives back the slot at `at` of bin `bin` to the segment it lies in, found by clearing
    /// the low bits of `at` below `seg_size`; a segment that was full goes back into the
    /// bin's list, at its head when the list is empty, else right after the head.
    fn dealloc_in_bin(&mut self, bin: usize, size_class: usize, seg_size: usize, at: usize)
        requires
            old(self).wf(),
            bin < BIN_COUNT,
            size_class == bin_class(bin as int),
            seg_size > 0,
            old(self).taken_slot((at & !((seg_size - 1) as usize)) as int, size_class as int, at as int),
        ensures
            final(self).wf(),
            final(self).page_alloc == old(self).page_alloc,
            old(self).gave_slot(*final(self), bin as int, owner(old(self).segments(), (at & !((seg_size - 1) as usize)) as int), at as int),
    {
        let seg_addr = at & !(seg_size - 1);
        let ghost segs0 = self.segments@;
        let ghost heads0 = self.heads@;
        let ghost o = owner(segs0, seg_addr as int);
        proof {
            let w = choose|s: int| first_at(segs0, seg_addr as int, s);
            assert(first_at(segs0, seg_addr as int, o));
        }
        let len = self.segments.len();
        let mut i: usize = 0;
        while self.segments[i].base_addr() != seg_addr
            invariant
                self.segments@ == segs0,
                len == segs0.len(),
                first_at(segs0, seg_addr as int, o),
                i <= o,
                forall|j: int| 0 <= j < i ==> #[trigger] segs0[j].base() != seg_addr,
            decreases o - i,
        {
            i = i + 1;
        }
        proof {
            assert(i == o);
            lemma_lists_head(heads0, segs0, bin as int);
            lemma_lists_ok_at(heads0, segs0, bin as int, i as int);
        }
        let resurrected = self.segments[i].dealloc(at);
        if !resurrected {
            proof {
                lemma_lists_give(heads0, segs0, i as int, self.segments@[i as int]);
                assert(self.segments@ == segs0.update(i as int, self.segments@[i as int]));
                lemma_blocks_update(segs0, i as int, self.segments@[i as int]);
            }
            return;
        }
        match self.heads[bin] {
            None => {
                proof {
                    lemma_lists_resurrect(heads0, segs0, bin as int, i, self.segments@[i as int], self.segments@[i as int]);
                    assert(self.segments@ == segs0.update(i as int, self.segments@[i as int]));
                    lemma_blocks_update(segs0, i as int, self.segments@[i as int]);
                }
                self.heads.set(bin, Some(i));
            },
            Some(h) => {
                proof {
                    assert(heads0[bin as int] == Some(h));
                    lemma_lists_ok_at(heads0, segs0, bin as int, h as int);
                    assert(h != i);
                }
                let prev_next = self.segments[h].replace_next(Some(i));
                self.segments[i].replace_next(prev_next);
                proof {
                    lemma_lists_resurrect(heads0, segs0, bin as int, i, self.segments@[i as int], self.segments@[h as int]);
                    assert(self.segments@ == segs0.update(i as int, self.segments@[i as int]).update(h as int, self.segments@[h as int]));
                    lemma_blocks_update(segs0, i as int, self.segments@[i as int]);
                    lemma_blocks_update(segs0.update(i as int, self.segments@[i as int]), h as int, self.segments@[h as int]);
                }
            },
        }
    }

    /// A slot taken from bin `bin` whose slot size is a multiple of the power of two `align`
    /// is aligned to `align`.
    proof fn lemma_took_aligned(&self, after: Self, bin: int, size_class: int, capacity: int, r: Option<usize>, align: int, j: nat)
        requires
            self.wf(),
            after.wf(),
            self.took_slot(after, bin, size_class, capacity, r),
            0 <= bin < BIN_COUNT,
            size_class == bin_class(bin),
            size_class % align == 0,
            align <= size_class,
            align == pow2(j),
        ensures
            r matches Some(a) ==> (a as int) % align == 0,
    {
        reveal(lists_ok);
        let segs = self.segments();
        let segs2 = after.segments();
        lemma_pw_basics(j as int);
        if let Some(a) = r {
            match self.heads()[bin] {
                Some(h) => {
                    let seg = segs[h as int];
                    assert(block_aligned(seg));
                    assert(seg.free().len() > 0);
                    seg.lemma_wf();
                    let k = seg.free()[0];
                    Self::lemma_block_divides(seg, align, j);
                    assert(k * seg.class() + seg.offset() < seg.capacity()) by (nonlinear_arith)
                        requires
                            0 <= k < seg.slots(),
                            seg.slots() * seg.class() + seg.offset() <= seg.capacity(),
                            seg.class() > 0,
                    ;
                    lemma_slot_aligned(seg.base(), seg.capacity() + SEGMENT_META_SIZE, seg.class(), k, align);
                    assert(a as int == seg.slot_addr(k));
                },
                None => {
                    let seg = segs2[segs.len() as int];
                    assert(block_aligned(seg));
                    seg.lemma_wf();
                    Self::lemma_block_divides(seg, align, j);
                    lemma_slot_aligned(seg.base(), seg.capacity() + SEGMENT_META_SIZE, seg.class(), 0, align);
                },
            }
        }
    }

    /// The block of a segment is a multiple of any power of two up to its slot size.
    proof fn lemma_block_divides(seg: Segment, align: int, j: nat)
        requires
            seg.wf(),
            block_aligned(seg),
            align == pow2(j),
            align <= seg.class(),
        ensures
            (seg.capacity() + SEGMENT_META_SIZE) % align == 0,
            seg.capacity() + SEGMENT_META_SIZE > 0,
    {
        seg.lemma_wf();
        let blk = seg.capacity() + SEGMENT_META_SIZE;
        let kk = choose|kk: nat| pow2(kk) == blk;
        lemma_pw_basics(kk as int);
        if kk < j {
            lemma_pw_mono(kk as int + 1, j as int);
            assert(false);
        }
        vstd::arithmetic::div_mod::lemma_mod_self_0(blk);
        lemma_aligned_lower(blk, kk as int, j as int);
    }

    /// Serves a request of `size` bytes aligned to `align`: after [`unionize`], from the bin
    /// that [`SizeClassify::new`] picks, or from the page allocator past 32 KiB. `None` where
    /// no memory could be had.
    pub fn allocate(&mut self, size: usize, align: usize) -> (r: Option<usize>)
        requires
            old(self).wf(),
            size > 0,
            align > 0,
            round_up(size as int, align as int) <= isize::MAX,
        ensures
            final(self).wf(),
            final(self).page_allocator() == old(self).page_allocator(),
            ({
                let c = classify_spec(unionize_spec(size as int, align as int).0);
                match bin_params(c) {
                    Some((bin, size_class, capacity)) => {
                        &&& old(self).took_slot(*final(self), bin, size_class, capacity, r)
                        &&& (r matches Some(a) ==> (segments_apart(old(self).segments()) && segments_apart(
                            final(self).segments(),
                        ) ==> (forall|s: int, k: int|
                            #[trigger] slot_live(old(self).segments(), s, k) ==> apart(
                                a as int,
                                size_class,
                                old(self).segments()[s].slot_addr(k),
                                old(self).segments()[s].class(),
                            ))))
                        &&& old(self).heads()[bin] is None ==> fresh_segment_answer(
                            *old(self),
                            *final(self),
                            segment_order(capacity),
                            r,
                        )
                    },
                    None => {
                        &&& final(self).heads() == old(self).heads()
                        &&& final(self).segments() == old(self).segments()
                        &&& align > ALLOC_ALIGNMENT ==> r is None
                        &&& align <= ALLOC_ALIGNMENT ==> old(self).page_allocator().answers(
                            bit_length((size - 1) as nat) as u32,
                            r,
                        )
                    },
                }
            }),
            ({
                let order = bit_length((size - 1) as nat);
                let c = classify_spec(unionize_spec(size as int, align as int).0);
                r matches Some(a) ==> (is_pow2(align as int) && (bin_params(c) is Some || align <= pow2(order)
                    <= ALLOC_ALIGNMENT) ==> (a as int) % (align as int) == 0)
            }),
    {
        let (padded, _) = unionize(size, align);
        proof {
            lemma_class_tables();
        }
        let c = SizeClassify::new(padded);
        let r = match c {
            SizeClassify::Micro(i, size_class) => self.alloc_in_bin(i, size_class, MICRO_CAPACITY, 12),
            SizeClassify::Small(i, size_class) => self.alloc_in_bin(8 + i, size_class, SMALL_CAPACITY, 14),
            SizeClassify::Medium(i, size_class) => self.alloc_in_bin(16 + i, size_class, MEDIUM_CAPACITY, 16),
            SizeClassify::Large(i, size_class) => self.alloc_in_bin(20 + i, size_class, LARGE_CAPACITY, 17),
            SizeClassify::Huge => alloc_huge(&self.page_alloc, size, align),
        };
        proof {
            if segments_apart(old(self).segments()) && segments_apart(self.segments()) {
                match c {
                    SizeClassify::Micro(i, sc) => {
                        assert(sc == micro_sizes()[i as int]);
                        lemma_slot_meets_no_live_slot(*old(self), *self, i as int, sc as int, MICRO_CAPACITY as int, r);
                    },
                    SizeClassify::Small(i, sc) => {
                        assert(sc == small_sizes()[i as int]);
                        lemma_slot_meets_no_live_slot(*old(self), *self, 8 + i, sc as int, SMALL_CAPACITY as int, r);
                    },
                    SizeClassify::Medium(i, sc) => {
                        assert(sc == medium_sizes()[i as int]);
                        lemma_slot_meets_no_live_slot(*old(self), *self, 16 + i, sc as int, MEDIUM_CAPACITY as int, r);
                    },
                    SizeClassify::Large(i, sc) => {
                        assert(sc == large_sizes()[i as int]);
                        lemma_slot_meets_no_live_slot(*old(self), *self, 20 + i, sc as int, LARGE_CAPACITY as int, r);
                    },
                    SizeClassify::Huge => {},
                }
            }
            if r is Some && is_pow2(align as int) {
                let j = choose|j: nat| pow2(j) == align;
                lemma_pw_basics(j as int);
                let a2 = unionize_spec(size as int, align as int).1;
                lemma_round_up(size as int, 2);
                lemma_round_up(round_up(size as int, 2), a2);
                if align <= 2 {
                    vstd::arithmetic::power2::lemma2_to64();
                    if align == 1 {
                        vstd::arithmetic::div_mod::lemma_fundamental_div_mod_converse(padded as int, 1, padded as int, 0);
                    } else {
                        assert(align == 2);
                    }
                }
                match bin_params(c) {
                    Some((b, sc, cap)) => {
                        lemma_bin_class_aligned(padded as int, align as int, j, c);
                        old(self).lemma_took_aligned(*self, b, sc, cap, r, align as int, j);
                    },
                    None => {
                        let order = bit_length((size - 1) as nat);
                        if align <= pow2(order) && pow2(order) <= ALLOC_ALIGNMENT {
                            let a = r.unwrap();
                            lemma_pw_basics(order as int);
                            if order < j {
                                lemma_pw_mono(order as int, j as int);
                                lemma_pw_basics(order as int);
                                if order + 1 <= j {
                                    lemma_pw_mono(order as int + 1, j as int);
                                }
                            }
                            lemma_aligned_lower(a as int, order as int, j as int);
                        }
                    },
                }
            }
        }
        r
    }

    /// Gives back the memory at `at` of a request of `size` bytes aligned to `align`: to the
    /// segment it was taken from, or to the page allocator past 32 KiB.
    pub fn dealloc(&mut self, at: usize, size: usize, align: usize)
        requires
            old(self).wf(),
            size > 0,
            align > 0,
            round_up(size as int, align as int) <= isize::MAX,
            ({
                let c = classify_spec(unionize_spec(size as int, align as int).0);
                match bin_params(c) {
                    Some((bin, size_class, capacity)) => old(self).taken_slot(
                        (at & !((capacity + SEGMENT_META_SIZE - 1) as usize)) as int,
                        size_class,
                        at as int,
                    ),
                    None => true,
                }
            }),
        ensures
            final(self).wf(),
            ({
                let c = classify_spec(unionize_spec(size as int, align as int).0);
                match bin_params(c) {
                    Some((bin, size_class, capacity)) => old(self).gave_slot(
                        *final(self),
                        bin,
                        owner(old(self).segments(), (at & !((capacity + SEGMENT_META_SIZE - 1) as usize)) as int),
                        at as int,
                    ),
                    None => {
                        &&& final(self).heads() == old(self).heads()
                        &&& final(self).segments() == old(self).segments()
                        &&& old(self).page_allocator().took_back(at, bit_length((size - 1) as nat) as u32)
                    },
                }
            }),
            final(self).page_allocator() == old(self).page_allocator(),
    {
        let (padded, _) = unionize(size, align);
        proof {
            lemma_class_tables();
        }
        match SizeClassify::new(padded) {
            SizeClassify::Micro(i, size_class) => self.dealloc_in_bin(i, size_class, MICRO_CAPACITY + SEGMENT_META_SIZE, at),
            SizeClassify::Small(i, size_class) => self.dealloc_in_bin(8 + i, size_class, SMALL_CAPACITY + SEGMENT_META_SIZE, at),
            SizeClassify::Medium(i, size_class) => self.dealloc_in_bin(16 + i, size_class, MEDIUM_CAPACITY + SEGMENT_META_SIZE, at),
            SizeClassify::Large(i, size_class) => self.dealloc_in_bin(20 + i, size_class, LARGE_CAPACITY + SEGMENT_META_SIZE, at),
            SizeClassify::Huge => dealloc_huge(&self.page_alloc, size, at),
        }
    }
}

/// The segments lie apart: no two share a byte of their slot areas.
pub open spec fn segments_apart(segs: Seq<Segment>) -> bool {
    forall|a: int, b: int|
        0 <= a < segs.len() && 0 <= b < segs.len() && a != b ==> (#[trigger] segs[a]).base() + segs[a].capacity()
            <= (#[trigger] segs[b]).base() || segs[b].base() + segs[b].capacity() <= segs[a].base()
}

/// Slot `k` of segment `s` is handed out: one of the segment's slots, not on its free list.
pub open spec fn slot_live(segs: Seq<Segment>, s: int, k: int) -> bool {
    &&& 0 <= s < segs.len()
    &&& 0 <= k < segs[s].slots()
    &&& !segs[s].free().contains(k)
}

/// The `c` bytes from `a` and the `d` bytes from `b` do not meet.
pub open spec fn apart(a: int, c: int, b: int, d: int) -> bool {
    a + c <= b || b + d <= a
}

/// Slot `k` of a well-formed segment lies inside its slot area.
proof fn lemma_slot_inside(seg: Segment, k: int)
    requires
        seg.wf(),
        0 <= k < seg.slots(),
    ensures
        seg.base() <= seg.slot_addr(k),
        seg.slot_addr(k) + seg.class() <= seg.base() + seg.capacity(),
{
    seg.lemma_wf();
    assert((k + 1) * seg.class() <= seg.slots() * seg.class() && (k + 1) * seg.class() == k * seg.class()
        + seg.class()) by (nonlinear_arith)
        requires
            k + 1 <= seg.slots(),
            seg.class() > 0,
    ;
    assert(0 <= k * seg.class()) by (nonlinear_arith)
        requires
            0 <= k,
            seg.class() > 0,
    ;
}

/// Two different slots of a segment do not meet.
proof fn lemma_slots_apart(seg: Segment, k1: int, k2: int)
    requires
        seg.wf(),
        0 <= k1 < seg.slots(),
        0 <= k2 < seg.slots(),
        k1 != k2,
    ensures
        apart(seg.slot_addr(k1), seg.class(), seg.slot_addr(k2), seg.class()),
{
    seg.lemma_wf();
    let c = seg.class();
    if k1 < k2 {
        assert((k1 + 1) * c <= k2 * c && (k1 + 1) * c == k1 * c + c) by (nonlinear_arith)
            requires
                k1 + 1 <= k2,
                c > 0,
        ;
    } else {
        assert((k2 + 1) * c <= k1 * c && (k2 + 1) * c == k2 * c + c) by (nonlinear_arith)
            requires
                k2 + 1 <= k1,
                c > 0,
        ;
    }
}

/// A slot that a bin hands out meets no slot that was already handed out, wherever the
/// segments lie apart. (Where the page allocator gives overlapping blocks the segments meet,
/// and so may their slots.)
pub proof fn lemma_slot_meets_no_live_slot<T: PageAllocator>(
    before: HeapAllocator<T>,
    after: HeapAllocator<T>,
    bin: int,
    size_class: int,
    capacity: int,
    r: Option<usize>,
)
    requires
        before.wf(),
        after.wf(),
        0 <= bin < BIN_COUNT,
        size_class == bin_class(bin),
        0 < 2 * size_class <= capacity,
        before.took_slot(after, bin, size_class, capacity, r),
        segments_apart(before.segments()),
        segments_apart(after.segments()),
    ensures
        r matches Some(a) ==> forall|s: int, k: int|
            #[trigger] slot_live(before.segments(), s, k) ==> apart(
                a as int,
                size_class,
                before.segments()[s].slot_addr(k),
                before.segments()[s].class(),
            ),
{
    let segs = before.segments();
    let segs2 = after.segments();
    reveal(lists_ok);
    if let Some(a) = r {
        assert forall|s: int, k: int| #[trigger] slot_live(segs, s, k) implies apart(
            a as int,
            size_class,
            segs[s].slot_addr(k),
            segs[s].class(),
        ) by {
            assert(segs[s].wf());
            lemma_slot_inside(segs[s], k);
            match before.heads()[bin] {
                Some(h) => {
                    let seg = segs[h as int];
                    assert(seg.wf());
                    seg.lemma_wf();
                    let f = seg.free()[0];
                    assert(seg.free().contains(f));
                    lemma_slot_inside(seg, f);
                    if s == h {
                        lemma_slots_apart(seg, f, k);
                    }
                },
                None => {
                    let n = segs.len() as int;
                    let seg = segs2[n];
                    assert(seg.wf());
                    seg.lemma_wf();
                    assert(segs2[s] == segs[s]);
                    assert(s != n);
                    assert(seg.slot_addr(0) + seg.class() <= seg.base() + seg.capacity());
                },
            }
        }
    }
}

/// The order of the segments of `capacity` bytes of slots: `capacity + SEGMENT_META_SIZE`
/// is `2^segment_order(capacity)`.
pub open spec fn segment_order(capacity: int) -> u32 {
    if capacity == MICRO_CAPACITY {
        12
    } else if capacity == SMALL_CAPACITY {
        14
    } else if capacity == MEDIUM_CAPACITY {
        16
    } else {
        17
    }
}

/// A bin with no segment asked the page allocator of `before` for a segment of order
/// `order`: `None` only where it answered `None`, and otherwise the new segment, the last of
/// `after`, lies where it answered.
pub open spec fn fresh_segment_answer<T: PageAllocator>(
    before: HeapAllocator<T>,
    after: HeapAllocator<T>,
    order: u32,
    r: Option<usize>,
) -> bool {
    &&& r is None ==> before.page_allocator().answers(order, None)
    &&& r is Some ==> before.page_allocator().answers(
        order,
        Some(after.segments()[before.segments().len() as int].base() as usize),
    )
}

/// The bin, slot size and slot-area bytes of the segments of a size class; `None` for a
/// request past 32 KiB.
pub open spec fn bin_params(c: SizeClassify) -> Option<(int, int, int)> {
    match c {
        SizeClassify::Micro(i, sc) => Some((i as int, sc as int, MICRO_CAPACITY as int)),
        SizeClassify::Small(i, sc) => Some((8 + i, sc as int, SMALL_CAPACITY as int)),
        SizeClassify::Medium(i, sc) => Some((16 + i, sc as int, MEDIUM_CAPACITY as int)),
        SizeClassify::Large(i, sc) => Some((20 + i, sc as int, LARGE_CAPACITY as int)),
        SizeClassify::Huge => None,
    }
}

/// The class tables line up with the bins, each class fits twice in its segments, and the
/// segments are powers of two.
proof fn lemma_class_tables()
    ensures
        forall|i: int| 0 <= i < 8 ==> bin_class(i) == #[trigger] micro_sizes()[i] && 2 * micro_sizes()[i] <= MICRO_CAPACITY,
        forall|i: int| 0 <= i < 8 ==> bin_class(8 + i) == #[trigger] small_sizes()[i] && 2 * small_sizes()[i] <= SMALL_CAPACITY,
        forall|i: int| 0 <= i < 4 ==> bin_class(16 + i) == #[trigger] medium_sizes()[i] && 2 * medium_sizes()[i] <= MEDIUM_CAPACITY,
        forall|i: int| 0 <= i < 4 ==> bin_class(20 + i) == #[trigger] large_sizes()[i] && 2 * large_sizes()[i] <= LARGE_CAPACITY,
        pow2(12) == MICRO_CAPACITY + SEGMENT_META_SIZE,
        pow2(14) == SMALL_CAPACITY + SEGMENT_META_SIZE,
        pow2(16) == MEDIUM_CAPACITY + SEGMENT_META_SIZE,
        pow2(17) == LARGE_CAPACITY + SEGMENT_META_SIZE,
{
    vstd::arithmetic::power2::lemma2_to64();
    let all = micro_sizes() + small_sizes() + medium_sizes() + large_sizes();
    assert forall|i: int| 0 <= i < 8 implies bin_class(i) == #[trigger] micro_sizes()[i] by {
        assert(all[i] == micro_sizes()[i]);
    }
    assert forall|i: int| 0 <= i < 8 implies bin_class(8 + i) == #[trigger] small_sizes()[i] by {
        assert(all[8 + i] == small_sizes()[i]);
    }
    assert forall|i: int| 0 <= i < 4 implies bin_class(16 + i) == #[trigger] medium_sizes()[i] by {
        assert(all[16 + i] == medium_sizes()[i]);
    }
    assert forall|i: int| 0 <= i < 4 implies bin_class(20 + i) == #[trigger] large_sizes()[i] by {
        assert(all[20 + i] == large_sizes()[i]);
    }
}

/// The exponent of the power of two in each size class: class `b` is `2^e`, or, for the
/// even bins from 2 on, `3 * 2^e` right after the class `2 * 2^e`.
spec fn class_exps() -> Seq<nat> {
    seq![3nat, 4, 3, 5, 4, 6, 5, 7, 6, 8, 7, 9, 8, 10, 9, 11, 10, 12, 11, 13, 12, 14, 13, 15]
}

/// The size classes are powers of two, or three times a power of two right after twice it.
#[verifier::rlimit(60)]
#[verifier::spinoff_prover]
proof fn lemma_class_shape(b: int)
    requires
        0 <= b < BIN_COUNT,
    ensures
        (b == 0 || b % 2 == 1) ==> bin_class(b) == pow2(class_exps()[b]),
        (b >= 2 && b % 2 == 0) ==> bin_class(b) == 3 * pow2(class_exps()[b]) && bin_class(b - 1) == 2 * pow2(
            class_exps()[b],
        ),
        b >= 1 ==> bin_class(b - 1) < bin_class(b),
        class_exps()[b] <= 15,
{
    vstd::arithmetic::power2::lemma2_to64();
    lemma_class_tables();
    let all = micro_sizes() + small_sizes() + medium_sizes() + large_sizes();
    assert(all =~= seq![8usize, 16, 24, 32, 48, 64, 96, 128, 192, 256, 384, 512, 768, 1024, 1536, 2048, 3072, 4096, 6144, 8192, 12288, 16384, 24576, 32768]);
    // one case per bin, each settled on its concrete values
    if b == 0 {
    } else if b == 1 {
    } else if b == 2 {
    } else if b == 3 {
    } else if b == 4 {
    } else if b == 5 {
    } else if b == 6 {
    } else if b == 7 {
    } else if b == 8 {
    } else if b == 9 {
    } else if b == 10 {
    } else if b == 11 {
    } else if b == 12 {
    } else if b == 13 {
    } else if b == 14 {
    } else if b == 15 {
    } else if b == 16 {
    } else if b == 17 {
    } else if b == 18 {
    } else if b == 19 {
    } else if b == 20 {
    } else if b == 21 {
    } else if b == 22 {
    } else if b == 23 {
    }
}

/// The slot size that fits a request of `padded` bytes, a multiple of the power of two
/// `align`, best is itself a multiple of `align`.
proof fn lemma_class_aligned(padded: int, align: int, j: nat, b: int)
    requires
        align == pow2(j),
        padded > 0,
        padded % align == 0,
        0 <= b < BIN_COUNT,
        bin_class(b) >= padded,
        b >= 1 ==> bin_class(b - 1) < padded,
    ensures
        bin_class(b) % align == 0,
        align <= bin_class(b),
{
    lemma_class_shape(b);
    let e = class_exps()[b] as int;
    lemma_pw_basics(e);
    lemma_pw_basics(j as int);
    lemma_fundamental_div_mod(padded, align);
    let t = padded / align;
    assert(t >= 1) by (nonlinear_arith)
        requires
            padded == align * t + 0,
            padded > 0,
            align > 0,
    ;
    assert(align <= padded) by (nonlinear_arith)
        requires
            padded == align * t,
            t >= 1,
            align > 0,
    ;
    if j as int <= e {
        vstd::arithmetic::div_mod::lemma_mod_self_0(pw(e));
        lemma_aligned_lower(pw(e), e, j as int);
        if b >= 2 && b % 2 == 0 {
            lemma_fundamental_div_mod(pw(e), align);
            let q = pw(e) / align;
            assert(bin_class(b) == (3 * q) * align) by (nonlinear_arith)
                requires
                    pw(e) == align * q + 0,
                    bin_class(b) == 3 * pw(e),
            ;
            lemma_mod_multiples_basic(3 * q, align);
        }
    } else {
        lemma_pw_mono(e + 1, j as int);
        if b == 0 || b % 2 == 1 {
            assert(false);
        } else {
            if t == 1 {
                assert(padded == align) by (nonlinear_arith)
                    requires
                        padded == align * t,
                        t == 1,
                ;
                if j as int == e + 1 {
                    assert(pw(j as int) == pw(e + 1));
                    assert(false);
                } else {
                    lemma_pw_mono(e + 2, j as int);
                    lemma_pw_basics(e + 1);
                }
            } else {
                assert(padded >= 2 * align) by (nonlinear_arith)
                    requires
                        padded == align * t,
                        t >= 2,
                        align > 0,
                ;
            }
        }
    }
}

/// A slot of a segment on a block aligned to its size, whose slots are a multiple of
/// `align` that divides the block size, is aligned to `align`.
proof fn lemma_slot_aligned(base: int, block: int, class: int, k: int, align: int)
    requires
        0 <= base,
        0 <= k,
        0 < align,
        0 < class,
        base % block == 0,
        block % align == 0,
        class % align == 0,
        block > 0,
    ensures
        (base + base % class + k * class) % align == 0,
{
    lemma_fundamental_div_mod(base, block);
    lemma_fundamental_div_mod(block, align);
    lemma_fundamental_div_mod(class, align);
    lemma_fundamental_div_mod(base, class);
    let x = base / block;
    let y = block / align;
    let z = class / align;
    let q = base / class;
    let xy = x * y;
    let zq = z * q;
    let kz = k * z;
    assert(base == align * xy) by (nonlinear_arith)
        requires
            base == block * x + 0,
            block == align * y + 0,
            xy == x * y,
    ;
    assert(class * q == align * zq) by (nonlinear_arith)
        requires
            class == align * z + 0,
            zq == z * q,
    ;
    assert(k * class == align * kz) by (nonlinear_arith)
        requires
            class == align * z + 0,
            kz == k * z,
    ;
    assert(align * xy + (align * xy - align * zq) + align * kz == (2 * xy - zq + kz) * align) by (nonlinear_arith);
    lemma_mod_multiples_basic(2 * xy - zq + kz, align);
}

/// `round_up(x, a)` is a multiple of `a`, at least `x`.
proof fn lemma_round_up(x: int, a: int)
    requires
        0 <= x,
        0 < a,
    ensures
        round_up(x, a) % a == 0,
        round_up(x, a) >= x,
{
    lemma_fundamental_div_mod(x, a);
    vstd::arithmetic::div_mod::lemma_mod_pos_bound(x, a);
    if x % a != 0 {
        assert(x + a - x % a == (x / a + 1) * a) by (nonlinear_arith)
            requires
                x == a * (x / a) + x % a,
        ;
        lemma_mod_multiples_basic(x / a + 1, a);
    }
}

/// The class before the best fit of `padded` in a group of classes starting at bin
/// `first` is below `padded`.
proof fn lemma_fit_prev(sizes: Seq<usize>, padded: int, i: int, first: int)
    requires
        best_fit(sizes, padded, i),
        0 <= first,
        first + sizes.len() <= BIN_COUNT,
        forall|k: int| 0 <= k < sizes.len() ==> bin_class(first + k) == #[trigger] sizes[k],
        first >= 1 ==> bin_class(first - 1) < padded,
    ensures
        bin_class(first + i) >= padded,
        first + i >= 1 ==> bin_class(first + i - 1) < padded,
{
    assert(bin_class(first + i) == sizes[i]);
    if i >= 1 {
        lemma_class_shape(first + i);
        assert(bin_class(first + i - 1) == sizes[i - 1]);
        if sizes[i - 1] >= padded {
            assert(sizes[i] < sizes[i - 1]);
        }
    }
}

/// The slot size that a request of `padded` bytes, a multiple of the power of two `align`,
/// is served with is the class of its bin and a multiple of `align`.
#[verifier::spinoff_prover]
proof fn lemma_bin_class_aligned(padded: int, align: int, j: nat, c: SizeClassify)
    requires
        align == pow2(j),
        padded > 0,
        padded % align == 0,
        c == classify_spec(padded),
        c matches SizeClassify::Micro(i, sc) ==> i < 8 && sc == micro_sizes()[i as int] && best_fit(micro_sizes(), padded, i as int),
        c matches SizeClassify::Small(i, sc) ==> i < 8 && sc == small_sizes()[i as int] && best_fit(small_sizes(), padded, i as int),
        c matches SizeClassify::Medium(i, sc) ==> i < 4 && sc == medium_sizes()[i as int] && best_fit(medium_sizes(), padded, i as int),
        c matches SizeClassify::Large(i, sc) ==> i < 4 && sc == large_sizes()[i as int] && best_fit(large_sizes(), padded, i as int),
    ensures
        bin_params(c) matches Some((b, sc, cap)) ==> {
            &&& 0 <= b < BIN_COUNT
            &&& sc == bin_class(b)
            &&& sc % align == 0
            &&& align <= sc
        },
{
    lemma_class_tables();
    match c {
        SizeClassify::Micro(i, sc) => {
            lemma_fit_prev(micro_sizes(), padded, i as int, 0);
            lemma_class_aligned(padded, align, j, i as int);
        },
        SizeClassify::Small(i, sc) => {
            assert forall|k: int| 0 <= k < 8 implies bin_class(8 + k) == #[trigger] small_sizes()[k] by {}
            assert(bin_class(7) == micro_sizes()[7]);
            lemma_fit_prev(small_sizes(), padded, i as int, 8);
            lemma_class_aligned(padded, align, j, 8 + i);
        },
        SizeClassify::Medium(i, sc) => {
            assert forall|k: int| 0 <= k < 4 implies bin_class(16 + k) == #[trigger] medium_sizes()[k] by {}
            assert(bin_class(15) == small_sizes()[7]);
            lemma_fit_prev(medium_sizes(), padded, i as int, 16);
            lemma_class_aligned(padded, align, j, 16 + i);
        },
        SizeClassify::Large(i, sc) => {
            assert forall|k: int| 0 <= k < 4 implies bin_class(20 + k) == #[trigger] large_sizes()[k] by {}
            assert(bin_class(19) == medium_sizes()[3]);
            lemma_fit_prev(large_sizes(), padded, i as int, 20);
            lemma_class_aligned(padded, align, j, 20 + i);
        },
        SizeClassify::Huge => {},
    }
}

} // verus!
