//! A segment: a run of equal slots carved from one allocation of the page allocator, with
//! the free slots kept as a list threaded through the first two bytes of each free slot.
use vstd::prelude::*;
use super::PageAllocator;
use crate::abi::ALLOC_ALIGNMENT;

verus! {

/// Bytes of the header that follows the slots of a segment: four word-sized fields (the head
/// and lock, the next segment, the free count, the offset), padded to a 64-byte cache line.
pub const SEGMENT_META_SIZE: usize = 64;

/// Most slots a segment holds: a free slot names the next one in 16 bits.
pub const MAX_SLOTS: usize = 65536;

/// The free list that starts at `head` and runs for `n` slots, following `links`.
pub open spec fn chain(links: Seq<u16>, head: int, n: nat) -> Seq<int>
    decreases n,
{
    if n == 0 {
        Seq::empty()
    } else {
        seq![head] + chain(links, links[head] as int, (n - 1) as nat)
    }
}

/// Number of slots of `size_class` bytes that fit in `capacity` bytes after `offset`.
pub open spec fn slot_count(capacity: int, offset: int, size_class: int) -> int {
    let n = (capacity - offset) / size_class;
    if n < MAX_SLOTS { n } else { MAX_SLOTS as int }
}

proof fn lemma_chain_len(links: Seq<u16>, head: int, n: nat)
    ensures
        chain(links, head, n).len() == n,
    decreases n,
{
    if n > 0 {
        lemma_chain_len(links, links[head] as int, (n - 1) as nat);
    }
}

proof fn lemma_chain_update(links: Seq<u16>, head: int, n: nat, x: int, v: u16)
    requires
        !chain(links, head, n).contains(x),
        0 <= x < links.len(),
        forall|i: int| 0 <= i < chain(links, head, n).len() ==> 0 <= #[trigger] chain(links, head, n)[i] < links.len(),
    ensures
        chain(links.update(x, v), head, n) == chain(links, head, n),
    decreases n,
{
    if n > 0 {
        lemma_chain_len(links, head, n);
        assert(chain(links, head, n)[0] == head);
        assert(head != x);
        let rest = chain(links, links[head] as int, (n - 1) as nat);
        assert forall|i: int| 0 <= i < rest.len() implies rest[i] != x && 0 <= #[trigger] rest[i] < links.len() by {
            assert(chain(links, head, n)[i + 1] == rest[i]);
        }
        lemma_chain_update(links, links[head] as int, (n - 1) as nat, x, v);
        assert(links.update(x, v)[head] == links[head]);
    }
}

/// A list of distinct slot indices below `m` has at most `m` of them.
proof fn lemma_distinct_bound(s: Seq<int>, m: int)
    requires
        m >= 0,
        s.no_duplicates(),
        forall|i: int| 0 <= i < s.len() ==> 0 <= #[trigger] s[i] < m,
    ensures
        s.len() <= m,
{
    s.unique_seq_to_set();
    vstd::set_lib::lemma_int_range(0, m);
    assert(s.to_set().subset_of(vstd::set_lib::set_int_range(0, m)));
    vstd::set_lib::lemma_len_subset(s.to_set(), vstd::set_lib::set_int_range(0, m));
}

/// Links `i -> i + 1` for `i < n - 1`, and `n - 1 -> 0`.
proof fn lemma_chain_ring(links: Seq<u16>, n: nat, k: nat)
    requires
        k <= n,
        n <= MAX_SLOTS,
        links.len() == n,
        forall|i: int| 0 <= i < n ==> links[i] as int == (i + 1) % (n as int),
    ensures
        chain(links, k as int, (n - k) as nat) == Seq::new((n - k) as nat, |i: int| k + i),
    decreases n - k,
{
    if k < n {
        if k + 1 < n {
            vstd::arithmetic::div_mod::lemma_small_mod((k + 1) as nat, n);
            assert(links[k as int] as int == k + 1);
        }
        lemma_chain_ring(links, n, k + 1);
        let rest = chain(links, links[k as int] as int, (n - k - 1) as nat);
        if k + 1 < n {
            assert(rest == Seq::new((n - (k + 1)) as nat, |i: int| (k + 1) + i));
        }
        assert(chain(links, k as int, (n - k) as nat) =~= Seq::new((n - k) as nat, |i: int| k + i));
    } else {
        assert(chain(links, k as int, 0) =~= Seq::new(0, |i: int| k + i));
    }
}

/// One segment of slots of `size_class` bytes, at `base`.
pub struct Segment {
    base: usize,
    capacity: usize,
    size_class: usize,
    offset: usize,
    head: usize,
    available: usize,
    links: Vec<u16>,
    next: Option<usize>,
}

impl Segment {
    /// Address of the segment: where its slot area starts.
    pub closed spec fn base(&self) -> int {
        self.base as int
    }

    /// Bytes of the slot area.
    pub closed spec fn capacity(&self) -> int {
        self.capacity as int
    }

    /// Size of each slot.
    pub closed spec fn class(&self) -> int {
        self.size_class as int
    }

    /// Distance of the first slot from the base: the base modulo the slot size.
    pub closed spec fn offset(&self) -> int {
        self.offset as int
    }

    /// Number of slots.
    pub closed spec fn slots(&self) -> int {
        self.links@.len() as int
    }

    /// The free slots, by index, from the head of the free list on.
    pub closed spec fn free(&self) -> Seq<int> {
        chain(self.links@, self.head as int, self.available as nat)
    }

    /// The next segment in the list of its size class, by index among the segments.
    pub closed spec fn next(&self) -> Option<usize> {
        self.next
    }

    /// Address of the slot of index `k`.
    pub open spec fn slot_addr(&self, k: int) -> int {
        self.base() + self.offset() + k * self.class()
    }

    /// The segment is well formed: its free list names distinct slots.
    pub closed spec fn wf(&self) -> bool {
        &&& 0 < self.size_class <= self.capacity
        &&& self.offset == self.base % self.size_class
        &&& self.base + self.capacity <= usize::MAX
        &&& self.links@.len() == slot_count(self.capacity as int, self.offset as int, self.size_class as int)
        &&& self.available <= self.links@.len()
        &&& self.available > 0 ==> self.head < self.links@.len()
        &&& self.free().no_duplicates()
        &&& forall|i: int| 0 <= i < self.free().len() ==> 0 <= #[trigger] self.free()[i] < self.links@.len()
    }

    pub proof fn lemma_wf(&self)
        requires
            self.wf(),
        ensures
            self.free().len() <= self.slots() <= MAX_SLOTS,
            0 < self.class() <= self.capacity(),
            0 <= self.offset() < self.class(),
            0 <= self.base(),
            self.base() + self.capacity() <= usize::MAX,
            self.slots() * self.class() + self.offset() <= self.capacity(),
            self.slots() == slot_count(self.capacity(), self.offset(), self.class()),
            self.offset() == self.base() % self.class(),
            forall|i: int| 0 <= i < self.free().len() ==> 0 <= #[trigger] self.free()[i] < self.slots(),
    {
        lemma_chain_len(self.links@, self.head as int, self.available as nat);
        let n = (self.capacity - self.offset) as int / self.size_class as int;
        assert(n * (self.size_class as int) <= self.capacity - self.offset) by (nonlinear_arith)
            requires
                n == (self.capacity - self.offset) as int / self.size_class as int,
                self.size_class > 0,
                self.capacity >= self.offset,
        {
        }
        assert(self.slots() * self.class() <= n * (self.size_class as int)) by (nonlinear_arith)
            requires
                self.slots() <= n,
                self.class() == self.size_class,
                self.size_class > 0,
        {
        }
    }

    /// A segment over the `capacity` bytes at `base`, every slot free and linked to the next
    /// one in order, the last back to the first.
    pub fn at(base: usize, capacity: usize, size_class: usize) -> (r: Self)
        requires
            0 < size_class <= capacity,
            base + capacity <= usize::MAX,
        ensures
            r.wf(),
            r.base() == base,
            r.capacity() == capacity,
            r.class() == size_class,
            r.offset() == base % size_class,
            r.slots() == slot_count(capacity as int, (base % size_class) as int, size_class as int),
            r.free() == Seq::new(r.slots() as nat, |i: int| i),
            r.next() is None,
    {
        let offset = base % size_class;
        let fit = (capacity - offset) / size_class;
        let available = if fit < MAX_SLOTS {
            fit
        } else {
            MAX_SLOTS
        };
        let mut links: Vec<u16> = Vec::new();
        let mut i: usize = 0;
        while i < available
            invariant
                i <= available <= MAX_SLOTS,
                links@.len() == i,
                forall|j: int| 0 <= j < i ==> links@[j] as int == (j + 1) % (available as int),
            decreases available - i,
        {
            let link = ((i + 1) % available) as u16;
            links.push(link);
            i = i + 1;
        }
        let r = Segment { base, capacity, size_class, offset, head: 0, available, links, next: None };
        proof {
            lemma_chain_ring(links@, available as nat, 0);
            assert(r.free() == Seq::new(available as nat, |i: int| i));
            assert(r.free().no_duplicates());
        }
        r
    }

    /// A segment of slots of `size_class` bytes in `capacity + SEGMENT_META_SIZE` bytes, of
    /// order `order`, taken from `page_alloc` at the address it answers; `None` exactly when
    /// the page allocator answers `None`.
    pub fn new<T: PageAllocator>(page_alloc: &T, size_class: usize, capacity: usize, order: u32) -> (r: Option<
        Self,
    >)
        requires
            0 < size_class <= capacity,
            capacity + SEGMENT_META_SIZE == vstd::arithmetic::power2::pow2(order as nat),
            order < usize::BITS,
        ensures
            r matches Some(s) ==> page_alloc.answers(order, Some(s.base() as usize)),
            r is None ==> page_alloc.answers(order, None),
            r matches Some(s) ==> {
                &&& s.wf()
                &&& s.capacity() == capacity
                &&& s.class() == size_class
                &&& s.offset() == s.base() % (size_class as int)
                &&& s.slots() == slot_count(capacity as int, s.base() % (size_class as int), size_class as int)
                &&& s.free() == Seq::new(s.slots() as nat, |i: int| i)
                &&& s.next() is None
                &&& vstd::arithmetic::power2::pow2(order as nat) <= ALLOC_ALIGNMENT ==> s.base() % (
                vstd::arithmetic::power2::pow2(order as nat) as int) == 0
            },
    {
        match page_alloc.allocate(order) {
            Some(base) => {
                if base > usize::MAX - capacity {
                    return None;
                }
                Some(Self::at(base, capacity, size_class))
            },
            None => None,
        }
    }

    /// Takes the slot at the head of the free list and returns its address; `None` when
    /// every slot is taken.
    pub fn allocate(&mut self) -> (r: Option<usize>)
        requires
            old(self).wf(),
        ensures
            final(self).wf(),
            final(self).base() == old(self).base(),
            final(self).capacity() == old(self).capacity(),
            final(self).class() == old(self).class(),
            final(self).offset() == old(self).offset(),
            final(self).slots() == old(self).slots(),
            final(self).next() == old(self).next(),
            old(self).free().len() == 0 ==> r is None && final(self).free() == old(self).free(),
            old(self).free().len() > 0 ==> {
                &&& r == Some(old(self).slot_addr(old(self).free()[0]) as usize)
                &&& final(self).free() == old(self).free().drop_first()
            },
    {
        proof {
            self.lemma_wf();
        }
        if self.available == 0 {
            return None;
        }
        let k = self.head;
        proof {
            assert(self.free()[0] == k);
            assert(self.slots() * self.class() + self.offset() <= self.capacity());
            assert(k * self.size_class + self.offset <= self.slots() * self.class() + self.offset()) by (nonlinear_arith)
                requires
                    k < self.slots(),
                    self.class() == self.size_class,
                    self.size_class > 0,
                    self.offset() == self.offset,
            {
            }
        }
        let addr = self.base + self.offset + k * self.size_class;
        let ghost rest = self.free().drop_first();
        proof {
            assert(rest =~= chain(self.links@, self.links@[k as int] as int, (self.available - 1) as nat));
        }
        self.available = self.available - 1;
        if self.available != 0 {
            self.head = self.links[k] as usize;
            proof {
                assert(rest[0] == self.head);
                assert(self.free() == rest);
                assert(0 <= rest[0] < self.slots());
            }
        } else {
            self.head = 0;
        }
        proof {
            assert(self.free() =~= rest);
            assert forall|i: int| 0 <= i < self.free().len() implies 0 <= #[trigger] self.free()[i] < self.links@.len() by {
                assert(self.free()[i] == old(self).free()[i + 1]);
            }
        }
        Some(addr)
    }

    /// Gives back the slot at `at` and puts it at the head of the free list; returns whether
    /// every slot was taken before.
    pub fn dealloc(&mut self, at: usize) -> (resurrected: bool)
        requires
            old(self).wf(),
            old(self).base() + old(self).offset() <= at,
            (at - old(self).base() - old(self).offset()) % old(self).class() == 0,
            (at - old(self).base() - old(self).offset()) / old(self).class() < old(self).slots(),
            !old(self).free().contains((at - old(self).base() - old(self).offset()) / old(self).class()),
        ensures
            final(self).wf(),
            final(self).base() == old(self).base(),
            final(self).capacity() == old(self).capacity(),
            final(self).class() == old(self).class(),
            final(self).offset() == old(self).offset(),
            final(self).slots() == old(self).slots(),
            final(self).next() == old(self).next(),
            final(self).free() == seq![(at - old(self).base() - old(self).offset()) / old(self).class()] + old(self).free(),
            resurrected == (old(self).free().len() == 0),
    {
        proof {
            self.lemma_wf();
        }
        let start = self.base + self.offset;
        let at_index = (at - start) / self.size_class;
        let ghost old_free = self.free();
        proof {
            lemma_chain_len(self.links@, self.head as int, self.available as nat);
        }
        if self.available == 0 {
            self.available = 1;
            self.head = at_index;
            proof {
                assert(chain(self.links@, self.links@[at_index as int] as int, 0) =~= Seq::<int>::empty());
                assert(old_free =~= Seq::<int>::empty());
                assert(self.free() =~= seq![at_index as int] + old_free);
                assert(self.free()[0] == at_index);
                assert(self.free().len() == 1);
                assert(self.free().no_duplicates());
                assert forall|i: int| 0 <= i < self.free().len() implies 0 <= #[trigger] self.free()[i] < self.links@.len() by {
                    assert(i == 0);
                }
            }
            true
        } else {
            let ghost old_links = self.links@;
            let link = self.head as u16;
            self.links.set(at_index, link);
            proof {
                lemma_chain_update(old_links, self.head as int, self.available as nat, at_index as int, link);
                lemma_chain_len(old_links, self.head as int, self.available as nat);
            }
            self.available = self.available + 1;
            self.head = at_index;
            proof {
                assert(self.links@ == old_links.update(at_index as int, link));
                assert(self.free() =~= seq![at_index as int] + old_free);
                assert forall|i: int| 0 <= i < self.free().len() implies 0 <= #[trigger] self.free()[i] < self.links@.len() by {
                    if i > 0 {
                        assert(self.free()[i] == old_free[i - 1]);
                    }
                }
                assert(self.free().no_duplicates()) by {
                    assert forall|i: int, j: int| 0 <= i < j < self.free().len() implies self.free()[i] != self.free()[j] by {
                        if i == 0 {
                            assert(self.free()[j] == old_free[j - 1]);
                            assert(old_free.contains(old_free[j - 1]));
                        } else {
                            assert(self.free()[i] == old_free[i - 1]);
                            assert(self.free()[j] == old_free[j - 1]);
                        }
                    }
                }
                lemma_distinct_bound(self.free(), self.links@.len() as int);
                lemma_chain_len(self.links@, self.head as int, self.available as nat);
            }
            false
        }
    }

    /// Sets the next segment of the list and returns the one it replaces.
    pub fn replace_next(&mut self, next: Option<usize>) -> (r: Option<usize>)
        requires
            old(self).wf(),
        ensures
            final(self).wf(),
            r == old(self).next(),
            final(self).next() == next,
            final(self).base() == old(self).base(),
            final(self).capacity() == old(self).capacity(),
            final(self).class() == old(self).class(),
            final(self).offset() == old(self).offset(),
            final(self).slots() == old(self).slots(),
            final(self).free() == old(self).free(),
    {
        let r = self.next;
        self.next = next;
        r
    }

    /// Address of the segment.
    pub fn base_addr(&self) -> (r: usize)
        ensures
            r == self.base(),
    {
        self.base
    }

    /// Number of free slots.
    pub fn available(&self) -> (r: usize)
        requires
            self.wf(),
        ensures
            r == self.free().len(),
    {
        proof {
            lemma_chain_len(self.links@, self.head as int, self.available as nat);
        }
        self.available
    }
}

/// A slot handed out by [`Segment::allocate`] can be given back with [`Segment::dealloc`],
/// and giving it back at once leaves the free list as it was.
pub proof fn lemma_slot_round_trip(before: Segment, taken: Segment, at: usize)
    requires
        before.wf(),
        before.free().len() > 0,
        at == before.slot_addr(before.free()[0]),
        taken.wf(),
        taken.base() == before.base(),
        taken.class() == before.class(),
        taken.offset() == before.offset(),
        taken.slots() == before.slots(),
        taken.free() == before.free().drop_first(),
    ensures
        taken.base() + taken.offset() <= at,
        (at - taken.base() - taken.offset()) % taken.class() == 0,
        (at - taken.base() - taken.offset()) / taken.class() < taken.slots(),
        !taken.free().contains((at - taken.base() - taken.offset()) / taken.class()),
        seq![(at - taken.base() - taken.offset()) / taken.class()] + taken.free() == before.free(),
{
    before.lemma_wf();
    let k = before.free()[0];
    assert(0 <= k < before.slots());
    let c = before.class();
    assert((k * c) % c == 0 && (k * c) / c == k && k * c >= 0) by (nonlinear_arith)
        requires
            c > 0,
            k >= 0,
    {
    }
    assert(at - taken.base() - taken.offset() == k * c);
    if taken.free().contains(k) {
        let j = choose|j: int| 0 <= j < taken.free().len() && taken.free()[j] == k;
        assert(before.free()[j + 1] == k);
        assert(before.free()[0] == k);
    }
    assert(seq![k] + taken.free() =~= before.free());
}

/// Two slots handed out one after the other, with no slot given back in between, are not
/// the same slot.
pub proof fn lemma_successive_slots_differ(first: Segment, second: Segment)
    requires
        first.wf(),
        first.free().len() > 1,
        second.free() == first.free().drop_first(),
        second.base() == first.base(),
        second.class() == first.class(),
        second.offset() == first.offset(),
    ensures
        first.slot_addr(first.free()[0]) != second.slot_addr(second.free()[0]),
{
    first.lemma_wf();
    let a = first.free()[0];
    let b = first.free()[1];
    assert(second.free()[0] == b);
    assert(a != b);
    let c = first.class();
    assert(a * c != b * c) by (nonlinear_arith)
        requires
            c > 0,
            a != b,
    {
    }
}

} // verus!
