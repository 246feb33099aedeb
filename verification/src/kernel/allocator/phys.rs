//! The physical page allocator: a set of buddy trees, each covering an aligned run of
//! physical pages from its base address.
use vstd::prelude::*;
use arrayvec::ArrayVec;
use crate::PAGE_SIZE;
use crate::bootinfo::paddr::PAddr;
use super::tree::{AllocTree, TreeAllocError};
use super::tree_math::{aligned, pw};
use super::tree_spec::{first_free_order, alloc_lists, dealloc_lists, range_unused, geometry, lemma_first_free_order, lemma_dealloc_undoes_alloc};

verus! {

#[verifier::external_type_specification]
#[verifier::external_body]
#[verifier::reject_recursive_types(T)]
pub struct ExArrayVec<T, const CAP: usize>(ArrayVec<T, CAP>);

/// What an `ArrayVec` of tree entries holds, from the first element on.
pub uninterp spec fn entries_of(v: ArrayVec<(usize, usize), 256>) -> Seq<(usize, usize)>;

/// `ArrayVec::new_const`: an empty vector.
#[verifier::external_body]
fn entries_new() -> (r: ArrayVec<(usize, usize), 256>)
    ensures
        entries_of(r) == Seq::<(usize, usize)>::empty(),
{
    ArrayVec::new_const()
}


/// `ArrayVec::len`: the number of elements.
#[verifier::external_body]
fn entries_len(v: &ArrayVec<(usize, usize), 256>) -> (r: usize)
    ensures
        r == entries_of(*v).len(),
{
    v.len()
}

/// `ArrayVec::push`: appends an element; it panics when the vector is full.
#[verifier::external_body]
fn entries_push(v: &mut ArrayVec<(usize, usize), 256>, e: (usize, usize))
    requires
        entries_of(*old(v)).len() < 256,
    ensures
        entries_of(*final(v)) == entries_of(*old(v)).push(e),
{
    v.push(e)
}

/// Indexing through `ArrayVec::as_slice`: the element at `i`.
#[verifier::external_body]
fn entries_get(v: &ArrayVec<(usize, usize), 256>, i: usize) -> (r: (usize, usize))
    requires
        i < entries_of(*v).len(),
    ensures
        r == entries_of(*v)[i as int],
{
    v.as_slice()[i]
}

/// The slice method `sort_unstable_by_key` reached through `ArrayVec`, keyed by the first
/// field: the elements are permuted into non-decreasing order of that field.
#[verifier::external_body]
fn entries_sort_by_base(v: &mut ArrayVec<(usize, usize), 256>)
    ensures
        entries_of(*final(v)).to_multiset() == entries_of(*old(v)).to_multiset(),
        forall|i: int, j: int|
            0 <= i <= j < entries_of(*final(v)).len() ==> entries_of(*final(v))[i].0 <= entries_of(*final(v))[j].0,
{
    v.sort_unstable_by_key(|e| e.0)
}

/// A tree of the allocator as the contracts see it: the base address of its first page,
/// its order and its free lists.
pub type TreeView = (usize, int, Seq<Seq<u32>>);

/// The bases are non-decreasing.
pub open spec fn sorted_by_base(v: Seq<TreeView>) -> bool {
    forall|i: int, j: int| 0 <= i <= j < v.len() ==> v[i].0 <= v[j].0
}

/// Position of the last tree whose base is at or below `addr` among the first `n`, or -1.
pub open spec fn last_at_or_below(v: Seq<TreeView>, addr: int, n: int) -> int
    decreases n,
{
    if n <= 0 {
        -1
    } else if v[n - 1].0 <= addr {
        n - 1
    } else {
        last_at_or_below(v, addr, n - 1)
    }
}

/// The first tree, from position `k` on, that can serve an allocation of order `order`, or
/// `v.len()`.
pub open spec fn first_fitting(v: Seq<TreeView>, order: int, k: int) -> int
    decreases v.len() - k,
{
    if k < 0 || k >= v.len() {
        v.len() as int
    } else if order <= v[k].1 && first_free_order(v[k].2, order) <= v[k].1 {
        k
    } else {
        first_fitting(v, order, k + 1)
    }
}

proof fn lemma_first_fitting(v: Seq<TreeView>, order: int, k: int)
    requires
        0 <= k <= v.len(),
    ensures
        k <= first_fitting(v, order, k) <= v.len(),
        first_fitting(v, order, k) < v.len() ==> ({
            let f = first_fitting(v, order, k);
            order <= v[f].1 && first_free_order(v[f].2, order) <= v[f].1
        }),
        forall|i: int|
            k <= i < first_fitting(v, order, k) ==> !(order <= v[i].1 && first_free_order(v[i].2, order) <= v[i].1),
    decreases v.len() - k,
{
    if k < v.len() && !(order <= v[k].1 && first_free_order(v[k].2, order) <= v[k].1) {
        lemma_first_fitting(v, order, k + 1);
    }
}

/// Allocates physical pages from a set of buddy trees, each managing `2^order` pages from
/// its base address.
pub struct PhysicalPageAllocator {
    trees: ArrayVec<(usize, usize), 256>,
    store: Vec<AllocTree>,
}

impl PhysicalPageAllocator {
    /// The trees in the order the allocator tries them.
    pub closed spec fn trees_view(&self) -> Seq<TreeView> {
        entries_of(self.trees).map_values(
            |e: (usize, usize)| (e.0, self.store@[e.1 as int].order(), self.store@[e.1 as int].free_lists()),
        )
    }

    /// Every tree is well formed, fits below `usize::MAX` with its pages, and the trees are
    /// held in distinct slots.
    pub closed spec fn wf(&self) -> bool {
        let e = entries_of(self.trees);
        &&& e.len() == self.store@.len()
        &&& e.len() <= 256
        &&& forall|k: int| 0 <= k < e.len() ==> (#[trigger] e[k]).1 < self.store@.len()
        &&& forall|k1: int, k2: int| 0 <= k1 < e.len() && 0 <= k2 < e.len() && k1 != k2 ==> #[trigger] e[k1].1
            != #[trigger] e[k2].1
        &&& forall|s: int| 0 <= s < self.store@.len() ==> (#[trigger] self.store@[s]).wf()
        &&& forall|k: int|
            0 <= k < e.len() ==> (#[trigger] e[k]).0 + pw(self.store@[e[k].1 as int].order()) * (PAGE_SIZE as int)
                <= usize::MAX
    }

    /// An allocator with no tree.
    pub fn new() -> (r: Self)
        ensures
            r.wf(),
            r.trees_view() == Seq::<TreeView>::empty(),
    {
        let r = Self { trees: entries_new(), store: Vec::new() };
        assert(r.trees_view() =~= Seq::<TreeView>::empty());
        r
    }

    /// Number of trees.
    pub fn tree_count(&self) -> (r: usize)
        requires
            self.wf(),
        ensures
            r == self.trees_view().len(),
    {
        entries_len(&self.trees)
    }

    /// Adds `tree`, managing the pages from `base` on, after the other trees.
    pub fn push_tree(&mut self, base: PAddr, tree: AllocTree)
        requires
            old(self).wf(),
            old(self).trees_view().len() < 256,
            tree.wf(),
            base.0 + pw(tree.order()) * (PAGE_SIZE as int) <= usize::MAX,
        ensures
            final(self).wf(),
            final(self).trees_view() == old(self).trees_view().push((base.0, tree.order(), tree.free_lists())),
    {
        let ghost e0 = entries_of(self.trees);
        let slot = self.store.len();
        entries_push(&mut self.trees, (base.0, slot));
        self.store.push(tree);
        proof {
            let e = entries_of(self.trees);
            assert(self.trees_view() =~= old(self).trees_view().push((base.0, tree.order(), tree.free_lists()))) by {
                assert forall|k: int| 0 <= k < e0.len() implies self.trees_view()[k] == old(self).trees_view()[k] by {
                    assert(e[k] == e0[k]);
                    assert(self.store@[e[k].1 as int] == old(self).store@[e[k].1 as int]);
                }
            }
        }
    }

    /// Orders the trees by base address.
    pub fn sort_tree(&mut self)
        requires
            old(self).wf(),
        ensures
            final(self).wf(),
            final(self).trees_view().len() == old(self).trees_view().len(),
            final(self).trees_view().to_set() == old(self).trees_view().to_set(),
            sorted_by_base(final(self).trees_view()),
    {
        let ghost e0 = entries_of(self.trees);
        entries_sort_by_base(&mut self.trees);
        proof {
            let e = entries_of(self.trees);
            lemma_permuted_entries(e0, e);
            assert forall|k: int| 0 <= k < e.len() implies (#[trigger] e[k]).1 < self.store@.len() && e[k].0 + pw(
                self.store@[e[k].1 as int].order(),
            ) * (PAGE_SIZE as int) <= usize::MAX by {
                assert(e0.contains(e[k]));
                let a = choose|k0: int| 0 <= k0 < e0.len() && e0[k0] == e[k];
                assert(e0[a] == e[k]);
            }
            let f = |x: (usize, usize)| (x.0, self.store@[x.1 as int].order(), self.store@[x.1 as int].free_lists());
            lemma_map_same_set(e0, e, f);
            assert(self.trees_view() == e.map_values(f));
            assert(old(self).trees_view() == e0.map_values(f));
        }
    }

    /// The free lists of every tree have the geometry of a tree of its order.
    pub proof fn lemma_trees_geometry(&self)
        requires
            self.wf(),
        ensures
            forall|k: int| 0 <= k < self.trees_view().len() ==> tree_ok(#[trigger] self.trees_view()[k]),
    {
        let e = entries_of(self.trees);
        assert forall|k: int| 0 <= k < self.trees_view().len() implies tree_ok(#[trigger] self.trees_view()[k]) by {
            assert(e[k].1 < self.store@.len());
            let t = self.store@[e[k].1 as int];
            assert(t.wf());
            t.lemma_geometry();
            assert(self.trees_view()[k] == (e[k].0, t.order(), t.free_lists()));
        }
    }

    /// Allocates `2^order` pages from the first tree, in order, that has a free block of
    /// order `order` or above, and returns the address of the first page.
    pub fn allocate(&mut self, order: u32) -> (r: Result<PAddr, TreeAllocError>)
        requires
            old(self).wf(),
        ensures
            final(self).wf(),
            ({
                let v0 = old(self).trees_view();
                let k = first_fitting(v0, order as int, 0);
                match r {
                    Ok(a) => {
                        let c = first_free_order(v0[k].2, order as int);
                        let j = v0[k].2[c][0];
                        &&& k < v0.len()
                        &&& a.0 == v0[k].0 + j * PAGE_SIZE
                        &&& final(self).trees_view() == v0.update(k, (v0[k].0, v0[k].1, alloc_lists(v0[k].2, order as int, c, j as int)))
                    },
                    Err(TreeAllocError::InsufficientSpace { requested_order }) => {
                        &&& requested_order == order
                        &&& k == v0.len()
                        &&& final(self).trees_view() == v0
                    },
                }
            }),
    {
        let ghost v0 = self.trees_view();
        proof {
            lemma_first_fitting(v0, order as int, 0);
        }
        let n = entries_len(&self.trees);
        let mut last_error = TreeAllocError::InsufficientSpace { requested_order: order };
        let mut k: usize = 0;
        while k < n
            invariant
                self.wf(),
                self.trees == old(self).trees,
                self.trees_view() == v0,
                old(self).trees_view() == v0,
                n == v0.len(),
                k <= n,
                last_error == (TreeAllocError::InsufficientSpace { requested_order: order }),
                forall|i: int| 0 <= i < k ==> !(order <= v0[i].1 && first_free_order(v0[i].2, order as int) <= v0[i].1),
            decreases n - k,
        {
            let ghost e = entries_of(self.trees);
            let (base, slot) = entries_get(&self.trees, k);
            let ghost before = self.store@;
            assert(self.store@[slot as int].wf());
            match self.store[slot].allocate(order) {
                Ok(index) => {
                    proof {
                        let m = before[slot as int].order();
                        assert(v0[k as int] == (base, m, before[slot as int].free_lists()));
                        assert(base + pw(m) * (PAGE_SIZE as int) <= usize::MAX);
                        super::tree_math::lemma_pw_basics(order as int);
                        assert(index * (PAGE_SIZE as int) < pw(m) * (PAGE_SIZE as int)) by (nonlinear_arith)
                            requires
                                index + pw(order as int) <= pw(m),
                                pw(order as int) >= 1,
                                index >= 0,
                        {
                        }
                        super::tree_math::lemma_pw_basics(order as int);
                        assert(first_fitting(v0, order as int, 0) == k) by {
                            lemma_first_fitting_at(v0, order as int, k as int);
                        }
                        assert forall|s: int| 0 <= s < self.store@.len() implies (#[trigger] self.store@[s]).wf() by {
                            if s != slot {
                                assert(self.store@[s] == before[s]);
                            }
                        }
                        assert forall|i: int| 0 <= i < e.len() implies (#[trigger] e[i]).0 + pw(self.store@[e[i].1 as int].order())
                            * (PAGE_SIZE as int) <= usize::MAX by {
                            if e[i].1 != slot {
                                assert(self.store@[e[i].1 as int] == before[e[i].1 as int]);
                            }
                        }
                        assert(self.trees_view() =~= v0.update(
                            k as int,
                            (v0[k as int].0, v0[k as int].1, alloc_lists(
                                v0[k as int].2,
                                order as int,
                                first_free_order(v0[k as int].2, order as int),
                                v0[k as int].2[first_free_order(v0[k as int].2, order as int)][0] as int,
                            )),
                        )) by {
                            assert forall|i: int| 0 <= i < e.len() && i != k implies self.trees_view()[i] == v0[i] by {
                                assert(e[i].1 != slot);
                                assert(self.store@[e[i].1 as int] == before[e[i].1 as int]);
                            }
                        }
                    }
                    let a = PAddr::new(base).byte_add(index as usize * PAGE_SIZE);
                    proof {
                        let c = first_free_order(v0[k as int].2, order as int);
                        assert(index == v0[k as int].2[c][0]);
                    }
                    return Ok(a);
                },
                Err(e2) => {
                    last_error = e2;
                },
            }
            proof {
                assert(self.trees_view() =~= v0) by {
                    assert forall|i: int| 0 <= i < e.len() implies self.trees_view()[i] == v0[i] by {
                        if e[i].1 != slot {
                            assert(self.store@[e[i].1 as int] == before[e[i].1 as int]);
                        }
                    }
                }
                assert forall|s: int| 0 <= s < self.store@.len() implies (#[trigger] self.store@[s]).wf() by {
                    if s != slot {
                        assert(self.store@[s] == before[s]);
                    }
                }
                assert forall|i: int| 0 <= i < e.len() implies (#[trigger] e[i]).0 + pw(self.store@[e[i].1 as int].order())
                    * (PAGE_SIZE as int) <= usize::MAX by {
                    if e[i].1 != slot {
                        assert(self.store@[e[i].1 as int] == before[e[i].1 as int]);
                    }
                }
            }
            k = k + 1;
        }
        proof {
            lemma_first_fitting_none(v0, order as int, 0);
        }
        Err(last_error)
    }

    /// Binary search among the trees, which must be sorted by base: the number of trees whose
    /// base is at or below `addr`, which come first.
    fn search_base(&self, addr: usize) -> (r: usize)
        requires
            self.wf(),
            sorted_by_base(self.trees_view()),
        ensures
            r <= self.trees_view().len(),
            forall|j: int| 0 <= j < r ==> self.trees_view()[j].0 <= addr,
            forall|j: int| r <= j < self.trees_view().len() ==> self.trees_view()[j].0 > addr,
    {
        let ghost v = self.trees_view();
        let mut lo: usize = 0;
        let mut hi: usize = entries_len(&self.trees);
        while lo < hi
            invariant
                self.wf(),
                v == self.trees_view(),
                sorted_by_base(v),
                0 <= lo <= hi <= v.len(),
                forall|j: int| 0 <= j < lo ==> v[j].0 <= addr,
                forall|j: int| hi <= j < v.len() ==> v[j].0 > addr,
            decreases hi - lo,
        {
            let mid = lo + (hi - lo) / 2;
            let (base, _slot) = entries_get(&self.trees, mid);
            assert(v[mid as int].0 == base);
            if base <= addr {
                lo = mid + 1;
            } else {
                hi = mid;
            }
        }
        lo
    }

    /// Frees `2^order` pages at `addr` into the tree whose base is the last one at or below
    /// `addr`, when the page index from that base is inside the tree; does nothing otherwise.
    pub fn dealloc(&mut self, addr: PAddr, order: u32)
        requires
            old(self).wf(),
            sorted_by_base(old(self).trees_view()),
            ({
                let v = old(self).trees_view();
                let k = last_at_or_below(v, addr.0 as int, v.len() as int);
                let idx = (addr.0 - v[k].0) / (PAGE_SIZE as int);
                &&& k >= 0
                &&& idx <= u32::MAX
                &&& idx < pw(v[k].1) ==> {
                    &&& order <= v[k].1
                    &&& aligned(idx, order as int)
                    &&& idx + pw(order as int) <= pw(v[k].1)
                    &&& range_unused(v[k].2, idx, idx + pw(order as int))
                }
            }),
        ensures
            final(self).wf(),
            ({
                let v = old(self).trees_view();
                let k = last_at_or_below(v, addr.0 as int, v.len() as int);
                let idx = (addr.0 - v[k].0) / (PAGE_SIZE as int);
                final(self).trees_view() == if idx < pw(v[k].1) {
                    v.update(k, (v[k].0, v[k].1, dealloc_lists(v[k].2, idx, order as int, v[k].1)))
                } else {
                    v
                }
            }),
    {
        let ghost v = self.trees_view();
        let ghost e = entries_of(self.trees);
        let below = self.search_base(addr.0);
        proof {
            if below == 0 {
                lemma_last_none(v, addr.0 as int, v.len() as int);
            }
        }
        let tree_index = below - 1;
        proof {
            lemma_last_at(v, addr.0 as int, tree_index as int, v.len() as int);
        }
        let (base, slot) = entries_get(&self.trees, tree_index);
        let index = ((addr.0 - base) / PAGE_SIZE) as u32;
        let ghost before = self.store@;
        assert(before[slot as int].wf());
        if index < self.store[slot].node_count() {
            self.store[slot].dealloc(index, order);
            proof {
                assert forall|s: int| 0 <= s < self.store@.len() implies (#[trigger] self.store@[s]).wf() by {
                    if s != slot {
                        assert(self.store@[s] == before[s]);
                    }
                }
                assert forall|i: int| 0 <= i < e.len() implies (#[trigger] e[i]).0 + pw(self.store@[e[i].1 as int].order())
                    * (PAGE_SIZE as int) <= usize::MAX by {
                    if e[i].1 != slot {
                        assert(self.store@[e[i].1 as int] == before[e[i].1 as int]);
                    }
                }
                assert(self.trees_view() =~= v.update(
                    tree_index as int,
                    (v[tree_index as int].0, v[tree_index as int].1, dealloc_lists(
                        v[tree_index as int].2,
                        index as int,
                        order as int,
                        v[tree_index as int].1,
                    )),
                )) by {
                    assert forall|i: int| 0 <= i < e.len() && i != tree_index implies self.trees_view()[i] == v[i] by {
                        assert(e[i].1 != slot);
                        assert(self.store@[e[i].1 as int] == before[e[i].1 as int]);
                    }
                }
            }
        }
    }
}

proof fn lemma_last_none(v: Seq<TreeView>, addr: int, n: int)
    requires
        0 <= n <= v.len(),
        forall|j: int| 0 <= j < n ==> v[j].0 > addr,
    ensures
        last_at_or_below(v, addr, n) == -1,
    decreases n,
{
    if n > 0 {
        lemma_last_none(v, addr, n - 1);
    }
}

proof fn lemma_last_at(v: Seq<TreeView>, addr: int, k: int, n: int)
    requires
        0 <= k < n <= v.len(),
        v[k].0 <= addr,
        forall|j: int| k < j < n ==> v[j].0 > addr,
    ensures
        last_at_or_below(v, addr, n) == k,
    decreases n,
{
    if n - 1 > k {
        lemma_last_at(v, addr, k, n - 1);
    }
}

proof fn lemma_first_fitting_at(v: Seq<TreeView>, order: int, k: int)
    requires
        0 <= k < v.len(),
        order <= v[k].1 && first_free_order(v[k].2, order) <= v[k].1,
        forall|i: int| 0 <= i < k ==> !(order <= v[i].1 && first_free_order(v[i].2, order) <= v[i].1),
    ensures
        first_fitting(v, order, 0) == k,
{
    lemma_first_fitting_from(v, order, 0, k);
}

proof fn lemma_first_fitting_from(v: Seq<TreeView>, order: int, i: int, k: int)
    requires
        0 <= i <= k < v.len(),
        order <= v[k].1 && first_free_order(v[k].2, order) <= v[k].1,
        forall|x: int| i <= x < k ==> !(order <= v[x].1 && first_free_order(v[x].2, order) <= v[x].1),
    ensures
        first_fitting(v, order, i) == k,
    decreases k - i,
{
    if i < k {
        lemma_first_fitting_from(v, order, i + 1, k);
    }
}

proof fn lemma_first_fitting_none(v: Seq<TreeView>, order: int, i: int)
    requires
        0 <= i <= v.len(),
        forall|x: int| i <= x < v.len() ==> !(order <= v[x].1 && first_free_order(v[x].2, order) <= v[x].1),
    ensures
        first_fitting(v, order, i) == v.len(),
    decreases v.len() - i,
{
    if i < v.len() {
        lemma_first_fitting_none(v, order, i + 1);
    }
}

/// A permutation of entries with distinct slots: same length, same elements, and still
/// distinct slots.
proof fn lemma_permuted_entries(e0: Seq<(usize, usize)>, e: Seq<(usize, usize)>)
    requires
        e.to_multiset() == e0.to_multiset(),
        forall|k1: int, k2: int| 0 <= k1 < e0.len() && 0 <= k2 < e0.len() && k1 != k2 ==> #[trigger] e0[k1].1
            != #[trigger] e0[k2].1,
    ensures
        e.len() == e0.len(),
        forall|k: int| 0 <= k < e.len() ==> e0.contains(#[trigger] e[k]),
        forall|k0: int| 0 <= k0 < e0.len() ==> e.contains(#[trigger] e0[k0]),
        forall|k1: int, k2: int| 0 <= k1 < e.len() && 0 <= k2 < e.len() && k1 != k2 ==> #[trigger] e[k1].1
            != #[trigger] e[k2].1,
{
    e.to_multiset_ensures();
    e0.to_multiset_ensures();
    assert forall|k: int| 0 <= k < e.len() implies e0.contains(#[trigger] e[k]) by {
        assert(e.contains(e[k]));
        assert(e0.to_multiset().count(e[k]) > 0);
        assert(e0.contains(e[k]));
    }
    assert forall|k0: int| 0 <= k0 < e0.len() implies e.contains(#[trigger] e0[k0]) by {
        assert(e0.contains(e0[k0]));
        assert(e.to_multiset().count(e0[k0]) > 0);
        assert(e.contains(e0[k0]));
    }
    assert(e0.no_duplicates()) by {
        assert forall|i: int, j: int| 0 <= i < e0.len() && 0 <= j < e0.len() && i != j implies e0[i] != e0[j] by {
            assert(e0[i].1 != e0[j].1);
        }
    }
    e0.lemma_multiset_has_no_duplicates();
    e.lemma_multiset_has_no_duplicates_conv();
    assert forall|k1: int, k2: int| 0 <= k1 < e.len() && 0 <= k2 < e.len() && k1 != k2 implies #[trigger] e[k1].1
        != #[trigger] e[k2].1 by {
        assert(e[k1] != e[k2]);
        let a1 = choose|k0: int| 0 <= k0 < e0.len() && e0[k0] == e[k1];
        let a2 = choose|k0: int| 0 <= k0 < e0.len() && e0[k0] == e[k2];
        assert(a1 != a2);
    }
}

/// Two sequences holding the same elements map to sequences holding the same elements.
proof fn lemma_map_same_set(e0: Seq<(usize, usize)>, e: Seq<(usize, usize)>, f: spec_fn((usize, usize)) -> TreeView)
    requires
        forall|k: int| 0 <= k < e.len() ==> e0.contains(#[trigger] e[k]),
        forall|k0: int| 0 <= k0 < e0.len() ==> e.contains(#[trigger] e0[k0]),
    ensures
        e.map_values(f).to_set() == e0.map_values(f).to_set(),
{
    let v = e.map_values(f);
    let v0 = e0.map_values(f);
    assert forall|x: TreeView| v.to_set().contains(x) <==> v0.to_set().contains(x) by {
        if v.to_set().contains(x) {
            let k = choose|k: int| 0 <= k < v.len() && v[k] == x;
            assert(e0.contains(e[k]));
            let k0 = choose|k0: int| 0 <= k0 < e0.len() && e0[k0] == e[k];
            assert(v0[k0] == x);
        }
        if v0.to_set().contains(x) {
            let k0 = choose|k0: int| 0 <= k0 < v0.len() && v0[k0] == x;
            assert(e.contains(e0[k0]));
            let k = choose|k: int| 0 <= k < e.len() && e[k] == e0[k0];
            assert(v[k] == x);
        }
    }
    assert(v.to_set() =~= v0.to_set());
}

/// The free lists of a tree have the geometry of a tree of its order, at most 31.
pub open spec fn tree_ok(t: TreeView) -> bool {
    &&& geometry(t.2, t.1)
    &&& 0 <= t.1
    &&& t.1 <= 31
}

/// Freeing, with the same order, the pages that an allocation just handed out gives back the
/// trees from before the allocation, for trees sorted by base: the address leads back to the
/// tree and the page it came from, wherever no later tree starts at or below that address.
/// (Where one does, as with trees of order 1 at 0x1000 and 0x2000 and a second page of order
/// 0 handed out at 0x2000, the free goes to that later tree instead.)
pub proof fn lemma_phys_dealloc_undoes_alloc(v0: Seq<TreeView>, order: int)
    requires
        sorted_by_base(v0),
        forall|k: int| 0 <= k < v0.len() ==> tree_ok(#[trigger] v0[k]),
        0 <= order,
        first_fitting(v0, order, 0) < v0.len(),
        ({
            let k = first_fitting(v0, order, 0);
            let c = first_free_order(v0[k].2, order);
            let addr = v0[k].0 + v0[k].2[c][0] * (PAGE_SIZE as int);
            forall|i: int| k < i < v0.len() ==> v0[i].0 > addr
        }),
    ensures
        ({
            let k = first_fitting(v0, order, 0);
            let c = first_free_order(v0[k].2, order);
            let j = v0[k].2[c][0] as int;
            let v1 = v0.update(k, (v0[k].0, v0[k].1, alloc_lists(v0[k].2, order, c, j)));
            let addr = v0[k].0 + j * (PAGE_SIZE as int);
            let k2 = last_at_or_below(v1, addr, v1.len() as int);
            let idx = (addr - v1[k2].0) / (PAGE_SIZE as int);
            &&& sorted_by_base(v1)
            &&& k2 == k
            &&& idx == j
            &&& idx < pw(v1[k2].1)
            &&& v1.update(k2, (v1[k2].0, v1[k2].1, dealloc_lists(v1[k2].2, idx, order, v1[k2].1))) == v0
        }),
{
    lemma_first_fitting(v0, order, 0);
    let k = first_fitting(v0, order, 0);
    let m = v0[k].1;
    let l0 = v0[k].2;
    assert(tree_ok(v0[k]));
    lemma_first_free_order(l0, order);
    let c = first_free_order(l0, order);
    let j = l0[c][0] as int;
    let v1 = v0.update(k, (v0[k].0, m, alloc_lists(l0, order, c, j)));
    let addr = v0[k].0 + j * (PAGE_SIZE as int);
    // the block lies inside tree k
    assert(j + pw(c) <= pw(m)) by {
        assert(super::tree_spec::valid_pos(l0, c, 0));
    }
    super::tree_math::lemma_pw_basics(c);
    assert forall|i: int, i2: int| 0 <= i <= i2 < v1.len() implies v1[i].0 <= v1[i2].0 by {
        assert(v0[i].0 <= v0[i2].0);
    }
    assert forall|i: int| k < i < v1.len() implies v1[i].0 > addr by {
        assert(v0[i].0 > addr);
    }
    assert(j >= 0);
    assert(addr >= v1[k].0) by (nonlinear_arith)
        requires
            addr == v0[k].0 + j * (PAGE_SIZE as int),
            j >= 0,
            v1[k].0 == v0[k].0,
    ;
    lemma_last_at(v1, addr, k, v1.len() as int);
    assert((addr - v1[k].0) / (PAGE_SIZE as int) == j) by {
        vstd::arithmetic::div_mod::lemma_div_multiples_vanish(j, PAGE_SIZE as int);
    }
    lemma_dealloc_undoes_alloc(l0, m, order);
    assert(v1.update(k, (v1[k].0, v1[k].1, dealloc_lists(v1[k].2, j, order, m))) =~= v0);
}

} // verus!
