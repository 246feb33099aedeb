//! A binary buddy allocator over `2^max_order` pages, kept as one free list per order
//! plus a split bitset with one bit per pair of buddies.
use vstd::prelude::*;
use super::bitset::{AllocBitset, bit_at, blocks_for};
use crate::num::{ilog2, log2_floor};
use super::tree_math::{aligned, bidx, buddy_of, parent_of, pw, lemma_pair, lemma_split, lemma_u32_block_ops, lemma_u32_bit_index, lemma_pw_basics};
use super::tree_spec::{valid_pos, seq_has, fresh_lists, index_in, in_lists, distinct, geometry, range_unused, free_pages, page_range, wf_bits, first_free_order, alloc_lists, alloc_partial, dealloc_lists, flipped, lemma_first_free_order, lemma_alloc_take, lemma_alloc_split, lemma_dealloc_merge, lemma_dealloc_settle, lemma_bit_in_range, lemma_unused_not_in_lists};

verus! {

/// Why an allocation from an [`AllocTree`] failed.
#[derive(Clone, Copy)]
pub enum TreeAllocError {
    InsufficientSpace { requested_order: u32 },
}

/// A layout could not be built: its size would overflow `isize::MAX`.
#[derive(Clone, Copy)]
pub struct LayoutError;

/// Bytes the metadata of a tree of order `m` takes before padding: the header (order and two
/// offsets), `m + 1` list heads, `2^m` list nodes and the split bitset of `2^m - 1` bits.
pub open spec fn tree_layout_unpadded(m: int) -> int {
    28 + 4 * m + 8 * pw(m) + 4 * blocks_for((pw(m) - 1) as nat)
}

/// `x` rounded up to a multiple of 8.
pub open spec fn round_up_8(x: int) -> int {
    if x % 8 == 0 {
        x
    } else {
        x + 8 - x % 8
    }
}

/// Size, alignment and field offsets of the metadata of a tree.
#[derive(Clone, Copy)]
pub struct AllocTreeLayout {
    size: usize,
    align: usize,
    free_nodes_offset_abs: usize,
    nodes_offset_abs: usize,
    split_bitset_offset_abs: usize,
    max_order: u32,
}

impl AllocTreeLayout {
    /// Order of the tree this layout is for.
    pub closed spec fn order(&self) -> int {
        self.max_order as int
    }

    /// Size in bytes of the metadata.
    pub closed spec fn byte_size(&self) -> int {
        self.size as int
    }

    /// Alignment in bytes of the metadata.
    pub closed spec fn byte_align(&self) -> int {
        self.align as int
    }

    /// Offsets of the list heads, the list nodes and the split bitset.
    pub closed spec fn offsets(&self) -> (int, int, int) {
        (self.free_nodes_offset_abs as int, self.nodes_offset_abs as int, self.split_bitset_offset_abs as int)
    }

    /// Number of pages the tree manages.
    pub fn node_count(&self) -> (r: usize)
        requires
            self.order() < usize::BITS,
        ensures
            r == pw(self.order()),
    {
        proof {
            vstd::bits::lemma_usize_pow2_no_overflow(self.max_order as nat);
            vstd::bits::lemma_usize_shl_is_mul(1, self.max_order as usize);
        }
        1usize << self.max_order
    }

    /// Size in bytes of the metadata.
    pub fn size(&self) -> (r: usize)
        ensures
            r == self.byte_size(),
    {
        self.size
    }

    /// Alignment in bytes of the metadata.
    pub fn align(&self) -> (r: usize)
        ensures
            r == self.byte_align(),
    {
        self.align
    }
}

#[derive(Clone, Copy)]
struct ListNode {
    prev: Option<u32>,
    next: Option<u32>,
}

spec fn node_linked(lists: Seq<Seq<u32>>, nodes: Seq<ListNode>, o: int, k: int) -> bool {
    &&& nodes[lists[o][k] as int].prev == (if k == 0 {
        None
    } else {
        Some(lists[o][k - 1])
    })
    &&& nodes[lists[o][k] as int].next == (if k + 1 < lists[o].len() {
        Some(lists[o][k + 1])
    } else {
        None
    })
}

spec fn head_of(s: Seq<u32>) -> Option<u32> {
    if s.len() == 0 {
        None
    } else {
        Some(s[0])
    }
}

/// The heads and the node links spell out exactly the ghost free lists.
spec fn wf_links(lists: Seq<Seq<u32>>, heads: Seq<Option<u32>>, nodes: Seq<ListNode>) -> bool {
    &&& heads.len() == lists.len()
    &&& forall|o: int| 0 <= o < lists.len() ==> #[trigger] heads[o] == head_of(lists[o])
    &&& forall|o: int, k: int|
        valid_pos(lists, o, k) ==> (#[trigger] lists[o][k] as int) < nodes.len() && node_linked(
            lists,
            nodes,
            o,
            k,
        )
    &&& forall|n: int|
        0 <= n < nodes.len() && !in_lists(lists, n) ==> (#[trigger] nodes[n]).prev is None && nodes[n].next is None
    &&& distinct(lists)
}

/// A binary buddy tree over `2^max_order` pages.
pub struct AllocTree {
    max_order: u32,
    heads: Vec<Option<u32>>,
    list_nodes: Vec<ListNode>,
    split_bitset: AllocBitset,
    lists: Ghost<Seq<Seq<u32>>>,
}

impl AllocTree {
    /// The layout of the metadata of a tree managing the largest power of two of pages that
    /// fits in `count`.
    pub fn layout(count: usize) -> (r: Result<AllocTreeLayout, LayoutError>)
        requires
            count > 0,
        ensures
            match r {
                Ok(l) => {
                    &&& l.order() == log2_floor(count as nat)
                    &&& tree_layout_unpadded(l.order()) <= isize::MAX - 7
                    &&& l.byte_size() == round_up_8(tree_layout_unpadded(l.order()))
                    &&& l.byte_align() == 8
                    &&& l.offsets() == (24int, 28 + 4 * l.order(), 28 + 4 * l.order() + 8 * pw(l.order()))
                },
                Err(_) => tree_layout_unpadded(log2_floor(count as nat) as int) > isize::MAX - 7,
            },
    {
        let max_order = ilog2(count);
        proof {
            if max_order >= usize::BITS {
                super::tree_math::lemma_pw_mono(usize::BITS as int, max_order as int);
                assert(pw(usize::BITS as int) > usize::MAX) by {
                    vstd::arithmetic::power2::lemma2_to64();
                    vstd::arithmetic::power2::lemma2_to64_rest();
                }
            }
            vstd::bits::lemma_usize_pow2_no_overflow(max_order as nat);
            vstd::bits::lemma_usize_shl_is_mul(1, max_order as usize);
        }
        let taken: usize = 1usize << max_order;
        let m = max_order as usize;
        let nodes_offset_abs: usize = 24 + (m + 1) * 4;
        let nodes_size = match taken.checked_mul(8) {
            Some(v) => v,
            None => return Err(LayoutError),
        };
        let split_bitset_offset_abs = match nodes_offset_abs.checked_add(nodes_size) {
            Some(v) => v,
            None => return Err(LayoutError),
        };
        let bits_size = AllocBitset::size_for(taken - 1) * 4;
        let total = match split_bitset_offset_abs.checked_add(bits_size) {
            Some(v) => v,
            None => return Err(LayoutError),
        };
        if total > (isize::MAX as usize) - 7 {
            return Err(LayoutError);
        }
        let size = if total % 8 == 0 {
            total
        } else {
            total + 8 - total % 8
        };
        Ok(AllocTreeLayout {
            size,
            align: 8,
            free_nodes_offset_abs: 24,
            nodes_offset_abs,
            split_bitset_offset_abs,
            max_order,
        })
    }
}

impl AllocTree {
    spec fn links_ok(&self) -> bool {
        wf_links(self.lists@, self.heads@, self.list_nodes@)
    }

    fn list_pop_front(&mut self, o: u32) -> (head: u32)
        requires
            old(self).links_ok(),
            (o as int) < old(self).lists@.len(),
            old(self).lists@[o as int].len() > 0,
        ensures
            final(self).links_ok(),
            head == old(self).lists@[o as int][0],
            final(self).lists@ == old(self).lists@.update(o as int, old(self).lists@[o as int].drop_first()),
            final(self).max_order == old(self).max_order,
            final(self).split_bitset == old(self).split_bitset,
            final(self).list_nodes@.len() == old(self).list_nodes@.len(),
    {
        let ghost l = self.lists@;
        let ghost nodes0 = self.list_nodes@;
        assert(self.heads@[o as int] == head_of(l[o as int]));
        let head = self.heads[o as usize].unwrap();
        assert(valid_pos(l, o as int, 0));
        let nd = self.list_nodes[head as usize];
        self.heads.set(o as usize, None);
        let mut hn = nd;
        hn.next = None;
        self.list_nodes.set(head as usize, hn);
        if let Some(new_head) = nd.next {
            assert(valid_pos(l, o as int, 1));
            let mut nn = self.list_nodes[new_head as usize];
            nn.prev = None;
            self.list_nodes.set(new_head as usize, nn);
            self.heads.set(o as usize, Some(new_head));
        }
        let ghost nl = l.update(o as int, l[o as int].drop_first());
        self.lists = Ghost(nl);
        proof {
            let nodes = self.list_nodes@;
            assert forall|o2: int| 0 <= o2 < nl.len() implies #[trigger] self.heads@[o2] == head_of(nl[o2]) by {
                if o2 == o as int {
                    if l[o as int].len() > 1 {
                        assert(valid_pos(l, o as int, 1));
                    }
                }
            }
            assert forall|o2: int, k2: int| valid_pos(nl, o2, k2) implies (#[trigger] nl[o2][k2] as int)
                < nodes.len() && node_linked(nl, nodes, o2, k2) by {
                if o2 == o as int {
                    assert(valid_pos(l, o2, k2 + 1));
                    assert(nl[o2][k2] == l[o2][k2 + 1]);
                    if k2 > 0 {
                        assert(valid_pos(l, o2, k2));
                        assert(l[o2][k2 + 1] != l[o2][0]);
                        assert(l[o2][k2 + 1] != l[o2][1]);
                    }
                    if k2 + 1 < nl[o2].len() {
                        assert(valid_pos(l, o2, k2 + 2));
                    }
                } else {
                    assert(valid_pos(l, o2, k2));
                    assert(nl[o2][k2] == l[o2][k2]);
                    assert(valid_pos(l, o as int, 0));
                    assert(l[o2][k2] != l[o as int][0]);
                    if l[o as int].len() > 1 {
                        assert(valid_pos(l, o as int, 1));
                        assert(l[o2][k2] != l[o as int][1]);
                    }
                    if k2 > 0 {
                        assert(valid_pos(l, o2, k2 - 1));
                    }
                    if k2 + 1 < nl[o2].len() {
                        assert(valid_pos(l, o2, k2 + 1));
                    }
                }
            }
            assert forall|n: int| 0 <= n < nodes.len() && !in_lists(nl, n) implies (#[trigger] nodes[n]).prev
                is None && nodes[n].next is None by {
                if n == head as int {
                    assert(node_linked(l, nodes0, o as int, 0));
                } else if in_lists(l, n) {
                    let (o3, k3) = choose|o3: int, k3: int| valid_pos(l, o3, k3) && l[o3][k3] == n;
                    if o3 == o as int {
                        if k3 == 0 {
                            assert(false);
                        } else {
                            assert(valid_pos(nl, o3, k3 - 1));
                            assert(nl[o3][k3 - 1] == n);
                            assert(false);
                        }
                    } else {
                        assert(valid_pos(nl, o3, k3));
                        assert(nl[o3][k3] == n);
                        assert(false);
                    }
                } else {
                    if l[o as int].len() > 1 {
                        assert(valid_pos(l, o as int, 1));
                    }
                    assert(nodes[n] == nodes0[n]);
                }
            }
            assert forall|o1: int, k1: int, o2: int, k2: int|
                valid_pos(nl, o1, k1) && valid_pos(nl, o2, k2) && (o1 != o2 || k1 != k2) implies #[trigger] nl[o1][k1]
                != #[trigger] nl[o2][k2] by {
                let kk1 = if o1 == o as int { k1 + 1 } else { k1 };
                let kk2 = if o2 == o as int { k2 + 1 } else { k2 };
                assert(valid_pos(l, o1, kk1));
                assert(valid_pos(l, o2, kk2));
                assert(nl[o1][k1] == l[o1][kk1]);
                assert(nl[o2][k2] == l[o2][kk2]);
            }
        }
        head
    }

    fn list_push_front(&mut self, o: u32, n: u32)
        requires
            old(self).links_ok(),
            (o as int) < old(self).lists@.len(),
            (n as int) < old(self).list_nodes@.len(),
            !in_lists(old(self).lists@, n as int),
        ensures
            final(self).links_ok(),
            final(self).lists@ == old(self).lists@.update(o as int, seq![n] + old(self).lists@[o as int]),
            final(self).max_order == old(self).max_order,
            final(self).split_bitset == old(self).split_bitset,
            final(self).list_nodes@.len() == old(self).list_nodes@.len(),
    {
        let ghost l = self.lists@;
        let ghost nodes0 = self.list_nodes@;
        let mut nd = self.list_nodes[n as usize];
        nd.prev = None;
        self.list_nodes.set(n as usize, nd);
        let old_head = self.heads[o as usize];
        self.heads.set(o as usize, Some(n));
        assert(old_head == head_of(l[o as int]));
        match old_head {
            Some(h) => {
                assert(valid_pos(l, o as int, 0));
                let mut hn = self.list_nodes[h as usize];
                hn.prev = Some(n);
                self.list_nodes.set(h as usize, hn);
                let mut nd2 = self.list_nodes[n as usize];
                nd2.next = Some(h);
                self.list_nodes.set(n as usize, nd2);
            },
            None => {
                let mut nd2 = self.list_nodes[n as usize];
                nd2.next = None;
                self.list_nodes.set(n as usize, nd2);
            },
        }
        let ghost nl = l.update(o as int, seq![n] + l[o as int]);
        self.lists = Ghost(nl);
        proof {
            let nodes = self.list_nodes@;
            assert(valid_pos(nl, o as int, 0));
            assert(nl[o as int][0] == n);
            assert forall|o2: int| 0 <= o2 < nl.len() implies #[trigger] self.heads@[o2] == head_of(nl[o2]) by {}
            assert forall|o2: int, k2: int| valid_pos(nl, o2, k2) implies (#[trigger] nl[o2][k2] as int)
                < nodes.len() && node_linked(nl, nodes, o2, k2) by {
                if o2 == o as int {
                    if k2 > 0 {
                        assert(valid_pos(l, o2, k2 - 1));
                        assert(nl[o2][k2] == l[o2][k2 - 1]);
                        if k2 > 1 {
                            assert(valid_pos(l, o2, k2 - 2));
                            assert(l[o2][k2 - 1] != l[o2][0]);
                        }
                        assert(l[o2][k2 - 1] != n);
                        if k2 < nl[o2].len() - 1 {
                            assert(valid_pos(l, o2, k2));
                        }
                    } else {
                        if nl[o2].len() > 1 {
                            assert(valid_pos(l, o2, 0));
                        }
                    }
                } else {
                    assert(valid_pos(l, o2, k2));
                    assert(nl[o2][k2] == l[o2][k2]);
                    assert(l[o2][k2] != n);
                    if l[o as int].len() > 0 {
                        assert(valid_pos(l, o as int, 0));
                        assert(l[o2][k2] != l[o as int][0]);
                    }
                    if k2 > 0 {
                        assert(valid_pos(l, o2, k2 - 1));
                    }
                    if k2 + 1 < nl[o2].len() {
                        assert(valid_pos(l, o2, k2 + 1));
                    }
                }
            }
            assert forall|m: int| 0 <= m < nodes.len() && !in_lists(nl, m) implies (#[trigger] nodes[m]).prev
                is None && nodes[m].next is None by {
                assert(m != n);
                if in_lists(l, m) {
                    let (o3, k3) = choose|o3: int, k3: int| valid_pos(l, o3, k3) && l[o3][k3] == m;
                    if o3 == o as int {
                        assert(valid_pos(nl, o3, k3 + 1));
                        assert(nl[o3][k3 + 1] == m);
                    } else {
                        assert(valid_pos(nl, o3, k3));
                        assert(nl[o3][k3] == m);
                    }
                    assert(false);
                }
                if l[o as int].len() > 0 {
                    assert(valid_pos(l, o as int, 0));
                    assert(m != l[o as int][0]);
                }
                assert(nodes[m] == nodes0[m]);
            }
            assert forall|o1: int, k1: int, o2: int, k2: int|
                valid_pos(nl, o1, k1) && valid_pos(nl, o2, k2) && (o1 != o2 || k1 != k2) implies #[trigger] nl[o1][k1]
                != #[trigger] nl[o2][k2] by {
                if o1 == o as int && k1 == 0 {
                    if o2 == o as int {
                        assert(valid_pos(l, o2, k2 - 1));
                        assert(nl[o2][k2] == l[o2][k2 - 1]);
                    } else {
                        assert(valid_pos(l, o2, k2));
                        assert(nl[o2][k2] == l[o2][k2]);
                    }
                } else if o2 == o as int && k2 == 0 {
                    if o1 == o as int {
                        assert(valid_pos(l, o1, k1 - 1));
                        assert(nl[o1][k1] == l[o1][k1 - 1]);
                    } else {
                        assert(valid_pos(l, o1, k1));
                        assert(nl[o1][k1] == l[o1][k1]);
                    }
                } else {
                    let kk1 = if o1 == o as int { k1 - 1 } else { k1 };
                    let kk2 = if o2 == o as int { k2 - 1 } else { k2 };
                    assert(valid_pos(l, o1, kk1));
                    assert(valid_pos(l, o2, kk2));
                    assert(nl[o1][k1] == l[o1][kk1]);
                    assert(nl[o2][k2] == l[o2][kk2]);
                }
            }
        }
    }

    #[verifier::rlimit(60)]
    #[verifier::spinoff_prover]
    fn list_remove(&mut self, o: u32, n: u32, Ghost(k): Ghost<int>)
        requires
            old(self).links_ok(),
            valid_pos(old(self).lists@, o as int, k),
            old(self).lists@[o as int][k] == n,
        ensures
            final(self).links_ok(),
            final(self).lists@ == old(self).lists@.update(o as int, old(self).lists@[o as int].remove(k)),
            final(self).max_order == old(self).max_order,
            final(self).split_bitset == old(self).split_bitset,
            final(self).list_nodes@.len() == old(self).list_nodes@.len(),
    {
        let ghost l = self.lists@;
        let ghost nodes0 = self.list_nodes@;
        let ghost len = l[o as int].len();
        assert(node_linked(l, nodes0, o as int, k));
        let nd = self.list_nodes[n as usize];
        let mut cleared = nd;
        cleared.prev = None;
        cleared.next = None;
        self.list_nodes.set(n as usize, cleared);
        match nd.prev {
            None => {
                self.heads.set(o as usize, nd.next);
                if let Some(nh) = nd.next {
                    assert(valid_pos(l, o as int, k + 1));
                    let mut x = self.list_nodes[nh as usize];
                    x.prev = None;
                    self.list_nodes.set(nh as usize, x);
                }
            },
            Some(p) => {
                assert(valid_pos(l, o as int, k - 1));
                let mut x = self.list_nodes[p as usize];
                x.next = nd.next;
                self.list_nodes.set(p as usize, x);
                if let Some(nx) = nd.next {
                    assert(valid_pos(l, o as int, k + 1));
                    let mut y = self.list_nodes[nx as usize];
                    y.prev = Some(p);
                    self.list_nodes.set(nx as usize, y);
                }
            },
        }
        let ghost nl = l.update(o as int, l[o as int].remove(k));
        self.lists = Ghost(nl);
        proof {
            let nodes = self.list_nodes@;
            // position in the old list of the entry now at `(o2, k2)`
            assert forall|o2: int| 0 <= o2 < nl.len() implies #[trigger] self.heads@[o2] == head_of(nl[o2]) by {
                if o2 == o as int && k == 0 && len > 1 {
                    assert(valid_pos(l, o2, 1));
                }
                if o2 == o as int && k > 0 {
                    assert(valid_pos(l, o2, 0));
                }
            }
            assert forall|o2: int, k2: int| valid_pos(nl, o2, k2) implies (#[trigger] nl[o2][k2] as int)
                < nodes.len() && node_linked(nl, nodes, o2, k2) by {
                if o2 == o as int {
                    let kk = if k2 < k { k2 } else { k2 + 1 };
                    assert(valid_pos(l, o2, kk));
                    assert(nl[o2][k2] == l[o2][kk]);
                    assert(l[o2][kk] != n);
                    if kk > 0 {
                        assert(valid_pos(l, o2, kk - 1));
                    }
                    if kk + 1 < len {
                        assert(valid_pos(l, o2, kk + 1));
                    }
                    if k2 > 0 {
                        let pk = if k2 - 1 < k { k2 - 1 } else { k2 };
                        assert(valid_pos(l, o2, pk));
                        assert(nl[o2][k2 - 1] == l[o2][pk]);
                    }
                    if k2 + 1 < nl[o2].len() {
                        let nk = if k2 + 1 < k { k2 + 1 } else { k2 + 2 };
                        assert(valid_pos(l, o2, nk));
                        assert(nl[o2][k2 + 1] == l[o2][nk]);
                    }
                    if k > 0 {
                        assert(valid_pos(l, o2, k - 1));
                    }
                    if k + 1 < len {
                        assert(valid_pos(l, o2, k + 1));
                    }
                } else {
                    assert(valid_pos(l, o2, k2));
                    assert(nl[o2][k2] == l[o2][k2]);
                    assert(l[o2][k2] != n);
                    if k > 0 {
                        assert(valid_pos(l, o as int, k - 1));
                        assert(l[o2][k2] != l[o as int][k - 1]);
                    }
                    if k + 1 < len {
                        assert(valid_pos(l, o as int, k + 1));
                        assert(l[o2][k2] != l[o as int][k + 1]);
                    }
                    if k2 > 0 {
                        assert(valid_pos(l, o2, k2 - 1));
                    }
                    if k2 + 1 < nl[o2].len() {
                        assert(valid_pos(l, o2, k2 + 1));
                    }
                }
            }
            assert forall|m: int| 0 <= m < nodes.len() && !in_lists(nl, m) implies (#[trigger] nodes[m]).prev
                is None && nodes[m].next is None by {
                if m != n as int {
                    if in_lists(l, m) {
                        let (o3, k3) = choose|o3: int, k3: int| valid_pos(l, o3, k3) && l[o3][k3] == m;
                        if o3 == o as int {
                            assert(k3 != k);
                            let kk = if k3 < k { k3 } else { k3 - 1 };
                            assert(valid_pos(nl, o3, kk));
                            assert(nl[o3][kk] == m);
                        } else {
                            assert(valid_pos(nl, o3, k3));
                            assert(nl[o3][k3] == m);
                        }
                        assert(false);
                    }
                    if k > 0 {
                        assert(valid_pos(l, o as int, k - 1));
                    }
                    if k + 1 < len {
                        assert(valid_pos(l, o as int, k + 1));
                    }
                    assert(nodes[m] == nodes0[m]);
                }
            }
            assert forall|o1: int, k1: int, o2: int, k2: int|
                valid_pos(nl, o1, k1) && valid_pos(nl, o2, k2) && (o1 != o2 || k1 != k2) implies #[trigger] nl[o1][k1]
                != #[trigger] nl[o2][k2] by {
                let kk1 = if o1 == o as int && k1 >= k { k1 + 1 } else { k1 };
                let kk2 = if o2 == o as int && k2 >= k { k2 + 1 } else { k2 };
                assert(valid_pos(l, o1, kk1));
                assert(valid_pos(l, o2, kk2));
                assert(nl[o1][k1] == l[o1][kk1]);
                assert(nl[o2][k2] == l[o2][kk2]);
            }
        }
    }

    /// The tree is well formed: its free lists, their links and its split bitset agree.
    pub closed spec fn wf(&self) -> bool {
        &&& self.max_order <= 31
        &&& self.list_nodes@.len() == pw(self.max_order as int)
        &&& self.links_ok()
        &&& geometry(self.lists@, self.max_order as int)
        &&& wf_bits(self.max_order as int, self.lists@, self.split_bitset@)
    }

    /// Order of the tree: it manages `2^order` pages.
    pub closed spec fn order(&self) -> int {
        self.max_order as int
    }

    /// The free lists, one per order `0..=order`, each holding the first page index of every
    /// free block of that order, from the head of the list on.
    pub closed spec fn free_lists(&self) -> Seq<Seq<u32>> {
        self.lists@
    }

    /// A tree of the order of `layout` with every page free, held as a single block.
    pub fn new(layout: AllocTreeLayout) -> (r: Self)
        requires
            layout.order() <= 31,
        ensures
            r.wf(),
            r.order() == layout.order(),
            r.free_lists() == fresh_lists(layout.order()),
    {
        let max_order = layout.max_order;
        let ghost m = max_order as int;
        let ghost l = fresh_lists(m);
        let mut heads: Vec<Option<u32>> = Vec::new();
        let mut i: u32 = 0;
        while i <= max_order
            invariant
                max_order <= 31,
                i <= max_order + 1,
                heads@.len() == i,
                forall|k: int| 0 <= k < i ==> heads@[k] == (if k == max_order { Some(0u32) } else { None }),
            decreases max_order + 1 - i,
        {
            heads.push(if i == max_order { Some(0u32) } else { None });
            i = i + 1;
        }
        proof {
            vstd::bits::lemma_u32_pow2_no_overflow(max_order as nat);
            vstd::bits::lemma_u32_shl_is_mul(1, max_order);
        }
        let taken: u32 = 1u32 << max_order;
        let mut list_nodes: Vec<ListNode> = Vec::new();
        let mut n: u32 = 0;
        while n < taken
            invariant
                n <= taken,
                list_nodes@.len() == n,
                forall|k: int| 0 <= k < n ==> list_nodes@[k].prev is None && list_nodes@[k].next is None,
            decreases taken - n,
        {
            list_nodes.push(ListNode { prev: None, next: None });
            n = n + 1;
        }
        let split_bitset = AllocBitset::zeroed(AllocBitset::size_for((taken - 1) as usize));
        let r = AllocTree { max_order, heads, list_nodes, split_bitset, lists: Ghost(l) };
        proof {
            lemma_pw_basics(m);
            assert(valid_pos(l, m, 0));
            assert(l[m][0] == 0u32);
            assert forall|o: int| 0 <= o < l.len() implies #[trigger] r.heads@[o] == head_of(l[o]) by {}
            assert forall|o: int, k: int| valid_pos(l, o, k) implies (#[trigger] l[o][k] as int) < r.list_nodes@.len()
                && node_linked(l, r.list_nodes@, o, k) by {
                assert(o == m && k == 0);
            }
            assert forall|o: int, k: int| valid_pos(l, o, k) implies aligned(#[trigger] l[o][k] as int, o) && l[o][k] + pw(o)
                <= pw(m) by {
                assert(o == m && k == 0);
            }
            assert forall|o1: int, k1: int, o2: int, k2: int|
                valid_pos(l, o1, k1) && valid_pos(l, o2, k2) && (o1 != o2 || k1 != k2) implies #[trigger] l[o1][k1]
                + pw(o1) <= l[o2][k2] || #[trigger] l[o2][k2] + pw(o2) <= l[o1][k1] by {}
            assert(distinct(l));
            assert forall|o: int, i2: int| 0 <= o < m && 0 <= i2 < pw(m) && aligned(i2, o) implies bit_at(
                r.split_bitset@,
                #[trigger] bidx(m, i2, o),
            ) == (seq_has(l[o], i2) != seq_has(l[o], buddy_of(i2, o))) by {
                lemma_bit_in_range(m, r.split_bitset@, i2, o);
            }
        }
        r
    }

    /// The free lists of a well-formed tree are aligned, in range, disjoint and coalesced.
    pub proof fn lemma_geometry(&self)
        requires
            self.wf(),
        ensures
            geometry(self.free_lists(), self.order()),
            0 <= self.order() <= 31,
    {
    }

    /// Number of pages the tree manages, `2^order`.
    pub fn node_count(&self) -> (r: u32)
        requires
            self.wf(),
        ensures
            r == pw(self.order()),
    {
        proof {
            vstd::bits::lemma_u32_pow2_no_overflow(self.max_order as nat);
            vstd::bits::lemma_u32_shl_is_mul(1, self.max_order);
        }
        1u32 << self.max_order
    }

    /// Position in the split bitset of the bit shared by the block `(index, order)` and its
    /// buddy.
    fn bit_index(index: u32, order: u32, max_order: u32) -> (r: u32)
        requires
            order < max_order <= 31,
            (index as int) < pw(max_order as int),
            aligned(index as int, order as int),
        ensures
            r == bidx(max_order as int, index as int, order as int),
    {
        proof {
            lemma_u32_bit_index(index, order, max_order);
            lemma_pair(index as int, order as int, max_order as int);
            super::tree_math::lemma_pw_mono(max_order as int - order as int, 31);
            assert(pw(31) == 0x8000_0000) by {
                vstd::arithmetic::power2::lemma2_to64();
            }
        }
        let layer_base = (1u32 << (max_order - order - 1)) - 1;
        let pair_index = index >> (order + 1);
        layer_base + pair_index
    }

    /// Allocates a block of `2^order` pages and returns the index of its first page.
    ///
    /// The block comes from the head of the lowest non-empty free list of order `order` or
    /// above; when that list is of a higher order the block is split, the upper half of each
    /// split going to the front of the list one order below.
    pub fn allocate(&mut self, order: u32) -> (r: Result<u32, TreeAllocError>)
        requires
            old(self).wf(),
        ensures
            final(self).wf(),
            final(self).order() == old(self).order(),
            match r {
                Ok(j) => {
                    let c = first_free_order(old(self).free_lists(), order as int);
                    &&& order <= old(self).order()
                    &&& c <= old(self).order()
                    &&& j == old(self).free_lists()[c][0]
                    &&& final(self).free_lists() == alloc_lists(old(self).free_lists(), order as int, c, j as int)
                    &&& aligned(j as int, order as int)
                    &&& j + pw(order as int) <= pw(old(self).order())
                    &&& page_range(j as int, j + pw(order as int)).subset_of(free_pages(old(self).free_lists()))
                    &&& free_pages(final(self).free_lists()) == free_pages(old(self).free_lists()).difference(
                        page_range(j as int, j + pw(order as int)),
                    )
                },
                Err(TreeAllocError::InsufficientSpace { requested_order }) => {
                    &&& requested_order == order
                    &&& (order > old(self).order() || first_free_order(old(self).free_lists(), order as int)
                        > old(self).order())
                    &&& final(self).free_lists() == old(self).free_lists()
                },
            },
    {
        let max_order = self.max_order;
        let ghost m = max_order as int;
        let ghost l0 = self.lists@;
        if order > max_order {
            return Err(TreeAllocError::InsufficientSpace { requested_order: order });
        }
        let mut i = order;
        while i <= max_order && self.heads[i as usize].is_none()
            invariant
                self.wf(),
                self.max_order == max_order,
                self.lists@ == l0,
                order <= i <= max_order + 1,
                forall|k: int| order <= k < i ==> l0[k].len() == 0,
            decreases max_order + 1 - i,
        {
            i = i + 1;
        }
        proof {
            lemma_first_free_order(l0, order as int);
            if i <= max_order {
                assert(self.heads@[i as int] == head_of(l0[i as int]));
                assert(l0[i as int].len() > 0);
            }
        }
        if i > max_order {
            return Err(TreeAllocError::InsufficientSpace { requested_order: order });
        }
        let c = i;
        assert(first_free_order(l0, order as int) == c);
        let index = self.list_pop_front(c);
        let ghost bits0 = self.split_bitset@;
        proof {
            assert(valid_pos(l0, c as int, 0));
            assert(aligned(l0[c as int][0] as int, c as int) && l0[c as int][0] + pw(c as int) <= pw(m));
        }
        if c < max_order {
            proof {
                lemma_pw_basics(c as int);
                assert(index + pw(c as int) <= pw(m));
                lemma_bit_in_range(m, bits0, index as int, c as int);
            }
            self.split_bitset.get_and_toggle(Self::bit_index(index, c, max_order));
        }
        proof {
            lemma_alloc_take(l0, m, c as int, bits0, self.split_bitset@);
        }
        let mut current_order = c;
        while current_order > order
            invariant
                self.links_ok(),
                self.max_order == max_order,
                m == max_order as int,
                max_order <= 31,
                self.list_nodes@.len() == pw(m),
                order <= current_order <= c <= max_order,
                l0.len() == m + 1,
                self.lists@ == alloc_partial(l0, current_order as int, c as int, index as int),
                geometry(self.lists@, m),
                wf_bits(m, self.lists@, self.split_bitset@),
                aligned(index as int, current_order as int),
                index + pw(current_order as int) <= pw(m),
                range_unused(self.lists@, index as int, index + pw(current_order as int)),
                free_pages(self.lists@) == free_pages(l0).difference(page_range(index as int, index + pw(current_order as int))),
                page_range(index as int, index + pw(current_order as int)).subset_of(free_pages(l0)),
            decreases current_order,
        {
            let next_order = current_order - 1;
            let ghost l = self.lists@;
            proof {
                lemma_split(index as int, next_order as int, m);
                lemma_u32_block_ops(index, next_order);
            }
            let free = index + (1u32 << next_order);
            proof {
                lemma_pw_basics(next_order as int);
                lemma_unused_not_in_lists(l, index as int, index + pw(current_order as int), free as int);
            }
            self.list_push_front(next_order, free);
            current_order = next_order;
            let ghost bits1 = self.split_bitset@;
            proof {
                lemma_bit_in_range(m, bits1, index as int, current_order as int);
            }
            self.split_bitset.get_and_toggle(Self::bit_index(index, current_order, max_order));
            proof {
                lemma_alloc_split(l0, l, m, c as int, index as int, current_order + 1, bits1, self.split_bitset@);
            }
        }
        Ok(index)
    }

    /// Frees the block of `2^order` pages starting at page `index`.
    ///
    /// While the buddy of the block is free, the buddy leaves its free list and the two merge
    /// into their parent; the resulting block goes to the front of the list of its order.
    /// The block must not overlap any free page: it is a block that was allocated and not yet
    /// freed, or a part of one.
    pub fn dealloc(&mut self, index: u32, order: u32)
        requires
            old(self).wf(),
            order <= old(self).order(),
            aligned(index as int, order as int),
            index + pw(order as int) <= pw(old(self).order()),
            range_unused(old(self).free_lists(), index as int, index + pw(order as int)),
        ensures
            final(self).wf(),
            final(self).order() == old(self).order(),
            final(self).free_lists() == dealloc_lists(old(self).free_lists(), index as int, order as int, old(self).order()),
            free_pages(final(self).free_lists()) == free_pages(old(self).free_lists()).union(
                page_range(index as int, index + pw(order as int)),
            ),
    {
        let max_order = self.max_order;
        let ghost m = max_order as int;
        let ghost l0 = self.lists@;
        let ghost i0 = index as int;
        let ghost o0 = order as int;
        let mut index = index;
        let mut order = order;
        let ghost mut bits_end = self.split_bitset@;
        loop
            invariant_except_break
                self.links_ok(),
                self.max_order == max_order,
                m == max_order as int,
                max_order <= 31,
                self.list_nodes@.len() == pw(m),
                o0 <= order <= max_order,
                geometry(self.lists@, m),
                wf_bits(m, self.lists@, self.split_bitset@),
                aligned(index as int, order as int),
                index + pw(order as int) <= pw(m),
                range_unused(self.lists@, index as int, index + pw(order as int)),
                dealloc_lists(self.lists@, index as int, order as int, m) == dealloc_lists(l0, i0, o0, m),
                free_pages(self.lists@).union(page_range(index as int, index + pw(order as int))) == free_pages(l0).union(
                    page_range(i0, i0 + pw(o0)),
                ),
            ensures
                self.links_ok(),
                self.max_order == max_order,
                m == max_order as int,
                max_order <= 31,
                self.list_nodes@.len() == pw(m),
                order <= max_order,
                (index as int) < pw(m),
                !in_lists(self.lists@, index as int),
                self.lists@.len() == m + 1,
                geometry(self.lists@.update(order as int, seq![index] + self.lists@[order as int]), m),
                wf_bits(m, self.lists@.update(order as int, seq![index] + self.lists@[order as int]), self.split_bitset@),
                self.lists@.update(order as int, seq![index] + self.lists@[order as int]) == dealloc_lists(l0, i0, o0, m),
                free_pages(self.lists@.update(order as int, seq![index] + self.lists@[order as int])) == free_pages(l0).union(
                    page_range(i0, i0 + pw(o0)),
                ),
            decreases max_order - order,
        {
            let ghost l = self.lists@;
            let ghost bits1 = self.split_bitset@;
            proof {
                lemma_pw_basics(order as int);
            }
            if order >= max_order {
                proof {
                    lemma_dealloc_settle(l, m, index as int, order as int, bits1, bits1);
                }
                break;
            }
            proof {
                lemma_pair(index as int, order as int, m);
                lemma_bit_in_range(m, bits1, index as int, order as int);
                lemma_u32_block_ops(index, order);
                lemma_unused_not_in_lists(l, index as int, index + pw(order as int), index as int);
                if seq_has(l[order as int], index as int) {
                    let kk = choose|kk: int| 0 <= kk < l[order as int].len() && l[order as int][kk] == index;
                    assert(valid_pos(l, order as int, kk));
                }
            }
            // Was false, now true: can't merge, the buddy is not free
            // Was true, now false: can merge, both buddies are free
            let can_merge = self.split_bitset.get_and_toggle(Self::bit_index(index, order, max_order));
            if can_merge {
                let buddy_index = index ^ (1u32 << order);
                proof {
                    lemma_dealloc_merge(l, m, index as int, order as int, bits1, self.split_bitset@);
                }
                let ghost k = index_in(l[order as int], buddy_index as int);
                self.list_remove(order, buddy_index, Ghost(k));
                index = index & !(1u32 << order);
                order = order + 1;
            } else {
                proof {
                    lemma_dealloc_settle(l, m, index as int, order as int, bits1, self.split_bitset@);
                }
                break;
            }
        }
        self.list_push_front(order, index);
        proof {
            lemma_pw_basics(order as int);
        }
    }
}

} // verus!
