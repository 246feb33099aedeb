//! The mathematical model of the buddy tree: free lists per order, the pages they
//! cover, and the meaning of the split bitset.
use vstd::prelude::*;
use super::bitset::{bit_at, blocks_for};
use super::tree_math::{aligned, bidx, buddy_of, parent_of, pw, lemma_pair, lemma_bidx_injective, lemma_pw_basics, lemma_split};

verus! {

/// `(o, k)` names an entry of the free lists.
pub open spec fn valid_pos(lists: Seq<Seq<u32>>, o: int, k: int) -> bool {
    0 <= o < lists.len() && 0 <= k < lists[o].len()
}

/// The sequence `s` holds the value `x`.
pub open spec fn seq_has(s: Seq<u32>, x: int) -> bool {
    exists|k: int| 0 <= k < s.len() && s[k] == x
}

/// A position of `x` in `s`, when `s` holds it.
pub open spec fn index_in(s: Seq<u32>, x: int) -> int {
    choose|k: int| 0 <= k < s.len() && s[k] == x
}

/// Block start `n` is on some free list.
pub open spec fn in_lists(lists: Seq<Seq<u32>>, n: int) -> bool {
    exists|o: int, k: int| valid_pos(lists, o, k) && lists[o][k] == n
}

/// No block start occurs twice on the free lists.
pub open spec fn distinct(lists: Seq<Seq<u32>>) -> bool {
    forall|o1: int, k1: int, o2: int, k2: int|
        valid_pos(lists, o1, k1) && valid_pos(lists, o2, k2) && (o1 != o2 || k1 != k2) ==> #[trigger] lists[o1][k1]
            != #[trigger] lists[o2][k2]
}

/// Every free block of order `o` is aligned to `2^o` and lies inside the `2^m` pages.
pub open spec fn blocks_ok(lists: Seq<Seq<u32>>, m: int) -> bool {
    forall|o: int, k: int|
        valid_pos(lists, o, k) ==> aligned(#[trigger] lists[o][k] as int, o) && lists[o][k] + pw(o) <= pw(m)
}

/// Free blocks never overlap.
pub open spec fn disjoint(lists: Seq<Seq<u32>>) -> bool {
    forall|o1: int, k1: int, o2: int, k2: int|
        valid_pos(lists, o1, k1) && valid_pos(lists, o2, k2) && (o1 != o2 || k1 != k2) ==> #[trigger] lists[o1][k1]
            + pw(o1) <= lists[o2][k2] || #[trigger] lists[o2][k2] + pw(o2) <= lists[o1][k1]
}

/// Two buddies are never both free: they would have been merged.
pub open spec fn coalesced(lists: Seq<Seq<u32>>, m: int) -> bool {
    forall|o: int, k: int|
        valid_pos(lists, o, k) && o < m ==> !seq_has(lists[o], buddy_of(#[trigger] lists[o][k] as int, o))
}

/// The free blocks of a tree of order `m`: one list per order `0..=m`, aligned, in range,
/// pairwise disjoint and with no two free buddies.
pub open spec fn geometry(lists: Seq<Seq<u32>>, m: int) -> bool {
    &&& lists.len() == m + 1
    &&& blocks_ok(lists, m)
    &&& disjoint(lists)
    &&& coalesced(lists, m)
}

/// No free block meets the page range `[lo, hi)`.
pub open spec fn range_unused(lists: Seq<Seq<u32>>, lo: int, hi: int) -> bool {
    forall|o: int, k: int|
        valid_pos(lists, o, k) ==> #[trigger] lists[o][k] + pw(o) <= lo || hi <= lists[o][k]
}

/// The pages covered by the free blocks.
pub open spec fn free_pages(lists: Seq<Seq<u32>>) -> Set<int> {
    Set::new(|p: int| exists|o: int, k: int| valid_pos(lists, o, k) && lists[o][k] <= p < lists[o][k] + pw(o))
}

/// The pages `[lo, hi)`.
pub open spec fn page_range(lo: int, hi: int) -> Set<int> {
    Set::new(|p: int| lo <= p < hi)
}

/// The split bitset of a tree of order `m`: the bit of each pair of buddies of order `o < m`
/// is set exactly when one of the two, and only one, is free.
pub open spec fn wf_bits(m: int, lists: Seq<Seq<u32>>, bits: Seq<u32>) -> bool {
    &&& bits.len() == blocks_for((pw(m) - 1) as nat)
    &&& forall|o: int, i: int|
        0 <= o < m && 0 <= i < pw(m) && aligned(i, o) ==> bit_at(bits, #[trigger] bidx(m, i, o)) == (seq_has(
            lists[o],
            i,
        ) != seq_has(lists[o], buddy_of(i, o)))
}

/// The free lists of a tree of order `m` with every page free: a single block of order `m`
/// at page 0.
pub open spec fn fresh_lists(m: int) -> Seq<Seq<u32>> {
    Seq::new((m + 1) as nat, |k: int| if k == m { seq![0u32] } else { Seq::<u32>::empty() })
}

/// The lowest order, from `o` up, whose free list is not empty; `lists.len()` when none is.
pub open spec fn first_free_order(lists: Seq<Seq<u32>>, o: int) -> int
    decreases lists.len() - o,
{
    if o < 0 || o >= lists.len() {
        lists.len() as int
    } else if lists[o].len() > 0 {
        o
    } else {
        first_free_order(lists, o + 1)
    }
}

/// The free lists after allocating a block of order `order` by taking the head `j` of the
/// list of order `c` and splitting it down: the upper halves of every split go, one per
/// order, to the front of the lists of orders `order..c`.
pub open spec fn alloc_lists(lists: Seq<Seq<u32>>, order: int, c: int, j: int) -> Seq<Seq<u32>> {
    Seq::new(
        lists.len(),
        |k: int|
            if k == c {
                lists[c].drop_first()
            } else if order <= k < c {
                seq![(j + pw(k)) as u32] + lists[k]
            } else {
                lists[k]
            },
    )
}

/// The free lists after freeing the block `(i, o)` in a tree of order `m`: while the buddy
/// is free it leaves its list and the two merge into their parent; the resulting block goes
/// to the front of the list of its order.
pub open spec fn dealloc_lists(lists: Seq<Seq<u32>>, i: int, o: int, m: int) -> Seq<Seq<u32>>
    decreases m - o,
{
    if 0 <= o < m && o < lists.len() && seq_has(lists[o], buddy_of(i, o)) {
        dealloc_lists(
            lists.update(o, lists[o].remove(index_in(lists[o], buddy_of(i, o)))),
            parent_of(i, o),
            o + 1,
            m,
        )
    } else if 0 <= o < lists.len() {
        lists.update(o, seq![i as u32] + lists[o])
    } else {
        lists
    }
}

pub proof fn lemma_first_free_order(lists: Seq<Seq<u32>>, o: int)
    requires
        0 <= o <= lists.len(),
    ensures
        o <= first_free_order(lists, o) <= lists.len(),
        first_free_order(lists, o) < lists.len() ==> lists[first_free_order(lists, o)].len() > 0,
        forall|k: int| o <= k < first_free_order(lists, o) ==> lists[k].len() == 0,
    decreases lists.len() - o,
{
    if o < lists.len() && lists[o].len() == 0 {
        lemma_first_free_order(lists, o + 1);
    }
}

pub proof fn lemma_blocks_for(n: nat)
    ensures
        32 * blocks_for(n) >= n,
{
}

/// The bit of a block inside a tree of order `m` is inside the bitset.
pub proof fn lemma_bit_in_range(m: int, bits: Seq<u32>, i: int, o: int)
    requires
        0 <= o < m,
        0 <= i < pw(m),
        aligned(i, o),
        bits.len() == blocks_for((pw(m) - 1) as nat),
    ensures
        0 <= bidx(m, i, o) < 32 * bits.len(),
{
    lemma_pair(i, o, m);
    lemma_pw_basics(m - o - 1);
    lemma_blocks_for((pw(m) - 1) as nat);
    super::tree_math::lemma_pw_mono(m - o, m);
}

/// Changing the lists at one order `o`, only at a pair of buddies, and flipping that pair's bit
/// accordingly keeps the split bitset meaningful.
pub proof fn lemma_bits_flip(m: int, l: Seq<Seq<u32>>, nl: Seq<Seq<u32>>, bits: Seq<u32>, nbits: Seq<u32>, j: int, o: int)
    requires
        0 <= o < m,
        l.len() == m + 1,
        nl.len() == m + 1,
        wf_bits(m, l, bits),
        nbits.len() == bits.len(),
        aligned(j, o),
        0 <= j < pw(m),
        forall|o2: int, x: int| 0 <= o2 <= m && o2 != o ==> #[trigger] seq_has(nl[o2], x) == seq_has(l[o2], x),
        forall|x: int| x != j && x != buddy_of(j, o) ==> #[trigger] seq_has(nl[o], x) == seq_has(l[o], x),
        bit_at(nbits, bidx(m, j, o)) == (seq_has(nl[o], j) != seq_has(nl[o], buddy_of(j, o))),
        forall|b: int| 0 <= b < 32 * bits.len() && b != bidx(m, j, o) ==> #[trigger] bit_at(nbits, b) == bit_at(bits, b),
    ensures
        wf_bits(m, nl, nbits),
{
    lemma_pair(j, o, m);
    assert forall|o2: int, i: int| 0 <= o2 < m && 0 <= i < pw(m) && aligned(i, o2) implies bit_at(
        nbits,
        #[trigger] bidx(m, i, o2),
    ) == (seq_has(nl[o2], i) != seq_has(nl[o2], buddy_of(i, o2))) by {
        lemma_pair(i, o2, m);
        lemma_bit_in_range(m, bits, i, o2);
        if bidx(m, i, o2) == bidx(m, j, o) {
            lemma_bidx_injective(m, j, o, i, o2);
        } else {
            assert(bit_at(nbits, bidx(m, i, o2)) == bit_at(bits, bidx(m, i, o2)));
            if o2 == o {
                assert(i != j && i != buddy_of(j, o));
                assert(buddy_of(i, o) != j);
                assert(buddy_of(i, o) != buddy_of(j, o));
                assert(seq_has(nl[o], i) == seq_has(l[o], i));
                assert(seq_has(nl[o], buddy_of(i, o)) == seq_has(l[o], buddy_of(i, o)));
            } else {
                assert(seq_has(nl[o2], i) == seq_has(l[o2], i));
                assert(seq_has(nl[o2], buddy_of(i, o2)) == seq_has(l[o2], buddy_of(i, o2)));
            }
        }
    }
}

/// Changing only the list of order `m`, which has no bits, keeps the split bitset meaningful.
pub proof fn lemma_bits_frame(m: int, l: Seq<Seq<u32>>, nl: Seq<Seq<u32>>, bits: Seq<u32>)
    requires
        0 <= m,
        l.len() == m + 1,
        nl.len() == m + 1,
        wf_bits(m, l, bits),
        forall|o2: int, x: int| 0 <= o2 < m ==> #[trigger] seq_has(nl[o2], x) == seq_has(l[o2], x),
    ensures
        wf_bits(m, nl, bits),
{
    assert forall|o2: int, i: int| 0 <= o2 < m && 0 <= i < pw(m) && aligned(i, o2) implies bit_at(
        bits,
        #[trigger] bidx(m, i, o2),
    ) == (seq_has(nl[o2], i) != seq_has(nl[o2], buddy_of(i, o2))) by {
        assert(seq_has(nl[o2], i) == seq_has(l[o2], i));
        assert(seq_has(nl[o2], buddy_of(i, o2)) == seq_has(l[o2], buddy_of(i, o2)));
    }
}

/// Disjoint blocks have distinct starts.
pub proof fn lemma_disjoint_distinct(l: Seq<Seq<u32>>)
    requires
        disjoint(l),
    ensures
        distinct(l),
{
    assert forall|o1: int, k1: int, o2: int, k2: int|
        valid_pos(l, o1, k1) && valid_pos(l, o2, k2) && (o1 != o2 || k1 != k2) implies #[trigger] l[o1][k1]
        != #[trigger] l[o2][k2] by {
        lemma_pw_basics(o1);
        lemma_pw_basics(o2);
    }
}

/// Nothing inside an unused range is a free block start.
pub proof fn lemma_unused_not_in_lists(l: Seq<Seq<u32>>, lo: int, hi: int, x: int)
    requires
        range_unused(l, lo, hi),
        lo <= x < hi,
    ensures
        !in_lists(l, x),
{
    if in_lists(l, x) {
        let (o, k) = choose|o: int, k: int| valid_pos(l, o, k) && l[o][k] == x;
        lemma_pw_basics(o);
        assert(l[o][k] + pw(o) <= lo || hi <= l[o][k]);
    }
}

pub proof fn lemma_has_push(s: Seq<u32>, n: u32, x: int)
    ensures
        seq_has(seq![n] + s, x) == (x == n || seq_has(s, x)),
{
    let t = seq![n] + s;
    if seq_has(s, x) {
        let k = choose|k: int| 0 <= k < s.len() && s[k] == x;
        assert(t[k + 1] == x);
    }
    if seq_has(t, x) {
        let k = choose|k: int| 0 <= k < t.len() && t[k] == x;
        if k > 0 {
            assert(s[k - 1] == x);
        }
    }
    if x == n {
        assert(t[0] == x);
    }
}

pub proof fn lemma_has_remove(s: Seq<u32>, k: int, x: int)
    requires
        0 <= k < s.len(),
        forall|a: int, b: int| 0 <= a < s.len() && 0 <= b < s.len() && a != b ==> s[a] != s[b],
    ensures
        seq_has(s.remove(k), x) == (seq_has(s, x) && x != s[k]),
{
    let t = s.remove(k);
    if seq_has(t, x) {
        let i = choose|i: int| 0 <= i < t.len() && t[i] == x;
        let j = if i < k { i } else { i + 1 };
        assert(s[j] == x);
        assert(j != k);
    }
    if seq_has(s, x) && x != s[k] {
        let j = choose|j: int| 0 <= j < s.len() && s[j] == x;
        let i = if j < k { j } else { j - 1 };
        assert(t[i] == x);
    }
}

/// A list of a distinct family has no repeated entries.
pub proof fn lemma_list_distinct(l: Seq<Seq<u32>>, o: int)
    requires
        distinct(l),
        0 <= o < l.len(),
    ensures
        forall|a: int, b: int| 0 <= a < l[o].len() && 0 <= b < l[o].len() && a != b ==> l[o][a] != l[o][b],
{
    assert forall|a: int, b: int| 0 <= a < l[o].len() && 0 <= b < l[o].len() && a != b implies l[o][a] != l[o][b] by {
        assert(valid_pos(l, o, a));
        assert(valid_pos(l, o, b));
    }
}

/// Removing the entry `(o, k)` takes exactly its pages out of the free pages.
pub proof fn lemma_pages_remove(l: Seq<Seq<u32>>, o: int, k: int)
    requires
        disjoint(l),
        valid_pos(l, o, k),
    ensures
        free_pages(l.update(o, l[o].remove(k))) == free_pages(l).difference(page_range(l[o][k] as int, l[o][k] + pw(o))),
        range_unused(l.update(o, l[o].remove(k)), l[o][k] as int, l[o][k] + pw(o)),
{
    let nl = l.update(o, l[o].remove(k));
    let x = l[o][k] as int;
    let r = page_range(x, x + pw(o));
    assert forall|p: int| free_pages(nl).contains(p) <==> free_pages(l).difference(r).contains(p) by {
        if free_pages(nl).contains(p) {
            let (o2, k2) = choose|o2: int, k2: int| valid_pos(nl, o2, k2) && nl[o2][k2] <= p < nl[o2][k2] + pw(o2);
            let kk = if o2 == o && k2 >= k { k2 + 1 } else { k2 };
            assert(valid_pos(l, o2, kk));
            assert(nl[o2][k2] == l[o2][kk]);
            assert(l[o2][kk] + pw(o2) <= l[o][k] || l[o][k] + pw(o) <= l[o2][kk]);
        }
        if free_pages(l).difference(r).contains(p) {
            let (o2, k2) = choose|o2: int, k2: int| valid_pos(l, o2, k2) && l[o2][k2] <= p < l[o2][k2] + pw(o2);
            assert(o2 != o || k2 != k);
            let kk = if o2 == o && k2 > k { k2 - 1 } else { k2 };
            assert(valid_pos(nl, o2, kk));
            assert(nl[o2][kk] == l[o2][k2]);
        }
    }
    assert(free_pages(nl) =~= free_pages(l).difference(r));
    assert forall|o2: int, k2: int| valid_pos(nl, o2, k2) implies #[trigger] nl[o2][k2] + pw(o2) <= x || x + pw(o) <= nl[o2][k2] by {
        let kk = if o2 == o && k2 >= k { k2 + 1 } else { k2 };
        assert(valid_pos(l, o2, kk));
        assert(nl[o2][k2] == l[o2][kk]);
    }
}

/// Pushing a block adds exactly its pages to the free pages.
pub proof fn lemma_pages_push(l: Seq<Seq<u32>>, o: int, n: u32)
    requires
        0 <= o < l.len(),
    ensures
        free_pages(l.update(o, seq![n] + l[o])) == free_pages(l).union(page_range(n as int, n + pw(o))),
{
    let nl = l.update(o, seq![n] + l[o]);
    let r = page_range(n as int, n + pw(o));
    assert(valid_pos(nl, o, 0));
    assert forall|p: int| free_pages(nl).contains(p) <==> free_pages(l).union(r).contains(p) by {
        if free_pages(nl).contains(p) {
            let (o2, k2) = choose|o2: int, k2: int| valid_pos(nl, o2, k2) && nl[o2][k2] <= p < nl[o2][k2] + pw(o2);
            if !(o2 == o && k2 == 0) {
                let kk = if o2 == o { k2 - 1 } else { k2 };
                assert(valid_pos(l, o2, kk));
                assert(nl[o2][k2] == l[o2][kk]);
            }
        }
        if free_pages(l).contains(p) {
            let (o2, k2) = choose|o2: int, k2: int| valid_pos(l, o2, k2) && l[o2][k2] <= p < l[o2][k2] + pw(o2);
            let kk = if o2 == o { k2 + 1 } else { k2 };
            assert(valid_pos(nl, o2, kk));
            assert(nl[o2][kk] == l[o2][k2]);
        }
    }
    assert(free_pages(nl) =~= free_pages(l).union(r));
}

/// Removing an entry keeps the geometry and every unused range unused.
pub proof fn lemma_geometry_remove(l: Seq<Seq<u32>>, m: int, o: int, k: int, lo: int, hi: int)
    requires
        geometry(l, m),
        valid_pos(l, o, k),
        range_unused(l, lo, hi),
    ensures
        geometry(l.update(o, l[o].remove(k)), m),
        range_unused(l.update(o, l[o].remove(k)), lo, hi),
{
    let nl = l.update(o, l[o].remove(k));
    lemma_disjoint_distinct(l);
    lemma_list_distinct(l, o);
    assert forall|o2: int, k2: int| valid_pos(nl, o2, k2) implies aligned(#[trigger] nl[o2][k2] as int, o2)
        && nl[o2][k2] + pw(o2) <= pw(m) && (nl[o2][k2] + pw(o2) <= lo || hi <= nl[o2][k2]) by {
        let kk = if o2 == o && k2 >= k { k2 + 1 } else { k2 };
        assert(valid_pos(l, o2, kk));
        assert(nl[o2][k2] == l[o2][kk]);
    }
    assert forall|o1: int, k1: int, o2: int, k2: int|
        valid_pos(nl, o1, k1) && valid_pos(nl, o2, k2) && (o1 != o2 || k1 != k2) implies #[trigger] nl[o1][k1]
        + pw(o1) <= nl[o2][k2] || #[trigger] nl[o2][k2] + pw(o2) <= nl[o1][k1] by {
        let kk1 = if o1 == o && k1 >= k { k1 + 1 } else { k1 };
        let kk2 = if o2 == o && k2 >= k { k2 + 1 } else { k2 };
        assert(valid_pos(l, o1, kk1));
        assert(valid_pos(l, o2, kk2));
        assert(nl[o1][k1] == l[o1][kk1]);
        assert(nl[o2][k2] == l[o2][kk2]);
    }
    assert forall|o2: int, k2: int| valid_pos(nl, o2, k2) && o2 < m implies !seq_has(
        nl[o2],
        buddy_of(#[trigger] nl[o2][k2] as int, o2),
    ) by {
        let kk = if o2 == o && k2 >= k { k2 + 1 } else { k2 };
        assert(valid_pos(l, o2, kk));
        assert(nl[o2][k2] == l[o2][kk]);
        if o2 == o {
            lemma_has_remove(l[o], k, buddy_of(l[o2][kk] as int, o2));
        }
    }
}

/// Pushing an aligned, unused block whose buddy is not free keeps the geometry.
pub proof fn lemma_geometry_push(l: Seq<Seq<u32>>, m: int, o: int, n: u32)
    requires
        geometry(l, m),
        0 <= o <= m,
        aligned(n as int, o),
        n + pw(o) <= pw(m),
        range_unused(l, n as int, n + pw(o)),
        o < m ==> !seq_has(l[o], buddy_of(n as int, o)),
    ensures
        geometry(l.update(o, seq![n] + l[o]), m),
{
    let nl = l.update(o, seq![n] + l[o]);
    lemma_pw_basics(o);
    assert forall|o2: int, k2: int| valid_pos(nl, o2, k2) implies aligned(#[trigger] nl[o2][k2] as int, o2)
        && nl[o2][k2] + pw(o2) <= pw(m) by {
        if !(o2 == o && k2 == 0) {
            let kk = if o2 == o { k2 - 1 } else { k2 };
            assert(valid_pos(l, o2, kk));
            assert(nl[o2][k2] == l[o2][kk]);
        }
    }
    assert forall|o1: int, k1: int, o2: int, k2: int|
        valid_pos(nl, o1, k1) && valid_pos(nl, o2, k2) && (o1 != o2 || k1 != k2) implies #[trigger] nl[o1][k1]
        + pw(o1) <= nl[o2][k2] || #[trigger] nl[o2][k2] + pw(o2) <= nl[o1][k1] by {
        if o1 == o && k1 == 0 {
            let kk2 = if o2 == o { k2 - 1 } else { k2 };
            assert(valid_pos(l, o2, kk2));
            assert(nl[o2][k2] == l[o2][kk2]);
        } else if o2 == o && k2 == 0 {
            let kk1 = if o1 == o { k1 - 1 } else { k1 };
            assert(valid_pos(l, o1, kk1));
            assert(nl[o1][k1] == l[o1][kk1]);
        } else {
            let kk1 = if o1 == o { k1 - 1 } else { k1 };
            let kk2 = if o2 == o { k2 - 1 } else { k2 };
            assert(valid_pos(l, o1, kk1));
            assert(valid_pos(l, o2, kk2));
            assert(nl[o1][k1] == l[o1][kk1]);
            assert(nl[o2][k2] == l[o2][kk2]);
        }
    }
    assert forall|o2: int, k2: int| valid_pos(nl, o2, k2) && o2 < m implies !seq_has(
        nl[o2],
        buddy_of(#[trigger] nl[o2][k2] as int, o2),
    ) by {
        let e = nl[o2][k2] as int;
        if o2 == o {
            lemma_has_push(l[o], n, buddy_of(e, o2));
            if k2 == 0 {
                lemma_pair(n as int, o, m);
            } else {
                assert(valid_pos(l, o2, k2 - 1));
                assert(nl[o2][k2] == l[o2][k2 - 1]);
                lemma_pair(e, o, m);
                if buddy_of(e, o2) == n {
                    assert(e == buddy_of(n as int, o));
                }
            }
        } else {
            assert(valid_pos(l, o2, k2));
            assert(nl[o2][k2] == l[o2][k2]);
        }
    }
}

/// The free lists while an allocation splits the block taken from order `c` down to order
/// `cur`: the upper halves of orders `cur..c` are already on their lists.
pub open spec fn alloc_partial(l0: Seq<Seq<u32>>, cur: int, c: int, j: int) -> Seq<Seq<u32>> {
    alloc_lists(l0, cur, c, j)
}

/// `bits2` is `bits` with bit `b` flipped.
pub open spec fn flipped(bits: Seq<u32>, bits2: Seq<u32>, b: int) -> bool {
    &&& bits2.len() == bits.len()
    &&& bit_at(bits2, b) == !bit_at(bits, b)
    &&& forall|x: int| 0 <= x < 32 * bits.len() && x != b ==> #[trigger] bit_at(bits2, x) == bit_at(bits, x)
}

/// Facts about taking the head of the list of order `c`, the first step of an allocation.
pub proof fn lemma_alloc_take(l0: Seq<Seq<u32>>, m: int, c: int, bits: Seq<u32>, nbits: Seq<u32>)
    requires
        geometry(l0, m),
        wf_bits(m, l0, bits),
        0 <= c <= m,
        l0[c].len() > 0,
        c < m ==> flipped(bits, nbits, bidx(m, l0[c][0] as int, c)),
        c == m ==> nbits == bits,
    ensures
        ({
            let j = l0[c][0] as int;
            let l1 = l0.update(c, l0[c].drop_first());
            &&& l1 == alloc_partial(l0, c, c, j)
            &&& geometry(l1, m)
            &&& wf_bits(m, l1, nbits)
            &&& aligned(j, c)
            &&& 0 <= j
            &&& j + pw(c) <= pw(m)
            &&& range_unused(l1, j, j + pw(c))
            &&& free_pages(l1) == free_pages(l0).difference(page_range(j, j + pw(c)))
            &&& page_range(j, j + pw(c)).subset_of(free_pages(l0))
        }),
{
    let j = l0[c][0] as int;
    let l1 = l0.update(c, l0[c].drop_first());
    assert(l0[c].drop_first() =~= l0[c].remove(0));
    assert(l1 =~= alloc_partial(l0, c, c, j));
    assert(valid_pos(l0, c, 0));
    assert(range_unused(l0, 0, 0));
    lemma_geometry_remove(l0, m, c, 0, 0, 0);
    lemma_pages_remove(l0, c, 0);
    lemma_disjoint_distinct(l0);
    lemma_list_distinct(l0, c);
    assert forall|p: int| page_range(j, j + pw(c)).contains(p) implies free_pages(l0).contains(p) by {
        assert(valid_pos(l0, c, 0));
    }
    if c < m {
        lemma_pair(j, c, m);
        let b = buddy_of(j, c);
        assert(!seq_has(l0[c], b));
        assert(seq_has(l0[c], j)) by {
            assert(l0[c][0] == j);
        }
        lemma_has_remove(l0[c], 0, j);
        lemma_has_remove(l0[c], 0, b);
        assert forall|x: int| x != j && x != buddy_of(j, c) implies #[trigger] seq_has(l1[c], x) == seq_has(l0[c], x) by {
            lemma_has_remove(l0[c], 0, x);
        }
        lemma_bit_in_range(m, bits, j, c);
        lemma_bits_flip(m, l0, l1, bits, nbits, j, c);
    } else {
        lemma_bits_frame(m, l0, l1, bits);
    }
}

/// Facts about one split of an allocation: the upper half of the held block `(j, cur)` goes
/// to the list of order `cur - 1`.
pub proof fn lemma_alloc_split(
    l0: Seq<Seq<u32>>,
    l: Seq<Seq<u32>>,
    m: int,
    c: int,
    j: int,
    cur: int,
    bits: Seq<u32>,
    nbits: Seq<u32>,
)
    requires
        geometry(l, m),
        wf_bits(m, l, bits),
        0 < cur <= c <= m,
        m <= 31,
        l0.len() == m + 1,
        l == alloc_partial(l0, cur, c, j),
        aligned(j, cur),
        0 <= j,
        j + pw(cur) <= pw(m),
        range_unused(l, j, j + pw(cur)),
        free_pages(l) == free_pages(l0).difference(page_range(j, j + pw(cur))),
        page_range(j, j + pw(cur)).subset_of(free_pages(l0)),
        flipped(bits, nbits, bidx(m, j, cur - 1)),
    ensures
        ({
            let nx = cur - 1;
            let f = (j + pw(nx)) as u32;
            let nl = l.update(nx, seq![f] + l[nx]);
            &&& f == j + pw(nx)
            &&& !in_lists(l, f as int)
            &&& nl == alloc_partial(l0, nx, c, j)
            &&& geometry(nl, m)
            &&& wf_bits(m, nl, nbits)
            &&& aligned(j, nx)
            &&& j + pw(nx) <= pw(m)
            &&& range_unused(nl, j, j + pw(nx))
            &&& free_pages(nl) == free_pages(l0).difference(page_range(j, j + pw(nx)))
            &&& page_range(j, j + pw(nx)).subset_of(free_pages(l0))
        }),
{
    let nx = cur - 1;
    lemma_split(j, nx, m);
    let fi = j + pw(nx);
    assert(fi < pw(m));
    super::tree_math::lemma_pw_mono(m, 31);
    assert(pw(31) == 0x8000_0000) by {
        vstd::arithmetic::power2::lemma2_to64();
    }
    let f = fi as u32;
    assert(f == fi);
    let nl = l.update(nx, seq![f] + l[nx]);
    lemma_pw_basics(nx);
    lemma_unused_not_in_lists(l, j, j + pw(cur), fi);
    lemma_unused_not_in_lists(l, j, j + pw(cur), j);
    assert(!seq_has(l[nx], j)) by {
        if seq_has(l[nx], j) {
            let k = choose|k: int| 0 <= k < l[nx].len() && l[nx][k] == j;
            assert(valid_pos(l, nx, k));
        }
    }
    assert(!seq_has(l[nx], fi)) by {
        if seq_has(l[nx], fi) {
            let k = choose|k: int| 0 <= k < l[nx].len() && l[nx][k] == fi;
            assert(valid_pos(l, nx, k));
        }
    }
    assert(range_unused(l, fi, fi + pw(nx))) by {
        assert forall|o: int, k: int| valid_pos(l, o, k) implies #[trigger] l[o][k] + pw(o) <= fi || fi + pw(nx) <= l[o][k] by {
        }
    }
    lemma_geometry_push(l, m, nx, f);
    assert(nl =~= alloc_partial(l0, nx, c, j)) by {
        assert forall|k: int| 0 <= k < nl.len() implies nl[k] =~= alloc_partial(l0, nx, c, j)[k] by {
            if k == nx {
                assert(l[nx] == l0[nx]);
            }
        }
    }
    assert forall|o: int, k: int| valid_pos(nl, o, k) implies #[trigger] nl[o][k] + pw(o) <= j || j + pw(nx) <= nl[o][k] by {
        if !(o == nx && k == 0) {
            let kk = if o == nx { k - 1 } else { k };
            assert(valid_pos(l, o, kk));
            assert(nl[o][k] == l[o][kk]);
        }
    }
    lemma_pages_push(l, nx, f);
    assert(free_pages(nl) =~= free_pages(l0).difference(page_range(j, j + pw(nx))));
    assert(page_range(j, j + pw(nx)).subset_of(free_pages(l0))) by {
        assert forall|p: int| page_range(j, j + pw(nx)).contains(p) implies free_pages(l0).contains(p) by {
            assert(page_range(j, j + pw(cur)).contains(p));
        }
    }
    // bits
    lemma_has_push(l[nx], f, j);
    lemma_has_push(l[nx], f, fi);
    assert forall|o2: int, x: int| 0 <= o2 <= m && o2 != nx implies #[trigger] seq_has(nl[o2], x) == seq_has(l[o2], x) by {}
    assert forall|x: int| x != j && x != buddy_of(j, nx) implies #[trigger] seq_has(nl[nx], x) == seq_has(l[nx], x) by {
        lemma_has_push(l[nx], f, x);
    }
    lemma_bit_in_range(m, bits, j, nx);
    lemma_bits_flip(m, l, nl, bits, nbits, j, nx);
}

/// Facts about one merge of a deallocation: the free buddy of `(i, o)` leaves its list and
/// the block grows to its parent.
pub proof fn lemma_dealloc_merge(l: Seq<Seq<u32>>, m: int, i: int, o: int, bits: Seq<u32>, nbits: Seq<u32>)
    requires
        geometry(l, m),
        wf_bits(m, l, bits),
        0 <= o < m,
        aligned(i, o),
        0 <= i,
        i + pw(o) <= pw(m),
        range_unused(l, i, i + pw(o)),
        seq_has(l[o], buddy_of(i, o)),
        flipped(bits, nbits, bidx(m, i, o)),
    ensures
        ({
            let b = buddy_of(i, o);
            let k = index_in(l[o], b);
            let nl = l.update(o, l[o].remove(k));
            let p = parent_of(i, o);
            &&& 0 <= k < l[o].len()
            &&& l[o][k] == b
            &&& geometry(nl, m)
            &&& wf_bits(m, nl, nbits)
            &&& aligned(p, o + 1)
            &&& 0 <= p
            &&& p + pw(o + 1) <= pw(m)
            &&& range_unused(nl, p, p + pw(o + 1))
            &&& free_pages(nl).union(page_range(p, p + pw(o + 1))) == free_pages(l).union(page_range(i, i + pw(o)))
            &&& dealloc_lists(nl, p, o + 1, m) == dealloc_lists(l, i, o, m)
        }),
{
    let b = buddy_of(i, o);
    let k = index_in(l[o], b);
    let nl = l.update(o, l[o].remove(k));
    let p = parent_of(i, o);
    lemma_pw_basics(o);
    lemma_pair(i, o, m);
    assert(0 <= k < l[o].len() && l[o][k] == b);
    assert(valid_pos(l, o, k));
    lemma_geometry_remove(l, m, o, k, i, i + pw(o));
    lemma_pages_remove(l, o, k);
    lemma_disjoint_distinct(l);
    lemma_list_distinct(l, o);
    // the held range and the buddy together make the parent
    assert forall|o2: int, k2: int| valid_pos(nl, o2, k2) implies #[trigger] nl[o2][k2] + pw(o2) <= p || p + pw(o + 1) <= nl[o2][k2] by {
        assert(nl[o2][k2] + pw(o2) <= i || i + pw(o) <= nl[o2][k2]);
        assert(nl[o2][k2] + pw(o2) <= b || b + pw(o) <= nl[o2][k2]);
    }
    assert(free_pages(nl).union(page_range(p, p + pw(o + 1))) =~= free_pages(l).union(page_range(i, i + pw(o)))) by {
        assert forall|q: int| page_range(b, b + pw(o)).contains(q) implies free_pages(l).contains(q) by {
            assert(valid_pos(l, o, k));
        }
    }
    // bits
    lemma_unused_not_in_lists(l, i, i + pw(o), i);
    assert(!seq_has(l[o], i)) by {
        if seq_has(l[o], i) {
            let kk = choose|kk: int| 0 <= kk < l[o].len() && l[o][kk] == i;
            assert(valid_pos(l, o, kk));
        }
    }
    lemma_has_remove(l[o], k, i);
    lemma_has_remove(l[o], k, b);
    assert forall|x: int| x != i && x != buddy_of(i, o) implies #[trigger] seq_has(nl[o], x) == seq_has(l[o], x) by {
        lemma_has_remove(l[o], k, x);
    }
    lemma_bit_in_range(m, bits, i, o);
    lemma_bits_flip(m, l, nl, bits, nbits, i, o);
}

/// Facts about the last step of a deallocation, when the buddy of `(i, o)` is not free (or `o`
/// is the top order): the block goes to the front of its list.
pub proof fn lemma_dealloc_settle(l: Seq<Seq<u32>>, m: int, i: int, o: int, bits: Seq<u32>, nbits: Seq<u32>)
    requires
        geometry(l, m),
        wf_bits(m, l, bits),
        0 <= o <= m,
        m <= 31,
        aligned(i, o),
        0 <= i,
        i + pw(o) <= pw(m),
        range_unused(l, i, i + pw(o)),
        o < m ==> !seq_has(l[o], buddy_of(i, o)),
        o < m ==> flipped(bits, nbits, bidx(m, i, o)),
        o == m ==> nbits == bits,
    ensures
        ({
            let nl = l.update(o, seq![i as u32] + l[o]);
            &&& (i as u32) as int == i
            &&& !in_lists(l, i)
            &&& geometry(nl, m)
            &&& wf_bits(m, nl, nbits)
            &&& free_pages(nl) == free_pages(l).union(page_range(i, i + pw(o)))
            &&& dealloc_lists(l, i, o, m) == nl
        }),
{
    lemma_pw_basics(o);
    super::tree_math::lemma_pw_mono(m, 31);
    assert(pw(31) == 0x8000_0000) by {
        vstd::arithmetic::power2::lemma2_to64();
    }
    let n = i as u32;
    let nl = l.update(o, seq![n] + l[o]);
    lemma_unused_not_in_lists(l, i, i + pw(o), i);
    lemma_geometry_push(l, m, o, n);
    lemma_pages_push(l, o, n);
    if o < m {
        lemma_pair(i, o, m);
        assert(!seq_has(l[o], i)) by {
            if seq_has(l[o], i) {
                let kk = choose|kk: int| 0 <= kk < l[o].len() && l[o][kk] == i;
                assert(valid_pos(l, o, kk));
            }
        }
        lemma_has_push(l[o], n, i);
        lemma_has_push(l[o], n, buddy_of(i, o));
        assert forall|x: int| x != i && x != buddy_of(i, o) implies #[trigger] seq_has(nl[o], x) == seq_has(l[o], x) by {
            lemma_has_push(l[o], n, x);
        }
        lemma_bit_in_range(m, bits, i, o);
        lemma_bits_flip(m, l, nl, bits, nbits, i, o);
    } else {
        lemma_bits_frame(m, l, nl, bits);
    }
}

proof fn lemma_undo_from(l0: Seq<Seq<u32>>, m: int, c: int, j: int, cur: int)
    requires
        geometry(l0, m),
        0 <= cur <= c <= m,
        m <= 31,
        l0[c].len() > 0,
        j == l0[c][0],
    ensures
        dealloc_lists(alloc_lists(l0, cur, c, j), j, cur, m) == l0,
    decreases c - cur,
{
    let a = alloc_lists(l0, cur, c, j);
    assert(valid_pos(l0, c, 0));
    if cur == c {
        if c < m {
            assert(!seq_has(l0[c], buddy_of(j, c)));
            if seq_has(a[c], buddy_of(j, c)) {
                let k = choose|k: int| 0 <= k < a[c].len() && a[c][k] == buddy_of(j, c);
                assert(l0[c][k + 1] == buddy_of(j, c));
            }
        }
        assert(a.update(c, seq![j as u32] + a[c]) =~= l0) by {
            assert(seq![j as u32] + l0[c].drop_first() =~= l0[c]);
        }
    } else {
        super::tree_math::lemma_aligned_lower(j, c, cur + 1);
        super::tree_math::lemma_pw_mono(cur + 1, c);
        lemma_split(j, cur, m);
        let b = j + pw(cur);
        assert(buddy_of(j, cur) == b);
        assert(a[cur] == seq![b as u32] + l0[cur]);
        super::tree_math::lemma_pw_mono(m, 31);
        assert(pw(31) == 0x8000_0000) by {
            vstd::arithmetic::power2::lemma2_to64();
        }
        assert((b as u32) as int == b);
        assert(a[cur][0] == b);
        assert(seq_has(a[cur], b));
        // the upper half is not on the list from before: it lies inside the block taken from order c
        assert(!seq_has(l0[cur], b)) by {
            if seq_has(l0[cur], b) {
                let k = choose|k: int| 0 <= k < l0[cur].len() && l0[cur][k] == b;
                assert(valid_pos(l0, cur, k));
                lemma_pw_basics(cur);
                super::tree_math::lemma_pw_mono(cur + 1, c);
                assert(l0[cur][k] + pw(cur) <= l0[c][0] || l0[c][0] + pw(c) <= l0[cur][k]);
            }
        }
        let k = index_in(a[cur], b);
        assert(k == 0) by {
            if k != 0 {
                assert(l0[cur][k - 1] == b);
            }
        }
        assert(a.update(cur, a[cur].remove(k)) =~= alloc_lists(l0, cur + 1, c, j)) by {
            assert(a[cur].remove(0) =~= l0[cur]);
        }
        assert(parent_of(j, cur) == j) by {
            lemma_pair(j, cur, m);
        }
        lemma_undo_from(l0, m, c, j, cur + 1);
    }
}

/// Freeing the block that an allocation just returned gives back exactly the free lists from
/// before the allocation.
pub proof fn lemma_dealloc_undoes_alloc(l0: Seq<Seq<u32>>, m: int, order: int)
    requires
        geometry(l0, m),
        0 <= order <= m,
        m <= 31,
        first_free_order(l0, order) <= m,
    ensures
        ({
            let c = first_free_order(l0, order);
            let j = l0[c][0] as int;
            dealloc_lists(alloc_lists(l0, order, c, j), j, order, m) == l0
        }),
{
    lemma_first_free_order(l0, order);
    let c = first_free_order(l0, order);
    lemma_undo_from(l0, m, c, l0[c][0] as int, order);
}

/// Two successive allocations hand out disjoint page ranges.
pub proof fn lemma_successive_allocations_disjoint(
    l0: Seq<Seq<u32>>,
    l1: Seq<Seq<u32>>,
    j1: int,
    o1: int,
    j2: int,
    o2: int,
)
    requires
        0 <= o1,
        0 <= o2,
        page_range(j1, j1 + pw(o1)).subset_of(free_pages(l0)),
        free_pages(l1) == free_pages(l0).difference(page_range(j1, j1 + pw(o1))),
        page_range(j2, j2 + pw(o2)).subset_of(free_pages(l1)),
    ensures
        page_range(j1, j1 + pw(o1)).disjoint(page_range(j2, j2 + pw(o2))),
        j1 + pw(o1) <= j2 || j2 + pw(o2) <= j1,
{
    lemma_pw_basics(o1);
    lemma_pw_basics(o2);
    assert forall|p: int| #[trigger] page_range(j2, j2 + pw(o2)).contains(p) implies !page_range(j1, j1 + pw(o1)).contains(p) by {
        assert(free_pages(l1).contains(p));
    }
    if !(j1 + pw(o1) <= j2 || j2 + pw(o2) <= j1) {
        let p = if j1 < j2 { j2 } else { j1 };
        assert(page_range(j2, j2 + pw(o2)).contains(p));
    }
}

} // verus!
