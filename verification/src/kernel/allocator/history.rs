//! What a buddy tree's free lists say over a history of allocations and frees: the free
//! pages and the blocks handed out and not yet given back account for every page once, and
//! once every block is back the tree is one free block again.
use vstd::prelude::*;
use vstd::arithmetic::div_mod::{lemma_fundamental_div_mod, lemma_fundamental_div_mod_converse};
use super::tree_math::{aligned, buddy_of, pw, lemma_pw_basics, lemma_aligned_lower};
use super::tree::AllocTree;
use super::tree_spec::{
    coalesced, fresh_lists, free_pages, geometry, page_range, range_unused, seq_has, valid_pos, first_free_order,
    lemma_first_free_order,
};

verus! {

/// The pages of the block `b`, given as its first page and its order.
pub open spec fn block_pages(b: (int, int)) -> Set<int> {
    page_range(b.0, b.0 + pw(b.1))
}

/// The free pages of a tree of order `m` with free lists `l`, and the blocks `live` handed
/// out and not yet given back, account for every page once: each live block is aligned and
/// inside the tree, live blocks meet neither each other nor the free pages, and every page
/// of the tree is free or in a live block.
pub open spec fn accounted(l: Seq<Seq<u32>>, m: int, live: Seq<(int, int)>) -> bool {
    &&& forall|k: int|
        0 <= k < live.len() ==> {
            &&& 0 <= (#[trigger] live[k]).1 <= m
            &&& 0 <= live[k].0
            &&& aligned(live[k].0, live[k].1)
            &&& live[k].0 + pw(live[k].1) <= pw(m)
            &&& block_pages(live[k]).disjoint(free_pages(l))
        }
    &&& forall|a: int, b: int|
        0 <= a < live.len() && 0 <= b < live.len() && a != b ==> block_pages(#[trigger] live[a]).disjoint(
            block_pages(#[trigger] live[b]),
        )
    &&& forall|p: int|
        0 <= p < pw(m) ==> free_pages(l).contains(p) || exists|k: int|
            0 <= k < live.len() && #[trigger] block_pages(live[k]).contains(p)
}

/// Two multiples of `d` less than `d` apart are equal.
proof fn lemma_multiples_close(s: int, r: int, d: int)
    requires
        d > 0,
        s % d == 0,
        r % d == 0,
        s <= r < s + d,
    ensures
        s == r,
{
    lemma_fundamental_div_mod(s, d);
    lemma_fundamental_div_mod(r, d);
    let a = s / d;
    let b = r / d;
    assert(a == b) by (nonlinear_arith)
        requires
            s == d * a + 0,
            r == d * b + 0,
            d > 0,
            s <= r < s + d,
    ;
}

/// A multiple of `d` below a multiple of `d` plus `d` is at most that multiple.
proof fn lemma_multiple_below(s: int, r: int, d: int)
    requires
        d > 0,
        s % d == 0,
        r % d == 0,
        s < r + d,
    ensures
        s <= r,
{
    lemma_fundamental_div_mod(s, d);
    lemma_fundamental_div_mod(r, d);
    let a = s / d;
    let b = r / d;
    assert(a <= b) by (nonlinear_arith)
        requires
            s == d * a + 0,
            r == d * b + 0,
            d > 0,
            s < r + d,
    ;
    assert(s <= r) by (nonlinear_arith)
        requires
            s == d * a,
            r == d * b,
            d > 0,
            a <= b,
    ;
}

/// An aligned run of `2^o` free pages lies inside one free block of order `o` or above:
/// free buddies would have been merged.
proof fn lemma_free_run_in_block(l: Seq<Seq<u32>>, m: int, r: int, o: int) -> (b: (int, int))
    requires
        geometry(l, m),
        0 <= o <= m,
        0 <= r,
        aligned(r, o),
        forall|p: int| r <= p < r + pw(o) ==> #[trigger] free_pages(l).contains(p),
    ensures
        valid_pos(l, b.0, b.1),
        b.0 >= o,
        l[b.0][b.1] <= r < l[b.0][b.1] + pw(b.0),
    decreases o,
{
    lemma_pw_basics(o);
    if o == 0 {
        assert(free_pages(l).contains(r));
        let (o2, k2) = choose|o2: int, k2: int| valid_pos(l, o2, k2) && l[o2][k2] <= r < l[o2][k2] + pw(o2);
        (o2, k2)
    } else {
        let h = o - 1;
        lemma_pw_basics(h);
        lemma_aligned_lower(r, o, h);
        // r is an even multiple of 2^h
        lemma_fundamental_div_mod(r, pw(o));
        let q = r / pw(o);
        assert(r == (2 * q) * pw(h) + 0) by (nonlinear_arith)
            requires
                r == pw(o) * q + 0,
                pw(o) == 2 * pw(h),
        ;
        lemma_fundamental_div_mod_converse(r, pw(h), 2 * q, 0);
        let r2 = r + pw(h);
        assert(r2 == (2 * q + 1) * pw(h) + 0) by (nonlinear_arith)
            requires
                r == (2 * q) * pw(h) + 0,
                r2 == r + pw(h),
        ;
        lemma_fundamental_div_mod_converse(r2, pw(h), 2 * q + 1, 0);
        let a = lemma_free_run_in_block(l, m, r, h);
        if a.0 >= o {
            return a;
        }
        let b = lemma_free_run_in_block(l, m, r2, h);
        let sa = l[a.0][a.1] as int;
        let sb = l[b.0][b.1] as int;
        lemma_pw_basics(b.0);
        if b.0 >= o {
            lemma_aligned_lower(sb, b.0, o);
            lemma_multiple_below(sb, r, pw(o));
            return b;
        }
        assert(a.0 == h && b.0 == h);
        assert(aligned(sa, h) && aligned(sb, h));
        lemma_multiples_close(sa, r, pw(h));
        lemma_multiples_close(sb, r2, pw(h));
        assert(buddy_of(r, h) == r2) by {
            assert((r / pw(h)) % 2 == 0);
        }
        assert(seq_has(l[h], r2)) by {
            assert(l[h][b.1] == r2);
        }
        assert(coalesced(l, m));
        assert(!seq_has(l[h], buddy_of(l[h][a.1] as int, h)));
        assert(false);
        a
    }
}

/// Free lists with the geometry of a tree of order `m` in which every page is free are
/// those of a fresh tree: a single free block of order `m` at page 0.
pub proof fn lemma_all_free_is_fresh(l: Seq<Seq<u32>>, m: int)
    requires
        geometry(l, m),
        0 <= m,
        forall|p: int| 0 <= p < pw(m) ==> #[trigger] free_pages(l).contains(p),
    ensures
        l == fresh_lists(m),
        first_free_order(l, m) == m,
        l[m][0] == 0,
{
    lemma_pw_basics(m);
    assert(aligned(0, m)) by {
        lemma_fundamental_div_mod_converse(0, pw(m), 0, 0);
    }
    let b = lemma_free_run_in_block(l, m, 0, m);
    let k0 = b.1;
    assert(b.0 == m);
    assert(l[m][k0] == 0);
    assert forall|o: int, k: int| valid_pos(l, o, k) implies o == m && k == k0 by {
        lemma_pw_basics(o);
        if !(o == m && k == k0) {
            assert(l[o][k] + pw(o) <= l[m][k0] || l[m][k0] + pw(m) <= l[o][k]);
            assert(l[o][k] + pw(o) <= pw(m));
        }
    }
    assert forall|o: int| 0 <= o <= m implies #[trigger] l[o] =~= fresh_lists(m)[o] by {
        if o == m {
            if k0 != 0 {
                assert(valid_pos(l, m, 0));
            }
            if l[m].len() > 1 {
                assert(valid_pos(l, m, 1));
            }
            assert(l[m].len() == 1);
        } else if l[o].len() > 0 {
            assert(valid_pos(l, o, 0));
        }
    }
    assert(l =~= fresh_lists(m));
    lemma_first_free_order(l, m);
}

/// A fresh tree, with no block handed out, accounts for every page as free.
pub proof fn lemma_fresh_accounted(m: int)
    requires
        0 <= m,
    ensures
        accounted(fresh_lists(m), m, Seq::<(int, int)>::empty()),
{
    let l = fresh_lists(m);
    lemma_pw_basics(m);
    assert forall|p: int| 0 <= p < pw(m) implies #[trigger] free_pages(l).contains(p) by {
        assert(valid_pos(l, m, 0));
        assert(l[m][0] == 0);
    }
}

/// An allocation that hands out the free block `(j, o)` keeps every page accounted for,
/// with the block now live, and the block meets no block that was already live.
pub proof fn lemma_alloc_accounted(
    l0: Seq<Seq<u32>>,
    l1: Seq<Seq<u32>>,
    m: int,
    live: Seq<(int, int)>,
    j: int,
    o: int,
)
    requires
        accounted(l0, m, live),
        0 <= o <= m,
        0 <= j,
        aligned(j, o),
        j + pw(o) <= pw(m),
        page_range(j, j + pw(o)).subset_of(free_pages(l0)),
        free_pages(l1) == free_pages(l0).difference(page_range(j, j + pw(o))),
    ensures
        accounted(l1, m, live.push((j, o))),
        forall|k: int| 0 <= k < live.len() ==> block_pages((j, o)).disjoint(block_pages(#[trigger] live[k])),
{
    let nl = live.push((j, o));
    assert forall|k: int| 0 <= k < live.len() implies block_pages((j, o)).disjoint(block_pages(#[trigger] live[k])) by {
        assert forall|p: int| block_pages((j, o)).contains(p) implies !block_pages(live[k]).contains(p) by {
            assert(free_pages(l0).contains(p));
        }
    }
    assert forall|k: int| 0 <= k < nl.len() implies block_pages(#[trigger] nl[k]).disjoint(free_pages(l1)) by {
        if k < live.len() {
            assert(nl[k] == live[k]);
        }
    }
    assert forall|a: int, b: int|
        0 <= a < nl.len() && 0 <= b < nl.len() && a != b implies block_pages(#[trigger] nl[a]).disjoint(
        block_pages(#[trigger] nl[b]),
    ) by {
        if a == live.len() {
            assert(nl[b] == live[b]);
        } else if b == live.len() {
            assert(nl[a] == live[a]);
            assert(block_pages((j, o)).disjoint(block_pages(live[a])));
        } else {
            assert(nl[a] == live[a] && nl[b] == live[b]);
        }
    }
    assert forall|p: int| 0 <= p < pw(m) implies free_pages(l1).contains(p) || exists|k: int|
        0 <= k < nl.len() && #[trigger] block_pages(nl[k]).contains(p) by {
        if !free_pages(l1).contains(p) {
            if free_pages(l0).contains(p) {
                assert(block_pages(nl[live.len() as int]).contains(p));
            } else {
                let k = choose|k: int| 0 <= k < live.len() && #[trigger] block_pages(live[k]).contains(p);
                assert(nl[k] == live[k]);
                assert(block_pages(nl[k]).contains(p));
            }
        }
    }
}

/// No free block meets a live block: the range that a free must name is unused.
pub proof fn lemma_live_unused(l: Seq<Seq<u32>>, m: int, live: Seq<(int, int)>, k: int)
    requires
        accounted(l, m, live),
        0 <= k < live.len(),
    ensures
        range_unused(l, live[k].0, live[k].0 + pw(live[k].1)),
{
    let lo = live[k].0;
    let hi = live[k].0 + pw(live[k].1);
    lemma_pw_basics(live[k].1);
    assert forall|o: int, i: int| valid_pos(l, o, i) implies #[trigger] l[o][i] + pw(o) <= lo || hi <= l[o][i] by {
        lemma_pw_basics(o);
        if !(l[o][i] + pw(o) <= lo || hi <= l[o][i]) {
            let p = if l[o][i] < lo { lo } else { l[o][i] as int };
            assert(free_pages(l).contains(p));
            assert(block_pages(live[k]).contains(p));
        }
    }
}

/// Freeing the live block `live[k]`, whatever its place among the live blocks, keeps every
/// page accounted for, with the block no longer live.
pub proof fn lemma_dealloc_accounted(l1: Seq<Seq<u32>>, l2: Seq<Seq<u32>>, m: int, live: Seq<(int, int)>, k: int)
    requires
        accounted(l1, m, live),
        0 <= k < live.len(),
        free_pages(l2) == free_pages(l1).union(block_pages(live[k])),
    ensures
        accounted(l2, m, live.remove(k)),
{
    let nl = live.remove(k);
    assert forall|i: int| 0 <= i < nl.len() implies #[trigger] nl[i] == live[if i < k { i } else { i + 1 }] by {}
    assert forall|i: int| 0 <= i < nl.len() implies block_pages(#[trigger] nl[i]).disjoint(free_pages(l2)) by {
        let x = if i < k { i } else { i + 1 };
        assert(nl[i] == live[x]);
        assert(block_pages(live[x]).disjoint(block_pages(live[k])));
    }
    assert forall|a: int, b: int|
        0 <= a < nl.len() && 0 <= b < nl.len() && a != b implies block_pages(#[trigger] nl[a]).disjoint(
        block_pages(#[trigger] nl[b]),
    ) by {
        let xa = if a < k { a } else { a + 1 };
        let xb = if b < k { b } else { b + 1 };
        assert(nl[a] == live[xa] && nl[b] == live[xb]);
    }
    assert forall|p: int| 0 <= p < pw(m) implies free_pages(l2).contains(p) || exists|i: int|
        0 <= i < nl.len() && #[trigger] block_pages(nl[i]).contains(p) by {
        if !free_pages(l2).contains(p) {
            let x = choose|x: int| 0 <= x < live.len() && #[trigger] block_pages(live[x]).contains(p);
            assert(x != k);
            let i = if x < k { x } else { x - 1 };
            assert(nl[i] == live[x]);
            assert(block_pages(nl[i]).contains(p));
        }
    }
}

/// Once every block handed out has been given back, in whatever order, the tree is fresh
/// again: its buddies have all merged into one free block of order `m` at page 0, which an
/// allocation of order `m` takes next.
pub proof fn lemma_nothing_live_is_fresh(l: Seq<Seq<u32>>, m: int)
    requires
        geometry(l, m),
        0 <= m,
        accounted(l, m, Seq::<(int, int)>::empty()),
    ensures
        l == fresh_lists(m),
        first_free_order(l, m) == m,
        l[m][0] == 0,
{
    assert forall|p: int| 0 <= p < pw(m) implies #[trigger] free_pages(l).contains(p) by {}
    lemma_all_free_is_fresh(l, m);
}

/// The `2^o` pages from `r` on are all free, and `r` is a multiple of `2^o`.
pub open spec fn free_run(l: Seq<Seq<u32>>, r: int, o: int) -> bool {
    &&& 0 <= r
    &&& aligned(r, o)
    &&& forall|p: int| r <= p < r + pw(o) ==> #[trigger] free_pages(l).contains(p)
}

/// A tree has a free block of order `o` or above, so that an allocation of order `o` succeeds,
/// exactly when it has `2^o` free pages from a multiple of `2^o` on.
pub proof fn lemma_free_block_iff_free_run(l: Seq<Seq<u32>>, m: int, o: int)
    requires
        geometry(l, m),
        0 <= o <= m,
    ensures
        (first_free_order(l, o) <= m) == (exists|r: int| #[trigger] free_run(l, r, o)),
{
    lemma_first_free_order(l, o);
    lemma_pw_basics(o);
    if exists|r: int| #[trigger] free_run(l, r, o) {
        let r = choose|r: int| #[trigger] free_run(l, r, o);
        let b = lemma_free_run_in_block(l, m, r, o);
        if first_free_order(l, o) > m {
            assert(l[b.0].len() == 0);
        }
    }
    if first_free_order(l, o) <= m {
        let c = first_free_order(l, o);
        assert(valid_pos(l, c, 0));
        let r = l[c][0] as int;
        lemma_pw_basics(c);
        super::tree_math::lemma_pw_mono(o, c);
        lemma_aligned_lower(r, c, o);
        assert forall|p: int| r <= p < r + pw(o) implies #[trigger] free_pages(l).contains(p) by {
            assert(valid_pos(l, c, 0) && l[c][0] <= p < l[c][0] + pw(c));
        }
        assert(free_run(l, r, o));
    }
}

/// A call on a tree and what it answered: an allocation of `order` that handed out the block
/// at page `answer` or failed (`None`), or the free of the block at page `index` of `order`.
#[derive(Clone, Copy, PartialEq, Eq, Structural)]
pub enum TreeCall {
    Alloc { order: u32, answer: Option<u32> },
    Free { index: u32, order: u32 },
}

/// The blocks handed out over `calls` and not given back since, oldest first, each as its
/// first page and its order.
pub open spec fn live_blocks(calls: Seq<TreeCall>) -> Seq<(int, int)>
    decreases calls.len(),
{
    if calls.len() == 0 {
        Seq::empty()
    } else {
        let before = live_blocks(calls.drop_last());
        match calls.last() {
            TreeCall::Alloc { order, answer: Some(j) } => before.push((j as int, order as int)),
            TreeCall::Alloc { order, answer: None } => before,
            TreeCall::Free { index, order } => before.remove(before.index_of((index as int, order as int))),
        }
    }
}

/// `after` is what `AllocTree::allocate` or `AllocTree::dealloc` leaves of `before` for
/// `call`, as their contracts state; a free names a block of `live`, as `dealloc` asks.
pub open spec fn tree_step(before: AllocTree, call: TreeCall, after: AllocTree, live: Seq<(int, int)>) -> bool {
    let l0 = before.free_lists();
    let l1 = after.free_lists();
    let m = before.order();
    &&& after.wf()
    &&& after.order() == m
    &&& match call {
        TreeCall::Alloc { order, answer: Some(j) } => {
            &&& order <= m
            &&& aligned(j as int, order as int)
            &&& j + pw(order as int) <= pw(m)
            &&& page_range(j as int, j + pw(order as int)).subset_of(free_pages(l0))
            &&& free_pages(l1) == free_pages(l0).difference(page_range(j as int, j + pw(order as int)))
        },
        TreeCall::Alloc { order, answer: None } => {
            &&& (order > m || first_free_order(l0, order as int) > m)
            &&& l1 == l0
        },
        TreeCall::Free { index, order } => {
            &&& live.contains((index as int, order as int))
            &&& free_pages(l1) == free_pages(l0).union(page_range(index as int, index + pw(order as int)))
        },
    }
}

/// `trees` are the states of one tree over the calls `calls`: fresh at first, and each the
/// result of the call before it.
pub open spec fn tree_trace(trees: Seq<AllocTree>, calls: Seq<TreeCall>) -> bool {
    &&& trees.len() == calls.len() + 1
    &&& trees[0].wf()
    &&& trees[0].free_lists() == fresh_lists(trees[0].order())
    &&& forall|i: int|
        0 <= i < calls.len() ==> tree_step(trees[i], #[trigger] calls[i], trees[i + 1], live_blocks(calls.take(i)))
}

/// After the first `n` calls of a history, the tree keeps its order and accounts for every
/// page with the blocks still live.
proof fn lemma_history_upto(trees: Seq<AllocTree>, calls: Seq<TreeCall>, n: int)
    requires
        tree_trace(trees, calls),
        0 <= n <= calls.len(),
    ensures
        trees[n].wf(),
        trees[n].order() == trees[0].order(),
        accounted(trees[n].free_lists(), trees[0].order(), live_blocks(calls.take(n))),
    decreases n,
{
    let m = trees[0].order();
    if n == 0 {
        trees[0].lemma_geometry();
        lemma_fresh_accounted(m);
        assert(calls.take(0) =~= Seq::<TreeCall>::empty());
    } else {
        lemma_history_upto(trees, calls, n - 1);
        let call = calls[n - 1];
        assert(tree_step(trees[n - 1], call, trees[n], live_blocks(calls.take(n - 1))));
        let live = live_blocks(calls.take(n - 1));
        assert(calls.take(n).drop_last() =~= calls.take(n - 1));
        assert(calls.take(n).last() == call);
        let l0 = trees[n - 1].free_lists();
        let l1 = trees[n].free_lists();
        match call {
            TreeCall::Alloc { order, answer: Some(j) } => {
                lemma_alloc_accounted(l0, l1, m, live, j as int, order as int);
            },
            TreeCall::Alloc { order, answer: None } => {},
            TreeCall::Free { index, order } => {
                let b = (index as int, order as int);
                let k = live.index_of(b);
                assert(0 <= k < live.len() && live[k] == b);
                lemma_dealloc_accounted(l0, l1, m, live, k);
            },
        }
    }
}

/// Over any history of allocations and frees on a fresh tree of order `m`, at every point:
/// the tree keeps order `m`, so its node count stays `2^m`; its free pages and the blocks
/// still live account for every page once; a successful allocation hands out a block that
/// meets no live block; an allocation fails exactly when its order is above `m` or no aligned
/// run of `2^order` free pages exists; and once every block handed out is back, whatever the
/// order of the frees, the buddies have merged into one free block of order `m` at page 0.
pub proof fn lemma_tree_history(trees: Seq<AllocTree>, calls: Seq<TreeCall>)
    requires
        tree_trace(trees, calls),
    ensures
        forall|i: int| 0 <= i <= calls.len() ==> (#[trigger] trees[i]).order() == trees[0].order(),
        forall|i: int|
            0 <= i <= calls.len() ==> accounted(
                (#[trigger] trees[i]).free_lists(),
                trees[0].order(),
                live_blocks(calls.take(i)),
            ),
        forall|i: int|
            0 <= i <= calls.len() && live_blocks(calls.take(i)).len() == 0 ==> (#[trigger] trees[i]).free_lists()
                == fresh_lists(trees[0].order()),
        forall|i: int, k: int|
            #![trigger calls[i], live_blocks(calls.take(i))[k]]
            0 <= i < calls.len() && 0 <= k < live_blocks(calls.take(i)).len() ==> (calls[i] matches TreeCall::Alloc {
                order,
                answer: Some(j),
            } ==> block_pages((j as int, order as int)).disjoint(block_pages(live_blocks(calls.take(i))[k]))),
        forall|i: int|
            0 <= i < calls.len() ==> (#[trigger] calls[i] matches TreeCall::Alloc { order, answer } ==> (answer is None
                <==> (order > trees[0].order() || !exists|r: int| free_run(trees[i].free_lists(), r, order as int)))),
{
    let m = trees[0].order();
    assert forall|i: int| 0 <= i <= calls.len() implies (#[trigger] trees[i]).order() == m && accounted(
        trees[i].free_lists(),
        m,
        live_blocks(calls.take(i)),
    ) && (live_blocks(calls.take(i)).len() == 0 ==> trees[i].free_lists() == fresh_lists(m)) by {
        lemma_history_upto(trees, calls, i);
        if live_blocks(calls.take(i)).len() == 0 {
            trees[i].lemma_geometry();
            assert(live_blocks(calls.take(i)) =~= Seq::<(int, int)>::empty());
            lemma_nothing_live_is_fresh(trees[i].free_lists(), m);
        }
    }
    assert forall|i: int, k: int|
        #![trigger calls[i], live_blocks(calls.take(i))[k]]
        0 <= i < calls.len() && 0 <= k < live_blocks(calls.take(i)).len() implies (calls[i] matches TreeCall::Alloc {
        order,
        answer: Some(j),
    } ==> block_pages((j as int, order as int)).disjoint(block_pages(live_blocks(calls.take(i))[k]))) by {
        lemma_history_upto(trees, calls, i);
        assert(tree_step(trees[i], calls[i], trees[i + 1], live_blocks(calls.take(i))));
        if let TreeCall::Alloc { order, answer: Some(j) } = calls[i] {
            lemma_alloc_accounted(
                trees[i].free_lists(),
                trees[i + 1].free_lists(),
                m,
                live_blocks(calls.take(i)),
                j as int,
                order as int,
            );
        }
    }
    assert forall|i: int| 0 <= i < calls.len() implies (#[trigger] calls[i] matches TreeCall::Alloc { order, answer }
        ==> (answer is None <==> (order > m || !exists|r: int| free_run(trees[i].free_lists(), r, order as int)))) by {
        lemma_history_upto(trees, calls, i);
        assert(tree_step(trees[i], calls[i], trees[i + 1], live_blocks(calls.take(i))));
        if let TreeCall::Alloc { order, answer } = calls[i] {
            trees[i].lemma_geometry();
            let l = trees[i].free_lists();
            if order <= m {
                lemma_free_block_iff_free_run(l, m, order as int);
                if let Some(j) = answer {
                    lemma_pw_basics(order as int);
                    assert forall|p: int| j <= p < j + pw(order as int) implies #[trigger] free_pages(l).contains(p) by {
                        assert(page_range(j as int, j + pw(order as int)).contains(p));
                    }
                    assert(free_run(l, j as int, order as int));
                }
            }
        }
    }
}

/// `AllocTree::allocate` over any history of calls on a fresh tree of order `m`: a block it
/// hands out is aligned to its order, lies inside the tree, and meets no block handed out and
/// not yet given back; it fails exactly when the order is above `m` or no aligned run of
/// `2^order` free pages exists, and then the tree is left as it was.
pub proof fn lemma_tree_alloc_law(trees: Seq<AllocTree>, calls: Seq<TreeCall>, i: int)
    requires
        tree_trace(trees, calls),
        0 <= i < calls.len(),
    ensures
        calls[i] matches TreeCall::Alloc { order, answer: Some(j) } ==> {
            &&& aligned(j as int, order as int)
            &&& j + pw(order as int) <= pw(trees[0].order())
            &&& forall|k: int|
                0 <= k < live_blocks(calls.take(i)).len() ==> block_pages((j as int, order as int)).disjoint(
                    block_pages(#[trigger] live_blocks(calls.take(i))[k]),
                )
        },
        calls[i] matches TreeCall::Alloc { order, answer } ==> (answer is None <==> (order > trees[0].order()
            || !exists|r: int| free_run(trees[i].free_lists(), r, order as int))),
        calls[i] matches TreeCall::Alloc { order, answer: None } ==> trees[i + 1].free_lists() == trees[i].free_lists(),
{
    lemma_tree_history(trees, calls);
    assert(tree_step(trees[i], calls[i], trees[i + 1], live_blocks(calls.take(i))));
    assert(trees[i].order() == trees[0].order());
    if let TreeCall::Alloc { order, answer: Some(j) } = calls[i] {
        assert forall|k: int| 0 <= k < live_blocks(calls.take(i)).len() implies block_pages(
            (j as int, order as int),
        ).disjoint(block_pages(#[trigger] live_blocks(calls.take(i))[k])) by {
            assert(calls[i] matches TreeCall::Alloc { order, answer: Some(j) } ==> block_pages(
                (j as int, order as int),
            ).disjoint(block_pages(live_blocks(calls.take(i))[k])));
        }
    }
}

/// `AllocTree::dealloc` over any history of calls on a fresh tree of order `m`: once every
/// block handed out has been given back, in whatever order, the buddies have merged into one
/// free block of order `m` at page 0 again, the block that `allocate(m)` hands out next.
pub proof fn lemma_tree_free_all_remerges(trees: Seq<AllocTree>, calls: Seq<TreeCall>)
    requires
        tree_trace(trees, calls),
        live_blocks(calls).len() == 0,
    ensures
        trees.last().free_lists() == fresh_lists(trees[0].order()),
        first_free_order(trees.last().free_lists(), trees[0].order()) == trees[0].order(),
        trees.last().free_lists()[trees[0].order()][0] == 0,
{
    lemma_tree_history(trees, calls);
    let n = calls.len() as int;
    assert(calls.take(n) =~= calls);
    assert(trees[n].free_lists() == fresh_lists(trees[0].order()));
    trees[n].lemma_geometry();
    lemma_nothing_live_is_fresh(trees[n].free_lists(), trees[0].order());
}

} // verus!
