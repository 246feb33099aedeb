//! What reserving the first pages of a fresh buddy tree leaves free: the pages below a
//! region's start, and the tree's own metadata, are taken block by block, largest first.
use vstd::prelude::*;
use vstd::arithmetic::div_mod::{lemma_fundamental_div_mod, lemma_fundamental_div_mod_converse, lemma_mod_breakdown, lemma_mod_multiples_basic, lemma_mod_pos_bound, lemma_small_mod};
use crate::kernel::allocator::tree_math::{pw, lemma_pw_basics, lemma_pw_split, lemma_pw_mono, lemma_aligned_lower};
use crate::kernel::allocator::tree_spec::{first_free_order, alloc_lists, fresh_lists, free_pages, page_range, valid_pos, lemma_first_free_order};
use crate::kernel::boot::reserve_spec;
use crate::num::{log2_floor, lemma_log2_floor};

verus! {

/// Bit `k` of `x` is set.
pub open spec fn bit_set(x: int, k: int) -> bool {
    (x / pw(k)) % 2 == 1
}

/// The free lists of a fresh tree of order `m` once its first `s` pages are taken: the
/// `2^m - s` pages left are one block per set bit of `2^m - s`, the smallest at page `s`
/// and each next one right after it.
pub open spec fn reserved_lists(m: int, s: int) -> Seq<Seq<u32>> {
    Seq::new(
        (m + 1) as nat,
        |k: int|
            if bit_set(pw(m) - s, k) {
                seq![(s + (pw(m) - s) % pw(k)) as u32]
            } else {
                Seq::<u32>::empty()
            },
    )
}

/// The remainder by `2^(k+1)` adds bit `k` to the remainder by `2^k`.
proof fn lemma_mod_step(x: int, k: int)
    requires
        0 <= x,
        0 <= k,
    ensures
        x % pw(k + 1) == x % pw(k) + pw(k) * ((x / pw(k)) % 2),
        0 <= (x / pw(k)) % 2 <= 1,
{
    lemma_pw_basics(k);
    lemma_mod_breakdown(x, pw(k), 2);
    assert(pw(k) * 2 == pw(k + 1));
}

/// Taking less than the remainder leaves the quotient alone.
proof fn lemma_mod_sub(x: int, y: int, d: int)
    requires
        0 <= y <= x % d,
        0 <= x,
        0 < d,
    ensures
        (x - y) / d == x / d,
        (x - y) % d == x % d - y,
{
    lemma_fundamental_div_mod(x, d);
    lemma_mod_pos_bound(x, d);
    assert(x - y == (x / d) * d + (x % d - y)) by (nonlinear_arith)
        requires
            x == d * (x / d) + x % d,
    ;
    lemma_fundamental_div_mod_converse(x - y, d, x / d, x % d - y);
}

/// The remainders by growing powers of two grow.
proof fn lemma_mod_mono(x: int, a: int, b: int)
    requires
        0 <= x,
        0 <= a <= b,
    ensures
        x % pw(a) <= x % pw(b),
    decreases b - a,
{
    if a < b {
        lemma_mod_step(x, a);
        lemma_pw_basics(a);
        lemma_mod_mono(x, a + 1, b);
    }
}

/// The lowest set bit of `r` from `k` up, when the bits below `k` are clear.
proof fn lemma_lowest_bit(r: int, k: int, m: int) -> (c: int)
    requires
        0 <= k <= m,
        0 < r <= pw(m),
        r % pw(k) == 0,
    ensures
        k <= c <= m,
        bit_set(r, c),
        r % pw(c) == 0,
        forall|j: int| k <= j < c ==> !bit_set(r, j),
    decreases m - k,
{
    lemma_mod_step(r, k);
    if bit_set(r, k) {
        k
    } else if k == m {
        lemma_pw_basics(m);
        lemma_small_mod(r as nat, pw(m + 1) as nat);
        k
    } else {
        lemma_lowest_bit(r, k + 1, m)
    }
}

/// One step of the reservation: with `s` pages taken, a multiple of `2^(o+1)`, the next
/// block of order `o` comes from page `s`, and the lists become those with `s + 2^o` taken.
proof fn lemma_reserve_step(m: int, s: int, o: int) -> (c: int)
    requires
        0 <= m <= 31,
        0 <= o,
        0 <= s,
        s + pw(o) <= pw(m),
        s % pw(o + 1) == 0,
    ensures
        o <= c <= m,
        c == first_free_order(reserved_lists(m, s), o),
        reserved_lists(m, s)[c][0] == s,
        alloc_lists(reserved_lists(m, s), o, c, s) == reserved_lists(m, s + pw(o)),
{
    let l = reserved_lists(m, s);
    let r = pw(m) - s;
    let r2 = r - pw(o);
    lemma_pw_basics(o);
    lemma_pw_basics(m);
    if o > m {
        lemma_pw_mono(m + 1, o);
    }
    assert(o <= m);
    // everything below order o is clear in r
    lemma_aligned_lower(s, o + 1, o);
    vstd::arithmetic::div_mod::lemma_mod_self_0(pw(m));
    lemma_aligned_lower(pw(m), m, o);
    assert(r % pw(o) == 0) by {
        lemma_fundamental_div_mod(s, pw(o));
        lemma_fundamental_div_mod(pw(m), pw(o));
        let a = pw(m) / pw(o);
        let b = s / pw(o);
        assert(r == (a - b) * pw(o)) by (nonlinear_arith)
            requires
                pw(m) == pw(o) * a + 0,
                s == pw(o) * b + 0,
                r == pw(m) - s,
        ;
        lemma_mod_multiples_basic(a - b, pw(o));
    }
    let c = lemma_lowest_bit(r, o, m);
    lemma_pw_basics(c);
    // the lists of orders o..c are empty, that of order c holds s
    lemma_first_free_order(l, o);
    assert(l[c].len() > 0);
    let f = first_free_order(l, o);
    if f < c {
        assert(l[f].len() == 0);
    }
    assert(f == c);
    assert(s < 0x1_0000_0000) by {
        lemma_pw_mono(m, 31);
        vstd::arithmetic::power2::lemma2_to64();
    }
    assert(l[c][0] == s);
    // the block of order c at s, q its index
    lemma_fundamental_div_mod(r, pw(c));
    let q = r / pw(c);
    assert(q % 2 == 1);
    assert(r == pw(c) * q);
    let nl = alloc_lists(l, o, c, s);
    let rl = reserved_lists(m, s + pw(o));
    assert forall|k: int| 0 <= k <= m implies #[trigger] nl[k] == rl[k] by {
        lemma_pw_basics(k);
        if k < o {
            // both r and r2 are multiples of 2^(k+1)
            lemma_aligned_lower(r, o, k + 1);
            assert(r2 % pw(o) == 0) by {
                lemma_fundamental_div_mod(r, pw(o));
                let t = r / pw(o);
                assert(r2 == (t - 1) * pw(o)) by (nonlinear_arith)
                    requires
                        r == pw(o) * t + 0,
                        r2 == r - pw(o),
                ;
                lemma_mod_multiples_basic(t - 1, pw(o));
            }
            lemma_aligned_lower(r2, o, k + 1);
            lemma_mod_step(r, k);
            lemma_mod_step(r2, k);
            lemma_aligned_lower(r, k + 1, k);
            lemma_aligned_lower(r2, k + 1, k);
            assert(!bit_set(r, k));
            assert(!bit_set(r2, k));
        } else if k < c {
            // r2 = 2^k * (2^(c-k) q - 1) + (2^k - 2^o)
            lemma_pw_split(k, c - k);
            lemma_pw_split(o, k - o);
            lemma_pw_basics(c - k);
            lemma_pw_basics(k - o);
            lemma_pw_mono(1, c - k);
            assert(pw(1) == 2) by {
                lemma_pw_basics(0);
                vstd::arithmetic::power2::lemma2_to64();
            }
            let e = pw(c - k);
            let qq = e * q - 1;
            assert(r2 == qq * pw(k) + (pw(k) - pw(o))) by (nonlinear_arith)
                requires
                    r == pw(c) * q,
                    pw(c) == pw(k) * e,
                    r2 == r - pw(o),
                    qq == e * q - 1,
            ;
            assert(pw(o) <= pw(k)) by {
                lemma_pw_mono(o, k);
            }
            lemma_fundamental_div_mod_converse(r2, pw(k), qq, pw(k) - pw(o));
            assert(e % 2 == 0) by {
                lemma_pw_basics(c - k - 1);
            }
            assert(qq % 2 == 1) by {
                lemma_fundamental_div_mod(e, 2);
                let h = e / 2;
                assert(qq == (h * q - 1) * 2 + 1) by (nonlinear_arith)
                    requires
                        e == 2 * h + 0,
                        qq == e * q - 1,
                ;
                lemma_fundamental_div_mod_converse(qq, 2, h * q - 1, 1);
            }
            assert(bit_set(r2, k));
            assert(!bit_set(r, k));
            assert(rl[k] =~= seq![(s + pw(k)) as u32]);
            assert(nl[k] =~= seq![(s + pw(k)) as u32] + l[k]);
        } else if k == c {
            // r2 = 2^c (q - 1) + (2^c - 2^o)
            assert(pw(o) <= pw(c)) by {
                lemma_pw_mono(o, c);
            }
            assert(r2 == (q - 1) * pw(c) + (pw(c) - pw(o))) by (nonlinear_arith)
                requires
                    r == pw(c) * q,
                    r2 == r - pw(o),
            ;
            lemma_fundamental_div_mod_converse(r2, pw(c), q - 1, pw(c) - pw(o));
            assert(!bit_set(r2, c));
            assert(nl[c] =~= l[c].drop_first());
        } else {
            // above c, taking 2^o leaves every quotient alone
            lemma_mod_step(r, c);
            lemma_mod_mono(r, c + 1, k);
            assert(pw(o) <= pw(c)) by {
                lemma_pw_mono(o, c);
            }
            lemma_mod_sub(r, pw(o), pw(k));
            assert(bit_set(r2, k) == bit_set(r, k));
            assert(nl[k] == l[k]);
        }
    }
    assert(nl =~= rl);
    c
}

/// Reserving `n` more pages after `s`, where `s` is made of blocks larger than any that the
/// `n` pages need, ends with `s + n` pages taken.
proof fn lemma_reserve_from(m: int, s: int, n: nat)
    requires
        0 <= m <= 31,
        0 <= s,
        s + n <= pw(m),
        n == 0 || s % pw(log2_floor(n) as int + 1) == 0,
    ensures
        reserve_spec(reserved_lists(m, s), m, n) == Some(reserved_lists(m, s + n)),
    decreases n,
{
    if n > 0 {
        let o = log2_floor(n) as int;
        lemma_log2_floor(n);
        lemma_pw_basics(o);
        let c = lemma_reserve_step(m, s, o);
        let n2 = (n - pw(o)) as nat;
        if n2 > 0 {
            let o2 = log2_floor(n2) as int;
            lemma_log2_floor(n2);
            if o2 + 1 > o {
                lemma_pw_mono(o, o2);
            }
            lemma_aligned_lower(s, o + 1, o2 + 1);
            vstd::arithmetic::div_mod::lemma_mod_self_0(pw(o));
            lemma_aligned_lower(pw(o), o, o2 + 1);
            lemma_pw_basics(o2 + 1);
            lemma_fundamental_div_mod(s, pw(o2 + 1));
            lemma_fundamental_div_mod(pw(o), pw(o2 + 1));
            let a = s / pw(o2 + 1);
            let b = pw(o) / pw(o2 + 1);
            assert(s + pw(o) == (a + b) * pw(o2 + 1)) by (nonlinear_arith)
                requires
                    s == pw(o2 + 1) * a + 0,
                    pw(o) == pw(o2 + 1) * b + 0,
            ;
            lemma_mod_multiples_basic(a + b, pw(o2 + 1));
        }
        lemma_reserve_from(m, s + pw(o), n2);
    }
}

/// The first block whose end lies past offset `d`.
proof fn lemma_find_block(r: int, d: int, k: int, m: int) -> (j: int)
    requires
        0 <= k <= m,
        0 <= r,
        r % pw(k) <= d < r % pw(m + 1),
    ensures
        k <= j <= m,
        r % pw(j) <= d < r % pw(j + 1),
    decreases m - k,
{
    if d < r % pw(k + 1) {
        k
    } else {
        if k == m {
            assert(false);
        }
        lemma_find_block(r, d, k + 1, m)
    }
}

/// The blocks of `reserved_lists(m, s)` cover the pages from `s` to the end of the tree.
proof fn lemma_reserved_pages(m: int, s: int)
    requires
        0 <= m <= 31,
        0 <= s <= pw(m),
    ensures
        free_pages(reserved_lists(m, s)) == page_range(s, pw(m)),
{
    let l = reserved_lists(m, s);
    let r = pw(m) - s;
    lemma_pw_basics(m);
    assert(pw(m) <= 0x8000_0000) by {
        lemma_pw_mono(m, 31);
        vstd::arithmetic::power2::lemma2_to64();
    }
    assert forall|p: int| free_pages(l).contains(p) <==> page_range(s, pw(m)).contains(p) by {
        if free_pages(l).contains(p) {
            let (o, k) = choose|o: int, k: int| valid_pos(l, o, k) && l[o][k] <= p < l[o][k] + pw(o);
            lemma_mod_step(r, o);
            lemma_pw_basics(o);
            vstd::arithmetic::div_mod::lemma_mod_decreases(r as nat, pw(o + 1) as nat);
            lemma_mod_pos_bound(r, pw(o));
            assert(l[o][k] == s + r % pw(o));
        }
        if page_range(s, pw(m)).contains(p) {
            assert(pw(0) == 1) by {
                vstd::arithmetic::power2::lemma2_to64();
            }
            lemma_small_mod(r as nat, pw(m + 1) as nat);
            let j = lemma_find_block(r, p - s, 0, m);
            lemma_mod_step(r, j);
            lemma_pw_basics(j);
            vstd::arithmetic::div_mod::lemma_mod_decreases(r as nat, pw(j + 1) as nat);
            lemma_mod_pos_bound(r, pw(j));
            assert(bit_set(r, j));
            assert(valid_pos(l, j, 0));
            assert(l[j][0] == s + r % pw(j));
        }
    }
    assert(free_pages(l) =~= page_range(s, pw(m)));
}

/// Reserving the first `g` pages of a fresh tree of order `m`, `g` at most its size, never
/// runs out of blocks, and leaves free exactly the pages from `g` on: the reserved blocks
/// follow each other from page 0 with no gap.
pub proof fn lemma_reserve_fresh(m: int, g: nat)
    requires
        0 <= m <= 31,
        g <= pw(m),
    ensures
        reserve_spec(fresh_lists(m), m, g) == Some(reserved_lists(m, g as int)),
        free_pages(reserved_lists(m, g as int)) == page_range(g as int, pw(m)),
{
    let l = reserved_lists(m, 0);
    assert forall|k: int| 0 <= k <= m implies #[trigger] l[k] == fresh_lists(m)[k] by {
        lemma_pw_basics(k);
        lemma_pw_split(k, m - k);
        lemma_fundamental_div_mod_converse(pw(m), pw(k), pw(m - k), 0);
        if k < m {
            lemma_pw_basics(m - k - 1);
            assert(!bit_set(pw(m), k));
        } else {
            assert(pw(0) == 1) by {
                vstd::arithmetic::power2::lemma2_to64();
            }
            assert(bit_set(pw(m), k));
            assert(l[k] =~= seq![0u32]);
        }
    }
    assert(l =~= fresh_lists(m));
    if g > 0 {
        lemma_pw_basics(log2_floor(g) as int + 1);
        lemma_small_mod(0, pw(log2_floor(g) as int + 1) as nat);
    }
    lemma_reserve_from(m, 0, g);
    lemma_reserved_pages(m, g as int);
}

} // verus!
