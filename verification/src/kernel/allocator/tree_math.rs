//! Arithmetic of aligned power-of-two blocks, as used by the buddy tree.
use vstd::prelude::*;
use vstd::arithmetic::power2::{pow2, lemma_pow2_pos, lemma_pow2_unfold, lemma_pow2_adds, lemma_pow2_strictly_increases};
use vstd::arithmetic::div_mod::{lemma_fundamental_div_mod, lemma_div_denominator, lemma_div_multiples_vanish};
use vstd::bits::{low_bits_mask, lemma_u32_low_bits_mask_is_mod, lemma_u32_shl_is_mul, lemma_u32_shr_is_div, lemma_u32_pow2_no_overflow};

verus! {

/// `2^n` as an integer.
pub open spec fn pw(n: int) -> int {
    pow2(n as nat) as int
}

/// Block start `i` is a multiple of the block size `2^o`.
pub open spec fn aligned(i: int, o: int) -> bool {
    i % pw(o) == 0
}

/// The buddy of the block of order `o` starting at `i`: the other half of the block of
/// order `o + 1` that contains it.
pub open spec fn buddy_of(i: int, o: int) -> int {
    if (i / pw(o)) % 2 == 0 {
        i + pw(o)
    } else {
        i - pw(o)
    }
}

/// Start of the block of order `o + 1` that contains the block of order `o` starting at `i`.
pub open spec fn parent_of(i: int, o: int) -> int {
    if (i / pw(o)) % 2 == 0 {
        i
    } else {
        i - pw(o)
    }
}

/// Position, in the split bitset of a tree of order `m`, of the bit shared by the block
/// `(i, o)` and its buddy: layers are stored from the top of the tree down, the layer of
/// order `o` holding `2^(m - o - 1)` bits.
pub open spec fn bidx(m: int, i: int, o: int) -> int {
    pw(m - o - 1) - 1 + i / pw(o + 1)
}

pub proof fn lemma_pw_basics(o: int)
    requires
        0 <= o,
    ensures
        pw(o) >= 1,
        pw(o + 1) == 2 * pw(o),
{
    lemma_pow2_pos(o as nat);
    lemma_pow2_unfold((o + 1) as nat);
}

pub proof fn lemma_pw_split(a: int, b: int)
    requires
        0 <= a,
        0 <= b,
    ensures
        pw(a + b) == pw(a) * pw(b),
{
    lemma_pow2_adds(a as nat, b as nat);
}

pub proof fn lemma_pw_mono(a: int, b: int)
    requires
        0 <= a <= b,
    ensures
        pw(a) <= pw(b),
{
    if a < b {
        lemma_pow2_strictly_increases(a as nat, b as nat);
    }
}

/// Everything about a block `(i, o)` and its buddy inside a tree of order `m`.
pub proof fn lemma_pair(i: int, o: int, m: int)
    requires
        0 <= o < m,
        0 <= i < pw(m),
        aligned(i, o),
    ensures
        aligned(buddy_of(i, o), o),
        0 <= buddy_of(i, o) < pw(m),
        buddy_of(i, o) != i,
        buddy_of(buddy_of(i, o), o) == i,
        bidx(m, buddy_of(i, o), o) == bidx(m, i, o),
        parent_of(i, o) == (if i < buddy_of(i, o) { i } else { buddy_of(i, o) }),
        parent_of(buddy_of(i, o), o) == parent_of(i, o),
        aligned(parent_of(i, o), o + 1),
        parent_of(i, o) + pw(o + 1) <= pw(m),
        i == parent_of(i, o) || i == parent_of(i, o) + pw(o),
        buddy_of(i, o) == parent_of(i, o) || buddy_of(i, o) == parent_of(i, o) + pw(o),
        pw(o + 1) == 2 * pw(o),
        pw(m - o - 1) - 1 <= bidx(m, i, o) < pw(m - o) - 1,
        i / pw(o) % 2 == 0 <==> i < buddy_of(i, o),
{
    let p = pw(o);
    let q = pw(o + 1);
    let c = pw(m - o - 1);
    lemma_pw_basics(o);
    lemma_pw_basics(m - o - 1);
    lemma_pw_split(m - o - 1, o + 1);
    assert(m - o - 1 + (o + 1) == m);
    assert(pw(m) == c * q);
    assert(pw(m - o) == 2 * c) by {
        lemma_pw_basics(m - o - 1);
        assert(m - o - 1 + 1 == m - o);
    }
    let a = i / p;
    lemma_fundamental_div_mod(i, p);
    assert(i == p * a);
    assert(0 <= a);
    assert(a < 2 * c) by (nonlinear_arith)
        requires
            i == p * a,
            i < c * q,
            q == 2 * p,
            p >= 1,
    ;
    lemma_div_denominator(i, p, 2);
    assert(i / q == a / 2);
    let b = buddy_of(i, o);
    if a % 2 == 0 {
        assert(b == i + p);
        assert(b == p * (a + 1)) by (nonlinear_arith)
            requires
                b == i + p,
                i == p * a,
        ;
        assert(a + 1 < 2 * c);
        assert(b < pw(m)) by (nonlinear_arith)
            requires
                b == p * (a + 1),
                a + 1 < 2 * c,
                pw(m) == c * q,
                q == 2 * p,
                p >= 1,
        ;
        lemma_div_multiples_vanish(a + 1, p);
        assert(b / p == a + 1);
        assert(b % p == 0) by {
            lemma_fundamental_div_mod(b, p);
        }
        lemma_div_denominator(b, p, 2);
        assert(b / q == (a + 1) / 2);
        assert(parent_of(i, o) == i);
        assert(i == q * (a / 2)) by (nonlinear_arith)
            requires
                i == p * a,
                q == 2 * p,
                a % 2 == 0,
        ;
        assert(i % q == 0) by {
            lemma_fundamental_div_mod(i, q);
            assert(q * (a / 2) == i);
            lemma_div_multiples_vanish(a / 2, q);
        }
        assert(i + q <= pw(m)) by (nonlinear_arith)
            requires
                i == q * (a / 2),
                a / 2 < c,
                pw(m) == c * q,
                q >= 1,
        ;
    } else {
        assert(b == i - p);
        assert(b == p * (a - 1)) by (nonlinear_arith)
            requires
                b == i - p,
                i == p * a,
        ;
        assert(a >= 1);
        assert(b >= 0) by (nonlinear_arith)
            requires
                b == p * (a - 1),
                a >= 1,
                p >= 1,
        ;
        lemma_div_multiples_vanish(a - 1, p);
        assert(b / p == a - 1);
        assert(b % p == 0) by {
            lemma_fundamental_div_mod(b, p);
        }
        lemma_div_denominator(b, p, 2);
        assert(b / q == (a - 1) / 2);
        assert(parent_of(i, o) == b);
        assert(b == q * ((a - 1) / 2)) by (nonlinear_arith)
            requires
                b == p * (a - 1),
                q == 2 * p,
                a % 2 == 1,
        ;
        assert(b % q == 0) by {
            lemma_fundamental_div_mod(b, q);
            lemma_div_multiples_vanish((a - 1) / 2, q);
        }
        assert(b + q <= pw(m)) by (nonlinear_arith)
            requires
                b == q * ((a - 1) / 2),
                (a - 1) / 2 < c,
                pw(m) == c * q,
                q >= 1,
        ;
    }
}

/// Bits of the split bitset are shared by exactly one pair of buddies.
pub proof fn lemma_bidx_injective(m: int, i1: int, o1: int, i2: int, o2: int)
    requires
        0 <= o1 < m,
        0 <= o2 < m,
        0 <= i1 < pw(m),
        0 <= i2 < pw(m),
        aligned(i1, o1),
        aligned(i2, o2),
        bidx(m, i1, o1) == bidx(m, i2, o2),
    ensures
        o1 == o2,
        i2 == i1 || i2 == buddy_of(i1, o1),
{
    lemma_pair(i1, o1, m);
    lemma_pair(i2, o2, m);
    if o1 < o2 {
        lemma_pw_mono(m - o2, m - o1 - 1);
        assert(false);
    }
    if o2 < o1 {
        lemma_pw_mono(m - o1, m - o2 - 1);
        assert(false);
    }
    let p = pw(o1);
    let q = pw(o1 + 1);
    lemma_pw_basics(o1);
    let a1 = i1 / p;
    let a2 = i2 / p;
    lemma_fundamental_div_mod(i1, p);
    lemma_fundamental_div_mod(i2, p);
    lemma_div_denominator(i1, p, 2);
    lemma_div_denominator(i2, p, 2);
    assert(a1 / 2 == a2 / 2);
    assert(a2 == a1 || (a1 % 2 == 0 && a2 == a1 + 1) || (a1 % 2 == 1 && a2 == a1 - 1));
    if a2 == a1 + 1 {
        assert(i2 == i1 + p) by (nonlinear_arith)
            requires
                i1 == p * a1,
                i2 == p * a2,
                a2 == a1 + 1,
        ;
    } else if a2 == a1 - 1 {
        assert(i2 == i1 - p) by (nonlinear_arith)
            requires
                i1 == p * a1,
                i2 == p * a2,
                a2 == a1 - 1,
        ;
    } else {
        assert(i2 == i1) by (nonlinear_arith)
            requires
                i1 == p * a1,
                i2 == p * a2,
                a2 == a1,
        ;
    }
}

/// A block of order `o + 1` splits into two blocks of order `o`, each other's buddies.
pub proof fn lemma_split(j: int, o: int, m: int)
    requires
        0 <= o,
        o + 1 <= m,
        0 <= j,
        j + pw(o + 1) <= pw(m),
        aligned(j, o + 1),
    ensures
        aligned(j, o),
        aligned(j + pw(o), o),
        buddy_of(j, o) == j + pw(o),
        buddy_of(j + pw(o), o) == j,
        pw(o + 1) == 2 * pw(o),
        j < pw(m),
{
    let p = pw(o);
    let q = pw(o + 1);
    lemma_pw_basics(o);
    let b = j / q;
    lemma_fundamental_div_mod(j, q);
    assert(j == p * (2 * b)) by (nonlinear_arith)
        requires
            j == q * b,
            q == 2 * p,
    ;
    lemma_div_multiples_vanish(2 * b, p);
    assert(j / p == 2 * b);
    assert(j % p == 0) by {
        lemma_fundamental_div_mod(j, p);
    }
    assert(j + p == p * (2 * b + 1)) by (nonlinear_arith)
        requires
            j == p * (2 * b),
    ;
    lemma_div_multiples_vanish(2 * b + 1, p);
    assert((j + p) % p == 0) by {
        lemma_fundamental_div_mod(j + p, p);
    }
    assert(b >= 0) by (nonlinear_arith)
        requires
            j == q * b,
            q >= 1,
            j >= 0,
    ;
    lemma_pw_basics(o + 1);
    assert(j < pw(m));
}

/// The exec forms of the block arithmetic, on `u32`.
pub proof fn lemma_u32_block_ops(i: u32, o: u32)
    requires
        o < 31,
        aligned(i as int, o as int),
    ensures
        (1u32 << o) as int == pw(o as int),
        (i ^ (1u32 << o)) as int == buddy_of(i as int, o as int),
        (i & !(1u32 << o)) as int == parent_of(i as int, o as int),
{
    lemma_u32_pow2_no_overflow(o as nat);
    lemma_u32_shl_is_mul(1u32, o);
    let p = 1u32 << o;
    assert(p as int == pw(o as int));
    lemma_u32_low_bits_mask_is_mod(i, o as nat);
    assert(low_bits_mask(o as nat) as u32 == ((p - 1u32) as u32));
    assert((i & ((p - 1u32) as u32)) == i % p);
    assert(((i & p) == 0u32) == ((i / p) % 2 == 0)) by (bit_vector)
        requires
            p == 1u32 << o,
            o < 31,
    ;
    assert((i & ((p - 1u32) as u32)) == 0u32 ==> (i ^ p) == (if (i & p) == 0u32 { ((i + p) as u32) } else { ((i - p) as u32) }))
        by (bit_vector)
        requires
            p == 1u32 << o,
            o < 31,
    ;
    assert((i & !p) == (if (i & p) == 0u32 { i } else { ((i - p) as u32) })) by (bit_vector)
        requires
            p == 1u32 << o,
            o < 31,
    ;
    assert(i % p == 0);
    if (i & p) == 0u32 {
        assert((i ^ p) == ((i + p) as u32));
        assert(i as int + p as int <= u32::MAX) by {
            assert(((i + p) as u32) == i + p) by (bit_vector)
                requires
                    (i & p) == 0u32,
                    p == 1u32 << o,
                    o < 31,
            ;
        }
    } else {
        assert((i ^ p) == ((i - p) as u32));
        assert(i >= p) by (bit_vector)
            requires
                (i & p) != 0u32,
                p == 1u32 << o,
                o < 31,
        ;
    }
}

/// `(1 << n) - 1 + (i >> s)` is the bit index of the exec code.
pub proof fn lemma_u32_bit_index(i: u32, o: u32, m: u32)
    requires
        o < m,
        m <= 31,
        (i as int) < pw(m as int),
    ensures
        ((1u32 << ((m - o - 1) as u32)) - 1 + (i >> ((o + 1) as u32))) as int == bidx(m as int, i as int, o as int),
        (1u32 << ((m - o - 1) as u32)) >= 1,
{
    let s = (m - o - 1) as u32;
    lemma_u32_pow2_no_overflow(s as nat);
    lemma_u32_shl_is_mul(1u32, s);
    lemma_u32_shr_is_div(i, (o + 1) as u32);
    lemma_pw_basics(s as int);
    lemma_pw_basics(o as int);
    lemma_pw_split(s as int, (o + 1) as int);
    assert(s as int + (o + 1) as int == m as int);
    let q = pw(o as int + 1);
    let c = pw(s as int);
    assert((i as int) / q < c) by (nonlinear_arith)
        requires
            (i as int) < c * q,
            q >= 1,
            i >= 0,
    ;
    lemma_pw_mono(m as int, 31);
    lemma_u32_pow2_no_overflow(31);
}

/// A block start aligned to a large block size is aligned to every smaller one.
pub proof fn lemma_aligned_lower(j: int, hi: int, lo: int)
    requires
        0 <= lo <= hi,
        aligned(j, hi),
    ensures
        aligned(j, lo),
{
    lemma_pw_basics(lo);
    lemma_pw_basics(hi);
    lemma_pw_basics(hi - lo);
    lemma_pw_split(hi - lo, lo);
    assert(hi - lo + lo == hi);
    let q = j / pw(hi);
    lemma_fundamental_div_mod(j, pw(hi));
    assert(j == pw(lo) * (q * pw(hi - lo))) by (nonlinear_arith)
        requires
            j == pw(hi) * q,
            pw(hi) == pw(hi - lo) * pw(lo),
    ;
    lemma_div_multiples_vanish(q * pw(hi - lo), pw(lo));
    lemma_fundamental_div_mod(j, pw(lo));
}

} // verus!
