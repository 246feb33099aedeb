//! Integer helpers shared by the allocators and the boot planning code.
use vstd::prelude::*;
use vstd::arithmetic::power2::pow2;
use vstd::arithmetic::div_mod::lemma_div_denominator;
use crate::kernel::allocator::tree_math::{pw, lemma_pw_basics, lemma_pw_mono};

verus! {

/// `floor(log2(x))` for `x >= 1`.
pub open spec fn log2_floor(x: nat) -> nat
    decreases x,
{
    if x <= 1 {
        0
    } else {
        1 + log2_floor(x / 2)
    }
}

pub proof fn lemma_log2_floor(x: nat)
    requires
        x >= 1,
    ensures
        pw(log2_floor(x) as int) <= x < pw(log2_floor(x) as int + 1),
    decreases x,
{
    lemma_pw_basics(0);
    assert(pow2(0) == 1) by {
        vstd::arithmetic::power2::lemma2_to64();
    }
    if x > 1 {
        lemma_log2_floor(x / 2);
        let r = log2_floor(x / 2) as int;
        lemma_pw_basics(r);
        lemma_pw_basics(r + 1);
    }
}

/// `floor(log2(x))`, the exponent of the highest set bit of `x`.
pub fn ilog2(x: usize) -> (r: u32)
    requires
        x > 0,
    ensures
        r == log2_floor(x as nat),
        r < 64,
        pw(r as int) <= x < pw(r as int + 1),
{
    let mut r: u32 = 0;
    let mut y = x;
    proof {
        lemma_log2_floor(x as nat);
        lemma_pw_basics(0);
        assert(pow2(0) == 1) by {
            vstd::arithmetic::power2::lemma2_to64();
        }
    }
    while y > 1
        invariant
            1 <= y <= x,
            r < 64,
            y == x as int / pw(r as int),
            log2_floor(x as nat) == r + log2_floor(y as nat),
        decreases y,
    {
        proof {
            lemma_pw_basics(r as int);
            lemma_div_denominator(x as int, pw(r as int), 2);
            if r + 1 >= 64 {
                lemma_pw_mono(64, r as int + 1);
                assert(pw(64) == 0x1_0000_0000_0000_0000) by {
                    vstd::arithmetic::power2::lemma2_to64_rest();
                }
                assert(x as int / pw(r as int + 1) == 0) by {
                    vstd::arithmetic::div_mod::lemma_basic_div(x as int, pw(r as int + 1));
                }
            }
        }
        y = y / 2;
        r = r + 1;
    }
    proof {
        lemma_log2_floor(x as nat);
    }
    r
}

} // verus!
