//! A packed bitset stored in 32-bit blocks.
use vstd::prelude::*;

verus! {

/// Value of bit `i` of a bitset stored as 32-bit blocks (bit `i` lives in block `i / 32`,
/// at position `i % 32` counted from the least significant bit).
pub open spec fn bit_at(blocks: Seq<u32>, i: int) -> bool {
    (blocks[i / 32] >> ((i % 32) as u32)) & 1u32 == 1u32
}

/// Number of 32-bit blocks needed to hold `bits` bits: `bits / 32` rounded up.
pub open spec fn blocks_for(bits: nat) -> nat {
    ((bits + 31) / 32) as nat
}

proof fn lemma_toggle_bits(x: u32, b: u32, c: u32)
    requires
        b < 32,
        c < 32,
    ensures
        b == c ==> (((x ^ (1u32 << b)) >> c) & 1u32 == 1u32) == !((x >> c) & 1u32 == 1u32),
        b != c ==> (((x ^ (1u32 << b)) >> c) & 1u32 == 1u32) == ((x >> c) & 1u32 == 1u32),
        (x & (1u32 << b) != 0u32) == ((x >> b) & 1u32 == 1u32),
{
    assert(b == c ==> (((x ^ (1u32 << b)) >> c) & 1u32 == 1u32) == !((x >> c) & 1u32 == 1u32))
        by (bit_vector)
        requires
            b < 32,
            c < 32,
    ;
    assert(b != c ==> (((x ^ (1u32 << b)) >> c) & 1u32 == 1u32) == ((x >> c) & 1u32 == 1u32))
        by (bit_vector)
        requires
            b < 32,
            c < 32,
    ;
    assert((x & (1u32 << b) != 0u32) == ((x >> b) & 1u32 == 1u32)) by (bit_vector)
        requires
            b < 32,
    ;
}

/// A bitset whose bits are packed into 32-bit blocks.
pub struct AllocBitset {
    blocks: Vec<u32>,
}

impl View for AllocBitset {
    type V = Seq<u32>;

    closed spec fn view(&self) -> Seq<u32> {
        self.blocks@
    }
}

impl AllocBitset {
    /// Number of 32-bit blocks needed to hold `bits` bits.
    pub fn size_for(bits: usize) -> (r: usize)
        ensures
            r == blocks_for(bits as nat),
    {
        bits / 32 + if bits % 32 != 0 {
            1
        } else {
            0
        }
    }

    /// A bitset of `blocks` blocks, every bit cleared.
    pub fn zeroed(blocks: usize) -> (r: Self)
        ensures
            r@.len() == blocks,
            forall|i: int| 0 <= i < 32 * blocks ==> !bit_at(#[trigger] r@, i),
    {
        let mut v: Vec<u32> = Vec::new();
        let mut k: usize = 0;
        while k < blocks
            invariant
                k <= blocks,
                v@.len() == k,
                forall|j: int| 0 <= j < k ==> v@[j] == 0u32,
            decreases blocks - k,
        {
            v.push(0u32);
            k = k + 1;
        }
        proof {
            assert forall|i: int| 0 <= i < 32 * blocks implies !bit_at(v@, i) by {
                let s = (i % 32) as u32;
                assert((0u32 >> s) & 1u32 == 0u32) by (bit_vector);
            }
        }
        AllocBitset { blocks: v }
    }

    /// Flips bit `bit` and returns its value from before the flip.
    pub fn get_and_toggle(&mut self, bit: u32) -> (old_bit: bool)
        requires
            (bit as int) < 32 * old(self)@.len(),
        ensures
            final(self)@.len() == old(self)@.len(),
            old_bit == bit_at(old(self)@, bit as int),
            bit_at(final(self)@, bit as int) == !old_bit,
            forall|j: int|
                0 <= j < 32 * old(self)@.len() && j != bit ==> bit_at(#[trigger] final(self)@, j)
                    == bit_at(old(self)@, j),
    {
        let block_index = bit / u32::BITS;
        let shift = bit & (u32::BITS - 1);
        assert(shift == bit % 32) by (bit_vector)
            requires
                shift == bit & 31u32,
        ;
        let block_bit: u32 = 1u32 << shift;

        let old_block = self.blocks[block_index as usize];
        self.blocks.set(block_index as usize, old_block ^ block_bit);
        proof {
            lemma_toggle_bits(old_block, shift, shift);
            assert forall|j: int|
                0 <= j < 32 * old(self)@.len() && j != bit implies bit_at(self@, j) == bit_at(
                old(self)@,
                j,
            ) by {
                if j / 32 == block_index as int {
                    lemma_toggle_bits(old_block, shift, (j % 32) as u32);
                }
            }
        }
        old_block & block_bit != 0
    }
}

} // verus!
