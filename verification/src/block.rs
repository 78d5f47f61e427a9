//! Blocks: an ordered container of transactions under a proof-of-work
//! header.
use vstd::prelude::*;

use crate::transactions::{Tx, spec_tx_size};

verus! {

/// Upper bound, in bytes, on the total size of a block.
pub const MAX_BLOCK_SIZE: u32 = 100000;

/// The subsidy paid by the coinbase transaction of every block, on top of
/// the fees of the transactions it includes.
pub const BLOCK_REWARD: u32 = 5000000;

/// The fixed size of the block header: 4 bytes of index, two 32-byte
/// digests, and three 8-byte words (time, target, nonce).
pub const BLOCK_HEADER_BYTES: u32 = 92;

/// The on-wire size of a coinbase transaction: one input and one output.
pub const COINBASE_TX_BYTES: u32 = 168;

/// The room block assembly reserves beyond the selected transactions.
pub const COINBASE_RESERVE_BYTES: u32 = 228;

/// The bytes block assembly sets aside up front for the block it is
/// filling: the header together with a full coinbase allowance.
pub const COINBASE_ALLOWANCE_BYTES: u32 = 260;

/// A block: its position in the chain, its proof-of-work hash and nonce, the
/// hash of its predecessor, its creation time, the difficulty target it met,
/// and its transactions (the coinbase first).
pub struct Block {
    pub index: u32,
    pub hash: [u8; 32],
    pub previous_hash: [u8; 32],
    pub time: u64,
    pub target: u64,
    pub nonce: u64,
    pub transactions: Vec<Tx>,
}

/// The big-endian interpretation of the first eight bytes of a hash; the
/// quantity that proof-of-work bounds by the target.
pub open spec fn spec_leading_u64(h: Seq<u8>) -> u64
    recommends
        h.len() >= 8,
{
    ((h[0] as u64) << 56) | ((h[1] as u64) << 48) | ((h[2] as u64) << 40) | ((h[3] as u64) << 32)
        | ((h[4] as u64) << 24) | ((h[5] as u64) << 16) | ((h[6] as u64) << 8) | (h[7] as u64)
}

/// The sum of the on-wire sizes of a sequence of transactions.
pub open spec fn sum_tx_sizes(s: Seq<Tx>) -> int
    decreases s.len(),
{
    if s.len() == 0 {
        0
    } else {
        sum_tx_sizes(s.drop_last()) + spec_tx_size(s.last().inputs@, s.last().outputs@)
    }
}

/// Partial sums of transaction sizes are non-negative and at most the whole
/// sum.
pub proof fn lemma_sum_tx_sizes_take(s: Seq<Tx>, i: int)
    requires
        0 <= i <= s.len(),
    ensures
        0 <= sum_tx_sizes(s.take(i)) <= sum_tx_sizes(s),
    decreases s.len(),
{
    if s.len() > 0 {
        if i == s.len() {
            assert(s.take(i) =~= s);
            lemma_sum_tx_sizes_take(s.drop_last(), i - 1);
        } else {
            assert(s.drop_last().take(i) =~= s.take(i));
            lemma_sum_tx_sizes_take(s.drop_last(), i);
        }
    } else {
        assert(s.take(i) =~= s);
    }
}

/// Each transaction's size is at most the sum of all of them.
pub proof fn lemma_tx_size_le_sum(s: Seq<Tx>, i: int)
    requires
        0 <= i < s.len(),
    ensures
        32 <= spec_tx_size(s[i].inputs@, s[i].outputs@) <= sum_tx_sizes(s),
    decreases s.len(),
{
    if i == s.len() - 1 {
        lemma_sum_tx_sizes_take(s, i);
        assert(s.drop_last() =~= s.take(i));
    } else {
        lemma_tx_size_le_sum(s.drop_last(), i);
    }
}

/// The total on-wire size of a block: the header plus its transactions.
pub open spec fn spec_block_size(b: &Block) -> int {
    BLOCK_HEADER_BYTES + sum_tx_sizes(b.transactions@)
}

impl Block {
    /// The total on-wire size of the block.
    pub fn get_size(&self) -> (r: u32)
        requires
            spec_block_size(self) <= u32::MAX,
        ensures
            r == spec_block_size(self),
    {
        let mut tx_bytes: u64 = 0;
        let mut i: usize = 0;
        while i < self.transactions.len()
            invariant
                i <= self.transactions@.len(),
                tx_bytes == sum_tx_sizes(self.transactions@.take(i as int)),
                spec_block_size(self) <= u32::MAX,
            decreases self.transactions@.len() - i,
        {
            proof {
                lemma_tx_size_le_sum(self.transactions@, i as int);
                let t = self.transactions@.take(i + 1);
                assert(t.drop_last() =~= self.transactions@.take(i as int));
                assert(t.last() == self.transactions@[i as int]);
                lemma_sum_tx_sizes_take(self.transactions@, i + 1);
            }
            tx_bytes = tx_bytes + (self.transactions[i].get_size() as u64);
            i = i + 1;
        }
        proof {
            assert(self.transactions@.take(self.transactions@.len() as int)
                =~= self.transactions@);
        }
        (BLOCK_HEADER_BYTES as u64 + tx_bytes) as u32
    }
}

} // verus!
