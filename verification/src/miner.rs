//! The miner: proof-of-work search over random nonces, coinbase
//! construction, and candidate block assembly.
use vstd::prelude::*;

use crate::block::{
    spec_block_size, spec_leading_u64, sum_tx_sizes, Block, BLOCK_HEADER_BYTES, BLOCK_REWARD,
    COINBASE_ALLOWANCE_BYTES, COINBASE_TX_BYTES, MAX_BLOCK_SIZE,
};
use crate::blockchain::Blockchain;
use crate::bytes::{push_bytes, push_u32_be, push_u64_be, u32_be, u64_be};
use crate::crypto::{blake3_digest, blake3_of};
use crate::mempool::{
    drain_kept, drain_sel, sum_entry_fees, sum_entry_sizes, Mempool, PoolEntry,
};
use crate::transactions::{spec_tx_size, txid_of, Input, Output, Tx};

verus! {

/// The byte string whose digest is a block's proof-of-work hash: the
/// big-endian index, the previous block's hash, and the big-endian nonce.
pub open spec fn block_hash_preimage(index: u32, previous_hash: Seq<u8>, nonce: u64) -> Seq<u8> {
    u32_be(index) + previous_hash + u64_be(nonce)
}

/// Relies on `rand::random`: a fresh 64-bit value; nothing is promised of
/// it.
#[verifier::external_body]
fn random_u64() -> u64 {
    rand::random()
}

/// Relies on `rand::random`: 64 fresh bytes; nothing is promised of them.
#[verifier::external_body]
fn random_signature() -> [u8; 64] {
    let mut signature = [0u8; 64];
    signature.iter_mut().for_each(|byte| *byte = rand::random());
    signature
}

/// Relies on `std::time::SystemTime::now`: the seconds elapsed since the
/// Unix epoch, and 0 for a clock that stands before it; nothing is promised
/// of the value.
#[verifier::external_body]
fn now_unix_seconds() -> u64 {
    std::time::SystemTime::now()
        .duration_since(std::time::UNIX_EPOCH)
        .map(|elapsed| elapsed.as_secs())
        .unwrap_or(0)
}

/// A miner: the address its coinbase outputs pay, and how many worker
/// threads a driver may devote to its search.
pub struct Miner {
    pub address: [u8; 32],
    pub threads: u8,
}

impl Miner {
    /// The big-endian interpretation of the first eight bytes of a hash.
    fn h2_u64(hash: [u8; 32]) -> (r: u64)
        ensures
            r == spec_leading_u64(hash@),
    {
        ((hash[0] as u64) << 56) | ((hash[1] as u64) << 48) | ((hash[2] as u64) << 40) | ((
        hash[3] as u64) << 32) | ((hash[4] as u64) << 24) | ((hash[5] as u64) << 16) | ((
        hash[6] as u64) << 8) | (hash[7] as u64)
    }

    /// One proof-of-work attempt: a random nonce and the hash of the
    /// preimage it makes with the index and the previous hash.
    fn gen_hash_nonce(index: u32, previous_hash: [u8; 32]) -> (r: ([u8; 32], u64))
        ensures
            r.0@ == blake3_of(block_hash_preimage(index, previous_hash@, r.1)),
    {
        let nonce: u64 = random_u64();
        let mut preimage: Vec<u8> = Vec::new();
        push_u32_be(&mut preimage, index);
        push_bytes(&mut preimage, &previous_hash);
        push_u64_be(&mut preimage, nonce);
        (blake3_digest(&preimage), nonce)
    }

    /// Searches random nonces until the hash's leading 64 bits fall under
    /// the target, giving up only after exhausting a 64-bit attempt budget:
    /// either a qualifying pair is produced or none is. At the largest
    /// target every hash qualifies, so the very first attempt succeeds.
    fn gen_valid_hash(index: u32, previous_hash: [u8; 32], target: u64) -> (r: Option<
        ([u8; 32], u64),
    >)
        ensures
            r matches Some(p) ==> p.0@ == blake3_of(
                block_hash_preimage(index, previous_hash@, p.1),
            ) && spec_leading_u64(p.0@) <= target,
            target == u64::MAX ==> r is Some,
    {
        let mut attempts: u64 = u64::MAX;
        loop
            decreases attempts,
        {
            let next = Miner::gen_hash_nonce(index, previous_hash);
            if Miner::h2_u64(next.0) <= target {
                return Some(next);
            }
            if attempts == 0 {
                return None;
            }
            attempts = attempts - 1;
        }
    }

    /// The coinbase transaction: a single synthetic input whose referenced
    /// identifier is all zero and whose signature is random (so coinbase
    /// identifiers differ between blocks), and a single output paying the
    /// block subsidy plus the given fees to the miner's address.
    pub fn generate_coinbase(&self, fees: u64) -> (r: Tx)
        requires
            BLOCK_REWARD + fees <= u64::MAX,
        ensures
            r.inputs@.len() == 1,
            r.outputs@.len() == 1,
            forall|k: int| 0 <= k < 32 ==> r.inputs@[0].txid@[k] == 0,
            r.outputs@[0].amount == BLOCK_REWARD + fees,
            r.outputs@[0].address@ == self.address@,
            r.txid@ == txid_of(r.inputs@, r.outputs@),
            spec_tx_size(r.inputs@, r.outputs@) == COINBASE_TX_BYTES,
    {
        let mut inputs: Vec<Input> = Vec::new();
        let mut outputs: Vec<Output> = Vec::new();
        let signature = random_signature();
        let coinbase_input = Input { txid: [0; 32], signature };
        let coinbase_output = Output { amount: (BLOCK_REWARD as u64) + fees, address: self.address };
        inputs.push(coinbase_input);
        outputs.push(coinbase_output);
        let txid = Tx::generate_txid(&inputs, &outputs);
        Tx { txid, inputs, outputs }
    }

    /// Assembles a candidate block: a proof-of-work hash and nonce for the
    /// given position, the best-paying transactions the mempool can spare,
    /// and a coinbase paying the subsidy plus their fees, all within the
    /// block size bound. When the nonce search exhausts its budget, no
    /// block is produced and the pool is left untouched; at the largest
    /// target the search cannot fail, so a block is always produced.
    pub fn generate_candidate_block(
        &self,
        index: u32,
        previous_hash: [u8; 32],
        target: u64,
        pool: &mut Mempool,
        chain: &Blockchain,
    ) -> (r: Option<Block>)
        requires
            old(pool).well_formed(),
            BLOCK_REWARD + sum_entry_fees(old(pool).pool@) <= u64::MAX,
        ensures
            final(pool).well_formed(),
            target == u64::MAX ==> r is Some,
            r is None ==> final(pool).pool@ == old(pool).pool@,
            r matches Some(b) ==> final(pool).pool@ == drain_kept(
                old(pool).pool@,
                BLOCK_HEADER_BYTES + COINBASE_ALLOWANCE_BYTES,
            ) && candidate_block_ok(self, index, previous_hash, target, old(pool).pool@, b),
    {
        let found = match Miner::gen_valid_hash(index, previous_hash, target) {
            Some(found) => found,
            None => {
                return None;
            },
        };
        let hash = found.0;
        let nonce = found.1;
        let drained = pool.calc_valid_tx_pool_and_fees(chain);
        let mut transactions = drained.0;
        let fees = drained.1;
        let coinbase = self.generate_coinbase(fees);
        transactions.insert(0, coinbase);
        let time = now_unix_seconds();
        let candidate = Block { index, hash, previous_hash, time, target, nonce, transactions };
        proof {
            let sel = drain_sel(old(pool).pool@, BLOCK_HEADER_BYTES + COINBASE_ALLOWANCE_BYTES);
            let body = candidate.transactions@.drop_first();
            assert(body.len() == sel.len());
            assert(forall|k: int| 0 <= k < body.len() ==> (#[trigger] body[k]) == sel[k].tx);
            lemma_tx_sizes_match(body, sel);
            lemma_sum_tx_sizes_unfold(candidate.transactions@);
            assert(candidate.transactions@.drop_first() =~= body);
        }
        Some(candidate)
    }
}

/// What a produced candidate block satisfies: it sits at the requested
/// position with the requested target, its hash is the digest of the
/// proof-of-work preimage and meets the target, its size respects the block
/// bound, and its transactions are the coinbase followed by the drained
/// selection, the coinbase paying subsidy plus fees to the miner.
pub open spec fn candidate_block_ok(
    miner: &Miner,
    index: u32,
    previous_hash: [u8; 32],
    target: u64,
    pool0: Seq<PoolEntry>,
    b: Block,
) -> bool {
    let sel = drain_sel(pool0, BLOCK_HEADER_BYTES + COINBASE_ALLOWANCE_BYTES);
    &&& b.index == index
    &&& b.previous_hash == previous_hash
    &&& b.target == target
    &&& b.hash@ == blake3_of(block_hash_preimage(index, previous_hash@, b.nonce))
    &&& spec_leading_u64(b.hash@) <= target
    &&& spec_block_size(&b) <= MAX_BLOCK_SIZE
    &&& b.transactions@.len() == 1 + sel.len()
    &&& forall|k: int|
        1 <= k < b.transactions@.len() ==> (#[trigger] b.transactions@[k]) == sel[k - 1].tx
    &&& b.transactions@[0].inputs@.len() == 1
    &&& b.transactions@[0].outputs@.len() == 1
    &&& b.transactions@[0].outputs@[0].amount == BLOCK_REWARD + sum_entry_fees(sel)
    &&& b.transactions@[0].outputs@[0].address@ == miner.address@
    &&& b.transactions@[0].txid@ == txid_of(
        b.transactions@[0].inputs@,
        b.transactions@[0].outputs@,
    )
}

/// Transactions drawn one-for-one from pool entries have the same total
/// size.
proof fn lemma_tx_sizes_match(txs: Seq<Tx>, entries: Seq<PoolEntry>)
    requires
        txs.len() == entries.len(),
        forall|k: int| 0 <= k < txs.len() ==> (#[trigger] txs[k]) == entries[k].tx,
    ensures
        sum_tx_sizes(txs) == sum_entry_sizes(entries),
    decreases txs.len(),
{
    if txs.len() > 0 {
        assert(forall|k: int|
            0 <= k < txs.drop_last().len() ==> (#[trigger] txs.drop_last()[k])
                == entries.drop_last()[k].tx);
        lemma_tx_sizes_match(txs.drop_last(), entries.drop_last());
    }
}

/// The size total of a non-empty transaction list splits off its head.
proof fn lemma_sum_tx_sizes_unfold(txs: Seq<Tx>)
    requires
        txs.len() >= 1,
    ensures
        sum_tx_sizes(txs) == spec_tx_size(txs[0].inputs@, txs[0].outputs@) + sum_tx_sizes(
            txs.drop_first(),
        ),
    decreases txs.len(),
{
    if txs.len() == 1 {
        assert(txs.drop_last() =~= Seq::<Tx>::empty());
        assert(txs.drop_first() =~= Seq::<Tx>::empty());
        assert(sum_tx_sizes(Seq::<Tx>::empty()) == 0);
    } else {
        lemma_sum_tx_sizes_unfold(txs.drop_last());
        assert(txs.drop_last().drop_first() =~= txs.drop_first().drop_last());
        assert(txs.drop_last()[0] == txs[0]);
        assert(txs.drop_first().last() == txs.last());
    }
}

} // verus!
