//! The mempool: a size-bounded pool of transactions ordered by fee per byte,
//! with eviction of the cheapest entries when a better-paying transaction
//! arrives while the pool is full.
use vstd::prelude::*;

use crate::block::{Block, BLOCK_HEADER_BYTES, COINBASE_ALLOWANCE_BYTES, COINBASE_RESERVE_BYTES,
    MAX_BLOCK_SIZE};
use crate::blockchain::Blockchain;
use crate::bytes::{digest_eq, digest_lt, lex_lt, lemma_lex_trichotomy, lemma_lex_irreflexive};
use crate::transactions::{
    spec_fee, spec_fee_per_byte, spec_tx_size, sum_input_amounts, sum_output_amounts, Tx, TxError,
};

verus! {

/// Upper bound, in bytes, on the total size of the transactions the pool
/// holds.
pub const MAX_MEMPOOL_SIZE: u32 = 150000;

/// One pooled transaction together with its fee figures, both fixed at
/// admission time so that pool operations never consult the chain again.
pub struct PoolEntry {
    pub fee_per_byte: u64,
    pub fee: u64,
    pub tx: Tx,
}

/// The pool's strict order: ascending fee per byte, with the transaction
/// identifier as a lexicographic tie-breaker.
pub open spec fn entry_lt(a: &PoolEntry, b: &PoolEntry) -> bool {
    ||| a.fee_per_byte < b.fee_per_byte
    ||| (a.fee_per_byte == b.fee_per_byte && lex_lt(a.tx.txid@, b.tx.txid@))
}

/// Whether the entries stand in strictly ascending pool order.
pub open spec fn pool_sorted(s: Seq<PoolEntry>) -> bool {
    forall|i: int, j: int| 0 <= i < j < s.len() ==> entry_lt(&s[i], &s[j])
}

/// The total on-wire size of the pooled transactions.
pub open spec fn sum_entry_sizes(s: Seq<PoolEntry>) -> int
    decreases s.len(),
{
    if s.len() == 0 {
        0
    } else {
        sum_entry_sizes(s.drop_last()) + spec_tx_size(s.last().tx.inputs@, s.last().tx.outputs@)
    }
}

/// The total of the cached fees of the pooled transactions.
pub open spec fn sum_entry_fees(s: Seq<PoolEntry>) -> int
    decreases s.len(),
{
    if s.len() == 0 {
        0
    } else {
        sum_entry_fees(s.drop_last()) + s.last().fee
    }
}

/// Sizes and fees both distribute over concatenation.
pub proof fn lemma_entry_sums_concat(a: Seq<PoolEntry>, b: Seq<PoolEntry>)
    ensures
        sum_entry_sizes(a + b) == sum_entry_sizes(a) + sum_entry_sizes(b),
        sum_entry_fees(a + b) == sum_entry_fees(a) + sum_entry_fees(b),
    decreases b.len(),
{
    if b.len() == 0 {
        assert(a + b =~= a);
    } else {
        assert((a + b).drop_last() =~= a + b.drop_last());
        lemma_entry_sums_concat(a, b.drop_last());
    }
}

/// Partial sums of entry sizes and fees are non-negative and at most the
/// whole sums.
pub proof fn lemma_entry_sums_take(s: Seq<PoolEntry>, i: int)
    requires
        0 <= i <= s.len(),
    ensures
        0 <= sum_entry_sizes(s.take(i)) <= sum_entry_sizes(s),
        0 <= sum_entry_fees(s.take(i)) <= sum_entry_fees(s),
    decreases s.len(),
{
    if s.len() > 0 {
        if i == s.len() {
            assert(s.take(i) =~= s);
            lemma_entry_sums_take(s.drop_last(), i - 1);
        } else {
            assert(s.drop_last().take(i) =~= s.take(i));
            lemma_entry_sums_take(s.drop_last(), i);
        }
    } else {
        assert(s.take(i) =~= s);
    }
}

/// Each pooled transaction's size is at least 32 bytes and at most the
/// pool's total.
pub proof fn lemma_entry_size_le_sum(s: Seq<PoolEntry>, i: int)
    requires
        0 <= i < s.len(),
    ensures
        32 <= spec_tx_size(s[i].tx.inputs@, s[i].tx.outputs@) <= sum_entry_sizes(s),
        0 <= s[i].fee <= sum_entry_fees(s),
    decreases s.len(),
{
    if i == s.len() - 1 {
        lemma_entry_sums_take(s, i);
        assert(s.drop_last() =~= s.take(i));
    } else {
        lemma_entry_size_le_sum(s.drop_last(), i);
    }
}

/// Whether an input references an identifier that appears in the supplied
/// unspent-output list.
pub open spec fn input_covered(input: crate::transactions::Input, utxos: Seq<(u64, [u8; 32])>) -> bool {
    exists|j: int| 0 <= j < utxos.len() && input.txid@ == ((#[trigger] utxos[j]).1)@
}

/// Whether every input of `tx` references an identifier that appears in the
/// supplied unspent-output list.
pub open spec fn valid_for(tx: &Tx, utxos: Seq<(u64, [u8; 32])>) -> bool {
    forall|i: int| 0 <= i < tx.inputs@.len() ==> input_covered(#[trigger] tx.inputs@[i], utxos)
}

/// Whether the pool already holds an entry with this ordering key.
pub open spec fn has_entry(s: Seq<PoolEntry>, fee_per_byte: u64, txid: Seq<u8>) -> bool {
    exists|i: int|
        0 <= i < s.len() && (#[trigger] s[i]).fee_per_byte == fee_per_byte && s[i].tx.txid@ == txid
}

/// The entry admission would add for `tx` against chain `c`: the
/// transaction with its fee figures fixed.
pub open spec fn entry_for(c: Seq<Block>, tx: Tx) -> PoolEntry {
    PoolEntry {
        fee_per_byte: spec_fee_per_byte(c, &tx) as u64,
        fee: spec_fee(c, &tx) as u64,
        tx: tx,
    }
}

/// Whether `j` is the least count of cheapest entries whose sizes add up to
/// at least `need` bytes of makeable room.
pub open spec fn is_cut(s: Seq<PoolEntry>, need: int, j: int) -> bool {
    &&& 0 <= j <= s.len()
    &&& sum_entry_sizes(s.take(j)) >= need
    &&& forall|k: int| 0 <= k < j ==> sum_entry_sizes(s.take(k)) < need
}

/// Whether a full pool admits `tx` by eviction: enough room can be made
/// from the cheapest entries, a next entry remains to compare against, and
/// the newcomer pays a strictly higher fee per byte than that entry.
pub open spec fn evicts(s: Seq<PoolEntry>, c: Seq<Block>, tx: &Tx) -> bool {
    exists|j: int|
        #![trigger s[j]]
        is_cut(s, spec_tx_size(tx.inputs@, tx.outputs@), j) && j < s.len()
            && spec_fee_per_byte(c, tx) > s[j].fee_per_byte
}

/// The pool after admission inserted `e`, or left things alone because an
/// entry with the same key was already present.
pub open spec fn inserted(s: Seq<PoolEntry>, e: PoolEntry, r: Seq<PoolEntry>) -> bool {
    if has_entry(s, e.fee_per_byte, e.tx.txid@) {
        r == s
    } else {
        exists|idx: int| 0 <= idx <= s.len() && r == s.insert(idx, e)
    }
}

/// What validation-and-insertion does to a pool `s`, leaving `rpool` and
/// answering `r`: a valid transaction is inserted at its ordered position
/// (or deduplicated), an invalid one changes nothing and is reported.
pub open spec fn validated_into(
    s: Seq<PoolEntry>,
    c: Seq<Block>,
    tx: Tx,
    utxos: Seq<(u64, [u8; 32])>,
    rpool: Seq<PoolEntry>,
    r: Result<(), TxError>,
) -> bool {
    &&& valid_for(&tx, utxos) ==> r is Ok && inserted(s, entry_for(c, tx), rpool)
    &&& !valid_for(&tx, utxos) ==> r == Err::<(), TxError>(TxError::InvalidInput) && rpool == s
}

/// What admission by eviction does: for the unique cut `j`, the entries up
/// to and including `j` leave the pool, and the newcomer is validated into
/// what remains.
pub open spec fn evicted_into(
    s: Seq<PoolEntry>,
    c: Seq<Block>,
    tx: Tx,
    utxos: Seq<(u64, [u8; 32])>,
    rpool: Seq<PoolEntry>,
    r: Result<(), TxError>,
) -> bool {
    exists|j: int|
        #![trigger s[j]]
        {
            &&& is_cut(s, spec_tx_size(tx.inputs@, tx.outputs@), j)
            &&& j < s.len()
            &&& spec_fee_per_byte(c, &tx) > s[j].fee_per_byte
            &&& validated_into(s.skip(j + 1), c, tx, utxos, rpool, r)
        }
}

/// The full admission contract: a pool with room validates and inserts; a
/// full pool either admits by eviction or turns the newcomer away without
/// error and without change.
pub open spec fn add_tx_post(
    s: Seq<PoolEntry>,
    c: Seq<Block>,
    tx: Tx,
    utxos: Seq<(u64, [u8; 32])>,
    rpool: Seq<PoolEntry>,
    r: Result<(), TxError>,
) -> bool {
    if sum_entry_sizes(s) + spec_tx_size(tx.inputs@, tx.outputs@) < MAX_MEMPOOL_SIZE {
        validated_into(s, c, tx, utxos, rpool, r)
    } else if evicts(s, c, &tx) {
        evicted_into(s, c, tx, utxos, rpool, r)
    } else {
        rpool == s && r is Ok
    }
}

/// The conservation and machine bounds under which admission computes: the
/// inputs cover the outputs within 64-bit accounting, the scaled fee key
/// fits a 64-bit word, and the pool's fee total has room for the fee.
pub open spec fn admission_bounds(s: Seq<PoolEntry>, c: Seq<Block>, tx: &Tx) -> bool {
    &&& tx.covers_outputs(c)
    &&& spec_fee_per_byte(c, tx) <= u64::MAX
    &&& sum_entry_fees(s) + spec_fee(c, tx) <= u64::MAX
}

/// A partial sum of input amounts bounds the whole sum from below.
proof fn lemma_sum_input_amounts_le(c: Seq<Block>, inputs: Seq<crate::transactions::Input>, i: int)
    requires
        0 <= i <= inputs.len(),
    ensures
        sum_input_amounts(c, inputs.take(i)) <= sum_input_amounts(c, inputs),
{
    crate::transactions::lemma_sum_input_amounts_take(c, inputs, i)
}

/// A partial sum of output amounts bounds the whole sum from below.
proof fn lemma_sum_output_amounts_le(outputs: Seq<crate::transactions::Output>, i: int)
    requires
        0 <= i <= outputs.len(),
    ensures
        sum_output_amounts(outputs.take(i)) <= sum_output_amounts(outputs),
{
    crate::transactions::lemma_sum_output_amounts_take(outputs, i)
}

/// A size-bounded pool of transactions in ascending fee-per-byte order.
pub struct Mempool {
    pub pool: Vec<PoolEntry>,
}

impl Mempool {
    /// What every reachable pool satisfies: strictly sorted entries, a total
    /// size strictly under the pool bound, and cached fees whose total fits
    /// the machine's 64-bit accounting.
    pub open spec fn well_formed(&self) -> bool {
        &&& pool_sorted(self.pool@)
        &&& sum_entry_sizes(self.pool@) < MAX_MEMPOOL_SIZE
        &&& sum_entry_fees(self.pool@) <= u64::MAX
    }

    /// An empty pool.
    pub fn new() -> (r: Mempool)
        ensures
            r.well_formed(),
            r.pool@.len() == 0,
    {
        Mempool { pool: Vec::new() }
    }

    /// The total on-wire size of the pooled transactions.
    pub fn get_size(&self) -> (r: u32)
        requires
            self.well_formed(),
        ensures
            r == sum_entry_sizes(self.pool@),
    {
        let mut sum: u32 = 0;
        let mut i: usize = 0;
        while i < self.pool.len()
            invariant
                i <= self.pool@.len(),
                sum == sum_entry_sizes(self.pool@.take(i as int)),
                self.well_formed(),
            decreases self.pool@.len() - i,
        {
            proof {
                lemma_entry_size_le_sum(self.pool@, i as int);
                let t = self.pool@.take(i + 1);
                assert(t.drop_last() =~= self.pool@.take(i as int));
                assert(t.last() == self.pool@[i as int]);
                lemma_entry_sums_take(self.pool@, i + 1);
            }
            sum = sum + self.pool[i].tx.get_size();
            i = i + 1;
        }
        proof {
            assert(self.pool@.take(self.pool@.len() as int) =~= self.pool@);
        }
        sum
    }

    /// Places `e` at its ordered position, or leaves the pool unchanged when
    /// an entry with the same key is already present.
    fn insert_entry(&mut self, e: PoolEntry)
        requires
            pool_sorted(old(self).pool@),
        ensures
            pool_sorted(final(self).pool@),
            has_entry(old(self).pool@, e.fee_per_byte, e.tx.txid@) ==> final(self).pool@ == old(
                self,
            ).pool@,
            !has_entry(old(self).pool@, e.fee_per_byte, e.tx.txid@) ==> exists|idx: int|
                0 <= idx <= old(self).pool@.len() && final(self).pool@ == old(
                    self,
                ).pool@.insert(idx, e),
            sum_entry_sizes(final(self).pool@) <= sum_entry_sizes(old(self).pool@) + spec_tx_size(
                e.tx.inputs@,
                e.tx.outputs@,
            ),
            sum_entry_sizes(final(self).pool@) >= sum_entry_sizes(old(self).pool@),
            sum_entry_fees(final(self).pool@) <= sum_entry_fees(old(self).pool@) + e.fee,
    {
        let ghost s = self.pool@;
        let mut idx: usize = 0;
        while idx < self.pool.len()
            invariant
                idx <= self.pool@.len(),
                self.pool@ == s,
                s == old(self).pool@,
                pool_sorted(s),
                forall|k: int| 0 <= k < idx ==> entry_lt(&s[k], &e),
            decreases self.pool@.len() - idx,
        {
            let cur = &self.pool[idx];
            let lt = if cur.fee_per_byte < e.fee_per_byte {
                true
            } else if cur.fee_per_byte == e.fee_per_byte {
                digest_lt(&cur.tx.txid, &e.tx.txid)
            } else {
                false
            };
            if !lt {
                // `cur` is the first entry not strictly below `e`: either the
                // same key, or the position where `e` belongs.
                if cur.fee_per_byte == e.fee_per_byte && digest_eq(&cur.tx.txid, &e.tx.txid) {
                    proof {
                        assert(s[idx as int].fee_per_byte == e.fee_per_byte
                            && s[idx as int].tx.txid@ == e.tx.txid@);
                        assert(has_entry(s, e.fee_per_byte, e.tx.txid@));
                    }
                    return ;
                }
                proof {
                    lemma_lex_trichotomy(s[idx as int].tx.txid@, e.tx.txid@);
                    assert(entry_lt(&e, &s[idx as int]));
                    assert forall|k: int| idx <= k < s.len() implies entry_lt(&e, &s[k]) by {
                        if k > idx {
                            assert(entry_lt(&s[idx as int], &s[k]));
                            lemma_lex_transitive_entries(&e, &s[idx as int], &s[k]);
                        }
                    }
                    lemma_insert_sums(s, idx as int, e);
                    assert forall|i: int| 0 <= i < s.len() implies !(s[i].fee_per_byte
                        == e.fee_per_byte && s[i].tx.txid@ == e.tx.txid@) by {
                        if i < idx {
                            lemma_lex_irreflexive(e.tx.txid@);
                        } else {
                            lemma_lex_irreflexive(e.tx.txid@);
                        }
                    }
                }
                self.pool.insert(idx, e);
                return ;
            }
            idx = idx + 1;
        }
        proof {
            lemma_insert_sums(s, s.len() as int, e);
            assert forall|i: int| 0 <= i < s.len() implies !(s[i].fee_per_byte == e.fee_per_byte
                && s[i].tx.txid@ == e.tx.txid@) by {
                lemma_lex_irreflexive(e.tx.txid@);
            }
        }
        let end = self.pool.len();
        self.pool.insert(end, e);
    }

    /// Validates and inserts: the transaction enters the pool only when
    /// every one of its inputs references an identifier among the supplied
    /// unspent outputs; otherwise it is turned away as invalid.
    fn verify(&mut self, tx: Tx, chain: &Blockchain, utxos: &Vec<(u64, [u8; 32])>) -> (r: Result<
        (),
        TxError,
    >)
        requires
            pool_sorted(old(self).pool@),
            tx.covers_outputs(chain.chain@),
            tx.size_fits(),
            spec_fee_per_byte(chain.chain@, &tx) <= u64::MAX,
        ensures
            pool_sorted(final(self).pool@),
            validated_into(old(self).pool@, chain.chain@, tx, utxos@, final(self).pool@, r),
            sum_entry_sizes(old(self).pool@) <= sum_entry_sizes(final(self).pool@)
                <= sum_entry_sizes(old(self).pool@) + spec_tx_size(tx.inputs@, tx.outputs@),
            sum_entry_fees(final(self).pool@) <= sum_entry_fees(old(self).pool@) + spec_fee(
                chain.chain@,
                &tx,
            ),
    {
        let mut i: usize = 0;
        while i < tx.inputs.len()
            invariant
                i <= tx.inputs@.len(),
                self.pool@ == old(self).pool@,
                pool_sorted(old(self).pool@),
                tx.covers_outputs(chain.chain@),
                forall|i2: int| 0 <= i2 < i ==> input_covered(#[trigger] tx.inputs@[i2], utxos@),
            decreases tx.inputs@.len() - i,
        {
            let mut j: usize = 0;
            let mut found = false;
            while j < utxos.len() && !found
                invariant
                    i < tx.inputs@.len(),
                    j <= utxos@.len(),
                    self.pool@ == old(self).pool@,
                    found ==> input_covered(tx.inputs@[i as int], utxos@),
                    !found ==> forall|j2: int|
                        0 <= j2 < j ==> tx.inputs@[i as int].txid@ != ((#[trigger] utxos@[j2]).1)@,
                decreases utxos@.len() - j + (if found { 0int } else { 1int }),
            {
                if digest_eq(&utxos[j].1, &tx.inputs[i].txid) {
                    proof {
                        assert(tx.inputs@[i as int].txid@ == ((utxos@[j as int]).1)@);
                    }
                    found = true;
                } else {
                    j = j + 1;
                }
            }
            if !found {
                proof {
                    assert(!input_covered(tx.inputs@[i as int], utxos@)) by {
                        if input_covered(tx.inputs@[i as int], utxos@) {
                            let j2 = choose|j2: int|
                                0 <= j2 < utxos@.len() && tx.inputs@[i as int].txid@
                                    == ((#[trigger] utxos@[j2]).1)@;
                            assert(tx.inputs@[i as int].txid@ != ((utxos@[j2]).1)@);
                        }
                    }
                    assert(!valid_for(&tx, utxos@));
                }
                return Err(TxError::InvalidInput);
            }
            i = i + 1;
        }
        proof {
            assert(valid_for(&tx, utxos@));
        }
        let fee = tx.calc_mining_fee(chain);
        let fee_per_byte = tx.calc_mining_fee_per_byte(chain);
        let ghost e = entry_for(chain.chain@, tx);
        proof {
            assert(spec_fee(chain.chain@, &tx) >= 0);
            assert(fee == e.fee);
            assert(fee_per_byte == e.fee_per_byte);
        }
        self.insert_entry(PoolEntry { fee_per_byte, fee, tx });
        proof {
            if !has_entry(old(self).pool@, e.fee_per_byte, e.tx.txid@) {
                let idx = choose|idx: int|
                    0 <= idx <= old(self).pool@.len() && self.pool@ == old(self).pool@.insert(
                        idx,
                        e,
                    );
                lemma_insert_sums(old(self).pool@, idx, e);
            }
        }
        Ok(())
    }

    /// Admits a transaction. A pool with room validates and inserts it at
    /// once. A pool without room walks its entries from the cheapest
    /// upwards, accumulating sizes until the newcomer would fit; if the
    /// newcomer pays strictly more per byte than the next entry, those
    /// entries are evicted and the newcomer is validated and inserted, and
    /// otherwise it is turned away without error. The total pooled size
    /// stays under the pool bound throughout.
    pub fn add_tx(&mut self, tx: Tx, chain: &Blockchain, utxos: &Vec<(u64, [u8; 32])>) -> (r:
        Result<(), TxError>)
        requires
            old(self).well_formed(),
            tx.covers_outputs(chain.chain@),
            tx.size_fits(),
            spec_fee_per_byte(chain.chain@, &tx) <= u64::MAX,
            sum_entry_fees(old(self).pool@) + spec_fee(chain.chain@, &tx) <= u64::MAX,
        ensures
            final(self).well_formed(),
            sum_entry_sizes(final(self).pool@) < MAX_MEMPOOL_SIZE,
            add_tx_post(old(self).pool@, chain.chain@, tx, utxos@, final(self).pool@, r),
    {
        let size = tx.get_size();
        let current = self.get_size();
        if (current as u64) + (size as u64) < (MAX_MEMPOOL_SIZE as u64) {
            let r = self.verify(tx, chain, utxos);
            r
        } else {
            let ghost s = self.pool@;
            // Walk the cheapest entries, accumulating the room their
            // eviction would make, until the newcomer would fit.
            let mut sum: u32 = 0;
            let mut index: usize = 0;
            while index < self.pool.len() && sum < size
                invariant
                    index <= self.pool@.len(),
                    self.pool@ == s,
                    s == old(self).pool@,
                    old(self).well_formed(),
                    sum == sum_entry_sizes(s.take(index as int)),
                    forall|k: int| 0 <= k < index ==> sum_entry_sizes(s.take(k)) < size,
                    size == spec_tx_size(tx.inputs@, tx.outputs@),
                decreases self.pool@.len() - index,
            {
                proof {
                    lemma_entry_size_le_sum(s, index as int);
                    let t = s.take(index + 1);
                    assert(t.drop_last() =~= s.take(index as int));
                    assert(t.last() == s[index as int]);
                    lemma_entry_sums_take(s, index + 1);
                }
                sum = sum + self.pool[index].tx.get_size();
                index = index + 1;
            }
            if index < self.pool.len() && sum >= size {
                // Enough room can be made; the entry at `index` is the one
                // the newcomer must outbid.
                proof {
                    assert(is_cut(s, size as int, index as int));
                }
                let fee_per_byte = tx.calc_mining_fee_per_byte(chain);
                if fee_per_byte > self.pool[index].fee_per_byte {
                    let ghost j = index as int;
                    // Evict the walked entries and the outbid one.
                    let mut removed: usize = 0;
                    let count = index + 1;
                    while removed < count
                        invariant
                            removed <= count,
                            count == j + 1,
                            j < s.len(),
                            self.pool@ == s.skip(removed as int),
                            s == old(self).pool@,
                        decreases count - removed,
                    {
                        self.pool.remove(0);
                        proof {
                            assert(s.skip(removed as int).remove(0) =~= s.skip(removed + 1));
                        }
                        removed = removed + 1;
                    }
                    proof {
                        lemma_skip_sorted(s, j + 1);
                        lemma_entry_sums_split(s, j + 1);
                        lemma_entry_sums_take(s, j);
                        lemma_entry_size_le_sum(s, j);
                        let t = s.take(j + 1);
                        assert(t.drop_last() =~= s.take(j));
                        assert(t.last() == s[j]);
                    }
                    let r = self.verify(tx, chain, utxos);
                    proof {
                        lemma_entry_sums_take(s, j + 1);
                    }
                    r
                } else {
                    proof {
                        lemma_no_eviction(s, chain.chain@, &tx, index as int);
                    }
                    Ok(())
                }
            } else {
                // The walk exhausted the pool: either it cannot make enough
                // room, or it makes it only with no entry left to compare
                // against.
                proof {
                    assert(index == s.len());
                    lemma_no_cut(s, chain.chain@, &tx);
                }
                Ok(())
            }
        }
    }

    /// Admits a transaction after checking, at run time, the conservation
    /// and machine bounds that `add_tx` asks its callers for: that the
    /// inputs draw at least what the outputs pay within 64-bit accounting,
    /// that the scaled fee key fits, and that the pool's fee total has
    /// room. When a bound fails, nothing is admitted and nothing changes;
    /// otherwise the transaction goes through the ordinary admission.
    pub fn try_add_tx(&mut self, tx: Tx, chain: &Blockchain, utxos: &Vec<(u64, [u8; 32])>) -> (r:
        Option<Result<(), TxError>>)
        requires
            old(self).well_formed(),
            tx.size_fits(),
        ensures
            final(self).well_formed(),
            sum_entry_sizes(final(self).pool@) < MAX_MEMPOOL_SIZE,
            r is None <==> !admission_bounds(old(self).pool@, chain.chain@, &tx),
            r is None ==> final(self).pool@ == old(self).pool@,
            r matches Some(x) ==> add_tx_post(
                old(self).pool@,
                chain.chain@,
                tx,
                utxos@,
                final(self).pool@,
                x,
            ),
    {
        let ghost c = chain.chain@;
        // Total what the inputs draw, stopping if it leaves 64-bit range.
        let mut sum_in: u64 = 0;
        let mut i: usize = 0;
        while i < tx.inputs.len()
            invariant
                i <= tx.inputs@.len(),
                self == old(self),
                old(self).well_formed(),
                c == chain.chain@,
                sum_in == sum_input_amounts(c, tx.inputs@.take(i as int)),
            decreases tx.inputs@.len() - i,
        {
            let v = crate::transactions::resolve_input(chain, &tx.inputs[i]);
            proof {
                let tk = tx.inputs@.take(i + 1);
                assert(tk.drop_last() =~= tx.inputs@.take(i as int));
                assert(tk.last() == tx.inputs@[i as int]);
            }
            if v > u64::MAX - sum_in {
                proof {
                    lemma_sum_input_amounts_le(c, tx.inputs@, i + 1);
                }
                return None;
            }
            sum_in = sum_in + v;
            i = i + 1;
        }
        proof {
            assert(tx.inputs@.take(tx.inputs@.len() as int) =~= tx.inputs@);
        }
        // Total what the outputs pay, stopping likewise.
        let mut sum_out: u64 = 0;
        let mut o: usize = 0;
        while o < tx.outputs.len()
            invariant
                o <= tx.outputs@.len(),
                self == old(self),
                old(self).well_formed(),
                c == chain.chain@,
                sum_in == sum_input_amounts(c, tx.inputs@),
                sum_out == sum_output_amounts(tx.outputs@.take(o as int)),
            decreases tx.outputs@.len() - o,
        {
            proof {
                let tk = tx.outputs@.take(o + 1);
                assert(tk.drop_last() =~= tx.outputs@.take(o as int));
                assert(tk.last() == tx.outputs@[o as int]);
            }
            let v = tx.outputs[o].amount;
            if v > u64::MAX - sum_out {
                proof {
                    lemma_sum_output_amounts_le(tx.outputs@, o + 1);
                }
                return None;
            }
            sum_out = sum_out + v;
            o = o + 1;
        }
        proof {
            assert(tx.outputs@.take(tx.outputs@.len() as int) =~= tx.outputs@);
        }
        if sum_out > sum_in {
            return None;
        }
        // The scaled fee key must fit a 64-bit word.
        let fee = sum_in - sum_out;
        let size = tx.get_size();
        let scaled: u128 = (fee as u128) * 65536 / (size as u128);
        if scaled > u64::MAX as u128 {
            return None;
        }
        // The pool's fee total must leave room for this fee.
        let mut pool_fees: u64 = 0;
        let mut k: usize = 0;
        while k < self.pool.len()
            invariant
                k <= self.pool@.len(),
                self == old(self),
                old(self).well_formed(),
                pool_fees == sum_entry_fees(self.pool@.take(k as int)),
            decreases self.pool@.len() - k,
        {
            proof {
                let tk = self.pool@.take(k + 1);
                assert(tk.drop_last() =~= self.pool@.take(k as int));
                assert(tk.last() == self.pool@[k as int]);
                lemma_entry_sums_take(self.pool@, k + 1);
            }
            pool_fees = pool_fees + self.pool[k].fee;
            k = k + 1;
        }
        proof {
            assert(self.pool@.take(self.pool@.len() as int) =~= self.pool@);
        }
        if fee > u64::MAX - pool_fees {
            return None;
        }
        Some(self.add_tx(tx, chain, utxos))
    }

    /// Hands block assembly the best-paying transactions that fit: the pool
    /// is walked from the highest fee per byte down, every transaction that
    /// still fits under the block bound (with header, coinbase and reserve
    /// accounted) is taken out of the pool, and the taken transactions are
    /// returned together with the total of their fees. Fee figures were
    /// fixed at admission, so the chain is not consulted.
    pub fn calc_valid_tx_pool_and_fees(&mut self, _chain: &Blockchain) -> (r: (Vec<Tx>, u64))
        requires
            old(self).well_formed(),
        ensures
            final(self).well_formed(),
            final(self).pool@ == drain_kept(
                old(self).pool@,
                BLOCK_HEADER_BYTES + COINBASE_ALLOWANCE_BYTES,
            ),
            ({
                let sel = drain_sel(old(self).pool@, BLOCK_HEADER_BYTES + COINBASE_ALLOWANCE_BYTES);
                &&& r.1 == sum_entry_fees(sel)
                &&& r.1 <= sum_entry_fees(old(self).pool@)
                &&& r.0@.len() == sel.len()
                &&& forall|k: int| 0 <= k < sel.len() ==> r.0@[k] == (#[trigger] sel[k]).tx
                &&& forall|i: int, j: int|
                    0 <= i < j < sel.len() ==> (#[trigger] sel[i]).fee_per_byte
                        >= (#[trigger] sel[j]).fee_per_byte
                &&& BLOCK_HEADER_BYTES + COINBASE_ALLOWANCE_BYTES + sum_entry_sizes(sel)
                    + COINBASE_RESERVE_BYTES < MAX_BLOCK_SIZE
            }),
    {
        let ghost s0 = self.pool@;
        let ghost base = (BLOCK_HEADER_BYTES + COINBASE_ALLOWANCE_BYTES) as int;
        let mut transactions: Vec<Tx> = Vec::new();
        let mut total_fees: u64 = 0;
        let mut tx_pool_size: u32 = BLOCK_HEADER_BYTES + COINBASE_ALLOWANCE_BYTES;
        let mut kept: Vec<PoolEntry> = Vec::new();
        let ghost mut gsel: Seq<PoolEntry> = Seq::empty();
        proof {
            assert(s0.take(s0.len() as int) =~= s0);
            assert(gsel + drain_sel(self.pool@, tx_pool_size as int) =~= drain_sel(
                self.pool@,
                tx_pool_size as int,
            ));
            assert(drain_kept(self.pool@, tx_pool_size as int) + kept@ =~= drain_kept(
                self.pool@,
                tx_pool_size as int,
            ));
            lemma_entry_sums_take(gsel, 0);
            assert(gsel.take(0) =~= Seq::<PoolEntry>::empty());
            lemma_entry_sums_take(s0, 0);
            assert(s0.take(0) =~= Seq::<PoolEntry>::empty());
            assert(sum_entry_fees(kept@) == 0);
        }
        while self.pool.len() > 0
            invariant
                s0 == old(self).pool@,
                old(self).well_formed(),
                self.pool@.len() <= s0.len(),
                self.pool@ == s0.take(self.pool@.len() as int),
                drain_sel(s0, base) == gsel + drain_sel(self.pool@, tx_pool_size as int),
                drain_kept(s0, base) == drain_kept(self.pool@, tx_pool_size as int) + kept@,
                transactions@.len() == gsel.len(),
                forall|k: int| 0 <= k < gsel.len() ==> transactions@[k] == (#[trigger] gsel[k]).tx,
                total_fees == sum_entry_fees(gsel),
                tx_pool_size == base + sum_entry_sizes(gsel),
                tx_pool_size + COINBASE_RESERVE_BYTES < MAX_BLOCK_SIZE,
                sum_entry_fees(gsel) + sum_entry_fees(self.pool@) + sum_entry_fees(kept@)
                    == sum_entry_fees(s0),
                sum_entry_fees(self.pool@) >= 0,
                sum_entry_fees(kept@) >= 0,
            decreases self.pool@.len(),
        {
            let ghost prev = self.pool@;
            let ghost n = prev.len() as int;
            let e = self.pool.pop().unwrap();
            let ghost ge = e;
            proof {
                assert(prev.drop_last() =~= s0.take(n - 1));
                assert(prev.last() == ge);
                assert(s0.take(n)[n - 1] == s0[n - 1]);
                lemma_entry_size_le_sum(prev, n - 1);
                lemma_entry_sums_take(s0, n);
            }
            let esz = e.tx.get_size();
            if (esz as u64) + (tx_pool_size as u64) + (COINBASE_RESERVE_BYTES as u64) < (
            MAX_BLOCK_SIZE as u64) {
                proof {
                    // The popped entry is selected: its fee still fits the
                    // 64-bit total because all fees together do.
                    assert(sum_entry_fees(prev) == sum_entry_fees(self.pool@) + ge.fee);
                    lemma_entry_sums_concat(gsel, seq![ge]);
                    assert(seq![ge].drop_last() =~= Seq::<PoolEntry>::empty());
                    assert(seq![ge].last() == ge);
                    assert(sum_entry_fees(Seq::<PoolEntry>::empty()) == 0);
                    assert(sum_entry_sizes(Seq::<PoolEntry>::empty()) == 0);
                    assert(gsel + seq![ge] + drain_sel(
                        self.pool@,
                        tx_pool_size + spec_tx_size(ge.tx.inputs@, ge.tx.outputs@),
                    ) =~= gsel + (seq![ge] + drain_sel(
                        self.pool@,
                        tx_pool_size + spec_tx_size(ge.tx.inputs@, ge.tx.outputs@),
                    )));
                }
                total_fees = total_fees + e.fee;
                tx_pool_size = tx_pool_size + esz;
                transactions.push(e.tx);
                proof {
                    gsel = gsel + seq![ge];
                }
            } else {
                proof {
                    assert(sum_entry_fees(prev) == sum_entry_fees(self.pool@) + ge.fee);
                    lemma_insert_sums(kept@, 0, ge);
                }
                kept.insert(0, e);
                proof {
                    let gk = kept@;
                    assert(gk =~= seq![ge] + gk.drop_first());
                    assert(drain_kept(self.pool@, tx_pool_size as int) + seq![ge]
                        + gk.drop_first() =~= drain_kept(self.pool@, tx_pool_size as int) + (
                    seq![ge] + gk.drop_first()));
                }
            }
        }
        proof {
            assert(self.pool@ =~= Seq::<PoolEntry>::empty());
            assert(drain_sel(s0, base) =~= gsel);
            assert(drain_kept(s0, base) =~= kept@);
            lemma_drain_partition(s0, base);
            lemma_drain_order(s0, base);
            lemma_drain_size_bound(s0, base);
        }
        self.pool = kept;
        (transactions, total_fees)
    }
}

/// Whether block assembly can still take an entry: the header and coinbase
/// bytes, the bytes already taken, the entry, and the reserved slack must
/// all fit under the block bound. `acc` counts the header and coinbase
/// bytes as already spent.
pub open spec fn drain_cond(acc: int, e: &PoolEntry) -> bool {
    spec_tx_size(e.tx.inputs@, e.tx.outputs@) + acc + COINBASE_RESERVE_BYTES < MAX_BLOCK_SIZE
}

/// The entries block assembly selects: walking the pool from the highest
/// fee per byte down, it takes every entry that still fits.
pub open spec fn drain_sel(s: Seq<PoolEntry>, acc: int) -> Seq<PoolEntry>
    decreases s.len(),
{
    if s.len() == 0 {
        Seq::empty()
    } else if drain_cond(acc, &s.last()) {
        seq![s.last()] + drain_sel(
            s.drop_last(),
            acc + spec_tx_size(s.last().tx.inputs@, s.last().tx.outputs@),
        )
    } else {
        drain_sel(s.drop_last(), acc)
    }
}

/// The entries block assembly leaves in the pool, in their ascending
/// order.
pub open spec fn drain_kept(s: Seq<PoolEntry>, acc: int) -> Seq<PoolEntry>
    decreases s.len(),
{
    if s.len() == 0 {
        Seq::empty()
    } else if drain_cond(acc, &s.last()) {
        drain_kept(
            s.drop_last(),
            acc + spec_tx_size(s.last().tx.inputs@, s.last().tx.outputs@),
        )
    } else {
        drain_kept(s.drop_last(), acc) + seq![s.last()]
    }
}

/// Selection and remainder partition the pool's totals.
proof fn lemma_drain_partition(s: Seq<PoolEntry>, acc: int)
    ensures
        sum_entry_fees(drain_sel(s, acc)) + sum_entry_fees(drain_kept(s, acc))
            == sum_entry_fees(s),
        sum_entry_sizes(drain_sel(s, acc)) + sum_entry_sizes(drain_kept(s, acc))
            == sum_entry_sizes(s),
        sum_entry_fees(drain_sel(s, acc)) >= 0,
        sum_entry_sizes(drain_sel(s, acc)) >= 0,
    decreases s.len(),
{
    lemma_entry_sums_take(drain_sel(s, acc), 0);
    assert(drain_sel(s, acc).take(0) =~= Seq::<PoolEntry>::empty());
    if s.len() > 0 {
        let e = s.last();
        let sz = spec_tx_size(e.tx.inputs@, e.tx.outputs@);
        if drain_cond(acc, &e) {
            lemma_drain_partition(s.drop_last(), acc + sz);
            lemma_entry_sums_concat(seq![e], drain_sel(s.drop_last(), acc + sz));
            assert(seq![e].drop_last() =~= Seq::<PoolEntry>::empty());
        } else {
            lemma_drain_partition(s.drop_last(), acc);
            lemma_entry_sums_concat(drain_kept(s.drop_last(), acc), seq![e]);
            assert(seq![e].drop_last() =~= Seq::<PoolEntry>::empty());
        }
    }
}

/// What block assembly takes never grows past the block bound: the bytes
/// spent so far plus everything still to be selected stay under it.
proof fn lemma_drain_size_bound(s: Seq<PoolEntry>, acc: int)
    requires
        acc + COINBASE_RESERVE_BYTES < MAX_BLOCK_SIZE,
    ensures
        acc + sum_entry_sizes(drain_sel(s, acc)) + COINBASE_RESERVE_BYTES < MAX_BLOCK_SIZE,
    decreases s.len(),
{
    if s.len() > 0 {
        let e = s.last();
        let sz = spec_tx_size(e.tx.inputs@, e.tx.outputs@);
        if drain_cond(acc, &e) {
            lemma_drain_size_bound(s.drop_last(), acc + sz);
            lemma_entry_sums_concat(seq![e], drain_sel(s.drop_last(), acc + sz));
            assert(seq![e].drop_last() =~= Seq::<PoolEntry>::empty());
            assert(seq![e].last() == e);
            assert(sum_entry_sizes(Seq::<PoolEntry>::empty()) == 0);
        } else {
            lemma_drain_size_bound(s.drop_last(), acc);
        }
    } else {
        assert(sum_entry_sizes(drain_sel(s, acc)) == 0);
    }
}

/// Each selected or kept entry is one of the pool's entries, and the
/// selection lists fees in non-increasing fee-per-byte order while the
/// remainder keeps the pool's ascending order.
proof fn lemma_drain_order(s: Seq<PoolEntry>, acc: int)
    requires
        pool_sorted(s),
    ensures
        forall|k: int| 0 <= k < drain_sel(s, acc).len() ==> exists|i: int|
            0 <= i < s.len() && (#[trigger] drain_sel(s, acc)[k]) == s[i],
        forall|k: int| 0 <= k < drain_kept(s, acc).len() ==> exists|i: int|
            0 <= i < s.len() && (#[trigger] drain_kept(s, acc)[k]) == s[i],
        forall|i: int, j: int|
            0 <= i < j < drain_sel(s, acc).len() ==> (#[trigger] drain_sel(s, acc)[i]).fee_per_byte
                >= (#[trigger] drain_sel(s, acc)[j]).fee_per_byte,
        pool_sorted(drain_kept(s, acc)),
    decreases s.len(),
{
    if s.len() > 0 {
        let e = s.last();
        let sz = spec_tx_size(e.tx.inputs@, e.tx.outputs@);
        let rest = s.drop_last();
        assert(forall|i: int, j: int| 0 <= i < j < rest.len() ==> entry_lt(
            &(#[trigger] rest[i]),
            &(#[trigger] rest[j]),
        ));
        if drain_cond(acc, &e) {
            lemma_drain_order(rest, acc + sz);
            let sub = drain_sel(rest, acc + sz);
            let sel = drain_sel(s, acc);
            assert(sel =~= seq![e] + sub);
            assert forall|i: int, j: int| 0 <= i < j < sel.len() implies (#[trigger] sel[i]).fee_per_byte
                >= (#[trigger] sel[j]).fee_per_byte by {
                if i == 0 {
                    let w = choose|w: int| 0 <= w < rest.len() && sub[j - 1] == rest[w];
                    assert(entry_lt(&rest[w], &e));
                } else {
                    assert(sel[i] == sub[i - 1] && sel[j] == sub[j - 1]);
                }
            }
            assert forall|k: int| 0 <= k < sel.len() implies exists|i: int|
                0 <= i < s.len() && (#[trigger] sel[k]) == s[i] by {
                if k == 0 {
                    assert(sel[0] == s[s.len() - 1]);
                } else {
                    let w = choose|w: int| 0 <= w < rest.len() && sub[k - 1] == rest[w];
                    assert(sel[k] == s[w]);
                }
            }
            assert(drain_kept(s, acc) == drain_kept(rest, acc + sz));
            assert forall|k: int| 0 <= k < drain_kept(s, acc).len() implies exists|i: int|
                0 <= i < s.len() && (#[trigger] drain_kept(s, acc)[k]) == s[i] by {
                let w = choose|w: int|
                    0 <= w < rest.len() && drain_kept(rest, acc + sz)[k] == rest[w];
                assert(drain_kept(s, acc)[k] == s[w]);
            }
        } else {
            lemma_drain_order(rest, acc);
            let kp = drain_kept(rest, acc);
            let kept = drain_kept(s, acc);
            assert(kept =~= kp + seq![e]);
            let sel = drain_sel(s, acc);
            assert(sel == drain_sel(rest, acc));
            assert forall|i: int, j: int| 0 <= i < j < sel.len() implies (#[trigger] sel[i]).fee_per_byte
                >= (#[trigger] sel[j]).fee_per_byte by {
                assert(sel[i] == drain_sel(rest, acc)[i]);
                assert(sel[j] == drain_sel(rest, acc)[j]);
            }
            assert forall|i: int, j: int| 0 <= i < j < kept.len() implies entry_lt(
                &(#[trigger] kept[i]),
                &(#[trigger] kept[j]),
            ) by {
                if j == kept.len() - 1 {
                    let w = choose|w: int| 0 <= w < rest.len() && kp[i] == rest[w];
                    assert(entry_lt(&rest[w], &e));
                } else {
                    assert(kept[i] == kp[i] && kept[j] == kp[j]);
                }
            }
            assert forall|k: int| 0 <= k < kept.len() implies exists|i: int|
                0 <= i < s.len() && (#[trigger] kept[k]) == s[i] by {
                if k == kept.len() - 1 {
                    assert(kept[k] == s[s.len() - 1]);
                } else {
                    let w = choose|w: int| 0 <= w < rest.len() && kp[k] == rest[w];
                    assert(kept[k] == s[w]);
                }
            }
            assert forall|k: int| 0 <= k < drain_sel(s, acc).len() implies exists|i: int|
                0 <= i < s.len() && (#[trigger] drain_sel(s, acc)[k]) == s[i] by {
                let w = choose|w: int|
                    0 <= w < rest.len() && drain_sel(rest, acc)[k] == rest[w];
                assert(drain_sel(s, acc)[k] == s[w]);
            }
        }
    }
}

/// Every suffix of a sorted pool is sorted.
proof fn lemma_skip_sorted(s: Seq<PoolEntry>, n: int)
    requires
        pool_sorted(s),
        0 <= n <= s.len(),
    ensures
        pool_sorted(s.skip(n)),
{
    assert forall|i: int, j: int| 0 <= i < j < s.skip(n).len() implies entry_lt(
        &s.skip(n)[i],
        &s.skip(n)[j],
    ) by {
        assert(s.skip(n)[i] == s[i + n]);
        assert(s.skip(n)[j] == s[j + n]);
    }
}

/// A pool's totals split at any position.
proof fn lemma_entry_sums_split(s: Seq<PoolEntry>, n: int)
    requires
        0 <= n <= s.len(),
    ensures
        sum_entry_sizes(s) == sum_entry_sizes(s.take(n)) + sum_entry_sizes(s.skip(n)),
        sum_entry_fees(s) == sum_entry_fees(s.take(n)) + sum_entry_fees(s.skip(n)),
{
    lemma_entry_sums_concat(s.take(n), s.skip(n));
    assert(s.take(n) + s.skip(n) =~= s);
}

/// When the newcomer does not outbid the entry at the cut, the pool admits
/// nothing by eviction.
proof fn lemma_no_eviction(s: Seq<PoolEntry>, c: Seq<Block>, tx: &Tx, j: int)
    requires
        is_cut(s, spec_tx_size(tx.inputs@, tx.outputs@), j),
        j < s.len(),
        spec_fee_per_byte(c, tx) <= s[j].fee_per_byte,
    ensures
        !evicts(s, c, tx),
{
    assert forall|j2: int|
        !(is_cut(s, spec_tx_size(tx.inputs@, tx.outputs@), j2) && j2 < s.len()
            && spec_fee_per_byte(c, tx) > (#[trigger] s[j2]).fee_per_byte) by {
        if is_cut(s, spec_tx_size(tx.inputs@, tx.outputs@), j2) {
            // Cuts are unique: both are least positions reaching the need.
            if j2 < j {
                assert(sum_entry_sizes(s.take(j2)) < spec_tx_size(tx.inputs@, tx.outputs@));
            } else if j < j2 {
                assert(sum_entry_sizes(s.take(j)) < spec_tx_size(tx.inputs@, tx.outputs@));
            }
        }
    }
}

/// When every proper prefix of the pool falls short of the needed room, the
/// pool admits nothing by eviction.
proof fn lemma_no_cut(s: Seq<PoolEntry>, c: Seq<Block>, tx: &Tx)
    requires
        forall|k: int| 0 <= k < s.len() ==> sum_entry_sizes(s.take(k)) < spec_tx_size(
            tx.inputs@,
            tx.outputs@,
        ),
    ensures
        !evicts(s, c, tx),
{
    let need = spec_tx_size(tx.inputs@, tx.outputs@);
    assert forall|j2: int|
        !(is_cut(s, need, j2) && j2 < s.len() && spec_fee_per_byte(c, tx)
            > (#[trigger] s[j2]).fee_per_byte) by {
        if is_cut(s, need, j2) && j2 < s.len() {
            assert(sum_entry_sizes(s.take(j2)) >= need);
            assert(sum_entry_sizes(s.take(j2)) < need);
        }
    }
}

/// The pool order is transitive.
proof fn lemma_lex_transitive_entries(a: &PoolEntry, b: &PoolEntry, c: &PoolEntry)
    requires
        entry_lt(a, b),
        entry_lt(b, c),
        a.tx.txid@.len() == b.tx.txid@.len(),
        b.tx.txid@.len() == c.tx.txid@.len(),
    ensures
        entry_lt(a, c),
{
    if a.fee_per_byte == b.fee_per_byte && b.fee_per_byte == c.fee_per_byte {
        lemma_lex_lt_transitive(a.tx.txid@, b.tx.txid@, c.tx.txid@);
    }
}

/// Lexicographic order on equal-length byte sequences is transitive.
proof fn lemma_lex_lt_transitive(a: Seq<u8>, b: Seq<u8>, c: Seq<u8>)
    requires
        lex_lt(a, b),
        lex_lt(b, c),
        a.len() == b.len(),
        b.len() == c.len(),
    ensures
        lex_lt(a, c),
    decreases a.len(),
{
    if a.len() > 0 {
        if a[0] == b[0] && b[0] == c[0] {
            lemma_lex_lt_transitive(a.drop_first(), b.drop_first(), c.drop_first());
        }
    }
}

/// Inserting an entry adds its size and fee to the pool's totals.
proof fn lemma_insert_sums(s: Seq<PoolEntry>, idx: int, e: PoolEntry)
    requires
        0 <= idx <= s.len(),
    ensures
        sum_entry_sizes(s.insert(idx, e)) == sum_entry_sizes(s) + spec_tx_size(
            e.tx.inputs@,
            e.tx.outputs@,
        ),
        sum_entry_fees(s.insert(idx, e)) == sum_entry_fees(s) + e.fee,
{
    assert(s.insert(idx, e) =~= s.take(idx) + seq![e] + s.skip(idx));
    lemma_entry_sums_concat(s.take(idx) + seq![e], s.skip(idx));
    lemma_entry_sums_concat(s.take(idx), seq![e]);
    assert(seq![e].drop_last() =~= Seq::<PoolEntry>::empty());
    assert(seq![e].last() == e);
    assert(sum_entry_sizes(Seq::<PoolEntry>::empty()) == 0);
    assert(sum_entry_fees(Seq::<PoolEntry>::empty()) == 0);
    lemma_entry_sums_concat(s.take(idx), s.skip(idx));
    assert(s.take(idx) + s.skip(idx) =~= s);
}

} // verus!
