//! Transactions: opaque inputs and outputs, the deterministic transaction
//! identifier, size accounting and fee derivation.
use vstd::prelude::*;

use crate::block::Block;
use crate::blockchain::Blockchain;
use crate::bytes::{push_bytes, push_u64_be, u64_be, digest_eq};
use crate::crypto::{blake3_of, blake3_digest, sig_verifies, sig_verify};

verus! {

/// A reference to an earlier output: the identifier of the transaction that
/// produced it, and a signature over that identifier by the key of the
/// address the output paid. On-wire size 96 bytes.
#[derive(Clone, Copy)]
pub struct Input {
    pub txid: [u8; 32],
    pub signature: [u8; 64],
}

/// A payment of `amount` to `address`. On-wire size 40 bytes.
#[derive(Clone, Copy)]
pub struct Output {
    pub amount: u64,
    pub address: [u8; 32],
}

/// A transaction: its identifier, which is the digest of its inputs and
/// outputs, and the inputs and outputs themselves.
pub struct Tx {
    pub txid: [u8; 32],
    pub inputs: Vec<Input>,
    pub outputs: Vec<Output>,
}

/// The ways building or submitting a transaction can fail.
#[derive(Debug)]
pub enum TxError {
    /// The supplied unspent outputs cannot cover the requested amounts plus
    /// the fee, or the amount and address lists differ in length.
    InsufficientBalance,
    /// A submitted transaction references an identifier that is not among the
    /// supplied unspent outputs.
    InvalidInput,
}

/// The on-wire size of a transaction: 32 bytes of identifier, 96 per input,
/// 40 per output.
pub open spec fn spec_tx_size(inputs: Seq<Input>, outputs: Seq<Output>) -> int {
    32 + 96 * (inputs.len() as int) + 40 * (outputs.len() as int)
}

/// The byte string a sequence of inputs contributes to the identifier
/// preimage: for each input its referenced identifier, then its signature.
pub open spec fn inputs_bytes(s: Seq<Input>) -> Seq<u8>
    decreases s.len(),
{
    if s.len() == 0 {
        Seq::empty()
    } else {
        inputs_bytes(s.drop_last()) + s.last().txid@ + s.last().signature@
    }
}

/// The byte string a sequence of outputs contributes to the identifier
/// preimage: for each output its big-endian amount, then its address.
pub open spec fn outputs_bytes(s: Seq<Output>) -> Seq<u8>
    decreases s.len(),
{
    if s.len() == 0 {
        Seq::empty()
    } else {
        outputs_bytes(s.drop_last()) + u64_be(s.last().amount) + s.last().address@
    }
}

/// The identifier preimage: all input bytes, then all output bytes.
pub open spec fn txid_preimage(inputs: Seq<Input>, outputs: Seq<Output>) -> Seq<u8> {
    inputs_bytes(inputs) + outputs_bytes(outputs)
}

/// The transaction identifier: the digest of the identifier preimage.
pub open spec fn txid_of(inputs: Seq<Input>, outputs: Seq<Output>) -> Seq<u8> {
    blake3_of(txid_preimage(inputs, outputs))
}

/// The sum of the amounts of a sequence of outputs.
pub open spec fn sum_output_amounts(s: Seq<Output>) -> int
    decreases s.len(),
{
    if s.len() == 0 {
        0
    } else {
        sum_output_amounts(s.drop_last()) + s.last().amount
    }
}

/// Every partial sum of output amounts is at most the whole sum.
pub proof fn lemma_sum_output_amounts_take(s: Seq<Output>, i: int)
    requires
        0 <= i <= s.len(),
    ensures
        sum_output_amounts(s.take(i)) <= sum_output_amounts(s),
        sum_output_amounts(s.take(i)) >= 0,
    decreases s.len(),
{
    if s.len() > 0 {
        if i == s.len() {
            assert(s.take(i) =~= s);
            lemma_sum_output_amounts_take(s.drop_last(), i - 1);
        } else {
            assert(s.drop_last().take(i) =~= s.take(i));
            lemma_sum_output_amounts_take(s.drop_last(), i);
        }
    } else {
        assert(s.take(i) =~= s);
    }
}

/// The first output in `outs` whose address verifies the input's signature
/// over the input's referenced identifier, if any.
pub open spec fn first_match_in_outputs(outs: Seq<Output>, input: Input) -> Option<u64>
    decreases outs.len(),
{
    if outs.len() == 0 {
        None
    } else if sig_verifies(outs[0].address@, input.signature@, input.txid@) {
        Some(outs[0].amount)
    } else {
        first_match_in_outputs(outs.drop_first(), input)
    }
}

/// The amount `input` draws from transaction `t`: the first output of `t`
/// whose address verifies the input's signature, provided `t` is the
/// transaction the input references.
pub open spec fn tx_match(t: Tx, input: Input) -> Option<u64> {
    if t.txid@ == input.txid@ {
        first_match_in_outputs(t.outputs@, input)
    } else {
        None
    }
}

/// The amount drawn by `input` from the first matching transaction in `txs`,
/// searched in order.
pub open spec fn first_match_in_txs(txs: Seq<Tx>, input: Input) -> Option<u64>
    decreases txs.len(),
{
    if txs.len() == 0 {
        None
    } else if tx_match(txs[0], input) is Some {
        tx_match(txs[0], input)
    } else {
        first_match_in_txs(txs.drop_first(), input)
    }
}

/// All transactions of a chain, in block order and, within a block, in
/// insertion order.
pub open spec fn chain_txs(c: Seq<Block>) -> Seq<Tx>
    decreases c.len(),
{
    if c.len() == 0 {
        Seq::empty()
    } else {
        chain_txs(c.drop_last()) + c.last().transactions@
    }
}

/// The amount an input contributes: the amount of the first output in the
/// chain that the input's referenced identifier and signature both match,
/// and 0 when the signature matches no candidate output.
pub open spec fn spec_input_amount(c: Seq<Block>, input: Input) -> int {
    match first_match_in_txs(chain_txs(c), input) {
        Some(a) => a as int,
        None => 0,
    }
}

/// The sum of the amounts drawn by a sequence of inputs.
pub open spec fn sum_input_amounts(c: Seq<Block>, inputs: Seq<Input>) -> int
    decreases inputs.len(),
{
    if inputs.len() == 0 {
        0
    } else {
        sum_input_amounts(c, inputs.drop_last()) + spec_input_amount(c, inputs.last())
    }
}

/// The mining fee of a transaction: what its inputs draw from the chain
/// minus what its outputs pay.
pub open spec fn spec_fee(c: Seq<Block>, t: &Tx) -> int {
    sum_input_amounts(c, t.inputs@) - sum_output_amounts(t.outputs@)
}

/// The fee-ordering key: the fee scaled by 2^16, divided by the
/// transaction's size, so that integer division keeps ordering precision.
pub open spec fn spec_fee_per_byte(c: Seq<Block>, t: &Tx) -> int {
    spec_fee(c, t) * 65536 / spec_tx_size(t.inputs@, t.outputs@)
}

/// Partial sums of input amounts are non-negative and at most the whole sum.
pub proof fn lemma_sum_input_amounts_take(c: Seq<Block>, inputs: Seq<Input>, i: int)
    requires
        0 <= i <= inputs.len(),
    ensures
        0 <= sum_input_amounts(c, inputs.take(i)) <= sum_input_amounts(c, inputs),
    decreases inputs.len(),
{
    if inputs.len() > 0 {
        if i == inputs.len() {
            assert(inputs.take(i) =~= inputs);
            lemma_sum_input_amounts_take(c, inputs.drop_last(), i - 1);
        } else {
            assert(inputs.drop_last().take(i) =~= inputs.take(i));
            lemma_sum_input_amounts_take(c, inputs.drop_last(), i);
        }
    } else {
        assert(inputs.take(i) =~= inputs);
    }
}

/// A first match over concatenated transaction lists searches the left list
/// first.
proof fn lemma_first_match_in_txs_concat(s1: Seq<Tx>, s2: Seq<Tx>, input: Input)
    ensures
        first_match_in_txs(s1 + s2, input) == if first_match_in_txs(s1, input) is Some {
            first_match_in_txs(s1, input)
        } else {
            first_match_in_txs(s2, input)
        },
    decreases s1.len(),
{
    if s1.len() == 0 {
        assert(s1 + s2 =~= s2);
    } else {
        assert((s1 + s2).drop_first() =~= s1.drop_first() + s2);
        lemma_first_match_in_txs_concat(s1.drop_first(), s2, input);
    }
}

/// A first match over concatenated output lists searches the left list
/// first.
proof fn lemma_first_match_in_outputs_concat(s1: Seq<Output>, s2: Seq<Output>, input: Input)
    ensures
        first_match_in_outputs(s1 + s2, input) == if first_match_in_outputs(s1, input) is Some {
            first_match_in_outputs(s1, input)
        } else {
            first_match_in_outputs(s2, input)
        },
    decreases s1.len(),
{
    if s1.len() == 0 {
        assert(s1 + s2 =~= s2);
    } else {
        assert((s1 + s2).drop_first() =~= s1.drop_first() + s2);
        lemma_first_match_in_outputs_concat(s1.drop_first(), s2, input);
    }
}

/// `chain_txs` distributes over chain concatenation.
proof fn lemma_chain_txs_concat(c1: Seq<Block>, c2: Seq<Block>)
    ensures
        chain_txs(c1 + c2) == chain_txs(c1) + chain_txs(c2),
    decreases c2.len(),
{
    if c2.len() == 0 {
        assert(c1 + c2 =~= c1);
        assert(chain_txs(c1) + chain_txs(c2) =~= chain_txs(c1));
    } else {
        assert((c1 + c2).drop_last() =~= c1 + c2.drop_last());
        lemma_chain_txs_concat(c1, c2.drop_last());
        assert(chain_txs(c1) + chain_txs(c2.drop_last()) + c2.last().transactions@
            =~= chain_txs(c1) + chain_txs(c2));
    }
}

/// The amount drawn by `input`, located by scanning the chain in order for
/// the first transaction whose identifier the input references and one of
/// whose outputs' addresses verifies the input's signature.
pub(crate) fn resolve_input(chain: &Blockchain, input: &Input) -> (r: u64)
    ensures
        r == spec_input_amount(chain.chain@, *input),
{
    let c = &chain.chain;
    let mut bi: usize = 0;
    while bi < c.len()
        invariant
            bi <= c@.len(),
            c@ == chain.chain@,
            first_match_in_txs(chain_txs(c@.take(bi as int)), *input) is None,
        decreases c@.len() - bi,
    {
        let txs = &c[bi].transactions;
        let mut ti: usize = 0;
        while ti < txs.len()
            invariant
                bi < c@.len(),
                ti <= txs@.len(),
                c@ == chain.chain@,
                txs@ == c@[bi as int].transactions@,
                first_match_in_txs(chain_txs(c@.take(bi as int)), *input) is None,
                first_match_in_txs(
                    chain_txs(c@.take(bi as int)) + txs@.take(ti as int),
                    *input,
                ) is None,
            decreases txs@.len() - ti,
        {
            let btx = &txs[ti];
            if digest_eq(&btx.txid, &input.txid) {
                let outs = &btx.outputs;
                let mut oi: usize = 0;
                while oi < outs.len()
                    invariant
                        bi < c@.len(),
                        ti < txs@.len(),
                        oi <= outs@.len(),
                        c@ == chain.chain@,
                        txs@ == c@[bi as int].transactions@,
                        outs@ == c@[bi as int].transactions@[ti as int].outputs@,
                        c@[bi as int].transactions@[ti as int].txid@ == input.txid@,
                        first_match_in_txs(chain_txs(c@.take(bi as int)), *input) is None,
                        first_match_in_txs(
                            chain_txs(c@.take(bi as int)) + txs@.take(ti as int),
                            *input,
                        ) is None,
                        first_match_in_outputs(outs@.take(oi as int), *input) is None,
                    decreases outs@.len() - oi,
                {
                    if sig_verify(&outs[oi].address, &input.signature, &input.txid) {
                        proof {
                            lemma_located_match(
                                c@,
                                bi as int,
                                ti as int,
                                oi as int,
                                *input,
                            );
                            assert(spec_input_amount(c@, *input)
                                == c@[bi as int].transactions@[ti as int].outputs@[oi as int].amount);
                        }
                        return outs[oi].amount;
                    }
                    proof {
                        let t = outs@.take(oi + 1);
                        lemma_first_match_in_outputs_concat(
                            outs@.take(oi as int),
                            seq![outs@[oi as int]],
                            *input,
                        );
                        assert(t =~= outs@.take(oi as int) + seq![outs@[oi as int]]);
                        assert(seq![outs@[oi as int]].drop_first() =~= Seq::<Output>::empty());
                        assert(first_match_in_outputs(Seq::<Output>::empty(), *input) is None);
                        assert(first_match_in_outputs(seq![outs@[oi as int]], *input) is None);
                    }
                    oi = oi + 1;
                }
                proof {
                    assert(outs@.take(outs@.len() as int) =~= outs@);
                }
            }
            proof {
                let prefix = chain_txs(c@.take(bi as int));
                let cur = txs@[ti as int];
                lemma_first_match_in_txs_concat(
                    prefix + txs@.take(ti as int),
                    seq![cur],
                    *input,
                );
                assert(prefix + txs@.take(ti + 1) =~= (prefix + txs@.take(ti as int))
                    + seq![cur]);
                assert(seq![cur].drop_first() =~= Seq::<Tx>::empty());
                assert(tx_match(cur, *input) is None);
                assert(first_match_in_txs(Seq::<Tx>::empty(), *input) is None);
                assert(first_match_in_txs(seq![cur], *input) is None);
            }
            ti = ti + 1;
        }
        proof {
            let t = c@.take(bi + 1);
            assert(t.drop_last() =~= c@.take(bi as int));
            assert(t.last() == c@[bi as int]);
            assert(txs@.take(txs@.len() as int) =~= txs@);
            assert(chain_txs(t) == chain_txs(c@.take(bi as int)) + txs@);
        }
        bi = bi + 1;
    }
    proof {
        assert(c@.take(c@.len() as int) =~= c@);
    }
    0
}

/// When the scan stands at output `oi` of transaction `ti` of block `bi`,
/// with nothing matched before it, and that output verifies the signature,
/// then the chain-wide first match is exactly that output's amount.
proof fn lemma_located_match(c: Seq<Block>, bi: int, ti: int, oi: int, input: Input)
    requires
        0 <= bi < c.len(),
        0 <= ti < c[bi].transactions@.len(),
        0 <= oi < c[bi].transactions@[ti].outputs@.len(),
        first_match_in_txs(
            chain_txs(c.take(bi)) + c[bi].transactions@.take(ti),
            input,
        ) is None,
        c[bi].transactions@[ti].txid@ == input.txid@,
        first_match_in_outputs(c[bi].transactions@[ti].outputs@.take(oi), input) is None,
        sig_verifies(
            c[bi].transactions@[ti].outputs@[oi].address@,
            input.signature@,
            input.txid@,
        ),
    ensures
        spec_input_amount(c, input) == c[bi].transactions@[ti].outputs@[oi].amount,
{
    let cur = c[bi].transactions@[ti];
    let outs = cur.outputs@;
    // The first match within the current transaction's outputs is output oi.
    lemma_first_match_in_outputs_concat(outs.take(oi), outs.skip(oi), input);
    assert(outs.take(oi) + outs.skip(oi) =~= outs);
    assert(outs.skip(oi)[0] == outs[oi]);
    assert(first_match_in_outputs(outs.skip(oi), input) == Some(outs[oi].amount));
    assert(tx_match(cur, input) == Some(outs[oi].amount));
    // The whole chain's transaction list splits around the current one.
    let prefix = chain_txs(c.take(bi)) + c[bi].transactions@.take(ti);
    let rest = c[bi].transactions@.skip(ti + 1) + chain_txs(c.skip(bi + 1));
    lemma_chain_txs_concat(c.take(bi + 1), c.skip(bi + 1));
    assert(c.take(bi + 1) + c.skip(bi + 1) =~= c);
    assert(c.take(bi + 1).drop_last() =~= c.take(bi));
    assert(c.take(bi + 1).last() == c[bi]);
    assert(c[bi].transactions@.take(ti) + seq![cur] + c[bi].transactions@.skip(ti + 1)
        =~= c[bi].transactions@);
    assert(chain_txs(c) =~= prefix + seq![cur] + rest);
    lemma_first_match_in_txs_concat(prefix, seq![cur] + rest, input);
    assert(prefix + (seq![cur] + rest) =~= prefix + seq![cur] + rest);
    assert((seq![cur] + rest)[0] == cur);
    assert(first_match_in_txs(seq![cur] + rest, input) == Some(outs[oi].amount));
}

impl Tx {
    /// Identical input and output sequences always hash to the same
    /// identifier: the identifier is a function of the components alone.
    pub proof fn lemma_txid_deterministic(
        inputs1: Seq<Input>,
        outputs1: Seq<Output>,
        inputs2: Seq<Input>,
        outputs2: Seq<Output>,
    )
        requires
            inputs1 == inputs2,
            outputs1 == outputs2,
        ensures
            txid_of(inputs1, outputs1) == txid_of(inputs2, outputs2),
    {
    }

    /// The transaction identifier: the digest of, for each input, its
    /// referenced identifier then its signature, then, for each output, its
    /// big-endian amount then its address.
    pub fn generate_txid(inputs: &Vec<Input>, outputs: &Vec<Output>) -> (r: [u8; 32])
        ensures
            r@ == txid_of(inputs@, outputs@),
    {
        let mut preimage: Vec<u8> = Vec::new();
        let mut i: usize = 0;
        while i < inputs.len()
            invariant
                i <= inputs@.len(),
                preimage@ == inputs_bytes(inputs@.take(i as int)),
            decreases inputs@.len() - i,
        {
            push_bytes(&mut preimage, &inputs[i].txid);
            push_bytes(&mut preimage, &inputs[i].signature);
            proof {
                let t = inputs@.take(i + 1);
                assert(t.drop_last() =~= inputs@.take(i as int));
                assert(t.last() == inputs@[i as int]);
            }
            i = i + 1;
        }
        proof {
            assert(inputs@.take(inputs@.len() as int) =~= inputs@);
        }
        let mut o: usize = 0;
        while o < outputs.len()
            invariant
                o <= outputs@.len(),
                preimage@ == inputs_bytes(inputs@) + outputs_bytes(outputs@.take(o as int)),
            decreases outputs@.len() - o,
        {
            push_u64_be(&mut preimage, outputs[o].amount);
            push_bytes(&mut preimage, &outputs[o].address);
            proof {
                let t = outputs@.take(o + 1);
                assert(t.drop_last() =~= outputs@.take(o as int));
                assert(t.last() == outputs@[o as int]);
            }
            o = o + 1;
        }
        proof {
            assert(outputs@.take(outputs@.len() as int) =~= outputs@);
            assert(preimage@ == txid_preimage(inputs@, outputs@));
        }
        blake3_digest(&preimage)
    }

    /// Whether the transaction's size fits the machine's 32-bit size
    /// accounting.
    pub open spec fn size_fits(&self) -> bool {
        spec_tx_size(self.inputs@, self.outputs@) <= u32::MAX
    }

    /// The on-wire size of the transaction.
    pub fn get_size(&self) -> (r: u32)
        requires
            self.size_fits(),
        ensures
            r == spec_tx_size(self.inputs@, self.outputs@),
    {
        let input_bytes: u64 = 96 * (self.inputs.len() as u64);
        let output_bytes: u64 = 40 * (self.outputs.len() as u64);
        (32 + input_bytes + output_bytes) as u32
    }

    /// The sum of the transaction's output amounts.
    pub fn calc_sum_of_outputs(&self) -> (r: u64)
        requires
            sum_output_amounts(self.outputs@) <= u64::MAX,
        ensures
            r == sum_output_amounts(self.outputs@),
    {
        let mut sum: u64 = 0;
        let mut i: usize = 0;
        while i < self.outputs.len()
            invariant
                i <= self.outputs@.len(),
                sum == sum_output_amounts(self.outputs@.take(i as int)),
                sum_output_amounts(self.outputs@) <= u64::MAX,
            decreases self.outputs@.len() - i,
        {
            proof {
                let t = self.outputs@.take(i + 1);
                assert(t.drop_last() =~= self.outputs@.take(i as int));
                assert(t.last() == self.outputs@[i as int]);
                lemma_sum_output_amounts_take(self.outputs@, i + 1);
            }
            sum = sum + self.outputs[i].amount;
            i = i + 1;
        }
        proof {
            assert(self.outputs@.take(self.outputs@.len() as int) =~= self.outputs@);
        }
        sum
    }

    /// The sum of the amounts the transaction's inputs draw from the chain.
    fn calc_sum_of_inputs(&self, chain: &Blockchain) -> (r: u64)
        requires
            sum_input_amounts(chain.chain@, self.inputs@) <= u64::MAX,
        ensures
            r == sum_input_amounts(chain.chain@, self.inputs@),
    {
        let mut sum: u64 = 0;
        let mut i: usize = 0;
        while i < self.inputs.len()
            invariant
                i <= self.inputs@.len(),
                sum == sum_input_amounts(chain.chain@, self.inputs@.take(i as int)),
                sum_input_amounts(chain.chain@, self.inputs@) <= u64::MAX,
            decreases self.inputs@.len() - i,
        {
            proof {
                let t = self.inputs@.take(i + 1);
                assert(t.drop_last() =~= self.inputs@.take(i as int));
                assert(t.last() == self.inputs@[i as int]);
                lemma_sum_input_amounts_take(chain.chain@, self.inputs@, i + 1);
            }
            sum = sum + resolve_input(chain, &self.inputs[i]);
            i = i + 1;
        }
        proof {
            assert(self.inputs@.take(self.inputs@.len() as int) =~= self.inputs@);
        }
        sum
    }

    /// Whether the transaction respects conservation of value against the
    /// chain: its inputs draw at least what its outputs pay, and the sums
    /// stay within the machine's 64-bit accounting. Every non-coinbase
    /// transaction satisfies this by construction.
    pub open spec fn covers_outputs(&self, c: Seq<Block>) -> bool {
        &&& sum_input_amounts(c, self.inputs@) <= u64::MAX
        &&& sum_output_amounts(self.outputs@) <= sum_input_amounts(c, self.inputs@)
    }

    /// The mining fee: what the inputs draw minus what the outputs pay.
    pub fn calc_mining_fee(&self, chain: &Blockchain) -> (r: u64)
        requires
            self.covers_outputs(chain.chain@),
        ensures
            r == spec_fee(chain.chain@, self),
    {
        self.calc_sum_of_inputs(chain) - self.calc_sum_of_outputs()
    }

    /// The fee-ordering key of the transaction: its fee scaled by 2^16 and
    /// divided by its size.
    pub fn calc_mining_fee_per_byte(&self, chain: &Blockchain) -> (r: u64)
        requires
            self.covers_outputs(chain.chain@),
            self.size_fits(),
            spec_fee_per_byte(chain.chain@, self) <= u64::MAX,
        ensures
            r == spec_fee_per_byte(chain.chain@, self),
    {
        let fee = self.calc_mining_fee(chain);
        let size = self.get_size();
        let scaled: u128 = (fee as u128) * 65536 / (size as u128);
        proof {
            assert(spec_tx_size(self.inputs@, self.outputs@) >= 32);
            assert((fee as int) * 65536 / (size as int)
                == spec_fee(chain.chain@, self) * 65536 / spec_tx_size(
                self.inputs@,
                self.outputs@,
            ));
        }
        scaled as u64
    }
}

impl PartialEq for Tx {
    /// Transactions compare by identifier alone.
    fn eq(&self, other: &Self) -> (r: bool) {
        digest_eq(&self.txid, &other.txid)
    }
}

impl vstd::std_specs::cmp::PartialEqSpecImpl for Tx {
    open spec fn obeys_eq_spec() -> bool {
        true
    }

    open spec fn eq_spec(&self, other: &Self) -> bool {
        self.txid@ == other.txid@
    }
}

impl Eq for Tx {

}

} // verus!
