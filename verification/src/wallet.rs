//! Wallets: key custody, balance tracking against supplied unspent
//! outputs, and construction of signed multi-output transactions.
use vstd::prelude::*;

use ed25519_dalek::Signer;

use crate::crypto::sig_verifies;
use crate::transactions::{txid_of, Input, Output, Tx, TxError};

verus! {

/// The key type of the signature primitive, opaque to the ledger's logic.
#[verifier::external_type_specification]
#[verifier::external_body]
pub struct ExSigningKey(ed25519_dalek::SigningKey);

/// The sum of a list of amounts.
pub open spec fn sum_amounts(s: Seq<u64>) -> int
    decreases s.len(),
{
    if s.len() == 0 {
        0
    } else {
        sum_amounts(s.drop_last()) + s.last()
    }
}

/// The sum of the amounts of a list of unspent outputs.
pub open spec fn sum_utxo_amounts(s: Seq<(u64, [u8; 32])>) -> int
    decreases s.len(),
{
    if s.len() == 0 {
        0
    } else {
        sum_utxo_amounts(s.drop_last()) + s.last().0
    }
}

/// Partial sums of amounts are non-negative and at most the whole sum.
pub proof fn lemma_sum_amounts_take(s: Seq<u64>, i: int)
    requires
        0 <= i <= s.len(),
    ensures
        0 <= sum_amounts(s.take(i)) <= sum_amounts(s),
    decreases s.len(),
{
    if s.len() > 0 {
        if i == s.len() {
            assert(s.take(i) =~= s);
            lemma_sum_amounts_take(s.drop_last(), i - 1);
        } else {
            assert(s.drop_last().take(i) =~= s.take(i));
            lemma_sum_amounts_take(s.drop_last(), i);
        }
    } else {
        assert(s.take(i) =~= s);
    }
}

/// Partial sums of unspent-output amounts are non-negative and at most the
/// whole sum.
pub proof fn lemma_sum_utxo_amounts_take(s: Seq<(u64, [u8; 32])>, i: int)
    requires
        0 <= i <= s.len(),
    ensures
        0 <= sum_utxo_amounts(s.take(i)) <= sum_utxo_amounts(s),
    decreases s.len(),
{
    if s.len() > 0 {
        if i == s.len() {
            assert(s.take(i) =~= s);
            lemma_sum_utxo_amounts_take(s.drop_last(), i - 1);
        } else {
            assert(s.drop_last().take(i) =~= s.take(i));
            lemma_sum_utxo_amounts_take(s.drop_last(), i);
        }
    } else {
        assert(s.take(i) =~= s);
    }
}

/// Whether `k` is the least count of the supplied unspent outputs, taken in
/// the order given, whose amounts add up to at least `need`.
pub open spec fn is_cover(utxos: Seq<(u64, [u8; 32])>, need: int, k: int) -> bool {
    &&& 0 <= k <= utxos.len()
    &&& sum_utxo_amounts(utxos.take(k)) >= need
    &&& forall|j: int| 0 <= j < k ==> sum_utxo_amounts(utxos.take(j)) < need
}

/// What a successfully built transaction looks like: it consumes the least
/// covering prefix of the supplied unspent outputs, each input signed by
/// the wallet's key over the referenced identifier; it pays each requested
/// amount to the matching address in order; any surplus over the amounts
/// plus the fee returns to the wallet as a final change output; and its
/// identifier is the digest of its inputs and outputs.
pub open spec fn sent_tx_ok(
    wallet_address: [u8; 32],
    amounts: Seq<u64>,
    mining_fee: u64,
    addresses: Seq<[u8; 32]>,
    utxos: Seq<(u64, [u8; 32])>,
    t: Tx,
) -> bool {
    let need = sum_amounts(amounts) + mining_fee;
    exists|k: int|
        #![trigger utxos.take(k)]
        {
            let taken = sum_utxo_amounts(utxos.take(k));
            let change = taken > need;
            &&& is_cover(utxos, need, k)
            &&& t.inputs@.len() == k
            &&& forall|i: int|
                0 <= i < k ==> ((#[trigger] t.inputs@[i]).txid)@ == (utxos[i].1)@ && sig_verifies(
                    wallet_address@,
                    t.inputs@[i].signature@,
                    (utxos[i].1)@,
                )
            &&& t.outputs@.len() == amounts.len() + (if change {
                1int
            } else {
                0int
            })
            &&& forall|i: int|
                0 <= i < amounts.len() ==> ((#[trigger] t.outputs@[i]).amount == amounts[i]
                    && (t.outputs@[i].address)@ == (addresses[i])@)
            &&& change ==> t.outputs@.last().amount == taken - need
                && (t.outputs@.last().address)@ == wallet_address@
            &&& t.txid@ == txid_of(t.inputs@, t.outputs@)
        }
}

/// A wallet: the signing key it guards, the public-key bytes of that key
/// (its address), and a cached view of its unspent outputs and balance.
pub struct Wallet {
    signing_key: ed25519_dalek::SigningKey,
    address: [u8; 32],
    utxos: Vec<(u64, [u8; 32])>,
    balance: u64,
}

impl Wallet {
    /// The wallet's address: the 32-byte public-key encoding of its key.
    pub closed spec fn spec_address(&self) -> [u8; 32] {
        self.address
    }

    /// The wallet's cached unspent outputs.
    pub closed spec fn spec_utxos(&self) -> Seq<(u64, [u8; 32])> {
        self.utxos@
    }

    /// The wallet's cached balance.
    pub closed spec fn spec_balance(&self) -> u64 {
        self.balance
    }

    /// Relies on `ed25519_dalek::SigningKey::generate` and
    /// `verifying_key`: a fresh random key, whose public-key bytes are
    /// stored as the wallet's address and are never written again.
    #[verifier::external_body]
    pub fn new() -> (r: Wallet)
        ensures
            r.spec_balance() == 0,
            r.spec_utxos().len() == 0,
    {
        let mut csprng = rand::rngs::OsRng;
        let signing_key = ed25519_dalek::SigningKey::generate(&mut csprng);
        let address = signing_key.verifying_key().to_bytes();
        Wallet { signing_key, address, utxos: Vec::new(), balance: 0 }
    }

    /// The wallet's address.
    pub fn address(&self) -> (r: [u8; 32])
        ensures
            r == self.spec_address(),
    {
        self.address
    }

    /// The wallet's cached balance.
    pub fn get_balance(&self) -> (r: u64)
        ensures
            r == self.spec_balance(),
    {
        self.balance
    }

    /// Replaces the cached unspent outputs with the supplied list and the
    /// cached balance with the total of its amounts.
    pub fn calc_balance(&mut self, updated_utxos: &Vec<(u64, [u8; 32])>)
        requires
            sum_utxo_amounts(updated_utxos@) <= u64::MAX,
        ensures
            final(self).spec_utxos() == updated_utxos@,
            final(self).spec_balance() == sum_utxo_amounts(updated_utxos@),
            final(self).spec_address() == old(self).spec_address(),
    {
        let mut copied: Vec<(u64, [u8; 32])> = Vec::new();
        let mut balance: u64 = 0;
        let mut i: usize = 0;
        while i < updated_utxos.len()
            invariant
                i <= updated_utxos@.len(),
                copied@ == updated_utxos@.take(i as int),
                balance == sum_utxo_amounts(updated_utxos@.take(i as int)),
                sum_utxo_amounts(updated_utxos@) <= u64::MAX,
            decreases updated_utxos@.len() - i,
        {
            proof {
                let t = updated_utxos@.take(i + 1);
                assert(t.drop_last() =~= updated_utxos@.take(i as int));
                assert(t.last() == updated_utxos@[i as int]);
                lemma_sum_utxo_amounts_take(updated_utxos@, i + 1);
            }
            balance = balance + updated_utxos[i].0;
            copied.push(updated_utxos[i]);
            i = i + 1;
        }
        proof {
            assert(updated_utxos@.take(updated_utxos@.len() as int) =~= updated_utxos@);
        }
        self.utxos = copied;
        self.balance = balance;
    }

    /// Relies on `ed25519_dalek::SigningKey::sign` (with
    /// `Signature::to_bytes`): the signature it produces over `txid`
    /// verifies under the wallet's address, which `new` set to this key's
    /// public-key bytes.
    #[verifier::external_body]
    fn generate_signature(&self, txid: &[u8; 32]) -> (r: [u8; 64])
        ensures
            sig_verifies(self.spec_address()@, r@, txid@),
    {
        self.signing_key.sign(txid).to_bytes()
    }

    /// Builds a signed transaction paying each amount to the matching
    /// address, consuming the least covering prefix of the supplied
    /// unspent outputs and returning any surplus to the wallet. The cached
    /// balance is refreshed from the supplied outputs first; the build
    /// fails exactly when that balance cannot cover the amounts plus the
    /// fee or the amount and address lists differ in length.
    pub fn send_amounts(
        &mut self,
        amounts: Vec<u64>,
        mining_fee: u64,
        addresses: Vec<[u8; 32]>,
        updated_utxos: &Vec<(u64, [u8; 32])>,
    ) -> (r: Result<Tx, TxError>)
        requires
            sum_amounts(amounts@) + mining_fee <= u64::MAX,
            sum_utxo_amounts(updated_utxos@) <= u64::MAX,
        ensures
            final(self).spec_utxos() == updated_utxos@,
            final(self).spec_balance() == sum_utxo_amounts(updated_utxos@),
            final(self).spec_address() == old(self).spec_address(),
            r is Ok <==> sum_utxo_amounts(updated_utxos@) >= sum_amounts(amounts@) + mining_fee
                && amounts@.len() == addresses@.len(),
            r is Err ==> r == Err::<Tx, TxError>(TxError::InsufficientBalance),
            r matches Ok(t) ==> sent_tx_ok(
                old(self).spec_address(),
                amounts@,
                mining_fee,
                addresses@,
                updated_utxos@,
                t,
            ),
    {
        self.calc_balance(updated_utxos);
        let mut total_amount: u64 = 0;
        let mut a: usize = 0;
        while a < amounts.len()
            invariant
                a <= amounts@.len(),
                total_amount == sum_amounts(amounts@.take(a as int)),
                sum_amounts(amounts@) + mining_fee <= u64::MAX,
            decreases amounts@.len() - a,
        {
            proof {
                let t = amounts@.take(a + 1);
                assert(t.drop_last() =~= amounts@.take(a as int));
                assert(t.last() == amounts@[a as int]);
                lemma_sum_amounts_take(amounts@, a + 1);
            }
            total_amount = total_amount + amounts[a];
            a = a + 1;
        }
        proof {
            assert(amounts@.take(amounts@.len() as int) =~= amounts@);
        }
        if self.balance >= total_amount + mining_fee && amounts.len() == addresses.len() {
            let need = total_amount + mining_fee;
            // Count how many of the supplied outputs are needed to cover
            // the amounts plus the fee.
            let mut utxos_needed: usize = 0;
            let mut sum_of_inputs: u64 = 0;
            while utxos_needed < self.utxos.len() && sum_of_inputs < need
                invariant
                    utxos_needed <= self.utxos@.len(),
                    self.utxos@ == updated_utxos@,
                    self.balance == sum_utxo_amounts(updated_utxos@),
                    sum_utxo_amounts(updated_utxos@) <= u64::MAX,
                    sum_of_inputs == sum_utxo_amounts(self.utxos@.take(utxos_needed as int)),
                    forall|j: int|
                        0 <= j < utxos_needed ==> sum_utxo_amounts(self.utxos@.take(j)) < need,
                decreases self.utxos@.len() - utxos_needed,
            {
                proof {
                    let t = self.utxos@.take(utxos_needed + 1);
                    assert(t.drop_last() =~= self.utxos@.take(utxos_needed as int));
                    assert(t.last() == self.utxos@[utxos_needed as int]);
                    lemma_sum_utxo_amounts_take(self.utxos@, utxos_needed + 1);
                }
                sum_of_inputs = sum_of_inputs + self.utxos[utxos_needed].0;
                utxos_needed = utxos_needed + 1;
            }
            proof {
                assert(self.utxos@.take(self.utxos@.len() as int) =~= self.utxos@);
                assert(sum_of_inputs >= need);
                assert(is_cover(updated_utxos@, need as int, utxos_needed as int));
            }
            // Sign one input per consumed output.
            let mut inputs: Vec<Input> = Vec::new();
            let mut i: usize = 0;
            while i < utxos_needed
                invariant
                    i <= utxos_needed,
                    utxos_needed <= self.utxos@.len(),
                    self.utxos@ == updated_utxos@,
                    inputs@.len() == i,
                    forall|j: int|
                        0 <= j < i ==> ((#[trigger] inputs@[j]).txid)@ == (updated_utxos@[j].1)@
                            && sig_verifies(
                            self.spec_address()@,
                            inputs@[j].signature@,
                            (updated_utxos@[j].1)@,
                        ),
                decreases utxos_needed - i,
            {
                let txid = self.utxos[i].1;
                let signature = self.generate_signature(&txid);
                inputs.push(Input { txid, signature });
                i = i + 1;
            }
            // Pay each amount to its matching address, in order.
            let num_addresses = amounts.len();
            let mut outputs: Vec<Output> = Vec::new();
            let mut o: usize = 0;
            while o < num_addresses
                invariant
                    o <= num_addresses,
                    num_addresses == amounts@.len(),
                    amounts@.len() == addresses@.len(),
                    outputs@.len() == o,
                    forall|j: int|
                        0 <= j < o ==> ((#[trigger] outputs@[j]).amount == amounts@[j]
                            && (outputs@[j].address)@ == (addresses@[j])@),
                decreases num_addresses - o,
            {
                outputs.push(Output { amount: amounts[o], address: addresses[o] });
                o = o + 1;
            }
            // Any surplus over the amounts plus the fee returns to the
            // wallet as change.
            if sum_of_inputs > need {
                outputs.push(Output { amount: sum_of_inputs - need, address: self.address });
            }
            let txid = Tx::generate_txid(&inputs, &outputs);
            let t = Tx { txid, inputs, outputs };
            proof {
                assert(updated_utxos@.take(utxos_needed as int) =~= self.utxos@.take(
                    utxos_needed as int,
                ));
            }
            Ok(t)
        } else {
            Err(TxError::InsufficientBalance)
        }
    }

    /// The single-recipient form of `send_amounts`: one amount, one
    /// address, the same covering, signing, change and failure behaviour.
    pub fn send_amount(
        &mut self,
        amount: u64,
        mining_fee: u64,
        address: [u8; 32],
        updated_utxos: &Vec<(u64, [u8; 32])>,
    ) -> (r: Result<Tx, TxError>)
        requires
            amount + mining_fee <= u64::MAX,
            sum_utxo_amounts(updated_utxos@) <= u64::MAX,
        ensures
            final(self).spec_utxos() == updated_utxos@,
            final(self).spec_balance() == sum_utxo_amounts(updated_utxos@),
            final(self).spec_address() == old(self).spec_address(),
            r is Ok <==> sum_utxo_amounts(updated_utxos@) >= amount + mining_fee,
            r is Err ==> r == Err::<Tx, TxError>(TxError::InsufficientBalance),
            r matches Ok(t) ==> sent_tx_ok(
                old(self).spec_address(),
                seq![amount],
                mining_fee,
                seq![address],
                updated_utxos@,
                t,
            ),
    {
        let mut amounts: Vec<u64> = Vec::new();
        amounts.push(amount);
        let mut addresses: Vec<[u8; 32]> = Vec::new();
        addresses.push(address);
        proof {
            assert(amounts@ =~= seq![amount]);
            assert(addresses@ =~= seq![address]);
            assert(seq![amount].drop_last() =~= Seq::<u64>::empty());
            assert(seq![amount].last() == amount);
            assert(sum_amounts(Seq::<u64>::empty()) == 0);
            assert(sum_amounts(seq![amount]) == amount);
        }
        self.send_amounts(amounts, mining_fee, addresses, updated_utxos)
    }
}

} // verus!
