//! Tests of mempool admission, eviction and block assembly.
use utxo_ledger::block::Block;
use utxo_ledger::blockchain::Blockchain;
use utxo_ledger::mempool::{Mempool, MAX_MEMPOOL_SIZE};
use utxo_ledger::transactions::{Output, Tx, TxError};
use utxo_ledger::wallet::Wallet;

fn digest(seed: u16) -> [u8; 32] {
    let mut d = [0u8; 32];
    d[0] = (seed % 256) as u8;
    d[1] = (seed / 256) as u8;
    d
}

/// A chain whose block 1 pays the wallet one output of `amount` per seed.
fn funded_chain(w: &Wallet, amounts: &[u64]) -> (Blockchain, Vec<(u64, [u8; 32])>) {
    let genesis = Block {
        index: 0,
        hash: [0; 32],
        previous_hash: [0; 32],
        time: 0,
        target: 0,
        nonce: 0,
        transactions: vec![],
    };
    let mut chain = Blockchain::create_from_genesis(genesis);
    let mut txs = Vec::new();
    let mut utxos = Vec::new();
    for (i, amount) in amounts.iter().enumerate() {
        let tid = digest(i as u16 + 1);
        txs.push(Tx {
            txid: tid,
            inputs: vec![],
            outputs: vec![Output { amount: *amount, address: w.address() }],
        });
        utxos.push((*amount, tid));
    }
    chain.add_block(Block {
        index: 1,
        hash: [0; 32],
        previous_hash: [0; 32],
        time: 0,
        target: u64::MAX,
        nonce: 0,
        transactions: txs,
    });
    (chain, utxos)
}

#[test]
fn add_tx_rejects_unknown_inputs() {
    // A transaction referencing an identifier outside the supplied
    // unspent-output list is turned away as invalid.
    let mut w = Wallet::new();
    let (chain, utxos) = funded_chain(&w, &[5000]);
    let tx = w.send_amount(4000, 210, digest(100), &utxos).unwrap();
    let mut pool = Mempool::new();
    let r = pool.add_tx(tx, &chain, &vec![]);
    assert!(matches!(r, Err(TxError::InvalidInput)));
    assert_eq!(pool.get_size(), 0);
}

#[test]
fn try_add_tx_checks_conservation_first() {
    // A transaction whose outputs exceed what its inputs draw never enters
    // the pool: the bounds check answers that no admission was computed.
    let w = Wallet::new();
    let (chain, _utxos) = funded_chain(&w, &[5000]);
    let bad = Tx {
        txid: digest(77),
        inputs: vec![],
        outputs: vec![Output { amount: 10, address: digest(78) }],
    };
    let mut pool = Mempool::new();
    assert!(pool.try_add_tx(bad, &chain, &vec![]).is_none());
    assert_eq!(pool.get_size(), 0);
    // A sound transaction goes through the ordinary admission.
    let mut w2 = Wallet::new();
    let (chain2, utxos2) = funded_chain(&w2, &[5000]);
    let good = w2.send_amount(4000, 210, digest(79), &utxos2).unwrap();
    let mut pool2 = Mempool::new();
    assert!(matches!(pool2.try_add_tx(good, &chain2, &utxos2), Some(Ok(()))));
    assert_eq!(pool2.get_size(), 208);
}

#[test]
fn fee_priority_eviction_keeps_pool_under_bound() {
    // Fill the pool with equal low-fee transactions until it turns the
    // overflow away, then submit one paying far more per byte: the
    // newcomer is admitted, the cheapest entries summing to at least its
    // size are evicted, and the pooled size never passes the bound.
    let mut w = Wallet::new();
    let amounts: Vec<u64> = (0..1000).map(|_| 5000u64).collect();
    let (chain, utxos) = funded_chain(&w, &amounts);
    let mut pool = Mempool::new();
    for i in 0..1000 {
        let single = vec![utxos[i]];
        // Each transaction spends one funding output: amount 4791 plus
        // change 208 leaves fee 1 on a 208-byte transaction.
        let tx = w.send_amount(4791, 1, digest(2000), &single).unwrap();
        assert_eq!(tx.get_size(), 208);
        let _ = pool.add_tx(tx, &chain, &single);
        assert!(pool.get_size() <= MAX_MEMPOOL_SIZE);
    }
    // 721 transactions of 208 bytes fit strictly under the bound.
    assert_eq!(pool.get_size(), 721 * 208);
    // The high-fee newcomer: spends the last funding output whole, no
    // change, fee 1000 on 168 bytes.
    let single = vec![utxos[999]];
    let rich = w.send_amount(4000, 1000, digest(2001), &single).unwrap();
    assert_eq!(rich.get_size(), 168);
    let rich_txid = rich.txid;
    let r = pool.add_tx(rich, &chain, &single);
    assert!(matches!(r, Ok(())));
    assert!(pool.get_size() <= MAX_MEMPOOL_SIZE);
    // Two 208-byte entries left; the 168-byte newcomer came in.
    assert_eq!(pool.get_size(), 721 * 208 - 2 * 208 + 168);
    assert!(pool.pool.iter().any(|e| e.tx.txid == rich_txid));
}

#[test]
fn block_assembly_takes_best_fees_up_to_the_cap() {
    // 500 equal-size transactions with distinct fees: assembly takes
    // exactly as many as fit under the block bound with header, coinbase
    // and reserve accounted, from the best fee down.
    let mut w = Wallet::new();
    let amounts: Vec<u64> = (0..500).map(|i| 401 + i as u64).collect();
    let (chain, utxos) = funded_chain(&w, &amounts);
    let mut pool = Mempool::new();
    for i in 0..500 {
        let single = vec![utxos[i]];
        // amount 300, change 100, fee i+1 on a 208-byte transaction.
        let tx = w.send_amount(300, (i + 1) as u64, digest(3000), &single).unwrap();
        assert_eq!(tx.get_size(), 208);
        assert!(matches!(pool.add_tx(tx, &chain, &single), Ok(())));
    }
    let mut fee_of = std::collections::BTreeMap::new();
    for e in pool.pool.iter() {
        fee_of.insert(e.tx.txid, e.fee);
    }
    let (selected, total_fees) = pool.calc_valid_tx_pool_and_fees(&chain);
    assert_eq!(selected.len(), (100000 - 92 - 260 - 228) / 208);
    assert_eq!(selected.len(), 477);
    // Non-increasing fee order, here strictly from 500 down to 23.
    let fees: Vec<u64> = selected.iter().map(|t| *fee_of.get(&t.txid).unwrap()).collect();
    for k in 1..fees.len() {
        assert!(fees[k - 1] >= fees[k]);
    }
    assert_eq!(fees[0], 500);
    assert_eq!(*fees.last().unwrap(), 24);
    assert_eq!(total_fees, (24 + 500) * 477 / 2);
    // The passed-over cheapest transactions stay pooled.
    assert_eq!(pool.pool.len(), 23);
}

#[test]
fn drain_of_empty_pool_is_empty() {
    let genesis = Block {
        index: 0,
        hash: [0; 32],
        previous_hash: [0; 32],
        time: 0,
        target: 0,
        nonce: 0,
        transactions: vec![],
    };
    let chain = Blockchain::create_from_genesis(genesis);
    let mut pool = Mempool::new();
    let (selected, fees) = pool.calc_valid_tx_pool_and_fees(&chain);
    assert_eq!(selected.len(), 0);
    assert_eq!(fees, 0);
}
