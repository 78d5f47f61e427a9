//! End-to-end scenarios: mining, transfers, rescans and closed-system
//! accounting.
use utxo_ledger::block::Block;
use utxo_ledger::blockchain::Blockchain;
use utxo_ledger::global_utxos::GlobalUtxos;
use utxo_ledger::mempool::Mempool;
use utxo_ledger::miner::Miner;
use utxo_ledger::wallet::Wallet;

const TARGET: u64 = 1u64 << 59;

fn genesis_chain() -> Blockchain {
    let genesis = Block {
        index: 0,
        hash: [0; 32],
        previous_hash: [0; 32],
        time: 3,
        target: 4,
        nonce: 5,
        transactions: Vec::new(),
    };
    Blockchain::create_from_genesis(genesis)
}

fn balance_of(index: &mut GlobalUtxos, address: &[u8; 32]) -> u64 {
    match index.get_utxos(address) {
        Some(v) => v.iter().map(|p| p.0).sum(),
        None => 0,
    }
}

fn mine(miner: &Miner, chain: &mut Blockchain, pool: &mut Mempool) {
    let block = miner
        .generate_candidate_block(
            chain.get_height() + 1,
            chain.get_current_hash(),
            TARGET,
            pool,
            chain,
        )
        .unwrap();
    chain.add_block(block);
}

fn leading_u64(hash: &[u8; 32]) -> u64 {
    let mut value: u64 = 0;
    for i in 0..8 {
        value |= (hash[i] as u64) << (8 * (7 - i));
    }
    value
}

#[test]
fn s1_single_wallet_round_trip() {
    // Genesis, then one mined block with an empty mempool: the miner holds
    // the whole subsidy, everyone else holds nothing, and the block is
    // header plus coinbase: 92 + 32 + 96 + 40 bytes.
    let mut bob = Wallet::new();
    let miner = Miner { address: bob.address(), threads: 1 };
    let mut chain = genesis_chain();
    let mut pool = Mempool::new();
    mine(&miner, &mut chain, &mut pool);
    assert_eq!(chain.get_height(), 1);
    // The chain keeps positions and links consistent, and the mined block
    // meets its target.
    for (i, b) in chain.chain.iter().enumerate() {
        assert_eq!(b.index as usize, i);
        if i >= 1 {
            assert_eq!(b.previous_hash, chain.chain[i - 1].hash);
            assert!(leading_u64(&b.hash) <= b.target);
        }
    }
    assert_eq!(chain.chain[1].get_size(), 260);
    let mut index = GlobalUtxos::new();
    index.find_utxos(&chain);
    let utxos = index.get_utxos(&bob.address()).unwrap().clone();
    bob.calc_balance(&utxos);
    assert_eq!(bob.get_balance(), 5_000_000);
    let stranger = Wallet::new();
    assert!(index.get_utxos(&stranger.address()).is_none());
}

#[test]
fn s2_two_party_transfer() {
    // From the single-wallet state, the miner sends 1_000_000 to a second
    // wallet with fee 10 and mines again: the recipient holds the payment,
    // and the miner holds two subsidies plus the recovered fee minus the
    // transfer and the fee: 5_000_000 + 5_000_010 - 1_000_000 - 10.
    let mut a = Wallet::new();
    let b = Wallet::new();
    let miner = Miner { address: a.address(), threads: 1 };
    let mut chain = genesis_chain();
    let mut pool = Mempool::new();
    mine(&miner, &mut chain, &mut pool);
    let mut index = GlobalUtxos::new();
    index.find_utxos(&chain);
    let a_utxos = index.get_utxos(&a.address()).unwrap().clone();
    let tx = a.send_amount(1_000_000, 10, b.address(), &a_utxos).unwrap();
    assert_eq!(tx.get_size(), 32 + 96 + 80);
    assert!(matches!(pool.add_tx(tx, &chain, &a_utxos), Ok(())));
    assert_eq!(pool.get_size(), 208);
    mine(&miner, &mut chain, &mut pool);
    assert_eq!(pool.get_size(), 0);
    index.find_utxos(&chain);
    assert_eq!(balance_of(&mut index, &b.address()), 1_000_000);
    assert_eq!(balance_of(&mut index, &a.address()), 9_000_000);
    // A rebuild from scratch agrees with the incremental rescans.
    let mut rebuilt = GlobalUtxos::rebuild(&chain);
    assert_eq!(balance_of(&mut rebuilt, &a.address()), 9_000_000);
    assert_eq!(balance_of(&mut rebuilt, &b.address()), 1_000_000);
}

#[test]
fn s5_multi_recipient_split() {
    // One 1_000_000 output funds a three-way split with fee 50: one input,
    // three recipient outputs and a change output of 999_350, and after a
    // rescan the four addresses hold exactly those amounts.
    let mut a = Wallet::new();
    let miner = Miner { address: a.address(), threads: 1 };
    let mut chain = genesis_chain();
    let mut pool = Mempool::new();
    mine(&miner, &mut chain, &mut pool);
    // Spend the whole 5_000_000 coinbase down to a single 1_000_000 note
    // first, so the split starts from one output of 1_000_000.
    let mut index = GlobalUtxos::new();
    index.find_utxos(&chain);
    let holder = Wallet::new();
    let a_utxos = index.get_utxos(&a.address()).unwrap().clone();
    let setup = a
        .send_amount(1_000_000, 4_000_000, holder.address(), &a_utxos)
        .unwrap();
    assert!(matches!(pool.add_tx(setup, &chain, &a_utxos), Ok(())));
    mine(&miner, &mut chain, &mut pool);
    index.find_utxos(&chain);
    // The 1_000_000 note now sits with its holder.
    let holder_note = index.get_utxos(&holder.address()).unwrap().clone();
    assert_eq!(holder_note.len(), 1);
    assert_eq!(holder_note[0].0, 1_000_000);
    // The split: three recipients and change.
    let r1 = Wallet::new();
    let r2 = Wallet::new();
    let r3 = Wallet::new();
    let mut holder_mut = holder;
    let split = holder_mut
        .send_amounts(
            vec![100, 200, 300],
            50,
            vec![r1.address(), r2.address(), r3.address()],
            &holder_note,
        )
        .unwrap();
    assert_eq!(split.inputs.len(), 1);
    assert_eq!(split.outputs.len(), 4);
    assert_eq!(split.outputs[3].amount, 999_350);
    assert_eq!(split.outputs[3].address, holder_mut.address());
    assert!(matches!(pool.add_tx(split, &chain, &holder_note), Ok(())));
    mine(&miner, &mut chain, &mut pool);
    index.find_utxos(&chain);
    assert_eq!(balance_of(&mut index, &r1.address()), 100);
    assert_eq!(balance_of(&mut index, &r2.address()), 200);
    assert_eq!(balance_of(&mut index, &r3.address()), 300);
    assert_eq!(balance_of(&mut index, &holder_mut.address()), 999_350);
}

#[test]
fn mining_at_largest_target_always_succeeds() {
    // At the largest target every hash qualifies, so block production is
    // promised, not merely possible.
    let bob = Wallet::new();
    let miner = Miner { address: bob.address(), threads: 1 };
    let mut chain = genesis_chain();
    let mut pool = Mempool::new();
    let block = miner
        .generate_candidate_block(1, chain.get_current_hash(), u64::MAX, &mut pool, &chain)
        .unwrap();
    assert_eq!(block.transactions.len(), 1);
    assert_eq!(block.transactions[0].outputs[0].amount, 5_000_000);
    assert_eq!(block.transactions[0].outputs[0].address, bob.address());
    chain.add_block(block);
    assert_eq!(chain.chain[1].get_size(), 260);
}

#[test]
fn repeated_rescan_is_a_no_op() {
    // Scanning a chain whose tip was already scanned changes nothing.
    let bob = Wallet::new();
    let miner = Miner { address: bob.address(), threads: 1 };
    let mut chain = genesis_chain();
    let mut pool = Mempool::new();
    mine(&miner, &mut chain, &mut pool);
    let mut index = GlobalUtxos::new();
    index.find_utxos(&chain);
    let utxos_before = index.get_utxos(&bob.address()).unwrap().clone();
    let keys_before = index.verifying_keys.clone();
    index.find_utxos(&chain);
    assert_eq!(index.get_utxos(&bob.address()).unwrap().clone(), utxos_before);
    assert_eq!(index.verifying_keys, keys_before);
    assert_eq!(index.known_blockchain_height, 1);
}

#[test]
fn p8_closed_system_balance() {
    // One miner and two wallets, three blocks, two transfers: everything
    // ever minted is three subsidies, and the three balances add up to
    // exactly that, fees included.
    let m = Wallet::new();
    let miner = Miner { address: m.address(), threads: 1 };
    let w1 = Wallet::new();
    let w2 = Wallet::new();
    let mut chain = genesis_chain();
    let mut pool = Mempool::new();
    let mut index = GlobalUtxos::new();
    mine(&miner, &mut chain, &mut pool);
    index.find_utxos(&chain);
    let mut m_mut = m;
    let m_utxos = index.get_utxos(&m_mut.address()).unwrap().clone();
    let t1 = m_mut.send_amount(1000, 10, w1.address(), &m_utxos).unwrap();
    assert!(matches!(pool.add_tx(t1, &chain, &m_utxos), Ok(())));
    mine(&miner, &mut chain, &mut pool);
    index.find_utxos(&chain);
    let mut w1_mut = w1;
    let w1_utxos = index.get_utxos(&w1_mut.address()).unwrap().clone();
    let t2 = w1_mut.send_amount(200, 5, w2.address(), &w1_utxos).unwrap();
    assert!(matches!(pool.add_tx(t2, &chain, &w1_utxos), Ok(())));
    mine(&miner, &mut chain, &mut pool);
    index.find_utxos(&chain);
    let total = balance_of(&mut index, &m_mut.address())
        + balance_of(&mut index, &w1_mut.address())
        + balance_of(&mut index, &w2.address());
    assert_eq!(total, 3 * 5_000_000);
}
