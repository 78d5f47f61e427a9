//! Tests of the transaction model: identifiers, sizes, fees and errors.
use utxo_ledger::block::Block;
use utxo_ledger::blockchain::Blockchain;
use utxo_ledger::transactions::{Input, Output, Tx, TxError};
use utxo_ledger::wallet::Wallet;

fn digest(seed: u16) -> [u8; 32] {
    let mut d = [0u8; 32];
    d[0] = (seed % 256) as u8;
    d[1] = (seed / 256) as u8;
    d
}

#[test]
fn txid_of_empty_components_is_digest_of_empty_string() {
    // The identifier of a transaction with no inputs and no outputs is the
    // digest of the empty byte string.
    let expected: [u8; 32] = [
        0xaf, 0x13, 0x49, 0xb9, 0xf5, 0xf9, 0xa1, 0xa6, 0xa0, 0x40, 0x4d, 0xea, 0x36, 0xdc, 0xc9,
        0x49, 0x9b, 0xcb, 0x25, 0xc9, 0xad, 0xc1, 0x12, 0xb7, 0xcc, 0x9a, 0x93, 0xca, 0xe4, 0x1f,
        0x32, 0x62,
    ];
    let txid = Tx::generate_txid(&Vec::new(), &Vec::new());
    assert_eq!(txid, expected);
}

#[test]
fn txid_deterministic_and_content_sensitive() {
    let inputs = vec![Input { txid: digest(7), signature: [3u8; 64] }];
    let outputs = vec![Output { amount: 41, address: digest(9) }];
    let a = Tx::generate_txid(&inputs, &outputs);
    let b = Tx::generate_txid(&inputs, &outputs);
    assert_eq!(a, b);
    let outputs2 = vec![Output { amount: 42, address: digest(9) }];
    let c = Tx::generate_txid(&inputs, &outputs2);
    assert_ne!(a, c);
}

#[test]
fn tx_equality_goes_by_identifier() {
    let a = Tx {
        txid: digest(1),
        inputs: vec![],
        outputs: vec![Output { amount: 5, address: digest(2) }],
    };
    let b = Tx { txid: digest(1), inputs: vec![], outputs: vec![] };
    let c = Tx { txid: digest(3), inputs: vec![], outputs: vec![] };
    assert!(a == b);
    assert!(a != c);
}

#[test]
fn tx_sizes_follow_the_fixed_layout() {
    let t0 = Tx { txid: digest(1), inputs: vec![], outputs: vec![] };
    assert_eq!(t0.get_size(), 32);
    let t1 = Tx {
        txid: digest(2),
        inputs: vec![Input { txid: digest(3), signature: [0u8; 64] }],
        outputs: vec![
            Output { amount: 5, address: digest(4) },
            Output { amount: 6, address: digest(5) },
        ],
    };
    assert_eq!(t1.get_size(), 32 + 96 + 40 + 40);
}

#[test]
fn block_size_counts_header_and_transactions() {
    let b = Block {
        index: 0,
        hash: [0; 32],
        previous_hash: [0; 32],
        time: 0,
        target: 0,
        nonce: 0,
        transactions: vec![Tx { txid: digest(1), inputs: vec![], outputs: vec![] }],
    };
    assert_eq!(b.get_size(), 92 + 32);
}

#[test]
fn mining_fee_resolves_inputs_through_the_chain() {
    // A wallet owns one 5000 output recorded in the chain; a transaction
    // spending it with outputs totalling 4790 pays fee 210, scaled by 2^16
    // over its 208-byte size for the ordering key.
    let mut w = Wallet::new();
    let funding = Tx {
        txid: digest(11),
        inputs: vec![],
        outputs: vec![Output { amount: 5000, address: w.address() }],
    };
    let genesis = Block {
        index: 0,
        hash: [0; 32],
        previous_hash: [0; 32],
        time: 0,
        target: 0,
        nonce: 0,
        transactions: vec![],
    };
    let mut chain = Blockchain::create_from_genesis(genesis);
    chain.add_block(Block {
        index: 1,
        hash: [0; 32],
        previous_hash: [0; 32],
        time: 0,
        target: u64::MAX,
        nonce: 0,
        transactions: vec![funding],
    });
    let utxos = vec![(5000u64, digest(11))];
    let tx = w.send_amount(4000, 210, digest(21), &utxos).unwrap();
    assert_eq!(tx.inputs.len(), 1);
    assert_eq!(tx.outputs.len(), 2);
    assert_eq!(tx.outputs[1].amount, 5000 - 4000 - 210);
    assert_eq!(tx.calc_mining_fee(&chain), 210);
    assert_eq!(tx.calc_mining_fee_per_byte(&chain), 210 * 65536 / 208);
}

#[test]
fn send_amount_rejects_insufficient_balance() {
    // A wallet with 100 cannot send 100 with fee 1.
    let mut w = Wallet::new();
    let utxos = vec![(100u64, digest(31))];
    let r = w.send_amount(100, 1, digest(32), &utxos);
    assert!(matches!(r, Err(TxError::InsufficientBalance)));
}

#[test]
fn send_amounts_rejects_mismatched_lists() {
    let mut w = Wallet::new();
    let utxos = vec![(1000u64, digest(41))];
    let r = w.send_amounts(vec![1, 2], 0, vec![digest(42)], &utxos);
    assert!(matches!(r, Err(TxError::InsufficientBalance)));
}

#[test]
fn calc_balance_totals_the_supplied_outputs() {
    let mut w = Wallet::new();
    assert_eq!(w.get_balance(), 0);
    w.calc_balance(&vec![(3u64, digest(51)), (4u64, digest(52))]);
    assert_eq!(w.get_balance(), 7);
}
