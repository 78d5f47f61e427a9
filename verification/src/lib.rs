//! A verified core of a small UTXO ledger: transactions with deterministic
//! identifiers, an append-only chain of proof-of-work blocks, a fee-priority
//! mempool, a derived index of unspent outputs, wallets and a miner.
pub mod block;
pub mod blockchain;
pub mod bytes;
pub mod crypto;
pub mod global_utxos;
pub mod mempool;
pub mod miner;
pub mod transactions;
pub mod wallet;
