//! A minimal UTXO ledger core: unspent-output accounting, signed payment
//! transactions, Merkle commitments and proof-of-work sealed blocks.

pub mod crypto;
pub mod encoding;
pub mod transaction;
pub mod utxo;
pub mod wallet;
pub mod state;
pub mod tx_builder;
pub mod merkle;
pub mod block;
pub mod chain;
pub mod decoding;
