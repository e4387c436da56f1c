//! A single-node ledger: an append-only chain of proof-of-work blocks holding
//! transactions that move value between addresses through unspent outputs.
pub mod bcdb;
pub mod block;
pub mod blockchain;
pub mod codec;
pub mod error;
pub mod proofofwork;
pub mod transaction;
pub mod utils;
pub mod utxo;
