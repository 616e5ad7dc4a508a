//! A minimal single-process ledger node: a transaction codec, an
//! account-balance ledger, and an append-only block chain with a
//! proof-of-work mining loop.

pub mod blockchain;
pub mod engine;
pub mod ledger;
pub mod transaction;
