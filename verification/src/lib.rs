//! A small proof-of-work ledger: transactions staged in a fee-ordered
//! mempool, committed to blocks through a Merkle root, and appended to a
//! hash-linked chain with difficulty adjustment.
pub mod ambient;
pub mod transaction;
pub mod merkle;
pub mod block;
pub mod balances;
pub mod chain;
pub mod hashing;
pub mod numeric;
pub mod sig;
